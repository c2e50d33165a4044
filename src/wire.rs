use vstd::prelude::*;
use tokio_util::bytes::BytesMut;
use crate::buffer::{buf_at, buf_bytes};

verus! {

/// The unsigned value of a big-endian byte sequence (empty is zero).
pub open spec fn be_value(s: Seq<u8>) -> nat
    decreases s.len(),
{
    if s.len() == 0 {
        0
    } else {
        be_value(s.drop_last()) * 256 + s.last() as nat
    }
}

/// The shortest big-endian bytes of `v`: no leading zero byte, and empty
/// for zero.
pub open spec fn min_be(v: nat) -> Seq<u8>
    decreases v,
{
    if v == 0 {
        Seq::empty()
    } else {
        min_be(v / 256).push((v % 256) as u8)
    }
}

/// `256` to the power `k`.
pub open spec fn pow256(k: nat) -> nat
    decreases k,
{
    if k == 0 {
        1
    } else {
        256 * pow256((k - 1) as nat)
    }
}

pub proof fn lemma_pow256_8()
    ensures
        pow256(8) == 0x1_0000_0000_0000_0000,
{
    reveal_with_fuel(pow256, 9);
}

pub proof fn lemma_pow256_mono(j: nat, k: nat)
    requires
        j <= k,
    ensures
        pow256(j) <= pow256(k),
    decreases k,
{
    if j < k {
        lemma_pow256_mono(j, (k - 1) as nat);
    }
}

/// A big-endian sequence of `k` bytes holds a value below `256^k`.
pub proof fn lemma_be_value_bound(s: Seq<u8>)
    ensures
        be_value(s) < pow256(s.len()),
    decreases s.len(),
{
    if s.len() > 0 {
        lemma_be_value_bound(s.drop_last());
        let a = be_value(s.drop_last());
        let p = pow256((s.len() - 1) as nat);
        assert(a * 256 + 255 < p * 256) by (nonlinear_arith)
            requires
                a < p,
        ;
    }
}

/// Reading the shortest big-endian bytes of `v` gives `v` back.
pub proof fn lemma_min_be_value(v: nat)
    ensures
        be_value(min_be(v)) == v,
    decreases v,
{
    if v > 0 {
        lemma_min_be_value(v / 256);
        let m = min_be(v);
        assert(m.drop_last() =~= min_be(v / 256));
    }
}

/// The shortest encoding of a nonzero `v` has `k` bytes exactly when
/// `256^(k-1) <= v < 256^k`.
pub proof fn lemma_min_be_len(v: nat)
    ensures
        v == 0 ==> min_be(v).len() == 0,
        v > 0 ==> min_be(v).len() > 0 && pow256((min_be(v).len() - 1) as nat) <= v && v < pow256(
            min_be(v).len(),
        ),
    decreases v,
{
    if v > 0 {
        let q = v / 256;
        lemma_min_be_len(q);
        let l = min_be(q).len();
        assert(min_be(v).len() == l + 1);
        if q > 0 {
            let lo = pow256((l - 1) as nat);
            let hi = pow256(l);
            assert(256 * lo <= v && v < 256 * hi) by (nonlinear_arith)
                requires
                    lo <= q,
                    q < hi,
                    q == v / 256,
            ;
        }
    }
}

/// A 64-bit value needs at most eight bytes.
pub proof fn lemma_min_be_len_u64(v: u64)
    ensures
        min_be(v as nat).len() <= 8,
{
    lemma_min_be_len(v as nat);
    lemma_pow256_8();
    let l = min_be(v as nat).len();
    if l > 8 {
        lemma_pow256_mono(8, (l - 1) as nat);
    }
}

/// The shortest encoding of `v` has `k >= 1` bytes exactly when
/// `256^(k-1) <= v < 256^k`.
pub proof fn lemma_min_be_width(v: nat, k: nat)
    requires
        1 <= k,
    ensures
        min_be(v).len() == k <==> pow256((k - 1) as nat) <= v < pow256(k),
{
    lemma_min_be_len(v);
    lemma_pow256_mono(0, (k - 1) as nat);
    let l = min_be(v).len();
    if v > 0 {
        if l < k {
            lemma_pow256_mono(l, (k - 1) as nat);
        } else if l > k {
            lemma_pow256_mono(k, (l - 1) as nat);
        }
    }
}

/// Reads `width` bytes of `b`, starting at `start`, as a big-endian value.
pub(crate) fn read_be(b: &BytesMut, start: usize, width: usize) -> (r: u64)
    requires
        width <= 8,
        start + width <= buf_bytes(*b).len(),
        buf_bytes(*b).len() <= usize::MAX,
    ensures
        r as nat == be_value(buf_bytes(*b).subrange(start as int, start + width)),
{
    let ghost s = buf_bytes(*b);
    let mut v: u64 = 0;
    let mut i: usize = 0;
    while i < width
        invariant
            s == buf_bytes(*b),
            width <= 8,
            start + width <= s.len(),
            s.len() <= usize::MAX,
            i <= width,
            v as nat == be_value(s.subrange(start as int, start + i)),
        decreases width - i,
    {
        proof {
            lemma_be_value_bound(s.subrange(start as int, start + i));
            lemma_pow256_mono(i as nat, 7);
            reveal_with_fuel(pow256, 8);
            assert(s.subrange(start as int, start + i + 1).drop_last() =~= s.subrange(
                start as int,
                start + i,
            ));
        }
        let d = buf_at(b, start + i);
        v = v * 256 + d as u64;
        i = i + 1;
    }
    v
}

/// The shortest big-endian bytes of `v`.
pub(crate) fn min_be_bytes(v: u64) -> (r: Vec<u8>)
    ensures
        r@ == min_be(v as nat),
        r@.len() <= 8,
{
    let mut out: Vec<u8> = Vec::new();
    let mut x: u64 = v;
    while x > 0
        invariant
            min_be(v as nat) == min_be(x as nat) + out@,
        decreases x,
    {
        let d = (x % 256) as u8;
        assert(min_be(x as nat) == min_be((x / 256) as nat).push(d));
        out.insert(0, d);
        x = x / 256;
        assert(min_be(v as nat) =~= min_be(x as nat) + out@);
    }
    assert(out@ =~= min_be(v as nat));
    proof {
        lemma_min_be_len_u64(v);
    }
    out
}

} // verus!
