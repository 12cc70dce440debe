//! Helpers on byte strings: structural equality, copying, and the
//! little-endian integer value of a short byte string. Property values in
//! this crate are serialized byte strings, and index keys interpret short
//! strings as 128-bit integers.

use vstd::prelude::*;

verus! {

/// 256 raised to `n`.
pub open spec fn pow256(n: nat) -> nat
    decreases n,
{
    if n == 0 {
        1
    } else {
        256 * pow256((n - 1) as nat)
    }
}

/// The value of a byte string read as a little-endian unsigned integer:
/// the byte at position 0 is the least significant.
pub open spec fn le_val(s: Seq<u8>) -> nat
    decreases s.len(),
{
    if s.len() == 0 {
        0
    } else {
        (s[0] + 256 * le_val(s.subrange(1, s.len() as int))) as nat
    }
}

/// A little-endian value is bounded by 256 to the power of the length.
pub proof fn lemma_le_val_bound(s: Seq<u8>)
    ensures
        le_val(s) < pow256(s.len()),
    decreases s.len(),
{
    if s.len() == 0 {
    } else {
        let rest = s.subrange(1, s.len() as int);
        lemma_le_val_bound(rest);
        assert(s[0] < 256);
        assert(le_val(s) == s[0] + 256 * le_val(rest));
        assert(256 * le_val(rest) <= 256 * (pow256(rest.len()) - 1)) by (nonlinear_arith)
            requires
                le_val(rest) <= pow256(rest.len()) - 1,
        ;
    }
}

/// Byte strings of equal length with the same little-endian value are equal.
pub proof fn lemma_le_val_injective(s: Seq<u8>, t: Seq<u8>)
    requires
        s.len() == t.len(),
        le_val(s) == le_val(t),
    ensures
        s == t,
    decreases s.len(),
{
    if s.len() == 0 {
        assert(s =~= t);
    } else {
        let srest = s.subrange(1, s.len() as int);
        let trest = t.subrange(1, t.len() as int);
        assert(s[0] + 256 * le_val(srest) == t[0] + 256 * le_val(trest));
        assert(s[0] == t[0] && le_val(srest) == le_val(trest)) by (nonlinear_arith)
            requires
                0 <= s[0] < 256,
                0 <= t[0] < 256,
                s[0] + 256 * le_val(srest) == t[0] + 256 * le_val(trest),
        ;
        lemma_le_val_injective(srest, trest);
        assert forall|j: int| 0 <= j < s.len() implies s[j] == t[j] by {
            if j > 0 {
                assert(s[j] == srest[j - 1]);
                assert(t[j] == trest[j - 1]);
            }
        }
        assert(s =~= t);
    }
}

/// `pow256(16)` is exactly 2 to the 128th power.
pub proof fn lemma_pow256_16()
    ensures
        pow256(16) == 0x100000000000000000000000000000000nat,
{
    reveal_with_fuel(pow256, 17);
    assert(pow256(16) == 0x100000000000000000000000000000000nat);
}

/// Structural equality of two byte strings.
pub fn bytes_eq(a: &Vec<u8>, b: &Vec<u8>) -> (r: bool)
    ensures
        r == (a@ == b@),
{
    if a.len() != b.len() {
        assert(a@.len() != b@.len());
        return false;
    }
    let n = a.len();
    let mut i: usize = 0;
    while i < n
        invariant
            n == a@.len() == b@.len(),
            0 <= i <= n,
            forall|j: int| 0 <= j < i ==> a@[j] == b@[j],
        decreases n - i,
    {
        if a[i] != b[i] {
            return false;
        }
        i += 1;
    }
    proof {
        assert(a@ =~= b@);
    }
    true
}

/// A fresh copy of a byte string.
pub fn copy_bytes(src: &Vec<u8>) -> (r: Vec<u8>)
    ensures
        r@ == src@,
{
    let n = src.len();
    let mut out: Vec<u8> = Vec::new();
    let mut i: usize = 0;
    while i < n
        invariant
            n == src@.len(),
            0 <= i <= n,
            out@ == src@.subrange(0, i as int),
        decreases n - i,
    {
        out.push(src[i]);
        proof {
            assert(out@ =~= src@.subrange(0, i + 1));
        }
        i += 1;
    }
    proof {
        assert(out@ =~= src@);
    }
    out
}

/// Reads a byte string of at most 16 bytes as a little-endian `u128`.
pub fn le_u128(bytes: &Vec<u8>) -> (r: u128)
    requires
        bytes@.len() <= 16,
    ensures
        r == le_val(bytes@),
{
    proof {
        lemma_le_val_bound(bytes@);
        lemma_pow256_16();
        lemma_pow256_le(bytes@.len(), 16);
    }
    let n = bytes.len();
    let mut acc: u128 = 0;
    let mut i: usize = n;
    while i > 0
        invariant
            n == bytes@.len() <= 16,
            0 <= i <= n,
            acc == le_val(bytes@.subrange(i as int, n as int)),
            acc < pow256((n - i) as nat),
        decreases i,
    {
        let tail = Ghost(bytes@.subrange(i as int, n as int));
        proof {
            lemma_pow256_16();
            lemma_pow256_le((n - i) as nat, 15);
            assert(acc < pow256(15));
            assert(256 * acc + 255 < 256 * pow256(15)) by (nonlinear_arith)
                requires
                    acc < pow256(15),
            ;
            assert(256 * pow256(15) == pow256(16));
        }
        i -= 1;
        acc = acc * 256 + (bytes[i] as u128);
        proof {
            let s = bytes@.subrange(i as int, n as int);
            assert(s.subrange(1, s.len() as int) =~= tail@);
            assert(le_val(s) == s[0] + 256 * le_val(tail@));
            lemma_le_val_bound(s);
        }
    }
    proof {
        assert(bytes@.subrange(0, n as int) =~= bytes@);
    }
    acc
}

/// `pow256` is monotone in the exponent.
pub proof fn lemma_pow256_le(a: nat, b: nat)
    requires
        a <= b,
    ensures
        pow256(a) <= pow256(b),
    decreases b,
{
    if a < b {
        lemma_pow256_le(a, (b - 1) as nat);
        lemma_pow256_pos((b - 1) as nat);
        assert(pow256(b) == 256 * pow256((b - 1) as nat));
        assert(pow256((b - 1) as nat) <= 256 * pow256((b - 1) as nat)) by (nonlinear_arith)
            requires
                pow256((b - 1) as nat) >= 1,
        ;
    }
}

/// `pow256` is positive.
pub proof fn lemma_pow256_pos(n: nat)
    ensures
        pow256(n) >= 1,
    decreases n,
{
    if n > 0 {
        lemma_pow256_pos((n - 1) as nat);
    }
}

} // verus!
