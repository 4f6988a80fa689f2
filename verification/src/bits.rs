//! Bit-level utilities over single octets: testing a bit, building an
//! octet's sibling form, and the binary-text helpers.

use vstd::prelude::*;

verus! {

/// True when bit `k` of `b` is set, counting bit 0 as the most
/// significant bit of the octet.
pub open spec fn octet_bit(b: u8, k: u8) -> bool {
    b & (0x80u8 >> k) != 0
}

/// Octet `b` with the bit at position `k` flipped and every bit after it
/// (toward the least significant end) cleared; bits before `k` are kept.
pub open spec fn flip_and_clear(b: u8, k: u8) -> u8 {
    ((b >> ((7 - k) as u8)) ^ 1u8) << ((7 - k) as u8)
}

/// How `flip_and_clear` acts on each bit position: positions before `k`
/// are kept, position `k` is flipped, positions after `k` are cleared.
pub proof fn lemma_flip_and_clear_bits(b: u8, k: u8, j: u8)
    by (bit_vector)
    requires
        k < 8,
        j < 8,
    ensures
        j < k ==> octet_bit(flip_and_clear(b, k), j) == octet_bit(b, j),
        j == k ==> octet_bit(flip_and_clear(b, k), j) == !octet_bit(b, j),
        j > k ==> !octet_bit(flip_and_clear(b, k), j),
{
}

/// No bit of the zero octet is set.
pub proof fn lemma_zero_octet_bit(k: u8)
    by (bit_vector)
    requires
        k < 8,
    ensures
        !octet_bit(0u8, k),
{
}

/// Computes `flip_and_clear` with machine operations.
pub fn flip_clear(b: u8, k: u8) -> (r: u8)
    requires
        k < 8,
    ensures
        r == flip_and_clear(b, k),
{
    ((b >> (7 - k)) ^ 1) << (7 - k)
}

pub open spec fn bin_char(bit: bool) -> char {
    if bit {
        '1'
    } else {
        '0'
    }
}

pub open spec fn is_bin_char(c: char) -> bool {
    c == '0' || c == '1'
}

/// The eight-character binary writing of an octet, most significant bit
/// first.
pub open spec fn bin_str_of(n: u8) -> Seq<char> {
    Seq::new(8, |j: int| bin_char(octet_bit(n, j as u8)))
}

/// The value of a sequence of binary digit characters, most significant
/// first; 0 for the empty sequence.
pub open spec fn bin_val(s: Seq<char>) -> int
    decreases s.len(),
{
    if s.len() == 0 {
        0
    } else {
        bin_val(s.drop_last()) * 2 + (if s.last() == '1' {
            1int
        } else {
            0int
        })
    }
}

spec fn two_pow(e: int) -> int
    decreases e when e >= 0
{
    if e <= 0 {
        1
    } else {
        2 * two_pow(e - 1)
    }
}

proof fn lemma_two_pow_pos(e: int)
    requires
        e >= 0,
    ensures
        two_pow(e) >= 1,
    decreases e,
{
    if e > 0 {
        lemma_two_pow_pos(e - 1);
    }
}

proof fn lemma_two_pow_increases(a: int, b: int)
    requires
        0 <= a <= b,
    ensures
        1 <= two_pow(a) <= two_pow(b),
    decreases b,
{
    lemma_two_pow_pos(a);
    if a < b {
        lemma_two_pow_increases(a, b - 1);
    }
}

proof fn lemma_bin_val_bound(s: Seq<char>)
    ensures
        0 <= bin_val(s) < two_pow(s.len() as int),
    decreases s.len(),
{
    if s.len() > 0 {
        lemma_bin_val_bound(s.drop_last());
    }
}

/// Writes an octet as its eight binary digits, most significant first.
pub fn u8_to_bin(n: u8) -> (r: String)
    ensures
        r@ == bin_str_of(n),
{
    let mut out = String::new();
    let mut j: u8 = 0;
    while j < 8
        invariant
            j <= 8,
            out@ == bin_str_of(n).take(j as int),
        decreases 8 - j,
    {
        if (n & (0x80u8 >> j)) != 0 {
            out.append("1");
        } else {
            out.append("0");
        }
        proof {
            reveal_strlit("1");
            reveal_strlit("0");
            assert(("1")@ =~= seq!['1']);
            assert(("0")@ =~= seq!['0']);
            assert(out@ =~= bin_str_of(n).take(j as int + 1));
        }
        j = j + 1;
    }
    proof {
        assert(bin_str_of(n).take(8) =~= bin_str_of(n));
    }
    out
}

/// Reads up to eight binary digit characters as an octet value, most
/// significant digit first.
pub fn bin_to_u8(b: &str) -> (r: u8)
    requires
        1 <= b@.len() <= 8,
        forall|i: int| 0 <= i < b@.len() ==> is_bin_char(#[trigger] b@[i]),
    ensures
        r as int == bin_val(b@),
{
    let n = b.unicode_len();
    let mut acc: u8 = 0;
    let mut j: usize = 0;
    while j < n
        invariant
            j <= n,
            n as int == b@.len(),
            b@.len() <= 8,
            acc as int == bin_val(b@.take(j as int)),
        decreases n - j,
    {
        proof {
            lemma_bin_val_bound(b@.take(j as int));
            lemma_two_pow_increases(j as int, 7);
            assert(two_pow(0) == 1);
            assert(two_pow(1) == 2);
            assert(two_pow(2) == 4);
            assert(two_pow(3) == 8);
            assert(two_pow(4) == 16);
            assert(two_pow(5) == 32);
            assert(two_pow(6) == 64);
            assert(two_pow(7) == 128);
        }
        let c = b.get_char(j);
        let bit: u8 = if c == '1' {
            1
        } else {
            0
        };
        acc = acc * 2 + bit;
        proof {
            assert(b@.take(j as int + 1).drop_last() =~= b@.take(j as int));
            assert(b@.take(j as int + 1).last() == b@[j as int]);
        }
        j = j + 1;
    }
    proof {
        assert(b@.take(n as int) =~= b@);
    }
    acc
}

} // verus!
