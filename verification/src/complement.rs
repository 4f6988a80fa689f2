//! The complement engine: for a block at prefix length `m`, the `m`
//! sibling blocks along the path from the root of the address trie to the
//! block, ordered by ascending prefix length. Their union is exactly the
//! set of addresses outside the block.

use vstd::prelude::*;

use crate::bits::{flip_and_clear, flip_clear, lemma_flip_and_clear_bits, lemma_zero_octet_bit,
    octet_bit};
use crate::cidr::Cidr;

verus! {

/// The address bit at global position `n` (position 0 is the most
/// significant bit of octet 0) of a four-octet address.
pub open spec fn addr_bit(a: Seq<u8>, n: int) -> bool
    recommends
        a.len() == 4,
        0 <= n < 32,
{
    octet_bit(a[n / 8], (n % 8) as u8)
}

/// Octet `j` of the sibling block at depth `n` of block `c`: octets before
/// the one holding bit `n` are copied, that octet has bit `n` flipped and
/// the rest of its bits cleared, and later octets are zero.
pub open spec fn sibling_octet(c: Cidr, n: int, j: int) -> u8
    recommends
        0 <= n < 32,
        0 <= j < 4,
{
    if j < n / 8 {
        c.addr[j]
    } else if j == n / 8 {
        flip_and_clear(c.addr[j], (n % 8) as u8)
    } else {
        0u8
    }
}

/// `s` is the sibling, at depth `n`, of the path from the root of the
/// address trie to block `c`: the block reached by flipping bit `n` of
/// `c`'s address and clearing all later bits, with prefix length `n + 1`.
pub open spec fn is_sibling_of(c: Cidr, n: int, s: Cidr) -> bool {
    &&& s.mask == n + 1
    &&& forall|j: int| 0 <= j < 4 ==> s.addr[j] == sibling_octet(c, n, j)
}

/// What the engine returns for block `c`: one sibling per depth along the
/// path to `c`, ordered by ascending prefix length.
pub open spec fn complement_post(c: Cidr, out: Seq<Cidr>) -> bool {
    &&& out.len() == c.mask as int
    &&& forall|n: int| 0 <= n < out.len() ==> is_sibling_of(c, n, #[trigger] out[n])
}

/// Maps a block to the ordered sequence of blocks that cover the
/// complement of the block in the full address space: for each depth `n`
/// below the block's prefix length, the sibling block at depth `n`. The
/// output is ordered by ascending prefix length and has exactly
/// `cidr.mask` entries; a `/0` block yields the empty sequence.
pub fn complement_cidr(cidr: Cidr) -> (out: Vec<Cidr>)
    requires
        cidr.well_formed(),
    ensures
        complement_post(cidr, out@),
{
    let mut out: Vec<Cidr> = Vec::new();
    let mut n: u8 = 0;
    while n < cidr.mask
        invariant
            cidr.well_formed(),
            n <= cidr.mask,
            out@.len() == n as int,
            forall|m: int| 0 <= m < n as int ==> is_sibling_of(cidr, m, #[trigger] out@[m]),
        decreases cidr.mask - n,
    {
        let bi = (n / 8) as usize;
        assert(bi < 4);
        let k = n % 8;
        let flipped = flip_clear(cidr.addr[bi], k);
        let a0 = if bi > 0 {
            cidr.addr[0]
        } else {
            flipped
        };
        let a1 = if bi > 1 {
            cidr.addr[1]
        } else if bi == 1 {
            flipped
        } else {
            0
        };
        let a2 = if bi > 2 {
            cidr.addr[2]
        } else if bi == 2 {
            flipped
        } else {
            0
        };
        let a3 = if bi == 3 {
            flipped
        } else {
            0
        };
        let sib = Cidr { addr: [a0, a1, a2, a3], mask: n + 1 };
        assert(is_sibling_of(cidr, n as int, sib));
        out.push(sib);
        n = n + 1;
    }
    out
}

/// The address `x` (four octets) lies in block `c`: its first
/// `c.mask` bits agree with the block's address.
pub open spec fn block_contains(c: Cidr, x: Seq<u8>) -> bool
    recommends
        c.well_formed(),
        x.len() == 4,
{
    forall|p: int| 0 <= p < c.mask as int ==> addr_bit(x, p) == addr_bit(c.addr@, p)
}

/// The first bit position at or after `i` where `x` differs from the
/// address of `c`, or 32 when none differs.
pub open spec fn first_diff(c: Cidr, x: Seq<u8>, i: int) -> int
    decreases 32 - i when i <= 32
{
    if i >= 32 {
        32
    } else if addr_bit(x, i) != addr_bit(c.addr@, i) {
        i
    } else {
        first_diff(c, x, i + 1)
    }
}

/// How each address bit of a sibling block relates to the original
/// block's bits: equal before the sibling's depth, flipped at it, clear
/// after it.
pub proof fn lemma_sibling_addr_bit(c: Cidr, n: int, s: Cidr, p: int)
    requires
        0 <= n < 32,
        is_sibling_of(c, n, s),
        0 <= p < 32,
    ensures
        p < n ==> addr_bit(s.addr@, p) == addr_bit(c.addr@, p),
        p == n ==> addr_bit(s.addr@, p) == !addr_bit(c.addr@, p),
        p > n ==> !addr_bit(s.addr@, p),
{
    let bi = n / 8;
    let k = (n % 8) as u8;
    let pi = p / 8;
    let pk = (p % 8) as u8;
    assert(n == 8 * bi + (n % 8) && p == 8 * pi + (p % 8));
    assert(s.addr[pi] == sibling_octet(c, n, pi));
    if pi == bi {
        lemma_flip_and_clear_bits(c.addr[bi], k, pk);
    } else if pi > bi {
        lemma_zero_octet_bit(pk);
    }
}

/// An address lies in the sibling at depth `n` of block `c` exactly when
/// it agrees with `c`'s address on the first `n` bits and differs at bit
/// `n`.
pub proof fn lemma_sibling_contains_iff(c: Cidr, n: int, s: Cidr, x: Seq<u8>)
    requires
        c.well_formed(),
        0 <= n < c.mask as int,
        is_sibling_of(c, n, s),
        x.len() == 4,
    ensures
        block_contains(s, x) <==> ((forall|p: int|
            0 <= p < n ==> addr_bit(x, p) == addr_bit(c.addr@, p)) && addr_bit(x, n)
            != addr_bit(c.addr@, n)),
{
    assert(s.mask == n + 1);
    if block_contains(s, x) {
        assert forall|p: int| 0 <= p < n implies addr_bit(x, p) == addr_bit(c.addr@, p) by {
            lemma_sibling_addr_bit(c, n, s, p);
            assert(addr_bit(x, p) == addr_bit(s.addr@, p));
        }
        lemma_sibling_addr_bit(c, n, s, n);
        assert(addr_bit(x, n) == addr_bit(s.addr@, n));
    }
    if (forall|p: int| 0 <= p < n ==> addr_bit(x, p) == addr_bit(c.addr@, p)) && addr_bit(x, n)
        != addr_bit(c.addr@, n) {
        assert forall|p: int| 0 <= p < s.mask as int implies addr_bit(x, p) == addr_bit(
            s.addr@,
            p,
        ) by {
            lemma_sibling_addr_bit(c, n, s, p);
        }
    }
}

/// Properties of `first_diff`: it points at the first differing bit at or
/// after `i`, and at 32 when the 32 address bits all agree.
proof fn lemma_first_diff_props(c: Cidr, x: Seq<u8>, i: int)
    requires
        0 <= i <= 32,
    ensures
        i <= first_diff(c, x, i) <= 32,
        forall|p: int|
            i <= p < first_diff(c, x, i) ==> addr_bit(x, p) == addr_bit(c.addr@, p),
        first_diff(c, x, i) < 32 ==> addr_bit(x, first_diff(c, x, i)) != addr_bit(
            c.addr@,
            first_diff(c, x, i),
        ),
    decreases 32 - i,
{
    if i < 32 && addr_bit(x, i) == addr_bit(c.addr@, i) {
        lemma_first_diff_props(c, x, i + 1);
    }
}

/// Coverage law: every address outside a block lies in at least one block
/// of the block's complement sequence.
pub proof fn lemma_complement_covers(c: Cidr, out: Seq<Cidr>, x: Seq<u8>)
    requires
        c.well_formed(),
        complement_post(c, out),
        x.len() == 4,
        !block_contains(c, x),
    ensures
        exists|n: int| 0 <= n < out.len() && block_contains(#[trigger] out[n], x),
{
    let pd = choose|p: int|
        0 <= p < c.mask as int && addr_bit(x, p) != addr_bit(c.addr@, p);
    let n0 = first_diff(c, x, 0);
    lemma_first_diff_props(c, x, 0);
    assert(n0 <= pd);
    lemma_sibling_contains_iff(c, n0, out[n0], x);
    assert(block_contains(out[n0], x));
}

/// Disjointness law, block side: no block of the complement sequence
/// contains an address of the block itself.
pub proof fn lemma_complement_disjoint_from_block(c: Cidr, out: Seq<Cidr>, x: Seq<u8>)
    requires
        c.well_formed(),
        complement_post(c, out),
        x.len() == 4,
        block_contains(c, x),
    ensures
        forall|n: int| 0 <= n < out.len() ==> !block_contains(#[trigger] out[n], x),
{
    assert forall|n: int| 0 <= n < out.len() implies !block_contains(#[trigger] out[n], x) by {
        lemma_sibling_contains_iff(c, n, out[n], x);
    }
}

/// Disjointness law, pairwise: no address lies in two distinct blocks of
/// the complement sequence.
pub proof fn lemma_complement_blocks_disjoint(
    c: Cidr,
    out: Seq<Cidr>,
    x: Seq<u8>,
    n1: int,
    n2: int,
)
    requires
        c.well_formed(),
        complement_post(c, out),
        x.len() == 4,
        0 <= n1 < n2 < out.len(),
        block_contains(out[n1], x),
    ensures
        !block_contains(out[n2], x),
{
    lemma_sibling_contains_iff(c, n1, out[n1], x);
    lemma_sibling_contains_iff(c, n2, out[n2], x);
}

} // verus!
