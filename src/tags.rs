use vstd::prelude::*;

verus! {

/// A nimber: a Sprague-Grundy value.
pub type Nimber = usize;

/// A nimber tagged with the parity of the heap size where it was seen,
/// packed as `(g << 1) | parity`.
pub type Nimpos = usize;

/// Nimbers handled by the engine stay below this bound, so that tags and the
/// bitsets indexed by them stay addressable on every target width.
pub const NIMBER_LIMIT: usize = 0x0400_0000;

/// The tag of nimber `g` seen at a heap of size (or parity) `p`.
pub open spec fn tag(g: int, p: int) -> int {
    2 * g + p % 2
}

/// The parity-twisted XOR of two tags combined across a move of length `d`.
pub open spec fn xor_spec(x: usize, y: usize, d: usize) -> usize {
    x ^ y ^ (d & 1)
}

/// Packs nimber `x` and the parity of `p` into one tag.
pub fn to_nimpos(x: Nimber, p: usize) -> (r: Nimpos)
    requires
        x <= usize::MAX / 2,
    ensures
        r == tag(x as int, p as int),
{
    2 * x + p % 2
}

/// Splits a tag into its nimber and its parity.
pub fn from_nimpos(x: Nimpos) -> (r: (Nimber, usize))
    ensures
        r == (x / 2, x % 2),
{
    assert(x >> 1usize == x / 2 && x & 1usize == x % 2) by (bit_vector);
    (x >> 1, x & 1)
}

/// Combines two tags across a move of length `d`: the nimbers are XOR-ed and
/// the parities XOR-ed together with that of `d`.
pub fn xor(x: Nimpos, y: Nimpos, d: usize) -> (r: Nimpos)
    ensures
        r == xor_spec(x, y, d),
{
    x ^ y ^ (d & 1)
}

/// Unpacking a packed tag gives back the nimber and the parity of the heap size.
pub proof fn lemma_nimpos_round_trip(g: Nimber, n: usize)
    requires
        g <= usize::MAX / 2,
    ensures
        tag(g as int, n as int) / 2 == g,
        tag(g as int, n as int) % 2 == n % 2,
{
}

/// Combining tags is commutative, and associative whichever two of them are
/// combined first: the parities of the two moves are counted once each.
pub proof fn lemma_xor_laws(a: Nimpos, b: Nimpos, c: Nimpos, d1: usize, d2: usize)
    ensures
        xor_spec(a, b, d1) == xor_spec(b, a, d1),
        xor_spec(xor_spec(a, b, d1), c, d2) == xor_spec(a, xor_spec(b, c, d1), d2),
{
    assert(a ^ b ^ (d1 & 1) == b ^ a ^ (d1 & 1)) by (bit_vector);
    assert((a ^ b ^ (d1 & 1)) ^ c ^ (d2 & 1) == a ^ (b ^ c ^ (d1 & 1)) ^ (d2 & 1))
        by (bit_vector);
}

} // verus!
