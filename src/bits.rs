use vstd::prelude::*;

use bitvec::order::Msb0;
use bitvec::vec::BitVec;

verus! {

/// Storage of a bitset: a bitvec bit-vector, seen by Verus only through `bits_of`.
#[verifier::external_body]
pub struct RawBits {
    bv: BitVec<u64, Msb0>,
}

/// The bits held by a bit-vector, in index order.
pub uninterp spec fn bits_of(b: RawBits) -> Seq<bool>;

/// A length that bitvec encodes on every target width: its limit is
/// `usize::MAX >> 3` bits, which is this value for 32-bit targets.
pub const MAX_BITS: usize = 0x1fff_ffff;

/// Relies on `BitVec::repeat(false, len)`: `len` clear bits; it panics above `MAX_BITS`.
#[verifier::external_body]
fn bv_zeros(len: usize) -> (r: RawBits)
    requires
        len <= MAX_BITS,
    ensures
        bits_of(r) == Seq::new(len as nat, |i: int| false),
{
    RawBits { bv: BitVec::repeat(false, len) }
}

/// Relies on `BitSlice::set`: writes one bit, panics out of bounds.
#[verifier::external_body]
fn bv_set(b: &mut RawBits, x: usize)
    requires
        x < bits_of(*old(b)).len(),
    ensures
        bits_of(*final(b)) == bits_of(*old(b)).update(x as int, true),
{
    b.bv.set(x, true);
}

/// Relies on `BitVec::set_elements(0)`: every storage word, hence every live bit, is cleared.
#[verifier::external_body]
fn bv_clear(b: &mut RawBits)
    ensures
        bits_of(*final(b)) == Seq::new(bits_of(*old(b)).len(), |i: int| false),
{
    b.bv.set_elements(0);
}

/// Relies on indexing a `BitSlice`: reads one bit, panics out of bounds.
#[verifier::external_body]
fn bv_get(b: &RawBits, x: usize) -> (r: bool)
    requires
        x < bits_of(*b).len(),
    ensures
        r == bits_of(*b)[x as int],
{
    b.bv[x]
}

/// Relies on `BitSlice::len`.
#[verifier::external_body]
fn bv_len(b: &RawBits) -> (r: usize)
    ensures
        r == bits_of(*b).len(),
{
    b.bv.len()
}

/// Relies on `BitSlice::first_zero`: the index of the first clear bit, if any.
#[verifier::external_body]
fn bv_first_zero(b: &RawBits) -> (r: Option<usize>)
    ensures
        match r {
            Some(i) => i < bits_of(*b).len() && !bits_of(*b)[i as int] && forall|j: int|
                0 <= j < i ==> bits_of(*b)[j],
            None => forall|j: int| 0 <= j < bits_of(*b).len() ==> bits_of(*b)[j],
        },
{
    b.bv.first_zero()
}

/// Relies on `BitSlice::count_zeros`: the number of clear bits.
#[verifier::external_body]
fn bv_count_zeros(b: &RawBits) -> (r: usize)
    ensures
        r == count_clear(bits_of(*b)),
{
    b.bv.count_zeros()
}

/// Relies on `|=` between bit-vectors: bits of `other` are OR-ed in at the same
/// index; bits of `self` past the end of `other` are left as they were.
#[verifier::external_body]
fn bv_or_assign(b: &mut RawBits, other: &RawBits)
    ensures
        bits_of(*final(b)).len() == bits_of(*old(b)).len(),
        forall|i: int|
            0 <= i < bits_of(*old(b)).len() ==> #[trigger] bits_of(*final(b))[i] == (bits_of(
                *old(b),
            )[i] || (i < bits_of(*other).len() && bits_of(*other)[i])),
{
    b.bv |= &other.bv;
}

/// Number of `false` entries of `s`.
pub open spec fn count_clear(s: Seq<bool>) -> nat
    decreases s.len(),
{
    if s.len() == 0 {
        0
    } else {
        count_clear(s.drop_last()) + if s.last() {
            0nat
        } else {
            1nat
        }
    }
}


/// The largest argument that `Bin::make` accepts: the bitset's length then
/// stays addressable on every target width.
pub const BIN_LIMIT: usize = 0x0800_0000;

/// The least power of two that is at least `x`, searching upward from `p`.
pub open spec fn next_pow2_from(x: nat, p: nat) -> nat
    decreases if p < x {
        x - p
    } else {
        0
    },
{
    if p == 0 || p >= x {
        p
    } else {
        next_pow2_from(x, 2 * p)
    }
}

/// The least power of two that is at least `x` (1 for 0).
pub open spec fn next_pow2(x: nat) -> nat {
    next_pow2_from(x, 1)
}

/// Number of bits of a bitset made for values up to `largest`.
pub open spec fn bin_len(largest: nat) -> nat {
    2 * next_pow2(largest) + 2
}

/// `p` is a power of two in the form that `bit_vector` proofs use.
pub open spec fn is_pow2(p: usize) -> bool {
    p > 0 && p & ((p - 1) as usize) == 0
}

proof fn lemma_pow2_double(p: usize)
    requires
        is_pow2(p),
        p < 0x0800_0000,
    ensures
        is_pow2((2 * p) as usize),
        2 * p <= 0x0800_0000,
{
    assert(p > 0 && p & ((p - 1) as usize) == 0 && p < 0x0800_0000usize ==> 2 * p
        <= 0x0800_0000usize) by (bit_vector);
    assert(p > 0 && p & ((p - 1) as usize) == 0 && p < 0x4000_0000usize ==> ((2 * p) as usize)
        & (((2 * p) as usize - 1) as usize) == 0) by (bit_vector);
}

/// Two values up to a power of two `p` have their XOR below `2 * p`.
pub proof fn lemma_xor_below(a: usize, b: usize, p: usize)
    requires
        a <= p,
        b <= p,
        is_pow2(p),
        p < 0x4000_0000,
    ensures
        a ^ b < 2 * p,
{
    assert(a <= p && b <= p && p > 0 && p & ((p - 1) as usize) == 0 && p < 0x4000_0000usize ==> a
        ^ b < 2 * p) by (bit_vector);
}

/// The least power of two at least `x` is a power of two between `x` and
/// `BIN_LIMIT`.
pub proof fn lemma_next_pow2(x: nat)
    requires
        x <= BIN_LIMIT,
    ensures
        is_pow2(next_pow2(x) as usize),
        x <= next_pow2(x) <= BIN_LIMIT,
        x >= 1 ==> next_pow2(x) < 2 * x,
{
    assert(is_pow2(1usize)) by (bit_vector);
    lemma_next_pow2_from(x, 1);
}

/// Doubling the argument doubles the least power of two above it.
pub proof fn lemma_next_pow2_double(x: nat)
    requires
        x >= 1,
    ensures
        next_pow2(2 * x) == 2 * next_pow2(x),
{
    lemma_next_pow2_from_double(x, 1);
}

proof fn lemma_next_pow2_from_double(x: nat, p: nat)
    requires
        p >= 1,
    ensures
        next_pow2_from(2 * x, 2 * p) == 2 * next_pow2_from(x, p),
        2 * x > 1 ==> next_pow2_from(2 * x, 1) == next_pow2_from(2 * x, 2),
    decreases if p < x {
        x - p
    } else {
        0
    },
{
    if p < x {
        lemma_next_pow2_from_double(x, 2 * p);
    }
}

proof fn lemma_next_pow2_from(x: nat, p: usize)
    requires
        is_pow2(p),
        p <= BIN_LIMIT,
        x <= BIN_LIMIT,
    ensures
        is_pow2(next_pow2_from(x, p as nat) as usize),
        x <= next_pow2_from(x, p as nat) <= BIN_LIMIT,
        p < 2 * x ==> next_pow2_from(x, p as nat) < 2 * x,
    decreases if p < x {
        x - p
    } else {
        0
    },
{
    if p < x {
        lemma_pow2_double(p);
        lemma_next_pow2_from(x, (2 * p) as usize);
    }
}

/// Computes the least power of two that is at least `x`.
pub fn next_power_of_two(x: usize) -> (r: usize)
    requires
        x <= BIN_LIMIT,
    ensures
        r == next_pow2(x as nat),
        is_pow2(r),
        x <= r,
        r <= BIN_LIMIT,
{
    let mut p: usize = 1;
    assert(is_pow2(1usize)) by (bit_vector);
    while p < x
        invariant
            1 <= p <= BIN_LIMIT,
            x <= BIN_LIMIT,
            is_pow2(p),
            next_pow2_from(x as nat, p as nat) == next_pow2(x as nat),
        decreases 2 * x - p,
    {
        proof {
            lemma_pow2_double(p);
        }
        p = p * 2;
    }
    p
}

/// A dense bitset; its view is the sequence of its bits.
pub struct Bin {
    bits: RawBits,
}

impl View for Bin {
    type V = Seq<bool>;

    closed spec fn view(&self) -> Seq<bool> {
        bits_of(self.bits)
    }
}

impl Bin {
    /// Sets bit `x`.
    pub fn set_bit(&mut self, x: usize)
        requires
            x < old(self)@.len(),
        ensures
            final(self)@ == old(self)@.update(x as int, true),
    {
        bv_set(&mut self.bits, x);
    }

    /// Clears every bit; the length stays.
    pub fn zero_bits(&mut self)
        ensures
            final(self)@ == Seq::new(old(self)@.len(), |i: int| false),
    {
        bv_clear(&mut self.bits);
    }

    /// Reads bit `x`.
    pub fn get(&self, x: usize) -> (r: bool)
        requires
            x < self@.len(),
        ensures
            r == self@[x as int],
    {
        bv_get(&self.bits, x)
    }

    /// The number of bits.
    pub fn len(&self) -> (r: usize)
        ensures
            r == self@.len(),
    {
        bv_len(&self.bits)
    }

    /// The smallest index whose bit is clear.
    pub fn lowest_unset(&self) -> (r: usize)
        requires
            exists|j: int| 0 <= j < self@.len() && !self@[j],
        ensures
            r < self@.len(),
            !self@[r as int],
            forall|j: int| 0 <= j < r ==> self@[j],
    {
        match bv_first_zero(&self.bits) {
            Some(i) => i,
            None => {
                proof {
                    let j = choose|j: int| 0 <= j < self@.len() && !self@[j];
                    assert(self@[j]);
                }
                0
            },
        }
    }

    /// A cleared bitset with room for `2 * next_pow2(largest) + 2` bits, so that
    /// the XOR of two values up to `largest` always has a bit, and one is left clear.
    pub fn make(largest: usize) -> (r: Self)
        requires
            largest <= BIN_LIMIT,
        ensures
            r@ == Seq::new(bin_len(largest as nat), |i: int| false),
    {
        let bs = 2 * next_power_of_two(largest) + 2;
        Bin { bits: bv_zeros(bs) }
    }

    /// The number of clear bits.
    pub fn count_unset(&self) -> (r: usize)
        ensures
            r == count_clear(self@),
    {
        bv_count_zeros(&self.bits)
    }

    /// ORs the bits of `other` into `self` at the same index; bits of `self`
    /// past the end of `other` stay as they were.
    pub fn set_all_bits_from(&mut self, other: &Self)
        ensures
            final(self)@.len() == old(self)@.len(),
            forall|i: int|
                0 <= i < old(self)@.len() ==> #[trigger] final(self)@[i] == (old(self)@[i] || (i
                    < other@.len() && other@[i])),
    {
        let ghost before = self@;
        bv_or_assign(&mut self.bits, &other.bits);
        assert forall|i: int| 0 <= i < before.len() implies self@[i] == (before[i] || (i
            < other@.len() && other@[i])) by {}
    }
}

} // verus!
