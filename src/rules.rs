use vstd::prelude::*;
use vstd::string::StringSliceAdditionalSpecFns;

verus! {

/// The moves of an octal game, by move class; each list is ascending.
#[derive(Clone, Debug, PartialEq)]
pub struct Rules {
    /// Sizes `d` at which a whole heap of size `d` may be removed.
    pub all: Vec<usize>,
    /// Sizes `d` that may be removed leaving one heap.
    pub some: Vec<usize>,
    /// Sizes `d` that may be removed splitting the rest into two heaps.
    pub divide_all: Vec<usize>,
    /// `divide_all` split by parity: even sizes, then odd sizes.
    pub divide: [Vec<usize>; 2],
    /// Number of digits after the separator.
    pub len: usize,
}

/// Every entry is smaller than the next one.
pub open spec fn ascending(s: Seq<usize>) -> bool {
    forall|i: int, j: int| 0 <= i < j < s.len() ==> s[i] < s[j]
}

/// Bit `b` of digit `v` is set.
pub open spec fn digit_has_bit(v: usize, b: usize) -> bool {
    v & (1usize << b) == (1usize << b)
}

/// Move size `x` is selected by bit `b` of the digits (the digit of index 0 is
/// not a move size).
pub open spec fn selects(digits: Seq<usize>, b: usize, x: int) -> bool {
    1 <= x < digits.len() && digit_has_bit(digits[x], b)
}

/// `s` lists, ascending, exactly the move sizes selected by bit `b`.
pub open spec fn lists_bit(s: Seq<usize>, digits: Seq<usize>, b: usize) -> bool {
    &&& ascending(s)
    &&& forall|x: usize| #[trigger] s.contains(x) <==> selects(digits, b, x as int)
}

/// Pushing `v` adds exactly `v` to what a sequence contains.
pub proof fn lemma_contains_push(s: Seq<usize>, v: usize, x: usize)
    ensures
        s.push(v).contains(x) <==> (s.contains(x) || x == v),
{
    if s.push(v).contains(x) {
        let m = choose|m: int| 0 <= m < s.push(v).len() && s.push(v)[m] == x;
        if m < s.len() {
            assert(s[m] == x);
        }
    }
    if x == v {
        assert(s.push(v)[s.len() as int] == x);
    }
    if s.contains(x) {
        let m = choose|m: int| 0 <= m < s.len() && s[m] == x;
        assert(s.push(v)[m] == x);
    }
}

/// A byte of a game code: a decimal digit or the separator.
pub open spec fn code_byte(c: u8) -> bool {
    c == 46 || 48 <= c <= 57
}

/// The digits of a game code, with every separator removed.
pub open spec fn digits_of(b: Seq<u8>) -> Seq<usize>
    decreases b.len(),
{
    if b.len() == 0 {
        Seq::empty()
    } else if b.last() == 46 {
        digits_of(b.drop_last())
    } else {
        digits_of(b.drop_last()).push((b.last() - 48) as usize)
    }
}

/// A game code is made of digits and separators, with at least one digit.
pub open spec fn valid_code(b: Seq<u8>) -> bool {
    &&& forall|i: int| 0 <= i < b.len() ==> code_byte(b[i])
    &&& digits_of(b).len() >= 1
}

impl Rules {
    /// The lists are ascending and hold positive sizes up to `len`, and
    /// `divide` splits `divide_all` by parity.
    pub open spec fn wf(&self) -> bool {
        &&& ascending(self.all@)
        &&& ascending(self.some@)
        &&& ascending(self.divide_all@)
        &&& ascending(self.divide[0]@)
        &&& ascending(self.divide[1]@)
        &&& forall|k: int| 0 <= k < self.all@.len() ==> 1 <= #[trigger] self.all@[k] <= self.len
        &&& forall|k: int|
            0 <= k < self.some@.len() ==> 1 <= #[trigger] self.some@[k] <= self.len
        &&& forall|k: int|
            0 <= k < self.divide_all@.len() ==> 1 <= #[trigger] self.divide_all@[k] <= self.len
        &&& forall|x: usize|
            #[trigger] self.divide[0]@.contains(x) <==> self.divide_all@.contains(x) && x % 2 == 0
        &&& forall|x: usize|
            #[trigger] self.divide[1]@.contains(x) <==> self.divide_all@.contains(x) && x % 2 == 1
    }

    /// The rules that the digits `digits` describe.
    pub open spec fn describes(&self, digits: Seq<usize>) -> bool {
        &&& self.wf()
        &&& self.len == digits.len() - 1
        &&& lists_bit(self.all@, digits, 0)
        &&& lists_bit(self.some@, digits, 1)
        &&& lists_bit(self.divide_all@, digits, 2)
    }
}

/// The indices, ascending and from 1, of the digits whose bit `b` is set.
fn extract_bit(vals: &Vec<usize>, b: usize) -> (r: Vec<usize>)
    requires
        b < 3,
        vals@.len() >= 1,
    ensures
        lists_bit(r@, vals@, b),
        forall|k: int| 0 <= k < r@.len() ==> 1 <= #[trigger] r@[k] < vals@.len(),
{
    let bit: usize = 1 << b;
    let mut r: Vec<usize> = Vec::new();
    let mut i: usize = 1;
    while i < vals.len()
        invariant
            1 <= i <= vals@.len(),
            bit == 1usize << b,
            ascending(r@),
            forall|k: int| 0 <= k < r@.len() ==> 1 <= #[trigger] r@[k] < i,
            forall|x: usize| #[trigger] r@.contains(x) <==> selects(vals@, b, x as int) && x < i,
        decreases vals@.len() - i,
    {
        let ghost before = r@;
        if vals[i] & bit == bit {
            r.push(i);
        }
        proof {
            assert forall|x: usize| #[trigger] r@.contains(x) <==> selects(vals@, b, x as int) && x
                < i + 1 by {
                if r@ != before {
                    lemma_contains_push(before, i, x);
                }
            }
        }
        i = i + 1;
    }
    r
}

/// Reads a game code such as `"0.137"`: the separator is dropped, the digits
/// are indexed from 0, and bits 0, 1 and 2 of the digit of index `i >= 1` make
/// `i` a size of the classes `all`, `some` and `divide`. `None` when a byte is
/// neither a digit nor `.`, or when there is no digit.
pub fn rules_from_str(game: &str) -> (r: Option<Rules>)
    ensures
        match r {
            Some(rules) => valid_code(game.spec_bytes()) && rules.describes(
                digits_of(game.spec_bytes()),
            ),
            None => !valid_code(game.spec_bytes()),
        },
{
    let bytes = game.as_bytes();
    let mut vals: Vec<usize> = Vec::new();
    let mut i: usize = 0;
    while i < bytes.len()
        invariant
            i <= bytes@.len(),
            bytes@ == game.spec_bytes(),
            forall|j: int| 0 <= j < i ==> code_byte(bytes@[j]),
            vals@ == digits_of(bytes@.subrange(0, i as int)),
        decreases bytes@.len() - i,
    {
        let c = bytes[i];
        if !(c == 46 || (48 <= c && c <= 57)) {
            return None;
        }
        if c != 46 {
            vals.push((c - 48) as usize);
        }
        proof {
            assert(bytes@.subrange(0, i + 1).drop_last() == bytes@.subrange(0, i as int));
        }
        i = i + 1;
    }
    proof {
        assert(bytes@.subrange(0, bytes@.len() as int) == bytes@);
    }
    if vals.len() == 0 {
        return None;
    }
    let divide_all = extract_bit(&vals, 2);
    let mut even: Vec<usize> = Vec::new();
    let mut odd: Vec<usize> = Vec::new();
    let mut k: usize = 0;
    while k < divide_all.len()
        invariant
            k <= divide_all@.len(),
            ascending(divide_all@),
            ascending(even@),
            ascending(odd@),
            forall|j: int| 0 <= j < even@.len() ==> exists|m: int| 0 <= m < k && #[trigger] even@[j] == divide_all@[m],
            forall|j: int| 0 <= j < odd@.len() ==> exists|m: int| 0 <= m < k && #[trigger] odd@[j] == divide_all@[m],
            forall|x: usize|
                #[trigger] even@.contains(x) <==> divide_all@.subrange(0, k as int).contains(x) && x % 2 == 0,
            forall|x: usize|
                #[trigger] odd@.contains(x) <==> divide_all@.subrange(0, k as int).contains(x) && x % 2 == 1,
        decreases divide_all@.len() - k,
    {
        let d = divide_all[k];
        proof {
            let s0 = divide_all@.subrange(0, k as int);
            let s1 = divide_all@.subrange(0, k + 1);
            assert(s1 == s0.push(d));
            assert forall|x: usize| s1.contains(x) <==> (s0.contains(x) || x == d) by {
                if s1.contains(x) {
                    let m = choose|m: int| 0 <= m < s1.len() && s1[m] == x;
                    if m < k {
                        assert(s0[m] == x);
                    }
                }
                if x == d {
                    assert(s1[k as int] == x);
                }
                if s0.contains(x) {
                    let m = choose|m: int| 0 <= m < s0.len() && s0[m] == x;
                    assert(s1[m] == x);
                }
            }
        }
        let ghost even0 = even@;
        let ghost odd0 = odd@;
        if d % 2 == 0 {
            even.push(d);
        } else {
            odd.push(d);
        }
        proof {
            assert forall|x: usize| #[trigger] even@.contains(x) <==> divide_all@.subrange(
                0,
                k + 1,
            ).contains(x) && x % 2 == 0 by {
                if d % 2 == 0 {
                    lemma_contains_push(even0, d, x);
                }
            }
            assert forall|x: usize| #[trigger] odd@.contains(x) <==> divide_all@.subrange(
                0,
                k + 1,
            ).contains(x) && x % 2 == 1 by {
                if d % 2 == 1 {
                    lemma_contains_push(odd0, d, x);
                }
            }
        }
        k = k + 1;
    }
    proof {
        assert(divide_all@.subrange(0, divide_all@.len() as int) == divide_all@);
    }
    Some(
        Rules {
            all: extract_bit(&vals, 0),
            some: extract_bit(&vals, 1),
            divide_all,
            divide: [even, odd],
            len: vals.len() - 1,
        },
    )
}

} // verus!
