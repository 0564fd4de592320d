use vstd::prelude::*;
use std::collections::HashSet;

use itertools::Itertools;

use crate::bits::{bin_len, is_pow2, lemma_next_pow2, lemma_xor_below, next_pow2, Bin, BIN_LIMIT};
use crate::rules::Rules;
use crate::tags::{tag, to_nimpos, xor, xor_spec, Nimber, Nimpos, NIMBER_LIMIT};

verus! {

broadcast use vstd::std_specs::hash::group_hash_axioms;

/// `s` contains no tag made by combining two of its tags (one tag with itself
/// included) across a move of parity `p`; in particular the zero tag `p` is
/// not in `s`.
pub open spec fn sidon_closed(s: Set<usize>, p: usize) -> bool {
    &&& !s.contains(p)
    &&& forall|a: usize, b: usize|
        s.contains(a) && s.contains(b) ==> !s.contains(#[trigger] xor_spec(a, b, p))
}

/// Adding `np` to `s` keeps the combinations of parity `p` out of it.
pub open spec fn sidon_ok(s: Set<usize>, np: usize, p: usize) -> bool {
    &&& xor_spec(np, np, p) != np
    &&& !s.contains(xor_spec(np, np, p))
    &&& forall|m: usize| s.contains(m) ==> !s.contains(#[trigger] xor_spec(np, m, p))
    &&& !s.contains(p)
}

/// `np` may join the common tags `s` of parity `p`.
pub open spec fn admissible(s: Set<usize>, np: usize, p: usize) -> bool {
    np != p && sidon_ok(s, np, p)
}

/// `np` is outside `s` and may never join it while `s` only grows.
pub open spec fn blocked(s: Set<usize>, np: usize, p: usize) -> bool {
    !s.contains(np) && !admissible(s, np, p)
}

/// Combining a tag with itself across a move of parity `p` gives the zero
/// tag `p`.
pub proof fn lemma_xor_self(a: usize, p: usize)
    requires
        p < 2,
    ensures
        xor_spec(a, a, p) == p,
{
    assert(p < 2 ==> a ^ a ^ (p & 1) == p) by (bit_vector);
}

proof fn lemma_xor_facts(a: usize, b: usize, p: usize)
    requires
        p < 2,
    ensures
        xor_spec(a, b, p) == xor_spec(b, a, p),
        xor_spec(xor_spec(a, b, p), a, p) == b,
        xor_spec(a, b, p) == a ==> b == p,
{
    assert(a ^ b ^ (p & 1) == b ^ a ^ (p & 1)) by (bit_vector);
    assert((a ^ b ^ (p & 1)) ^ a ^ (p & 1) == b) by (bit_vector);
    assert(p < 2 ==> (a ^ b ^ (p & 1) == a ==> b == p)) by (bit_vector);
}

/// Adding an admissible tag keeps a set closed.
proof fn lemma_insert_closed(s: Set<usize>, np: usize, p: usize)
    requires
        p < 2,
        sidon_closed(s, p),
        admissible(s, np, p),
    ensures
        sidon_closed(s.insert(np), p),
{
    let t = s.insert(np);
    assert forall|a: usize, b: usize| t.contains(a) && t.contains(b) implies !t.contains(
        #[trigger] xor_spec(a, b, p),
    ) by {
        lemma_xor_facts(a, b, p);
        lemma_xor_facts(np, a, p);
        lemma_xor_facts(np, b, p);
        lemma_xor_facts(a, np, p);
        lemma_xor_self(np, p);
        if s.contains(a) && s.contains(b) {
            if xor_spec(a, b, p) == np {
                assert(s.contains(xor_spec(np, a, p)));
            }
        } else if a == np && s.contains(b) {
            assert(xor_spec(np, b, p) != np);
        } else if b == np && s.contains(a) {
            assert(xor_spec(np, a, p) != np);
        }
    }
}

/// A tag kept out of a set stays out of every larger set.
proof fn lemma_blocked_grow(s: Set<usize>, t: Set<usize>, np: usize, p: usize)
    requires
        !admissible(s, np, p),
        s.subset_of(t),
    ensures
        !admissible(t, np, p),
{
    if np != p && !sidon_ok(s, np, p) {
        if !(forall|m: usize| s.contains(m) ==> !s.contains(#[trigger] xor_spec(np, m, p))) {
            let m = choose|m: usize| s.contains(m) && s.contains(#[trigger] xor_spec(np, m, p));
            assert(t.contains(m) && t.contains(xor_spec(np, m, p)));
        }
    }
}

/// Whether `np` passes the Sidon check against the common tags `common`,
/// which `members` lists.
fn can_add_to_common(common: &HashSet<usize>, members: &Vec<usize>, np: Nimpos, parity: usize) -> (r: bool)
    requires
        parity < 2,
        forall|x: usize| #[trigger] common@.contains(x) <==> members@.contains(x),
    ensures
        r == sidon_ok(common@, np, parity),
        r && sidon_closed(common@, parity) ==> sidon_closed(common@.insert(np), parity),
{
    let with_itself = xor(np, np, parity);
    if with_itself == np || common.contains(&with_itself) {
        return false;
    }
    let mut k: usize = 0;
    while k < members.len()
        invariant
            k <= members@.len(),
            forall|x: usize| #[trigger] common@.contains(x) <==> members@.contains(x),
            forall|j: int| 0 <= j < k ==> !common@.contains(#[trigger] xor_spec(np, members@[j], parity)),
        decreases members@.len() - k,
    {
        let x = xor(np, members[k], parity);
        if common.contains(&x) {
            return false;
        }
        k = k + 1;
    }
    proof {
        assert forall|m: usize| common@.contains(m) implies !common@.contains(
            #[trigger] xor_spec(np, m, parity),
        ) by {
            assert(members@.contains(m));
            let j = choose|j: int| 0 <= j < members@.len() && members@[j] == m;
        }
        lemma_xor_self(np, parity);
        if sidon_ok(common@, np, parity) && sidon_closed(common@, parity) {
            lemma_insert_closed(common@, np, parity);
        }
    }
    !common.contains(&parity)
}

/// One parity's admission of observation `(n, gn)` takes the classifier of
/// that parity from the observations `1..n-1` to `1..=n`.
proof fn lemma_admit_step(s0: Octal, s1: Octal, p: int, n: int, gn: usize, r: bool)
    requires
        p == 0 || p == 1,
        s0.active(p),
        s0.base_wf(),
        1 <= n <= s0.done,
        gn == s0.g@[n],
        s0.common_wf(p),
        s0.rares_wf(p, n - 1),
        r == (s0.common[p]@.contains(tag(gn as int, n) as usize) || admissible(
            s0.common[p]@,
            tag(gn as int, n) as usize,
            p as usize,
        )),
        s1.common[p]@ == (if r {
            s0.common[p]@.insert(tag(gn as int, n) as usize)
        } else {
            s0.common[p]@
        }),
        s1.members_match(p),
        s1.rares[p]@ == (if r {
            s0.rares[p]@
        } else {
            s0.rares[p]@.push((n as usize, gn))
        }),
        s1.g == s0.g,
        s1.largest == s0.largest,
        s1.even == s0.even,
        s1.odd == s0.odd,
    ensures
        s1.common_wf(p),
        s1.rares_wf(p, n),
        s1.settled(p, tag(gn as int, n) as usize),
        forall|x: usize| s0.settled(p, x) ==> s1.settled(p, x),
        forall|x: usize| s0.common[p]@.contains(x) ==> s1.common[p]@.contains(x),
        forall|x: usize|
            s1.common[p]@.contains(x) ==> s0.common[p]@.contains(x) || x == tag(gn as int, n),
{
    let np = tag(gn as int, n) as usize;
    let c0 = s0.common[p]@;
    let c1 = s1.common[p]@;
    let pu = p as usize;
    assert(gn <= s0.largest);
    lemma_common_step(s0, s1, p, np, r);
    assert forall|j: int| 0 <= j < s1.rares[p]@.len() implies {
        let e = #[trigger] s1.rares[p]@[j];
        &&& 1 <= e.0 <= n
        &&& e.1 == s1.g@[e.0 as int]
        &&& blocked(c1, tag(e.1 as int, e.0 as int) as usize, pu)
    } by {
        if j < s0.rares[p]@.len() {
            let e = s0.rares[p]@[j];
            assert(s1.rares[p]@[j] == e);
            lemma_blocked_grow(c0, c1, tag(e.1 as int, e.0 as int) as usize, pu);
        }
    }
    assert forall|i: int| 1 <= i <= n implies c1.contains(#[trigger] tag(s1.g@[i] as int, i) as usize)
        || exists|j: int| 0 <= j < s1.rares[p]@.len() && s1.rares[p]@[j].0 == i by {
        if i < n {
            if !c0.contains(tag(s0.g@[i] as int, i) as usize) {
                let j = choose|j: int| 0 <= j < s0.rares[p]@.len() && s0.rares[p]@[j].0 == i;
                assert(s1.rares[p]@[j] == s0.rares[p]@[j]);
            }
        } else if !r {
            assert(s1.rares[p]@[s0.rares[p]@.len() as int].0 == i);
        }
    }
}

/// The rare-list invariant reads only the rare list, the common tags, the
/// sequence and the active parities.
proof fn lemma_rares_frame(a: Octal, b: Octal, p: int, k: int, k2: int)
    requires
        a.rares_wf(p, k),
        k <= k2,
        a.active(p) ==> k == k2,
        a.rares[p] == b.rares[p],
        a.common[p] == b.common[p],
        a.g == b.g,
        a.even == b.even,
        a.odd == b.odd,
    ensures
        b.rares_wf(p, k2),
{
}

/// The nimber left by the `k`-th some move of `rules` from heap `n`.
pub open spec fn some_child_of(rules: Rules, g: Seq<usize>, n: int, k: int) -> usize {
    g[n - rules.some@[k]]
}

/// The nimber left by the `k`-th divide move of `rules` from heap `n` when
/// the heaps left are `i` and `n - d - i`.
pub open spec fn split_child_of(rules: Rules, g: Seq<usize>, n: int, k: int, i: int) -> usize {
    g[i] ^ g[n - rules.divide_all@[k] - i]
}

/// `v` is the nimber of a position reachable from heap `n` in one move, given
/// the nimbers `g` of smaller heaps.
pub open spec fn child_of(rules: Rules, g: Seq<usize>, n: int, v: usize) -> bool {
    ||| v == 0 && exists|k: int| 0 <= k < rules.all@.len() && #[trigger] rules.all@[k] == n
    ||| exists|k: int|
        0 <= k < rules.some@.len() && rules.some@[k] < n && v == #[trigger] some_child_of(rules, g, n, k)
    ||| exists|k: int, i: int|
        0 <= k < rules.divide_all@.len() && 1 <= i && i + rules.divide_all@[k] < n && v
            == #[trigger] split_child_of(rules, g, n, k, i)
}

/// Writing `G[n]` past the observations `1..=k` keeps the rare-list
/// invariant of those observations.
proof fn lemma_rares_g_update(a: Octal, b: Octal, p: int, k: int)
    requires
        a.rares_wf(p, k),
        0 <= k,
        k < b.g@.len(),
        b.g@.len() == a.g@.len(),
        forall|i: int| 0 <= i <= k ==> b.g@[i] == a.g@[i],
        a.rares[p] == b.rares[p],
        a.common[p] == b.common[p],
        a.even == b.even,
        a.odd == b.odd,
    ensures
        b.rares_wf(p, k),
{
    assert forall|i: int| 1 <= i <= k implies tag(b.g@[i] as int, i) == tag(a.g@[i] as int, i) by {}
}

/// One parity's offer of tag `np` to its common tags.
proof fn lemma_common_step(s0: Octal, s1: Octal, p: int, np: usize, r: bool)
    requires
        p == 0 || p == 1,
        s0.active(p),
        s0.base_wf(),
        s0.common_wf(p),
        np < 2 * s0.largest + 2,
        r == (s0.common[p]@.contains(np) || admissible(s0.common[p]@, np, p as usize)),
        s1.common[p]@ == (if r {
            s0.common[p]@.insert(np)
        } else {
            s0.common[p]@
        }),
        s1.members_match(p),
        s1.largest == s0.largest,
        s1.even == s0.even,
        s1.odd == s0.odd,
    ensures
        s1.common_wf(p),
        s1.settled(p, np),
        forall|x: usize| s0.settled(p, x) ==> s1.settled(p, x),
        forall|x: usize| s0.common[p]@.contains(x) ==> s1.common[p]@.contains(x),
        forall|x: usize| s1.common[p]@.contains(x) ==> s0.common[p]@.contains(x) || x == np,
{
    let c0 = s0.common[p]@;
    let c1 = s1.common[p]@;
    let pu = p as usize;
    assert(c0.subset_of(c1));
    if r && !c0.contains(np) {
        lemma_insert_closed(c0, np, pu);
    } else if r {
        assert(c1 =~= c0);
    }
    assert forall|x: usize| s0.settled(p, x) implies s1.settled(p, x) by {
        if blocked(c0, x, pu) {
            lemma_blocked_grow(c0, c1, x, pu);
        }
    }
}

/// `n` is a power of two.
pub fn is_power_of_two(n: usize) -> (r: bool)
    ensures
        r == (n > 0 && n & ((n - 1) as usize) == 0),
{
    n != 0 && n & (n - 1) == 0
}

/// Sort key that puts frequent tags first, then smaller tags.
pub fn frequency_key(e: &(usize, usize)) -> (r: (usize, usize))
    ensures
        r == ((usize::MAX - e.1) as usize, e.0),
{
    (usize::MAX - e.1, e.0)
}

/// Entry `a` (a tag and its count) comes no later than `b` in order of
/// decreasing count, then increasing tag.
pub open spec fn frequency_before(a: (usize, usize), b: (usize, usize)) -> bool {
    a.1 > b.1 || (a.1 == b.1 && a.0 <= b.0)
}

/// Relies on `Itertools::sorted_by_key` (a stable sort, by the standard tuple
/// order of `frequency_key`): the same entries, with decreasing counts, ties
/// by increasing tag.
#[verifier::external_body]
fn sorted_by_frequency(v: Vec<(usize, usize)>) -> (r: Vec<(usize, usize)>)
    ensures
        r@.len() == v@.len(),
        forall|e: (usize, usize)| r@.contains(e) <==> v@.contains(e),
        forall|i: int, j: int| 0 <= i < j < r@.len() ==> frequency_before(r@[i], r@[j]),
{
    v.into_iter().sorted_by_key(|e| frequency_key(e)).collect()
}

/// The common tags `c` of parity `p` after offering them tag `np`.
pub open spec fn offer(c: Set<usize>, np: usize, p: usize) -> Set<usize> {
    if c.contains(np) || admissible(c, np, p) {
        c.insert(np)
    } else {
        c
    }
}

/// The common tags of parity `p` built from nothing by offering, in order,
/// the tag of each entry `(tag, count)` of `s` whose count is positive.
pub open spec fn sweep(s: Seq<(usize, usize)>, p: usize) -> Set<usize>
    decreases s.len(),
{
    if s.len() == 0 {
        Set::empty()
    } else if s.last().1 > 0 {
        offer(sweep(s.drop_last(), p), s.last().0, p)
    } else {
        sweep(s.drop_last(), p)
    }
}

/// The tags that `sweep(s, p)` admits, in the order it admits them.
pub open spec fn sweep_order(s: Seq<(usize, usize)>, p: usize) -> Seq<usize>
    decreases s.len(),
{
    if s.len() == 0 {
        Seq::empty()
    } else {
        let c = sweep(s.drop_last(), p);
        let l = sweep_order(s.drop_last(), p);
        if s.last().1 > 0 && !c.contains(s.last().0) && admissible(c, s.last().0, p) {
            l.push(s.last().0)
        } else {
            l
        }
    }
}

/// `s` holds each tag of `counts` with its count, most frequent first, ties
/// by smaller tag.
pub open spec fn by_frequency(s: Seq<(usize, usize)>, counts: Seq<usize>) -> bool {
    &&& s.len() == counts.len()
    &&& forall|e: (usize, usize)| s.contains(e) <==> (e.0 < counts.len() && e.1 == counts[e.0 as int])
    &&& forall|i: int, j: int| 0 <= i < j < s.len() ==> frequency_before(s[i], s[j])
}

/// Offering tag `np` to parity 0 (`s0` to `s1`), then to parity 1 (`s1` to
/// `s2`), then marking it in `both_common` when both admitted it (`s2` to
/// `s3`) keeps `both_common` exact.
proof fn lemma_both_step(s0: Octal, s1: Octal, s2: Octal, s3: Octal, np: usize, ec: bool, oc: bool)
    requires
        s0.both_wf(),
        s1.even == s0.even && s1.odd == s0.odd,
        s2.even == s0.even && s2.odd == s0.odd,
        s3.even == s0.even && s3.odd == s0.odd,
        s1.common[1] == s0.common[1],
        s2.common[0] == s1.common[0],
        s3.common == s2.common,
        forall|x: usize| s0.settled(0, x) ==> s1.settled(0, x),
        forall|x: usize| s1.settled(1, x) ==> s2.settled(1, x),
        s1.settled(0, np),
        s2.settled(1, np),
        forall|x: usize| s0.common[0]@.contains(x) ==> s1.common[0]@.contains(x),
        forall|x: usize| s1.common[0]@.contains(x) ==> s0.common[0]@.contains(x) || x == np,
        forall|x: usize| s1.common[1]@.contains(x) ==> s2.common[1]@.contains(x),
        forall|x: usize| s2.common[1]@.contains(x) ==> s1.common[1]@.contains(x) || x == np,
        ec == (!s0.even || s1.common[0]@.contains(np)),
        oc == (!s0.odd || s2.common[1]@.contains(np)),
        np < s0.both_common@.len(),
        s3.both_common@ == (if ec && oc {
            s0.both_common@.update(np as int, true)
        } else {
            s0.both_common@
        }),
    ensures
        s3.both_wf(),
{
    assert forall|x: usize| x != np implies (s3.common[0]@.contains(x) <==> s0.common[0]@.contains(x))
        && (s3.common[1]@.contains(x) <==> s0.common[1]@.contains(x)) by {}
    assert forall|x: usize|
        s3.common[0]@.contains(x) || s3.common[1]@.contains(x) implies s3.settled(0, x) && s3.settled(
            1,
            x,
        ) by {
        if x != np {
            assert(s0.common[0]@.contains(x) || s0.common[1]@.contains(x));
            assert(s0.settled(0, x) && s0.settled(1, x));
            assert(s1.settled(0, x));
            assert(s1.settled(1, x));
            assert(s2.settled(1, x));
        } else {
            assert(s1.settled(0, x));
            assert(s2.settled(1, x));
        }
    }
    assert forall|x: usize| x < s3.both_common@.len() implies (#[trigger] s3.both_common@[x as int]
        <==> s3.all_common(x)) by {
        assert(s0.both_common@[x as int] <==> s0.all_common(x));
        if x != np {
            assert(s3.common[0]@.contains(x) <==> s0.common[0]@.contains(x));
            assert(s3.common[1]@.contains(x) <==> s0.common[1]@.contains(x));
        }
    }
}

/// The engine: the nimber sequence computed so far and the classifier of its
/// values into common tags and rare predecessors, one classifier per parity
/// of divide moves.
pub struct Octal {
    /// Common tags of each parity.
    pub common: [HashSet<usize>; 2],
    /// Bit `np` is set iff `np` is common in every active parity.
    pub both_common: Bin,
    /// Rare predecessors `(i, G[i])` of each parity, ascending in `i`.
    pub rares: [Vec<(usize, Nimber)>; 2],
    /// An upper bound of every nimber computed so far.
    pub largest: usize,
    /// The largest divide move size.
    pub last_divide: usize,
    /// Some divide move size is even.
    pub even: bool,
    /// Some divide move size is odd.
    pub odd: bool,
    /// The nimber sequence; `g[n]` is `G[n]` for `1 <= n <= done`.
    pub g: Vec<Nimber>,
    /// The moves of the game.
    pub rules: Rules,
    /// How often each tag has been seen.
    pub counts: Vec<usize>,
    /// Scratch bitset of the accelerated mex.
    pub seen: Bin,
    /// The common tags of each parity, in the order they were admitted.
    pub members: [Vec<usize>; 2],
    /// The number of terms computed so far.
    pub done: usize,
}

impl Octal {
    /// Parity `p` of divide moves occurs in the rules.
    pub open spec fn active(&self, p: int) -> bool {
        if p == 0 {
            self.even
        } else {
            self.odd
        }
    }

    /// Tag `x` is common in every active parity.
    pub open spec fn all_common(&self, x: usize) -> bool {
        &&& self.even ==> self.common[0]@.contains(x)
        &&& self.odd ==> self.common[1]@.contains(x)
    }

    /// In parity `p`, tag `x` is common or can never become so.
    pub open spec fn settled(&self, p: int, x: usize) -> bool {
        !self.active(p) || self.common[p]@.contains(x) || blocked(self.common[p]@, x, p as usize)
    }

    /// The listing of the common tags of parity `p` matches the set.
    pub open spec fn members_match(&self, p: int) -> bool {
        forall|x: usize| #[trigger] self.common[p]@.contains(x) <==> self.members[p]@.contains(x)
    }

    /// Tag `np` is, or may become, common in parity `p`.
    pub open spec fn admits(&self, p: int, np: usize) -> bool {
        self.common[p]@.contains(np) || admissible(self.common[p]@, np, p as usize)
    }

    /// The common tags of parity `p` after offering `np` to them.
    pub open spec fn common_after(&self, p: int, np: usize) -> Set<usize> {
        if self.active(p) && self.admits(p, np) {
            self.common[p]@.insert(np)
        } else {
            self.common[p]@
        }
    }

    /// The listing of the common tags of parity `p` after offering `np`.
    pub open spec fn members_after(&self, p: int, np: usize) -> Seq<usize> {
        if self.active(p) && !self.common[p]@.contains(np) && admissible(self.common[p]@, np, p as usize) {
            self.members[p]@.push(np)
        } else {
            self.members[p]@
        }
    }

    /// `np` is admitted in every active parity.
    pub open spec fn admits_all(&self, np: usize) -> bool {
        (self.even ==> self.admits(0, np)) && (self.odd ==> self.admits(1, np))
    }

    /// The fixed part of the state: rules, sizes and the computed prefix.
    pub open spec fn base_wf(&self) -> bool {
        &&& self.rules.wf()
        &&& self.rules.divide_all@.len() >= 1
        &&& self.last_divide == self.rules.divide_all@.last()
        &&& self.even == (self.rules.divide[0]@.len() > 0)
        &&& self.odd == (self.rules.divide[1]@.len() > 0)
        &&& self.even || self.odd
        &&& 1 <= self.largest < NIMBER_LIMIT
        &&& self.done < self.g@.len()
        &&& forall|i: int| 1 <= i <= self.done ==> #[trigger] self.g@[i] <= self.largest
        &&& self.both_common@.len() == bin_len(2 * self.largest as nat)
        &&& self.seen@.len() == bin_len(self.largest as nat)
        &&& self.counts@.len() == 4 * self.largest + 1
        &&& forall|x: int| 0 <= x < self.counts@.len() ==> #[trigger] self.counts@[x] <= self.done
        &&& forall|x: int|
            2 * self.largest + 2 <= x < self.counts@.len() ==> #[trigger] self.counts@[x] == 0
        &&& forall|i: int|
            1 <= i <= self.done ==> self.counts@[#[trigger] tag(self.g@[i] as int, i)] >= 1
    }

    /// The common tags of parity `p`: listed, closed, bounded, empty when inactive.
    pub open spec fn common_wf(&self, p: int) -> bool {
        &&& self.members_match(p)
        &&& sidon_closed(self.common[p]@, p as usize)
        &&& forall|x: usize| #[trigger] self.common[p]@.contains(x) ==> x < 2 * self.largest + 2
        &&& !self.active(p) ==> self.common[p]@ == Set::<usize>::empty()
    }

    /// The rare list of parity `p` for the observations `1..=k`: true
    /// entries, ascending, kept out of the common tags, and together with
    /// them covering every observation.
    pub open spec fn rares_wf(&self, p: int, k: int) -> bool {
        &&& !self.active(p) ==> self.rares[p]@.len() == 0
        &&& forall|j: int|
            0 <= j < self.rares[p]@.len() ==> {
                let e = #[trigger] self.rares[p]@[j];
                &&& 1 <= e.0 <= k
                &&& e.1 == self.g@[e.0 as int]
                &&& blocked(self.common[p]@, tag(e.1 as int, e.0 as int) as usize, p as usize)
            }
        &&& forall|j: int, l: int|
            0 <= j < l < self.rares[p]@.len() ==> self.rares[p]@[j].0 < self.rares[p]@[l].0
        &&& self.active(p) ==> forall|i: int|
            1 <= i <= k ==> self.common[p]@.contains(#[trigger] tag(self.g@[i] as int, i) as usize)
                || exists|j: int| 0 <= j < self.rares[p]@.len() && self.rares[p]@[j].0 == i
    }

    /// Every common tag is settled in both parities, and `both_common`
    /// marks exactly the tags common in every active parity.
    pub open spec fn both_wf(&self) -> bool {
        &&& forall|x: usize|
            self.common[0]@.contains(x) || self.common[1]@.contains(x) ==> self.settled(0, x)
                && self.settled(1, x)
        &&& forall|x: usize|
            x < self.both_common@.len() ==> (#[trigger] self.both_common@[x as int]
                <==> self.all_common(x))
    }

    /// The classifier state after the observations `1..=k`.
    pub open spec fn inv(&self, k: int) -> bool {
        &&& self.base_wf()
        &&& 0 <= k <= self.done
        &&& self.common_wf(0)
        &&& self.common_wf(1)
        &&& self.rares_wf(0, k)
        &&& self.rares_wf(1, k)
        &&& self.both_wf()
    }

    /// The engine's invariant: every computed term is classified.
    pub open spec fn wf(&self) -> bool {
        self.inv(self.done as int)
    }

    /// `r` is the least nimber that is not the nimber of a child of heap `n`.
    pub open spec fn is_mex(&self, n: int, r: usize) -> bool {
        &&& !child_of(self.rules, self.g@, n, r)
        &&& forall|j: usize| j < r ==> child_of(self.rules, self.g@, n, j)
    }

    /// Every child nimber of heap `n` is below `2 * next_pow2(largest)`.
    pub proof fn lemma_child_bound(&self, n: int, v: usize)
        requires
            self.base_wf(),
            1 <= n <= self.done + 1,
            child_of(self.rules, self.g@, n, v),
        ensures
            v < 2 * next_pow2(self.largest as nat),
    {
        let p = next_pow2(self.largest as nat);
        lemma_next_pow2(self.largest as nat);
        if exists|k: int|
            0 <= k < self.rules.some@.len() && self.rules.some@[k] < n && v == #[trigger] some_child_of(self.rules, self.g@, n, k) {
            let k = choose|k: int|
                0 <= k < self.rules.some@.len() && self.rules.some@[k] < n && v == #[trigger] some_child_of(self.rules, self.g@, n, k);
            assert(self.g@[n - self.rules.some@[k]] <= self.largest);
        } else if exists|k: int, i: int|
            0 <= k < self.rules.divide_all@.len() && 1 <= i && i + self.rules.divide_all@[k] < n && v
                == #[trigger] split_child_of(self.rules, self.g@, n, k, i) {
            let (k, i) = choose|k: int, i: int|
                0 <= k < self.rules.divide_all@.len() && 1 <= i && i + self.rules.divide_all@[k] < n && v
                    == #[trigger] split_child_of(self.rules, self.g@, n, k, i);
            let d = self.rules.divide_all@[k];
            assert(self.g@[i] <= self.largest);
            assert(self.g@[n - d - i] <= self.largest);
            lemma_xor_below(self.g@[i], self.g@[n - d - i], p as usize);
        }
    }

    /// Reference mex: the least nimber not reached from heap `n` by any move,
    /// enumerating every move.
    pub fn def(&mut self, n: usize) -> (r: usize)
        requires
            old(self).wf(),
            1 <= n <= old(self).done + 1,
            n < old(self).g@.len(),
        ensures
            *final(self) == *old(self),
            old(self).is_mex(n as int, r),
    {
        let ghost p = next_pow2(self.largest as nat);
        proof {
            lemma_next_pow2(self.largest as nat);
        }
        let mut seen = Bin::make(self.largest);
        let mut k: usize = 0;
        while k < self.rules.all.len()
            invariant
                self.wf(),
                1 <= n <= self.done + 1,
                n < self.g@.len(),
                seen@.len() == 2 * p + 2,
                forall|v: usize| v < seen@.len() && #[trigger] seen@[v as int] ==> child_of(self.rules, self.g@, n as int, v),
                forall|j: int| 0 <= j < k && self.rules.all@[j] == n ==> seen@[0],
            decreases self.rules.all@.len() - k,
        {
            let d = self.rules.all[k];
            if n == d {
                assert(self.rules.all@[k as int] == n);
                seen.set_bit(0);
            }
            k = k + 1;
        }
        let mut k: usize = 0;
        while k < self.rules.some.len()
            invariant
                self.wf(),
                1 <= n <= self.done + 1,
                n < self.g@.len(),
                p == next_pow2(self.largest as nat),
                self.largest <= p,
                seen@.len() == 2 * p + 2,
                forall|v: usize| v < seen@.len() && #[trigger] seen@[v as int] ==> child_of(self.rules, self.g@, n as int, v),
                forall|j: int| 0 <= j < self.rules.all@.len() && self.rules.all@[j] == n ==> seen@[0],
                forall|j: int|
                    0 <= j < k && self.rules.some@[j] < n ==> some_child_of(self.rules, self.g@, n as int, j) < seen@.len() && seen@[some_child_of(self.rules, self.g@, n as int, j) as int],
            decreases self.rules.some@.len() - k,
        {
            let d = self.rules.some[k];
            if n > d {
                assert(self.g@[n - d] <= self.largest);
                assert(some_child_of(self.rules, self.g@, n as int, k as int) == self.g@[n - d]);
                seen.set_bit(self.g[n - d]);
            }
            k = k + 1;
        }
        let mut k: usize = 0;
        while k < self.rules.divide_all.len()
            invariant
                self.wf(),
                1 <= n <= self.done + 1,
                n < self.g@.len(),
                p == next_pow2(self.largest as nat),
                is_pow2(p as usize),
                self.largest <= p <= BIN_LIMIT,
                seen@.len() == 2 * p + 2,
                forall|v: usize| v < seen@.len() && #[trigger] seen@[v as int] ==> child_of(self.rules, self.g@, n as int, v),
                forall|j: int| 0 <= j < self.rules.all@.len() && self.rules.all@[j] == n ==> seen@[0],
                forall|j: int|
                    0 <= j < self.rules.some@.len() && self.rules.some@[j] < n ==> some_child_of(self.rules, self.g@, n as int, j) < seen@.len() && seen@[some_child_of(self.rules, self.g@, n as int, j) as int],
                forall|j: int, i: int|
                    0 <= j < k && self.rules.divide_all@[j] < n && 1 <= i <= (n - self.rules.divide_all@[j]) / 2
                        ==> split_child_of(self.rules, self.g@, n as int, j, i) < seen@.len() && seen@[#[trigger] split_child_of(self.rules, self.g@, n as int, j, i) as int],
            decreases self.rules.divide_all@.len() - k,
        {
            let d = self.rules.divide_all[k];
            if n > d {
                let mut i: usize = 1;
                while i <= (n - d) / 2
                    invariant
                        self.wf(),
                        1 <= n <= self.done + 1,
                        n < self.g@.len(),
                        d == self.rules.divide_all@[k as int],
                        k < self.rules.divide_all@.len(),
                        d < n,
                        1 <= i <= (n - d) / 2 + 1,
                        p == next_pow2(self.largest as nat),
                        is_pow2(p as usize),
                        self.largest <= p <= BIN_LIMIT,
                        seen@.len() == 2 * p + 2,
                        forall|v: usize| v < seen@.len() && #[trigger] seen@[v as int] ==> child_of(self.rules, self.g@, n as int, v),
                        forall|j: int| 0 <= j < self.rules.all@.len() && self.rules.all@[j] == n ==> seen@[0],
                        forall|j: int|
                            0 <= j < self.rules.some@.len() && self.rules.some@[j] < n ==> some_child_of(self.rules, self.g@, n as int, j) < seen@.len() && seen@[some_child_of(self.rules, self.g@, n as int, j) as int],
                        forall|j: int, i2: int|
                            0 <= j < k && self.rules.divide_all@[j] < n && 1 <= i2 <= (n - self.rules.divide_all@[j]) / 2
                                ==> split_child_of(self.rules, self.g@, n as int, j, i2) < seen@.len() && seen@[#[trigger] split_child_of(self.rules, self.g@, n as int, j, i2) as int],
                        forall|i2: int| 1 <= i2 < i ==> split_child_of(self.rules, self.g@, n as int, k as int, i2) < seen@.len() && seen@[#[trigger] split_child_of(self.rules, self.g@, n as int, k as int, i2) as int],
                    decreases (n - d) / 2 + 1 - i,
                {
                    assert(self.g@[i as int] <= self.largest);
                    assert(self.g@[n - d - i] <= self.largest);
                    proof {
                        lemma_xor_below(self.g@[i as int], self.g@[n - d - i], p as usize);
                    }
                    let x = self.g[i] ^ self.g[n - d - i];
                    assert(x == split_child_of(self.rules, self.g@, n as int, k as int, i as int));
                    assert(child_of(self.rules, self.g@, n as int, x));
                    seen.set_bit(x);
                    i = i + 1;
                }
            }
            k = k + 1;
        }
        proof {
            let top = (2 * p) as usize;
            if seen@[top as int] {
                self.lemma_child_bound(n as int, top);
            }
        }
        let r = seen.lowest_unset();
        proof {
            assert forall|j: usize| j < r implies child_of(self.rules, self.g@, n as int, j) by {
                assert(seen@[j as int]);
            }
            if child_of(self.rules, self.g@, n as int, r) {
                self.lemma_child_bound(n as int, r);
                if exists|k: int|
                    0 <= k < self.rules.some@.len() && self.rules.some@[k] < n && r == #[trigger] some_child_of(self.rules, self.g@, n as int, k) {
                    let k = choose|k: int|
                        0 <= k < self.rules.some@.len() && self.rules.some@[k] < n && r == #[trigger] some_child_of(self.rules, self.g@, n as int, k);
                    assert(seen@[r as int]);
                } else if exists|k: int, i: int|
                    0 <= k < self.rules.divide_all@.len() && 1 <= i && i + self.rules.divide_all@[k] < n && r
                        == #[trigger] split_child_of(self.rules, self.g@, n as int, k, i) {
                    let (k, i) = choose|k: int, i: int|
                        0 <= k < self.rules.divide_all@.len() && 1 <= i && i + self.rules.divide_all@[k] < n && r
                            == #[trigger] split_child_of(self.rules, self.g@, n as int, k, i);
                    let d = self.rules.divide_all@[k];
                    if i > (n - d) / 2 {
                        let i2 = n - d - i;
                        let a = self.g@[i];
                        let b = self.g@[i2];
                        assert(a ^ b == b ^ a) by (bit_vector);
                        assert(split_child_of(self.rules, self.g@, n as int, k, i2) == r);
                        assert(seen@[r as int]);
                    } else {
                        assert(seen@[r as int]);
                    }
                }
            }
        }
        r
    }

    /// Adds `np` to the common tags of `parity` if it passes the Sidon check;
    /// `true` when `np` is common afterwards.
    pub fn add_to_common(&mut self, np: Nimpos, parity: usize) -> (r: bool)
        requires
            parity < 2,
            old(self).members_match(parity as int),
        ensures
            r == (old(self).common[parity as int]@.contains(np) || admissible(
                old(self).common[parity as int]@,
                np,
                parity,
            )),
            final(self).common[parity as int]@ == (if r {
                old(self).common[parity as int]@.insert(np)
            } else {
                old(self).common[parity as int]@
            }),
            final(self).members[parity as int]@ == (if !old(self).common[parity as int]@.contains(np)
                && admissible(old(self).common[parity as int]@, np, parity) {
                old(self).members[parity as int]@.push(np)
            } else {
                old(self).members[parity as int]@
            }),
            final(self).members_match(parity as int),
            final(self).common[1 - parity] == old(self).common[1 - parity],
            final(self).members[1 - parity] == old(self).members[1 - parity],
            final(self).rares == old(self).rares,
            final(self).both_common == old(self).both_common,
            final(self).largest == old(self).largest,
            final(self).last_divide == old(self).last_divide,
            final(self).even == old(self).even,
            final(self).odd == old(self).odd,
            final(self).g == old(self).g,
            final(self).rules == old(self).rules,
            final(self).counts == old(self).counts,
            final(self).seen == old(self).seen,
            final(self).done == old(self).done,
    {
        if self.common[parity].contains(&np) {
            return true;
        }
        let not_zero = np != parity;

        if not_zero && can_add_to_common(&self.common[parity], &self.members[parity], np, parity) {
            let ghost before = self.members[parity as int]@;
            self.common[parity].insert(np);
            self.members[parity].push(np);
            proof {
                assert forall|x: usize| #[trigger]
                    self.common[parity as int]@.contains(x) <==> self.members[parity as int]@.contains(
                        x,
                    ) by {
                    crate::rules::lemma_contains_push(before, np, x);
                }
            }
            true
        } else {
            false
        }
    }

    /// Admits observation `(n, gn)` into parity `parity`: its tag becomes or
    /// stays common (`true`), or `(n, gn)` is appended to the rare list.
    pub fn add_to_common_or_rare(&mut self, n: usize, gn: Nimber, parity: usize) -> (r: bool)
        requires
            parity < 2,
            gn < NIMBER_LIMIT,
            old(self).members_match(parity as int),
        ensures
            r == (old(self).common[parity as int]@.contains(tag(gn as int, n as int) as usize)
                || admissible(
                old(self).common[parity as int]@,
                tag(gn as int, n as int) as usize,
                parity,
            )),
            final(self).common[parity as int]@ == (if r {
                old(self).common[parity as int]@.insert(tag(gn as int, n as int) as usize)
            } else {
                old(self).common[parity as int]@
            }),
            final(self).rares[parity as int]@ == (if r {
                old(self).rares[parity as int]@
            } else {
                old(self).rares[parity as int]@.push((n, gn))
            }),
            final(self).members_match(parity as int),
            final(self).common[1 - parity] == old(self).common[1 - parity],
            final(self).members[1 - parity] == old(self).members[1 - parity],
            final(self).rares[1 - parity] == old(self).rares[1 - parity],
            final(self).both_common == old(self).both_common,
            final(self).largest == old(self).largest,
            final(self).last_divide == old(self).last_divide,
            final(self).even == old(self).even,
            final(self).odd == old(self).odd,
            final(self).g == old(self).g,
            final(self).rules == old(self).rules,
            final(self).counts == old(self).counts,
            final(self).seen == old(self).seen,
            final(self).done == old(self).done,
    {
        let np = to_nimpos(gn, n);
        if self.add_to_common(np, parity) {
            true
        } else {
            self.rares[parity].push((n, gn));
            false
        }
    }

    /// Admits observation `(n, gn)`, with `gn == G[n]`, in every active
    /// parity, and marks its tag in `both_common` when it is common in all of
    /// them.
    pub fn add_to_both_common_or_rare(&mut self, n: usize, gn: Nimber)
        requires
            old(self).inv(n - 1),
            1 <= n == old(self).done,
            gn == old(self).g@[n as int],
        ensures
            final(self).inv(n as int),
            final(self).common[0]@ == old(self).common_after(0, tag(gn as int, n as int) as usize),
            final(self).common[1]@ == old(self).common_after(1, tag(gn as int, n as int) as usize),
            final(self).rares[0]@ == (if old(self).even && !old(self).admits(0, tag(gn as int, n as int) as usize) {
                old(self).rares[0]@.push((n, gn))
            } else {
                old(self).rares[0]@
            }),
            final(self).rares[1]@ == (if old(self).odd && !old(self).admits(1, tag(gn as int, n as int) as usize) {
                old(self).rares[1]@.push((n, gn))
            } else {
                old(self).rares[1]@
            }),
            final(self).both_common@ == (if old(self).admits_all(tag(gn as int, n as int) as usize) {
                old(self).both_common@.update(tag(gn as int, n as int), true)
            } else {
                old(self).both_common@
            }),
            final(self).largest == old(self).largest,
            final(self).last_divide == old(self).last_divide,
            final(self).even == old(self).even,
            final(self).odd == old(self).odd,
            final(self).g == old(self).g,
            final(self).rules == old(self).rules,
            final(self).counts == old(self).counts,
            final(self).seen == old(self).seen,
            final(self).done == old(self).done,
    {
        let ghost s0 = *self;
        let ghost np = tag(gn as int, n as int) as usize;
        assert(gn <= self.largest);
        let ec = if self.even {
            self.add_to_common_or_rare(n, gn, 0)
        } else {
            true
        };
        let ghost s1 = *self;
        proof {
            if s0.even {
                lemma_admit_step(s0, s1, 0, n as int, gn, ec);
            } else {
                assert(s1.common[0] == s0.common[0]);
            }
        }
        let oc = if self.odd {
            self.add_to_common_or_rare(n, gn, 1)
        } else {
            true
        };
        let ghost s2 = *self;
        proof {
            if s0.odd {
                lemma_admit_step(s1, s2, 1, n as int, gn, oc);
            } else {
                assert(s2.common[1] == s1.common[1]);
            }
        }

        if ec && oc {
            let np = to_nimpos(gn, n);
            assert(np < bin_len(2 * self.largest as nat)) by {
                crate::bits::lemma_next_pow2(2 * self.largest as nat);
            }
            self.both_common.set_bit(np);
        }
        proof {
            assert(s1.common[1] == s0.common[1]);
            assert(s2.common[0] == s1.common[0]);
            lemma_next_pow2(2 * s0.largest as nat);
            lemma_both_step(s0, s1, s2, *self, np, ec, oc);
            assert(self.base_wf());
            assert(self.common_wf(0));
            assert(self.common_wf(1));
            if s0.even {
                lemma_rares_frame(s1, *self, 0, n as int, n as int);
            } else {
                lemma_rares_frame(s0, *self, 0, n - 1, n as int);
            }
            if s0.odd {
                lemma_rares_frame(s2, *self, 1, n as int, n as int);
            } else {
                lemma_rares_frame(s0, *self, 1, n - 1, n as int);
            }
            assert(self.both_wf());
        }
    }

    /// All fields but the scratch bitset `seen` agree.
    pub open spec fn same_but_seen(&self, o: &Octal) -> bool {
        &&& self.common == o.common
        &&& self.both_common == o.both_common
        &&& self.rares == o.rares
        &&& self.largest == o.largest
        &&& self.last_divide == o.last_divide
        &&& self.even == o.even
        &&& self.odd == o.odd
        &&& self.g == o.g
        &&& self.rules == o.rules
        &&& self.counts == o.counts
        &&& self.members == o.members
        &&& self.done == o.done
    }

    /// Changing only the scratch bitset, and not its length, keeps the invariant.
    pub proof fn lemma_wf_seen(&self, o: &Octal)
        requires
            self.wf(),
            o.same_but_seen(self),
            o.seen@.len() == self.seen@.len(),
        ensures
            o.wf(),
    {
        assert(o.base_wf());
        assert(o.common_wf(0));
        assert(o.common_wf(1));
        lemma_rares_frame(*self, *o, 0, self.done as int, self.done as int);
        lemma_rares_frame(*self, *o, 1, self.done as int, self.done as int);
        assert forall|x: usize|
            o.common[0]@.contains(x) || o.common[1]@.contains(x) implies o.settled(0, x) && o.settled(
                1,
                x,
            ) by {
            assert(self.settled(0, x) && self.settled(1, x));
        }
        assert forall|x: usize| x < o.both_common@.len() implies (#[trigger] o.both_common@[x as int]
            <==> o.all_common(x)) by {
            assert(self.both_common@[x as int] <==> self.all_common(x));
        }
    }

    /// Heap `n` is in the range where the accelerated mex applies.
    pub open spec fn rc_ready(&self, n: int) -> bool {
        &&& self.wf()
        &&& self.rules.len < n <= self.done + 1
        &&& n < self.g@.len()
    }

    /// Every bit set in `seen` is the nimber of a child of heap `n`.
    pub open spec fn seen_sound(&self, n: int) -> bool {
        forall|v: usize| v < self.seen@.len() && #[trigger] self.seen@[v as int] ==> child_of(self.rules, self.g@, n, v)
    }

    /// Bits set in `seen` stay set.
    pub open spec fn seen_grows(&self, o: &Octal) -> bool {
        forall|v: int| 0 <= v < self.seen@.len() && #[trigger] self.seen@[v] ==> o.seen@[v]
    }

    /// Sets the nimbers reached by the some moves.
    fn set_some(&mut self, n: usize)
        requires
            old(self).rc_ready(n as int),
            old(self).seen_sound(n as int),
        ensures
            final(self).same_but_seen(old(self)),
            final(self).wf(),
            final(self).seen_sound(n as int),
            old(self).seen_grows(final(self)),
            final(self).seen_has_some(n as int),
    {
        let ghost s0 = *self;
        let mut k: usize = 0;
        while k < self.rules.some.len()
            invariant
                self.same_but_seen(&s0),
                self.seen@.len() == s0.seen@.len(),
                s0.rc_ready(n as int),
                self.seen_sound(n as int),
                s0.seen_grows(self),
                forall|j: int| 0 <= j < k ==> some_child_of(self.rules, self.g@, n as int, j) < self.seen@.len() && self.seen@[#[trigger] some_child_of(self.rules, self.g@, n as int, j) as int],
            decreases self.rules.some@.len() - k,
        {
            let d = self.rules.some[k];
            assert(1 <= d <= self.rules.len);
            assert(self.g@[n - d] <= self.largest);
            assert(some_child_of(self.rules, self.g@, n as int, k as int) == self.g@[n - d]);
            proof {
                lemma_next_pow2(self.largest as nat);
            }
            let x = self.g[n - d];
            self.seen.set_bit(x);
            k = k + 1;
        }
        proof {
            s0.lemma_wf_seen(self);
        }
    }

    /// Sets nimber 0 when heap `n` splits into two equal heaps under a divide
    /// move of its own parity.
    fn set_0_if_divisible_into_same_size(&mut self, n: usize)
        requires
            old(self).rc_ready(n as int),
            old(self).seen_sound(n as int),
        ensures
            final(self).same_but_seen(old(self)),
            final(self).wf(),
            final(self).seen_sound(n as int),
            old(self).seen_grows(final(self)),
    {
        let ghost s0 = *self;
        if (n & 1 == 0 && self.even) || (n & 1 == 1 && self.odd) {
            proof {
                let p: usize = if n % 2 == 0 { 0 } else { 1 };
                assert(n & 1 == n % 2) by (bit_vector);
                assert(self.rules.divide[p as int]@.len() > 0);
                let d = self.rules.divide[p as int]@[0];
                assert(self.rules.divide[p as int]@.contains(d));
                assert(self.rules.divide_all@.contains(d));
                let k = choose|k: int| 0 <= k < self.rules.divide_all@.len() && self.rules.divide_all@[k] == d;
                assert(1 <= self.rules.divide_all@[k] <= self.rules.len);
                let i = (n - d) / 2;
                assert(n - d - i == i);
                let a = self.g@[i];
                assert(a ^ a == 0) by (bit_vector);
                assert(split_child_of(self.rules, self.g@, n as int, k, i) == 0);
                assert(child_of(self.rules, self.g@, n as int, 0));
            }
            self.seen.set_bit(0);
        }
        proof {
            s0.lemma_wf_seen(self);
        }
    }

    /// Sets the nimbers of the splits that leave a rare predecessor as one of
    /// the two heaps.
    fn set_rare(&mut self, n: usize)
        requires
            old(self).rc_ready(n as int),
            old(self).seen_sound(n as int),
        ensures
            final(self).same_but_seen(old(self)),
            final(self).wf(),
            final(self).seen_sound(n as int),
            old(self).seen_grows(final(self)),
    {
        let ghost s0 = *self;
        proof {
            lemma_next_pow2(self.largest as nat);
        }
        let mut parity: usize = 0;
        while parity < 2
            invariant
                self.same_but_seen(&s0),
                self.seen@.len() == s0.seen@.len(),
                s0.rc_ready(n as int),
                self.seen_sound(n as int),
                s0.seen_grows(self),
            decreases 2 - parity,
        {
            let mut k: usize = 0;
            while k < self.rules.divide[parity].len()
                invariant
                    parity < 2,
                    self.same_but_seen(&s0),
                    self.seen@.len() == s0.seen@.len(),
                    s0.rc_ready(n as int),
                    self.seen_sound(n as int),
                    s0.seen_grows(self),
                decreases self.rules.divide[parity as int]@.len() - k,
            {
                let d = self.rules.divide[parity][k];
                assert(self.rules.divide[parity as int]@.contains(d));
                assert(self.rules.divide_all@.contains(d));
                let ghost kd = choose|kd: int| 0 <= kd < self.rules.divide_all@.len() && self.rules.divide_all@[kd] == d;
                assert(1 <= self.rules.divide_all@[kd] <= self.rules.len);
                let mut j: usize = 0;
                while j < self.rares[parity].len()
                    invariant
                        parity < 2,
                        0 <= kd < self.rules.divide_all@.len(),
                        self.rules.divide_all@[kd] == d,
                        1 <= d <= self.rules.len,
                        self.same_but_seen(&s0),
                        self.seen@.len() == s0.seen@.len(),
                        s0.rc_ready(n as int),
                        self.seen_sound(n as int),
                        s0.seen_grows(self),
                    decreases self.rares[parity as int]@.len() - j,
                {
                    let (i, r) = self.rares[parity][j];
                    if n - d > i {
                        assert(self.rares_wf(parity as int, self.done as int));
                        assert(r == self.g@[i as int]);
                        assert(split_child_of(self.rules, self.g@, n as int, kd, i as int) == r ^ self.g@[n - d - i]);
                        proof {
                            self.lemma_child_bound(n as int, r ^ self.g@[n - d - i]);
                        }
                        let x = r ^ self.g[n - d - i];
                        self.seen.set_bit(x);
                    }
                    j = j + 1;
                }
                k = k + 1;
            }
            parity = parity + 1;
        }
        proof {
            s0.lemma_wf_seen(self);
        }
    }

    /// Every some move's child nimber of heap `n` is set in `seen`.
    pub open spec fn seen_has_some(&self, n: int) -> bool {
        forall|k: int|
            0 <= k < self.rules.some@.len() ==> some_child_of(self.rules, self.g@, n, k) < self.seen@.len()
                && self.seen@[#[trigger] some_child_of(self.rules, self.g@, n, k) as int]
    }

    /// The smallest clear bit of `seen`, which exists because no child nimber
    /// reaches `2 * next_pow2(largest)`.
    fn lowest_seen(&self, n: usize) -> (m: usize)
        requires
            self.rc_ready(n as int),
            self.seen_sound(n as int),
        ensures
            m <= 2 * next_pow2(self.largest as nat),
            m < self.seen@.len(),
            !self.seen@[m as int],
            forall|j: int| 0 <= j < m ==> self.seen@[j],
            forall|j: usize| j < m ==> child_of(self.rules, self.g@, n as int, j),
            tag(m as int, n as int) < self.both_common@.len(),
    {
        let ghost p = next_pow2(self.largest as nat);
        proof {
            lemma_next_pow2(self.largest as nat);
            crate::bits::lemma_next_pow2_double(self.largest as nat);
            let top = (2 * p) as usize;
            if self.seen@[top as int] {
                self.lemma_child_bound(n as int, top);
            }
        }
        let m = self.seen.lowest_unset();
        proof {
            assert forall|j: usize| j < m implies child_of(self.rules, self.g@, n as int, j) by {
                assert(self.seen@[j as int]);
            }
        }
        m
    }

    /// Completes the mex of heap `n`: enumerates the divide moves split by
    /// split and stops as soon as the least nimber still missing is common
    /// in every active parity; else finishes the enumeration.
    fn prove(&mut self, n: usize) -> (r: usize)
        requires
            old(self).rc_ready(n as int),
            old(self).seen_sound(n as int),
            old(self).seen_has_some(n as int),
        ensures
            final(self).same_but_seen(old(self)),
            final(self).wf(),
            forall|j: usize| j < r ==> child_of(old(self).rules, old(self).g@, n as int, j),
            child_of(old(self).rules, old(self).g@, n as int, r) ==> tag(r as int, n as int) < old(self).both_common@.len()
                && old(self).both_common@[tag(r as int, n as int)],
            r < final(self).seen@.len(),
            !final(self).seen@[r as int],
            forall|j: int| 0 <= j < r ==> final(self).seen@[j],
            !old(self).both_common@[tag(r as int, n as int)] ==> forall|k: int, i: int|
                0 <= k < old(self).rules.divide_all@.len() && 1 <= i && i + old(self).rules.divide_all@[k]
                    < n ==> final(self).seen@[#[trigger] split_child_of(
                    old(self).rules,
                    old(self).g@,
                    n as int,
                    k,
                    i,
                ) as int],
    {
        let ghost s0 = *self;
        proof {
            lemma_next_pow2(self.largest as nat);
            crate::bits::lemma_next_pow2_double(self.largest as nat);
        }
        let mut m = self.lowest_seen(n);
        let mp = to_nimpos(m, n);
        if self.both_common.get(mp) {
            return m;
        }
        let ghost dl = self.rules.divide_all@.len();
        assert(self.rules.divide_all@[dl - 1] == self.last_divide);
        assert(1 <= self.last_divide <= self.rules.len);
        let mut i: usize = 1;
        while i < n - self.last_divide
            invariant
                s0 == *old(self),
                self.same_but_seen(&s0),
                self.seen@.len() == s0.seen@.len(),
                s0.rc_ready(n as int),
                self.rc_ready(n as int),
                self.seen_sound(n as int),
                self.seen_has_some(n as int),
                1 <= self.last_divide <= self.rules.len,
                dl == self.rules.divide_all@.len(),
                self.rules.divide_all@[dl - 1] == self.last_divide,
                1 <= i <= n - self.last_divide,
                next_pow2(self.largest as nat) <= BIN_LIMIT,
                forall|k: int, i2: int|
                    0 <= k < dl && 1 <= i2 < i ==> split_child_of(self.rules, self.g@, n as int, k, i2)
                        < self.seen@.len() && self.seen@[#[trigger] split_child_of(
                        self.rules,
                        self.g@,
                        n as int,
                        k,
                        i2,
                    ) as int],
            decreases n - self.last_divide - i,
        {
            let mut k: usize = 0;
            while k < self.rules.divide_all.len()
                invariant
                    s0 == *old(self),
                    self.same_but_seen(&s0),
                    self.seen@.len() == s0.seen@.len(),
                    s0.rc_ready(n as int),
                    self.seen_sound(n as int),
                    self.seen_has_some(n as int),
                    1 <= self.last_divide <= self.rules.len,
                    dl == self.rules.divide_all@.len(),
                    self.rules.divide_all@[dl - 1] == self.last_divide,
                    1 <= i < n - self.last_divide,
                    forall|k2: int, i2: int|
                        0 <= k2 < dl && 1 <= i2 < i ==> split_child_of(self.rules, self.g@, n as int, k2, i2)
                            < self.seen@.len() && self.seen@[#[trigger] split_child_of(
                            self.rules,
                            self.g@,
                            n as int,
                            k2,
                            i2,
                        ) as int],
                    forall|k2: int|
                        0 <= k2 < k ==> split_child_of(self.rules, self.g@, n as int, k2, i as int)
                            < self.seen@.len() && self.seen@[#[trigger] split_child_of(
                            self.rules,
                            self.g@,
                            n as int,
                            k2,
                            i as int,
                        ) as int],
                decreases dl - k,
            {
                let d = self.rules.divide_all[k];
                assert(d <= self.last_divide) by {
                    if k < dl - 1 {
                        assert(self.rules.divide_all@[k as int] < self.rules.divide_all@[dl - 1]);
                    }
                }
                assert(split_child_of(self.rules, self.g@, n as int, k as int, i as int) == self.g@[i as int]
                    ^ self.g@[n - d - i]);
                proof {
                    self.lemma_child_bound(
                        n as int,
                        split_child_of(self.rules, self.g@, n as int, k as int, i as int),
                    );
                }
                let x = self.g[i] ^ self.g[n - d - i];
                self.seen.set_bit(x);
                k = k + 1;
            }
            proof {
                s0.lemma_wf_seen(self);
            }
            m = self.lowest_seen(n);
            let mp = to_nimpos(m, n);
            if self.both_common.get(mp) {
                return m;
            }
            i = i + 1;
        }
        let mut i: usize = n - self.last_divide;
        while i < n
            invariant
                s0 == *old(self),
                self.same_but_seen(&s0),
                self.seen@.len() == s0.seen@.len(),
                s0.rc_ready(n as int),
                self.seen_sound(n as int),
                self.seen_has_some(n as int),
                dl == self.rules.divide_all@.len(),
                1 <= i <= n,
                forall|k: int, i2: int|
                    0 <= k < dl && 1 <= i2 < i && i2 + self.rules.divide_all@[k] < n ==> split_child_of(
                        self.rules,
                        self.g@,
                        n as int,
                        k,
                        i2,
                    ) < self.seen@.len() && self.seen@[#[trigger] split_child_of(
                        self.rules,
                        self.g@,
                        n as int,
                        k,
                        i2,
                    ) as int],
            decreases n - i,
        {
            let mut k: usize = 0;
            while k < self.rules.divide_all.len()
                invariant
                    s0 == *old(self),
                    self.same_but_seen(&s0),
                    self.seen@.len() == s0.seen@.len(),
                    s0.rc_ready(n as int),
                    self.seen_sound(n as int),
                    self.seen_has_some(n as int),
                    dl == self.rules.divide_all@.len(),
                    1 <= i < n,
                    forall|k2: int, i2: int|
                        0 <= k2 < dl && 1 <= i2 < i && i2 + self.rules.divide_all@[k2] < n
                            ==> split_child_of(self.rules, self.g@, n as int, k2, i2) < self.seen@.len()
                            && self.seen@[#[trigger] split_child_of(
                            self.rules,
                            self.g@,
                            n as int,
                            k2,
                            i2,
                        ) as int],
                    forall|k2: int|
                        0 <= k2 < k && i + self.rules.divide_all@[k2] < n ==> split_child_of(
                            self.rules,
                            self.g@,
                            n as int,
                            k2,
                            i as int,
                        ) < self.seen@.len() && self.seen@[#[trigger] split_child_of(
                            self.rules,
                            self.g@,
                            n as int,
                            k2,
                            i as int,
                        ) as int],
                decreases dl - k,
            {
                let d = self.rules.divide_all[k];
                if n - d > i {
                    assert(split_child_of(self.rules, self.g@, n as int, k as int, i as int)
                        == self.g@[i as int] ^ self.g@[n - d - i]);
                    proof {
                        self.lemma_child_bound(
                            n as int,
                            split_child_of(self.rules, self.g@, n as int, k as int, i as int),
                        );
                    }
                    let x = self.g[i] ^ self.g[n - d - i];
                    self.seen.set_bit(x);
                }
                k = k + 1;
            }
            i = i + 1;
        }
        proof {
            s0.lemma_wf_seen(self);
        }
        let r = self.lowest_seen(n);
        proof {
            if child_of(self.rules, self.g@, n as int, r) {
                if exists|k: int|
                    0 <= k < self.rules.all@.len() && #[trigger] self.rules.all@[k] == n {
                    let k = choose|k: int|
                        0 <= k < self.rules.all@.len() && #[trigger] self.rules.all@[k] == n;
                    assert(self.rules.all@[k] <= self.rules.len);
                }
                if exists|k: int|
                    0 <= k < self.rules.some@.len() && self.rules.some@[k] < n && r
                        == #[trigger] some_child_of(self.rules, self.g@, n as int, k) {
                    let k = choose|k: int|
                        0 <= k < self.rules.some@.len() && self.rules.some@[k] < n && r
                            == #[trigger] some_child_of(self.rules, self.g@, n as int, k);
                    assert(self.seen@[r as int]);
                }
                if exists|k: int, i2: int|
                    0 <= k < self.rules.divide_all@.len() && 1 <= i2 && i2 + self.rules.divide_all@[k] < n
                        && r == #[trigger] split_child_of(self.rules, self.g@, n as int, k, i2) {
                    let (k, i2) = choose|k: int, i2: int|
                        0 <= k < self.rules.divide_all@.len() && 1 <= i2 && i2 + self.rules.divide_all@[k]
                            < n && r == #[trigger] split_child_of(self.rules, self.g@, n as int, k, i2);
                    assert(self.seen@[r as int]);
                }
            }
        }
        r
    }

    /// Accelerated mex of heap `n`: sets the nimbers of the cheap moves and
    /// of the splits that leave a rare predecessor, then completes the
    /// enumeration until a certificate of commonness stops it. Every smaller
    /// nimber is reached by a move, and the result is itself reached only if
    /// its tag is common in every active parity.
    pub fn rc(&mut self, n: usize) -> (r: usize)
        requires
            old(self).rc_ready(n as int),
        ensures
            final(self).same_but_seen(old(self)),
            final(self).wf(),
            forall|j: usize| j < r ==> child_of(old(self).rules, old(self).g@, n as int, j),
            child_of(old(self).rules, old(self).g@, n as int, r) ==> tag(r as int, n as int) < old(self).both_common@.len()
                && old(self).both_common@[tag(r as int, n as int)],
    {
        let ghost s0 = *self;
        self.seen.zero_bits();
        proof {
            s0.lemma_wf_seen(self);
        }
        self.set_some(n);
        let ghost s1 = *self;
        self.set_0_if_divisible_into_same_size(n);
        let ghost s2 = *self;
        self.set_rare(n);
        proof {
            assert forall|k: int| 0 <= k < self.rules.some@.len() implies some_child_of(
                self.rules,
                self.g@,
                n as int,
                k,
            ) < self.seen@.len() && self.seen@[#[trigger] some_child_of(
                self.rules,
                self.g@,
                n as int,
                k,
            ) as int] by {
                let v = some_child_of(s1.rules, s1.g@, n as int, k) as int;
                assert(s1.seen@[v]);
                assert(s2.seen@[v]);
            }
        }
        self.prove(n)
    }

    /// An engine for `g_size - 1` terms of the game `rules`, with bitsets
    /// sized for nimbers up to `largest`; nothing is computed yet.
    pub fn new(g_size: usize, largest: usize, rules: Rules) -> (r: Self)
        requires
            rules.wf(),
            rules.divide_all@.len() >= 1,
            1 <= largest < NIMBER_LIMIT,
            g_size >= 1,
        ensures
            r.wf(),
            r.done == 0,
            r.g@.len() == g_size,
            r.g@ == Seq::new(g_size as nat, |i: int| 0usize),
            r.largest == largest,
            r.rules == rules,
            r.common[0]@.is_empty(),
            r.common[1]@.is_empty(),
            r.rares[0]@.len() == 0,
            r.rares[1]@.len() == 0,
    {
        let d = rules.divide_all[0];
        assert(rules.divide_all@.contains(d));
        if d % 2 == 0 {
            assert(rules.divide[0]@.contains(d));
        } else {
            assert(rules.divide[1]@.contains(d));
        }
        let last_divide = rules.divide_all[rules.divide_all.len() - 1];
        let even = rules.divide[0].len() != 0;
        let odd = rules.divide[1].len() != 0;
        proof {
            lemma_next_pow2(2 * largest as nat);
        }
        let r = Self {
            both_common: Bin::make(2 * largest),
            common: [HashSet::new(), HashSet::new()],
            rares: [Vec::new(), Vec::new()],
            largest,
            last_divide,
            even,
            odd,
            rules,
            g: vec![0; g_size],
            counts: vec![0; 4 * largest + 1],
            seen: Bin::make(largest),
            members: [Vec::new(), Vec::new()],
            done: 0,
        };
        assert(r.both_wf());
        r
    }

    /// The `both_common` invariant reads only the common tags, the bitset and
    /// the active parities.
    pub proof fn lemma_both_frame(&self, o: &Octal)
        requires
            self.both_wf(),
            o.common == self.common,
            o.both_common == self.both_common,
            o.even == self.even,
            o.odd == self.odd,
        ensures
            o.both_wf(),
    {
        assert forall|x: usize|
            o.common[0]@.contains(x) || o.common[1]@.contains(x) implies o.settled(0, x) && o.settled(
                1,
                x,
            ) by {
            assert(self.settled(0, x) && self.settled(1, x));
        }
        assert forall|x: usize| x < o.both_common@.len() implies (#[trigger] o.both_common@[x as int]
            <==> o.all_common(x)) by {
            assert(self.both_common@[x as int] <==> self.all_common(x));
        }
    }

    /// Grows the bitsets and the tag counts for nimbers up to `largest`,
    /// keeping every bit of `both_common`.
    pub fn resize(&mut self, largest: usize)
        requires
            old(self).wf(),
            old(self).largest <= largest < NIMBER_LIMIT,
        ensures
            final(self).wf(),
            final(self).largest == largest,
            final(self).done == old(self).done,
            final(self).g == old(self).g,
            final(self).rules == old(self).rules,
            final(self).common == old(self).common,
            final(self).members == old(self).members,
            final(self).rares == old(self).rares,
            final(self).even == old(self).even,
            final(self).odd == old(self).odd,
            final(self).last_divide == old(self).last_divide,
            forall|x: int| 0 <= x < old(self).counts@.len() ==> final(self).counts@[x] == old(self).counts@[x],
            forall|x: int| old(self).counts@.len() <= x < final(self).counts@.len() ==> final(self).counts@[x] == 0,
            final(self).seen@ == Seq::new(bin_len(largest as nat), |i: int| false),
    {
        let ghost s0 = *self;
        proof {
            lemma_next_pow2(2 * largest as nat);
            lemma_next_pow2(2 * self.largest as nat);
        }
        let mut common2 = Bin::make(2 * largest);
        let ghost fresh = common2@;
        common2.set_all_bits_from(&self.both_common);
        let ghost merged = common2@;
        assert forall|x: int| 0 <= x < merged.len() implies merged[x] == (x < s0.both_common@.len()
            && s0.both_common@[x]) by {
            assert(!fresh[x]);
        }
        self.both_common = common2;
        self.largest = largest;
        self.counts.resize(4 * largest + 1, 0);
        self.seen = Bin::make(largest);
        proof {
            assert forall|x: int| 0 <= x < s0.counts@.len() implies self.counts@[x] == s0.counts@[x] by {
                assert(self.counts@.subrange(0, s0.counts@.len() as int)[x] == s0.counts@[x]);
            }
            assert forall|x: int| s0.counts@.len() <= x < self.counts@.len() implies self.counts@[x] == 0 by {
                assert(cloned(0usize, self.counts@[x]));
            }
            assert forall|i: int| 1 <= i <= self.done implies self.counts@[#[trigger] tag(self.g@[i] as int, i)] >= 1 by {
                assert(s0.counts@[tag(s0.g@[i] as int, i)] >= 1);
                assert(s0.g@[i] <= s0.largest);
            }
            assert forall|x: int| 2 * self.largest + 2 <= x < self.counts@.len() implies #[trigger] self.counts@[x] == 0 by {
                if x < s0.counts@.len() {
                    assert(s0.counts@[x] == 0);
                }
            }
            assert forall|x: int| 0 <= x < self.counts@.len() implies #[trigger] self.counts@[x] <= self.done by {
                if x < s0.counts@.len() {
                    assert(s0.counts@[x] <= s0.done);
                }
            }
            assert(self.base_wf());
            assert forall|x: usize| x < self.both_common@.len() implies (
            #[trigger] self.both_common@[x as int] <==> self.all_common(x)) by {
                if x < s0.both_common@.len() {
                    assert(s0.both_common@[x as int] <==> s0.all_common(x));
                    assert(self.both_common@[x as int] == s0.both_common@[x as int]);
                } else {
                    assert(x >= 2 * s0.largest + 2);
                    if s0.even {
                        assert(!(self.common[0]@.contains(x)));
                    } else {
                        assert(!(self.common[1]@.contains(x)));
                    }
                }
            }
            lemma_rares_frame(s0, *self, 0, s0.done as int, s0.done as int);
            lemma_rares_frame(s0, *self, 1, s0.done as int, s0.done as int);
            assert forall|x: usize|
                self.common[0]@.contains(x) || self.common[1]@.contains(x) implies self.settled(0, x)
                && self.settled(1, x) by {
                assert(s0.settled(0, x) && s0.settled(1, x));
            }
            assert(self.both_wf());
        }
    }

    /// Computes `G[n]` for the next heap size `n`: by full enumeration while
    /// `n <= rules.len`, by the accelerated mex after; then grows the bounds,
    /// counts the tag and classifies the observation.
    pub fn calc(&mut self, n: usize)
        requires
            old(self).wf(),
            n == old(self).done + 1,
            n < old(self).g@.len(),
            4 * old(self).largest < NIMBER_LIMIT,
        ensures
            final(self).wf(),
            final(self).done == n,
            final(self).rules == old(self).rules,
            final(self).g@.len() == old(self).g@.len(),
            forall|i: int| 0 <= i < final(self).g@.len() && i != n ==> final(self).g@[i] == old(self).g@[i],
            n <= old(self).rules.len ==> old(self).is_mex(n as int, final(self).g@[n as int]),
            n > old(self).rules.len ==> (forall|j: usize|
                j < final(self).g@[n as int] ==> child_of(old(self).rules, old(self).g@, n as int, j)),
            n > old(self).rules.len && child_of(old(self).rules, old(self).g@, n as int, final(self).g@[n as int])
                ==> tag(final(self).g@[n as int] as int, n as int) < old(self).both_common@.len()
                && old(self).both_common@[tag(final(self).g@[n as int] as int, n as int)],
            final(self).largest == (if final(self).g@[n as int] > old(self).largest {
                final(self).g@[n as int]
            } else {
                old(self).largest
            }),
            forall|x: int|
                0 <= x < final(self).counts@.len() ==> #[trigger] final(self).counts@[x] == (if x < old(
                    self,
                ).counts@.len() {
                    old(self).counts@[x]
                } else {
                    0
                }) + (if x == tag(final(self).g@[n as int] as int, n as int) {
                    1int
                } else {
                    0
                }),
    {
        let ghost s0 = *self;
        let gn = if n > self.rules.len {
            self.rc(n)
        } else {
            self.def(n)
        };
        proof {
            lemma_next_pow2(self.largest as nat);
            if gn > 0 {
                assert(child_of(s0.rules, s0.g@, n as int, (gn - 1) as usize));
                self.lemma_child_bound(n as int, (gn - 1) as usize);
            }
        }
        if self.largest < gn {
            self.resize(gn);
        }
        let ghost sr = *self;
        let np = to_nimpos(gn, n);
        let c = self.counts[np];
        self.counts.set(np, c + 1);
        let ghost s1 = *self;
        self.g.set(n, gn);
        self.done = n;
        proof {
            lemma_rares_g_update(s1, *self, 0, n - 1);
            lemma_rares_g_update(s1, *self, 1, n - 1);
            assert forall|i: int| 1 <= i <= self.done implies self.counts@[#[trigger] tag(self.g@[i] as int, i)] >= 1 by {
                if i < n {
                    assert(s1.counts@[tag(s1.g@[i] as int, i)] >= 1);
                }
            }
            assert forall|x: int| 0 <= x < self.counts@.len() implies #[trigger] self.counts@[x] <= self.done by {
                assert(sr.counts@[x] <= sr.done);
            }
            assert forall|x: int| 2 * self.largest + 2 <= x < self.counts@.len() implies #[trigger] self.counts@[x] == 0 by {
                assert(sr.counts@[x] == 0);
            }
            assert(self.base_wf());
            sr.lemma_both_frame(self);
        }
        self.add_to_both_common_or_rare(n, gn);
        if is_power_of_two(n) {
            self.redo_common(n);
        }
    }

    /// Offers tag `np` to the common tags of every active parity, and marks
    /// it in `both_common` when it is common in all of them.
    pub fn add_to_both_common(&mut self, np: Nimpos)
        requires
            old(self).inv(0),
            np < 2 * old(self).largest + 2,
        ensures
            final(self).inv(0),
            final(self).common[0]@ == old(self).common_after(0, np),
            final(self).common[1]@ == old(self).common_after(1, np),
            final(self).members[0]@ == old(self).members_after(0, np),
            final(self).members[1]@ == old(self).members_after(1, np),
            final(self).both_common@ == (if old(self).admits_all(np) {
                old(self).both_common@.update(np as int, true)
            } else {
                old(self).both_common@
            }),
            final(self).settled(0, np),
            final(self).settled(1, np),
            forall|x: usize| old(self).settled(0, x) ==> final(self).settled(0, x),
            forall|x: usize| old(self).settled(1, x) ==> final(self).settled(1, x),
            final(self).largest == old(self).largest,
            final(self).last_divide == old(self).last_divide,
            final(self).even == old(self).even,
            final(self).odd == old(self).odd,
            final(self).g == old(self).g,
            final(self).rules == old(self).rules,
            final(self).counts == old(self).counts,
            final(self).seen == old(self).seen,
            final(self).done == old(self).done,
            final(self).rares == old(self).rares,
    {
        let ghost s0 = *self;
        let ec = if self.even {
            self.add_to_common(np, 0)
        } else {
            true
        };
        let ghost s1 = *self;
        proof {
            if s0.even {
                lemma_common_step(s0, s1, 0, np, ec);
            } else {
                assert(s1.common[0] == s0.common[0]);
            }
        }
        let oc = if self.odd {
            self.add_to_common(np, 1)
        } else {
            true
        };
        let ghost s2 = *self;
        proof {
            if s0.odd {
                lemma_common_step(s1, s2, 1, np, oc);
            } else {
                assert(s2.common[1] == s1.common[1]);
            }
        }
        if ec && oc {
            assert(np < bin_len(2 * self.largest as nat)) by {
                lemma_next_pow2(2 * self.largest as nat);
            }
            self.both_common.set_bit(np);
        }
        proof {
            assert(s1.common[1] == s0.common[1]);
            assert(s2.common[0] == s1.common[0]);
            lemma_next_pow2(2 * s0.largest as nat);
            lemma_both_step(s0, s1, s2, *self, np, ec, oc);
            assert(self.base_wf());
            assert(self.common_wf(0));
            assert(self.common_wf(1));
            assert(s0.rares[0]@.len() == 0) by {
                if s0.rares[0]@.len() > 0 {
                    assert(s0.rares[0]@[0].0 >= 1);
                }
            }
            assert(s0.rares[1]@.len() == 0) by {
                if s0.rares[1]@.len() > 0 {
                    assert(s0.rares[1]@[0].0 >= 1);
                }
            }
            assert(self.rares_wf(0, 0));
            assert(self.rares_wf(1, 0));
            assert(self.both_wf());
        }
    }

    /// Rebuilds the classifier from scratch after `n` terms: the tags seen
    /// are offered again, the most frequent first (ties by smaller tag), and
    /// the rare lists are rebuilt in ascending order of heap size.
    #[verifier::rlimit(60)]
    pub fn redo_common(&mut self, n: usize)
        requires
            old(self).wf(),
            n == old(self).done,
        ensures
            final(self).wf(),
            final(self).largest == old(self).largest,
            final(self).last_divide == old(self).last_divide,
            final(self).even == old(self).even,
            final(self).odd == old(self).odd,
            final(self).g == old(self).g,
            final(self).rules == old(self).rules,
            final(self).counts == old(self).counts,
            final(self).done == old(self).done,
            exists|s: Seq<(usize, usize)>|
                #[trigger] by_frequency(s, old(self).counts@) && (old(self).even ==> final(self).common[0]@
                    == sweep(s, 0) && final(self).members[0]@ == sweep_order(s, 0)) && (old(self).odd
                    ==> final(self).common[1]@ == sweep(s, 1) && final(self).members[1]@ == sweep_order(
                    s,
                    1,
                )),
    {
        let ghost s0 = *self;
        proof {
            lemma_next_pow2(2 * self.largest as nat);
        }
        self.both_common = Bin::make(2 * self.largest);
        self.common[0].clear();
        self.common[1].clear();
        self.members[0].clear();
        self.members[1].clear();
        self.rares[0].clear();
        self.rares[1].clear();
        proof {
            assert(self.base_wf());
            assert(self.common_wf(0));
            assert(self.common_wf(1));
            assert(self.rares_wf(0, 0));
            assert(self.rares_wf(1, 0));
            assert forall|x: usize| x < self.both_common@.len() implies (
            #[trigger] self.both_common@[x as int] <==> self.all_common(x)) by {}
            assert(self.both_wf());
        }
        let mut v: Vec<(usize, usize)> = Vec::new();
        let mut x: usize = 0;
        while x < self.counts.len()
            invariant
                x <= self.counts@.len(),
                v@.len() == x,
                forall|j: int| 0 <= j < x ==> #[trigger] v@[j] == (j as usize, self.counts@[j]),
            decreases self.counts@.len() - x,
        {
            v.push((x, self.counts[x]));
            x = x + 1;
        }
        let ghost all = v@;
        assert(all.len() == self.counts@.len());
        let sorted = sorted_by_frequency(v);
        let mut k: usize = 0;
        while k < sorted.len()
            invariant
                self.inv(0),
                self.largest == s0.largest,
                self.last_divide == s0.last_divide,
                self.even == s0.even,
                self.odd == s0.odd,
                self.g == s0.g,
                self.rules == s0.rules,
                self.counts == s0.counts,
                self.done == s0.done,
                self.rares[0]@.len() == 0,
                self.rares[1]@.len() == 0,
                forall|j: int|
                    0 <= j < k && (#[trigger] sorted@[j]).1 > 0 ==> self.settled(0, sorted@[j].0)
                        && self.settled(1, sorted@[j].0),
                k <= sorted@.len(),
                self.even ==> self.common[0]@ == sweep(sorted@.subrange(0, k as int), 0)
                    && self.members[0]@ == sweep_order(sorted@.subrange(0, k as int), 0),
                self.odd ==> self.common[1]@ == sweep(sorted@.subrange(0, k as int), 1)
                    && self.members[1]@ == sweep_order(sorted@.subrange(0, k as int), 1),
                forall|e: (usize, usize)| sorted@.contains(e) <==> all.contains(e),
                all.len() == self.counts@.len(),
                forall|j: int| 0 <= j < all.len() ==> #[trigger] all[j] == (j as usize, self.counts@[j]),
            decreases sorted@.len() - k,
        {
            let (np, count) = sorted[k];
            if count > 0 {
                proof {
                    assert(sorted@.contains(sorted@[k as int]));
                    assert(all.contains(sorted@[k as int]));
                    let j = choose|j: int| 0 <= j < all.len() && all[j] == sorted@[k as int];
                    assert(all[j] == (j as usize, self.counts@[j]));
                    assert(np < 2 * self.largest + 2);
                }
                self.add_to_both_common(np);
            }
            proof {
                let sub = sorted@.subrange(0, k as int);
                let sub1 = sorted@.subrange(0, k + 1);
                assert(sub1.drop_last() == sub);
                assert(sub1.last() == sorted@[k as int]);
            }
            k = k + 1;
        }
        let ghost sc = *self;
        proof {
            assert(sorted@.subrange(0, sorted@.len() as int) == sorted@);
            assert forall|e: (usize, usize)| sorted@.contains(e) <==> (e.0 < s0.counts@.len() && e.1
                == s0.counts@[e.0 as int]) by {
                if all.contains(e) {
                    let j = choose|j: int| 0 <= j < all.len() && all[j] == e;
                    assert(all[j] == (j as usize, self.counts@[j]));
                }
                if e.0 < s0.counts@.len() && e.1 == s0.counts@[e.0 as int] {
                    assert(all[e.0 as int] == (e.0, self.counts@[e.0 as int]));
                }
            }
            assert(by_frequency(sorted@, s0.counts@));
        }
        let glen = self.g.len();
        let mut i: usize = 1;
        while i <= n
            invariant
                self.base_wf(),
                self.common_wf(0),
                self.common_wf(1),
                self.both_wf(),
                glen == self.g@.len(),
                1 <= i <= n + 1,
                n == self.done,
                self.done == s0.done,
                self.largest == s0.largest,
                self.last_divide == s0.last_divide,
                self.even == s0.even,
                self.odd == s0.odd,
                self.g == s0.g,
                self.rules == s0.rules,
                self.counts == s0.counts,
                self.rares_wf(0, i - 1),
                self.rares_wf(1, i - 1),
                self.common == sc.common,
                self.members == sc.members,
                forall|e: (usize, usize)| sorted@.contains(e) <==> all.contains(e),
                all.len() == self.counts@.len(),
                forall|j: int| 0 <= j < all.len() ==> #[trigger] all[j] == (j as usize, self.counts@[j]),
                forall|j: int|
                    0 <= j < sorted@.len() && (#[trigger] sorted@[j]).1 > 0 ==> self.settled(0, sorted@[j].0)
                        && self.settled(1, sorted@[j].0),
            decreases n + 1 - i,
        {
            let gi = self.g[i];
            assert(gi <= self.largest);
            let np = to_nimpos(gi, i);
            proof {
                assert(self.counts@[tag(self.g@[i as int] as int, i as int)] >= 1);
                let e = (np, self.counts@[np as int]);
                assert(all[np as int] == e);
                assert(all.contains(e));
                assert(sorted@.contains(e));
                let j = choose|j: int| 0 <= j < sorted@.len() && sorted@[j] == e;
                assert(self.settled(0, np) && self.settled(1, np));
            }
            let ghost sa = *self;
            if self.even && !self.common[0].contains(&np) {
                self.rares[0].push((i, gi));
            }
            proof {
                let r0 = self.rares[0]@;
                assert forall|i2: int| 1 <= i2 <= i && self.even implies self.common[0]@.contains(
                    #[trigger] tag(self.g@[i2] as int, i2) as usize,
                ) || exists|j: int| 0 <= j < r0.len() && r0[j].0 == i2 by {
                    if i2 < i && !self.common[0]@.contains(tag(self.g@[i2] as int, i2) as usize) {
                        let j = choose|j: int| 0 <= j < sa.rares[0]@.len() && sa.rares[0]@[j].0 == i2;
                        assert(r0[j] == sa.rares[0]@[j]);
                    } else if i2 == i && !self.common[0]@.contains(np) {
                        assert(r0[r0.len() - 1].0 == i2);
                    }
                }
                assert(self.rares_wf(0, i as int));
                lemma_rares_frame(sa, *self, 1, i - 1, i - 1);
            }
            let ghost sb = *self;
            if self.odd && !self.common[1].contains(&np) {
                self.rares[1].push((i, gi));
            }
            proof {
                let r1 = self.rares[1]@;
                assert forall|i2: int| 1 <= i2 <= i && self.odd implies self.common[1]@.contains(
                    #[trigger] tag(self.g@[i2] as int, i2) as usize,
                ) || exists|j: int| 0 <= j < r1.len() && r1[j].0 == i2 by {
                    if i2 < i && !self.common[1]@.contains(tag(self.g@[i2] as int, i2) as usize) {
                        let j = choose|j: int| 0 <= j < sb.rares[1]@.len() && sb.rares[1]@[j].0 == i2;
                        assert(r1[j] == sb.rares[1]@[j]);
                    } else if i2 == i && !self.common[1]@.contains(np) {
                        assert(r1[r1.len() - 1].0 == i2);
                    }
                }
                assert(self.rares_wf(1, i as int));
                lemma_rares_frame(sb, *self, 0, i as int, i as int);
                assert(self.base_wf());
                sa.lemma_both_frame(self);
            }
            i = i + 1;
        }
    }

    /// Every computed term sits in exactly one bucket of each active
    /// parity: its tag is common, or it is listed once among the rares.
    pub proof fn lemma_bucket_totality(&self, p: int, i: int)
        requires
            self.wf(),
            p == 0 || p == 1,
            self.active(p),
            1 <= i <= self.done,
        ensures
            self.common[p]@.contains(tag(self.g@[i] as int, i) as usize) != self.rares[p]@.contains(
                (i as usize, self.g@[i]),
            ),
            forall|j1: int, j2: int|
                0 <= j1 < self.rares[p]@.len() && 0 <= j2 < self.rares[p]@.len() && self.rares[p]@[j1].0
                    == i && self.rares[p]@[j2].0 == i ==> j1 == j2,
    {
        let t = tag(self.g@[i] as int, i) as usize;
        let r = self.rares[p]@;
        if self.common[p]@.contains(t) {
            if r.contains((i as usize, self.g@[i])) {
                let j = choose|j: int| 0 <= j < r.len() && r[j] == (i as usize, self.g@[i]);
                assert(blocked(self.common[p]@, tag(r[j].1 as int, r[j].0 as int) as usize, p as usize));
            }
        } else {
            let j = choose|j: int| 0 <= j < r.len() && r[j].0 == i;
            assert(r[j].1 == self.g@[i]);
            assert(r[j] == (i as usize, self.g@[i]));
        }
        assert forall|j1: int, j2: int|
            0 <= j1 < r.len() && 0 <= j2 < r.len() && r[j1].0 == i && r[j2].0 == i implies j1 == j2 by {
            if j1 < j2 {
                assert(r[j1].0 < r[j2].0);
            } else if j2 < j1 {
                assert(r[j2].0 < r[j1].0);
            }
        }
    }

    /// The common tags of each parity are closed: no combination of two of
    /// them (one with itself included) across a move of that parity is
    /// common, and the zero tag is never common.
    pub proof fn lemma_sidon_closure(&self, p: usize, a: usize, b: usize)
        requires
            self.wf(),
            p < 2,
            self.common[p as int]@.contains(a),
            self.common[p as int]@.contains(b),
        ensures
            !self.common[p as int]@.contains(xor_spec(a, b, p)),
            !self.common[p as int]@.contains(p),
    {
    }

    /// `both_common` marks exactly the tags that are common in every active
    /// parity.
    pub proof fn lemma_both_common_consistency(&self, x: usize)
        requires
            self.wf(),
            x < self.both_common@.len(),
        ensures
            self.both_common@[x as int] <==> ((self.even ==> self.common[0]@.contains(x)) && (self.odd
                ==> self.common[1]@.contains(x))),
    {
    }

    /// The accelerated mex never exceeds the reference mex of the same heap
    /// on the same prefix, and falls short of it only where `both_common`
    /// certified its result.
    pub proof fn lemma_rc_against_def(&self, n: int, r: usize, m: usize)
        requires
            forall|j: usize| j < r ==> child_of(self.rules, self.g@, n, j),
            child_of(self.rules, self.g@, n, r) ==> tag(r as int, n) < self.both_common@.len()
                && self.both_common@[tag(r as int, n)],
            self.is_mex(n, m),
        ensures
            r <= m,
            r != m ==> self.both_common@[tag(r as int, n)],
    {
        if r > m {
            assert(child_of(self.rules, self.g@, n, m));
        }
        if r < m {
            assert(child_of(self.rules, self.g@, n, r));
        }
    }

    /// Cross-check of heap `n`: runs the reference mex and the accelerated
    /// one on the same prefix and returns both results, accelerated first.
    /// Only `seen` changes.
    pub fn cross_check(&mut self, n: usize) -> (r: (usize, usize))
        requires
            old(self).rc_ready(n as int),
        ensures
            final(self).same_but_seen(old(self)),
            final(self).wf(),
            old(self).is_mex(n as int, r.1),
            r.0 <= r.1,
            r.0 != r.1 ==> old(self).both_common@[tag(r.0 as int, n as int)],
    {
        let ghost s0 = *self;
        let reference = self.def(n);
        let fast = self.rc(n);
        proof {
            s0.lemma_rc_against_def(n as int, fast, reference);
        }
        (fast, reference)
    }
}

} // verus!
