//! The algorithm gallery built on the branded particles.
//!
//! The searches come with exact functional contracts; the sorting and
//! merging routines are specified at the interface level — they permute
//! the data and never lose or duplicate an element — and every element
//! access in them is discharged statically through the particle
//! contracts.

use core::cmp::Ordering;
use vstd::prelude::*;

use crate::base::{NonEmpty, ProofType, Provable, Unknown};
use crate::container::Container;
use crate::indexing::{Index, Range};
use crate::pointer::{PIndex, PRange, PSlice};

verus! {

/// The sequence is sorted in nondecreasing order.
pub open spec fn sorted(s: Seq<i32>) -> bool {
    forall|i: int, j: int| 0 <= i <= j < s.len() ==> s[i] <= s[j]
}

/// The slice of `s` between `lo` and `hi` is sorted in nondecreasing
/// order.
pub open spec fn sorted_between(s: Seq<i32>, lo: int, hi: int) -> bool {
    forall|a: int, b: int| lo <= a <= b < hi ==> s[a] <= s[b]
}

/// A swap inside `[lo, hi)` preserves that slice's multiset and leaves
/// everything outside the slice untouched.
proof fn lemma_swap_in_region<T>(s: Seq<T>, i: int, j: int, lo: int, hi: int)
    requires
        0 <= lo <= i < hi <= s.len(),
        lo <= j < hi,
    ensures
        crate::container::swap_seq(s, i, j).subrange(lo, hi).to_multiset() == s.subrange(
            lo,
            hi,
        ).to_multiset(),
        forall|k: int|
            0 <= k < s.len() && !(lo <= k < hi) ==> crate::container::swap_seq(s, i, j)[k] == s[k],
        crate::container::swap_seq(s, i, j).len() == s.len(),
{
    let w = crate::container::swap_seq(s, i, j);
    let sub = s.subrange(lo, hi);
    let inner = crate::container::swap_seq(sub, i - lo, j - lo);
    assert(s.update(j, s[i])[j] == s[i]);
    assert(s.update(i, s[j]).update(j, s[i])[j] == s[i]);
    assert(w == s.update(i, s[j]).update(j, s[i]));
    assert(inner == sub.update(i - lo, sub[j - lo]).update(j - lo, sub[i - lo]));
    assert forall|k: int| 0 <= k < hi - lo implies w.subrange(lo, hi)[k] == inner[k] by {
        assert(w.subrange(lo, hi)[k] == w[lo + k]);
        assert(w[lo + k] == s.update(i, s[j]).update(j, s[i])[lo + k]);
        assert(inner[k] == sub.update(i - lo, sub[j - lo]).update(j - lo, sub[i - lo])[k]);
        if lo + k == j {
            assert(s.update(i, s[j]).update(j, s[i])[j] == s[i]);
            assert(sub.update(i - lo, sub[j - lo]).update(j - lo, sub[i - lo])[j - lo] == sub[i
                - lo]);
            assert(sub[i - lo] == s[i]);
        } else if lo + k == i {
            assert(s.update(i, s[j]).update(j, s[i])[i] == s[j]);
            assert(sub.update(i - lo, sub[j - lo]).update(j - lo, sub[i - lo])[i - lo] == sub[j
                - lo]);
            assert(sub[j - lo] == s[j]);
        } else {
            assert(s.update(i, s[j]).update(j, s[i])[lo + k] == s[lo + k]);
            assert(sub.update(i - lo, sub[j - lo]).update(j - lo, sub[i - lo])[k] == sub[k]);
        }
    }
    assert(w.subrange(lo, hi) =~= inner);
    crate::container::lemma_swap_seq_to_multiset(s.subrange(lo, hi), i - lo, j - lo);
}

/// The multiset of a slice is the sum of the multisets of its two
/// halves.
proof fn lemma_tm_glue<T>(s: Seq<T>, lo: int, mid: int, hi: int)
    requires
        0 <= lo <= mid <= hi <= s.len(),
    ensures
        s.subrange(lo, hi).to_multiset() == s.subrange(lo, mid).to_multiset().add(
            s.subrange(mid, hi).to_multiset(),
        ),
{
    assert(s.subrange(lo, hi) =~= s.subrange(lo, mid) + s.subrange(mid, hi));
    vstd::seq_lib::lemma_multiset_commutative(s.subrange(lo, mid), s.subrange(mid, hi));
}

/// An upper bound on every element survives any permutation.
proof fn lemma_multiset_le_bound(s: Seq<i32>, t: Seq<i32>, pv: i32)
    requires
        s.to_multiset() == t.to_multiset(),
        forall|k: int| 0 <= k < s.len() ==> s[k] <= pv,
    ensures
        forall|k: int| 0 <= k < t.len() ==> t[k] <= pv,
{
    broadcast use vstd::seq_lib::group_to_multiset_ensures;

    assert forall|k: int| 0 <= k < t.len() implies t[k] <= pv by {
        assert(t.contains(t[k]));
        assert(s.to_multiset().count(t[k]) > 0);
        assert(s.contains(t[k]));
        let w = choose|w: int| 0 <= w < s.len() && s[w] == t[k];
        assert(s[w] <= pv);
    }
}

/// A lower bound on every element survives any permutation.
proof fn lemma_multiset_ge_bound(s: Seq<i32>, t: Seq<i32>, pv: i32)
    requires
        s.to_multiset() == t.to_multiset(),
        forall|k: int| 0 <= k < s.len() ==> s[k] >= pv,
    ensures
        forall|k: int| 0 <= k < t.len() ==> t[k] >= pv,
{
    broadcast use vstd::seq_lib::group_to_multiset_ensures;

    assert forall|k: int| 0 <= k < t.len() implies t[k] >= pv by {
        assert(t.contains(t[k]));
        assert(s.to_multiset().count(t[k]) > 0);
        assert(s.contains(t[k]));
        let w = choose|w: int| 0 <= w < s.len() && s[w] == t[k];
        assert(s[w] >= pv);
    }
}

/// Law: a sorted arrangement of a multiset is unique.  Any two routines
/// whose contracts promise a sorted result over the same multiset — the
/// four quicksorts, and the merges on sorted runs — therefore produce
/// exactly the same sequence.
pub proof fn lemma_sorted_unique(s: Seq<i32>, t: Seq<i32>)
    requires
        sorted(s),
        sorted(t),
        s.to_multiset() == t.to_multiset(),
    ensures
        s == t,
    decreases s.len(),
{
    broadcast use vstd::seq_lib::group_to_multiset_ensures;
    broadcast use vstd::multiset::group_multiset_axioms;

    vstd::seq_lib::to_multiset_len(s);
    vstd::seq_lib::to_multiset_len(t);
    assert(s.len() == t.len());
    if s.len() > 0 {
        assert(s.contains(s[0]));
        assert(t.to_multiset().count(s[0]) > 0);
        assert(t.contains(s[0]));
        let wt = choose|w: int| 0 <= w < t.len() && t[w] == s[0];
        assert(t[0] <= t[wt]);
        assert(t.contains(t[0]));
        assert(s.to_multiset().count(t[0]) > 0);
        assert(s.contains(t[0]));
        let ws = choose|w: int| 0 <= w < s.len() && s[w] == t[0];
        assert(s[0] <= s[ws]);
        assert(s[0] == t[0]);
        vstd::seq_lib::to_multiset_remove(s, 0);
        vstd::seq_lib::to_multiset_remove(t, 0);
        assert(s.remove(0).to_multiset() =~= t.remove(0).to_multiset());
        assert forall|a: int, b: int| 0 <= a <= b < s.remove(0).len() implies s.remove(0)[a]
            <= s.remove(0)[b] by {
            assert(s.remove(0)[a] == s[a + 1]);
            assert(s.remove(0)[b] == s[b + 1]);
        }
        assert forall|a: int, b: int| 0 <= a <= b < t.remove(0).len() implies t.remove(0)[a]
            <= t.remove(0)[b] by {
            assert(t.remove(0)[a] == t[a + 1]);
            assert(t.remove(0)[b] == t[b + 1]);
        }
        lemma_sorted_unique(s.remove(0), t.remove(0));
        assert forall|k: int| 0 <= k < s.len() implies s[k] == t[k] by {
            if k > 0 {
                assert(s.remove(0)[k - 1] == s[k]);
                assert(t.remove(0)[k - 1] == t[k]);
            }
        }
        assert(s =~= t);
    } else {
        assert(s =~= t);
    }
}

/// Copy a vector of plain values, element by element.
fn duplicate<T: Copy>(v: &Vec<T>) -> (w: Vec<T>)
    ensures
        w@ == v@,
{
    let mut w: Vec<T> = Vec::new();
    let mut k: usize = 0;
    while k < v.len()
        invariant
            k <= v@.len(),
            w@ == v@.subrange(0, k as int),
        decreases v@.len() - k,
    {
        w.push(v[k]);
        k = k + 1;
        proof {
            assert(w@ =~= v@.subrange(0, k as int));
        }
    }
    proof {
        assert(w@ =~= v@);
    }
    w
}

/// Find the lower bound for `elt` in a sorted vector: the first offset
/// whose element is not below `elt`.
///
/// At each step the current range is split in half; the element at the
/// head of the upper half decides which half survives.
pub fn lower_bound(v: &Vec<i32>, elt: &i32) -> (r: usize)
    requires
        sorted(v@),
    ensures
        r <= v@.len(),
        forall|k: int| 0 <= k < r ==> v@[k] < *elt,
        forall|k: int| r <= k < v@.len() ==> v@[k] >= *elt,
{
    let c = Container::new(duplicate(v));
    let mut range = c.range();
    loop
        invariant
            c@ == v@,
            sorted(v@),
            c.valid_range(range),
            forall|k: int| 0 <= k < range.start_spec() ==> v@[k] < *elt,
            forall|k: int| range.end_spec() <= k < v@.len() ==> v@[k] >= *elt,
        ensures
            range.start_spec() == range.end_spec(),
            forall|k: int| 0 <= k < range.start_spec() ==> v@[k] < *elt,
            forall|k: int| range.end_spec() <= k < v@.len() ==> v@[k] >= *elt,
        decreases range.len_spec(),
    {
        let nonempty = match range.nonempty() {
            Ok(ne) => ne,
            Err(_) => { break ; },
        };
        let (a, b) = nonempty.split_in_half();
        let first = b.first();
        if *c.at(first) < *elt {
            range = b.tail();
        } else {
            range = a;
        }
    }
    range.start()
}

/// Lower bound over a pointer range: the first position in `range`
/// whose element is accepted by neither probe; the boundary elements
/// actually probed are reported through `f`'s postcondition.
pub fn lower_bound_prange_<T, F: Fn(&T) -> bool, P: ProofType>(
    range: PRange<P>,
    v: &Container<T>,
    less_than: F,
) -> (r: PIndex<Unknown>)
    requires
        v.valid_prange(range),
        forall|x: &T| call_requires(less_than, (x,)),
    ensures
        range.start_spec() <= r.offset_spec() <= range.end_spec(),
        r.brand() == v.brand(),
        v.valid_pindex(r),
        r.offset_spec() > range.start_spec() ==> call_ensures(
            less_than,
            (&v@[r.offset_spec() - 1],),
            true,
        ),
        r.offset_spec() < range.end_spec() ==> call_ensures(
            less_than,
            (&v@[r.offset_spec() as int],),
            false,
        ),
{
    let mut rng = range.no_proof();
    loop
        invariant
            v.valid_prange(rng),
            range.start_spec() <= rng.start_spec(),
            rng.end_spec() <= range.end_spec(),
            forall|x: &T| call_requires(less_than, (x,)),
            rng.start_spec() > range.start_spec() ==> call_ensures(
                less_than,
                (&v@[rng.start_spec() - 1],),
                true,
            ),
            rng.end_spec() < range.end_spec() ==> call_ensures(
                less_than,
                (&v@[rng.end_spec() as int],),
                false,
            ),
        ensures
            rng.start_spec() == rng.end_spec(),
            range.start_spec() <= rng.start_spec() <= range.end_spec(),
            v.valid_prange(rng),
            rng.start_spec() > range.start_spec() ==> call_ensures(
                less_than,
                (&v@[rng.start_spec() - 1],),
                true,
            ),
            rng.start_spec() < range.end_spec() ==> call_ensures(
                less_than,
                (&v@[rng.start_spec() as int],),
                false,
            ),
        decreases rng.len_spec(),
    {
        let nonempty = match rng.nonempty() {
            Ok(ne) => ne,
            Err(_) => { break ; },
        };
        let (a, b) = nonempty.split_in_half();
        let first = b.first();
        if less_than(v.at_ptr(first)) {
            rng = b.tail();
        } else {
            rng = a;
        }
    }
    rng.first()
}

/// Lower bound for `elt` in a sorted vector, through the pointer-range
/// surface.
pub fn lower_bound_prange(v: &Vec<i32>, elt: &i32) -> (r: usize)
    requires
        sorted(v@),
    ensures
        r <= v@.len(),
        forall|k: int| 0 <= k < r ==> v@[k] < *elt,
        forall|k: int| r <= k < v@.len() ==> v@[k] >= *elt,
{
    let c = Container::new(duplicate(v));
    let range = c.pointer_range();
    let below = |x: &i32| -> (b: bool)
        ensures
            b == (*x < *elt),
        {
            *x < *elt
        };
    let p = lower_bound_prange_(range, &c, below);
    c.distance_to(p)
}

/// Lower bound over a pointer slice, with the same probe contract as the
/// pointer-range form.
pub fn lower_bound_pslice_<T, F: Fn(&T) -> bool, P: ProofType>(
    range: PSlice<P>,
    v: &Container<T>,
    less_than: F,
) -> (r: PIndex<Unknown>)
    requires
        v.valid_pslice(range),
        forall|x: &T| call_requires(less_than, (x,)),
    ensures
        range.start_spec() <= r.offset_spec() <= range.past_end_spec(),
        r.brand() == v.brand(),
        v.valid_pindex(r),
        r.offset_spec() > range.start_spec() ==> call_ensures(
            less_than,
            (&v@[r.offset_spec() - 1],),
            true,
        ),
        r.offset_spec() < range.past_end_spec() ==> call_ensures(
            less_than,
            (&v@[r.offset_spec() as int],),
            false,
        ),
{
    let pr = range.as_prange();
    lower_bound_prange_(pr, v, less_than)
}

/// Lower bound for a predicate in a vector, through the pointer-slice
/// surface: the returned offset's neighbouring probes answered `true`
/// (just below it) and `false` (at it).
pub fn lower_bound_pslice<T: Copy, F: Fn(&T) -> bool>(v: &Vec<T>, f: F) -> (r: usize)
    requires
        forall|x: &T| call_requires(f, (x,)),
    ensures
        r <= v@.len(),
        r > 0 ==> call_ensures(f, (&v@[r - 1],), true),
        r < v@.len() ==> call_ensures(f, (&v@[r as int],), false),
{
    let c = Container::new(duplicate(v));
    let range = c.pointer_slice();
    let p = lower_bound_pslice_(range, &c, f);
    c.distance_to(p)
}

/// Binary search for a comparator `f` over the whole vector.
///
/// On success the returned offset holds an element `f` judged equal; on
/// failure the returned offset is an insertion point whose two
/// neighbouring probes answered `Less` (below it) and `Greater` (at it).
pub fn binary_search_by<T: Copy, F: Fn(&T) -> Ordering>(v: &Vec<T>, f: F) -> (r: Result<
    usize,
    usize,
>)
    requires
        forall|x: &T| call_requires(f, (x,)),
    ensures
        match r {
            Ok(i) => i < v@.len() && call_ensures(f, (&v@[i as int],), Ordering::Equal),
            Err(i) => {
                &&& i <= v@.len()
                &&& i > 0 ==> call_ensures(f, (&v@[i - 1],), Ordering::Less)
                &&& i < v@.len() ==> call_ensures(f, (&v@[i as int],), Ordering::Greater)
            },
        },
{
    let c = Container::new(duplicate(v));
    let mut range = c.range();
    loop
        invariant
            c@ == v@,
            c.valid_range(range),
            forall|x: &T| call_requires(f, (x,)),
            range.start_spec() > 0 ==> call_ensures(f, (&v@[range.start_spec() - 1],), Ordering::Less),
            range.end_spec() < v@.len() ==> call_ensures(
                f,
                (&v@[range.end_spec() as int],),
                Ordering::Greater,
            ),
        ensures
            range.start_spec() == range.end_spec(),
            range.end_spec() <= v@.len(),
            range.start_spec() > 0 ==> call_ensures(f, (&v@[range.start_spec() - 1],), Ordering::Less),
            range.start_spec() < v@.len() ==> call_ensures(
                f,
                (&v@[range.start_spec() as int],),
                Ordering::Greater,
            ),
        decreases range.len_spec(),
    {
        let nonempty = match range.nonempty() {
            Ok(ne) => ne,
            Err(_) => { break ; },
        };
        let (a, b) = nonempty.split_in_half();
        let mid = b.first();
        match f(c.at(mid)) {
            Ordering::Equal => {
                return Ok(mid.integer());
            },
            Ordering::Greater => {
                range = a;
            },
            Ordering::Less => {
                range = b.tail();
            },
        }
    }
    Err(range.start())
}

/// Binary search for `elt` in a sorted vector.
///
/// `Ok(i)` points at an element equal to `elt`; `Err(i)` is the offset
/// where `elt` could be inserted, and certifies that `elt` is absent.
pub fn binary_search(v: &Vec<i32>, elt: &i32) -> (r: Result<usize, usize>)
    requires
        sorted(v@),
    ensures
        match r {
            Ok(i) => i < v@.len() && v@[i as int] == *elt,
            Err(i) => {
                &&& i <= v@.len()
                &&& forall|k: int| 0 <= k < i ==> v@[k] < *elt
                &&& forall|k: int| i <= k < v@.len() ==> v@[k] > *elt
            },
        },
{
    let compare = |x: &i32| -> (o: Ordering)
        ensures
            o == (if *x < *elt {
                Ordering::Less
            } else if *x > *elt {
                Ordering::Greater
            } else {
                Ordering::Equal
            }),
        {
            if *x < *elt {
                Ordering::Less
            } else if *x > *elt {
                Ordering::Greater
            } else {
                Ordering::Equal
            }
        };
    binary_search_by(v, compare)
}

/// Binary search over a pointer range, with the comparator probe
/// contract of `binary_search_by`.
pub fn binary_search_by_prange_<T, F: Fn(&T) -> Ordering, P: ProofType>(
    range: PRange<P>,
    v: &Container<T>,
    compare: F,
) -> (r: Result<PIndex<NonEmpty>, PIndex<Unknown>>)
    requires
        v.valid_prange(range),
        forall|x: &T| call_requires(compare, (x,)),
    ensures
        match r {
            Ok(p) => {
                &&& range.start_spec() <= p.offset_spec() < range.end_spec()
                &&& v.valid_pindex(p)
                &&& p.brand() == v.brand()
                &&& call_ensures(compare, (&v@[p.offset_spec() as int],), Ordering::Equal)
            },
            Err(p) => {
                &&& range.start_spec() <= p.offset_spec() <= range.end_spec()
                &&& v.valid_pindex(p)
                &&& p.brand() == v.brand()
                &&& p.offset_spec() > range.start_spec() ==> call_ensures(
                    compare,
                    (&v@[p.offset_spec() - 1],),
                    Ordering::Less,
                )
                &&& p.offset_spec() < range.end_spec() ==> call_ensures(
                    compare,
                    (&v@[p.offset_spec() as int],),
                    Ordering::Greater,
                )
            },
        },
{
    let mut rng = range.no_proof();
    loop
        invariant
            v.valid_prange(rng),
            range.start_spec() <= rng.start_spec(),
            rng.end_spec() <= range.end_spec(),
            forall|x: &T| call_requires(compare, (x,)),
            rng.start_spec() > range.start_spec() ==> call_ensures(
                compare,
                (&v@[rng.start_spec() - 1],),
                Ordering::Less,
            ),
            rng.end_spec() < range.end_spec() ==> call_ensures(
                compare,
                (&v@[rng.end_spec() as int],),
                Ordering::Greater,
            ),
        ensures
            rng.start_spec() == rng.end_spec(),
            range.start_spec() <= rng.start_spec() <= range.end_spec(),
            v.valid_prange(rng),
            rng.start_spec() > range.start_spec() ==> call_ensures(
                compare,
                (&v@[rng.start_spec() - 1],),
                Ordering::Less,
            ),
            rng.start_spec() < range.end_spec() ==> call_ensures(
                compare,
                (&v@[rng.start_spec() as int],),
                Ordering::Greater,
            ),
        decreases rng.len_spec(),
    {
        let nonempty = match rng.nonempty() {
            Ok(ne) => ne,
            Err(_) => { break ; },
        };
        let (a, b) = nonempty.split_in_half();
        let mid = b.first();
        match compare(v.at_ptr(mid)) {
            Ordering::Equal => {
                return Ok(mid);
            },
            Ordering::Greater => {
                rng = a;
            },
            Ordering::Less => {
                rng = b.tail();
            },
        }
    }
    Err(rng.first())
}

/// Binary search for a comparator over a vector, through the
/// pointer-range surface.
pub fn binary_search_by_prange<T: Copy, F: Fn(&T) -> Ordering>(v: &Vec<T>, compare: F) -> (r:
    Result<usize, usize>)
    requires
        forall|x: &T| call_requires(compare, (x,)),
    ensures
        match r {
            Ok(i) => i < v@.len() && call_ensures(compare, (&v@[i as int],), Ordering::Equal),
            Err(i) => {
                &&& i <= v@.len()
                &&& i > 0 ==> call_ensures(compare, (&v@[i - 1],), Ordering::Less)
                &&& i < v@.len() ==> call_ensures(compare, (&v@[i as int],), Ordering::Greater)
            },
        },
{
    let c = Container::new(duplicate(v));
    match binary_search_by_prange_(c.pointer_range(), &c, compare) {
        Ok(p) => Ok(c.distance_to(p)),
        Err(p) => Err(c.distance_to(p)),
    }
}

/// Binary search over a pointer slice, with the comparator probe
/// contract of `binary_search_by`.
pub fn binary_search_by_pslice_<T, F: Fn(&T) -> Ordering, P: ProofType>(
    range: PSlice<P>,
    v: &Container<T>,
    compare: F,
) -> (r: Result<PIndex<NonEmpty>, PIndex<Unknown>>)
    requires
        v.valid_pslice(range),
        forall|x: &T| call_requires(compare, (x,)),
    ensures
        match r {
            Ok(p) => {
                &&& range.start_spec() <= p.offset_spec() < range.past_end_spec()
                &&& v.valid_pindex(p)
                &&& p.brand() == v.brand()
                &&& call_ensures(compare, (&v@[p.offset_spec() as int],), Ordering::Equal)
            },
            Err(p) => {
                &&& range.start_spec() <= p.offset_spec() <= range.past_end_spec()
                &&& v.valid_pindex(p)
                &&& p.brand() == v.brand()
                &&& p.offset_spec() > range.start_spec() ==> call_ensures(
                    compare,
                    (&v@[p.offset_spec() - 1],),
                    Ordering::Less,
                )
                &&& p.offset_spec() < range.past_end_spec() ==> call_ensures(
                    compare,
                    (&v@[p.offset_spec() as int],),
                    Ordering::Greater,
                )
            },
        },
{
    binary_search_by_prange_(range.as_prange(), v, compare)
}

/// Binary search for a comparator over a vector, through the
/// pointer-slice surface.
pub fn binary_search_by_pslice<T: Copy, F: Fn(&T) -> Ordering>(v: &Vec<T>, compare: F) -> (r:
    Result<usize, usize>)
    requires
        forall|x: &T| call_requires(compare, (x,)),
    ensures
        match r {
            Ok(i) => i < v@.len() && call_ensures(compare, (&v@[i as int],), Ordering::Equal),
            Err(i) => {
                &&& i <= v@.len()
                &&& i > 0 ==> call_ensures(compare, (&v@[i - 1],), Ordering::Less)
                &&& i < v@.len() ==> call_ensures(compare, (&v@[i as int],), Ordering::Greater)
            },
        },
{
    let c = Container::new(duplicate(v));
    match binary_search_by_pslice_(c.pointer_slice(), &c, compare) {
        Ok(p) => Ok(c.distance_to(p)),
        Err(p) => Err(c.distance_to(p)),
    }
}

/// Sort a range of the container in place by insertion, comparing with
/// `<`.  Used as the small-range fallback of the quicksorts: the range
/// ends up sorted, holds exactly the elements it held before, and the
/// rest of the container is untouched.
fn insertion_sort_range(c: &mut Container<i32>, r: Range<Unknown>)
    requires
        old(c).valid_range(r),
    ensures
        final(c)@.len() == old(c)@.len(),
        final(c).brand() == old(c).brand(),
        final(c)@.to_multiset() == old(c)@.to_multiset(),
        final(c)@.subrange(r.start_spec() as int, r.end_spec() as int).to_multiset() == old(
            c,
        )@.subrange(r.start_spec() as int, r.end_spec() as int).to_multiset(),
        forall|k: int|
            0 <= k < old(c)@.len() && !(r.start_spec() <= k < r.end_spec()) ==> final(c)@[k] == old(
                c,
            )@[k],
        sorted_between(final(c)@, r.start_spec() as int, r.end_spec() as int),
{
    let lo = r.start();
    let hi = r.end();
    let ghost s0 = old(c)@;
    let ghost n0 = old(c)@.len();
    let ghost b0 = old(c).brand();
    if lo == hi {
        return ;
    }
    let mut i: usize = lo + 1;
    while i < hi
        invariant
            lo < i,
            i <= hi,
            hi <= n0,
            c@.len() == n0,
            c.brand() == b0,
            c@.to_multiset() == s0.to_multiset(),
            c@.subrange(lo as int, hi as int).to_multiset() == s0.subrange(
                lo as int,
                hi as int,
            ).to_multiset(),
            forall|k: int| 0 <= k < n0 && !(lo <= k < hi) ==> c@[k] == s0[k],
            sorted_between(c@, lo as int, i as int),
        decreases hi - i,
    {
        let mut j: usize = i;
        loop
            invariant
                lo <= j <= i < hi <= n0,
                c@.len() == n0,
                c.brand() == b0,
                c@.to_multiset() == s0.to_multiset(),
                c@.subrange(lo as int, hi as int).to_multiset() == s0.subrange(
                    lo as int,
                    hi as int,
                ).to_multiset(),
                forall|k: int| 0 <= k < n0 && !(lo <= k < hi) ==> c@[k] == s0[k],
                sorted_between(c@, lo as int, j as int),
                sorted_between(c@, j as int, i + 1),
                j < i ==> forall|a: int| lo <= a < j ==> #[trigger] c@[a] <= c@[j + 1],
            ensures
                c@.len() == n0,
                c.brand() == b0,
                c@.to_multiset() == s0.to_multiset(),
                c@.subrange(lo as int, hi as int).to_multiset() == s0.subrange(
                    lo as int,
                    hi as int,
                ).to_multiset(),
                forall|k: int| 0 <= k < n0 && !(lo <= k < hi) ==> c@[k] == s0[k],
                sorted_between(c@, lo as int, i + 1),
            decreases j,
        {
            if j == lo {
                assert forall|a: int, b: int| lo <= a <= b < i + 1 implies c@[a] <= c@[b] by {}
                break ;
            }
            let prev: Index<NonEmpty> = Index::new(j - 1, Ghost(c.brand()));
            let here: Index<NonEmpty> = Index::new(j, Ghost(c.brand()));
            if !(*c.at(here) < *c.at(prev)) {
                assert forall|a: int, b: int| lo <= a <= b < i + 1 implies c@[a] <= c@[b] by {
                    if a < j && b >= j {
                        assert(c@[a] <= c@[j - 1]);
                        assert(c@[j - 1] <= c@[j as int]);
                        assert(c@[j as int] <= c@[b]);
                    }
                }
                break ;
            }
            let ghost s_pre = c@;
            proof {
                crate::container::lemma_swap_seq_to_multiset(c@, j - 1, j as int);
                lemma_swap_in_region(c@, j - 1, j as int, lo as int, hi as int);
            }
            c.swap(prev, here);
            proof {
                let s_post = c@;
                assert(s_post == crate::container::swap_seq(s_pre, j - 1, j as int));
                assert(s_post[j - 1] == s_pre[j as int]);
                assert(s_post[j as int] == s_pre[j - 1]);
                assert forall|m: int| 0 <= m < n0 && m != j - 1 && m != j implies s_post[m]
                    == s_pre[m] by {}
                assert(sorted_between(s_post, lo as int, j - 1));
                assert forall|a: int, b: int| j - 1 <= a <= b < i + 1 implies s_post[a]
                    <= s_post[b] by {
                    if a == j - 1 {
                        if b == j - 1 {
                        } else if b == j as int {
                            assert(s_post[a] == s_pre[j as int]);
                        } else {
                            assert(s_post[b] == s_pre[b]);
                            assert(s_pre[j as int] < s_pre[j - 1]);
                            assert(s_pre[j - 1] <= s_pre[b]);
                        }
                    } else if a == j as int {
                        if b > j as int {
                            assert(s_pre[j - 1] <= s_pre[b]) by {
                                if j < i {
                                    assert(s_pre[j - 1] <= s_pre[j + 1]);
                                    assert(s_pre[j + 1] <= s_pre[b]);
                                }
                            }
                        }
                    } else {
                        assert(s_pre[a] <= s_pre[b]);
                    }
                }
                if j - 1 < i {
                    assert forall|a: int| lo <= a < j - 1 implies s_post[a] <= s_post[j as int] by {
                        assert(s_pre[a] <= s_pre[j - 1]);
                    }
                }
            }
            j = j - 1;
        }
        i = i + 1;
    }
    proof {
        assert(sorted_between(c@, lo as int, hi as int));
    }
}

/// One quicksort step over the range `r` of the container: partition
/// around a median-of-three pivot and recurse into the two sides.  The
/// range ends up sorted, holds exactly the elements it held before, and
/// the rest of the container is untouched.
fn quicksort_rec(c: &mut Container<i32>, r: Range<Unknown>)
    requires
        old(c).valid_range(r),
    ensures
        final(c)@.len() == old(c)@.len(),
        final(c).brand() == old(c).brand(),
        final(c)@.to_multiset() == old(c)@.to_multiset(),
        final(c)@.subrange(r.start_spec() as int, r.end_spec() as int).to_multiset() == old(
            c,
        )@.subrange(r.start_spec() as int, r.end_spec() as int).to_multiset(),
        forall|k: int|
            0 <= k < old(c)@.len() && !(r.start_spec() <= k < r.end_spec()) ==> final(c)@[k] == old(
                c,
            )@[k],
        sorted_between(final(c)@, r.start_spec() as int, r.end_spec() as int),
    decreases r.len_spec(),
{
    let ghost n0 = old(c)@.len();
    let ghost b0 = old(c).brand();
    let ghost rs = r.start_spec() as int;
    let ghost re = r.end_spec() as int;
    let rr = match r.nonempty() {
        Ok(ne) => ne,
        Err(_) => {
            return ;
        },
    };
    if rr.len() <= 24 {
        insertion_sort_range(c, r);
        return ;
    }
    let l = rr.first();
    let m = rr.upper_middle();
    let rt = rr.last();
    let pivot0 = if *c.at(l) <= *c.at(m) && *c.at(m) <= *c.at(rt) {
        m
    } else if *c.at(m) <= *c.at(l) && *c.at(l) <= *c.at(rt) {
        l
    } else {
        rt
    };
    let mut scan = rr;
    proof {
        crate::container::lemma_swap_seq_to_multiset(
            c@,
            scan.start_spec() as int,
            pivot0.index_spec() as int,
        );
        lemma_swap_in_region(c@, scan.start_spec() as int, pivot0.index_spec() as int, rs, re);
    }
    c.swap(scan.first(), pivot0);
    let ghost s0 = c@;
    let pivot = scan.first();
    'partition: loop
        invariant
            c@.len() == n0,
            c.brand() == b0,
            c@.to_multiset() == s0.to_multiset(),
            c@.subrange(rs, re).to_multiset() == s0.subrange(rs, re).to_multiset(),
            forall|k: int| 0 <= k < n0 && !(rs <= k < re) ==> c@[k] == s0[k],
            scan.wf(),
            scan.brand() == b0,
            rs <= scan.start_spec(),
            scan.end_spec() <= re,
            0 <= rs < re <= n0,
            pivot.index_spec() == rs,
            pivot.brand() == b0,
            forall|k: int| rs <= k < scan.start_spec() ==> c@[k] <= c@[rs],
            forall|k: int| scan.end_spec() <= k < re ==> c@[k] >= c@[rs],
            scan.start_spec() > rs ==> c@[scan.end_spec() - 1] >= c@[rs],
        ensures
            c@.len() == n0,
            c.brand() == b0,
            c@.to_multiset() == s0.to_multiset(),
            c@.subrange(rs, re).to_multiset() == s0.subrange(rs, re).to_multiset(),
            forall|k: int| 0 <= k < n0 && !(rs <= k < re) ==> c@[k] == s0[k],
            scan.wf(),
            scan.brand() == b0,
            rs <= scan.start_spec() < re,
            forall|k: int| rs <= k < scan.start_spec() ==> c@[k] <= c@[rs],
            forall|k: int| scan.start_spec() <= k < re ==> c@[k] >= c@[rs],
        decreases scan.len_spec(),
    {
        let outer_ok = *c.at(scan.first()) >= *c.at(pivot);
        if outer_ok {
            let ghost len_at = scan.len_spec();
            let ghost start_at = scan.start_spec();
            loop
                invariant_except_break
                    c@[scan.start_spec() as int] >= c@[rs],
                invariant
                    c@.len() == n0,
                    c.brand() == b0,
                    c@.to_multiset() == s0.to_multiset(),
                    c@.subrange(rs, re).to_multiset() == s0.subrange(rs, re).to_multiset(),
                    forall|k: int| 0 <= k < n0 && !(rs <= k < re) ==> c@[k] == s0[k],
                    scan.wf(),
                    scan.brand() == b0,
                    scan.start_spec() == start_at,
                    rs <= scan.start_spec(),
                    scan.end_spec() <= re,
                    0 <= rs < re <= n0,
                    pivot.index_spec() == rs,
                    pivot.brand() == b0,
                    scan.len_spec() <= len_at,
                    forall|k: int| rs <= k < scan.start_spec() ==> c@[k] <= c@[rs],
                    forall|k: int| scan.end_spec() <= k < re ==> c@[k] >= c@[rs],
                ensures
                    c@.len() == n0,
                    c.brand() == b0,
                    c@.to_multiset() == s0.to_multiset(),
                    c@.subrange(rs, re).to_multiset() == s0.subrange(rs, re).to_multiset(),
                    forall|k: int| 0 <= k < n0 && !(rs <= k < re) ==> c@[k] == s0[k],
                    scan.wf(),
                    scan.brand() == b0,
                    scan.start_spec() == start_at,
                    scan.end_spec() <= re,
                    scan.len_spec() <= len_at,
                    c@[scan.start_spec() as int] <= c@[rs],
                    c@[scan.end_spec() - 1] >= c@[rs],
                    forall|k: int| rs <= k < scan.start_spec() ==> c@[k] <= c@[rs],
                    forall|k: int| scan.end_spec() <= k < re ==> c@[k] >= c@[rs],
                decreases scan.len_spec(),
            {
                if *c.at(scan.last()) <= *c.at(pivot) {
                    let ghost s_pre = c@;
                    let ghost fi = scan.start_spec() as int;
                    let ghost la = scan.end_spec() - 1;
                    proof {
                        crate::container::lemma_swap_seq_to_multiset(c@, fi, la);
                        lemma_swap_in_region(c@, fi, la, rs, re);
                    }
                    c.swap(scan.first(), scan.last());
                    proof {
                        assert(c@ == crate::container::swap_seq(s_pre, fi, la));
                        assert(c@[fi] == s_pre[la]);
                        assert(c@[la] == s_pre[fi]);
                        assert forall|k: int| 0 <= k < n0 && k != fi && k != la implies c@[k]
                            == s_pre[k] by {}
                        if fi == rs {
                            assert(c@[rs] == s_pre[la]);
                            assert(c@[rs] <= s_pre[rs]);
                        } else {
                            assert(c@[rs] == s_pre[rs]);
                        }
                        assert(c@[fi] <= c@[rs]);
                        assert(c@[la] >= c@[rs]);
                        assert forall|k: int| rs <= k < scan.start_spec() implies c@[k]
                            <= c@[rs] by {
                            assert(s_pre[k] <= s_pre[rs]);
                        }
                        assert forall|k: int| scan.end_spec() <= k < re implies c@[k]
                            >= c@[rs] by {
                            assert(s_pre[k] >= s_pre[rs]);
                        }
                    }
                    break ;
                }
                if !scan.advance_back() {
                    proof {
                        assert(scan.len_spec() == 1);
                        let f = scan.start_spec() as int;
                        assert(c@[f] > c@[rs]);
                        assert forall|k: int| scan.start_spec() <= k < re implies c@[k]
                            >= c@[rs] by {
                            if k > f {
                                assert(c@[k] >= c@[rs]);
                            }
                        }
                    }
                    break 'partition ;
                }
            }
        } else {
            proof {
                assert(scan.start_spec() > rs);
            }
        }
        if !scan.advance() {
            proof {
                let f = scan.start_spec() as int;
                assert(c@[f] <= c@[rs]);
                if f > rs {
                    assert(c@[scan.end_spec() - 1] >= c@[rs]);
                    assert(c@[f] >= c@[rs]);
                }
                assert forall|k: int| scan.start_spec() <= k < re implies c@[k] >= c@[rs] by {
                    if k == f {
                    } else {
                        assert(c@[k] >= c@[rs]);
                    }
                }
            }
            break ;
        }
    }
    let ghost s1 = c@;
    let ghost pv = s1[rs];
    let ghost mm = scan.start_spec() as int;
    let s = scan.first();
    let (a, b, _exact) = r.split_at(s.integer() - r.start());
    quicksort_rec(c, a);
    let ghost s2 = c@;
    proof {
        assert(s2.subrange(rs, mm).to_multiset() == s1.subrange(rs, mm).to_multiset());
        assert forall|k: int| 0 <= k < mm - rs implies s1.subrange(rs, mm)[k] <= pv by {
            assert(s1.subrange(rs, mm)[k] == s1[rs + k]);
        }
        lemma_multiset_le_bound(s1.subrange(rs, mm), s2.subrange(rs, mm), pv);
        assert forall|k: int| rs <= k < mm implies s2[k] <= pv by {
            assert(s2.subrange(rs, mm)[k - rs] == s2[k]);
        }
        assert forall|k: int| mm <= k < re implies s2[k] >= pv by {
            assert(s2[k] == s1[k]);
        }
        assert(s2.subrange(mm, re) =~= s1.subrange(mm, re));
        lemma_tm_glue(s1, rs, mm, re);
        lemma_tm_glue(s2, rs, mm, re);
    }
    if b.len() < r.end() - r.start() {
        quicksort_rec(c, b);
        proof {
            let s3 = c@;
            assert forall|k: int| 0 <= k < re - mm implies s2.subrange(mm, re)[k] >= pv by {
                assert(s2.subrange(mm, re)[k] == s2[mm + k]);
            }
            lemma_multiset_ge_bound(s2.subrange(mm, re), s3.subrange(mm, re), pv);
            assert forall|k: int| mm <= k < re implies s3[k] >= pv by {
                assert(s3.subrange(mm, re)[k - mm] == s3[k]);
            }
            assert forall|k: int| rs <= k < mm implies s3[k] <= pv by {
                assert(s3[k] == s2[k]);
            }
            assert forall|x: int, y: int| rs <= x <= y < re implies s3[x] <= s3[y] by {
                if x < mm && y >= mm {
                    assert(s3[x] <= pv);
                    assert(s3[y] >= pv);
                }
            }
            assert(s3.subrange(rs, mm) =~= s2.subrange(rs, mm));
            lemma_tm_glue(s3, rs, mm, re);
        }
    } else {
        // The partition scan never advanced: the pivot cell already
        // sits at the front of the range, below everything after it,
        // so only the cells after it remain to be sorted.
        let bb = match b.nonempty() {
            Ok(ne) => ne,
            Err(_) => {
                proof {
                    assert(false);
                }
                return ;
            },
        };
        quicksort_rec(c, bb.tail());
        proof {
            let s3 = c@;
            assert(mm == rs);
            assert(s3[rs] == s2[rs]);
            assert(s2 == s1);
            assert forall|k: int| 0 <= k < re - (rs + 1) implies #[trigger] s2.subrange(
                rs + 1,
                re,
            )[k] >= pv by {
                assert(s2.subrange(rs + 1, re)[k] == s2[rs + 1 + k]);
            }
            lemma_multiset_ge_bound(s2.subrange(rs + 1, re), s3.subrange(rs + 1, re), pv);
            assert forall|k: int| rs + 1 <= k < re implies s3[k] >= pv by {
                assert(s3.subrange(rs + 1, re)[k - rs - 1] == s3[k]);
            }
            assert(s3[rs] == pv);
            assert forall|x: int, y: int| rs <= x <= y < re implies s3[x] <= s3[y] by {
                if x == rs && y > rs {
                    assert(s3[y] >= pv);
                }
            }
            lemma_tm_glue(s2, rs, rs + 1, re);
            lemma_tm_glue(s3, rs, rs + 1, re);
            assert(s3.subrange(rs, rs + 1) =~= s2.subrange(rs, rs + 1));
        }
    }
}

/// Sort by quicksort over index-range particles: median-of-three pivot,
/// two-way partition, insertion sort below a small cutoff.  The result
/// is sorted and holds exactly the elements it started with.
pub fn quicksort_range(v: &mut Vec<i32>)
    ensures
        final(v)@.to_multiset() == old(v)@.to_multiset(),
        final(v)@.len() == old(v)@.len(),
        sorted(final(v)@),
{
    let mut tmp: Vec<i32> = Vec::new();
    core::mem::swap(v, &mut tmp);
    let mut c = Container::new(tmp);
    let r = c.range();
    quicksort_rec(&mut c, r);
    let mut out = c.into_inner();
    core::mem::swap(v, &mut out);
}

/// Sort by quicksort through the scoped container.  The result is
/// sorted and holds exactly the elements it started with.
pub fn quicksort(v: &mut Vec<i32>)
    ensures
        final(v)@.to_multiset() == old(v)@.to_multiset(),
        final(v)@.len() == old(v)@.len(),
        sorted(final(v)@),
{
    quicksort_range(v)
}

/// One quicksort step over a pointer range.  The interval ends up
/// sorted, holds exactly the elements it held before, and the rest of
/// the container is untouched.
fn quicksort_prange_rec(c: &mut Container<i32>, r: PRange<Unknown>)
    requires
        old(c).valid_prange(r),
    ensures
        final(c)@.len() == old(c)@.len(),
        final(c).brand() == old(c).brand(),
        final(c)@.to_multiset() == old(c)@.to_multiset(),
        final(c)@.subrange(r.start_spec() as int, r.end_spec() as int).to_multiset() == old(
            c,
        )@.subrange(r.start_spec() as int, r.end_spec() as int).to_multiset(),
        forall|k: int|
            0 <= k < old(c)@.len() && !(r.start_spec() <= k < r.end_spec()) ==> final(c)@[k] == old(
                c,
            )@[k],
        sorted_between(final(c)@, r.start_spec() as int, r.end_spec() as int),
    decreases r.len_spec(),
{
    let ghost n0 = old(c)@.len();
    let ghost b0 = old(c).brand();
    let ghost rs = r.start_spec() as int;
    let ghost re = r.end_spec() as int;
    let rr = match r.nonempty() {
        Ok(ne) => ne,
        Err(_) => {
            return ;
        },
    };
    if rr.len() <= 24 {
        let plain: Range<Unknown> = Range::make(r.start(), r.end(), Ghost(c.brand()));
        insertion_sort_range(c, plain);
        return ;
    }
    let l = rr.first();
    let m = rr.upper_middle();
    let rt = rr.last();
    let pivot0 = if *c.at_ptr(l) <= *c.at_ptr(m) && *c.at_ptr(m) <= *c.at_ptr(rt) {
        m
    } else if *c.at_ptr(m) <= *c.at_ptr(l) && *c.at_ptr(l) <= *c.at_ptr(rt) {
        l
    } else {
        rt
    };
    let mut scan = rr;
    proof {
        crate::container::lemma_swap_seq_to_multiset(
            c@,
            scan.start_spec() as int,
            pivot0.offset_spec() as int,
        );
        lemma_swap_in_region(c@, scan.start_spec() as int, pivot0.offset_spec() as int, rs, re);
    }
    c.swap_ptr(scan.first(), pivot0);
    let ghost s0 = c@;
    let pivot = scan.first();
    'partition: loop
        invariant
            c@.len() == n0,
            c.brand() == b0,
            c@.to_multiset() == s0.to_multiset(),
            c@.subrange(rs, re).to_multiset() == s0.subrange(rs, re).to_multiset(),
            forall|k: int| 0 <= k < n0 && !(rs <= k < re) ==> c@[k] == s0[k],
            scan.wf(),
            scan.brand() == b0,
            rs <= scan.start_spec(),
            scan.end_spec() <= re,
            0 <= rs < re <= n0,
            pivot.offset_spec() == rs,
            pivot.brand() == b0,
            forall|k: int| rs <= k < scan.start_spec() ==> c@[k] <= c@[rs],
            forall|k: int| scan.end_spec() <= k < re ==> c@[k] >= c@[rs],
            scan.start_spec() > rs ==> c@[scan.end_spec() - 1] >= c@[rs],
        ensures
            c@.len() == n0,
            c.brand() == b0,
            c@.to_multiset() == s0.to_multiset(),
            c@.subrange(rs, re).to_multiset() == s0.subrange(rs, re).to_multiset(),
            forall|k: int| 0 <= k < n0 && !(rs <= k < re) ==> c@[k] == s0[k],
            scan.wf(),
            scan.brand() == b0,
            rs <= scan.start_spec() < re,
            forall|k: int| rs <= k < scan.start_spec() ==> c@[k] <= c@[rs],
            forall|k: int| scan.start_spec() <= k < re ==> c@[k] >= c@[rs],
        decreases scan.len_spec(),
    {
        let outer_ok = *c.at_ptr(scan.first()) >= *c.at_ptr(pivot);
        if outer_ok {
            let ghost len_at = scan.len_spec();
            let ghost start_at = scan.start_spec();
            loop
                invariant_except_break
                    c@[scan.start_spec() as int] >= c@[rs],
                invariant
                    c@.len() == n0,
                    c.brand() == b0,
                    c@.to_multiset() == s0.to_multiset(),
                    c@.subrange(rs, re).to_multiset() == s0.subrange(rs, re).to_multiset(),
                    forall|k: int| 0 <= k < n0 && !(rs <= k < re) ==> c@[k] == s0[k],
                    scan.wf(),
                    scan.brand() == b0,
                    scan.start_spec() == start_at,
                    rs <= scan.start_spec(),
                    scan.end_spec() <= re,
                    0 <= rs < re <= n0,
                    pivot.offset_spec() == rs,
                    pivot.brand() == b0,
                    scan.len_spec() <= len_at,
                    forall|k: int| rs <= k < scan.start_spec() ==> c@[k] <= c@[rs],
                    forall|k: int| scan.end_spec() <= k < re ==> c@[k] >= c@[rs],
                ensures
                    c@.len() == n0,
                    c.brand() == b0,
                    c@.to_multiset() == s0.to_multiset(),
                    c@.subrange(rs, re).to_multiset() == s0.subrange(rs, re).to_multiset(),
                    forall|k: int| 0 <= k < n0 && !(rs <= k < re) ==> c@[k] == s0[k],
                    scan.wf(),
                    scan.brand() == b0,
                    scan.start_spec() == start_at,
                    scan.end_spec() <= re,
                    scan.len_spec() <= len_at,
                    c@[scan.start_spec() as int] <= c@[rs],
                    c@[scan.end_spec() - 1] >= c@[rs],
                    forall|k: int| rs <= k < scan.start_spec() ==> c@[k] <= c@[rs],
                    forall|k: int| scan.end_spec() <= k < re ==> c@[k] >= c@[rs],
                decreases scan.len_spec(),
            {
                if *c.at_ptr(scan.last()) <= *c.at_ptr(pivot) {
                    let ghost s_pre = c@;
                    let ghost fi = scan.start_spec() as int;
                    let ghost la = scan.end_spec() - 1;
                    proof {
                        crate::container::lemma_swap_seq_to_multiset(c@, fi, la);
                        lemma_swap_in_region(c@, fi, la, rs, re);
                    }
                    c.swap_ptr(scan.first(), scan.last());
                    proof {
                        assert(c@ == crate::container::swap_seq(s_pre, fi, la));
                        assert(c@[fi] == s_pre[la]);
                        assert(c@[la] == s_pre[fi]);
                        assert forall|k: int| 0 <= k < n0 && k != fi && k != la implies c@[k]
                            == s_pre[k] by {}
                        if fi == rs {
                            assert(c@[rs] == s_pre[la]);
                            assert(c@[rs] <= s_pre[rs]);
                        } else {
                            assert(c@[rs] == s_pre[rs]);
                        }
                        assert(c@[fi] <= c@[rs]);
                        assert(c@[la] >= c@[rs]);
                        assert forall|k: int| rs <= k < scan.start_spec() implies c@[k]
                            <= c@[rs] by {
                            assert(s_pre[k] <= s_pre[rs]);
                        }
                        assert forall|k: int| scan.end_spec() <= k < re implies c@[k]
                            >= c@[rs] by {
                            assert(s_pre[k] >= s_pre[rs]);
                        }
                    }
                    break ;
                }
                if !scan.advance_back() {
                    proof {
                        assert(scan.len_spec() == 1);
                        let f = scan.start_spec() as int;
                        assert(c@[f] > c@[rs]);
                        assert forall|k: int| scan.start_spec() <= k < re implies c@[k]
                            >= c@[rs] by {
                            if k > f {
                                assert(c@[k] >= c@[rs]);
                            }
                        }
                    }
                    break 'partition ;
                }
            }
        } else {
            proof {
                assert(scan.start_spec() > rs);
            }
        }
        if !scan.advance() {
            proof {
                let f = scan.start_spec() as int;
                assert(c@[f] <= c@[rs]);
                if f > rs {
                    assert(c@[scan.end_spec() - 1] >= c@[rs]);
                    assert(c@[f] >= c@[rs]);
                }
                assert forall|k: int| scan.start_spec() <= k < re implies c@[k] >= c@[rs] by {
                    if k == f {
                    } else {
                        assert(c@[k] >= c@[rs]);
                    }
                }
            }
            break ;
        }
    }
    let ghost s1 = c@;
    let ghost pv = s1[rs];
    let ghost mm = scan.start_spec() as int;
    let s = scan.first();
    let a: PRange<Unknown> = PRange::make(r.start(), s.offset(), Ghost(c.brand()));
    let b: PRange<Unknown> = PRange::make(s.offset(), r.end(), Ghost(c.brand()));
    quicksort_prange_rec(c, a);
    let ghost s2 = c@;
    proof {
        assert(s2.subrange(rs, mm).to_multiset() == s1.subrange(rs, mm).to_multiset());
        assert forall|k: int| 0 <= k < mm - rs implies s1.subrange(rs, mm)[k] <= pv by {
            assert(s1.subrange(rs, mm)[k] == s1[rs + k]);
        }
        lemma_multiset_le_bound(s1.subrange(rs, mm), s2.subrange(rs, mm), pv);
        assert forall|k: int| rs <= k < mm implies s2[k] <= pv by {
            assert(s2.subrange(rs, mm)[k - rs] == s2[k]);
        }
        assert forall|k: int| mm <= k < re implies s2[k] >= pv by {
            assert(s2[k] == s1[k]);
        }
        assert(s2.subrange(mm, re) =~= s1.subrange(mm, re));
        lemma_tm_glue(s1, rs, mm, re);
        lemma_tm_glue(s2, rs, mm, re);
    }
    if b.len() < r.end() - r.start() {
        quicksort_prange_rec(c, b);
        proof {
            let s3 = c@;
            assert forall|k: int| 0 <= k < re - mm implies s2.subrange(mm, re)[k] >= pv by {
                assert(s2.subrange(mm, re)[k] == s2[mm + k]);
            }
            lemma_multiset_ge_bound(s2.subrange(mm, re), s3.subrange(mm, re), pv);
            assert forall|k: int| mm <= k < re implies s3[k] >= pv by {
                assert(s3.subrange(mm, re)[k - mm] == s3[k]);
            }
            assert forall|k: int| rs <= k < mm implies s3[k] <= pv by {
                assert(s3[k] == s2[k]);
            }
            assert forall|x: int, y: int| rs <= x <= y < re implies s3[x] <= s3[y] by {
                if x < mm && y >= mm {
                    assert(s3[x] <= pv);
                    assert(s3[y] >= pv);
                }
            }
            assert(s3.subrange(rs, mm) =~= s2.subrange(rs, mm));
            lemma_tm_glue(s3, rs, mm, re);
        }
    } else {
        // The partition scan never advanced: the pivot cell already
        // sits at the front of the interval, below everything after it,
        // so only the cells after it remain to be sorted.
        let bb = match b.nonempty() {
            Ok(ne) => ne,
            Err(_) => {
                proof {
                    assert(false);
                }
                return ;
            },
        };
        quicksort_prange_rec(c, bb.tail());
        proof {
            let s3 = c@;
            assert(mm == rs);
            assert(s3[rs] == s2[rs]);
            assert(s2 == s1);
            assert forall|k: int| 0 <= k < re - (rs + 1) implies #[trigger] s2.subrange(
                rs + 1,
                re,
            )[k] >= pv by {
                assert(s2.subrange(rs + 1, re)[k] == s2[rs + 1 + k]);
            }
            lemma_multiset_ge_bound(s2.subrange(rs + 1, re), s3.subrange(rs + 1, re), pv);
            assert forall|k: int| rs + 1 <= k < re implies s3[k] >= pv by {
                assert(s3.subrange(rs + 1, re)[k - rs - 1] == s3[k]);
            }
            assert(s3[rs] == pv);
            assert forall|x: int, y: int| rs <= x <= y < re implies s3[x] <= s3[y] by {
                if x == rs && y > rs {
                    assert(s3[y] >= pv);
                }
            }
            lemma_tm_glue(s2, rs, rs + 1, re);
            lemma_tm_glue(s3, rs, rs + 1, re);
            assert(s3.subrange(rs, rs + 1) =~= s2.subrange(rs, rs + 1));
        }
    }
}

/// Sort by quicksort over pointer-range particles.  The result is
/// sorted and holds exactly the elements it started with.
pub fn quicksort_prange(v: &mut Vec<i32>)
    ensures
        final(v)@.to_multiset() == old(v)@.to_multiset(),
        final(v)@.len() == old(v)@.len(),
        sorted(final(v)@),
{
    let mut tmp: Vec<i32> = Vec::new();
    core::mem::swap(v, &mut tmp);
    let mut c = Container::new(tmp);
    let r = c.pointer_range();
    quicksort_prange_rec(&mut c, r);
    let mut out = c.into_inner();
    core::mem::swap(v, &mut out);
}

/// Insertion sort over a slice of the vector, with ordinary
/// bounds-checked indexing: the slice ends up sorted, holds exactly the
/// elements it held before, and the rest of the vector is untouched.
fn insertion_sort_bounds(v: &mut Vec<i32>, lo: usize, hi: usize)
    requires
        lo <= hi <= old(v)@.len(),
    ensures
        final(v)@.len() == old(v)@.len(),
        final(v)@.to_multiset() == old(v)@.to_multiset(),
        final(v)@.subrange(lo as int, hi as int).to_multiset() == old(v)@.subrange(
            lo as int,
            hi as int,
        ).to_multiset(),
        forall|k: int| 0 <= k < old(v)@.len() && !(lo <= k < hi) ==> final(v)@[k] == old(v)@[k],
        sorted_between(final(v)@, lo as int, hi as int),
{
    let ghost s0 = old(v)@;
    let ghost n0 = old(v)@.len();
    if lo == hi {
        return ;
    }
    let mut i: usize = lo + 1;
    while i < hi
        invariant
            lo < i,
            i <= hi,
            hi <= n0,
            v@.len() == n0,
            v@.to_multiset() == s0.to_multiset(),
            v@.subrange(lo as int, hi as int).to_multiset() == s0.subrange(
                lo as int,
                hi as int,
            ).to_multiset(),
            forall|k: int| 0 <= k < n0 && !(lo <= k < hi) ==> v@[k] == s0[k],
            sorted_between(v@, lo as int, i as int),
        decreases hi - i,
    {
        let mut j: usize = i;
        loop
            invariant
                lo <= j <= i < hi <= n0,
                v@.len() == n0,
                v@.to_multiset() == s0.to_multiset(),
                v@.subrange(lo as int, hi as int).to_multiset() == s0.subrange(
                    lo as int,
                    hi as int,
                ).to_multiset(),
                forall|k: int| 0 <= k < n0 && !(lo <= k < hi) ==> v@[k] == s0[k],
                sorted_between(v@, lo as int, j as int),
                sorted_between(v@, j as int, i + 1),
                j < i ==> forall|a: int| lo <= a < j ==> #[trigger] v@[a] <= v@[j + 1],
            ensures
                v@.len() == n0,
                v@.to_multiset() == s0.to_multiset(),
                v@.subrange(lo as int, hi as int).to_multiset() == s0.subrange(
                    lo as int,
                    hi as int,
                ).to_multiset(),
                forall|k: int| 0 <= k < n0 && !(lo <= k < hi) ==> v@[k] == s0[k],
                sorted_between(v@, lo as int, i + 1),
            decreases j,
        {
            if j == lo {
                assert forall|a: int, b: int| lo <= a <= b < i + 1 implies v@[a] <= v@[b] by {}
                break ;
            }
            if !(v[j] < v[j - 1]) {
                assert forall|a: int, b: int| lo <= a <= b < i + 1 implies v@[a] <= v@[b] by {
                    if a < j && b >= j {
                        assert(v@[a] <= v@[j - 1]);
                        assert(v@[j - 1] <= v@[j as int]);
                        assert(v@[j as int] <= v@[b]);
                    }
                }
                break ;
            }
            let ghost s_pre = v@;
            proof {
                crate::container::lemma_swap_seq_to_multiset(v@, j - 1, j as int);
                lemma_swap_in_region(v@, j - 1, j as int, lo as int, hi as int);
            }
            let x = v[j - 1];
            let y = v[j];
            v[j - 1] = y;
            v[j] = x;
            proof {
                let s_post = v@;
                assert(s_post =~= crate::container::swap_seq(s_pre, j - 1, j as int));
                assert(s_post[j - 1] == s_pre[j as int]);
                assert(s_post[j as int] == s_pre[j - 1]);
                assert forall|mq: int| 0 <= mq < n0 && mq != j - 1 && mq != j implies s_post[mq]
                    == s_pre[mq] by {}
                assert(sorted_between(s_post, lo as int, j - 1));
                assert forall|a: int, b: int| j - 1 <= a <= b < i + 1 implies s_post[a]
                    <= s_post[b] by {
                    if a == j - 1 {
                        if b == j - 1 {
                        } else if b == j as int {
                            assert(s_post[a] == s_pre[j as int]);
                        } else {
                            assert(s_post[b] == s_pre[b]);
                            assert(s_pre[j as int] < s_pre[j - 1]);
                            assert(s_pre[j - 1] <= s_pre[b]);
                        }
                    } else if a == j as int {
                        if b > j as int {
                            assert(s_pre[j - 1] <= s_pre[b]) by {
                                if j < i {
                                    assert(s_pre[j - 1] <= s_pre[j + 1]);
                                    assert(s_pre[j + 1] <= s_pre[b]);
                                }
                            }
                        }
                    } else {
                        assert(s_pre[a] <= s_pre[b]);
                    }
                }
                if j - 1 < i {
                    assert forall|a: int| lo <= a < j - 1 implies #[trigger] s_post[a]
                        <= s_post[j as int] by {
                        assert(s_pre[a] <= s_pre[j - 1]);
                    }
                }
            }
            j = j - 1;
        }
        i = i + 1;
    }
}

/// One quicksort step with ordinary bounds-checked indexing.  The slice
/// `[lo, hi)` ends up sorted, holds exactly the elements it held before,
/// and the rest of the vector is untouched.
fn quicksort_bounds_rec(v: &mut Vec<i32>, lo: usize, hi: usize)
    requires
        lo <= hi <= old(v)@.len(),
    ensures
        final(v)@.len() == old(v)@.len(),
        final(v)@.to_multiset() == old(v)@.to_multiset(),
        final(v)@.subrange(lo as int, hi as int).to_multiset() == old(v)@.subrange(
            lo as int,
            hi as int,
        ).to_multiset(),
        forall|k: int| 0 <= k < old(v)@.len() && !(lo <= k < hi) ==> final(v)@[k] == old(v)@[k],
        sorted_between(final(v)@, lo as int, hi as int),
    decreases hi - lo,
{
    let ghost n0 = old(v)@.len();
    if hi - lo <= 24 {
        insertion_sort_bounds(v, lo, hi);
        return ;
    }
    let len = hi - lo;
    let (l, m, rt) = (lo, lo + len / 2, hi - 1);
    let pivot0 = if v[l] <= v[m] && v[m] <= v[rt] {
        m
    } else if v[m] <= v[l] && v[l] <= v[rt] {
        l
    } else {
        rt
    };
    proof {
        crate::container::lemma_swap_seq_to_multiset(v@, lo as int, pivot0 as int);
        lemma_swap_in_region(v@, lo as int, pivot0 as int, lo as int, hi as int);
    }
    let x0 = v[lo];
    let y0 = v[pivot0];
    v[lo] = y0;
    v[pivot0] = x0;
    proof {
        assert(v@ =~= crate::container::swap_seq(old(v)@, lo as int, pivot0 as int));
    }
    let ghost s0 = v@;
    let pivot = lo;
    let mut i: usize = lo;
    let mut j: usize = hi - 1;
    'partition: loop
        invariant
            v@.len() == n0,
            v@.to_multiset() == s0.to_multiset(),
            v@.subrange(lo as int, hi as int).to_multiset() == s0.subrange(
                lo as int,
                hi as int,
            ).to_multiset(),
            forall|k: int| 0 <= k < n0 && !(lo <= k < hi) ==> v@[k] == s0[k],
            lo <= i <= j < hi <= n0,
            pivot == lo,
            forall|k: int| lo <= k < i ==> v@[k] <= v@[lo as int],
            forall|k: int| j < k < hi ==> v@[k] >= v@[lo as int],
            i > lo ==> v@[j as int] >= v@[lo as int],
        ensures
            v@.len() == n0,
            v@.to_multiset() == s0.to_multiset(),
            v@.subrange(lo as int, hi as int).to_multiset() == s0.subrange(
                lo as int,
                hi as int,
            ).to_multiset(),
            forall|k: int| 0 <= k < n0 && !(lo <= k < hi) ==> v@[k] == s0[k],
            lo <= i < hi,
            forall|k: int| lo <= k < i ==> v@[k] <= v@[lo as int],
            forall|k: int| i <= k < hi ==> v@[k] >= v@[lo as int],
        decreases j - i,
    {
        let outer_ok = v[i] >= v[pivot];
        if outer_ok {
            let ghost j_at = j;
            loop
                invariant_except_break
                    v@[i as int] >= v@[lo as int],
                invariant
                    j <= j_at,
                    v@.len() == n0,
                    v@.to_multiset() == s0.to_multiset(),
                    v@.subrange(lo as int, hi as int).to_multiset() == s0.subrange(
                        lo as int,
                        hi as int,
                    ).to_multiset(),
                    forall|k: int| 0 <= k < n0 && !(lo <= k < hi) ==> v@[k] == s0[k],
                    lo <= i <= j < hi <= n0,
                    pivot == lo,
                    forall|k: int| lo <= k < i ==> v@[k] <= v@[lo as int],
                    forall|k: int| j < k < hi ==> v@[k] >= v@[lo as int],
                ensures
                    j <= j_at,
                    v@.len() == n0,
                    v@.to_multiset() == s0.to_multiset(),
                    v@.subrange(lo as int, hi as int).to_multiset() == s0.subrange(
                        lo as int,
                        hi as int,
                    ).to_multiset(),
                    forall|k: int| 0 <= k < n0 && !(lo <= k < hi) ==> v@[k] == s0[k],
                    lo <= i <= j < hi <= n0,
                    v@[i as int] <= v@[lo as int],
                    v@[j as int] >= v@[lo as int],
                    forall|k: int| lo <= k < i ==> v@[k] <= v@[lo as int],
                    forall|k: int| j < k < hi ==> v@[k] >= v@[lo as int],
                decreases j,
            {
                if v[j] <= v[pivot] {
                    let ghost s_pre = v@;
                    proof {
                        crate::container::lemma_swap_seq_to_multiset(v@, i as int, j as int);
                        lemma_swap_in_region(v@, i as int, j as int, lo as int, hi as int);
                    }
                    let x = v[i];
                    let y = v[j];
                    v[i] = y;
                    v[j] = x;
                    proof {
                        let s_post = v@;
                        assert(s_post =~= crate::container::swap_seq(s_pre, i as int, j as int));
                        assert(s_post[i as int] == s_pre[j as int]);
                        assert(s_post[j as int] == s_pre[i as int]);
                        assert forall|mq: int| 0 <= mq < n0 && mq != i && mq != j implies s_post[mq]
                            == s_pre[mq] by {}
                        if i == lo {
                            assert(s_post[lo as int] == s_pre[j as int]);
                            assert(s_post[lo as int] <= s_pre[lo as int]);
                        } else {
                            assert(s_post[lo as int] == s_pre[lo as int]);
                        }
                        assert(s_post[i as int] <= s_post[lo as int]);
                        assert(s_post[j as int] >= s_post[lo as int]);
                        assert forall|k: int| lo <= k < i implies s_post[k] <= s_post[
                            lo as int
                        ] by {
                            assert(s_pre[k] <= s_pre[lo as int]);
                        }
                        assert forall|k: int| j < k < hi implies s_post[k] >= s_post[
                            lo as int
                        ] by {
                            assert(s_pre[k] >= s_pre[lo as int]);
                        }
                    }
                    break ;
                }
                if j <= i + 1 {
                    proof {
                        assert(v@[j as int] > v@[lo as int]);
                        assert forall|k: int| i <= k < hi implies v@[k] >= v@[lo as int] by {
                            if k == i {
                            } else if k == j {
                            } else {
                                assert(v@[k] >= v@[lo as int]);
                            }
                        }
                    }
                    break 'partition ;
                }
                j = j - 1;
            }
        } else {
            proof {
                assert(i > lo);
            }
        }
        if i >= j {
            proof {
                assert(i == j);
                assert(v@[i as int] <= v@[lo as int]);
                if i > lo {
                    assert(v@[j as int] >= v@[lo as int]);
                }
                assert forall|k: int| i <= k < hi implies v@[k] >= v@[lo as int] by {
                    if k == i {
                    } else {
                        assert(v@[k] >= v@[lo as int]);
                    }
                }
            }
            break ;
        }
        i = i + 1;
    }
    let ghost s1 = v@;
    let ghost pv = s1[lo as int];
    let ghost mm = i as int;
    quicksort_bounds_rec(v, lo, i);
    let ghost s2 = v@;
    proof {
        assert(s2.subrange(lo as int, mm).to_multiset() == s1.subrange(lo as int, mm).to_multiset());
        assert forall|k: int| 0 <= k < mm - lo implies s1.subrange(lo as int, mm)[k] <= pv by {
            assert(s1.subrange(lo as int, mm)[k] == s1[lo + k]);
        }
        lemma_multiset_le_bound(s1.subrange(lo as int, mm), s2.subrange(lo as int, mm), pv);
        assert forall|k: int| lo <= k < mm implies s2[k] <= pv by {
            assert(s2.subrange(lo as int, mm)[k - lo] == s2[k]);
        }
        assert forall|k: int| mm <= k < hi implies s2[k] >= pv by {
            assert(s2[k] == s1[k]);
        }
        assert(s2.subrange(mm, hi as int) =~= s1.subrange(mm, hi as int));
        lemma_tm_glue(s1, lo as int, mm, hi as int);
        lemma_tm_glue(s2, lo as int, mm, hi as int);
    }
    if hi - i < hi - lo {
        quicksort_bounds_rec(v, i, hi);
        proof {
            let s3 = v@;
            assert forall|k: int| 0 <= k < hi - mm implies #[trigger] s2.subrange(
                mm,
                hi as int,
            )[k] >= pv by {
                assert(s2.subrange(mm, hi as int)[k] == s2[mm + k]);
            }
            lemma_multiset_ge_bound(s2.subrange(mm, hi as int), s3.subrange(mm, hi as int), pv);
            assert forall|k: int| mm <= k < hi implies s3[k] >= pv by {
                assert(s3.subrange(mm, hi as int)[k - mm] == s3[k]);
            }
            assert forall|k: int| lo <= k < mm implies s3[k] <= pv by {
                assert(s3[k] == s2[k]);
            }
            assert forall|x: int, y: int| lo <= x <= y < hi implies s3[x] <= s3[y] by {
                if x < mm && y >= mm {
                    assert(s3[x] <= pv);
                    assert(s3[y] >= pv);
                }
            }
            assert(s3.subrange(lo as int, mm) =~= s2.subrange(lo as int, mm));
            lemma_tm_glue(s3, lo as int, mm, hi as int);
        }
    } else {
        // The partition scan never advanced: the pivot cell already
        // sits at the front of the slice, below everything after it, so
        // only the cells after it remain to be sorted.
        quicksort_bounds_rec(v, i + 1, hi);
        proof {
            let s3 = v@;
            assert(mm == lo);
            assert(s3[lo as int] == s2[lo as int]);
            assert(s2 == s1);
            assert forall|k: int| 0 <= k < hi - (lo + 1) implies #[trigger] s2.subrange(
                lo + 1,
                hi as int,
            )[k] >= pv by {
                assert(s2.subrange(lo + 1, hi as int)[k] == s2[lo + 1 + k]);
            }
            lemma_multiset_ge_bound(
                s2.subrange(lo + 1, hi as int),
                s3.subrange(lo + 1, hi as int),
                pv,
            );
            assert forall|k: int| lo + 1 <= k < hi implies s3[k] >= pv by {
                assert(s3.subrange(lo + 1, hi as int)[k - lo - 1] == s3[k]);
            }
            assert(s3[lo as int] == pv);
            assert forall|x: int, y: int| lo <= x <= y < hi implies s3[x] <= s3[y] by {
                if x == lo && y > lo {
                    assert(s3[y] >= pv);
                }
            }
            lemma_tm_glue(s2, lo as int, lo + 1, hi as int);
            lemma_tm_glue(s3, lo as int, lo + 1, hi as int);
            assert(s3.subrange(lo as int, lo + 1) =~= s2.subrange(lo as int, lo + 1));
        }
    }
}

/// Sort by quicksort with ordinary bounds-checked indexing, for
/// comparison with the particle-based variants.  The result is sorted
/// and holds exactly the elements it started with.
pub fn quicksort_bounds(v: &mut Vec<i32>)
    ensures
        final(v)@.to_multiset() == old(v)@.to_multiset(),
        final(v)@.len() == old(v)@.len(),
        sorted(final(v)@),
{
    let n = v.len();
    quicksort_bounds_rec(v, 0, n);
}

/// The comparator was seen to put `a` at or before `b`: either it
/// answered `true` on `(a, b)` or `false` on `(b, a)`.
pub open spec fn neighbors_ordered<T, F: Fn(&T, &T) -> bool>(f: F, a: T, b: T) -> bool {
    call_ensures(f, (&a, &b), true) || call_ensures(f, (&b, &a), false)
}

/// Every adjacent pair of `s` was seen in order by the comparator.
pub open spec fn pairwise_ordered<T, F: Fn(&T, &T) -> bool>(f: F, s: Seq<T>) -> bool {
    forall|k: int| 0 <= k && k + 1 < s.len() ==> #[trigger] neighbors_ordered(f, s[k], s[k + 1])
}

/// The adjacent pair at `k` is in nondecreasing order.
pub open spec fn adjacent_le(s: Seq<i32>, k: int) -> bool {
    s[k] <= s[k + 1]
}

/// Nondecreasing adjacent pairs chain into `s[i] <= s[j]`.
proof fn lemma_le_chain(s: Seq<i32>, i: int, j: int)
    requires
        0 <= i <= j < s.len(),
        forall|k: int| 0 <= k && k + 1 < s.len() ==> #[trigger] adjacent_le(s, k),
    ensures
        s[i] <= s[j],
    decreases j - i,
{
    if i < j {
        lemma_le_chain(s, i, j - 1);
        assert(adjacent_le(s, j - 1));
    }
}

/// Law: under a comparator that decides exactly `<`, a sequence whose
/// adjacent pairs were all seen in comparator order is sorted.  This
/// turns the relational postcondition of the insertion sorts into plain
/// sortedness whenever the comparator is the strict order on `i32`.
pub proof fn lemma_pairwise_ordered_sorted<F: Fn(&i32, &i32) -> bool>(f: F, s: Seq<i32>)
    requires
        forall|a: &i32, b: &i32, o: bool| #[trigger] call_ensures(f, (a, b), o) ==> o == (*a < *b),
        pairwise_ordered(f, s),
    ensures
        sorted(s),
{
    assert forall|k: int| 0 <= k && k + 1 < s.len() implies #[trigger] adjacent_le(s, k) by {
        assert(neighbors_ordered(f, s[k], s[k + 1]));
    }
    assert forall|i: int, j: int| 0 <= i <= j < s.len() implies s[i] <= s[j] by {
        lemma_le_chain(s, i, j);
    }
}

/// Inserting the element at `i` in front of position `start` by a
/// one-step upward rotation keeps every adjacent pair of the prefix
/// `[0, i]` in comparator order, provided the pairs below `i` were in
/// order and the displaced element was compared against its two new
/// neighbours.
proof fn lemma_insert_rotation_pairs<T, F: Fn(&T, &T) -> bool>(f: F, s: Seq<T>, start: int, i: int)
    requires
        0 <= start <= i < s.len(),
        forall|k: int| 0 <= k && k + 1 < i ==> #[trigger] neighbors_ordered(f, s[k], s[k + 1]),
        start > 0 ==> neighbors_ordered(f, s[start - 1], s[i]),
        start < i ==> neighbors_ordered(f, s[i], s[start]),
    ensures
        forall|k: int|
            0 <= k && k + 1 <= i ==> #[trigger] neighbors_ordered(
                f,
                crate::container::rotate1_up_seq(s, start, i + 1)[k],
                crate::container::rotate1_up_seq(s, start, i + 1)[k + 1],
            ),
{
    let r = crate::container::rotate1_up_seq(s, start, i + 1);
    assert(forall|m: int| 0 <= m < start ==> r[m] == s[m]);
    assert(r[start] == s[i]);
    assert(forall|m: int| start < m <= i ==> r[m] == s[m - 1]);
    assert forall|k: int| 0 <= k && k + 1 <= i implies #[trigger] neighbors_ordered(
        f,
        r[k],
        r[k + 1],
    ) by {
        if k + 1 < start {
            assert(neighbors_ordered(f, s[k], s[k + 1]));
        } else if k + 1 == start {
            assert(neighbors_ordered(f, s[start - 1], s[i]));
        } else if k == start {
            assert(neighbors_ordered(f, s[i], s[start]));
        } else {
            let kk = k - 1;
            assert(0 <= kk && kk + 1 < i);
            assert(neighbors_ordered(f, s[kk], s[kk + 1]));
            assert(r[k] == s[kk] && r[k + 1] == s[kk + 1]);
        }
    }
}

/// Sort by insertion through index particles: each element is slid into
/// place by scanning backward for its insertion point and rotating the
/// displaced run one step up.  The result holds exactly the elements it
/// started with, and the comparator was seen to put every adjacent pair
/// of the result in order.
pub fn insertion_sort_indexes<T, F: Fn(&T, &T) -> bool + Copy>(v: &mut Vec<T>, less_than: F)
    requires
        forall|a: &T, b: &T| call_requires(less_than, (a, b)),
    ensures
        final(v)@.to_multiset() == old(v)@.to_multiset(),
        final(v)@.len() == old(v)@.len(),
        pairwise_ordered(less_than, final(v)@),
{
    let ghost m0 = old(v)@.to_multiset();
    let ghost n0 = old(v)@.len();
    let mut tmp: Vec<T> = Vec::new();
    core::mem::swap(v, &mut tmp);
    let mut c = Container::new(tmp);
    let rng = c.range();
    let mut it = rng.iter();
    loop
        invariant
            it.wf(),
            it.brand() == c.brand(),
            it.end_spec() == n0,
            c@.to_multiset() == m0,
            c@.len() == n0,
            forall|a: &T, b: &T| call_requires(less_than, (a, b)),
            forall|k: int|
                0 <= k && k + 1 < it.start_spec() ==> #[trigger] neighbors_ordered(
                    less_than,
                    c@[k],
                    c@[k + 1],
                ),
        ensures
            c@.to_multiset() == m0,
            c@.len() == n0,
            pairwise_ordered(less_than, c@),
        decreases it.end_spec() - it.start_spec(),
    {
        let i = match it.next() {
            Some(i) => i,
            None => { break ; },
        };
        let ghost s_pre = c@;
        let ghost i_idx = i.index_spec() as int;
        let jtail = {
            let pivot_ref = c.at(i);
            let pred = |x: &T| -> (b: bool)
                requires
                    call_requires(less_than, (pivot_ref, x)),
                ensures
                    call_ensures(less_than, (pivot_ref, x), b),
                {
                    less_than(pivot_ref, x)
                };
            c.scan_from_rev(i, pred)
        };
        let ghost jt_start = jtail.start_spec() as int;
        proof {
            crate::container::lemma_rotate1_to_multiset(c@, jt_start, i_idx + 1);
            if jt_start > 0 {
                assert(neighbors_ordered(less_than, s_pre[jt_start - 1], s_pre[i_idx]));
            }
            if jt_start < i_idx {
                assert(neighbors_ordered(less_than, s_pre[i_idx], s_pre[jt_start]));
            }
            lemma_insert_rotation_pairs(less_than, s_pre, jt_start, i_idx);
        }
        c.rotate1_up(jtail);
        proof {
            assert(c@ == crate::container::rotate1_up_seq(s_pre, jt_start, i_idx + 1));
            assert forall|k: int| 0 <= k && k + 1 < it.start_spec() implies
                #[trigger] neighbors_ordered(less_than, c@[k], c@[k + 1]) by {
                assert(k + 1 <= i_idx);
            }
        }
    }
    let mut out = c.into_inner();
    core::mem::swap(v, &mut out);
}

/// Sort by insertion through range particles: the cursor is a shrinking
/// nonempty range rather than an index.  The result holds exactly the
/// elements it started with, and the comparator was seen to put every
/// adjacent pair of the result in order.
pub fn insertion_sort_ranges<T, F: Fn(&T, &T) -> bool + Copy>(v: &mut Vec<T>, less_than: F)
    requires
        forall|a: &T, b: &T| call_requires(less_than, (a, b)),
    ensures
        final(v)@.to_multiset() == old(v)@.to_multiset(),
        final(v)@.len() == old(v)@.len(),
        pairwise_ordered(less_than, final(v)@),
{
    let ghost m0 = old(v)@.to_multiset();
    let ghost n0 = old(v)@.len();
    let mut tmp: Vec<T> = Vec::new();
    core::mem::swap(v, &mut tmp);
    let mut c = Container::new(tmp);
    let rng = c.range();
    match rng.nonempty() {
        Ok(whole) => {
            let mut i = whole;
            loop
                invariant
                    i.wf(),
                    i.brand() == c.brand(),
                    i.end_spec() == n0,
                    c@.to_multiset() == m0,
                    c@.len() == n0,
                    forall|a: &T, b: &T| call_requires(less_than, (a, b)),
                    forall|k: int|
                        0 <= k && k + 1 <= i.start_spec() ==> #[trigger] neighbors_ordered(
                            less_than,
                            c@[k],
                            c@[k + 1],
                        ),
                ensures
                    c@.to_multiset() == m0,
                    c@.len() == n0,
                    pairwise_ordered(less_than, c@),
                decreases i.len_spec(),
            {
                if !i.advance() {
                    break ;
                }
                let ghost s_pre = c@;
                let ghost i_idx = i.start_spec() as int;
                let jtail = {
                    let head = i.first();
                    let pivot_ref = c.at(head);
                    let pred = |x: &T| -> (b: bool)
                        requires
                            call_requires(less_than, (pivot_ref, x)),
                        ensures
                            call_ensures(less_than, (pivot_ref, x), b),
                        {
                            less_than(pivot_ref, x)
                        };
                    c.scan_from_rev(head, pred)
                };
                let ghost jt_start = jtail.start_spec() as int;
                proof {
                    crate::container::lemma_rotate1_to_multiset(c@, jt_start, i_idx + 1);
                    if jt_start > 0 {
                        assert(neighbors_ordered(less_than, s_pre[jt_start - 1], s_pre[i_idx]));
                    }
                    if jt_start < i_idx {
                        assert(neighbors_ordered(less_than, s_pre[i_idx], s_pre[jt_start]));
                    }
                    lemma_insert_rotation_pairs(less_than, s_pre, jt_start, i_idx);
                }
                c.rotate1_up(jtail);
                proof {
                    assert(c@ == crate::container::rotate1_up_seq(s_pre, jt_start, i_idx + 1));
                    assert forall|k: int| 0 <= k && k + 1 <= i.start_spec() implies
                        #[trigger] neighbors_ordered(less_than, c@[k], c@[k + 1]) by {
                        assert(k + 1 <= i_idx);
                    }
                }
            }
        },
        Err(_) => {},
    }
    let mut out = c.into_inner();
    core::mem::swap(v, &mut out);
}

/// Sort by insertion through pointer particles, scanning backward with
/// `scan_tail_`.  The result holds exactly the elements it started
/// with, and the comparator was seen to put every adjacent pair of the
/// result in order.
pub fn insertion_sort_pointerindex<T, F: Fn(&T, &T) -> bool + Copy>(v: &mut Vec<T>, less_than: F)
    requires
        forall|a: &T, b: &T| call_requires(less_than, (a, b)),
    ensures
        final(v)@.to_multiset() == old(v)@.to_multiset(),
        final(v)@.len() == old(v)@.len(),
        pairwise_ordered(less_than, final(v)@),
{
    let ghost m0 = old(v)@.to_multiset();
    let ghost n0 = old(v)@.len();
    let mut tmp: Vec<T> = Vec::new();
    core::mem::swap(v, &mut tmp);
    let mut c = Container::new(tmp);
    let rng = c.pointer_range();
    let mut it = rng.iter();
    loop
        invariant
            it.wf(),
            it.brand() == c.brand(),
            it.end_spec() == n0,
            c@.to_multiset() == m0,
            c@.len() == n0,
            forall|a: &T, b: &T| call_requires(less_than, (a, b)),
            forall|k: int|
                0 <= k && k + 1 < it.start_spec() ==> #[trigger] neighbors_ordered(
                    less_than,
                    c@[k],
                    c@[k + 1],
                ),
        ensures
            c@.to_multiset() == m0,
            c@.len() == n0,
            pairwise_ordered(less_than, c@),
        decreases it.end_spec() - it.start_spec(),
    {
        let i = match it.next() {
            Some(i) => i,
            None => { break ; },
        };
        let ghost s_pre = c@;
        let ghost i_idx = i.offset_spec() as int;
        let jtail = {
            let pivot_ref = c.at_ptr(i);
            let pred = |x: &T| -> (b: bool)
                requires
                    call_requires(less_than, (pivot_ref, x)),
                ensures
                    call_ensures(less_than, (pivot_ref, x), b),
                {
                    less_than(pivot_ref, x)
                };
            c.scan_tail_(i, pred)
        };
        let ghost jt_start = jtail.start_spec() as int;
        proof {
            crate::container::lemma_rotate1_to_multiset(c@, jt_start, i_idx + 1);
            if jt_start > 0 {
                assert(neighbors_ordered(less_than, s_pre[jt_start - 1], s_pre[i_idx]));
            }
            if jt_start < i_idx {
                assert(neighbors_ordered(less_than, s_pre[i_idx], s_pre[jt_start]));
            }
            lemma_insert_rotation_pairs(less_than, s_pre, jt_start, i_idx);
        }
        c.rotate1_prange(jtail);
        proof {
            assert(c@ == crate::container::rotate1_up_seq(s_pre, jt_start, i_idx + 1));
            assert forall|k: int| 0 <= k && k + 1 < it.start_spec() implies
                #[trigger] neighbors_ordered(less_than, c@[k], c@[k + 1]) by {
                assert(k + 1 <= i_idx);
            }
        }
    }
    let mut out = c.into_inner();
    core::mem::swap(v, &mut out);
}

/// Sort by insertion through pointer particles, finding each insertion
/// point with a binary lower-bound search instead of a linear scan.
/// The result holds exactly the elements it started with, and the
/// comparator was seen to put every adjacent pair of the result in
/// order.
pub fn insertion_sort_prange_lower<T, F: Fn(&T, &T) -> bool + Copy>(v: &mut Vec<T>, less_than: F)
    requires
        forall|a: &T, b: &T| call_requires(less_than, (a, b)),
    ensures
        final(v)@.to_multiset() == old(v)@.to_multiset(),
        final(v)@.len() == old(v)@.len(),
        pairwise_ordered(less_than, final(v)@),
{
    let ghost m0 = old(v)@.to_multiset();
    let ghost n0 = old(v)@.len();
    let mut tmp: Vec<T> = Vec::new();
    core::mem::swap(v, &mut tmp);
    let mut c = Container::new(tmp);
    let rng = c.pointer_range();
    let mut it = rng.iter();
    loop
        invariant
            it.wf(),
            it.brand() == c.brand(),
            it.end_spec() == n0,
            c@.to_multiset() == m0,
            c@.len() == n0,
            forall|a: &T, b: &T| call_requires(less_than, (a, b)),
            forall|k: int|
                0 <= k && k + 1 < it.start_spec() ==> #[trigger] neighbors_ordered(
                    less_than,
                    c@[k],
                    c@[k + 1],
                ),
        ensures
            c@.to_multiset() == m0,
            c@.len() == n0,
            pairwise_ordered(less_than, c@),
        decreases it.end_spec() - it.start_spec(),
    {
        let i = match it.next() {
            Some(i) => i,
            None => { break ; },
        };
        let ghost s_pre = c@;
        let ghost i_idx = i.offset_spec() as int;
        let n = c.len();
        let lb = {
            let pivot_ref = c.at_ptr(i);
            let pred = |x: &T| -> (b: bool)
                requires
                    call_requires(less_than, (x, pivot_ref)),
                ensures
                    call_ensures(less_than, (x, pivot_ref), b),
                {
                    less_than(x, pivot_ref)
                };
            let up_to = c.pointer_range_to(i);
            lower_bound_prange_(up_to, &c, pred)
        };
        let ghost lb_at = lb.offset_spec() as int;
        match c.nonempty_range(lb, i.after()) {
            Ok(lb_range) => {
                proof {
                    crate::container::lemma_rotate1_to_multiset(c@, lb_at, i_idx + 1);
                    if lb_at > 0 {
                        assert(neighbors_ordered(less_than, s_pre[lb_at - 1], s_pre[i_idx]));
                    }
                    if lb_at < i_idx {
                        assert(neighbors_ordered(less_than, s_pre[i_idx], s_pre[lb_at]));
                    }
                    lemma_insert_rotation_pairs(less_than, s_pre, lb_at, i_idx);
                }
                c.rotate1_prange(lb_range);
                proof {
                    assert(c@ == crate::container::rotate1_up_seq(s_pre, lb_at, i_idx + 1));
                    assert forall|k: int| 0 <= k && k + 1 < it.start_spec() implies
                        #[trigger] neighbors_ordered(less_than, c@[k], c@[k + 1]) by {
                        assert(k + 1 <= i_idx);
                    }
                }
            },
            Err(_) => {
                // The insertion point never lies past the element being
                // placed, so the interval up to and including it is
                // nonempty.
                proof {
                    assert(false);
                }
            },
        }
    }
    let mut out = c.into_inner();
    core::mem::swap(v, &mut out);
}

/// Sort a vector of machine integers by insertion, with the full
/// functional specification: the result is sorted and holds exactly
/// the elements it started with.
pub fn insertion_sort_i32(v: &mut Vec<i32>)
    ensures
        final(v)@.to_multiset() == old(v)@.to_multiset(),
        final(v)@.len() == old(v)@.len(),
        sorted(final(v)@),
{
    let below = |a: &i32, b: &i32| -> (r: bool)
        ensures
            r == (*a < *b),
        {
            *a < *b
        };
    insertion_sort_indexes(v, below);
    proof {
        lemma_pairwise_ordered_sorted(below, v@);
    }
}

/// Error raised by the merge routines when a workspace is too short.
#[derive(Clone, Copy, Debug)]
pub struct AlgorithmError(pub &'static str);

/// Swap the shortest common prefix of two ranges between two
/// containers, element for element: the exchanged cells take each
/// other's old values and every other cell is untouched.
fn block_swap2(
    a: &mut Container<i32>,
    ar: Range<Unknown>,
    b: &mut Container<i32>,
    br: Range<Unknown>,
)
    requires
        old(a).valid_range(ar),
        old(b).valid_range(br),
    ensures
        final(a)@.len() == old(a)@.len(),
        final(b)@.len() == old(b)@.len(),
        final(a).brand() == old(a).brand(),
        final(b).brand() == old(b).brand(),
        ({
            let count = vstd::math::min(ar.len_spec(), br.len_spec());
            &&& forall|k: int|
                0 <= k < count ==> #[trigger] final(a)@[ar.start_spec() + k] == old(b)@[
                    br.start_spec() + k
                ]
            &&& forall|k: int|
                0 <= k < count ==> #[trigger] final(b)@[br.start_spec() + k] == old(a)@[
                    ar.start_spec() + k
                ]
            &&& forall|k: int|
                0 <= k < old(a)@.len() && !(ar.start_spec() <= k < ar.start_spec() + count)
                    ==> final(a)@[k] == old(a)@[k]
            &&& forall|k: int|
                0 <= k < old(b)@.len() && !(br.start_spec() <= k < br.start_spec() + count)
                    ==> final(b)@[k] == old(b)@[k]
        }),
{
    let la = ar.len();
    let lb = br.len();
    let count = if la <= lb {
        la
    } else {
        lb
    };
    let ghost a0 = old(a)@;
    let ghost b0 = old(b)@;
    let mut k: usize = 0;
    while k < count
        invariant
            k <= count,
            count == vstd::math::min(ar.len_spec(), br.len_spec()),
            ar.wf(),
            br.wf(),
            ar.end_spec() <= a@.len(),
            br.end_spec() <= b@.len(),
            ar.brand() == a.brand(),
            br.brand() == b.brand(),
            a@.len() == a0.len(),
            b@.len() == b0.len(),
            a.brand() == old(a).brand(),
            b.brand() == old(b).brand(),
            forall|m: int|
                0 <= m < k ==> #[trigger] a@[ar.start_spec() + m] == b0[br.start_spec() + m],
            forall|m: int|
                0 <= m < k ==> #[trigger] b@[br.start_spec() + m] == a0[ar.start_spec() + m],
            forall|m: int|
                0 <= m < a0.len() && !(ar.start_spec() <= m < ar.start_spec() + k) ==> a@[m]
                    == a0[m],
            forall|m: int|
                0 <= m < b0.len() && !(br.start_spec() <= m < br.start_spec() + k) ==> b@[m]
                    == b0[m],
        decreases count - k,
    {
        let ia: Index<NonEmpty> = Index::new(ar.start() + k, Ghost(a.brand()));
        let ib: Index<NonEmpty> = Index::new(br.start() + k, Ghost(b.brand()));
        let ea = a.at_mut(ia);
        let eb = b.at_mut(ib);
        core::mem::swap(ea, eb);
        k = k + 1;
    }
}

/// The merging loop shared by `merge_internal_indices`: walk the
/// swapped-out left run (in `bu`) and the right run (in `d`) with index
/// particles, swapping the smaller head into the output cursor.  Each
/// container keeps its own multiset of elements, and when the two runs
/// of `d` are sorted the merged data is sorted.
#[verifier::rlimit(100)]
fn merge_core_indices(d: &mut Container<i32>, bu: &mut Container<i32>, left_end: usize)
    requires
        left_end <= old(d)@.len(),
        left_end <= old(bu)@.len(),
    ensures
        final(d)@.len() == old(d)@.len(),
        final(bu)@.len() == old(bu)@.len(),
        final(d).brand() == old(d).brand(),
        final(bu).brand() == old(bu).brand(),
        final(d)@.to_multiset() == old(d)@.to_multiset(),
        final(bu)@.to_multiset() == old(bu)@.to_multiset(),
        (sorted_between(old(d)@, 0, left_end as int) && sorted_between(
            old(d)@,
            left_end as int,
            old(d)@.len() as int,
        )) ==> sorted(final(d)@),
{
    let ghost d0 = old(d)@;
    let ghost b0 = old(bu)@;
    let ghost dn = old(d)@.len() as int;
    let ghost bn = old(bu)@.len() as int;
    let ghost le = left_end as int;
    let ghost rsorted = sorted_between(d0, 0, le) && sorted_between(d0, le, dn);
    let r = d.range();
    let rb: Range<Unknown> = Range::make(0, left_end, Ghost(bu.brand()));
    let right_end = d.len();
    if right_end - left_end == 0 {
        return ;
    }
    block_swap2(d, r, bu, rb);
    proof {
        assert(vstd::math::min(r.len_spec(), rb.len_spec()) == le);
        assert forall|m: int| 0 <= m < le implies bu@[m] == d0[m] && d@[m] == b0[m] by {
            assert(bu@[rb.start_spec() + m] == d0[r.start_spec() + m]);
            assert(d@[r.start_spec() + m] == b0[rb.start_spec() + m]);
        }
        assert forall|m: int| le <= m < bn implies bu@[m] == b0[m] by {}
        assert forall|m: int| le <= m < dn implies d@[m] == d0[m] by {}
        assert(d@.subrange(0, le) =~= b0.subrange(0, le));
        vstd::seq_lib::lemma_multiset_commutative(bu@.subrange(0, 0), d@.subrange(0, le));
        assert(bu@.subrange(0, 0) + d@.subrange(0, le) =~= d@.subrange(0, le));
        vstd::seq_lib::lemma_multiset_commutative(d0.subrange(0, 0), d0.subrange(le, le));
        assert(d0.subrange(0, 0) + d0.subrange(le, le) =~= d@.subrange(0, 0));
    }
    let mut i = match rb.contains(0) {
        Some(x) => x,
        None => {
            proof {
                assert(le == 0);
                assert(d@ =~= d0);
                assert(bu@ =~= b0);
            }
            return ;
        },
    };
    let mut out = match r.contains(0) {
        Some(x) => x,
        None => {
            proof {
                assert(false);
            }
            return ;
        },
    };
    let mut j = match r.contains(left_end) {
        Some(x) => x,
        None => {
            proof {
                assert(false);
            }
            return ;
        },
    };
    loop
        invariant_except_break
            bu.valid_index(i),
            d.valid_index(out),
            d.valid_index(j),
            i.brand() == bu.brand(),
            out.brand() == d.brand(),
            j.brand() == d.brand(),
            0 <= i.index_spec() < le,
            le <= j.index_spec() < dn,
            out.index_spec() == i.index_spec() + j.index_spec() - le,
            forall|m: int| i.index_spec() <= m < le ==> #[trigger] bu@[m] == d0[m],
            forall|m: int| j.index_spec() <= m < dn ==> #[trigger] d@[m] == d0[m],
            bu@.subrange(0, i.index_spec() as int).to_multiset().add(
                d@.subrange(out.index_spec() as int, j.index_spec() as int).to_multiset(),
            ) == b0.subrange(0, le).to_multiset(),
            d@.subrange(0, out.index_spec() as int).to_multiset() == d0.subrange(
                0,
                i.index_spec() as int,
            ).to_multiset().add(d0.subrange(le, j.index_spec() as int).to_multiset()),
            rsorted ==> sorted_between(d@, 0, out.index_spec() as int),
            rsorted && out.index_spec() > 0 ==> d@[out.index_spec() - 1] <= d0[i.index_spec() as int],
            rsorted && out.index_spec() > 0 ==> d@[out.index_spec() - 1] <= d0[j.index_spec() as int],
        invariant
            d@.len() == dn,
            bu@.len() == bn,
            d.brand() == old(d).brand(),
            bu.brand() == old(bu).brand(),
            0 < le < dn,
            le <= bn,
            le == left_end as int,
            dn == d0.len(),
            bn == b0.len(),
            rsorted == (sorted_between(d0, 0, le) && sorted_between(d0, le, dn)),
            rb.wf(),
            rb.start_spec() == 0,
            rb.end_spec() == le,
            rb.brand() == bu.brand(),
            forall|m: int| le <= m < bn ==> #[trigger] bu@[m] == b0[m],
        ensures
            d@.len() == dn,
            bu@.len() == bn,
            d.brand() == old(d).brand(),
            bu.brand() == old(bu).brand(),
            d@.to_multiset() == d0.to_multiset(),
            bu@.to_multiset() == b0.to_multiset(),
            rsorted ==> sorted_between(d@, 0, dn),
        decreases (le - i.index_spec()) + (dn - j.index_spec()),
    {
        let ghost ci = i.index_spec() as int;
        let ghost co = out.index_spec() as int;
        let ghost cj = j.index_spec() as int;
        let ghost sd = d@;
        let ghost sb = bu@;
        proof {
            assert(co < cj);
            assert(sd.subrange(co, cj).remove(0) =~= sd.subrange(co + 1, cj));
            vstd::seq_lib::to_multiset_remove(sd.subrange(co, cj), 0);
            broadcast use vstd::seq_lib::group_to_multiset_ensures;
            broadcast use vstd::multiset::group_multiset_axioms;

            assert(sd.subrange(co, cj)[0] == sd[co]);
            assert(sd.subrange(co, cj).contains(sd[co]));
        }
        if *bu.at(i) <= *d.at(j) {
            let e1 = bu.at_mut(i);
            let e2 = d.at_mut(out);
            core::mem::swap(e1, e2);
            proof {
                broadcast use vstd::seq_lib::group_to_multiset_ensures;
                broadcast use vstd::multiset::group_multiset_axioms;

                assert(bu@ == sb.update(ci, sd[co]));
                assert(d@ == sd.update(co, sb[ci]));
                assert(sb[ci] == d0[ci]);
                // The consumed buffer cell joins the parked prefix.
                assert(bu@.subrange(0, ci + 1) =~= sb.subrange(0, ci).push(sd[co]));
                assert(d@.subrange(co + 1, cj) =~= sd.subrange(co + 1, cj));
                assert(bu@.subrange(0, ci + 1).to_multiset() =~= sb.subrange(
                    0,
                    ci,
                ).to_multiset().insert(sd[co]));
                assert(bu@.subrange(0, ci + 1).to_multiset().add(
                    d@.subrange(co + 1, cj).to_multiset(),
                ) =~= b0.subrange(0, le).to_multiset());
                // The output grows by the left run's head.
                assert(d@.subrange(0, co + 1) =~= sd.subrange(0, co).push(d0[ci]));
                assert(d0.subrange(0, ci + 1) =~= d0.subrange(0, ci).push(d0[ci]));
                assert(d@.subrange(0, co + 1).to_multiset() =~= d0.subrange(
                    0,
                    ci + 1,
                ).to_multiset().add(d0.subrange(le, cj).to_multiset()));
                if rsorted {
                    assert(d@[co] == d0[ci]);
                    assert forall|x: int, y: int| 0 <= x <= y < co + 1 implies d@[x] <= d@[y] by {
                        if y < co {
                            assert(sd[x] <= sd[y]);
                        } else if x < co {
                            assert(sd[x] <= sd[co - 1]);
                        }
                    }
                }
            }
            let _ = d.forward(&mut out);
            if !rb.forward_by(&mut i, 1) {
                proof {
                    broadcast use vstd::multiset::group_multiset_axioms;

                    assert(i.index_spec() == ci && ci + 1 == le);
                    assert(out.index_spec() == co + 1);
                    assert(co + 1 == cj);
                    // All of the left run is merged: the buffer holds
                    // exactly its own old values again.
                    vstd::seq_lib::lemma_multiset_commutative(
                        bu@.subrange(0, ci + 1),
                        d@.subrange(co + 1, cj),
                    );
                    assert(bu@.subrange(0, ci + 1) + d@.subrange(co + 1, cj) =~= bu@.subrange(
                        0,
                        ci + 1,
                    ));
                    assert(bu@.subrange(0, ci + 1) =~= bu@.subrange(0, le));
                    assert(bu@.subrange(0, le).to_multiset() == b0.subrange(0, le).to_multiset());
                    assert(bu@.subrange(le, bn) =~= b0.subrange(le, bn));
                    lemma_tm_glue(bu@, 0, le, bn);
                    lemma_tm_glue(b0, 0, le, bn);
                    assert(bu@.subrange(0, bn) =~= bu@);
                    assert(b0.subrange(0, bn) =~= b0);
                    assert(bu@.to_multiset() =~= b0.to_multiset());
                    // The data holds the merged output plus the intact
                    // right-run tail.
                    assert(d@.subrange(cj, dn) =~= d0.subrange(cj, dn));
                    lemma_tm_glue(d@, 0, cj, dn);
                    lemma_tm_glue(d0, 0, le, cj);
                    lemma_tm_glue(d0, 0, cj, dn);
                    assert(d@.subrange(0, dn) =~= d@);
                    assert(d0.subrange(0, dn) =~= d0);
                    assert(d@.to_multiset() =~= d0.to_multiset());
                    if rsorted {
                        assert forall|x: int, y: int| 0 <= x <= y < dn implies d@[x] <= d@[y] by {
                            if x <= y && y >= cj {
                                if x < cj {
                                    assert(d@[x] <= d@[cj - 1]);
                                    assert(d@[cj - 1] <= d0[cj]);
                                    assert(d0[cj] <= d0[y]);
                                }
                                assert(d0[cj] <= d0[y]);
                            }
                        }
                    }
                }
                break ;
            }
        } else {
            proof {
                crate::container::lemma_swap_seq_to_multiset(sd, cj, co);
            }
            d.swap(j, out);
            proof {
                broadcast use vstd::seq_lib::group_to_multiset_ensures;
                broadcast use vstd::multiset::group_multiset_axioms;

                assert(d@ == crate::container::swap_seq(sd, cj, co));
                assert(d@[co] == sd[cj]);
                assert(d@[cj] == sd[co]);
                assert(sd[cj] == d0[cj]);
                assert forall|m: int| 0 <= m < dn && m != co && m != cj implies d@[m] == sd[m] by {}
                // The parked segment shifts one cell to the right.
                assert(d@.subrange(co + 1, cj + 1) =~= sd.subrange(co + 1, cj).push(sd[co]));
                assert(d@.subrange(co + 1, cj + 1).to_multiset() =~= sd.subrange(
                    co,
                    cj,
                ).to_multiset());
                assert(bu@.subrange(0, ci) =~= sb.subrange(0, ci));
                assert(bu@.subrange(0, ci).to_multiset().add(
                    d@.subrange(co + 1, cj + 1).to_multiset(),
                ) =~= b0.subrange(0, le).to_multiset());
                // The output grows by the right run's head.
                assert(d@.subrange(0, co + 1) =~= sd.subrange(0, co).push(d0[cj]));
                assert(d0.subrange(le, cj + 1) =~= d0.subrange(le, cj).push(d0[cj]));
                assert(d@.subrange(0, co + 1).to_multiset() =~= d0.subrange(
                    0,
                    ci,
                ).to_multiset().add(d0.subrange(le, cj + 1).to_multiset()));
                if rsorted {
                    assert(d@[co] == d0[cj]);
                    assert forall|x: int, y: int| 0 <= x <= y < co + 1 implies d@[x] <= d@[y] by {
                        if y < co {
                            assert(sd[x] <= sd[y]);
                        } else if x < co {
                            assert(sd[x] <= sd[co - 1]);
                        }
                    }
                    assert(d0[ci] > d0[cj]);
                }
            }
            let _ = d.forward(&mut out);
            if !d.forward(&mut j) {
                proof {
                    assert(j.index_spec() == cj && cj + 1 == dn);
                    assert(out.index_spec() == co + 1);
                }
                let bi: Range<Unknown> = Range::make(i.integer(), left_end, Ghost(bu.brand()));
                let dtail: Range<Unknown> = Range::make(out.integer(), d.len(), Ghost(d.brand()));
                let ghost sd2 = d@;
                let ghost sb2 = bu@;
                block_swap2(bu, bi, d, dtail);
                proof {
                    broadcast use vstd::multiset::group_multiset_axioms;

                    assert(vstd::math::min(le - ci, dn - (co + 1)) == le - ci);
                    // The left-run tail moves back into the data; the
                    // parked buffer values return to the buffer.
                    assert forall|m: int| co + 1 <= m < dn implies #[trigger] d@[m] == d0[m - (co
                        + 1) + ci] by {
                        let k = m - (co + 1);
                        assert(d@[dtail.start_spec() + k] == sb2[bi.start_spec() + k]);
                        assert(sb2[ci + k] == d0[ci + k]);
                    }
                    assert forall|m: int| ci <= m < le implies #[trigger] bu@[m] == sd2[(co + 1) + (
                    m - ci)] by {
                        let k = m - ci;
                        assert(bu@[bi.start_spec() + k] == sd2[dtail.start_spec() + k]);
                    }
                    // Buffer multiset restored.
                    assert(bu@.subrange(ci, le) =~= sd2.subrange(co + 1, cj + 1));
                    assert(bu@.subrange(0, ci) =~= sb2.subrange(0, ci));
                    assert(bu@.subrange(le, bn) =~= b0.subrange(le, bn));
                    lemma_tm_glue(bu@, 0, ci, le);
                    lemma_tm_glue(bu@, 0, le, bn);
                    lemma_tm_glue(b0, 0, le, bn);
                    assert(bu@.subrange(0, le).to_multiset() =~= b0.subrange(0, le).to_multiset());
                    assert(bu@.subrange(0, bn) =~= bu@);
                    assert(b0.subrange(0, bn) =~= b0);
                    assert(bu@.to_multiset() =~= b0.to_multiset());
                    // Data multiset restored.
                    assert(d@.subrange(0, co + 1) =~= sd2.subrange(0, co + 1));
                    assert(d@.subrange(co + 1, dn) =~= d0.subrange(ci, le));
                    lemma_tm_glue(d@, 0, co + 1, dn);
                    lemma_tm_glue(d0, 0, ci, le);
                    lemma_tm_glue(d0, 0, le, cj + 1);
                    assert(d0.subrange(le, dn) =~= d0.subrange(le, cj + 1));
                    lemma_tm_glue(d0, 0, le, dn);
                    assert(d@.subrange(0, dn) =~= d@);
                    assert(d0.subrange(0, dn) =~= d0);
                    assert(d@.to_multiset() =~= d0.to_multiset());
                    if rsorted {
                        assert(sorted_between(sd2, 0, co + 1));
                        assert(sd2[co] == d0[cj]);
                        assert forall|x: int, y: int| 0 <= x <= y < dn implies d@[x] <= d@[y] by {
                            if y > co {
                                assert(d@[y] == d0[y - (co + 1) + ci]);
                                assert(d0[ci] <= d0[y - (co + 1) + ci]);
                                if x > co {
                                    assert(d@[x] == d0[x - (co + 1) + ci]);
                                    assert(d0[x - (co + 1) + ci] <= d0[y - (co + 1) + ci]);
                                } else {
                                    assert(d@[x] == sd2[x]);
                                    assert(sd2[x] <= sd2[co]);
                                    assert(d0[cj] < d0[ci]);
                                }
                            } else {
                                assert(d@[x] == sd2[x] && d@[y] == sd2[y]);
                            }
                        }
                    }
                }
                break ;
            }
        }
    }
}

/// Merge the two sorted runs of `data` (divided at `left_end`) in
/// place, using the front of `buffer` as swap space.  When the two runs
/// are sorted the result is sorted; `data` and `buffer` each keep their
/// own multiset of elements; the call is refused when either workspace
/// is shorter than the left run.
pub fn merge_internal_indices(data: &mut Vec<i32>, left_end: usize, buffer: &mut Vec<i32>) -> (res:
    Result<(), AlgorithmError>)
    ensures
        final(data)@.len() == old(data)@.len(),
        final(buffer)@.len() == old(buffer)@.len(),
        final(data)@.to_multiset() == old(data)@.to_multiset(),
        final(buffer)@.to_multiset() == old(buffer)@.to_multiset(),
        match res {
            Ok(_) => {
                &&& left_end <= old(data)@.len() && left_end <= old(buffer)@.len()
                &&& (sorted_between(old(data)@, 0, left_end as int) && sorted_between(
                    old(data)@,
                    left_end as int,
                    old(data)@.len() as int,
                )) ==> sorted(final(data)@)
            },
            Err(_) => {
                &&& (left_end > old(data)@.len() || left_end > old(buffer)@.len())
                &&& final(data)@ == old(data)@
                &&& final(buffer)@ == old(buffer)@
            },
        },
{
    if left_end > data.len() || left_end > buffer.len() {
        return Err(AlgorithmError("merge_internal: data or buffer too short"));
    }
    let mut dtmp: Vec<i32> = Vec::new();
    core::mem::swap(data, &mut dtmp);
    let mut btmp: Vec<i32> = Vec::new();
    core::mem::swap(buffer, &mut btmp);
    let mut d = Container::new(dtmp);
    let mut bu = Container::new(btmp);
    merge_core_indices(&mut d, &mut bu, left_end);
    let mut dout = d.into_inner();
    core::mem::swap(data, &mut dout);
    let mut bout = bu.into_inner();
    core::mem::swap(buffer, &mut bout);
    Ok(())
}

/// The merging loop shared by `merge_internal_ranges`: like the index
/// version, but the three cursors are shrinking nonempty ranges.  Each
/// container keeps its own multiset of elements, and when the two runs
/// of `d` are sorted the merged data is sorted.
#[verifier::rlimit(100)]
fn merge_core_ranges(d: &mut Container<i32>, bu: &mut Container<i32>, left_end: usize)
    requires
        left_end <= old(d)@.len(),
        left_end <= old(bu)@.len(),
    ensures
        final(d)@.len() == old(d)@.len(),
        final(bu)@.len() == old(bu)@.len(),
        final(d).brand() == old(d).brand(),
        final(bu).brand() == old(bu).brand(),
        final(d)@.to_multiset() == old(d)@.to_multiset(),
        final(bu)@.to_multiset() == old(bu)@.to_multiset(),
        (sorted_between(old(d)@, 0, left_end as int) && sorted_between(
            old(d)@,
            left_end as int,
            old(d)@.len() as int,
        )) ==> sorted(final(d)@),
{
    let ghost d0 = old(d)@;
    let ghost b0 = old(bu)@;
    let ghost dn = old(d)@.len() as int;
    let ghost bn = old(bu)@.len() as int;
    let ghost le = left_end as int;
    let ghost rsorted = sorted_between(d0, 0, le) && sorted_between(d0, le, dn);
    let r = d.range();
    let rb: Range<Unknown> = Range::make(0, left_end, Ghost(bu.brand()));
    let mut i = match rb.nonempty() {
        Ok(x) => x,
        Err(_) => {
            return ;
        },
    };
    let mut out = match r.nonempty() {
        Ok(x) => x,
        Err(_) => {
            return ;
        },
    };
    let (_, right, _) = r.split_at(left_end);
    let mut j = match right.nonempty() {
        Ok(x) => x,
        Err(_) => {
            proof {
                assert(le == dn);
            }
            return ;
        },
    };
    block_swap2(d, r, bu, rb);
    proof {
        assert(vstd::math::min(r.len_spec(), rb.len_spec()) == le);
        assert forall|m: int| 0 <= m < le implies bu@[m] == d0[m] && d@[m] == b0[m] by {
            assert(bu@[rb.start_spec() + m] == d0[r.start_spec() + m]);
            assert(d@[r.start_spec() + m] == b0[rb.start_spec() + m]);
        }
        assert forall|m: int| le <= m < bn implies bu@[m] == b0[m] by {}
        assert forall|m: int| le <= m < dn implies d@[m] == d0[m] by {}
        assert(d@.subrange(0, le) =~= b0.subrange(0, le));
        vstd::seq_lib::lemma_multiset_commutative(bu@.subrange(0, 0), d@.subrange(0, le));
        assert(bu@.subrange(0, 0) + d@.subrange(0, le) =~= d@.subrange(0, le));
        vstd::seq_lib::lemma_multiset_commutative(d0.subrange(0, 0), d0.subrange(le, le));
        assert(d0.subrange(0, 0) + d0.subrange(le, le) =~= d@.subrange(0, 0));
    }
    loop
        invariant_except_break
            i.wf(),
            out.wf(),
            j.wf(),
            i.brand() == bu.brand(),
            out.brand() == d.brand(),
            j.brand() == d.brand(),
            i.end_spec() == le,
            out.end_spec() == dn,
            j.end_spec() == dn,
            0 <= i.start_spec() < le,
            le <= j.start_spec() < dn,
            out.start_spec() == i.start_spec() + j.start_spec() - le,
            forall|m: int| i.start_spec() <= m < le ==> #[trigger] bu@[m] == d0[m],
            forall|m: int| j.start_spec() <= m < dn ==> #[trigger] d@[m] == d0[m],
            bu@.subrange(0, i.start_spec() as int).to_multiset().add(
                d@.subrange(out.start_spec() as int, j.start_spec() as int).to_multiset(),
            ) == b0.subrange(0, le).to_multiset(),
            d@.subrange(0, out.start_spec() as int).to_multiset() == d0.subrange(
                0,
                i.start_spec() as int,
            ).to_multiset().add(d0.subrange(le, j.start_spec() as int).to_multiset()),
            rsorted ==> sorted_between(d@, 0, out.start_spec() as int),
            rsorted && out.start_spec() > 0 ==> d@[out.start_spec() - 1] <= d0[i.start_spec() as int],
            rsorted && out.start_spec() > 0 ==> d@[out.start_spec() - 1] <= d0[j.start_spec() as int],
        invariant
            d@.len() == dn,
            bu@.len() == bn,
            d.brand() == old(d).brand(),
            bu.brand() == old(bu).brand(),
            0 < le < dn,
            le <= bn,
            le == left_end as int,
            dn == d0.len(),
            bn == b0.len(),
            rsorted == (sorted_between(d0, 0, le) && sorted_between(d0, le, dn)),
            d0 == old(d)@,
            b0 == old(bu)@,
            forall|m: int| le <= m < bn ==> #[trigger] bu@[m] == b0[m],
        ensures
            d@.len() == dn,
            bu@.len() == bn,
            d.brand() == old(d).brand(),
            bu.brand() == old(bu).brand(),
            d@.to_multiset() == d0.to_multiset(),
            bu@.to_multiset() == b0.to_multiset(),
            rsorted ==> sorted_between(d@, 0, dn),
        decreases (le - i.start_spec()) + (dn - j.start_spec()),
    {
        let ghost ci = i.start_spec() as int;
        let ghost co = out.start_spec() as int;
        let ghost cj = j.start_spec() as int;
        let ghost sd = d@;
        let ghost sb = bu@;
        proof {
            assert(co < cj);
            assert(sd.subrange(co, cj).remove(0) =~= sd.subrange(co + 1, cj));
            vstd::seq_lib::to_multiset_remove(sd.subrange(co, cj), 0);
            broadcast use vstd::seq_lib::group_to_multiset_ensures;
            broadcast use vstd::multiset::group_multiset_axioms;

            assert(sd.subrange(co, cj)[0] == sd[co]);
            assert(sd.subrange(co, cj).contains(sd[co]));
        }
        if *bu.at(i.first()) <= *d.at(j.first()) {
            let e1 = bu.at_mut(i.first());
            let e2 = d.at_mut(out.first());
            core::mem::swap(e1, e2);
            proof {
                broadcast use vstd::seq_lib::group_to_multiset_ensures;
                broadcast use vstd::multiset::group_multiset_axioms;

                assert(bu@ == sb.update(ci, sd[co]));
                assert(d@ == sd.update(co, sb[ci]));
                assert(sb[ci] == d0[ci]);
                // The consumed buffer cell joins the parked prefix.
                assert(bu@.subrange(0, ci + 1) =~= sb.subrange(0, ci).push(sd[co]));
                assert(d@.subrange(co + 1, cj) =~= sd.subrange(co + 1, cj));
                assert(bu@.subrange(0, ci + 1).to_multiset() =~= sb.subrange(
                    0,
                    ci,
                ).to_multiset().insert(sd[co]));
                assert(bu@.subrange(0, ci + 1).to_multiset().add(
                    d@.subrange(co + 1, cj).to_multiset(),
                ) =~= b0.subrange(0, le).to_multiset());
                // The output grows by the left run's head.
                assert(d@.subrange(0, co + 1) =~= sd.subrange(0, co).push(d0[ci]));
                assert(d0.subrange(0, ci + 1) =~= d0.subrange(0, ci).push(d0[ci]));
                assert(d@.subrange(0, co + 1).to_multiset() =~= d0.subrange(
                    0,
                    ci + 1,
                ).to_multiset().add(d0.subrange(le, cj).to_multiset()));
                if rsorted {
                    assert(d@[co] == d0[ci]);
                    assert forall|x: int, y: int| 0 <= x <= y < co + 1 implies d@[x] <= d@[y] by {
                        if y < co {
                            assert(sd[x] <= sd[y]);
                        } else if x < co {
                            assert(sd[x] <= sd[co - 1]);
                        }
                    }
                }
            }
            if !out.advance() {
                proof {
                    assert(false);
                }
                return ;
            }
            if !i.advance() {
                proof {
                    broadcast use vstd::multiset::group_multiset_axioms;

                    assert(i.start_spec() == ci && ci + 1 == le);
                    assert(out.start_spec() == co + 1);
                    assert(co + 1 == cj);
                    // All of the left run is merged: the buffer holds
                    // exactly its own old values again.
                    vstd::seq_lib::lemma_multiset_commutative(
                        bu@.subrange(0, ci + 1),
                        d@.subrange(co + 1, cj),
                    );
                    assert(bu@.subrange(0, ci + 1) + d@.subrange(co + 1, cj) =~= bu@.subrange(
                        0,
                        ci + 1,
                    ));
                    assert(bu@.subrange(0, ci + 1) =~= bu@.subrange(0, le));
                    assert(bu@.subrange(0, le).to_multiset() == b0.subrange(0, le).to_multiset());
                    assert(bu@.subrange(le, bn) =~= b0.subrange(le, bn));
                    lemma_tm_glue(bu@, 0, le, bn);
                    lemma_tm_glue(b0, 0, le, bn);
                    assert(bu@.subrange(0, bn) =~= bu@);
                    assert(b0.subrange(0, bn) =~= b0);
                    assert(bu@.to_multiset() =~= b0.to_multiset());
                    // The data holds the merged output plus the intact
                    // right-run tail.
                    assert(d@.subrange(cj, dn) =~= d0.subrange(cj, dn));
                    lemma_tm_glue(d@, 0, cj, dn);
                    lemma_tm_glue(d0, 0, le, cj);
                    lemma_tm_glue(d0, 0, cj, dn);
                    assert(d@.subrange(0, dn) =~= d@);
                    assert(d0.subrange(0, dn) =~= d0);
                    assert(d@.to_multiset() =~= d0.to_multiset());
                    if rsorted {
                        assert forall|x: int, y: int| 0 <= x <= y < dn implies d@[x] <= d@[y] by {
                            if x <= y && y >= cj {
                                if x < cj {
                                    assert(d@[x] <= d@[cj - 1]);
                                    assert(d@[cj - 1] <= d0[cj]);
                                    assert(d0[cj] <= d0[y]);
                                }
                                assert(d0[cj] <= d0[y]);
                            }
                        }
                    }
                }
                return ;
            }
        } else {
            proof {
                crate::container::lemma_swap_seq_to_multiset(sd, cj, co);
            }
            d.swap(j.first(), out.first());
            proof {
                broadcast use vstd::seq_lib::group_to_multiset_ensures;
                broadcast use vstd::multiset::group_multiset_axioms;

                assert(d@ == crate::container::swap_seq(sd, cj, co));
                assert(d@[co] == sd[cj]);
                assert(d@[cj] == sd[co]);
                assert(sd[cj] == d0[cj]);
                assert forall|m: int| 0 <= m < dn && m != co && m != cj implies d@[m] == sd[m] by {}
                // The parked segment shifts one cell to the right.
                assert(d@.subrange(co + 1, cj + 1) =~= sd.subrange(co + 1, cj).push(sd[co]));
                assert(d@.subrange(co + 1, cj + 1).to_multiset() =~= sd.subrange(
                    co,
                    cj,
                ).to_multiset());
                assert(bu@.subrange(0, ci) =~= sb.subrange(0, ci));
                assert(bu@.subrange(0, ci).to_multiset().add(
                    d@.subrange(co + 1, cj + 1).to_multiset(),
                ) =~= b0.subrange(0, le).to_multiset());
                // The output grows by the right run's head.
                assert(d@.subrange(0, co + 1) =~= sd.subrange(0, co).push(d0[cj]));
                assert(d0.subrange(le, cj + 1) =~= d0.subrange(le, cj).push(d0[cj]));
                assert(d@.subrange(0, co + 1).to_multiset() =~= d0.subrange(
                    0,
                    ci,
                ).to_multiset().add(d0.subrange(le, cj + 1).to_multiset()));
                if rsorted {
                    assert(d@[co] == d0[cj]);
                    assert forall|x: int, y: int| 0 <= x <= y < co + 1 implies d@[x] <= d@[y] by {
                        if y < co {
                            assert(sd[x] <= sd[y]);
                        } else if x < co {
                            assert(sd[x] <= sd[co - 1]);
                        }
                    }
                    assert(d0[ci] > d0[cj]);
                }
            }
            if !out.advance() {
                proof {
                    assert(false);
                }
                return ;
            }
            if !j.advance() {
                proof {
                    assert(j.start_spec() == cj && cj + 1 == dn);
                    assert(out.start_spec() == co + 1);
                }
                let bi: Range<Unknown> = Range::make(i.start(), left_end, Ghost(bu.brand()));
                let dtail: Range<Unknown> = Range::make(out.start(), d.len(), Ghost(d.brand()));
                let ghost sd2 = d@;
                let ghost sb2 = bu@;
                block_swap2(bu, bi, d, dtail);
                proof {
                    broadcast use vstd::multiset::group_multiset_axioms;

                    assert(vstd::math::min(le - ci, dn - (co + 1)) == le - ci);
                    // The left-run tail moves back into the data; the
                    // parked buffer values return to the buffer.
                    assert forall|m: int| co + 1 <= m < dn implies #[trigger] d@[m] == d0[m - (co
                        + 1) + ci] by {
                        let k = m - (co + 1);
                        assert(d@[dtail.start_spec() + k] == sb2[bi.start_spec() + k]);
                        assert(sb2[ci + k] == d0[ci + k]);
                    }
                    assert forall|m: int| ci <= m < le implies #[trigger] bu@[m] == sd2[(co + 1) + (
                    m - ci)] by {
                        let k = m - ci;
                        assert(bu@[bi.start_spec() + k] == sd2[dtail.start_spec() + k]);
                    }
                    // Buffer multiset restored.
                    assert(bu@.subrange(ci, le) =~= sd2.subrange(co + 1, cj + 1));
                    assert(bu@.subrange(0, ci) =~= sb2.subrange(0, ci));
                    assert(bu@.subrange(le, bn) =~= b0.subrange(le, bn));
                    lemma_tm_glue(bu@, 0, ci, le);
                    lemma_tm_glue(bu@, 0, le, bn);
                    lemma_tm_glue(b0, 0, le, bn);
                    assert(bu@.subrange(0, le).to_multiset() =~= b0.subrange(0, le).to_multiset());
                    assert(bu@.subrange(0, bn) =~= bu@);
                    assert(b0.subrange(0, bn) =~= b0);
                    assert(bu@.to_multiset() =~= b0.to_multiset());
                    // Data multiset restored.
                    assert(d@.subrange(0, co + 1) =~= sd2.subrange(0, co + 1));
                    assert(d@.subrange(co + 1, dn) =~= d0.subrange(ci, le));
                    lemma_tm_glue(d@, 0, co + 1, dn);
                    lemma_tm_glue(d0, 0, ci, le);
                    lemma_tm_glue(d0, 0, le, cj + 1);
                    assert(d0.subrange(le, dn) =~= d0.subrange(le, cj + 1));
                    lemma_tm_glue(d0, 0, le, dn);
                    assert(d@.subrange(0, dn) =~= d@);
                    assert(d0.subrange(0, dn) =~= d0);
                    assert(d@.to_multiset() =~= d0.to_multiset());
                    if rsorted {
                        assert(sorted_between(sd2, 0, co + 1));
                        assert(sd2[co] == d0[cj]);
                        assert forall|x: int, y: int| 0 <= x <= y < dn implies d@[x] <= d@[y] by {
                            if y > co {
                                assert(d@[y] == d0[y - (co + 1) + ci]);
                                assert(d0[ci] <= d0[y - (co + 1) + ci]);
                                if x > co {
                                    assert(d@[x] == d0[x - (co + 1) + ci]);
                                    assert(d0[x - (co + 1) + ci] <= d0[y - (co + 1) + ci]);
                                } else {
                                    assert(d@[x] == sd2[x]);
                                    assert(sd2[x] <= sd2[co]);
                                    assert(d0[cj] < d0[ci]);
                                }
                            } else {
                                assert(d@[x] == sd2[x] && d@[y] == sd2[y]);
                            }
                        }
                    }
                }
                break ;
            }
        }
    }
}

/// Merge the two sorted runs of `data` (divided at `left_end`) in
/// place, walking the runs with range particles.  When the two runs are
/// sorted the result is sorted; `data` and `buffer` each keep their own
/// multiset of elements; the call is refused when either workspace is
/// shorter than the left run.
pub fn merge_internal_ranges(data: &mut Vec<i32>, left_end: usize, buffer: &mut Vec<i32>) -> (res:
    Result<(), AlgorithmError>)
    ensures
        final(data)@.len() == old(data)@.len(),
        final(buffer)@.len() == old(buffer)@.len(),
        final(data)@.to_multiset() == old(data)@.to_multiset(),
        final(buffer)@.to_multiset() == old(buffer)@.to_multiset(),
        match res {
            Ok(_) => {
                &&& left_end <= old(data)@.len() && left_end <= old(buffer)@.len()
                &&& (sorted_between(old(data)@, 0, left_end as int) && sorted_between(
                    old(data)@,
                    left_end as int,
                    old(data)@.len() as int,
                )) ==> sorted(final(data)@)
            },
            Err(_) => {
                &&& (left_end > old(data)@.len() || left_end > old(buffer)@.len())
                &&& final(data)@ == old(data)@
                &&& final(buffer)@ == old(buffer)@
            },
        },
{
    if left_end > data.len() || left_end > buffer.len() {
        return Err(AlgorithmError("merge_internal: data or buffer too short"));
    }
    let mut dtmp: Vec<i32> = Vec::new();
    core::mem::swap(data, &mut dtmp);
    let mut btmp: Vec<i32> = Vec::new();
    core::mem::swap(buffer, &mut btmp);
    let mut d = Container::new(dtmp);
    let mut bu = Container::new(btmp);
    merge_core_ranges(&mut d, &mut bu, left_end);
    let mut dout = d.into_inner();
    core::mem::swap(data, &mut dout);
    let mut bout = bu.into_inner();
    core::mem::swap(buffer, &mut bout);
    Ok(())
}

/// The element at `k` is no greater than either of its children in the
/// implicit binary tree laid out over the sequence.
pub open spec fn heap_node_ok(s: Seq<i32>, k: int) -> bool {
    &&& 2 * k + 1 < s.len() ==> s[k] <= s[2 * k + 1]
    &&& 2 * k + 2 < s.len() ==> s[k] <= s[2 * k + 2]
}

/// The binary min-heap property: every element is no greater than its
/// children.
pub open spec fn is_min_heap(s: Seq<i32>) -> bool {
    forall|k: int| 0 <= k < s.len() ==> #[trigger] heap_node_ok(s, k)
}

/// Rearrange the vector into a binary min-heap: sift every element of
/// the front half down its subtree, smaller child first.  The result is
/// a min-heap holding exactly the elements it started with.
pub fn heapify(v: &mut Vec<i32>)
    ensures
        final(v)@.to_multiset() == old(v)@.to_multiset(),
        final(v)@.len() == old(v)@.len(),
        is_min_heap(final(v)@),
{
    let ghost m0 = old(v)@.to_multiset();
    let ghost n0 = old(v)@.len() as int;
    let mut tmp: Vec<i32> = Vec::new();
    core::mem::swap(v, &mut tmp);
    let mut c = Container::new(tmp);
    let _total = c.len();
    let (left, _right) = c.range().split_in_half();
    proof {
        assert forall|k: int| left.end_spec() <= k < n0 implies #[trigger] heap_node_ok(
            c@,
            k,
        ) by {
            vstd::arithmetic::div_mod::lemma_fundamental_div_mod(n0, 2);
        }
    }
    let mut it = left.iter();
    loop
        invariant
            it.wf(),
            it.brand() == c.brand(),
            it.start_spec() == 0,
            it.end_spec() <= c@.len(),
            c@.to_multiset() == m0,
            c@.len() == n0,
            n0 <= usize::MAX,
            forall|k: int| it.end_spec() <= k < n0 ==> #[trigger] heap_node_ok(c@, k),
        ensures
            c@.to_multiset() == m0,
            c@.len() == n0,
            forall|k: int| 0 <= k < n0 ==> #[trigger] heap_node_ok(c@, k),
        decreases it.end_spec() - it.start_spec(),
    {
        let i = match it.next_back() {
            Some(i) => i,
            None => { break ; },
        };
        let ghost root = i.index_spec() as int;
        let mut pos = i;
        loop
            invariant
                c.valid_index(pos),
                c@.to_multiset() == m0,
                c@.len() == n0,
                n0 <= usize::MAX,
                c.brand() == it.brand(),
                pos.brand() == c.brand(),
                0 <= root <= pos.index_spec() < n0,
                forall|k: int|
                    root <= k < n0 && k != pos.index_spec() ==> #[trigger] heap_node_ok(c@, k),
                pos.index_spec() != root ==> ({
                    let p = (pos.index_spec() - 1) / 2;
                    &&& (2 * pos.index_spec() + 1 < n0 ==> c@[p] <= c@[2 * pos.index_spec() + 1])
                    &&& (2 * pos.index_spec() + 2 < n0 ==> c@[p] <= c@[2 * pos.index_spec() + 2])
                }),
            ensures
                c@.to_multiset() == m0,
                c@.len() == n0,
                c.brand() == it.brand(),
                forall|k: int| root <= k < n0 ==> #[trigger] heap_node_ok(c@, k),
            decreases c@.len() - pos.index_spec(),
        {
            let ghost po = pos.index_spec() as int;
            if pos.integer() > (usize::MAX - 1) / 2 {
                proof {
                    vstd::arithmetic::div_mod::lemma_fundamental_div_mod(usize::MAX - 1, 2);
                    assert(heap_node_ok(c@, po));
                    assert forall|k: int| root <= k < n0 implies #[trigger] heap_node_ok(
                        c@,
                        k,
                    ) by {}
                }
                break ;
            }
            let child_at = pos.integer() * 2 + 1;
            let mut child = match c.vet(child_at) {
                Ok(x) => x,
                Err(_) => {
                    proof {
                        assert(heap_node_ok(c@, po));
                        assert forall|k: int| root <= k < n0 implies #[trigger] heap_node_ok(
                            c@,
                            k,
                        ) by {}
                    }
                    break ;
                },
            };
            let mut right_child = child;
            let has_right = c.forward(&mut right_child);
            if has_right && *c.at(child) > *c.at(right_child) {
                child = right_child;
            }
            if *c.at(pos) <= *c.at(child) {
                proof {
                    assert(heap_node_ok(c@, po));
                    assert forall|k: int| root <= k < n0 implies #[trigger] heap_node_ok(
                        c@,
                        k,
                    ) by {}
                }
                break ;
            }
            let ghost s_pre = c@;
            let ghost ch = child.index_spec() as int;
            proof {
                crate::container::lemma_swap_seq_to_multiset(c@, po, ch);
            }
            c.swap(pos, child);
            proof {
                let s_post = c@;
                assert(s_post == crate::container::swap_seq(s_pre, po, ch));
                assert(s_post == s_pre.update(po, s_pre[ch]).update(ch, s_pre[po]));
                assert(forall|m: int|
                    0 <= m < n0 && m != po && m != ch ==> s_post[m] == s_pre[m]);
                assert(heap_node_ok(s_pre, ch));
                assert((ch == 2 * po + 1) || (ch == 2 * po + 2));
                assert((2 * po + 1 - 1) / 2 == po);
                assert((2 * po + 2 - 1) / 2 == po);
                assert(heap_node_ok(s_post, po)) by {
                    assert(s_post[po] == s_pre[ch]);
                }
                assert forall|k: int| root <= k < n0 && k != ch implies #[trigger] heap_node_ok(
                    s_post,
                    k,
                ) by {
                    if k == po {
                        assert(heap_node_ok(s_post, po));
                    } else if 2 * k + 1 == po || 2 * k + 2 == po {
                        assert(k == (po - 1) / 2);
                        assert(po != root);
                        assert(k < po && po < ch);
                        assert(s_post[k] == s_pre[k]);
                        assert(s_post[po] == s_pre[ch]);
                        assert(s_pre[k] <= s_pre[ch]);
                        assert(heap_node_ok(s_pre, k));
                        assert(2 * k + 1 < n0 ==> s_post[k] <= s_post[2 * k + 1]);
                        assert(2 * k + 2 < n0 ==> s_post[k] <= s_post[2 * k + 2]);
                    } else {
                        assert(heap_node_ok(s_pre, k));
                        assert(k != po && k != ch);
                        assert(s_post[k] == s_pre[k]);
                        assert(2 * k + 1 != po && 2 * k + 1 != ch && 2 * k + 2 != po && 2 * k + 2
                            != ch);
                        assert(2 * k + 1 < n0 ==> s_post[2 * k + 1] == s_pre[2 * k + 1]);
                        assert(2 * k + 2 < n0 ==> s_post[2 * k + 2] == s_pre[2 * k + 2]);
                        assert(2 * k + 1 < n0 ==> s_post[k] <= s_post[2 * k + 1]);
                        assert(2 * k + 2 < n0 ==> s_post[k] <= s_post[2 * k + 2]);
                    }
                }
                assert(({
                    let p = (ch - 1) / 2;
                    &&& (2 * ch + 1 < n0 ==> s_post[p] <= s_post[2 * ch + 1])
                    &&& (2 * ch + 2 < n0 ==> s_post[p] <= s_post[2 * ch + 2])
                })) by {
                    assert((ch - 1) / 2 == po);
                    assert(s_post[po] == s_pre[ch]);
                    assert(heap_node_ok(s_pre, ch));
                }
            }
            pos = child;
        }
    }
    let mut out = c.into_inner();
    core::mem::swap(v, &mut out);
}

/// The dot product of the first `k` coordinates of two sequences.
pub open spec fn dot(x: Seq<i32>, y: Seq<i32>, k: int) -> int
    decreases k,
{
    if k <= 0 {
        0
    } else {
        dot(x, y, k - 1) + x[k - 1] * y[k - 1]
    }
}

/// The dot product of two vectors over their common prefix, with plain
/// iteration.
pub fn zip_dot_i32(xs: &Vec<i32>, ys: &Vec<i32>) -> (r: i32)
    requires
        forall|k: int|
            0 <= k < vstd::math::min(xs@.len() as int, ys@.len() as int) ==> i32::MIN <= #[trigger] (
            xs@[k] * ys@[k]) <= i32::MAX,
        forall|k: int|
            0 <= k <= vstd::math::min(xs@.len() as int, ys@.len() as int) ==> i32::MIN
                <= #[trigger] dot(xs@, ys@, k) <= i32::MAX,
    ensures
        r == dot(xs@, ys@, vstd::math::min(xs@.len() as int, ys@.len() as int)),
{
    let n = if xs.len() <= ys.len() {
        xs.len()
    } else {
        ys.len()
    };
    let mut sum: i32 = 0;
    let mut k: usize = 0;
    while k < n
        invariant
            k <= n,
            n == vstd::math::min(xs@.len() as int, ys@.len() as int),
            sum == dot(xs@, ys@, k as int),
            forall|k2: int|
                0 <= k2 < n ==> i32::MIN <= #[trigger] (xs@[k2] * ys@[k2]) <= i32::MAX,
            forall|k2: int| 0 <= k2 <= n ==> i32::MIN <= #[trigger] dot(xs@, ys@, k2) <= i32::MAX,
        decreases n - k,
    {
        proof {
            assert(dot(xs@, ys@, k + 1) == dot(xs@, ys@, k as int) + xs@[k as int] * ys@[
                k as int
            ]);
        }
        sum = sum + xs[k] * ys[k];
        k = k + 1;
    }
    sum
}

/// The dot product of two vectors over their common prefix, walking two
/// scoped containers in lockstep through pointer particles.
pub fn zip_dot_i32_prange(xs: &Vec<i32>, ys: &Vec<i32>) -> (r: i32)
    requires
        forall|k: int|
            0 <= k < vstd::math::min(xs@.len() as int, ys@.len() as int) ==> i32::MIN <= #[trigger] (
            xs@[k] * ys@[k]) <= i32::MAX,
        forall|k: int|
            0 <= k <= vstd::math::min(xs@.len() as int, ys@.len() as int) ==> i32::MIN
                <= #[trigger] dot(xs@, ys@, k) <= i32::MAX,
    ensures
        r == dot(xs@, ys@, vstd::math::min(xs@.len() as int, ys@.len() as int)),
{
    let c1 = Container::new(duplicate(xs));
    let c2 = Container::new(duplicate(ys));
    let ghost n = vstd::math::min(xs@.len() as int, ys@.len() as int);
    let mut it1 = c1.pointer_range().iter();
    let mut it2 = c2.pointer_range().iter();
    let mut sum: i32 = 0;
    loop
        invariant_except_break
            it1.start_spec() == it2.start_spec(),
            it1.start_spec() <= n,
            sum == dot(xs@, ys@, it1.start_spec() as int),
        invariant
            n == vstd::math::min(xs@.len() as int, ys@.len() as int),
            it1.wf(),
            it2.wf(),
            it1.brand() == c1.brand(),
            it2.brand() == c2.brand(),
            c1@ == xs@,
            c2@ == ys@,
            it1.end_spec() == xs@.len(),
            it2.end_spec() == ys@.len(),
            forall|k2: int|
                0 <= k2 < n ==> i32::MIN <= #[trigger] (xs@[k2] * ys@[k2]) <= i32::MAX,
            forall|k2: int| 0 <= k2 <= n ==> i32::MIN <= #[trigger] dot(xs@, ys@, k2) <= i32::MAX,
        ensures
            sum == dot(xs@, ys@, n),
        decreases it1.end_spec() - it1.start_spec(),
    {
        let ghost k = it1.start_spec() as int;
        let p1 = match it1.next() {
            Some(p) => p,
            None => { break ; },
        };
        let p2 = match it2.next() {
            Some(p) => p,
            None => { break ; },
        };
        proof {
            assert(dot(xs@, ys@, k + 1) == dot(xs@, ys@, k) + xs@[k] * ys@[k]);
        }
        sum = sum + *c1.at_ptr(p1) * *c2.at_ptr(p2);
    }
    sum
}

/// Copy the common prefix of `xs` into `ys`, element by element.
pub fn copy<T: Copy>(xs: &Vec<T>, ys: &mut Vec<T>)
    ensures
        final(ys)@.len() == old(ys)@.len(),
        forall|k: int|
            0 <= k < vstd::math::min(xs@.len() as int, old(ys)@.len() as int) ==> final(ys)@[k]
                == xs@[k],
        forall|k: int|
            vstd::math::min(xs@.len() as int, old(ys)@.len() as int) <= k < old(ys)@.len()
                ==> final(ys)@[k] == old(ys)@[k],
{
    let n = if xs.len() <= ys.len() {
        xs.len()
    } else {
        ys.len()
    };
    let mut k: usize = 0;
    while k < n
        invariant
            k <= n,
            n == vstd::math::min(xs@.len() as int, ys@.len() as int),
            ys@.len() == old(ys)@.len(),
            forall|k2: int| 0 <= k2 < k ==> ys@[k2] == xs@[k2],
            forall|k2: int| k <= k2 < ys@.len() ==> ys@[k2] == old(ys)@[k2],
        decreases n - k,
    {
        let x = xs[k];
        ys[k] = x;
        k = k + 1;
    }
}

/// Copy the common prefix of `xs` into `ys` through pointer particles
/// on two scoped containers.
pub fn copy_prange<T: Copy>(xs: &Vec<T>, ys: &mut Vec<T>)
    ensures
        final(ys)@.len() == old(ys)@.len(),
        forall|k: int|
            0 <= k < vstd::math::min(xs@.len() as int, old(ys)@.len() as int) ==> final(ys)@[k]
                == xs@[k],
        forall|k: int|
            vstd::math::min(xs@.len() as int, old(ys)@.len() as int) <= k < old(ys)@.len()
                ==> final(ys)@[k] == old(ys)@[k],
{
    let ghost y0 = old(ys)@;
    let ghost n = vstd::math::min(xs@.len() as int, old(ys)@.len() as int);
    let c1 = Container::new(duplicate(xs));
    let mut tmp: Vec<T> = Vec::new();
    core::mem::swap(ys, &mut tmp);
    let mut c2 = Container::new(tmp);
    let mut it1 = c1.pointer_range().iter();
    let mut it2 = c2.pointer_range().iter();
    loop
        invariant_except_break
            it1.start_spec() == it2.start_spec(),
            it1.start_spec() <= n,
            forall|k2: int| 0 <= k2 < it1.start_spec() ==> c2@[k2] == xs@[k2],
            forall|k2: int| it1.start_spec() <= k2 < y0.len() ==> c2@[k2] == y0[k2],
        invariant
            n == vstd::math::min(xs@.len() as int, y0.len() as int),
            it1.wf(),
            it2.wf(),
            it1.brand() == c1.brand(),
            it2.brand() == c2.brand(),
            c1@ == xs@,
            c2@.len() == y0.len(),
            it1.end_spec() == xs@.len(),
            it2.end_spec() == y0.len(),
        ensures
            c2@.len() == y0.len(),
            forall|k2: int| 0 <= k2 < n ==> c2@[k2] == xs@[k2],
            forall|k2: int| n <= k2 < y0.len() ==> c2@[k2] == y0[k2],
        decreases it1.end_spec() - it1.start_spec(),
    {
        let p1 = match it1.next() {
            Some(p) => p,
            None => { break ; },
        };
        let p2 = match it2.next() {
            Some(p) => p,
            None => { break ; },
        };
        let x = *c1.at_ptr(p1);
        let target: Index<NonEmpty> = Index::new(p2.offset(), Ghost(c2.brand()));
        let e = c2.at_mut(target);
        *e = x;
    }
    let mut out = c2.into_inner();
    core::mem::swap(ys, &mut out);
}

} // verus!
