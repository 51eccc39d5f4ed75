//! Branded index and range particles.
//!
//! An `Index` is an absolute offset, a `Range` a half-open interval of
//! absolute offsets; both carry the brand of the container they were
//! minted from and a proof marker (`NonEmpty` or `Unknown`).  The
//! operations below transform particles without consulting the container;
//! each states exactly how the bounds of its results relate to the bounds
//! of its inputs, so a caller can carry a particle's validity for its
//! container through any chain of derivations.

use core::marker::PhantomData;
use vstd::prelude::*;

use crate::base::{NonEmpty, ProofAdd, ProofType, Provable, Unknown};
use crate::index_error::{index_error, IndexingError};

verus! {

/// A branded index.
///
/// The marker `P` records whether the index is dereferenceable: a
/// `NonEmpty` index refers to a valid element, an `Unknown` index may
/// additionally equal the container length (a past-the-end edge index,
/// usable for slicing but not for element access).
#[verifier::reject_recursive_types(P)]
pub struct Index<P: ProofType = NonEmpty> {
    index: usize,
    brand: Ghost<int>,
    mark: PhantomData<P>,
}

impl<P: ProofType> Copy for Index<P> {

}

impl<P: ProofType> Clone for Index<P> {
    fn clone(&self) -> (r: Self)
        ensures
            r == *self,
    {
        *self
    }
}

impl<P: ProofType> Index<P> {
    /// The absolute offset, at the specification level.
    pub closed spec fn index_spec(self) -> usize {
        self.index
    }

    /// The brand of the scope this index was minted in.
    pub closed spec fn brand(self) -> int {
        self.brand@
    }

    /// Mint an index with a given brand.  Only the container and the
    /// range operations do this; they discharge the bounds obligations.
    pub(crate) fn new(index: usize, Ghost(brand): Ghost<int>) -> (r: Index<P>)
        ensures
            r.index_spec() == index,
            r.brand() == brand,
    {
        Index { index, brand: Ghost(brand), mark: PhantomData }
    }

    /// Read the underlying offset as an integer.
    pub fn integer(&self) -> (r: usize)
        ensures
            r == self.index_spec(),
    {
        self.index
    }
}

impl Index<NonEmpty> {
    /// Return the index directly after, which may be an edge index.
    pub fn after(self) -> (r: Index<Unknown>)
        requires
            self.index_spec() < usize::MAX,
        ensures
            r.index_spec() == self.index_spec() + 1,
            r.brand() == self.brand(),
    {
        Index::new(self.index + 1, Ghost(self.brand@))
    }
}

impl<P: ProofType> PartialEq for Index<P> {
    /// Equality compares offsets only.
    fn eq(&self, other: &Index<P>) -> (r: bool) {
        self.index == other.index
    }
}

impl<P: ProofType> vstd::std_specs::cmp::PartialEqSpecImpl for Index<P> {
    open spec fn obeys_eq_spec() -> bool {
        true
    }

    open spec fn eq_spec(&self, other: &Index<P>) -> bool {
        self.index_spec() == other.index_spec()
    }
}

impl<P: ProofType> Provable for Index<P> {
    type WithoutProof = Index<Unknown>;

    open spec fn strips_to(self, r: Index<Unknown>) -> bool {
        r.index_spec() == self.index_spec() && r.brand() == self.brand()
    }

    fn no_proof(self) -> (r: Index<Unknown>) {
        Index { index: self.index, brand: self.brand, mark: PhantomData }
    }
}

/// A branded range: a half-open interval of absolute offsets.
///
/// The marker `P` may carry a proof of nonemptiness, which unlocks the
/// operations that need a first and a last element.
#[verifier::reject_recursive_types(P)]
pub struct Range<P: ProofType = Unknown> {
    start: usize,
    end: usize,
    brand: Ghost<int>,
    mark: PhantomData<P>,
}

impl<P: ProofType> Copy for Range<P> {

}

impl<P: ProofType> Clone for Range<P> {
    fn clone(&self) -> (r: Self)
        ensures
            r == *self,
    {
        *self
    }
}

impl<P: ProofType> PartialEq for Range<P> {
    /// Equality compares the two endpoints.
    fn eq(&self, other: &Range<P>) -> (r: bool) {
        self.start == other.start && self.end == other.end
    }
}

impl<P: ProofType> vstd::std_specs::cmp::PartialEqSpecImpl for Range<P> {
    open spec fn obeys_eq_spec() -> bool {
        true
    }

    open spec fn eq_spec(&self, other: &Range<P>) -> bool {
        self.start_spec() == other.start_spec() && self.end_spec() == other.end_spec()
    }
}

impl<P: ProofType> Provable for Range<P> {
    type WithoutProof = Range<Unknown>;

    open spec fn strips_to(self, r: Range<Unknown>) -> bool {
        r.start_spec() == self.start_spec() && r.end_spec() == self.end_spec() && r.brand()
            == self.brand()
    }

    fn no_proof(self) -> (r: Range<Unknown>) {
        Range { start: self.start, end: self.end, brand: self.brand, mark: PhantomData }
    }
}

impl<P: ProofType> Range<P> {
    /// The start offset, at the specification level.
    pub closed spec fn start_spec(self) -> usize {
        self.start
    }

    /// The end offset, at the specification level.
    pub closed spec fn end_spec(self) -> usize {
        self.end
    }

    /// The brand of the scope this range was minted in.
    pub closed spec fn brand(self) -> int {
        self.brand@
    }

    /// The number of offsets in the interval.
    pub open spec fn len_spec(self) -> int {
        self.end_spec() - self.start_spec()
    }

    /// Well-formedness: the interval is ordered, and strictly so whenever
    /// the marker claims nonemptiness.  Every operation below preserves
    /// this predicate.
    pub open spec fn wf(self) -> bool {
        &&& self.start_spec() <= self.end_spec()
        &&& P::is_nonempty() ==> self.start_spec() < self.end_spec()
    }

    /// Mint a range with a given brand.  Only this crate does so; each
    /// construction site discharges `wf` and the container's bounds.
    pub(crate) fn make(start: usize, end: usize, Ghost(brand): Ghost<int>) -> (r: Range<P>)
        requires
            start <= end,
            P::is_nonempty() ==> start < end,
        ensures
            r.start_spec() == start,
            r.end_spec() == end,
            r.brand() == brand,
            r.wf(),
    {
        Range { start, end, brand: Ghost(brand), mark: PhantomData }
    }

    /// Return the length of the range.
    pub fn len(&self) -> (r: usize)
        requires
            self.wf(),
        ensures
            r == self.len_spec(),
    {
        self.end - self.start
    }

    /// Return `true` if the range is empty.
    pub fn is_empty(&self) -> (r: bool)
        ensures
            r == (self.start_spec() >= self.end_spec()),
    {
        self.start >= self.end
    }

    /// Return the start offset.
    pub fn start(&self) -> (r: usize)
        ensures
            r == self.start_spec(),
    {
        self.start
    }

    /// Return the end offset.
    pub fn end(&self) -> (r: usize)
        ensures
            r == self.end_spec(),
    {
        self.end
    }

    /// Try to create a proof that the range is nonempty; the `Ok` branch
    /// carries a nonempty range over the same interval.
    pub fn nonempty(&self) -> (r: Result<Range<NonEmpty>, IndexingError>)
        requires
            self.wf(),
        ensures
            match r {
                Ok(ne) => {
                    &&& self.start_spec() < self.end_spec()
                    &&& ne.start_spec() == self.start_spec()
                    &&& ne.end_spec() == self.end_spec()
                    &&& ne.brand() == self.brand()
                    &&& ne.wf()
                },
                Err(_) => self.start_spec() == self.end_spec(),
            },
    {
        if self.start < self.end {
            Ok(Range::make(self.start, self.end, Ghost(self.brand@)))
        } else {
            Err(index_error())
        }
    }

    /// The offset where `split_in_half` parts the interval: the upper
    /// middle, so that a proof of nonemptiness can transfer to the latter
    /// half.
    pub open spec fn split_point(self) -> int {
        self.start_spec() + self.len_spec() / 2
    }

    /// Split the range in half, with the upper middle offset landing in
    /// the latter half.  Proof of nonemptiness transfers to the latter
    /// half.
    pub fn split_in_half(self) -> (r: (Range<Unknown>, Range<P>))
        requires
            self.wf(),
        ensures
            r.0.start_spec() == self.start_spec(),
            r.0.end_spec() == self.split_point(),
            r.1.start_spec() == self.split_point(),
            r.1.end_spec() == self.end_spec(),
            r.0.brand() == self.brand(),
            r.1.brand() == self.brand(),
            r.0.wf(),
            r.1.wf(),
    {
        let mid = (self.end - self.start) / 2 + self.start;
        (
            Range::make(self.start, mid, Ghost(self.brand@)),
            Range::make(mid, self.end, Ghost(self.brand@)),
        )
    }

    /// Split at the relative offset `index`; if it lies past the end,
    /// clamp to the end and report the clamp through the third component,
    /// which is `true` exactly when no clamping was needed.
    pub fn split_at(&self, index: usize) -> (r: (Range<Unknown>, Range<Unknown>, bool))
        requires
            self.wf(),
        ensures
            r.0.start_spec() == self.start_spec(),
            r.0.end_spec() == r.1.start_spec(),
            r.1.end_spec() == self.end_spec(),
            r.0.brand() == self.brand(),
            r.1.brand() == self.brand(),
            r.0.wf(),
            r.1.wf(),
            r.2 == (index <= self.len_spec()),
            r.2 ==> r.0.end_spec() == self.start_spec() + index,
            !r.2 ==> r.0.end_spec() == self.end_spec(),
    {
        let mid = if index > self.end - self.start {
            self.end
        } else {
            self.start + index
        };
        (
            Range::make(self.start, mid, Ghost(self.brand@)),
            Range::make(mid, self.end, Ghost(self.brand@)),
            index <= self.end - self.start,
        )
    }

    /// Return the trusted index for the absolute offset `abs_index` if it
    /// lies inside this range, and `None` otherwise.
    pub fn contains(&self, abs_index: usize) -> (r: Option<Index<NonEmpty>>)
        requires
            self.wf(),
        ensures
            match r {
                Some(i) => {
                    &&& self.start_spec() <= abs_index < self.end_spec()
                    &&& i.index_spec() == abs_index
                    &&& i.brand() == self.brand()
                },
                None => !(self.start_spec() <= abs_index < self.end_spec()),
            },
    {
        if abs_index >= self.start && abs_index < self.end {
            Some(Index::new(abs_index, Ghost(self.brand@)))
        } else {
            None
        }
    }

    /// Join two exactly adjacent ranges (`self` first, left to right).
    /// The proof marker of the result is the sum of the two proofs.
    pub fn join<Q: ProofType>(&self, other: Range<Q>) -> (r: Result<
        Range<<P as ProofAdd<Q>>::Sum>,
        IndexingError,
    >) where P: ProofAdd<Q>
        requires
            self.wf(),
            other.wf(),
            self.brand() == other.brand(),
        ensures
            match r {
                Ok(j) => {
                    &&& self.end_spec() == other.start_spec()
                    &&& j.start_spec() == self.start_spec()
                    &&& j.end_spec() == other.end_spec()
                    &&& j.brand() == self.brand()
                    &&& j.wf()
                },
                Err(_) => self.end_spec() != other.start_spec(),
            },
    {
        if self.end == other.start {
            proof {
                <P as ProofAdd<Q>>::sum_nonempty();
            }
            Ok(Range::make(self.start, other.end, Ghost(self.brand@)))
        } else {
            Err(index_error())
        }
    }

    /// Extend the range to the end of `other`, including any space in
    /// between.  `other` must not start before `self`: without that
    /// restriction the result could begin past every element of `other`
    /// while still claiming `other`'s proof of nonemptiness.
    pub fn join_cover<Q: ProofType>(&self, other: Range<Q>) -> (r: Range<
        <P as ProofAdd<Q>>::Sum,
    >) where P: ProofAdd<Q>
        requires
            self.wf(),
            other.wf(),
            self.brand() == other.brand(),
            self.start_spec() <= other.start_spec(),
        ensures
            r.start_spec() == self.start_spec(),
            r.end_spec() == vstd::math::max(self.end_spec() as int, other.end_spec() as int),
            r.brand() == self.brand(),
            r.wf(),
    {
        proof {
            <P as ProofAdd<Q>>::sum_nonempty();
        }
        let end = if self.end >= other.end {
            self.end
        } else {
            other.end
        };
        Range::make(self.start, end, Ghost(self.brand@))
    }

    /// Extend the range to the start and end of `other`, including any
    /// space in between: the symmetric envelope of the two ranges.
    pub fn join_cover_both<Q: ProofType>(&self, other: Range<Q>) -> (r: Range<
        <P as ProofAdd<Q>>::Sum,
    >) where P: ProofAdd<Q>
        requires
            self.wf(),
            other.wf(),
            self.brand() == other.brand(),
        ensures
            r.start_spec() == vstd::math::min(self.start_spec() as int, other.start_spec() as int),
            r.end_spec() == vstd::math::max(self.end_spec() as int, other.end_spec() as int),
            r.brand() == self.brand(),
            r.wf(),
    {
        proof {
            <P as ProofAdd<Q>>::sum_nonempty();
        }
        let start = if self.start <= other.start {
            self.start
        } else {
            other.start
        };
        let end = if self.end >= other.end {
            self.end
        } else {
            other.end
        };
        Range::make(start, end, Ghost(self.brand@))
    }

    /// The interval as a plain `start..end` range of integers.
    pub fn as_range(&self) -> (r: core::ops::Range<usize>)
        ensures
            r.start == self.start_spec(),
            r.end == self.end_spec(),
    {
        self.start..self.end
    }

    /// Return two empty ranges, at the front and the back of this range.
    pub fn frontiers(&self) -> (r: (Range<Unknown>, Range<Unknown>))
        requires
            self.wf(),
        ensures
            r.0.start_spec() == self.start_spec(),
            r.0.end_spec() == self.start_spec(),
            r.1.start_spec() == self.end_spec(),
            r.1.end_spec() == self.end_spec(),
            r.0.brand() == self.brand(),
            r.1.brand() == self.brand(),
            r.0.wf(),
            r.1.wf(),
    {
        (
            Range::make(self.start, self.start, Ghost(self.brand@)),
            Range::make(self.end, self.end, Ghost(self.brand@)),
        )
    }

    /// Move `index` forward by `offset` if the result is still before the
    /// end of this range; report whether it moved.
    pub fn forward_by(&self, index: &mut Index<NonEmpty>, offset: usize) -> (moved: bool)
        requires
            self.wf(),
            old(index).index_spec() + offset <= usize::MAX,
        ensures
            final(index).brand() == old(index).brand(),
            moved == (old(index).index_spec() + offset < self.end_spec()),
            moved ==> final(index).index_spec() == old(index).index_spec() + offset,
            !moved ==> final(index).index_spec() == old(index).index_spec(),
    {
        let i = index.integer() + offset;
        if i < self.end {
            *index = Index::new(i, Ghost(index.brand()));
            true
        } else {
            false
        }
    }

    /// Move the range `r` forward by `offset`, clamping both endpoints to
    /// the end of `self`.
    pub fn forward_range_by<Q: ProofType>(&self, r: Range<Q>, offset: usize) -> (s: Range<Unknown>)
        requires
            self.wf(),
            r.wf(),
            r.end_spec() <= self.end_spec(),
        ensures
            s.start_spec() == vstd::math::min(self.end_spec() as int, r.start_spec() + offset),
            s.end_spec() == vstd::math::min(self.end_spec() as int, r.end_spec() + offset),
            s.brand() == r.brand(),
            s.wf(),
    {
        let max = self.end;
        let start = if offset >= max || r.start >= max - offset {
            max
        } else {
            r.start + offset
        };
        let end = if offset >= max || r.end >= max - offset {
            max
        } else {
            r.end + offset
        };
        Range::make(start, end, Ghost(r.brand@))
    }

    /// Drop the proof marker.
    pub fn no_proof(&self) -> (r: Range<Unknown>)
        requires
            self.wf(),
        ensures
            r.start_spec() == self.start_spec(),
            r.end_spec() == self.end_spec(),
            r.brand() == self.brand(),
            r.wf(),
    {
        Range::make(self.start, self.end, Ghost(self.brand@))
    }

    /// Return the first index of the range.  It inherits the range's
    /// proof marker: dereferenceable exactly when the range is known
    /// nonempty.
    pub fn first(&self) -> (i: Index<P>)
        requires
            self.wf(),
        ensures
            i.index_spec() == self.start_spec(),
            i.brand() == self.brand(),
    {
        Index::new(self.start, Ghost(self.brand@))
    }

    /// Return the middle index, rounding up: `start + len / 2`.
    pub fn upper_middle(&self) -> (i: Index<P>)
        requires
            self.wf(),
        ensures
            i.index_spec() == self.split_point(),
            i.brand() == self.brand(),
    {
        let mid = (self.end - self.start) / 2 + self.start;
        Index::new(mid, Ghost(self.brand@))
    }

    /// Return the index one past the end of the range.
    pub fn past_the_end(self) -> (i: Index<Unknown>)
        ensures
            i.index_spec() == self.end_spec(),
            i.brand() == self.brand(),
    {
        Index::new(self.end, Ghost(self.brand@))
    }

    /// Iterate over the indices of the range.
    pub fn iter(self) -> (it: RangeIter)
        requires
            self.wf(),
        ensures
            it.start_spec() == self.start_spec(),
            it.end_spec() == self.end_spec(),
            it.brand() == self.brand(),
            it.wf(),
    {
        RangeIter { start: self.start, end: self.end, brand: self.brand }
    }
}

impl Range<Unknown> {
    /// Move the start forward by `offset`, clamping to the end.
    pub fn increase_start(&mut self, offset: usize)
        requires
            old(self).wf(),
        ensures
            final(self).start_spec() == vstd::math::min(
                old(self).end_spec() as int,
                old(self).start_spec() + offset,
            ),
            final(self).end_spec() == old(self).end_spec(),
            final(self).brand() == old(self).brand(),
            final(self).wf(),
    {
        if offset >= self.end - self.start {
            self.start = self.end;
        } else {
            self.start = self.start + offset;
        }
    }

    /// Move the end backward by `offset`, clamping to the start.
    pub fn decrease_end(&mut self, offset: usize)
        requires
            old(self).wf(),
        ensures
            final(self).end_spec() == vstd::math::max(
                old(self).start_spec() as int,
                old(self).end_spec() - offset,
            ),
            final(self).start_spec() == old(self).start_spec(),
            final(self).brand() == old(self).brand(),
            final(self).wf(),
    {
        if offset >= self.end - self.start {
            self.end = self.start;
        } else {
            self.end = self.end - offset;
        }
    }
}

impl Range<NonEmpty> {
    /// Return the middle index, rounding down: `start + (len - 1) / 2`.
    /// Only a nonempty range has one.
    pub fn lower_middle(&self) -> (i: Index<NonEmpty>)
        requires
            self.wf(),
        ensures
            i.index_spec() == self.start_spec() + (self.len_spec() - 1) / 2,
            i.brand() == self.brand(),
    {
        let mid = (self.end - self.start - 1) / 2 + self.start;
        Index::new(mid, Ghost(self.brand@))
    }

    /// Return the last index of the range.
    pub fn last(&self) -> (i: Index<NonEmpty>)
        requires
            self.wf(),
        ensures
            i.index_spec() == self.end_spec() - 1,
            i.brand() == self.brand(),
    {
        Index::new(self.end - 1, Ghost(self.brand@))
    }

    /// Everything but the first element.
    pub fn tail(self) -> (r: Range<Unknown>)
        requires
            self.wf(),
        ensures
            r.start_spec() == self.start_spec() + 1,
            r.end_spec() == self.end_spec(),
            r.brand() == self.brand(),
            r.wf(),
    {
        Range::make(self.start + 1, self.end, Ghost(self.brand@))
    }

    /// Everything but the last element.
    pub fn init(&self) -> (r: Range<Unknown>)
        requires
            self.wf(),
        ensures
            r.start_spec() == self.start_spec(),
            r.end_spec() == self.end_spec() - 1,
            r.brand() == self.brand(),
            r.wf(),
    {
        Range::make(self.start, self.end - 1, Ghost(self.brand@))
    }

    /// The advanced range, if increasing the start keeps it nonempty.
    pub fn advance_(&self) -> (r: Result<Range<NonEmpty>, IndexingError>)
        requires
            self.wf(),
        ensures
            match r {
                Ok(a) => {
                    &&& self.start_spec() + 1 < self.end_spec()
                    &&& a.start_spec() == self.start_spec() + 1
                    &&& a.end_spec() == self.end_spec()
                    &&& a.brand() == self.brand()
                    &&& a.wf()
                },
                Err(_) => self.start_spec() + 1 == self.end_spec(),
            },
    {
        if self.start + 1 < self.end {
            Ok(Range::make(self.start + 1, self.end, Ghost(self.brand@)))
        } else {
            Err(index_error())
        }
    }

    /// Increase the range's start if the result is still nonempty;
    /// report whether it moved.  On a single-element range this returns
    /// `false` and leaves the range unchanged.
    pub fn advance(&mut self) -> (moved: bool)
        requires
            old(self).wf(),
        ensures
            moved == (old(self).start_spec() + 1 < old(self).end_spec()),
            moved ==> final(self).start_spec() == old(self).start_spec() + 1,
            !moved ==> final(self).start_spec() == old(self).start_spec(),
            final(self).end_spec() == old(self).end_spec(),
            final(self).brand() == old(self).brand(),
            final(self).wf(),
    {
        if self.start + 1 < self.end {
            self.start = self.start + 1;
            true
        } else {
            false
        }
    }

    /// Increase the range's start by `offset` if the result is still
    /// nonempty; report whether it moved.
    pub fn advance_by(&mut self, offset: usize) -> (moved: bool)
        requires
            old(self).wf(),
        ensures
            moved == (old(self).start_spec() + offset < old(self).end_spec()),
            moved ==> final(self).start_spec() == old(self).start_spec() + offset,
            !moved ==> final(self).start_spec() == old(self).start_spec(),
            final(self).end_spec() == old(self).end_spec(),
            final(self).brand() == old(self).brand(),
            final(self).wf(),
    {
        if offset < self.end - self.start {
            self.start = self.start + offset;
            true
        } else {
            false
        }
    }

    /// Decrease the range's end if the result is still nonempty; report
    /// whether it moved.
    pub fn advance_back(&mut self) -> (moved: bool)
        requires
            old(self).wf(),
        ensures
            moved == (old(self).start_spec() < old(self).end_spec() - 1),
            moved ==> final(self).end_spec() == old(self).end_spec() - 1,
            !moved ==> final(self).end_spec() == old(self).end_spec(),
            final(self).start_spec() == old(self).start_spec(),
            final(self).brand() == old(self).brand(),
            final(self).wf(),
    {
        if self.start < self.end - 1 {
            self.end = self.end - 1;
            true
        } else {
            false
        }
    }
}

/// An iterator over the indices of a range.  Each index it yields is
/// dereferenceable in the range's scope.
pub struct RangeIter {
    start: usize,
    end: usize,
    brand: Ghost<int>,
}

impl Copy for RangeIter {

}

impl Clone for RangeIter {
    fn clone(&self) -> (r: Self)
        ensures
            r == *self,
    {
        *self
    }
}

impl RangeIter {
    /// The next offset to be yielded from the front.
    pub closed spec fn start_spec(self) -> usize {
        self.start
    }

    /// The offset one past the last to be yielded from the back.
    pub closed spec fn end_spec(self) -> usize {
        self.end
    }

    /// The brand of the range being iterated.
    pub closed spec fn brand(self) -> int {
        self.brand@
    }

    /// The interval still to be yielded is ordered.
    pub open spec fn wf(self) -> bool {
        self.start_spec() <= self.end_spec()
    }

    /// The indices not yet yielded, as a range particle.
    pub fn into_range(&self) -> (r: Range<Unknown>)
        requires
            self.wf(),
        ensures
            r.start_spec() == self.start_spec(),
            r.end_spec() == self.end_spec(),
            r.brand() == self.brand(),
            r.wf(),
    {
        Range::make(self.start, self.end, Ghost(self.brand@))
    }

    /// Yield the next index from the front, or `None` when exhausted.
    pub fn next(&mut self) -> (r: Option<Index<NonEmpty>>)
        requires
            old(self).wf(),
        ensures
            final(self).end_spec() == old(self).end_spec(),
            final(self).brand() == old(self).brand(),
            final(self).wf(),
            match r {
                Some(i) => {
                    &&& old(self).start_spec() < old(self).end_spec()
                    &&& i.index_spec() == old(self).start_spec()
                    &&& i.brand() == old(self).brand()
                    &&& final(self).start_spec() == old(self).start_spec() + 1
                },
                None => {
                    &&& old(self).start_spec() == old(self).end_spec()
                    &&& final(self).start_spec() == old(self).start_spec()
                },
            },
    {
        if self.start < self.end {
            let index = self.start;
            self.start = self.start + 1;
            Some(Index::new(index, Ghost(self.brand@)))
        } else {
            None
        }
    }

    /// Yield the next index from the back, or `None` when exhausted.
    pub fn next_back(&mut self) -> (r: Option<Index<NonEmpty>>)
        requires
            old(self).wf(),
        ensures
            final(self).start_spec() == old(self).start_spec(),
            final(self).brand() == old(self).brand(),
            final(self).wf(),
            match r {
                Some(i) => {
                    &&& old(self).start_spec() < old(self).end_spec()
                    &&& i.index_spec() == old(self).end_spec() - 1
                    &&& i.brand() == old(self).brand()
                    &&& final(self).end_spec() == old(self).end_spec() - 1
                },
                None => {
                    &&& old(self).start_spec() == old(self).end_spec()
                    &&& final(self).end_spec() == old(self).end_spec()
                },
            },
    {
        if self.start < self.end {
            self.end = self.end - 1;
            Some(Index::new(self.end, Ghost(self.brand@)))
        } else {
            None
        }
    }
}

/// The offset where the `k`-th of `n` even chunks of `[start, start + len)`
/// begins: the exact-fraction stepper advances by `len / n` each step and
/// carries one extra unit whenever the accumulated remainders reach `n`.
pub open spec fn subdiv_point(start: int, len: int, n: int, k: int) -> int
    recommends
        n >= 1,
{
    start + k * (len / n) + (k * (len % n)) / n
}

/// How one step of the exact-fraction stepper moves the accumulated
/// remainder and the carry.
proof fn lemma_subdiv_step(len: int, n: int, k: int)
    requires
        n >= 1,
        len >= 0,
        k >= 0,
    ensures
        ({
            let f = len % n;
            let r = (k * f) % n;
            &&& r + f >= n ==> ((k + 1) * f) / n == (k * f) / n + 1 && ((k + 1) * f) % n == r + f
                - n
            &&& r + f < n ==> ((k + 1) * f) / n == (k * f) / n && ((k + 1) * f) % n == r + f
        }),
{
    let f = len % n;
    let q = (k * f) / n;
    let r = (k * f) % n;
    vstd::arithmetic::div_mod::lemma_fundamental_div_mod(k * f, n);
    vstd::arithmetic::div_mod::lemma_fundamental_div_mod(len, n);
    assert(0 <= f < n);
    assert(k * f >= 0) by (nonlinear_arith)
        requires
            k >= 0 && f >= 0,
    ;
    assert(0 <= r < n);
    assert((k + 1) * f == k * f + f) by (nonlinear_arith);
    if r + f < n {
        vstd::arithmetic::div_mod::lemma_fundamental_div_mod_converse((k + 1) * f, n, q, r + f);
    } else {
        assert((k + 1) * f == (q + 1) * n + (r + f - n)) by (nonlinear_arith)
            requires
                (k + 1) * f == k * f + f && k * f == n * q + r,
        ;
        vstd::arithmetic::div_mod::lemma_fundamental_div_mod_converse(
            (k + 1) * f,
            n,
            q + 1,
            r + f - n,
        );
    }
}

/// The chunk boundaries move strictly forward and never pass the end.
proof fn lemma_subdiv_point_props(start: int, len: int, n: int, k: int)
    requires
        n >= 1,
        len >= n,
        0 <= k < n,
    ensures
        subdiv_point(start, len, n, k) < subdiv_point(start, len, n, k + 1),
        subdiv_point(start, len, n, k + 1) <= start + len,
        subdiv_point(start, len, n, k + 1) - subdiv_point(start, len, n, k) == len / n + (((k + 1)
            * (len % n)) / n - (k * (len % n)) / n),
{
    let d = len / n;
    let f = len % n;
    vstd::arithmetic::div_mod::lemma_fundamental_div_mod(len, n);
    vstd::arithmetic::div_mod::lemma_div_is_ordered(n, len, n);
    vstd::arithmetic::div_mod::lemma_div_by_self(n);
    assert(d >= 1);
    assert((k + 1) * d == k * d + d) by (nonlinear_arith);
    assert((k + 1) * f == k * f + f) by (nonlinear_arith);
    assert(k * f <= (k + 1) * f) by (nonlinear_arith)
        requires
            k >= 0 && f >= 0,
    ;
    assert(k * f >= 0) by (nonlinear_arith)
        requires
            k >= 0 && f >= 0,
    ;
    vstd::arithmetic::div_mod::lemma_div_is_ordered(k * f, (k + 1) * f, n);
    vstd::arithmetic::div_mod::lemma_div_pos_is_pos(k * f, n);
    vstd::arithmetic::mul::lemma_mul_inequality(k + 1, n, d);
    vstd::arithmetic::mul::lemma_mul_inequality(k + 1, n, f);
    vstd::arithmetic::div_mod::lemma_div_is_ordered((k + 1) * f, n * f, n);
    vstd::arithmetic::div_mod::lemma_div_multiples_vanish(f, n);
    assert(((k + 1) * f) / n <= f);
    assert((k + 1) * d + ((k + 1) * f) / n <= n * d + f);
}

/// Law: dividing `[start, start + len)` into `n >= 1` parts with the
/// exact-fraction stepper yields exactly `n` chunks whenever `len >= n`:
/// the boundaries begin at `start`, move strictly forward (each chunk
/// nonempty, interiors disjoint), and the last boundary lands exactly on
/// `start + len`, so consecutive chunks are adjacent and their union is
/// the whole interval.
pub proof fn lemma_subdivide_points(start: int, len: int, n: int)
    requires
        n >= 1,
        len >= n,
    ensures
        subdiv_point(start, len, n, 0) == start,
        subdiv_point(start, len, n, n) == start + len,
        forall|k: int|
            0 <= k < n ==> #[trigger] subdiv_point(start, len, n, k) < subdiv_point(
                start,
                len,
                n,
                k + 1,
            ),
{
    let d = len / n;
    let f = len % n;
    assert(0 * d == 0) by (nonlinear_arith);
    assert(0 * f == 0) by (nonlinear_arith);
    vstd::arithmetic::div_mod::lemma_div_of0(n);
    vstd::arithmetic::div_mod::lemma_fundamental_div_mod(len, n);
    assert(n * f == f * n) by (nonlinear_arith);
    vstd::arithmetic::div_mod::lemma_div_multiples_vanish(f, n);
    assert(subdiv_point(start, len, n, n) == start + n * d + f);
    assert(n * d == d * n) by (nonlinear_arith);
    assert forall|k: int| 0 <= k < n implies #[trigger] subdiv_point(start, len, n, k)
        < subdiv_point(start, len, n, k + 1) by {
        lemma_subdiv_point_props(start, len, n, k);
    }
}

/// The exact-fraction stepper: yields the chunk boundaries of an even
/// subdivision, advancing by the integer quotient and carrying one extra
/// unit whenever the accumulated remainders reach the divisor.
struct FracStep {
    /// Current position: the start of the next interval to yield.
    pos: usize,
    /// Accumulated remainder numerator; always below `den`.
    num: usize,
    /// The divisor: how many chunks are requested.
    den: usize,
    /// The remainder `len % den` added to `num` at each step.
    frac_step: usize,
    /// The integer quotient `len / den` added to `pos` at each step.
    decimal_step: usize,
    start: usize,
    /// One past the last position; collapsed to `start` when the
    /// interval is too short to give every chunk an element.
    end: usize,
    /// The length of the original interval.
    len: Ghost<int>,
    /// How many intervals have been yielded.
    steps: Ghost<int>,
}

impl FracStep {
    spec fn wf(self) -> bool {
        &&& self.den >= 1
        &&& self.len@ >= 0
        &&& self.decimal_step == self.len@ / (self.den as int)
        &&& self.frac_step == self.len@ % (self.den as int)
        &&& (self.len@ >= self.den ==> {
            &&& self.end == self.start + self.len@
            &&& 0 <= self.steps@ <= self.den
            &&& self.pos == subdiv_point(
                self.start as int,
                self.len@,
                self.den as int,
                self.steps@,
            )
            &&& self.num == (self.steps@ * (self.len@ % (self.den as int))) % (self.den as int)
        })
        &&& (self.len@ < self.den ==> self.end == self.start && self.pos == self.start
            && self.steps@ == 0)
    }

    fn new(start: usize, end: usize, divisor: usize) -> (r: FracStep)
        requires
            start <= end,
            divisor >= 1,
        ensures
            r.wf(),
            r.start == start,
            r.len@ == end - start,
            r.den == divisor,
            r.steps@ == 0,
    {
        let len = end - start;
        let decimal_step = len / divisor;
        let frac_step = len % divisor;
        let end = if decimal_step == 0 {
            start
        } else {
            end
        };
        proof {
            vstd::arithmetic::div_mod::lemma_fundamental_div_mod(len as int, divisor as int);
            if len >= divisor {
                vstd::arithmetic::div_mod::lemma_div_is_ordered(
                    divisor as int,
                    len as int,
                    divisor as int,
                );
                vstd::arithmetic::div_mod::lemma_div_by_self(divisor as int);
            } else {
                vstd::arithmetic::div_mod::lemma_basic_div(len as int, divisor as int);
            }
            assert(0 * (len as int / divisor as int) == 0) by (nonlinear_arith);
            assert(0 * (len as int % divisor as int) == 0) by (nonlinear_arith);
            vstd::arithmetic::div_mod::lemma_small_mod(0nat, divisor as nat);
        }
        FracStep {
            pos: start,
            num: 0,
            den: divisor,
            frac_step,
            decimal_step,
            start,
            end,
            len: Ghost(len as int),
            steps: Ghost(0int),
        }
    }

    /// Yield the next interval, or `None` when all chunks are out (or
    /// the interval was too short to begin with).
    fn next(&mut self) -> (r: Option<(usize, usize)>)
        requires
            old(self).wf(),
        ensures
            final(self).wf(),
            final(self).start == old(self).start,
            final(self).len@ == old(self).len@,
            final(self).den == old(self).den,
            ({
                let s = old(self).start as int;
                let l = old(self).len@;
                let n = old(self).den as int;
                let k = old(self).steps@;
                match r {
                    Some(iv) => {
                        &&& l >= n && 0 <= k < n
                        &&& iv.0 == subdiv_point(s, l, n, k)
                        &&& iv.1 == subdiv_point(s, l, n, k + 1)
                        &&& iv.0 < iv.1
                        &&& s <= iv.0 && iv.1 <= s + l
                        &&& final(self).steps@ == k + 1
                    },
                    None => {
                        &&& (l < n || k == n)
                        &&& final(self).steps@ == k
                    },
                }
            }),
    {
        let ghost s = self.start as int;
        let ghost l = self.len@;
        let ghost n = self.den as int;
        let ghost k = self.steps@;
        if self.pos >= self.end {
            proof {
                if l >= n && k < n {
                    lemma_subdiv_point_props(s, l, n, k);
                }
            }
            return None;
        }
        proof {
            if l >= n && k == n {
                vstd::arithmetic::div_mod::lemma_fundamental_div_mod(l, n);
                assert(n * (l % n) == (l % n) * n) by (nonlinear_arith);
                vstd::arithmetic::div_mod::lemma_div_multiples_vanish(l % n, n);
                assert(n * (l / n) == (l / n) * n) by (nonlinear_arith);
                assert(subdiv_point(s, l, n, n) == s + l);
            }
            assert(l >= n && 0 <= k < n);
            lemma_subdiv_point_props(s, l, n, k);
            lemma_subdiv_step(l, n, k);
            assert((k + 1) * (l / n) == k * (l / n) + l / n) by (nonlinear_arith);
            vstd::arithmetic::div_mod::lemma_div_is_ordered(n, l, n);
            vstd::arithmetic::div_mod::lemma_div_by_self(n);
            vstd::arithmetic::mul::lemma_mul_inequality(1, l / n, n);
            assert(n * (l / n) == (l / n) * n) by (nonlinear_arith);
            vstd::arithmetic::div_mod::lemma_fundamental_div_mod(l, n);
        }
        let from = self.pos;
        self.pos = self.pos + self.decimal_step;
        self.num = self.num + self.frac_step;
        if self.num >= self.den {
            self.num = self.num - self.den;
            self.pos = self.pos + 1;
        }
        proof {
            self.steps@ = k + 1;
        }
        Some((from, self.pos))
    }
}

/// An iterator that divides a range into `n` chunks of as even lengths
/// as possible: each chunk it yields is nonempty, consecutive chunks are
/// exactly adjacent, and when the range has at least `n` elements the
/// union of the `n` chunks is the whole range.  A range shorter than `n`
/// yields nothing.
pub struct Subdivide {
    range: Range<Unknown>,
    fs: FracStep,
}

impl Copy for FracStep {

}

impl Clone for FracStep {
    fn clone(&self) -> (r: Self)
        ensures
            r == *self,
    {
        *self
    }
}

impl Copy for Subdivide {

}

impl Clone for Subdivide {
    fn clone(&self) -> (r: Self)
        ensures
            r == *self,
    {
        *self
    }
}

impl Subdivide {
    /// The range being subdivided.
    pub closed spec fn orig_spec(self) -> Range<Unknown> {
        self.range
    }

    /// The requested number of chunks.
    pub closed spec fn divisor_spec(self) -> usize {
        self.fs.den
    }

    /// How many chunks have been yielded so far.
    pub closed spec fn steps_spec(self) -> int {
        self.fs.steps@
    }

    /// The iterator's internal consistency.
    pub closed spec fn wf(self) -> bool {
        &&& self.fs.wf()
        &&& self.range.wf()
        &&& self.fs.start == self.range.start_spec()
        &&& self.fs.len@ == self.range.len_spec()
    }

    /// Yield the next chunk, or `None` when the subdivision is finished.
    pub fn next(&mut self) -> (r: Option<Range<NonEmpty>>)
        requires
            old(self).wf(),
        ensures
            final(self).wf(),
            final(self).orig_spec() == old(self).orig_spec(),
            final(self).divisor_spec() == old(self).divisor_spec(),
            ({
                let rng = old(self).orig_spec();
                let s = rng.start_spec() as int;
                let l = rng.len_spec();
                let n = old(self).divisor_spec() as int;
                let k = old(self).steps_spec();
                match r {
                    Some(part) => {
                        &&& l >= n && 0 <= k < n
                        &&& part.start_spec() == subdiv_point(s, l, n, k)
                        &&& part.end_spec() == subdiv_point(s, l, n, k + 1)
                        &&& part.start_spec() < part.end_spec()
                        &&& rng.start_spec() <= part.start_spec()
                        &&& part.end_spec() <= rng.end_spec()
                        &&& part.brand() == rng.brand()
                        &&& part.wf()
                        &&& final(self).steps_spec() == k + 1
                    },
                    None => {
                        &&& (l < n || k == n)
                        &&& final(self).steps_spec() == k
                    },
                }
            }),
    {
        let r = self.fs.next();
        match r {
            Some((a, b)) => Some(Range::make(a, b, Ghost(self.range.brand()))),
            None => None,
        }
    }
}

impl<P: ProofType> Range<P> {
    /// Return an iterator that divides the range into `n` chunks of as
    /// even lengths as possible.  Requesting zero chunks is a programmer
    /// error.
    pub fn subdivide(&self, n: usize) -> (it: Subdivide)
        requires
            self.wf(),
            n >= 1,
        ensures
            it.wf(),
            it.orig_spec().start_spec() == self.start_spec(),
            it.orig_spec().end_spec() == self.end_spec(),
            it.orig_spec().brand() == self.brand(),
            it.divisor_spec() == n,
            it.steps_spec() == 0,
    {
        let range = self.no_proof();
        Subdivide { range, fs: FracStep::new(self.start(), self.end(), n) }
    }
}

/// The relation that `join` establishes: `[sa, ea)` and `[sb, eb)` are
/// exactly adjacent and concatenate to `[s, e)`.
pub open spec fn joins_to(sa: int, ea: int, sb: int, eb: int, s: int, e: int) -> bool {
    ea == sb && s == sa && e == eb
}

/// Law: the two halves produced by `split_in_half` are exactly adjacent,
/// so `join` accepts them and reassembles precisely the original
/// interval.
pub proof fn lemma_split_in_half_rejoins<P: ProofType>(r: Range<P>)
    requires
        r.wf(),
    ensures
        r.start_spec() <= r.split_point() <= r.end_spec(),
        joins_to(
            r.start_spec() as int,
            r.split_point(),
            r.split_point(),
            r.end_spec() as int,
            r.start_spec() as int,
            r.end_spec() as int,
        ),
{
}

/// Law: the complements of a dereferenceable index `i` in a container of
/// length `len` — the range `[0, i)` before it and the range
/// `[i + 1, len)` after it — are both empty exactly when `len == 1`.
/// The two complements are never exactly adjacent (the index itself lies
/// between them), so `join` refuses the pair for every `len` and `i`.
pub proof fn lemma_before_after_empty_iff_single(len: int, i: int)
    requires
        0 <= i < len,
    ensures
        (i == 0 && i + 1 == len) <==> len == 1,
        forall|e: int| !(#[trigger] joins_to(0, i, i + 1, len, 0, e)),
{
}

} // verus!
