//! Pointer-flavoured particles: positions carried as element distances
//! from the container's base.
//!
//! These mirror `Index` and `Range` with the same proof discipline, but
//! model the raw-address particles of a contiguous buffer: a `PIndex` is
//! the distance of one position from the base, a `PRange` a pair of such
//! distances (the end-delimited representation), and a `PSlice` a start
//! distance plus a length (the length-delimited representation).  The
//! two range representations denote the same abstract interval and
//! convert freely.  Pointer and index particles are deliberately not
//! interchangeable: only the container converts between them, on demand.
//!
//! Pointer particles are minted only by a container in the default,
//! pointer-capable mode; the growing `OnlyIndex` mode has none, since
//! growth may move the buffer.

use core::marker::PhantomData;
use vstd::prelude::*;

use crate::base::{NonEmpty, ProofType, Provable, Unknown};
use crate::container::{rotate1_up_seq, swap_seq, Container};
use crate::index_error::{index_error, IndexingError};
use crate::indexing::{Index, Range};

verus! {

/// A branded position in a contiguous buffer, carried as the element
/// distance from the base.  With a `NonEmpty` marker it refers to a
/// valid element; with `Unknown` it may be the one-past-the-end
/// position.
#[verifier::reject_recursive_types(P)]
pub struct PIndex<P: ProofType = NonEmpty> {
    offset: usize,
    brand: Ghost<int>,
    mark: PhantomData<P>,
}

impl<P: ProofType> Copy for PIndex<P> {

}

impl<P: ProofType> Clone for PIndex<P> {
    fn clone(&self) -> (r: Self)
        ensures
            r == *self,
    {
        *self
    }
}

impl<P: ProofType> PartialEq for PIndex<P> {
    /// Equality compares positions only.
    fn eq(&self, other: &PIndex<P>) -> (r: bool) {
        self.offset == other.offset
    }
}

impl<P: ProofType> vstd::std_specs::cmp::PartialEqSpecImpl for PIndex<P> {
    open spec fn obeys_eq_spec() -> bool {
        true
    }

    open spec fn eq_spec(&self, other: &PIndex<P>) -> bool {
        self.offset_spec() == other.offset_spec()
    }
}

impl<P: ProofType> Provable for PIndex<P> {
    type WithoutProof = PIndex<Unknown>;

    open spec fn strips_to(self, r: PIndex<Unknown>) -> bool {
        r.offset_spec() == self.offset_spec() && r.brand() == self.brand()
    }

    fn no_proof(self) -> (r: PIndex<Unknown>) {
        PIndex { offset: self.offset, brand: self.brand, mark: PhantomData }
    }
}

impl<P: ProofType> PIndex<P> {
    /// The distance from the container's base, at the specification
    /// level.
    pub closed spec fn offset_spec(self) -> usize {
        self.offset
    }

    /// The brand of the scope this position was minted in.
    pub closed spec fn brand(self) -> int {
        self.brand@
    }

    pub(crate) fn new(offset: usize, Ghost(brand): Ghost<int>) -> (r: PIndex<P>)
        ensures
            r.offset_spec() == offset,
            r.brand() == brand,
    {
        PIndex { offset, brand: Ghost(brand), mark: PhantomData }
    }

    /// Read the position as an element distance from the base.
    pub fn offset(&self) -> (r: usize)
        ensures
            r == self.offset_spec(),
    {
        self.offset
    }
}

impl PIndex<NonEmpty> {
    /// The position directly after, which may be the edge.
    pub fn after(self) -> (r: PIndex<Unknown>)
        requires
            self.offset_spec() < usize::MAX,
        ensures
            r.offset_spec() == self.offset_spec() + 1,
            r.brand() == self.brand(),
    {
        PIndex::new(self.offset + 1, Ghost(self.brand@))
    }
}

/// A branded interval of positions in end-delimited representation: a
/// start distance and an end distance.
#[verifier::reject_recursive_types(P)]
pub struct PRange<P: ProofType = Unknown> {
    start: usize,
    end: usize,
    brand: Ghost<int>,
    mark: PhantomData<P>,
}

impl<P: ProofType> Copy for PRange<P> {

}

impl<P: ProofType> Clone for PRange<P> {
    fn clone(&self) -> (r: Self)
        ensures
            r == *self,
    {
        *self
    }
}

impl<P: ProofType> PartialEq for PRange<P> {
    /// Equality compares the two endpoints.
    fn eq(&self, other: &PRange<P>) -> (r: bool) {
        self.start == other.start && self.end == other.end
    }
}

impl<P: ProofType> vstd::std_specs::cmp::PartialEqSpecImpl for PRange<P> {
    open spec fn obeys_eq_spec() -> bool {
        true
    }

    open spec fn eq_spec(&self, other: &PRange<P>) -> bool {
        self.start_spec() == other.start_spec() && self.end_spec() == other.end_spec()
    }
}

impl<P: ProofType> Provable for PRange<P> {
    type WithoutProof = PRange<Unknown>;

    open spec fn strips_to(self, r: PRange<Unknown>) -> bool {
        r.start_spec() == self.start_spec() && r.end_spec() == self.end_spec() && r.brand()
            == self.brand()
    }

    fn no_proof(self) -> (r: PRange<Unknown>) {
        PRange { start: self.start, end: self.end, brand: self.brand, mark: PhantomData }
    }
}

impl<P: ProofType> PRange<P> {
    /// The start position, at the specification level.
    pub closed spec fn start_spec(self) -> usize {
        self.start
    }

    /// The end position, at the specification level.
    pub closed spec fn end_spec(self) -> usize {
        self.end
    }

    /// The brand of the scope this interval was minted in.
    pub closed spec fn brand(self) -> int {
        self.brand@
    }

    /// The number of positions in the interval.
    pub open spec fn len_spec(self) -> int {
        self.end_spec() - self.start_spec()
    }

    /// Well-formedness: ordered, strictly so under a `NonEmpty` marker.
    pub open spec fn wf(self) -> bool {
        &&& self.start_spec() <= self.end_spec()
        &&& P::is_nonempty() ==> self.start_spec() < self.end_spec()
    }

    pub(crate) fn make(start: usize, end: usize, Ghost(brand): Ghost<int>) -> (r: PRange<P>)
        requires
            start <= end,
            P::is_nonempty() ==> start < end,
        ensures
            r.start_spec() == start,
            r.end_spec() == end,
            r.brand() == brand,
            r.wf(),
    {
        PRange { start, end, brand: Ghost(brand), mark: PhantomData }
    }

    /// Return the length of the interval.
    pub fn len(&self) -> (r: usize)
        requires
            self.wf(),
        ensures
            r == self.len_spec(),
    {
        self.end - self.start
    }

    /// Return the start distance.
    pub fn start(&self) -> (r: usize)
        ensures
            r == self.start_spec(),
    {
        self.start
    }

    /// Return the end distance.
    pub fn end(&self) -> (r: usize)
        ensures
            r == self.end_spec(),
    {
        self.end
    }

    /// Return `true` if the interval is empty.
    pub fn is_empty(&self) -> (r: bool)
        ensures
            r == (self.start_spec() == self.end_spec()),
    {
        self.start == self.end
    }

    /// Try to create a proof that the interval is nonempty.
    pub fn nonempty(&self) -> (r: Result<PRange<NonEmpty>, IndexingError>)
        requires
            self.wf(),
        ensures
            match r {
                Ok(ne) => {
                    &&& self.start_spec() < self.end_spec()
                    &&& ne.start_spec() == self.start_spec()
                    &&& ne.end_spec() == self.end_spec()
                    &&& ne.brand() == self.brand()
                    &&& ne.wf()
                },
                Err(_) => self.start_spec() == self.end_spec(),
            },
    {
        if self.start < self.end {
            Ok(PRange::make(self.start, self.end, Ghost(self.brand@)))
        } else {
            Err(index_error())
        }
    }

    /// The position where `split_in_half` parts the interval.
    pub open spec fn split_point(self) -> int {
        self.start_spec() + self.len_spec() / 2
    }

    /// Split in half, the upper middle landing in the latter half, which
    /// inherits the proof of nonemptiness.
    pub fn split_in_half(self) -> (r: (PRange<Unknown>, PRange<P>))
        requires
            self.wf(),
        ensures
            r.0.start_spec() == self.start_spec(),
            r.0.end_spec() == self.split_point(),
            r.1.start_spec() == self.split_point(),
            r.1.end_spec() == self.end_spec(),
            r.0.brand() == self.brand(),
            r.1.brand() == self.brand(),
            r.0.wf(),
            r.1.wf(),
    {
        let mid = (self.end - self.start) / 2 + self.start;
        (
            PRange::make(self.start, mid, Ghost(self.brand@)),
            PRange::make(mid, self.end, Ghost(self.brand@)),
        )
    }

    /// The first position; dereferenceable exactly when the interval is
    /// known nonempty.
    pub fn first(self) -> (i: PIndex<P>)
        requires
            self.wf(),
        ensures
            i.offset_spec() == self.start_spec(),
            i.brand() == self.brand(),
    {
        PIndex::new(self.start, Ghost(self.brand@))
    }

    /// The middle position, rounding up.
    pub fn upper_middle(self) -> (i: PIndex<P>)
        requires
            self.wf(),
        ensures
            i.offset_spec() == self.split_point(),
            i.brand() == self.brand(),
    {
        let mid = (self.end - self.start) / 2 + self.start;
        PIndex::new(mid, Ghost(self.brand@))
    }

    /// The position one past the end of the interval.
    pub fn past_the_end(self) -> (i: PIndex<Unknown>)
        ensures
            i.offset_spec() == self.end_spec(),
            i.brand() == self.brand(),
    {
        PIndex::new(self.end, Ghost(self.brand@))
    }

    /// The same interval in length-delimited representation.
    pub fn as_pslice(self) -> (s: PSlice<P>)
        requires
            self.wf(),
        ensures
            s.start_spec() == self.start_spec(),
            s.past_end_spec() == self.end_spec(),
            s.brand() == self.brand(),
            s.wf(),
    {
        PSlice {
            start: self.start,
            len: self.end - self.start,
            brand: self.brand,
            mark: PhantomData,
        }
    }

    /// Iterate over the dereferenceable positions of the interval.
    pub fn iter(self) -> (it: PRangeIter)
        requires
            self.wf(),
        ensures
            it.start_spec() == self.start_spec(),
            it.end_spec() == self.end_spec(),
            it.brand() == self.brand(),
            it.wf(),
    {
        PRangeIter { start: self.start, end: self.end, brand: self.brand }
    }
}

impl PRange<NonEmpty> {
    /// The last dereferenceable position.
    pub fn last(self) -> (i: PIndex<NonEmpty>)
        requires
            self.wf(),
        ensures
            i.offset_spec() == self.end_spec() - 1,
            i.brand() == self.brand(),
    {
        PIndex::new(self.end - 1, Ghost(self.brand@))
    }

    /// Everything but the first position.
    pub fn tail(self) -> (r: PRange<Unknown>)
        requires
            self.wf(),
        ensures
            r.start_spec() == self.start_spec() + 1,
            r.end_spec() == self.end_spec(),
            r.brand() == self.brand(),
            r.wf(),
    {
        PRange::make(self.start + 1, self.end, Ghost(self.brand@))
    }

    /// Everything but the last position.
    pub fn init(self) -> (r: PRange<Unknown>)
        requires
            self.wf(),
        ensures
            r.start_spec() == self.start_spec(),
            r.end_spec() == self.end_spec() - 1,
            r.brand() == self.brand(),
            r.wf(),
    {
        PRange::make(self.start, self.end - 1, Ghost(self.brand@))
    }

    /// Increase the start if the interval stays nonempty; report whether
    /// it moved.
    pub fn advance(&mut self) -> (moved: bool)
        requires
            old(self).wf(),
        ensures
            moved == (old(self).start_spec() + 1 < old(self).end_spec()),
            moved ==> final(self).start_spec() == old(self).start_spec() + 1,
            !moved ==> final(self).start_spec() == old(self).start_spec(),
            final(self).end_spec() == old(self).end_spec(),
            final(self).brand() == old(self).brand(),
            final(self).wf(),
    {
        if self.start + 1 < self.end {
            self.start = self.start + 1;
            true
        } else {
            false
        }
    }

    /// Decrease the end if the interval stays nonempty; report whether
    /// it moved.
    pub fn advance_back(&mut self) -> (moved: bool)
        requires
            old(self).wf(),
        ensures
            moved == (old(self).start_spec() < old(self).end_spec() - 1),
            moved ==> final(self).end_spec() == old(self).end_spec() - 1,
            !moved ==> final(self).end_spec() == old(self).end_spec(),
            final(self).start_spec() == old(self).start_spec(),
            final(self).brand() == old(self).brand(),
            final(self).wf(),
    {
        if self.start < self.end - 1 {
            self.end = self.end - 1;
            true
        } else {
            false
        }
    }
}

/// An iterator over the dereferenceable positions of a `PRange`.
pub struct PRangeIter {
    start: usize,
    end: usize,
    brand: Ghost<int>,
}

impl Copy for PRangeIter {

}

impl Clone for PRangeIter {
    fn clone(&self) -> (r: Self)
        ensures
            r == *self,
    {
        *self
    }
}

impl PRangeIter {
    /// The next position to be yielded from the front.
    pub closed spec fn start_spec(self) -> usize {
        self.start
    }

    /// One past the last position to be yielded from the back.
    pub closed spec fn end_spec(self) -> usize {
        self.end
    }

    /// The brand of the interval being iterated.
    pub closed spec fn brand(self) -> int {
        self.brand@
    }

    /// The interval still to be yielded is ordered.
    pub open spec fn wf(self) -> bool {
        self.start_spec() <= self.end_spec()
    }

    /// Yield the next position from the front, or `None` when exhausted.
    pub fn next(&mut self) -> (r: Option<PIndex<NonEmpty>>)
        requires
            old(self).wf(),
        ensures
            final(self).end_spec() == old(self).end_spec(),
            final(self).brand() == old(self).brand(),
            final(self).wf(),
            match r {
                Some(i) => {
                    &&& old(self).start_spec() < old(self).end_spec()
                    &&& i.offset_spec() == old(self).start_spec()
                    &&& i.brand() == old(self).brand()
                    &&& final(self).start_spec() == old(self).start_spec() + 1
                },
                None => {
                    &&& old(self).start_spec() == old(self).end_spec()
                    &&& final(self).start_spec() == old(self).start_spec()
                },
            },
    {
        if self.start < self.end {
            let index = self.start;
            self.start = self.start + 1;
            Some(PIndex::new(index, Ghost(self.brand@)))
        } else {
            None
        }
    }

    /// Yield the next position from the back, or `None` when exhausted.
    pub fn next_back(&mut self) -> (r: Option<PIndex<NonEmpty>>)
        requires
            old(self).wf(),
        ensures
            final(self).start_spec() == old(self).start_spec(),
            final(self).brand() == old(self).brand(),
            final(self).wf(),
            match r {
                Some(i) => {
                    &&& old(self).start_spec() < old(self).end_spec()
                    &&& i.offset_spec() == old(self).end_spec() - 1
                    &&& i.brand() == old(self).brand()
                    &&& final(self).end_spec() == old(self).end_spec() - 1
                },
                None => {
                    &&& old(self).start_spec() == old(self).end_spec()
                    &&& final(self).end_spec() == old(self).end_spec()
                },
            },
    {
        if self.start < self.end {
            self.end = self.end - 1;
            Some(PIndex::new(self.end, Ghost(self.brand@)))
        } else {
            None
        }
    }
}

/// A branded interval of positions in length-delimited representation:
/// a start distance and a length.
#[verifier::reject_recursive_types(P)]
pub struct PSlice<P: ProofType = Unknown> {
    start: usize,
    len: usize,
    brand: Ghost<int>,
    mark: PhantomData<P>,
}

impl<P: ProofType> Copy for PSlice<P> {

}

impl<P: ProofType> Clone for PSlice<P> {
    fn clone(&self) -> (r: Self)
        ensures
            r == *self,
    {
        *self
    }
}

impl<P: ProofType> PartialEq for PSlice<P> {
    /// Equality compares start and length.
    fn eq(&self, other: &PSlice<P>) -> (r: bool) {
        self.start == other.start && self.len == other.len
    }
}

impl<P: ProofType> vstd::std_specs::cmp::PartialEqSpecImpl for PSlice<P> {
    open spec fn obeys_eq_spec() -> bool {
        true
    }

    open spec fn eq_spec(&self, other: &PSlice<P>) -> bool {
        self.start_spec() == other.start_spec() && self.len_spec() == other.len_spec()
    }
}

impl<P: ProofType> Provable for PSlice<P> {
    type WithoutProof = PSlice<Unknown>;

    open spec fn strips_to(self, r: PSlice<Unknown>) -> bool {
        r.start_spec() == self.start_spec() && r.len_spec() == self.len_spec() && r.brand()
            == self.brand()
    }

    fn no_proof(self) -> (r: PSlice<Unknown>) {
        PSlice { start: self.start, len: self.len, brand: self.brand, mark: PhantomData }
    }
}

impl<P: ProofType> PSlice<P> {
    /// The start position, at the specification level.
    pub closed spec fn start_spec(self) -> usize {
        self.start
    }

    /// The length, at the specification level.
    pub closed spec fn len_spec(self) -> usize {
        self.len
    }

    /// The position one past the interval.
    pub open spec fn past_end_spec(self) -> int {
        self.start_spec() + self.len_spec()
    }

    /// The brand of the scope this interval was minted in.
    pub closed spec fn brand(self) -> int {
        self.brand@
    }

    /// Well-formedness: the interval fits the address space, and is
    /// strictly nonempty under a `NonEmpty` marker.
    pub open spec fn wf(self) -> bool {
        &&& self.past_end_spec() <= usize::MAX
        &&& P::is_nonempty() ==> self.len_spec() > 0
    }

    pub(crate) fn make(start: usize, len: usize, Ghost(brand): Ghost<int>) -> (r: PSlice<P>)
        requires
            start + len <= usize::MAX,
            P::is_nonempty() ==> len > 0,
        ensures
            r.start_spec() == start,
            r.len_spec() == len,
            r.brand() == brand,
            r.wf(),
    {
        PSlice { start, len, brand: Ghost(brand), mark: PhantomData }
    }

    /// Return the length of the interval.
    pub fn len(&self) -> (r: usize)
        ensures
            r == self.len_spec(),
    {
        self.len
    }

    /// Return `true` if the interval is empty.
    pub fn is_empty(&self) -> (r: bool)
        ensures
            r == (self.len_spec() == 0),
    {
        self.len == 0
    }

    /// Try to create a proof that the interval is nonempty.
    pub fn nonempty(&self) -> (r: Result<PSlice<NonEmpty>, IndexingError>)
        requires
            self.wf(),
        ensures
            match r {
                Ok(ne) => {
                    &&& self.len_spec() > 0
                    &&& ne.start_spec() == self.start_spec()
                    &&& ne.len_spec() == self.len_spec()
                    &&& ne.brand() == self.brand()
                    &&& ne.wf()
                },
                Err(_) => self.len_spec() == 0,
            },
    {
        if self.len > 0 {
            Ok(PSlice::make(self.start, self.len, Ghost(self.brand@)))
        } else {
            Err(index_error())
        }
    }

    /// Split in half, the upper middle landing in the latter half, which
    /// inherits the proof of nonemptiness.
    pub fn split_in_half(self) -> (r: (PSlice<Unknown>, PSlice<P>))
        requires
            self.wf(),
        ensures
            r.0.start_spec() == self.start_spec(),
            r.0.len_spec() == self.len_spec() / 2,
            r.1.start_spec() == self.start_spec() + self.len_spec() / 2,
            r.1.len_spec() == self.len_spec() - self.len_spec() / 2,
            r.0.brand() == self.brand(),
            r.1.brand() == self.brand(),
            r.0.wf(),
            r.1.wf(),
    {
        let mid_offset = self.len / 2;
        (
            PSlice::make(self.start, mid_offset, Ghost(self.brand@)),
            PSlice::make(self.start + mid_offset, self.len - mid_offset, Ghost(self.brand@)),
        )
    }

    /// The first position; dereferenceable exactly when the interval is
    /// known nonempty.
    pub fn first(self) -> (i: PIndex<P>)
        ensures
            i.offset_spec() == self.start_spec(),
            i.brand() == self.brand(),
    {
        PIndex::new(self.start, Ghost(self.brand@))
    }

    /// The middle position, rounding up.
    pub fn upper_middle(self) -> (i: PIndex<P>)
        requires
            self.wf(),
        ensures
            i.offset_spec() == self.start_spec() + self.len_spec() / 2,
            i.brand() == self.brand(),
    {
        PIndex::new(self.start + self.len / 2, Ghost(self.brand@))
    }

    /// The position one past the end of the interval.
    pub fn past_the_end(self) -> (i: PIndex<Unknown>)
        requires
            self.wf(),
        ensures
            i.offset_spec() == self.past_end_spec(),
            i.brand() == self.brand(),
    {
        PIndex::new(self.start + self.len, Ghost(self.brand@))
    }

    /// The same interval in end-delimited representation.
    pub fn as_prange(self) -> (r: PRange<P>)
        requires
            self.wf(),
        ensures
            r.start_spec() == self.start_spec(),
            r.end_spec() == self.past_end_spec(),
            r.brand() == self.brand(),
            r.wf(),
    {
        PRange::make(self.start, self.start + self.len, Ghost(self.brand@))
    }
}

impl PSlice<NonEmpty> {
    /// The last dereferenceable position.
    pub fn last(self) -> (i: PIndex<NonEmpty>)
        requires
            self.wf(),
        ensures
            i.offset_spec() == self.past_end_spec() - 1,
            i.brand() == self.brand(),
    {
        PIndex::new(self.start + self.len - 1, Ghost(self.brand@))
    }

    /// Everything but the first position.
    pub fn tail(self) -> (r: PSlice<Unknown>)
        requires
            self.wf(),
        ensures
            r.start_spec() == self.start_spec() + 1,
            r.len_spec() == self.len_spec() - 1,
            r.brand() == self.brand(),
            r.wf(),
    {
        PSlice::make(self.start + 1, self.len - 1, Ghost(self.brand@))
    }

    /// Everything but the last position.
    pub fn init(self) -> (r: PSlice<Unknown>)
        requires
            self.wf(),
        ensures
            r.start_spec() == self.start_spec(),
            r.len_spec() == self.len_spec() - 1,
            r.brand() == self.brand(),
            r.wf(),
    {
        PSlice::make(self.start, self.len - 1, Ghost(self.brand@))
    }

    /// Increase the start if the interval stays nonempty; report whether
    /// it moved.
    pub fn advance(&mut self) -> (moved: bool)
        requires
            old(self).wf(),
        ensures
            moved == (old(self).len_spec() > 1),
            moved ==> final(self).start_spec() == old(self).start_spec() + 1,
            moved ==> final(self).len_spec() == old(self).len_spec() - 1,
            !moved ==> *final(self) == *old(self),
            final(self).brand() == old(self).brand(),
            final(self).wf(),
    {
        if self.len > 1 {
            self.start = self.start + 1;
            self.len = self.len - 1;
            true
        } else {
            false
        }
    }

    /// Decrease the length if the interval stays nonempty; report
    /// whether it moved.
    pub fn advance_back(&mut self) -> (moved: bool)
        requires
            old(self).wf(),
        ensures
            moved == (old(self).len_spec() > 1),
            moved ==> final(self).len_spec() == old(self).len_spec() - 1,
            !moved ==> final(self).len_spec() == old(self).len_spec(),
            final(self).start_spec() == old(self).start_spec(),
            final(self).brand() == old(self).brand(),
            final(self).wf(),
    {
        if self.len > 1 {
            self.len = self.len - 1;
            true
        } else {
            false
        }
    }
}

impl<T> Container<T, ()> {
    /// A pointer particle is valid for this container under the same
    /// conditions as an index particle: same brand, within the length.
    pub open spec fn valid_pindex<P: ProofType>(&self, i: PIndex<P>) -> bool {
        &&& i.brand() == self.brand()
        &&& i.offset_spec() <= self@.len()
        &&& P::is_nonempty() ==> i.offset_spec() < self@.len()
    }

    /// A pointer range is valid under the same conditions as a range.
    pub open spec fn valid_prange<P: ProofType>(&self, r: PRange<P>) -> bool {
        &&& r.brand() == self.brand()
        &&& r.wf()
        &&& r.end_spec() <= self@.len()
    }

    /// A pointer slice is valid under the same conditions as a range.
    pub open spec fn valid_pslice<P: ProofType>(&self, s: PSlice<P>) -> bool {
        &&& s.brand() == self.brand()
        &&& s.wf()
        &&& s.past_end_spec() <= self@.len()
    }

    /// The full interval of the container as a pointer range.
    pub fn pointer_range(&self) -> (r: PRange<Unknown>)
        ensures
            r.start_spec() == 0,
            r.end_spec() == self@.len(),
            r.brand() == self.brand(),
            self.valid_prange(r),
    {
        PRange::make(0, self.len(), Ghost(self.brand()))
    }

    /// The full interval of the container as a pointer slice.
    pub fn pointer_slice(&self) -> (s: PSlice<Unknown>)
        ensures
            s.start_spec() == 0,
            s.len_spec() == self@.len(),
            s.brand() == self.brand(),
            self.valid_pslice(s),
    {
        PSlice::make(0, self.len(), Ghost(self.brand()))
    }

    /// The interval from the base up to (not including) `index`.
    pub fn pointer_range_to<P: ProofType>(&self, index: PIndex<P>) -> (r: PRange<Unknown>)
        requires
            self.valid_pindex(index),
        ensures
            r.start_spec() == 0,
            r.end_spec() == index.offset_spec(),
            r.brand() == self.brand(),
            self.valid_prange(r),
    {
        PRange::make(0, index.offset(), Ghost(self.brand()))
    }

    /// The interval from `index` to the end of the container.
    pub fn pointer_range_from<P: ProofType>(&self, index: PIndex<P>) -> (r: PRange<Unknown>)
        requires
            self.valid_pindex(index),
        ensures
            r.start_spec() == index.offset_spec(),
            r.end_spec() == self@.len(),
            r.brand() == self.brand(),
            self.valid_prange(r),
    {
        PRange::make(index.offset(), self.len(), Ghost(self.brand()))
    }

    /// The interval between two positions, if it is nonempty.
    pub fn nonempty_range<P: ProofType, Q: ProofType>(
        &self,
        a: PIndex<P>,
        b: PIndex<Q>,
    ) -> (r: Result<PRange<NonEmpty>, IndexingError>)
        requires
            self.valid_pindex(a),
            self.valid_pindex(b),
        ensures
            match r {
                Ok(ne) => {
                    &&& a.offset_spec() < b.offset_spec()
                    &&& ne.start_spec() == a.offset_spec()
                    &&& ne.end_spec() == b.offset_spec()
                    &&& ne.brand() == self.brand()
                    &&& self.valid_prange(ne)
                },
                Err(_) => a.offset_spec() >= b.offset_spec(),
            },
    {
        if a.offset() < b.offset() {
            Ok(PRange::make(a.offset(), b.offset(), Ghost(self.brand())))
        } else {
            Err(index_error())
        }
    }

    /// The distance (in elements) from the start of the container to the
    /// position.
    pub fn distance_to<P: ProofType>(&self, ptr: PIndex<P>) -> (d: usize)
        ensures
            d == ptr.offset_spec(),
    {
        ptr.offset()
    }

    /// Read the element a dereferenceable position refers to.
    pub fn at_ptr(&self, index: PIndex<NonEmpty>) -> (e: &T)
        requires
            self.valid_pindex(index),
        ensures
            *e == self@[index.offset_spec() as int],
    {
        let i: Index<NonEmpty> = Index::new(index.offset(), Ghost(self.brand()));
        self.at(i)
    }

    /// Borrow the subsequence a pointer range refers to.
    pub fn slice_prange<P: ProofType>(&self, r: PRange<P>) -> (s: &[T])
        requires
            self.valid_prange(r),
        ensures
            s@ == self@.subrange(r.start_spec() as int, r.end_spec() as int),
    {
        let q: Range<Unknown> = Range::make(r.start, r.end, Ghost(self.brand()));
        self.slice(q)
    }

    /// Borrow the subsequence a pointer slice refers to.
    pub fn slice_pslice<P: ProofType>(&self, r: PSlice<P>) -> (s: &[T])
        requires
            self.valid_pslice(r),
        ensures
            s@ == self@.subrange(r.start_spec() as int, r.past_end_spec()),
    {
        self.slice_prange(r.as_prange())
    }

    /// Split the container's interval at `index`: everything before it,
    /// and everything from it on; the latter inherits the proof marker.
    pub fn split_at_pointer<P: ProofType>(&self, index: PIndex<P>) -> (r: (
        PRange<Unknown>,
        PRange<P>,
    ))
        requires
            self.valid_pindex(index),
        ensures
            r.0.start_spec() == 0,
            r.0.end_spec() == index.offset_spec(),
            r.1.start_spec() == index.offset_spec(),
            r.1.end_spec() == self@.len(),
            r.0.brand() == self.brand(),
            r.1.brand() == self.brand(),
            self.valid_prange(r.0),
            self.valid_prange(r.1),
    {
        let n = self.len();
        (
            PRange::make(0, index.offset(), Ghost(self.brand())),
            PRange::make(index.offset(), n, Ghost(self.brand())),
        )
    }

    /// Swap the elements at two dereferenceable positions (they may be
    /// equal).
    pub fn swap_ptr(&mut self, i: PIndex<NonEmpty>, j: PIndex<NonEmpty>)
        requires
            old(self).valid_pindex(i),
            old(self).valid_pindex(j),
        ensures
            final(self)@ == swap_seq(old(self)@, i.offset_spec() as int, j.offset_spec() as int),
            final(self).brand() == old(self).brand(),
    {
        let a: Index<NonEmpty> = Index::new(i.offset(), Ghost(self.brand()));
        let b: Index<NonEmpty> = Index::new(j.offset(), Ghost(self.brand()));
        self.swap(a, b);
    }

    /// Rotate the elements of `r` one step towards higher positions (the
    /// last element wraps around to the front).
    pub fn rotate1_prange(&mut self, r: PRange<NonEmpty>)
        requires
            old(self).valid_prange(r),
        ensures
            final(self)@ == rotate1_up_seq(
                old(self)@,
                r.start_spec() as int,
                r.end_spec() as int,
            ),
            final(self).brand() == old(self).brand(),
    {
        let q: Range<NonEmpty> = Range::make(r.start, r.end, Ghost(self.brand()));
        self.rotate1_up(q);
    }

    /// Split the underlying buffer at a position into two sub-containers
    /// with fresh, independent brands, hand both (with their full
    /// pointer ranges) to the closure, and reassemble whatever the
    /// closure returns into this container; its brand — and so the
    /// validity of outstanding particles — is preserved whenever the
    /// closure hands back halves of the original lengths.
    pub fn split_container_at_pointer<P: ProofType, Out, F: FnOnce(
        Container<T>,
        PRange<Unknown>,
        Container<T>,
        PRange<Unknown>,
    ) -> (Container<T>, Container<T>, Out)>(&mut self, index: PIndex<P>, f: F) -> (r: Out)
        requires
            old(self).valid_pindex(index),
            forall|c1: Container<T>, r1: PRange<Unknown>, c2: Container<T>, r2: PRange<Unknown>|
                (c1@ == old(self)@.subrange(0, index.offset_spec() as int) && c2@ == old(
                    self,
                )@.subrange(index.offset_spec() as int, old(self)@.len() as int) && r1.start_spec()
                    == 0 && r1.end_spec() == c1@.len() && r1.brand() == c1.brand()
                    && r2.start_spec() == 0 && r2.end_spec() == c2@.len() && r2.brand()
                    == c2.brand()) ==> call_requires(f, (c1, r1, c2, r2)),
        ensures
            final(self).brand() == old(self).brand(),
            exists|
                c1: Container<T>,
                r1: PRange<Unknown>,
                c2: Container<T>,
                r2: PRange<Unknown>,
                d1: Container<T>,
                d2: Container<T>,
            |
                {
                    &&& c1@ == old(self)@.subrange(0, index.offset_spec() as int)
                    &&& c2@ == old(self)@.subrange(
                        index.offset_spec() as int,
                        old(self)@.len() as int,
                    )
                    &&& #[trigger] call_ensures(f, (c1, r1, c2, r2), (d1, d2, r))
                    &&& final(self)@ == d1@ + d2@
                },
    {
        let mid = index.offset();
        let mut left: Vec<T> = Vec::new();
        self.swap_data(&mut left);
        let right = left.split_off(mid);
        let c1 = Container::new(left);
        let c2 = Container::new(right);
        let r1 = c1.pointer_range();
        let r2 = c2.pointer_range();
        let (d1, d2, out) = f(c1, r1, c2, r2);
        let mut rebuilt = d1.into_inner();
        let mut tail = d2.into_inner();
        rebuilt.append(&mut tail);
        self.swap_data(&mut rebuilt);
        out
    }

    /// Scan backward from the dereferenceable position `index` while `f`
    /// accepts the elements before it; the returned interval always
    /// includes `index` itself.
    pub fn scan_tail_<F: Fn(&T) -> bool>(&self, index: PIndex<NonEmpty>, f: F) -> (r: PRange<
        NonEmpty,
    >)
        requires
            self.valid_pindex(index),
            forall|x: &T| call_requires(f, (x,)),
        ensures
            r.end_spec() == index.offset_spec() + 1,
            r.start_spec() <= index.offset_spec(),
            r.brand() == self.brand(),
            self.valid_prange(r),
            forall|k: int|
                r.start_spec() <= k < index.offset_spec() ==> call_ensures(f, (&self@[k],), true),
            r.start_spec() > 0 ==> call_ensures(f, (&self@[r.start_spec() - 1],), false),
    {
        let i: Index<NonEmpty> = Index::new(index.offset(), Ghost(self.brand()));
        let range = self.scan_from_rev(i, f);
        PRange::make(range.start(), range.end(), Ghost(self.brand()))
    }

    /// Scan `range` from its start while `f` accepts the elements;
    /// partition it into the accepted prefix and the remainder.
    pub fn scan_pointer_range<F: Fn(&T) -> bool, P: ProofType>(&self, range: PRange<P>, f: F) -> (r:
        (PRange<Unknown>, PRange<Unknown>))
        requires
            self.valid_prange(range),
            forall|x: &T| call_requires(f, (x,)),
        ensures
            r.0.start_spec() == range.start_spec(),
            r.0.end_spec() == r.1.start_spec(),
            r.1.end_spec() == range.end_spec(),
            r.0.brand() == self.brand(),
            r.1.brand() == self.brand(),
            self.valid_prange(r.0),
            self.valid_prange(r.1),
            forall|k: int|
                range.start_spec() <= k < r.0.end_spec() ==> call_ensures(f, (&self@[k],), true),
            r.0.end_spec() < range.end_spec() ==> call_ensures(
                f,
                (&self@[r.0.end_spec() as int],),
                false,
            ),
    {
        let q: Range<Unknown> = Range::make(range.start, range.end, Ghost(self.brand()));
        let (a, b) = self.scan_range(q, f);
        (
            PRange::make(a.start(), a.end(), Ghost(self.brand())),
            PRange::make(b.start(), b.end(), Ghost(self.brand())),
        )
    }

    /// Scan `range` from its end while `f` accepts the elements;
    /// partition it into the remainder and the accepted suffix.
    pub fn scan_pointer_range_rev<F: Fn(&T) -> bool, P: ProofType>(
        &self,
        range: PRange<P>,
        f: F,
    ) -> (r: (PRange<Unknown>, PRange<Unknown>))
        requires
            self.valid_prange(range),
            forall|x: &T| call_requires(f, (x,)),
        ensures
            r.0.start_spec() == range.start_spec(),
            r.0.end_spec() == r.1.start_spec(),
            r.1.end_spec() == range.end_spec(),
            r.0.brand() == self.brand(),
            r.1.brand() == self.brand(),
            self.valid_prange(r.0),
            self.valid_prange(r.1),
            forall|k: int|
                r.1.start_spec() <= k < range.end_spec() ==> call_ensures(f, (&self@[k],), true),
            range.start_spec() < r.1.start_spec() ==> call_ensures(
                f,
                (&self@[r.1.start_spec() - 1],),
                false,
            ),
    {
        let lo = range.start;
        let stop = range.end;
        let mut cut: usize = stop;
        loop
            invariant
                lo <= cut <= stop,
                stop <= self@.len(),
                forall|x: &T| call_requires(f, (x,)),
                forall|k: int| cut <= k < stop ==> call_ensures(f, (&self@[k],), true),
            ensures
                lo <= cut <= stop,
                forall|k: int| cut <= k < stop ==> call_ensures(f, (&self@[k],), true),
                lo < cut ==> call_ensures(f, (&self@[cut - 1],), false),
            decreases cut,
        {
            if cut == lo {
                break ;
            }
            let e = self.at_ptr(PIndex::new(cut - 1, Ghost(self.brand())));
            if !f(e) {
                break ;
            }
            cut = cut - 1;
        }
        (
            PRange::make(lo, cut, Ghost(self.brand())),
            PRange::make(cut, stop, Ghost(self.brand())),
        )
    }
}

} // verus!
