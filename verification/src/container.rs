//! The scoped container wrapper: the sole access path to the data.
//!
//! A `Container` owns a sequence and a brand.  It mints branded particles
//! (`vet`, `range`, the split operations) and redeems them for element
//! access (`at`, `at_mut`, `slice`) and mutation (`swap`, the rotations).
//! Every access method requires a particle that is *valid for this
//! container* — same brand, offsets within the length — so the verifier
//! discharges every bounds obligation statically; the particle operations
//! preserve validity, and the mutation methods preserve brand and length.
//!
//! The mode parameter `M` is a compile-time toggle: the default mode
//! leaves the full surface available, while `only_index` moves the
//! container into the `OnlyIndex` mode, which unlocks in-scope growth
//! (`push`, `insert`) and — because growth may reallocate the backing
//! buffer — gives up the pointer-particle surface.

use core::marker::PhantomData;
use vstd::prelude::*;

use crate::base::{NonEmpty, ProofType, Unknown};
use crate::index_error::{index_error, IndexingError};
use crate::indexing::{Index, Range};

verus! {

/// Mode marker for a container that permits growth and forbids pointer
/// particles.
#[derive(Clone, Copy)]
pub struct OnlyIndex;

/// A branded container: allows access only to particles carrying the
/// exact same brand.
#[verifier::reject_recursive_types(M)]
pub struct Container<T, M = ()> {
    data: Vec<T>,
    brand: Ghost<int>,
    mode: PhantomData<M>,
}

impl<T, M> View for Container<T, M> {
    type V = Seq<T>;

    closed spec fn view(&self) -> Seq<T> {
        self.data@
    }
}

/// `[start, end)` of `s` moved one step towards higher offsets, the
/// displaced last element wrapping around to `start`.
pub open spec fn rotate1_up_seq<T>(s: Seq<T>, start: int, end: int) -> Seq<T>
    recommends
        0 <= start < end <= s.len(),
{
    s.subrange(0, start) + seq![s[end - 1]] + s.subrange(start, end - 1) + s.subrange(
        end,
        s.len() as int,
    )
}

/// `[start, end)` of `s` moved one step towards lower offsets, the
/// displaced first element wrapping around to `end - 1`.
pub open spec fn rotate1_down_seq<T>(s: Seq<T>, start: int, end: int) -> Seq<T>
    recommends
        0 <= start < end <= s.len(),
{
    s.subrange(0, start) + s.subrange(start + 1, end) + seq![s[start]] + s.subrange(
        end,
        s.len() as int,
    )
}

/// `s` with the elements at `i` and `j` exchanged.
pub open spec fn swap_seq<T>(s: Seq<T>, i: int, j: int) -> Seq<T>
    recommends
        0 <= i < s.len(),
        0 <= j < s.len(),
{
    s.update(i, s[j]).update(j, s[i])
}

impl<T, M> Container<T, M> {
    /// The brand of this container's scope.
    pub closed spec fn brand(&self) -> int {
        self.brand@
    }

    /// An index is valid for this container when it carries the same
    /// brand and its offset is within the length observed at minting —
    /// strictly within it when the index claims to be dereferenceable.
    pub open spec fn valid_index<P: ProofType>(&self, i: Index<P>) -> bool {
        &&& i.brand() == self.brand()
        &&& i.index_spec() <= self@.len()
        &&& P::is_nonempty() ==> i.index_spec() < self@.len()
    }

    /// A range is valid for this container when it carries the same
    /// brand, is well formed, and ends within the length.
    pub open spec fn valid_range<P: ProofType>(&self, r: Range<P>) -> bool {
        &&& r.brand() == self.brand()
        &&& r.wf()
        &&& r.end_spec() <= self@.len()
    }

    /// Exchange the underlying storage with `other`, keeping the brand.
    pub(crate) fn swap_data(&mut self, other: &mut Vec<T>)
        ensures
            final(self)@ == old(other)@,
            final(other)@ == old(self)@,
            final(self).brand() == old(self).brand(),
    {
        core::mem::swap(&mut self.data, other);
    }

    /// Close the scope and hand back the data.
    pub fn into_inner(self) -> (data: Vec<T>)
        ensures
            data@ == self@,
    {
        self.data
    }

    /// The container's length.
    pub fn len(&self) -> (n: usize)
        ensures
            n == self@.len(),
    {
        self.data.len()
    }

    /// Return the empty range `[0, 0)`.
    pub fn empty_range(&self) -> (r: Range<Unknown>)
        ensures
            r.start_spec() == 0,
            r.end_spec() == 0,
            r.brand() == self.brand(),
            self.valid_range(r),
    {
        Range::make(0, 0, Ghost(self.brand@))
    }

    /// Return the full range of the container.
    pub fn range(&self) -> (r: Range<Unknown>)
        ensures
            r.start_spec() == 0,
            r.end_spec() == self@.len(),
            r.brand() == self.brand(),
            self.valid_range(r),
    {
        Range::make(0, self.data.len(), Ghost(self.brand@))
    }

    /// Vet the absolute offset `index`: a constant-time bounds check
    /// that succeeds exactly when `index` is strictly within the length.
    pub fn vet(&self, index: usize) -> (r: Result<Index<NonEmpty>, IndexingError>)
        ensures
            match r {
                Ok(i) => {
                    &&& index < self@.len()
                    &&& i.index_spec() == index
                    &&& i.brand() == self.brand()
                    &&& self.valid_index(i)
                },
                Err(_) => index >= self@.len(),
            },
    {
        if index < self.data.len() {
            Ok(Index::new(index, Ghost(self.brand@)))
        } else {
            Err(index_error())
        }
    }

    /// Vet the half-open interval `r`: succeeds exactly when it is
    /// ordered and ends within the length.
    pub fn vet_range(&self, r: core::ops::Range<usize>) -> (v: Result<
        Range<Unknown>,
        IndexingError,
    >)
        ensures
            match v {
                Ok(t) => {
                    &&& r.start <= r.end <= self@.len()
                    &&& t.start_spec() == r.start
                    &&& t.end_spec() == r.end
                    &&& t.brand() == self.brand()
                    &&& self.valid_range(t)
                },
                Err(_) => !(r.start <= r.end <= self@.len()),
            },
    {
        if r.start <= r.end && r.end <= self.data.len() {
            Ok(Range::make(r.start, r.end, Ghost(self.brand@)))
        } else {
            Err(index_error())
        }
    }

    /// Split at `index`: everything before it, and everything from it
    /// on.  The second range inherits the index's proof marker.
    pub fn split_at<P: ProofType>(&self, index: Index<P>) -> (r: (Range<Unknown>, Range<P>))
        requires
            self.valid_index(index),
        ensures
            r.0.start_spec() == 0,
            r.0.end_spec() == index.index_spec(),
            r.1.start_spec() == index.index_spec(),
            r.1.end_spec() == self@.len(),
            r.0.brand() == self.brand(),
            r.1.brand() == self.brand(),
            self.valid_range(r.0),
            self.valid_range(r.1),
    {
        (
            Range::make(0, index.integer(), Ghost(self.brand@)),
            Range::make(index.integer(), self.data.len(), Ghost(self.brand@)),
        )
    }

    /// Split in two ranges, where the first includes `index` and the
    /// second starts with the following offset.
    pub fn split_after(&self, index: Index<NonEmpty>) -> (r: (Range<NonEmpty>, Range<Unknown>))
        requires
            self.valid_index(index),
        ensures
            r.0.start_spec() == 0,
            r.0.end_spec() == index.index_spec() + 1,
            r.1.start_spec() == index.index_spec() + 1,
            r.1.end_spec() == self@.len(),
            r.0.brand() == self.brand(),
            r.1.brand() == self.brand(),
            self.valid_range(r.0),
            self.valid_range(r.1),
    {
        let n = self.data.len();
        let mid = index.integer() + 1;
        (
            Range::make(0, mid, Ghost(self.brand@)),
            Range::make(mid, n, Ghost(self.brand@)),
        )
    }

    /// Split around the range `r`: the two complements `[0, r.start)`
    /// and `[r.end, len)`, so that the three ranges cover the container
    /// in order.
    pub fn split_around<P: ProofType>(&self, r: Range<P>) -> (c: (Range<Unknown>, Range<Unknown>))
        requires
            self.valid_range(r),
        ensures
            c.0.start_spec() == 0,
            c.0.end_spec() == r.start_spec(),
            c.1.start_spec() == r.end_spec(),
            c.1.end_spec() == self@.len(),
            c.0.brand() == self.brand(),
            c.1.brand() == self.brand(),
            self.valid_range(c.0),
            self.valid_range(c.1),
    {
        (
            Range::make(0, r.start(), Ghost(self.brand@)),
            Range::make(r.end(), self.data.len(), Ghost(self.brand@)),
        )
    }

    /// The range before (not including) the index itself.
    pub fn before<P: ProofType>(&self, index: Index<P>) -> (r: Range<Unknown>)
        requires
            self.valid_index(index),
        ensures
            r.start_spec() == 0,
            r.end_spec() == index.index_spec(),
            r.brand() == self.brand(),
            self.valid_range(r),
    {
        Range::make(0, index.integer(), Ghost(self.brand@))
    }

    /// The range after (not including) the index itself.
    pub fn after(&self, index: Index<NonEmpty>) -> (r: Range<Unknown>)
        requires
            self.valid_index(index),
        ensures
            r.start_spec() == index.index_spec() + 1,
            r.end_spec() == self@.len(),
            r.brand() == self.brand(),
            self.valid_range(r),
    {
        let n = self.data.len();
        Range::make(index.integer() + 1, n, Ghost(self.brand@))
    }

    /// Increment `index` if doing so stays in bounds; report whether it
    /// moved.
    pub fn forward(&self, index: &mut Index<NonEmpty>) -> (moved: bool)
        requires
            self.valid_index(*old(index)),
        ensures
            final(index).brand() == old(index).brand(),
            moved == (old(index).index_spec() + 1 < self@.len()),
            moved ==> final(index).index_spec() == old(index).index_spec() + 1,
            !moved ==> final(index).index_spec() == old(index).index_spec(),
            self.valid_index(*final(index)),
    {
        let n = self.data.len();
        let i = index.integer() + 1;
        if i < n {
            *index = Index::new(i, Ghost(self.brand@));
            true
        } else {
            false
        }
    }

    /// Increment `index` by `offset` if doing so stays in bounds; report
    /// whether it moved.
    pub fn forward_by(&self, index: &mut Index<NonEmpty>, offset: usize) -> (moved: bool)
        requires
            self.valid_index(*old(index)),
            old(index).index_spec() + offset <= usize::MAX,
        ensures
            final(index).brand() == old(index).brand(),
            moved == (old(index).index_spec() + offset < self@.len()),
            moved ==> final(index).index_spec() == old(index).index_spec() + offset,
            !moved ==> final(index).index_spec() == old(index).index_spec(),
            self.valid_index(*final(index)),
    {
        let i = index.integer() + offset;
        if i < self.data.len() {
            *index = Index::new(i, Ghost(self.brand@));
            true
        } else {
            false
        }
    }

    /// Move the range `r` forward by `offset`, clamping both endpoints
    /// to the end of the container.
    pub fn forward_range_by<P: ProofType>(&self, r: Range<P>, offset: usize) -> (s: Range<Unknown>)
        requires
            self.valid_range(r),
        ensures
            s.start_spec() == vstd::math::min(self@.len() as int, r.start_spec() + offset),
            s.end_spec() == vstd::math::min(self@.len() as int, r.end_spec() + offset),
            s.brand() == self.brand(),
            self.valid_range(s),
    {
        let len = self.data.len();
        let start = if offset >= len || r.start() >= len - offset {
            len
        } else {
            r.start() + offset
        };
        let end = if offset >= len || r.end() >= len - offset {
            len
        } else {
            r.end() + offset
        };
        Range::make(start, end, Ghost(self.brand@))
    }

    /// Decrement `index` if possible; report whether it moved.
    pub fn backward(&self, index: &mut Index<NonEmpty>) -> (moved: bool)
        requires
            self.valid_index(*old(index)),
        ensures
            final(index).brand() == old(index).brand(),
            moved == (old(index).index_spec() > 0),
            moved ==> final(index).index_spec() == old(index).index_spec() - 1,
            !moved ==> final(index).index_spec() == old(index).index_spec(),
            self.valid_index(*final(index)),
    {
        let i = index.integer();
        if i > 0 {
            *index = Index::new(i - 1, Ghost(self.brand@));
            true
        } else {
            false
        }
    }

    /// Read the element a dereferenceable index refers to.  No runtime
    /// bounds check is needed: validity of the particle puts the offset
    /// strictly within the length.
    pub fn at(&self, index: Index<NonEmpty>) -> (e: &T)
        requires
            self.valid_index(index),
        ensures
            *e == self@[index.index_spec() as int],
    {
        &self.data[index.integer()]
    }

    /// Mutable counterpart of `at`.
    pub fn at_mut(&mut self, index: Index<NonEmpty>) -> (e: &mut T)
        requires
            old(self).valid_index(index),
        ensures
            *e == old(self)@[index.index_spec() as int],
            final(self)@ == old(self)@.update(index.index_spec() as int, *final(e)),
            final(self).brand() == old(self).brand(),
    {
        &mut self.data[index.integer()]
    }

    /// Borrow the subsequence a range refers to.
    pub fn slice<P: ProofType>(&self, r: Range<P>) -> (s: &[T])
        requires
            self.valid_range(r),
        ensures
            s@ == self@.subrange(r.start_spec() as int, r.end_spec() as int),
    {
        &self.data.as_slice()[r.start()..r.end()]
    }

    /// Borrow the subsequence from `index` (which may be the edge) on.
    pub fn slice_from<P: ProofType>(&self, index: Index<P>) -> (s: &[T])
        requires
            self.valid_index(index),
        ensures
            s@ == self@.subrange(index.index_spec() as int, self@.len() as int),
    {
        &self.data.as_slice()[index.integer()..self.data.len()]
    }

    /// Borrow the subsequence before `index` (which may be the edge).
    pub fn slice_to<P: ProofType>(&self, index: Index<P>) -> (s: &[T])
        requires
            self.valid_index(index),
        ensures
            s@ == self@.subrange(0, index.index_spec() as int),
    {
        &self.data.as_slice()[0..index.integer()]
    }

    /// Borrow the whole underlying sequence.
    pub fn as_slice(&self) -> (s: &[T])
        ensures
            s@ == self@,
    {
        self.data.as_slice()
    }

    /// Swap the elements at `i` and `j` (they may be equal).
    pub fn swap(&mut self, i: Index<NonEmpty>, j: Index<NonEmpty>)
        requires
            old(self).valid_index(i),
            old(self).valid_index(j),
        ensures
            final(self)@ == swap_seq(old(self)@, i.index_spec() as int, j.index_spec() as int),
            final(self).brand() == old(self).brand(),
    {
        let a = i.integer();
        let b = j.integer();
        if a == b {
            proof {
                assert(swap_seq(self@, a as int, b as int) =~= self@);
            }
            return ;
        }
        let (lo, hi) = if a < b {
            (a, b)
        } else {
            (b, a)
        };
        let ghost orig = self.data@;
        let s = self.data.as_mut_slice();
        let (left, right) = s.split_at_mut(hi);
        let (_, at_lo) = left.split_at_mut(lo);
        let x = at_lo.first_mut();
        let y = right.first_mut();
        match (x, y) {
            (Some(x), Some(y)) => {
                core::mem::swap(x, y);
            },
            _ => {
                proof {
                    assert(false);
                }
            },
        }
        proof {
            assert(self.data@ =~= swap_seq(orig, a as int, b as int));
        }
    }

    /// Rotate the elements of `r` one step towards higher offsets (the
    /// last element wraps around to the front).  A range with fewer than
    /// two elements is left unchanged.
    pub fn rotate1_up<P: ProofType>(&mut self, r: Range<P>)
        requires
            old(self).valid_range(r),
        ensures
            r.len_spec() >= 1 ==> final(self)@ == rotate1_up_seq(
                old(self)@,
                r.start_spec() as int,
                r.end_spec() as int,
            ),
            r.len_spec() == 0 ==> final(self)@ == old(self)@,
            final(self).brand() == old(self).brand(),
    {
        if r.start() < r.end() {
            let ghost orig = self.data@;
            let last = self.data.remove(r.end() - 1);
            self.data.insert(r.start(), last);
            proof {
                assert(self.data@ =~= rotate1_up_seq(
                    orig,
                    r.start_spec() as int,
                    r.end_spec() as int,
                ));
            }
        }
    }

    /// Rotate the elements of `r` one step towards lower offsets (the
    /// first element wraps around to the back).  A range with fewer than
    /// two elements is left unchanged.
    pub fn rotate1_down<P: ProofType>(&mut self, r: Range<P>)
        requires
            old(self).valid_range(r),
        ensures
            r.len_spec() >= 1 ==> final(self)@ == rotate1_down_seq(
                old(self)@,
                r.start_spec() as int,
                r.end_spec() as int,
            ),
            r.len_spec() == 0 ==> final(self)@ == old(self)@,
            final(self).brand() == old(self).brand(),
    {
        if r.start() < r.end() {
            let ghost orig = self.data@;
            let first = self.data.remove(r.start());
            self.data.insert(r.end() - 1, first);
            proof {
                assert(self.data@ =~= rotate1_down_seq(
                    orig,
                    r.start_spec() as int,
                    r.end_spec() as int,
                ));
            }
        }
    }

    /// Scan forward from `index` while `f` accepts the elements after
    /// it; the returned range always includes `index` itself.
    pub fn scan_from<F: Fn(&T) -> bool>(&self, index: Index<NonEmpty>, f: F) -> (r: Range<
        NonEmpty,
    >)
        requires
            self.valid_index(index),
            forall|x: &T| call_requires(f, (x,)),
        ensures
            r.start_spec() == index.index_spec(),
            index.index_spec() < r.end_spec() <= self@.len(),
            r.brand() == self.brand(),
            self.valid_range(r),
            forall|k: int|
                index.index_spec() < k < r.end_spec() ==> call_ensures(f, (&self@[k],), true),
            r.end_spec() < self@.len() ==> call_ensures(f, (&self@[r.end_spec() as int],), false),
    {
        let n = self.data.len();
        let start = index.integer();
        let mut end: usize = start + 1;
        loop
            invariant
                start < end <= n,
                n == self@.len(),
                forall|x: &T| call_requires(f, (x,)),
                forall|k: int| start < k < end ==> call_ensures(f, (&self@[k],), true),
            ensures
                start < end <= n,
                forall|k: int| start < k < end ==> call_ensures(f, (&self@[k],), true),
                end < n ==> call_ensures(f, (&self@[end as int],), false),
            decreases n - end,
        {
            if end >= n {
                break ;
            }
            let e = &self.data[end];
            if !f(e) {
                break ;
            }
            end = end + 1;
        }
        Range::make(start, end, Ghost(self.brand@))
    }

    /// Scan backward from `index` while `f` accepts the elements before
    /// it; the returned range always includes `index` itself.
    pub fn scan_from_rev<F: Fn(&T) -> bool>(&self, index: Index<NonEmpty>, f: F) -> (r: Range<
        NonEmpty,
    >)
        requires
            self.valid_index(index),
            forall|x: &T| call_requires(f, (x,)),
        ensures
            r.end_spec() == index.index_spec() + 1,
            r.start_spec() <= index.index_spec(),
            r.brand() == self.brand(),
            self.valid_range(r),
            forall|k: int|
                r.start_spec() <= k < index.index_spec() ==> call_ensures(f, (&self@[k],), true),
            r.start_spec() > 0 ==> call_ensures(f, (&self@[r.start_spec() - 1],), false),
    {
        let n = self.data.len();
        let top = index.integer();
        let mut start: usize = top;
        loop
            invariant
                start <= top,
                top < n == self@.len(),
                forall|x: &T| call_requires(f, (x,)),
                forall|k: int| start <= k < top ==> call_ensures(f, (&self@[k],), true),
            ensures
                start <= top,
                forall|k: int| start <= k < top ==> call_ensures(f, (&self@[k],), true),
                start > 0 ==> call_ensures(f, (&self@[start - 1],), false),
            decreases start,
        {
            if start == 0 {
                break ;
            }
            let e = &self.data[start - 1];
            if !f(e) {
                break ;
            }
            start = start - 1;
        }
        Range::make(start, top + 1, Ghost(self.brand@))
    }

    /// Scan `range` from its start while `f` accepts the elements;
    /// partition it into the accepted prefix and the remainder.
    pub fn scan_range<F: Fn(&T) -> bool, P: ProofType>(&self, range: Range<P>, f: F) -> (r: (
        Range<Unknown>,
        Range<Unknown>,
    ))
        requires
            self.valid_range(range),
            forall|x: &T| call_requires(f, (x,)),
        ensures
            r.0.start_spec() == range.start_spec(),
            r.0.end_spec() == r.1.start_spec(),
            r.1.end_spec() == range.end_spec(),
            r.0.brand() == self.brand(),
            r.1.brand() == self.brand(),
            self.valid_range(r.0),
            self.valid_range(r.1),
            forall|k: int|
                range.start_spec() <= k < r.0.end_spec() ==> call_ensures(f, (&self@[k],), true),
            r.0.end_spec() < range.end_spec() ==> call_ensures(
                f,
                (&self@[r.0.end_spec() as int],),
                false,
            ),
    {
        let stop = range.end();
        let lo = range.start();
        let mut end: usize = lo;
        loop
            invariant
                lo <= end <= stop,
                stop <= self@.len(),
                forall|x: &T| call_requires(f, (x,)),
                forall|k: int| lo <= k < end ==> call_ensures(f, (&self@[k],), true),
            ensures
                lo <= end <= stop,
                forall|k: int| lo <= k < end ==> call_ensures(f, (&self@[k],), true),
                end < stop ==> call_ensures(f, (&self@[end as int],), false),
            decreases stop - end,
        {
            if end >= stop {
                break ;
            }
            let e = &self.data[end];
            if !f(e) {
                break ;
            }
            end = end + 1;
        }
        (
            Range::make(lo, end, Ghost(self.brand@)),
            Range::make(end, stop, Ghost(self.brand@)),
        )
    }

    /// Borrow two disjoint mutable subsequences at once, where `r` must
    /// end at or before `s` starts; refused otherwise.
    pub fn index_twice<P: ProofType, Q: ProofType>(&mut self, r: Range<P>, s: Range<Q>) -> (w:
        Result<(&mut [T], &mut [T]), IndexingError>)
        requires
            old(self).valid_range(r),
            old(self).valid_range(s),
        ensures
            final(self).brand() == old(self).brand(),
            match w {
                Ok(pair) => {
                    &&& r.end_spec() <= s.start_spec()
                    &&& pair.0@ == old(self)@.subrange(r.start_spec() as int, r.end_spec() as int)
                    &&& pair.1@ == old(self)@.subrange(s.start_spec() as int, s.end_spec() as int)
                    &&& final(self)@ == old(self)@.subrange(0, r.start_spec() as int)
                        + final(pair.0)@
                        + old(self)@.subrange(r.end_spec() as int, s.start_spec() as int)
                        + final(pair.1)@
                        + old(self)@.subrange(s.end_spec() as int, old(self)@.len() as int)
                },
                Err(_) => {
                    &&& r.end_spec() > s.start_spec()
                    &&& final(self)@ == old(self)@
                },
            },
    {
        if r.end() <= s.start() {
            let ghost orig = self.data@;
            let whole = self.data.as_mut_slice();
            let (left, right) = whole.split_at_mut(s.start());
            let (second, _suffix) = right.split_at_mut(s.end() - s.start());
            let (head, _gap) = left.split_at_mut(r.end());
            let (_prefix, first) = head.split_at_mut(r.start());
            proof {
                assert(first@ =~= orig.subrange(r.start_spec() as int, r.end_spec() as int));
                assert(second@ =~= orig.subrange(s.start_spec() as int, s.end_spec() as int));
            }
            Ok((first, second))
        } else {
            Err(index_error())
        }
    }
}

impl<T> Container<T, ()> {
    /// Open a scope over `data`: the container wraps the sequence and
    /// carries a fresh brand.  Nothing is revealed about the brand's
    /// value, so validity of a particle can never be established against
    /// any container but the one that minted it.
    pub fn new(data: Vec<T>) -> (c: Container<T>)
        ensures
            c@ == data@,
    {
        Container { data, brand: Ghost(0int), mode: PhantomData }
    }

    /// Convert the container into an only-indexing container.  Pointer
    /// particles can no longer be minted; in exchange the container may
    /// grow.  The brand — and with it the validity of all outstanding
    /// index and range particles — is preserved.
    pub fn only_index(self) -> (c: Container<T, OnlyIndex>)
        ensures
            c@ == self@,
            c.brand() == self.brand(),
    {
        Container { data: self.data, brand: self.brand, mode: PhantomData }
    }
}

impl<T> Container<T, OnlyIndex> {
    /// Append one element and return its index.  All outstanding
    /// particles remain valid: the length only grows.
    pub fn push(&mut self, element: T) -> (i: Index<NonEmpty>)
        ensures
            final(self)@ == old(self)@.push(element),
            final(self).brand() == old(self).brand(),
            i.index_spec() == old(self)@.len(),
            i.brand() == old(self).brand(),
            final(self).valid_index(i),
    {
        let i = self.data.len();
        self.data.push(element);
        Index::new(i, Ghost(self.brand@))
    }

    /// Insert one element at `index`, shifting the suffix right.  All
    /// outstanding particles remain in bounds: the length only grows.
    pub fn insert<Q: ProofType>(&mut self, index: Index<Q>, element: T)
        requires
            old(self).valid_index(index),
        ensures
            final(self)@ == old(self)@.insert(index.index_spec() as int, element),
            final(self).brand() == old(self).brand(),
    {
        self.data.insert(index.integer(), element);
    }
}

/// Create an indexing scope for a sequence: hand a freshly branded
/// container over `data` to the closure and return its result.
///
/// The closure argument is the only channel through which branded
/// particles reach the caller's code, and nothing is revealed about the
/// brand of the container the closure receives, so particles cannot be
/// redeemed at any other container.
pub fn scope<T, Out, F: FnOnce(Container<T>) -> Out>(data: Vec<T>, f: F) -> (r: Out)
    requires
        forall|c: Container<T>| c@ == data@ ==> call_requires(f, (c,)),
    ensures
        exists|c: Container<T>| c@ == data@ && call_ensures(f, (c,), r),
{
    let c = Container::new(data);
    f(c)
}

/// Create an indexing scope for a sequence, handing the closure both a
/// freshly branded container over `data` and the container's full
/// range.
pub fn indices<T, Out, F: FnOnce(Container<T>, Range<Unknown>) -> Out>(data: Vec<T>, f: F) -> (r:
    Out)
    requires
        forall|c: Container<T>, full: Range<Unknown>|
            c@ == data@ && full.start_spec() == 0 && full.end_spec() == data@.len() && full.brand()
                == c.brand() ==> call_requires(f, (c, full)),
    ensures
        exists|c: Container<T>, full: Range<Unknown>|
            c@ == data@ && full.start_spec() == 0 && full.end_spec() == data@.len() && full.brand()
                == c.brand() && call_ensures(f, (c, full), r),
{
    let c = Container::new(data);
    let full = c.range();
    f(c, full)
}

/// Law: a valid index lies within `[0, N]` for the container length
/// `N`, and strictly within `[0, N)` when its marker proves an element.
pub proof fn lemma_valid_index_bounds<T, M, P: ProofType>(c: &Container<T, M>, i: Index<P>)
    requires
        c.valid_index(i),
    ensures
        0 <= i.index_spec() <= c@.len(),
        P::is_nonempty() ==> i.index_spec() < c@.len(),
{
}

/// Law: a valid dereferenceable index reads or writes a position within
/// the container's storage.
pub proof fn lemma_access_in_storage<T, M, P: ProofType>(c: &Container<T, M>, i: Index<P>)
    requires
        c.valid_index(i),
        P::is_nonempty(),
    ensures
        0 <= i.index_spec() < c@.len(),
{
}

/// Law: a valid range sits between 0 and the container length, and is
/// strictly nonempty when its marker says so.
pub proof fn lemma_valid_range_bounds<T, M, P: ProofType>(c: &Container<T, M>, r: Range<P>)
    requires
        c.valid_range(r),
    ensures
        0 <= r.start_spec() <= r.end_spec() <= c@.len(),
        P::is_nonempty() ==> r.start_spec() < r.end_spec(),
{
}

/// Law: `swap` is involutive, and swapping an offset with itself is a
/// no-op.
pub proof fn lemma_swap_involutive<T>(s: Seq<T>, i: int, j: int)
    requires
        0 <= i < s.len(),
        0 <= j < s.len(),
    ensures
        swap_seq(swap_seq(s, i, j), i, j) == s,
        swap_seq(s, i, i) == s,
{
    assert(swap_seq(swap_seq(s, i, j), i, j) =~= s);
    assert(swap_seq(s, i, i) =~= s);
}

/// Law: rotating a range up and then down restores the container, and
/// so does the opposite order.
pub proof fn lemma_rotate1_roundtrip<T>(s: Seq<T>, start: int, end: int)
    requires
        0 <= start < end <= s.len(),
    ensures
        rotate1_down_seq(rotate1_up_seq(s, start, end), start, end) == s,
        rotate1_up_seq(rotate1_down_seq(s, start, end), start, end) == s,
{
    assert(rotate1_down_seq(rotate1_up_seq(s, start, end), start, end) =~= s);
    assert(rotate1_up_seq(rotate1_down_seq(s, start, end), start, end) =~= s);
}

/// `swap_seq` preserves the multiset of elements (and the length).
pub proof fn lemma_swap_seq_to_multiset<T>(s: Seq<T>, i: int, j: int)
    requires
        0 <= i < s.len(),
        0 <= j < s.len(),
    ensures
        swap_seq(s, i, j).to_multiset() == s.to_multiset(),
        swap_seq(s, i, j).len() == s.len(),
{
    broadcast use vstd::multiset::group_multiset_axioms;
    broadcast use vstd::seq_lib::group_to_multiset_ensures;

    if i == j {
        assert(swap_seq(s, i, j) =~= s);
    } else {
        let u1 = s.update(i, s[j]);
        lemma_update_to_multiset(s, i, s[j]);
        lemma_update_to_multiset(u1, j, s[i]);
        assert(swap_seq(s, i, j).to_multiset() =~= s.to_multiset());
    }
}

/// Updating one position replaces exactly one element of the multiset.
pub proof fn lemma_update_to_multiset<T>(s: Seq<T>, i: int, x: T)
    requires
        0 <= i < s.len(),
    ensures
        s.update(i, x).to_multiset() == s.to_multiset().remove(s[i]).insert(x),
{
    assert(s.update(i, x) =~= s.remove(i).insert(i, x));
    vstd::seq_lib::to_multiset_remove(s, i);
    vstd::seq_lib::to_multiset_insert(s.remove(i), i, x);
}

/// The rotations preserve the multiset of elements (and the length).
pub proof fn lemma_rotate1_to_multiset<T>(s: Seq<T>, a: int, b: int)
    requires
        0 <= a < b <= s.len(),
    ensures
        rotate1_up_seq(s, a, b).to_multiset() == s.to_multiset(),
        rotate1_up_seq(s, a, b).len() == s.len(),
        rotate1_down_seq(s, a, b).to_multiset() == s.to_multiset(),
        rotate1_down_seq(s, a, b).len() == s.len(),
{
    broadcast use vstd::multiset::group_multiset_axioms;
    broadcast use vstd::seq_lib::group_to_multiset_ensures;

    assert(rotate1_up_seq(s, a, b) =~= s.remove(b - 1).insert(a, s[b - 1]));
    vstd::seq_lib::to_multiset_remove(s, b - 1);
    vstd::seq_lib::to_multiset_insert(s.remove(b - 1), a, s[b - 1]);
    assert(rotate1_up_seq(s, a, b).to_multiset() =~= s.to_multiset());
    assert(rotate1_down_seq(s, a, b) =~= s.remove(a).insert(b - 1, s[a]));
    vstd::seq_lib::to_multiset_remove(s, a);
    vstd::seq_lib::to_multiset_insert(s.remove(a), b - 1, s[a]);
    assert(rotate1_down_seq(s, a, b).to_multiset() =~= s.to_multiset());
}

} // verus!
