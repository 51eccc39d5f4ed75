//! Proof markers and their additive algebra.
//!
//! Particles carry one of two zero-sized markers: `NonEmpty` (the particle
//! is known to refer to at least one valid element) or `Unknown` (the
//! particle may be an edge position).  The markers form an additive
//! algebra used when combining two ranges: `NonEmpty + X = NonEmpty` and
//! `Unknown + X = X`.

use vstd::prelude::*;

verus! {

/// Marker for a particle known to refer to at least one valid element.
#[derive(Clone, Copy)]
pub struct NonEmpty;

/// Marker for a particle whose nonemptiness is not statically known.
#[derive(Clone, Copy)]
pub struct Unknown;

/// What a proof marker asserts at the specification level.
///
/// `is_nonempty()` is `true` exactly for the `NonEmpty` marker; the
/// well-formedness predicates of the particle types turn this static bit
/// into the strict inequality `start < end` (or `offset < length`).
pub trait ProofType: Copy {
    spec fn is_nonempty() -> bool;
}

impl ProofType for NonEmpty {
    open spec fn is_nonempty() -> bool {
        true
    }
}

impl ProofType for Unknown {
    open spec fn is_nonempty() -> bool {
        false
    }
}

/// The additive algebra on proof markers: the sum of the marker `Self`
/// and a second marker `Q` is `NonEmpty` if either summand is, else
/// `Unknown`.
pub trait ProofAdd<Q: ProofType>: ProofType {
    type Sum: ProofType;

    /// The defining law of the algebra, available to every client that
    /// combines two ranges.
    proof fn sum_nonempty()
        ensures
            Self::Sum::is_nonempty() == (Self::is_nonempty() || Q::is_nonempty()),
    ;
}

impl<Q: ProofType> ProofAdd<Q> for NonEmpty {
    type Sum = NonEmpty;

    proof fn sum_nonempty() {
    }
}

impl<Q: ProofType> ProofAdd<Q> for Unknown {
    type Sum = Q;

    proof fn sum_nonempty() {
    }
}

/// A particle whose proof marker can be discarded.
///
/// Dropping a proof is always allowed and costs nothing; the demoted
/// particle is the same particle with the `Unknown` marker.
pub trait Provable: Sized {
    type WithoutProof;

    /// What it means for `r` to be `self` with the proof discarded.
    spec fn strips_to(self, r: Self::WithoutProof) -> bool;

    /// Return a copy of `self` with the proof marker set to `Unknown`.
    fn no_proof(self) -> (r: Self::WithoutProof)
        ensures
            self.strips_to(r),
    ;
}

} // verus!
