//! Sound bounds-check-free indexing through branded particles.
//!
//! A `Container` wraps a sequence and hands out *particles* — indices,
//! ranges, and their pointer-flavoured analogues — that carry the
//! container's brand and a proof marker.  A particle with the `NonEmpty`
//! marker is known to refer to at least one valid element and may be
//! dereferenced; an `Unknown` particle may sit on the container's edge and
//! can only be used for slicing.  Every access goes through the container,
//! whose contracts demand a particle of the same brand, so an access is
//! in bounds by construction and the verifier discharges every bounds
//! obligation statically.

pub mod algorithms;
pub mod base;
pub mod container;
pub mod index_error;
pub mod indexing;
pub mod pointer;

pub use crate::base::{NonEmpty, ProofAdd, ProofType, Provable, Unknown};
pub use crate::container::{indices, scope, Container, OnlyIndex};
pub use crate::index_error::{index_error, IndexingError};
pub use crate::indexing::{Index, Range, RangeIter, Subdivide};
pub use crate::pointer::{PIndex, PRange, PRangeIter, PSlice};
