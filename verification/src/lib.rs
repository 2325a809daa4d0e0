//! Orderings over a closed, finite set of named groups.
//!
//! A *kind* declares a closed set of group labels together with their
//! declaration order.  From a kind, any permutation of its labels can be made
//! into an immutable *ordering instance*: a bijection between the labels and
//! the ranks `0..n`.  An instance answers "what is the rank of this group?"
//! and "which group sits at this rank?", and compares two groups by their
//! ranks.  A generic helper stably sorts a vector of arbitrary items once the
//! items say which group each of them belongs to.

pub mod errors;
pub mod groups;
pub mod instance;
pub mod kind;
pub mod ordering_traits;
pub mod sort;

pub use errors::OrderingError;
pub use groups::Group;
pub use instance::OrderingInstance;
pub use kind::OrderingKind;
pub use ordering_traits::GroupedOrderable;
pub use ordering_traits::GroupedOrdering;
pub use sort::VecExt;
