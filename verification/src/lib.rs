//! A hash map built from ordered linked lists in the style of the
//! Harris–Michael lock-free set: nodes carry a tagged successor reference
//! whose low bit records logical deletion, buckets route keys by a stable
//! digest, and unlinked nodes and value cells are reclaimed only after a
//! deferred cleanup round has confirmed that every registered handle is
//! quiescent (its epoch counter is even).
//!
//! This crate models the protocol with single ownership: every node lives
//! in its list's arena and is addressed by index, so a tagged reference is
//! twice the index plus the mark bit. The functional behaviour of every
//! operation, the ordering and termination of each list's chain, epoch
//! parity, and the balance of allocations against reclamations are stated
//! in contracts and proved.

pub mod handle;
pub mod list;
pub mod table;
