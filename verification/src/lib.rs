//! A hierarchical dependency-injection registry overlaid on a tree of
//! externally owned nodes.
//!
//! Each host-tree node may anchor at most one [`di_context::DiContext`].
//! Contexts form a parallel tree mirroring a subset of the host tree's
//! parent/child relationships. Producers register node handles into the
//! nearest enclosing context; consumers resolve them by walking the context
//! tree: first a context's own maps, then the child contexts it has been told
//! to search (re-registration forwarding), then its ancestor chain, with an
//! ignore parameter that prevents an infinite bounce between a child and the
//! parent it delegated to.
//!
//! The host tree itself is an external collaborator; [`host_tree::HostTree`]
//! models exactly the interface this engine consumes from it: stable node
//! identities, parent lookup, and per-node naming information.

pub mod di_context;
pub mod di_multi_registration;
pub mod di_registration;
pub mod host_tree;
pub mod laws;
pub mod multi_registration;
pub mod registry;
