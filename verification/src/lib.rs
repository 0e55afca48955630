//! A persistent (immutable, structurally shared) sequence container.
//!
//! The vector is backed by a chunked balanced tree whose nodes are shared
//! between versions through reference-counted handles; every operation that
//! appears to mutate produces a new logical version that shares most of its
//! storage with the version it came from.  An operation rebuilds only the
//! nodes on the path it touches and keeps handles to everything else, so a
//! shared node is never written: divergence always goes through a fresh
//! node.
//!
//! Out-of-range indices are the one user-facing failure and are reported
//! as [`vector::Error::IndexOutOfBounds`], never clamped.  Capacity
//! invariants of nodes are established by proof, so no defensive failure
//! path for them exists; exclusive cursors take the vector by value, so a
//! second live view during mutation is ruled out by ownership.

pub mod node;
pub mod tree;
pub mod vector;
pub mod compare;
pub mod focus;
pub mod sort;
pub mod laws;
pub mod hasher;
