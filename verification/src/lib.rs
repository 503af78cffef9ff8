//! Inspect a filesystem subtree and report, in compact form, how permission
//! mode and owning user/group deviate from what a child would otherwise
//! inherit from its parent directory.
//!
//! The caller probes the filesystem into a [`tree::RawNode`] of plain values;
//! this crate builds the difference tree, prunes subtrees that carry no
//! information, and renders the result either as an annotated tree or as an
//! order-correct sequence of recursive reproduction commands.

pub mod tree;
pub mod builder;
pub mod prune;
pub mod text;
pub mod names;
pub mod traverse;
pub mod render;
pub mod commands;
