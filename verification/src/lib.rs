//! An in-memory nearest-neighbour index over fixed-dimension vectors, held in a
//! navigable proximity graph.
//!
//! The index stores each vector as a node of an append-only arena and joins every
//! new node to the node that a beam search finds for it. It answers queries either
//! by a beam search over the graph or exactly, by ranking all nodes.
//!
//! Vector components and distances are carried as 32-bit words. The index never
//! looks inside a vector: the distance kernel is supplied by the caller as a
//! function from two vectors to a distance word, and the index decides everything
//! by comparing such words.
//!
//! A distance word is read as the bits of an IEEE 754 single-precision number, as
//! far as integers can tell:
//!
//! - The words of numbers from 0 upward, infinity included, are ordered as the
//!   numbers are: the smaller word is the nearer. A kernel is meant to return
//!   such a word, or the word of something that is not a number.
//! - A word that is not a number ([`metrics::is_nan_word`]) is nearer than no word
//!   and no word is nearer than it. Two candidates of which one has such a
//!   distance compare as `Equal`, in either order, and a traversal never moves to
//!   such a node as to a nearer one, nor away from it to a nearer one. Nothing
//!   fails on such a word.
//! - The word of a number below 0 is above every word of a number from 0 upward,
//!   and counts as farther than all of them.
//! - An exact search ranks the nodes by the size of their distance words, so a
//!   distance that is not a number ranks behind every number from 0 upward.
//!
//! - [`metrics`]: what is asked of a kernel, and the distance it defines.
//! - [`node`]: the storage unit and the shape of a sound arena.
//! - [`heap`]: candidates, their order, and the frontier of a traversal.
//! - [`graph`]: greedy descent and beam search as mathematical functions.
//! - [`reach`]: what a beam search that is wide enough is sure to find.
//! - [`ranking`]: the order in which an exact search lists the nodes.
//! - [`index`]: the index itself, with insertion, search and its parts.
//! - [`theorems`]: what holds of every index.
//! - [`error`]: the reasons for which an input is refused.

pub mod error;
pub mod graph;
pub mod heap;
pub mod index;
pub mod metrics;
pub mod node;
pub mod ranking;
pub mod reach;
pub mod theorems;
