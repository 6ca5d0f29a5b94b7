//! A growable trie of word-sized slots, a split-ordered map built on it,
//! and a sorted set.
//!
//! The structures here are the sequential core of the design: segments and
//! list nodes live in arenas and refer to each other by position, so every
//! operation has an exact contract over a mathematical model.
use vstd::prelude::*;

pub mod bits;
pub mod growable_array;
pub mod list;
pub mod list_set;
pub mod split_ordered_list;
