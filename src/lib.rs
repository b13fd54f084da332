//! Hashlife: Conway's Game of Life on a hash-consed quadtree whose branches
//! memoise their own evolution.
//!
//! Nodes live in an arena owned by a [`World`]; a node is named by its index
//! (a handle). Leaves are the sixteen possible 2x2 tiles, kept at fixed
//! handles, and every branch is interned by its four children, so two handles
//! are equal exactly when the trees they name are equal.
//!
//! The arena's well-formedness (`World::wf`) carries the algorithm's central
//! fact: the result of every branch of size `k` is the centre of its square
//! `2^k` generations on (`theorems::lemma_result_is_future`). From it,
//! `Cell::jump` is proved to return the pattern `n` generations on, up to
//! where it sits. The laws of the library are stated and proved in
//! `theorems`; `evolution` holds the proofs about planes of cells that
//! building a branch and jumping rest on.

pub mod cell;
pub mod evolution;
pub mod life;
pub mod theorems;
pub mod macro_;
pub mod world;

pub use cell::{Cell, DEAD_BASE};
pub use macro_::Macro;
pub use world::{Quarters, World, LEAVES};
