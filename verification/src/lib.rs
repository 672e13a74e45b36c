//! Authoring model for block (Margolus-style) cellular-automaton rules:
//! a palette of named, colored elements, a symmetry-aware table mapping
//! 2x2 input blocks to 2x2 output blocks, and a persistable `Sim` value
//! composing the two.

pub mod block;
pub mod codec;
pub mod palette;
pub mod sim;
pub mod table;
