//! Semitopologies and semiframes over a small ground set: the union-closed
//! families of subsets, generated once each up to relabeling of the ground
//! set, with a language of formulas by which they can be filtered.
//!
//! A subset of the ground set is a bitmask, and a family is an ordered set
//! of bitmasks. The canonical labeling of the incidence graph of a family is
//! computed outside of this library and handed in as a function; what
//! happens around it is stated and proved here.

pub mod args;
pub mod ast;
pub mod bits;
pub mod canon;
pub mod codec;
pub mod codec_laws;
pub mod depth_laws;
pub mod family;
pub mod graph;
pub mod macro_expander;
pub mod model_checker;
pub mod model_laws;
pub mod order_laws;
pub mod parser;
pub mod relabel;
pub mod result_laws;
pub mod search;
pub mod search_laws;
pub mod text;
pub mod tokens;
