//! A small image-processing language in the style of Halide: pipelines are
//! graphs of pointwise functions over 2-D integer coordinates.

pub mod ast;
pub mod blur3;
pub mod names;
pub mod graph;
pub mod image;
pub mod lowering;
pub mod pretty_print;
pub mod processor;
pub mod replay;
pub mod symbol_table;
pub mod trace;
