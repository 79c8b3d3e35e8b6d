//! Exact matrix products over coded weights, by table lookup.
//!
//! A coded weight names one entry of a finite book. The product of a row tile
//! of activations with every entry of the book is computed once into a table,
//! and the columns of the product are then sums of table entries. Every route
//! through the crate computes the same exact product; what the routes differ in
//! is counted by a [`census::Census`].

pub mod arith;
pub mod blocking;
pub mod census;
pub mod sizing;
pub mod element;
pub mod limbs;
pub mod lane;
pub mod view;
pub mod codec;
pub mod books;
pub mod epilogue;
pub mod sequence;
pub mod table;
pub mod dictionary;
pub mod columns;
pub mod entries;
pub mod workspace;
pub mod triple;
pub mod dense;
pub mod relabel;
pub mod isa;
pub mod family;
pub mod integers;
pub mod sweep;
pub mod sources;
pub mod tile;
pub mod accumulate;
pub mod schedule;
pub mod envelope;
pub mod rows;
pub mod stream;
pub mod scratch;
pub mod routes;
pub mod paged;
pub mod selection;
pub mod book;
pub mod tabulate;
pub mod collapse;
pub mod plan;
pub mod mapping;
pub mod drive;
pub mod gemm;
pub mod laws;
pub mod meaning;
pub mod grades;
pub mod measures;
pub mod charges;
pub mod offers;
pub mod scale;
pub mod f32_q;
