//! Course exercises: small verified algorithms, data structures and their laws.
mod text;
pub mod weekday;
pub mod bigint;
pub mod rational;
pub mod symbolic;
pub mod semiring;
pub mod polynomial;
pub mod poly_laws;
pub mod poly_parse;
pub mod sorting;
pub mod shell;
pub mod stats;
pub mod words;
pub mod organize;
pub mod generator;
pub mod iters;
pub mod sequences;
pub mod median_position;
pub mod cartesian;
pub mod adaptors;
pub mod divisors;
pub mod labyrinth;
pub mod cache;
pub mod linked_list;
pub mod inversions;
pub mod trees;
pub mod filters;
pub mod pythagorean;
pub mod graph;
pub mod render;
pub mod segments;
pub mod split_order;
pub mod means;
