//! What the generated code does, on the model of the processor.

pub mod allocation;
pub mod arenas;
pub mod booleans;
pub mod building;
pub mod characters;
pub mod collections;
pub mod counting;
pub mod decimals;
pub mod doubles;
pub mod dropping;
pub mod encoding;
pub mod extremes;
pub mod fields;
pub mod frames;
pub mod guards;
pub mod heap;
pub mod holding;
pub mod instructions;
pub mod joining;
pub mod loops;
pub mod maps;
pub mod measuring;
pub mod owning;
pub mod parsing;
pub mod patterns;
pub mod repeating;
pub mod routines;
pub mod search;
pub mod slicing;
pub mod splitting;
pub mod startup;
pub mod statements;
pub mod strings;
pub mod trimming;
pub mod values;
