//! Native x86-64 code generation: machine-code assembly, the runtime helper
//! routines, statement and aggregate lowering, and object-file emission.

pub mod aggregate;
pub mod arena;
pub mod assembler;
pub mod assign;
pub mod behavior;
pub mod bytecode;
pub mod bytes;
pub mod codeview;
pub mod coff;
pub mod context;
pub mod decoder;
pub mod emission;
pub mod entry;
pub mod function;
pub mod image;
pub mod init;
pub mod lanes;
pub mod layout;
pub mod linking;
pub mod machine;
pub mod mnemonics;
pub mod neutral_object;
pub mod object_model;
pub mod program_object;
pub mod reading;
pub mod resolve;
pub mod runtime;
pub mod signature;
pub mod spelling;
pub mod statement;
pub mod symbols;
pub mod text;
pub mod vector_loops;
pub mod vector_patterns;
pub mod vectorize;
pub mod x86;
