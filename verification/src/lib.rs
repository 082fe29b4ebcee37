//! Verified MAST forests: their wire format, the builder that deduplicates execution nodes while
//! keeping every source occurrence apart, and the assembly rules that lower, export and describe
//! the procedures of a library.

pub mod assembler;
pub mod batch;
pub mod block;
pub mod body;
pub mod boundary;
pub mod builder;
pub mod bytes;
pub mod debug_info;
pub mod debug_sections;
pub mod debug_types;
pub mod debug_var;
pub mod dense;
pub mod error;
pub mod exports;
pub mod felt;
pub mod finalizer;
pub mod finish;
pub mod forest;
pub mod graph;
pub mod hasher;
pub mod layout;
pub mod linked_names;
pub mod meaning;
pub mod merge;
pub mod node;
pub mod op_index;
pub mod operation;
pub mod package_modules;
pub mod path;
pub mod pending;
pub mod procedure;
pub mod procedures;
pub mod product;
pub mod read;
pub mod registry;
pub mod roundtrip;
pub mod rows;
pub mod source_graph;
pub mod sparse;
pub mod spelled;
pub mod static_import;
pub mod static_metadata;
pub mod table_import;
pub mod text;
pub mod trimmer;
pub mod type_decl;
pub mod type_eq;
pub mod type_expr;
pub mod types;
pub mod untrusted;
pub mod view;
pub mod visibility;
pub mod wire;
