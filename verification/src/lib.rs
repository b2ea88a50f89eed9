//! Verified passes over the Silica mid-level intermediate representation.

pub mod text;
pub mod common;
pub mod types;
pub mod place;
pub mod ast;
pub mod body;
pub mod subst;
pub mod table;
pub mod helpers;
pub mod intrinsics;
pub mod intrinsic_names;
pub mod intrinsic_ops;
pub mod diagnostics;
pub mod diagnostic_format;
pub mod type_errors;
pub mod env;
pub mod matching;
pub mod header_match;
pub mod typing;
pub mod layout;
pub mod layout_parts;
pub mod traversal;
pub mod declared_names;
pub mod body_subst;
pub mod order;
pub mod place_map;
pub mod place_set;
pub mod cfg_edit;
pub mod dataflow;
pub mod block_reachability;
pub mod type_tree;
pub mod type_sources;
pub mod desugar;
pub mod lifetime;
pub mod elision;
pub mod reference_names;
pub mod source_order;
pub mod copy_relaxation;
pub mod relaxed_reads;
pub mod mono;
pub mod mono_shape;
pub mod mono_kept;
pub mod mono_methods;
pub mod need_order;
pub mod float_bits;
pub mod float_values;
pub mod codegen;
pub mod machine;
pub mod generated;
pub mod generated_flow;
pub mod generated_fn;
pub mod generated_module;
pub mod runs;
pub mod typed;
pub mod line_diff;
