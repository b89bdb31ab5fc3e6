//! The dynamic core of a declarative user-interface runtime: a semantic
//! lowering pipeline for component documents and a reactive interpreter that
//! instantiates the lowered components.

pub mod animations;
pub mod compiler;
pub mod diagnostics;
pub mod dynamic_component;
pub mod dynamic_type;
pub mod eval;
pub mod expected_errors;
pub mod expression_tree;
pub mod host;
pub mod interpreter;
pub mod items;
pub mod lowering;
pub mod names;
pub mod object_tree;
pub mod parser;
pub mod passes;
pub mod pattern;
pub mod properties;
pub mod qt_style;
pub mod slice;
pub mod texture_atlas;
pub mod typeregister;
