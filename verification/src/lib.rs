//! TOML+ language core: lexer, value parser, document parser, validator and
//! dumper, with their contracts proved by Verus.

pub mod text;
pub mod span;
pub mod error;
pub mod value;
pub mod host;
pub mod numeric;
pub mod scan;
pub mod value_parser;
pub mod lexer;
pub mod annotation;
pub mod parser;
pub mod validator;
pub mod dumper;
pub mod roundtrip;
pub mod reparse;
pub mod reannotate;
pub mod display;
pub mod editor;
pub mod hover;
pub mod assist;
pub mod complete;
pub mod colors;
pub mod query;
pub mod report;
