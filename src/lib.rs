//! Incremental statement tracking for SQL documents, and the lossless token
//! machinery that builds a syntax tree for one statement.
//!
//! - [`document`]: a document's text and statement spans, updated edit by
//!   edit with the least re-splitting, reporting what each edit did to the
//!   statements.
//! - [`statement_parser`] and [`parser`]: the gap-free tokens of a statement
//!   and the cursor that turns them into tree events.
//! - [`tree_path`] and [`node_graph`]: addresses of tree nodes, and the
//!   breadth-first graph of a statement's tree.
pub mod annotation;
pub mod change;
pub mod completion;
pub mod document;
pub mod node_graph;
pub mod parser;
pub mod statement_id;
pub mod statement_parser;
pub mod syntax_kind;
pub mod text_range;
pub mod tree_path;
pub mod utf8_text;
