//! Markdown Decision Tree (MDT) engine.
//!
//! Reads and writes a small textual file format: a bullet-indented outline
//! whose bullets may carry single-letter node-type annotations and optional
//! comparative parent lists.  In memory a tree is a flat, ordered array of
//! nodes whose parent relationships are integer indices into that array.

pub mod bullet_file_parser;
pub mod codec;
pub mod errors;
pub mod file_parse;
pub mod file_write;
pub mod laws;
pub mod structs;

pub use bullet_file_parser::BulletFileParser;
pub use errors::MdtError;
pub use file_parse::parse_content;
pub use file_parse::NUM_SPACES_PER_LEVEL;
pub use file_parse::REQUIRED_HEADER;
pub use file_write::add_opt_node_type;
pub use file_write::render_nodes;
pub use file_write::to_node_start_string;
pub use structs::Node;
pub use structs::NodeType;
pub use structs::Nodes;
