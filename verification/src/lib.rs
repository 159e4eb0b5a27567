//! Locates installed applications of the Steam client: a parser for its
//! nested quoted key-value text format ("VDF"), case-insensitive lookup and
//! ordered iteration over the parsed tree, and the projection logic that
//! turns library-index and manifest trees into typed application records.

pub mod discovery;
pub mod parser;
pub mod text;
pub mod value;

pub use discovery::App;
pub use parser::vdf_parse;
pub use parser::VdfError;
pub use value::Value;
pub use value::Vdf;
