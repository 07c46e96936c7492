//! Canonicalizes a rich-text document tree: collapses runs of spaces in text,
//! clamps heading levels, and drops nodes that carry nothing, with every step
//! stated and proved.

pub mod node;
pub mod text;
pub mod heading;
pub mod format;
pub mod laws;

pub use node::{JsonValue, Node};
pub use format::{FormatError, format_document, get_version, process_content, normalize_node, is_valid_node};
pub use heading::{normalize_heading_attrs, clamp_heading_level};
pub use text::normalize_text;
