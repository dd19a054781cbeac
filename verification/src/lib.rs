//! Conversion between annotated text documents and the file records they
//! embed: six grammar recognizers, a resolution policy, the matching
//! serializers, a directory tree renderer and an inclusion filter.

pub mod extract;
pub mod fence;
pub mod grammar;
pub mod laws;
pub mod parser;
pub mod record;
pub mod serialize;
pub mod tag;
pub mod text;
pub mod tree;

pub use extract::{no_files_markdown, render_markdown, select_paths, should_include, ExtractConfig};
pub use parser::parse_content;
pub use record::{MdPatternType, ParsedFile};
pub use serialize::{fenced, serialize_block};
pub use tree::{build_tree, tree_markdown};
