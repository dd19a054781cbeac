//! The data model: extracted file records and the grammar kinds.

use vstd::prelude::*;

verus! {

/// The mathematical content of a record: a relative path and a file body.
#[verifier::ext_equal]
pub ghost struct RecordV {
    pub path: Seq<char>,
    pub content: Seq<char>,
}

/// A file extracted from an annotated document, or destined for one.
#[derive(Debug, Clone, PartialEq)]
pub struct ParsedFile {
    pub path: String,
    pub content: String,
}

impl View for ParsedFile {
    type V = RecordV;

    open spec fn view(&self) -> RecordV {
        RecordV { path: self.path@, content: self.content@ }
    }
}

impl DeepView for ParsedFile {
    type V = RecordV;

    open spec fn deep_view(&self) -> RecordV {
        self.view()
    }
}

/// The six annotation conventions a document can embed files under.
#[derive(Debug, PartialEq, Eq, Clone, Copy, Structural)]
pub enum MdPatternType {
    /// `<code path="P">` ... `</code>`
    CodeTag,
    /// A `#` heading holding a bare file name, then a fenced block.
    HashMarker,
    /// A file name between two all-`=` lines, then a fenced block.
    Delimiter,
    /// A `// file: P` comment line, then a fenced block.
    Raw,
    /// `<file> P </file>` tags paired positionally with `<code>` blocks.
    FileCode,
    /// A heading wrapping `<file> P </file>`, then a fenced block.
    FileFence,
}

} // verus!
