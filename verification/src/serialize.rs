//! The serializers: one encoder per grammar, each the textual inverse of its
//! recognizer, parameterized by a language tag derived from the record's
//! extension.

use vstd::prelude::*;

use crate::record::MdPatternType;
use crate::text::{chars_eq_str, ext_of, ext_of_chars, str_to_chars, trim_str, trimmed};

verus! {

/// The fence language tag a path's extension selects; unknown extensions
/// select the empty tag.
pub open spec fn lang_of(p: Seq<char>) -> Seq<char> {
    let e = ext_of(p);
    if e == "rs"@ {
        "rust"@
    } else if e == "toml"@ {
        "toml"@
    } else if e == "json"@ {
        "json"@
    } else if e == "dart"@ {
        "dart"@
    } else if e == "js"@ {
        "javascript"@
    } else if e == "ts"@ {
        "typescript"@
    } else {
        Seq::empty()
    }
}

/// The language tag for a path, executably.
pub fn lang_for(p: &str) -> (r: &'static str)
    ensures
        r@ == lang_of(p@),
{
    let chars = str_to_chars(p);
    let e = ext_of_chars(&chars);
    if chars_eq_str(&e, "rs") {
        "rust"
    } else if chars_eq_str(&e, "toml") {
        "toml"
    } else if chars_eq_str(&e, "json") {
        "json"
    } else if chars_eq_str(&e, "dart") {
        "dart"
    } else if chars_eq_str(&e, "js") {
        "javascript"
    } else if chars_eq_str(&e, "ts") {
        "typescript"
    } else {
        proof {
            assert(""@ =~= Seq::<char>::empty()) by {
                reveal_strlit("");
            }
        }
        ""
    }
}

/// A fenced code block: the fence with its language tag, the content trimmed
/// of surrounding blank space, the closing fence, and a blank line.
pub open spec fn spec_fenced(lang: Seq<char>, content: Seq<char>) -> Seq<char> {
    "```"@ + lang + "\n"@ + trimmed(content) + "\n```\n\n"@
}

/// Produces a fenced code block for the given language tag and content.
pub fn fenced(rel: &str, lang: &str, content: &str) -> (r: String)
    ensures
        r@ == spec_fenced(lang@, content@),
{
    let mut s = String::new();
    s.append("```");
    s.append(lang);
    s.append("\n");
    s.append(trim_str(content));
    s.append("\n```\n\n");
    proof {
        assert(s@ =~= spec_fenced(lang@, content@));
    }
    s
}

/// The textual form a record takes under each grammar; no grammar given
/// selects heading-plus-fence.
pub open spec fn spec_block(p: Seq<char>, c: Seq<char>, k: Option<MdPatternType>) -> Seq<char> {
    match k {
        Some(MdPatternType::CodeTag) => "<code path=\""@ + p + "\">\n"@ + trimmed(c)
            + "\n</code>\n\n"@,
        Some(MdPatternType::HashMarker) => "### "@ + p + "\n"@ + spec_fenced(lang_of(p), c),
        Some(MdPatternType::Delimiter) => "========\n"@ + p + "\n========\n"@ + spec_fenced(
            lang_of(p),
            c,
        ),
        Some(MdPatternType::Raw) => "// file: "@ + p + "\n"@ + spec_fenced(lang_of(p), c),
        Some(MdPatternType::FileCode) => "<file> "@ + p + " </file>\n<code>\n"@ + trimmed(c)
            + "\n</code>\n\n"@,
        Some(MdPatternType::FileFence) => "### <file> "@ + p + " </file>\n"@ + spec_fenced(
            lang_of(p),
            c,
        ),
        None => "### <file> "@ + p + " </file>\n"@ + spec_fenced(lang_of(p), c),
    }
}

/// Serializes one record into the chosen grammar's textual form.
pub fn serialize_block(rel: &str, content: &str, pattern: Option<MdPatternType>) -> (r: String)
    ensures
        r@ == spec_block(rel@, content@, pattern),
{
    let lang = lang_for(rel);
    match pattern {
        Some(MdPatternType::CodeTag) => {
            let mut s = String::new();
            s.append("<code path=\"");
            s.append(rel);
            s.append("\">\n");
            s.append(trim_str(content));
            s.append("\n</code>\n\n");
            proof {
                assert(s@ =~= spec_block(rel@, content@, pattern));
            }
            s
        },
        Some(MdPatternType::HashMarker) => {
            let mut s = String::new();
            s.append("### ");
            s.append(rel);
            s.append("\n");
            let f = fenced(rel, lang, content);
            s.append(f.as_str());
            proof {
                assert(s@ =~= spec_block(rel@, content@, pattern));
            }
            s
        },
        Some(MdPatternType::Delimiter) => {
            let mut s = String::new();
            s.append("========\n");
            s.append(rel);
            s.append("\n========\n");
            let f = fenced(rel, lang, content);
            s.append(f.as_str());
            proof {
                assert(s@ =~= spec_block(rel@, content@, pattern));
            }
            s
        },
        Some(MdPatternType::Raw) => {
            let mut s = String::new();
            s.append("// file: ");
            s.append(rel);
            s.append("\n");
            let f = fenced(rel, lang, content);
            s.append(f.as_str());
            proof {
                assert(s@ =~= spec_block(rel@, content@, pattern));
            }
            s
        },
        Some(MdPatternType::FileCode) => {
            let mut s = String::new();
            s.append("<file> ");
            s.append(rel);
            s.append(" </file>\n<code>\n");
            s.append(trim_str(content));
            s.append("\n</code>\n\n");
            proof {
                assert(s@ =~= spec_block(rel@, content@, pattern));
            }
            s
        },
        Some(MdPatternType::FileFence) | None => {
            let mut s = String::new();
            s.append("### <file> ");
            s.append(rel);
            s.append(" </file>\n");
            let f = fenced(rel, lang, content);
            s.append(f.as_str());
            proof {
                assert(s@ =~= spec_block(rel@, content@, pattern));
            }
            s
        },
    }
}

} // verus!
