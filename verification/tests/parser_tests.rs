//! The decode direction: each grammar recognized alone and together, and
//! the resolution policy's forced and automatic behaviour.

use prk_md_parser::{parse_content, MdPatternType};

#[test]
fn test_code_tag_pattern() {
    let md = "<code path=\"Cargo.toml\">\n[package]\nname = \"example\"\n</code>\n";
    let parsed = parse_content(md, None);
    assert_eq!(
        parsed.len(),
        1,
        "Expected one parsed file for code tag pattern"
    );
    assert_eq!(parsed[0].path, "Cargo.toml");
    assert!(parsed[0].content.contains("[package]"));
}

#[test]
fn test_hash_marker_pattern() {
    let md = "### src/main.rs\n```rust\nfn main() { println!(\"Hello, world!\"); }\n```\n";
    let parsed = parse_content(md, None);
    assert_eq!(
        parsed.len(),
        1,
        "Expected one parsed file for hash marker pattern"
    );
    assert_eq!(parsed[0].path, "src/main.rs");
    assert!(parsed[0].content.contains("fn main()"));
}

#[test]
fn test_delimiter_pattern() {
    let md = "========\nsrc/lib.rs\n========\n```rust\npub fn lib_function() {}\n```\n";
    let parsed = parse_content(md, None);
    assert_eq!(
        parsed.len(),
        1,
        "Expected one parsed file for delimiter pattern"
    );
    assert_eq!(parsed[0].path, "src/lib.rs");
    assert!(parsed[0].content.contains("lib_function"));
}

#[test]
fn test_raw_code_block_pattern() {
    let md = "// file: src/utils.rs\n```rust\npub fn util() {}\n";
    let parsed = parse_content(md, None);
    assert_eq!(
        parsed.len(),
        1,
        "Expected one parsed file for raw code block pattern"
    );
    assert_eq!(parsed[0].path, "src/utils.rs");
    assert!(parsed[0].content.contains("pub fn util() {}"));
}

#[test]
fn test_hash_marker_no_closing_fence() {
    let md = "### src/missing.rs\n```rust\n// Some code without a closing fence\npub fn foo() {}\n";
    let parsed = parse_content(md, None);
    assert_eq!(
        parsed.len(),
        1,
        "Expected one parsed file even when closing fence is missing"
    );
    assert_eq!(parsed[0].path, "src/missing.rs");
    assert!(parsed[0].content.contains("pub fn foo() {}"));
}

#[test]
fn test_file_code_pattern() {
    let md = "<file> Cargo.toml </file>\n<code>\n[package]\nname = \"trait_enforcement_demo\"\nversion = \"0.1.0\"\nedition = \"2021\"\n</code>\n\n<file> src/main.rs </file>\n<code>\n// Write the main Rust code here\n</code>\n\n<file> src/lib.rs </file>\n<code>\n// If needed, add trait definitions or supporting modules here\n</code>\n";
    let parsed = parse_content(md, Some(MdPatternType::FileCode));
    assert_eq!(
        parsed.len(),
        3,
        "Expected three parsed file blocks for file/code pattern"
    );
    assert_eq!(parsed[0].path, "Cargo.toml");
    assert!(parsed[0].content.contains("[package]"));
}

#[test]
fn test_file_fence_pattern() {
    let md = "### <file> src/lib.rs </file>\n```rust\npub fn hello() { println!(\"hello\"); }\n```\n";
    let parsed = parse_content(md, Some(MdPatternType::FileFence));
    assert_eq!(parsed.len(), 1);
    assert_eq!(parsed[0].path, "src/lib.rs");
    assert!(parsed[0].content.contains("println!(\"hello\")"));
}

#[test]
fn code_tag_automatic_single_record() {
    let md = "<code path=\"Cargo.toml\">\n[package]\nname=\"x\"\n</code>";
    let parsed = parse_content(md, None);
    assert_eq!(parsed.len(), 1);
    assert_eq!(parsed[0].path, "Cargo.toml");
    assert!(parsed[0].content.contains("[package]"));
}

#[test]
fn duplicate_path_across_grammars_collapses() {
    let md = "### src/lib.rs\n```rust\npub fn first() {}\n```\n\n// file: src/lib.rs\n```rust\npub fn second() {}\n```\n";
    let parsed = parse_content(md, None);
    assert_eq!(parsed.len(), 1);
    assert_eq!(parsed[0].path, "src/lib.rs");
}

#[test]
fn duplicate_path_keeps_first_grammar_in_order() {
    // the heading-marker grammar runs before the comment-header grammar, so
    // its record survives the adjacent-duplicate collapse
    let md = "### src/lib.rs\n```rust\npub fn first() {}\n```\n\n// file: src/lib.rs\n```rust\npub fn second() {}\n```\n";
    let parsed = parse_content(md, None);
    assert!(parsed[0].content.contains("first"));
}

#[test]
fn paired_tags_zip_by_order_of_appearance() {
    let md = "<file> a.rs </file>\n<file> b.rs </file>\n<file> c.rs </file>\n<code>\nfn a() {}\n</code>\n<code>\nfn b() {}\n</code>\n";
    let parsed = parse_content(md, Some(MdPatternType::FileCode));
    assert_eq!(parsed.len(), 2);
    assert_eq!(parsed[0].path, "a.rs");
    assert!(parsed[0].content.contains("fn a()"));
    assert_eq!(parsed[1].path, "b.rs");
    assert!(parsed[1].content.contains("fn b()"));
}

#[test]
fn forced_grammar_with_no_match_yields_empty() {
    let md = "just prose, no annotations at all";
    for k in [
        MdPatternType::CodeTag,
        MdPatternType::HashMarker,
        MdPatternType::Delimiter,
        MdPatternType::Raw,
        MdPatternType::FileCode,
        MdPatternType::FileFence,
    ] {
        let parsed = parse_content(md, Some(k));
        assert_eq!(parsed.len(), 0);
    }
}

#[test]
fn empty_input_yields_empty() {
    assert_eq!(parse_content("", None).len(), 0);
    assert_eq!(parse_content("   \n\n  ", None).len(), 0);
}

#[test]
fn disallowed_extension_is_not_a_record() {
    let md = "### notes.txt\n```\nsome text\n```\n";
    assert_eq!(parse_content(md, None).len(), 0);
}

#[test]
fn heading_with_seven_hashes_is_not_a_header() {
    let md = "####### src/main.rs\n```rust\nfn main() {}\n```\n";
    assert_eq!(parse_content(md, Some(MdPatternType::HashMarker)).len(), 0);
}

#[test]
fn heading_without_fence_is_not_a_record() {
    let md = "### src/main.rs\nno fence follows here\n";
    assert_eq!(parse_content(md, Some(MdPatternType::HashMarker)).len(), 0);
}

#[test]
fn blank_lines_between_header_and_fence_are_skipped() {
    let md = "### src/main.rs\n\n\n```rust\nfn main() {}\n```\n";
    let parsed = parse_content(md, Some(MdPatternType::HashMarker));
    assert_eq!(parsed.len(), 1);
    assert_eq!(parsed[0].content, "fn main() {}");
}

#[test]
fn code_tag_with_nested_fence_is_unwrapped() {
    let md = "<code path=\"src/a.rs\">\n```rust\nfn a() {}\n```\n</code>\n";
    let parsed = parse_content(md, Some(MdPatternType::CodeTag));
    assert_eq!(parsed.len(), 1);
    assert_eq!(parsed[0].content, "fn a() {}");
}

#[test]
fn code_tag_is_case_insensitive() {
    let md = "<CODE PATH=\"src/a.rs\">\nfn a() {}\n</CODE>\n";
    let parsed = parse_content(md, Some(MdPatternType::CodeTag));
    assert_eq!(parsed.len(), 1);
    assert_eq!(parsed[0].path, "src/a.rs");
}

#[test]
fn two_hash_marker_blocks_in_one_document() {
    let md = "### a.rs\n```rust\nfn a() {}\n```\n### b.rs\n```rust\nfn b() {}\n```\n";
    let parsed = parse_content(md, Some(MdPatternType::HashMarker));
    assert_eq!(parsed.len(), 2);
    assert_eq!(parsed[0].path, "a.rs");
    assert_eq!(parsed[1].path, "b.rs");
    assert_eq!(parsed[1].content, "fn b() {}");
}

#[test]
fn indented_heading_still_matches() {
    let md = "   ### a.rs\n```rust\nfn a() {}\n```\n";
    let parsed = parse_content(md, Some(MdPatternType::HashMarker));
    assert_eq!(parsed.len(), 1);
    assert_eq!(parsed[0].path, "a.rs");
}

#[test]
fn fence_with_space_before_language_is_no_fence() {
    let md = "### a.rs\n``` rust\nfn a() {}\n```\n";
    assert_eq!(parse_content(md, Some(MdPatternType::HashMarker)).len(), 0);
}

#[test]
fn delimiter_name_may_hold_spaces() {
    let md = "========\nmy file.rs\n========\n```rust\nfn a() {}\n```\n";
    let parsed = parse_content(md, Some(MdPatternType::Delimiter));
    assert_eq!(parsed.len(), 1);
    assert_eq!(parsed[0].path, "my file.rs");
}

#[test]
fn file_fence_heading_needs_no_space_after_hashes() {
    let md = "####<file> a.rs </file>\n```rust\nfn a() {}\n```\n";
    let parsed = parse_content(md, Some(MdPatternType::FileFence));
    assert_eq!(parsed.len(), 1);
    assert_eq!(parsed[0].path, "a.rs");
}

#[test]
fn file_fence_accepts_any_fence_info_string() {
    let md = "### <file> a.rs </file>\n``` anything goes here\nfn a() {}\n```\n";
    let parsed = parse_content(md, Some(MdPatternType::FileFence));
    assert_eq!(parsed.len(), 1);
    assert_eq!(parsed[0].content, "fn a() {}");
}

#[test]
fn automatic_merge_sorts_by_path() {
    let md = "### b.rs\n```rust\nfn b() {}\n```\n### a.rs\n```rust\nfn a() {}\n```\n";
    let parsed = parse_content(md, None);
    assert_eq!(parsed.len(), 2);
    assert_eq!(parsed[0].path, "a.rs");
    assert_eq!(parsed[1].path, "b.rs");
}
