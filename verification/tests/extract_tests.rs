//! The encode direction: serializers, round trips through the parser, the
//! tree builder, the inclusion filter and whole-document rendering.

use prk_md_parser::{
    build_tree, fenced, no_files_markdown, parse_content, render_markdown, select_paths,
    serialize_block, should_include, tree_markdown, ExtractConfig, MdPatternType, ParsedFile,
};

fn config(
    skips: Vec<&str>,
    project_type: Option<&str>,
    pattern: Option<MdPatternType>,
) -> ExtractConfig {
    ExtractConfig {
        root: String::from("."),
        ignore_file: None,
        extra_ignores: skips.into_iter().map(String::from).collect(),
        project_type: project_type.map(String::from),
        pattern,
    }
}

#[test]
fn fenced_block_exact() {
    let s = fenced("src/a.rs", "rust", "  fn a() {}\n\n");
    assert_eq!(s, "```rust\nfn a() {}\n```\n\n");
}

#[test]
fn serialize_hash_exact() {
    let s = serialize_block("src/main.rs", "fn main() {}", Some(MdPatternType::HashMarker));
    assert_eq!(s, "### src/main.rs\n```rust\nfn main() {}\n```\n\n");
}

#[test]
fn serialize_code_tag_exact() {
    let s = serialize_block("Cargo.toml", "[package]", Some(MdPatternType::CodeTag));
    assert_eq!(s, "<code path=\"Cargo.toml\">\n[package]\n</code>\n\n");
}

#[test]
fn serialize_delimiter_exact() {
    let s = serialize_block("a.json", "{}", Some(MdPatternType::Delimiter));
    assert_eq!(s, "========\na.json\n========\n```json\n{}\n```\n\n");
}

#[test]
fn serialize_raw_exact() {
    let s = serialize_block("src/u.rs", "pub fn u() {}", Some(MdPatternType::Raw));
    assert_eq!(s, "// file: src/u.rs\n```rust\npub fn u() {}\n```\n\n");
}

#[test]
fn serialize_file_code_exact() {
    let s = serialize_block("a.rs", "fn a() {}", Some(MdPatternType::FileCode));
    assert_eq!(s, "<file> a.rs </file>\n<code>\nfn a() {}\n</code>\n\n");
}

#[test]
fn serialize_default_is_file_fence() {
    let with = serialize_block("a.rs", "fn a() {}", Some(MdPatternType::FileFence));
    let without = serialize_block("a.rs", "fn a() {}", None);
    assert_eq!(with, without);
    assert_eq!(with, "### <file> a.rs </file>\n```rust\nfn a() {}\n```\n\n");
}

#[test]
fn language_tags_follow_extension() {
    assert!(serialize_block("a.ts", "x", Some(MdPatternType::HashMarker)).contains("```typescript\n"));
    assert!(serialize_block("a.js", "x", Some(MdPatternType::HashMarker)).contains("```javascript\n"));
    assert!(serialize_block("a.dart", "x", Some(MdPatternType::HashMarker)).contains("```dart\n"));
    assert!(serialize_block("a.toml", "x", Some(MdPatternType::HashMarker)).contains("```toml\n"));
    assert!(serialize_block("a.unknown", "x", Some(MdPatternType::HashMarker)).contains("```\nx"));
}

#[test]
fn round_trip_each_grammar() {
    let kinds = [
        MdPatternType::CodeTag,
        MdPatternType::HashMarker,
        MdPatternType::Delimiter,
        MdPatternType::Raw,
        MdPatternType::FileFence,
    ];
    let record = ParsedFile {
        path: String::from("src/deep/code.rs"),
        content: String::from("fn one() {}\n\nfn two() {\n    let x: u8 = 1;\n}"),
    };
    for k in kinds {
        let text = serialize_block(&record.path, &record.content, Some(k));
        let parsed = parse_content(&text, Some(k));
        assert_eq!(parsed.len(), 1);
        assert_eq!(parsed[0].path, record.path);
        assert_eq!(parsed[0].content, record.content);
    }
}

#[test]
fn tree_builder_shares_prefixes() {
    let paths = vec![
        String::from("a/b.rs"),
        String::from("a/c.rs"),
        String::from("d.rs"),
    ];
    let tree = build_tree(&paths);
    assert_eq!(
        tree,
        "\u{251C}\u{2500}\u{2500} a\n    \u{251C}\u{2500}\u{2500} b.rs\n    \u{251C}\u{2500}\u{2500} c.rs\n\u{251C}\u{2500}\u{2500} d.rs\n"
    );
}

#[test]
fn tree_builder_handles_deep_nesting() {
    let paths = vec![String::from("x/y/z.rs")];
    let tree = build_tree(&paths);
    assert_eq!(
        tree,
        "\u{251C}\u{2500}\u{2500} x\n    \u{251C}\u{2500}\u{2500} y\n        \u{251C}\u{2500}\u{2500} z.rs\n"
    );
}

#[test]
fn tree_markdown_wraps_the_tree() {
    let paths = vec![String::from("a.rs")];
    let md = tree_markdown(&paths);
    assert_eq!(
        md,
        "# Project structure\n\n```\n\u{251C}\u{2500}\u{2500} a.rs\n```\n"
    );
}

#[test]
fn manifest_names_always_included() {
    let c = config(vec![], None, None);
    assert!(should_include("Cargo.toml", &c));
    assert!(should_include("pubspec.yaml", &c));
    assert!(should_include("package.json", &c));
    let rust = config(vec![], Some("rust"), None);
    assert!(should_include("pubspec.yaml", &rust));
}

#[test]
fn rust_hint_narrows_to_src() {
    let c = config(vec![], Some("rust"), None);
    assert!(should_include("src/main.rs", &c));
    assert!(should_include("src/anything.xyz", &c));
    assert!(!should_include("lib/main.dart", &c));
    assert!(!should_include("examples/e.rs", &c));
}

#[test]
fn flutter_hint_narrows_to_lib() {
    let c = config(vec![], Some("flutter"), None);
    assert!(should_include("lib/main.dart", &c));
    assert!(!should_include("src/main.rs", &c));
}

#[test]
fn node_hint_narrows_to_src() {
    let c = config(vec![], Some("node"), None);
    assert!(should_include("src/index.ts", &c));
    assert!(!should_include("lib/x.js", &c));
}

#[test]
fn unknown_hint_falls_back_to_extensions() {
    let c = config(vec![], Some("zig"), None);
    assert!(should_include("src/a.rs", &c));
    assert!(should_include("web/x.ts", &c));
    assert!(!should_include("README.md", &c));
}

#[test]
fn no_hint_uses_extension_allow_list() {
    let c = config(vec![], None, None);
    assert!(should_include("deep/dir/a.dart", &c));
    assert!(should_include("a.js", &c));
    assert!(!should_include("a.md", &c));
    assert!(!should_include("no_extension", &c));
}

#[test]
fn select_paths_sorts_by_components() {
    let c = config(vec![], None, None);
    let paths = vec![
        String::from("d.rs"),
        String::from("a/c.rs"),
        String::from("a/b.rs"),
    ];
    let got = select_paths(paths, &c);
    assert_eq!(got, vec!["a/b.rs", "a/c.rs", "d.rs"]);
}

#[test]
fn select_paths_orders_directories_before_similar_names() {
    // component order: "a" precedes "a.c", so the file under "a" comes first
    let c = config(vec![], None, None);
    let paths = vec![String::from("a.c/x.rs"), String::from("a/b.rs")];
    let got = select_paths(paths, &c);
    assert_eq!(got, vec!["a/b.rs", "a.c/x.rs"]);
}

#[test]
fn skip_by_prefix_and_by_component() {
    let c = config(vec!["tests", "b.rs"], None, None);
    let paths = vec![
        String::from("src/a.rs"),
        String::from("tests/t.rs"),
        String::from("src/tests/u.rs"),
        String::from("b.rs"),
    ];
    let got = select_paths(paths, &c);
    assert_eq!(got, vec!["src/a.rs"]);
}

#[test]
fn render_markdown_whole_document() {
    let files = vec![
        ParsedFile { path: String::from("Cargo.toml"), content: String::from("[package]") },
        ParsedFile { path: String::from("src/main.rs"), content: String::from("fn main() {}") },
    ];
    let md = render_markdown(&files, Some(MdPatternType::HashMarker));
    let expected = "# Project structure\n\n```\n\u{251C}\u{2500}\u{2500} Cargo.toml\n\u{251C}\u{2500}\u{2500} src\n    \u{251C}\u{2500}\u{2500} main.rs\n```\n\n### Cargo.toml\n```toml\n[package]\n```\n\n### src/main.rs\n```rust\nfn main() {}\n```\n\n";
    assert_eq!(md, expected);
}

#[test]
fn render_markdown_round_trips_through_parser() {
    let files = vec![
        ParsedFile { path: String::from("Cargo.toml"), content: String::from("[package]\nname = \"demo\"") },
        ParsedFile { path: String::from("src/main.rs"), content: String::from("fn main() {}") },
    ];
    let md = render_markdown(&files, None);
    let parsed = parse_content(&md, None);
    assert_eq!(parsed.len(), 2);
    assert_eq!(parsed[0].path, "Cargo.toml");
    assert_eq!(parsed[0].content, "[package]\nname = \"demo\"");
    assert_eq!(parsed[1].path, "src/main.rs");
    assert_eq!(parsed[1].content, "fn main() {}");
}

#[test]
fn no_files_document_is_fixed() {
    assert_eq!(no_files_markdown(), "# Project structure\n\n*No files found*\n");
}
