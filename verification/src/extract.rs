//! The extraction direction: deciding which discovered paths are eligible,
//! ordering them, and rendering the whole annotated document.

use vstd::prelude::*;

use crate::record::{MdPatternType, ParsedFile, RecordV};
use crate::serialize::{spec_block, serialize_block};
use crate::text::{
    comp_lt, comp_lt_vec, components, ext_of, ext_of_chars, chars_eq_str, split_slash,
    starts_with, str_eq, str_starts_with, str_to_chars,
};
use crate::tree::{build_tree, tree_render};

verus! {

/// What the extraction direction is configured with: the root location, the
/// optional externally supplied ignore rules, the skip list, the optional
/// ecosystem hint, and the optional forced output grammar.
pub struct ExtractConfig {
    pub root: String,
    pub ignore_file: Option<String>,
    pub extra_ignores: Vec<String>,
    pub project_type: Option<String>,
    pub pattern: Option<MdPatternType>,
}

/// Whether the encode allow-list accepts a path's extension.
pub open spec fn encode_ext_ok(rel: Seq<char>) -> bool {
    let e = ext_of(rel);
    e == "rs"@ || e == "toml"@ || e == "json"@ || e == "js"@ || e == "ts"@ || e == "dart"@
}

/// Whether a discovered path is eligible for serialization: the three
/// manifest file names always are; an ecosystem hint narrows the rest to
/// that ecosystem's manifest and source root; otherwise the extension
/// allow-list decides.
pub open spec fn spec_should_include(rel: Seq<char>, pt: Option<Seq<char>>) -> bool {
    if rel == "Cargo.toml"@ || rel == "pubspec.yaml"@ || rel == "package.json"@ {
        true
    } else {
        match pt {
            Some(p) => if p == "flutter"@ {
                rel == "pubspec.yaml"@ || starts_with(rel, "lib/"@)
            } else if p == "rust"@ {
                rel == "Cargo.toml"@ || starts_with(rel, "src/"@)
            } else if p == "node"@ {
                rel == "package.json"@ || starts_with(rel, "src/"@)
            } else {
                encode_ext_ok(rel)
            },
            None => encode_ext_ok(rel),
        }
    }
}

fn encode_ext_ok_exec(rel: &str) -> (r: bool)
    ensures
        r == encode_ext_ok(rel@),
{
    let chars = str_to_chars(rel);
    let e = ext_of_chars(&chars);
    chars_eq_str(&e, "rs") || chars_eq_str(&e, "toml") || chars_eq_str(&e, "json") || chars_eq_str(
        &e,
        "js",
    ) || chars_eq_str(&e, "ts") || chars_eq_str(&e, "dart")
}

/// Decides inclusion of a root-relative path by the configured ecosystem
/// hint, or by the extension allow-list.
pub fn should_include(rel: &str, config: &ExtractConfig) -> (r: bool)
    ensures
        r == spec_should_include(rel@, config.project_type.deep_view()),
{
    if str_eq(rel, "Cargo.toml") || str_eq(rel, "pubspec.yaml") || str_eq(rel, "package.json") {
        return true;
    }
    match &config.project_type {
        Some(p) => {
            if str_eq(p.as_str(), "flutter") {
                str_eq(rel, "pubspec.yaml") || str_starts_with(rel, "lib/")
            } else if str_eq(p.as_str(), "rust") {
                str_eq(rel, "Cargo.toml") || str_starts_with(rel, "src/")
            } else if str_eq(p.as_str(), "node") {
                str_eq(rel, "package.json") || str_starts_with(rel, "src/")
            } else {
                encode_ext_ok_exec(rel)
            }
        },
        None => encode_ext_ok_exec(rel),
    }
}

// ---------------------------------------------------------------------------
// Ordering and the skip list
// ---------------------------------------------------------------------------

/// A path placed after every path not beyond it in component order: the
/// stable insertion step.
pub open spec fn insert_path(x: Seq<char>, s: Seq<Seq<char>>) -> Seq<Seq<char>>
    decreases s.len(),
{
    if s.len() == 0 {
        seq![x]
    } else if !comp_lt(components(x), components(s[0])) {
        seq![s[0]] + insert_path(x, s.drop_first())
    } else {
        seq![x] + s
    }
}

/// Stable sort of paths by their component lists.
pub open spec fn sort_paths(s: Seq<Seq<char>>) -> Seq<Seq<char>>
    decreases s.len(),
{
    if s.len() == 0 {
        Seq::empty()
    } else {
        insert_path(s.last(), sort_paths(s.drop_last()))
    }
}

/// Whether one skip pattern disqualifies a path: the path starts with the
/// pattern, or carries it as a whole component.
pub open spec fn skip_hit(rel: Seq<char>, pat: Seq<char>) -> bool {
    starts_with(rel, pat) || components(rel).contains(pat)
}

/// Whether a path survives every configured skip pattern.
pub open spec fn keeps(rel: Seq<char>, skips: Seq<Seq<char>>) -> bool {
    forall|i: int| 0 <= i < skips.len() ==> !skip_hit(rel, #[trigger] skips[i])
}

/// The paths surviving the skip list, in order.
pub open spec fn filter_skips(s: Seq<Seq<char>>, skips: Seq<Seq<char>>) -> Seq<Seq<char>>
    decreases s.len(),
{
    if s.len() == 0 {
        Seq::empty()
    } else if keeps(s[0], skips) {
        seq![s[0]] + filter_skips(s.drop_first(), skips)
    } else {
        filter_skips(s.drop_first(), skips)
    }
}

fn keeps_exec(rel: &str, skips: &Vec<String>) -> (r: bool)
    ensures
        r == keeps(rel@, skips.deep_view()),
{
    let ghost sk = skips.deep_view();
    let chars = str_to_chars(rel);
    let comps = split_slash(&chars);
    let mut i: usize = 0;
    while i < skips.len()
        invariant
            i <= skips.len(),
            sk == skips.deep_view(),
            sk.len() == skips.len(),
            comps.deep_view() == components(rel@),
            chars@ == rel@,
            forall|j: int| 0 <= j < i ==> !skip_hit(rel@, #[trigger] sk[j]),
        decreases skips.len() - i,
    {
        proof {
            assert(skips[i as int].deep_view() == sk[i as int]);
        }
        if str_starts_with(rel, skips[i].as_str()) {
            return false;
        }
        let mut k: usize = 0;
        while k < comps.len()
            invariant
                k <= comps.len(),
                sk == skips.deep_view(),
                sk.len() == skips.len(),
                i < skips.len(),
                comps.deep_view() == components(rel@),
                sk[i as int] == skips@[i as int]@,
                forall|j: int| 0 <= j < k ==> comps.deep_view()[j] != sk[i as int],
            decreases comps.len() - k,
        {
            proof {
                crate::text::lemma_deep_index_chars(&comps, k as int);
            }
            if chars_eq_str(&comps[k], skips[i].as_str()) {
                proof {
                    assert(components(rel@)[k as int] == sk[i as int]);
                    assert(components(rel@).contains(sk[i as int]));
                }
                return false;
            }
            k += 1;
        }
        proof {
            if components(rel@).contains(sk[i as int]) {
                let w = choose|w: int|
                    0 <= w < components(rel@).len() && components(rel@)[w] == sk[i as int];
                assert(comps.deep_view()[w] == sk[i as int]);
            }
        }
        i += 1;
    }
    true
}

fn clone_string(s: &String) -> (r: String)
    ensures
        r@ == s@,
{
    s.clone()
}

/// Where the path insertion step lands.
proof fn lemma_insert_path_at(x: Seq<char>, s: Seq<Seq<char>>, p: int)
    requires
        0 <= p <= s.len(),
        forall|k: int| 0 <= k < p ==> !comp_lt(components(x), components(#[trigger] s[k])),
        p < s.len() ==> comp_lt(components(x), components(s[p])),
    ensures
        insert_path(x, s) == s.subrange(0, p) + seq![x] + s.skip(p),
    decreases p,
{
    if p == 0 {
        if s.len() == 0 {
            assert(s.subrange(0, 0) + seq![x] + s.skip(0) =~= seq![x]);
        } else {
            assert(s.subrange(0, 0) + seq![x] + s.skip(0) =~= seq![x] + s);
        }
    } else {
        assert(!comp_lt(components(x), components(s[0])));
        let s1 = s.drop_first();
        assert(forall|k: int| 0 <= k < p - 1 ==> !comp_lt(
            components(x),
            components(#[trigger] s1[k]),
        )) by {
            assert(forall|k: int| 0 <= k < p - 1 ==> s1[k] == s[k + 1]);
        }
        lemma_insert_path_at(x, s1, p - 1);
        assert(seq![s[0]] + (s1.subrange(0, p - 1) + seq![x] + s1.skip(p - 1)) =~= s.subrange(0, p)
            + seq![x] + s.skip(p));
    }
}

/// Component order of two paths, executably.
fn path_lt_str(a: &str, b: &str) -> (r: bool)
    ensures
        r == comp_lt(components(a@), components(b@)),
{
    let ac = str_to_chars(a);
    let aparts = split_slash(&ac);
    let bc = str_to_chars(b);
    let bparts = split_slash(&bc);
    comp_lt_vec(&aparts, &bparts)
}

fn insert_path_vec(s: Vec<String>, x: String) -> (r: Vec<String>)
    ensures
        r.deep_view() == insert_path(x@, s.deep_view()),
{
    let ghost dv = s.deep_view();
    let mut out: Vec<String> = Vec::new();
    let mut i: usize = 0;
    while i < s.len() && !path_lt_str(x.as_str(), s[i].as_str())
        invariant
            i <= s.len(),
            dv == s.deep_view(),
            dv.len() == s.len(),
            forall|k: int| 0 <= k < i ==> !comp_lt(components(x@), components(#[trigger] dv[k])),
            out.deep_view() == dv.subrange(0, i as int),
        decreases s.len() - i,
    {
        let ghost dv0 = out.deep_view();
        out.push(clone_string(&s[i]));
        proof {
            assert(out.deep_view() =~= dv0.push(dv[i as int]));
            assert(dv0.push(dv[i as int]) =~= dv.subrange(0, i as int + 1));
        }
        i += 1;
    }
    let ghost p = i as int;
    proof {
        lemma_insert_path_at(x@, dv, p);
    }
    let ghost dv1 = out.deep_view();
    out.push(x);
    proof {
        assert(out.deep_view() =~= dv1.push(out@.last()@));
    }
    let mut j: usize = i;
    while j < s.len()
        invariant
            i <= j <= s.len(),
            dv == s.deep_view(),
            dv.len() == s.len(),
            out.deep_view() == dv.subrange(0, p) + seq![x@] + dv.subrange(p, j as int),
            p == i as int,
        decreases s.len() - j,
    {
        let ghost dv2 = out.deep_view();
        out.push(clone_string(&s[j]));
        proof {
            assert(out.deep_view() =~= dv2.push(dv[j as int]));
            assert(dv2.push(dv[j as int]) =~= dv.subrange(0, p) + seq![x@] + dv.subrange(
                p,
                j as int + 1,
            ));
        }
        j += 1;
    }
    proof {
        assert(dv.subrange(p, s.len() as int) =~= dv.skip(p));
        assert(out.deep_view() =~= dv.subrange(0, p) + seq![x@] + dv.skip(p));
    }
    out
}

/// Sorts the discovered paths by component order, then applies the skip
/// list: a path is dropped when it starts with a configured pattern or
/// carries one as an exact component.
pub fn select_paths(paths: Vec<String>, config: &ExtractConfig) -> (r: Vec<String>)
    ensures
        r.deep_view() == filter_skips(
            sort_paths(paths.deep_view()),
            config.extra_ignores.deep_view(),
        ),
{
    let ghost pv = paths.deep_view();
    let mut sorted: Vec<String> = Vec::new();
    let mut i: usize = 0;
    proof {
        assert(pv.take(0) =~= Seq::<Seq<char>>::empty());
        assert(sorted.deep_view() =~= Seq::<Seq<char>>::empty());
    }
    while i < paths.len()
        invariant
            i <= paths.len(),
            pv == paths.deep_view(),
            pv.len() == paths.len(),
            sorted.deep_view() == sort_paths(pv.take(i as int)),
        decreases paths.len() - i,
    {
        proof {
            assert(paths[i as int].deep_view() == pv[i as int]);
        }
        sorted = insert_path_vec(sorted, clone_string(&paths[i]));
        proof {
            let pre = pv.take(i as int + 1);
            assert(pre.drop_last() =~= pv.take(i as int));
            assert(pre.last() == pv[i as int]);
        }
        i += 1;
    }
    proof {
        assert(pv.take(paths.len() as int) =~= pv);
    }
    let ghost sv = sorted.deep_view();
    let ghost sk = config.extra_ignores.deep_view();
    let mut out: Vec<String> = Vec::new();
    let mut j: usize = 0;
    proof {
        assert(out.deep_view() =~= Seq::<Seq<char>>::empty());
        assert(sv.skip(0) =~= sv);
        assert(out.deep_view() + filter_skips(sv.skip(0), sk) =~= filter_skips(sv, sk));
    }
    while j < sorted.len()
        invariant
            j <= sorted.len(),
            sv == sorted.deep_view(),
            sv.len() == sorted.len(),
            sk == config.extra_ignores.deep_view(),
            filter_skips(sv, sk) == out.deep_view() + filter_skips(sv.skip(j as int), sk),
        decreases sorted.len() - j,
    {
        let ghost dv0 = out.deep_view();
        proof {
            assert(sorted[j as int].deep_view() == sv[j as int]);
            assert(sv.skip(j as int).len() > 0);
            assert(sv.skip(j as int)[0] == sv[j as int]);
            assert(sv.skip(j as int).drop_first() =~= sv.skip(j as int + 1));
        }
        if keeps_exec(sorted[j].as_str(), &config.extra_ignores) {
            out.push(clone_string(&sorted[j]));
            proof {
                assert(out.deep_view() =~= dv0.push(sv[j as int]));
                assert(dv0.push(sv[j as int]) + filter_skips(sv.skip(j as int + 1), sk) =~= dv0 + (
                seq![sv[j as int]] + filter_skips(sv.skip(j as int + 1), sk)));
            }
        }
        j += 1;
    }
    proof {
        assert(sv.skip(sorted.len() as int) =~= Seq::<Seq<char>>::empty());
        assert(out.deep_view() + filter_skips(sv.skip(sorted.len() as int), sk)
            =~= out.deep_view());
    }
    out
}

// ---------------------------------------------------------------------------
// Rendering the whole document
// ---------------------------------------------------------------------------

/// One serializer block per record, concatenated in order.
pub open spec fn spec_blocks(files: Seq<RecordV>, k: Option<MdPatternType>) -> Seq<char>
    decreases files.len(),
{
    if files.len() == 0 {
        Seq::empty()
    } else {
        spec_block(files[0].path, files[0].content, k) + spec_blocks(files.drop_first(), k)
    }
}

/// The whole annotated document: a header, the fenced tree of the files'
/// paths, then one serializer block per file in the given order.
pub open spec fn spec_render(files: Seq<RecordV>, k: Option<MdPatternType>) -> Seq<char> {
    "# Project structure\n\n```\n"@ + tree_render(files.map_values(|r: RecordV| r.path))
        + "```\n\n"@ + spec_blocks(files, k)
}

/// Renders the included files, already read and in final order, as one
/// annotated document under the configured output grammar.
pub fn render_markdown(files: &Vec<ParsedFile>, pattern: Option<MdPatternType>) -> (r: String)
    ensures
        r@ == spec_render(files.deep_view(), pattern),
{
    let ghost fv = files.deep_view();
    let mut paths: Vec<String> = Vec::new();
    let mut i: usize = 0;
    while i < files.len()
        invariant
            i <= files.len(),
            fv == files.deep_view(),
            fv.len() == files.len(),
            paths.deep_view().len() == i,
            forall|j: int| 0 <= j < i ==> paths.deep_view()[j] == fv[j].path,
        decreases files.len() - i,
    {
        let ghost pd0 = paths.deep_view();
        proof {
            assert(files[i as int].deep_view() == fv[i as int]);
        }
        paths.push(clone_string(&files[i].path));
        proof {
            assert(paths.deep_view() =~= pd0.push(fv[i as int].path));
        }
        i += 1;
    }
    proof {
        assert(paths.deep_view() =~= fv.map_values(|r: RecordV| r.path));
    }
    let tree = build_tree(&paths);
    let mut s = String::new();
    s.append("# Project structure\n\n```\n");
    s.append(tree.as_str());
    s.append("```\n\n");
    let ghost head = s@;
    let mut b: usize = 0;
    proof {
        assert(fv.skip(0) =~= fv);
    }
    while b < files.len()
        invariant
            b <= files.len(),
            fv == files.deep_view(),
            fv.len() == files.len(),
            head + spec_blocks(fv, pattern) == s@ + spec_blocks(fv.skip(b as int), pattern),
        decreases files.len() - b,
    {
        let ghost s0 = s@;
        proof {
            assert(files[b as int].deep_view() == fv[b as int]);
            assert(fv.skip(b as int).len() > 0);
            assert(fv.skip(b as int)[0] == fv[b as int]);
            assert(fv.skip(b as int).drop_first() =~= fv.skip(b as int + 1));
        }
        let block = serialize_block(files[b].path.as_str(), files[b].content.as_str(), pattern);
        s.append(block.as_str());
        proof {
            assert(s@ + spec_blocks(fv.skip(b as int + 1), pattern) =~= s0 + (spec_block(
                fv[b as int].path,
                fv[b as int].content,
                pattern,
            ) + spec_blocks(fv.skip(b as int + 1), pattern)));
        }
        b += 1;
    }
    proof {
        assert(spec_blocks(fv.skip(files.len() as int), pattern) =~= Seq::<char>::empty());
        assert(s@ + spec_blocks(fv.skip(files.len() as int), pattern) =~= s@);
        assert(s@ =~= spec_render(fv, pattern));
    }
    s
}

/// The fixed document produced when the walk finds nothing to include.
pub fn no_files_markdown() -> (r: String)
    ensures
        r@ == "# Project structure\n\n*No files found*\n"@,
{
    let mut s = String::new();
    s.append("# Project structure\n\n*No files found*\n");
    s
}

} // verus!
