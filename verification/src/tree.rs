//! The tree builder: renders an already sorted path list as an indented
//! ASCII tree, one line per newly seen component, every branch drawn alike.

use vstd::prelude::*;

use crate::text::{chars_to_string, components, split_slash, str_to_chars, vec_eq_chars};

verus! {

/// Four blanks per depth level.
pub open spec fn spec_indent(d: int) -> Seq<char>
    decreases d,
{
    if d <= 0 {
        Seq::empty()
    } else {
        spec_indent(d - 1) + "    "@
    }
}

/// Length of the common leading run of two component lists.
pub open spec fn common_len(a: Seq<Seq<char>>, b: Seq<Seq<char>>) -> int
    decreases a.len(),
{
    if a.len() > 0 && b.len() > 0 && a[0] == b[0] {
        1 + common_len(a.drop_first(), b.drop_first())
    } else {
        0
    }
}

/// The lines emitted for one path's components from index `k` on, each one
/// level deeper than the one before.
pub open spec fn emit_parts(parts: Seq<Seq<char>>, k: int) -> Seq<char>
    decreases parts.len() - k,
{
    if k < 0 || k >= parts.len() {
        Seq::empty()
    } else {
        spec_indent(k) + "\u{251C}\u{2500}\u{2500} "@ + parts[k] + "\n"@ + emit_parts(
            parts,
            k + 1,
        )
    }
}

/// The whole tree from path index `i` on, given the components of the
/// previously rendered path.
pub open spec fn tree_rec(paths: Seq<Seq<char>>, i: int, prev: Seq<Seq<char>>) -> Seq<char>
    decreases paths.len() - i,
{
    if i < 0 || i >= paths.len() {
        Seq::empty()
    } else {
        let parts = components(paths[i]);
        emit_parts(parts, common_len(prev, parts)) + tree_rec(paths, i + 1, parts)
    }
}

/// The rendered tree of a sorted path list.
pub open spec fn tree_render(paths: Seq<Seq<char>>) -> Seq<char> {
    tree_rec(paths, 0, Seq::empty())
}

/// Renders a sorted list of relative forward-slash paths as an indented
/// ASCII tree: for each path, every component below the common prefix with
/// the previous path gets one line, indented four blanks per depth.
pub fn build_tree(paths: &Vec<String>) -> (r: String)
    ensures
        r@ == tree_render(paths.deep_view()),
{
    let ghost pv = paths.deep_view();
    let mut out = String::new();
    let mut prev: Vec<Vec<char>> = Vec::new();
    let mut i: usize = 0;
    proof {
        assert(pv.len() == paths.len());
        assert(prev.deep_view() =~= Seq::<Seq<char>>::empty());
        assert(out@ + tree_rec(pv, 0, prev.deep_view()) =~= tree_rec(pv, 0, Seq::empty()));
    }
    while i < paths.len()
        invariant
            i <= paths.len(),
            pv == paths.deep_view(),
            pv.len() == paths.len(),
            tree_render(pv) == out@ + tree_rec(pv, i as int, prev.deep_view()),
        decreases paths.len() - i,
    {
        let chars = str_to_chars(paths[i].as_str());
        proof {
            assert(paths[i as int].deep_view() == pv[i as int]);
        }
        let parts = split_slash(&chars);
        let ghost parts_v = parts.deep_view();
        proof {
            assert(parts_v == components(pv[i as int]));
        }
        // common prefix length with the previous path's components
        let c = common_prefix_len(&prev, &parts);
        // emit one line per remaining component
        let mut k: usize = c;
        let ghost out_before = out@;
        while k < parts.len()
            invariant
                c <= k <= parts.len(),
                parts_v == parts.deep_view(),
                out@ + emit_parts(parts_v, k as int) == out_before + emit_parts(
                    parts_v,
                    c as int,
                ),
            decreases parts.len() - k,
        {
            let ghost before_line = out@;
            // indentation: four blanks per level
            let mut d: usize = 0;
            while d < k
                invariant
                    d <= k,
                    out@ == before_line + spec_indent(d as int),
                decreases k - d,
            {
                out.append("    ");
                d += 1;
            }
            out.append("\u{251C}\u{2500}\u{2500} ");
            let comp = chars_to_string(&parts[k]);
            out.append(comp.as_str());
            out.append("\n");
            proof {
                crate::text::lemma_deep_index_chars(&parts, k as int);
                assert(out@ =~= before_line + (spec_indent(k as int)
                    + "\u{251C}\u{2500}\u{2500} "@ + parts_v[k as int] + "\n"@));
                assert(emit_parts(parts_v, k as int) == spec_indent(k as int)
                    + "\u{251C}\u{2500}\u{2500} "@ + parts_v[k as int] + "\n"@ + emit_parts(
                    parts_v,
                    k as int + 1,
                ));
                assert(out@ + emit_parts(parts_v, k as int + 1) =~= before_line + emit_parts(
                    parts_v,
                    k as int,
                ));
            }
            k += 1;
        }
        proof {
            assert(emit_parts(parts_v, parts_v.len() as int) =~= Seq::<char>::empty());
            assert(out@ =~= out_before + emit_parts(parts_v, c as int));
            assert(tree_rec(pv, i as int, prev.deep_view()) == emit_parts(parts_v, c as int)
                + tree_rec(pv, i as int + 1, parts_v));
        }
        prev = parts;
        i += 1;
    }
    proof {
        assert(tree_rec(pv, i as int, prev.deep_view()) =~= Seq::<char>::empty());
    }
    out
}

/// Length of the common leading run of two component vectors.
fn common_prefix_len(a: &Vec<Vec<char>>, b: &Vec<Vec<char>>) -> (c: usize)
    ensures
        c as int == common_len(a.deep_view(), b.deep_view()),
        c <= a.len(),
        c <= b.len(),
{
    let mut c: usize = 0;
    while c < a.len() && c < b.len()
        invariant
            c <= a.len(),
            c <= b.len(),
            forall|j: int| 0 <= j < c ==> a.deep_view()[j] == b.deep_view()[j],
        decreases a.len() - c,
    {
        proof {
            crate::text::lemma_deep_index_chars(a, c as int);
            crate::text::lemma_deep_index_chars(b, c as int);
        }
        if !vec_eq_chars(&a[c], &b[c]) {
            proof {
                lemma_common_agrees(a.deep_view(), b.deep_view(), c as int);
            }
            return c;
        }
        c += 1;
    }
    proof {
        lemma_common_agrees(a.deep_view(), b.deep_view(), c as int);
    }
    c
}

/// The executable prefix scan lands exactly on `common_len`.
proof fn lemma_common_agrees(a: Seq<Seq<char>>, b: Seq<Seq<char>>, c: int)
    requires
        0 <= c <= a.len(),
        c <= b.len(),
        forall|j: int| 0 <= j < c ==> a[j] == b[j],
        c < a.len() && c < b.len() ==> a[c] != b[c],
    ensures
        common_len(a, b) == c,
    decreases c,
{
    if c == 0 {
        if a.len() > 0 && b.len() > 0 && a[0] == b[0] {
            assert(false);
        }
    } else {
        assert(a[0] == b[0]);
        let a1 = a.drop_first();
        let b1 = b.drop_first();
        assert(forall|j: int| 0 <= j < c - 1 ==> a1[j] == b1[j]) by {
            assert(forall|j: int| 0 <= j < c - 1 ==> a1[j] == a[j + 1] && b1[j] == b[j + 1]);
        }
        if c - 1 < a1.len() && c - 1 < b1.len() {
            assert(a1[c - 1] == a[c] && b1[c - 1] == b[c]);
        }
        lemma_common_agrees(a1, b1, c - 1);
    }
}

/// The project-structure document holding only the rendered tree.
pub fn tree_markdown(paths: &Vec<String>) -> (r: String)
    ensures
        r@ == "# Project structure\n\n```\n"@ + tree_render(paths.deep_view()) + "```\n"@,
{
    let mut s = String::new();
    s.append("# Project structure\n\n```\n");
    let t = build_tree(paths);
    s.append(t.as_str());
    s.append("```\n");
    s
}

} // verus!
