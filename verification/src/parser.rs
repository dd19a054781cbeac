//! The entry point of the decode direction: run the six recognizers over a
//! document and resolve their outputs into one record sequence.
//!
//! Resolution is either forced — exactly one grammar's records, even when
//! empty — or automatic: every grammar's records concatenated, stably sorted
//! by path, and adjacent equal paths collapsed to the first.

use vstd::prelude::*;

use crate::grammar::{
    delim_scan, file_fence_scan, hash_scan, parse_delimiter_marker, parse_file_fence,
    parse_hash_marker, parse_raw_code_block, raw_scan,
};
use crate::record::{MdPatternType, ParsedFile, RecordV};
use crate::tag::{code_tag_scan, file_code_records, parse_code_tag, parse_file_code};
use crate::text::{lines_of, seq_lt, split_lines, str_eq, str_lt, str_to_chars, trim_chars, trimmed};

verus! {

/// A record placed after every record whose path does not exceed its own:
/// the stable insertion step.
pub open spec fn insert_sorted(x: RecordV, s: Seq<RecordV>) -> Seq<RecordV>
    decreases s.len(),
{
    if s.len() == 0 {
        seq![x]
    } else if !seq_lt(x.path, s[0].path) {
        seq![s[0]] + insert_sorted(x, s.drop_first())
    } else {
        seq![x] + s
    }
}

/// Stable sort by path: records with equal paths keep their relative order.
pub open spec fn sort_by_path(s: Seq<RecordV>) -> Seq<RecordV>
    decreases s.len(),
{
    if s.len() == 0 {
        Seq::empty()
    } else {
        insert_sorted(s.last(), sort_by_path(s.drop_last()))
    }
}

/// Adjacent records with equal paths collapse to the first.
pub open spec fn dedup_by_path(s: Seq<RecordV>) -> Seq<RecordV>
    decreases s.len(),
{
    if s.len() <= 1 {
        s
    } else if s[s.len() - 1].path == s[s.len() - 2].path {
        dedup_by_path(s.drop_last())
    } else {
        dedup_by_path(s.drop_last()) + seq![s.last()]
    }
}

/// The records one grammar yields over a whole (already trimmed) document.
pub open spec fn group_of(k: MdPatternType, t: Seq<char>) -> Seq<RecordV> {
    match k {
        MdPatternType::CodeTag => code_tag_scan(t, 0),
        MdPatternType::HashMarker => hash_scan(lines_of(t), 0),
        MdPatternType::Delimiter => delim_scan(lines_of(t), 0),
        MdPatternType::Raw => raw_scan(lines_of(t), 0),
        MdPatternType::FileCode => file_code_records(t),
        MdPatternType::FileFence => file_fence_scan(lines_of(t), 0),
    }
}

/// All six grammars' records, in the fixed grammar order.
pub open spec fn all_groups(t: Seq<char>) -> Seq<RecordV> {
    group_of(MdPatternType::CodeTag, t) + group_of(MdPatternType::HashMarker, t) + group_of(
        MdPatternType::Delimiter,
        t,
    ) + group_of(MdPatternType::Raw, t) + group_of(MdPatternType::FileCode, t) + group_of(
        MdPatternType::FileFence,
        t,
    )
}

/// What `parse_content` returns: the document is trimmed once, then either
/// one forced grammar's records stand — even when empty — or all six are
/// merged, sorted by path, and deduplicated.
pub open spec fn spec_parse_content(s: Seq<char>, forced: Option<MdPatternType>) -> Seq<RecordV> {
    let t = trimmed(s);
    match forced {
        Some(k) => group_of(k, t),
        None => dedup_by_path(sort_by_path(all_groups(t))),
    }
}

fn clone_record(f: &ParsedFile) -> (r: ParsedFile)
    ensures
        r@ == f@,
{
    ParsedFile { path: f.path.clone(), content: f.content.clone() }
}

/// Where the insertion step lands: after the longest prefix of records whose
/// paths do not exceed the new one.
pub proof fn lemma_insert_at(x: RecordV, s: Seq<RecordV>, p: int)
    requires
        0 <= p <= s.len(),
        forall|k: int| 0 <= k < p ==> !seq_lt(x.path, #[trigger] s[k].path),
        p < s.len() ==> seq_lt(x.path, s[p].path),
    ensures
        insert_sorted(x, s) == s.subrange(0, p) + seq![x] + s.skip(p),
    decreases p,
{
    if p == 0 {
        if s.len() == 0 {
            assert(s.subrange(0, 0) + seq![x] + s.skip(0) =~= seq![x]);
        } else {
            assert(s.subrange(0, 0) + seq![x] + s.skip(0) =~= seq![x] + s);
        }
    } else {
        assert(!seq_lt(x.path, s[0].path));
        let s1 = s.drop_first();
        assert(forall|k: int| 0 <= k < p - 1 ==> !seq_lt(x.path, #[trigger] s1[k].path)) by {
            assert(forall|k: int| 0 <= k < p - 1 ==> s1[k] == s[k + 1]);
        }
        lemma_insert_at(x, s1, p - 1);
        assert(seq![s[0]] + (s1.subrange(0, p - 1) + seq![x] + s1.skip(p - 1)) =~= s.subrange(0, p)
            + seq![x] + s.skip(p));
    }
}

/// One stable insertion, executably.
fn insert_record(s: Vec<ParsedFile>, x: ParsedFile) -> (r: Vec<ParsedFile>)
    ensures
        r.deep_view() == insert_sorted(x@, s.deep_view()),
{
    let ghost dv = s.deep_view();
    let mut out: Vec<ParsedFile> = Vec::new();
    let mut i: usize = 0;
    while i < s.len() && !str_lt(x.path.as_str(), s[i].path.as_str())
        invariant
            i <= s.len(),
            dv == s.deep_view(),
            dv.len() == s.len(),
            forall|k: int| 0 <= k < i ==> !seq_lt(x@.path, #[trigger] dv[k].path),
            out.deep_view() == dv.subrange(0, i as int),
        decreases s.len() - i,
    {
        let ghost dv0 = out.deep_view();
        out.push(clone_record(&s[i]));
        proof {
            assert(out.deep_view() =~= dv0.push(dv[i as int]));
            assert(dv0.push(dv[i as int]) =~= dv.subrange(0, i as int + 1));
        }
        i += 1;
    }
    let ghost p = i as int;
    proof {
        lemma_insert_at(x@, dv, p);
    }
    let ghost dv1 = out.deep_view();
    out.push(x);
    proof {
        assert(out.deep_view() =~= dv1.push(x@));
    }
    let mut j: usize = i;
    while j < s.len()
        invariant
            i <= j <= s.len(),
            dv == s.deep_view(),
            dv.len() == s.len(),
            out.deep_view() == dv.subrange(0, p) + seq![x@] + dv.subrange(p, j as int),
            p == i as int,
        decreases s.len() - j,
    {
        let ghost dv2 = out.deep_view();
        out.push(clone_record(&s[j]));
        proof {
            assert(out.deep_view() =~= dv2.push(dv[j as int]));
            assert(dv2.push(dv[j as int]) =~= dv.subrange(0, p) + seq![x@] + dv.subrange(
                p,
                j as int + 1,
            ));
        }
        j += 1;
    }
    proof {
        assert(dv.subrange(p, s.len() as int) =~= dv.skip(p));
        assert(out.deep_view() =~= dv.subrange(0, p) + seq![x@] + dv.skip(p));
    }
    out
}

/// Stable insertion sort by path, executably.
fn sort_records(v: Vec<ParsedFile>) -> (r: Vec<ParsedFile>)
    ensures
        r.deep_view() == sort_by_path(v.deep_view()),
{
    let ghost dv = v.deep_view();
    let mut out: Vec<ParsedFile> = Vec::new();
    let mut i: usize = 0;
    proof {
        assert(dv.take(0) =~= Seq::<RecordV>::empty());
        assert(out.deep_view() =~= Seq::<RecordV>::empty());
    }
    while i < v.len()
        invariant
            i <= v.len(),
            dv == v.deep_view(),
            dv.len() == v.len(),
            out.deep_view() == sort_by_path(dv.take(i as int)),
        decreases v.len() - i,
    {
        out = insert_record(out, clone_record(&v[i]));
        proof {
            let pre = dv.take(i as int + 1);
            assert(pre.drop_last() =~= dv.take(i as int));
            assert(pre.last() == dv[i as int]);
            assert(sort_by_path(pre) == insert_sorted(dv[i as int], sort_by_path(
                dv.take(i as int),
            )));
        }
        i += 1;
    }
    proof {
        assert(dv.take(v.len() as int) =~= dv);
    }
    out
}

/// Adjacent-path deduplication keeping the first of each run, executably.
fn dedup_records(v: Vec<ParsedFile>) -> (r: Vec<ParsedFile>)
    ensures
        r.deep_view() == dedup_by_path(v.deep_view()),
{
    let ghost dv = v.deep_view();
    let mut out: Vec<ParsedFile> = Vec::new();
    let mut i: usize = 0;
    proof {
        assert(dv.take(0) =~= Seq::<RecordV>::empty());
        assert(out.deep_view() =~= Seq::<RecordV>::empty());
    }
    while i < v.len()
        invariant
            i <= v.len(),
            dv == v.deep_view(),
            dv.len() == v.len(),
            out.deep_view() == dedup_by_path(dv.take(i as int)),
        decreases v.len() - i,
    {
        let ghost dv0 = out.deep_view();
        let keep = if i == 0 {
            true
        } else {
            !str_eq(v[i].path.as_str(), v[i - 1].path.as_str())
        };
        proof {
            let pre = dv.take(i as int + 1);
            assert(pre.drop_last() =~= dv.take(i as int));
            assert(pre.last() == dv[i as int]);
            if i > 0 {
                assert(pre[i as int - 1] == dv[i as int - 1]);
            }
        }
        if keep {
            out.push(clone_record(&v[i]));
            proof {
                assert(out.deep_view() =~= dv0.push(dv[i as int]));
                assert(dv0.push(dv[i as int]) =~= dedup_by_path(dv.take(i as int)) + seq![
                    dv[i as int],
                ]);
            }
        }
        i += 1;
    }
    proof {
        assert(dv.take(v.len() as int) =~= dv);
    }
    out
}

/// Parses the given document and returns every record the active grammars
/// extract.
///
/// When `forced` names a grammar, exactly that grammar's records are
/// returned, even when there are none; otherwise all six grammars run and
/// their outputs are merged, sorted by path, and deduplicated, the first
/// record of each equal-path run surviving. No input is an error: a document
/// matching nothing yields an empty sequence.
pub fn parse_content(content: &str, forced: Option<MdPatternType>) -> (r: Vec<ParsedFile>)
    ensures
        r.deep_view() == spec_parse_content(content@, forced),
{
    let raw = str_to_chars(content);
    let t = trim_chars(&raw);
    let lines = split_lines(&t);

    let group1 = parse_code_tag(&t);
    let group2 = parse_hash_marker(&lines);
    let group3 = parse_delimiter_marker(&lines);
    let group4 = parse_raw_code_block(&lines);
    let group5 = parse_file_code(&t);
    let group6 = parse_file_fence(&lines);

    if let Some(k) = forced {
        return match k {
            MdPatternType::CodeTag => group1,
            MdPatternType::HashMarker => group2,
            MdPatternType::Delimiter => group3,
            MdPatternType::Raw => group4,
            MdPatternType::FileCode => group5,
            MdPatternType::FileFence => group6,
        };
    }
    let ghost g1 = group1.deep_view();
    let ghost g2 = group2.deep_view();
    let ghost g3 = group3.deep_view();
    let ghost g4 = group4.deep_view();
    let ghost g5 = group5.deep_view();
    let ghost g6 = group6.deep_view();

    let mut all = group1;
    let mut rest2 = group2;
    let mut rest3 = group3;
    let mut rest4 = group4;
    let mut rest5 = group5;
    let mut rest6 = group6;
    all.append(&mut rest2);
    proof {
        assert(all.deep_view() =~= g1 + g2);
    }
    all.append(&mut rest3);
    proof {
        assert(all.deep_view() =~= (g1 + g2) + g3);
    }
    all.append(&mut rest4);
    proof {
        assert(all.deep_view() =~= ((g1 + g2) + g3) + g4);
    }
    all.append(&mut rest5);
    proof {
        assert(all.deep_view() =~= (((g1 + g2) + g3) + g4) + g5);
    }
    all.append(&mut rest6);
    proof {
        assert(all.deep_view() =~= ((((g1 + g2) + g3) + g4) + g5) + g6);
        assert(all.deep_view() =~= all_groups(trimmed(content@)));
    }
    let sorted = sort_records(all);
    dedup_records(sorted)
}

} // verus!
