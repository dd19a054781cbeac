//! Header and token rules of the line-oriented grammars: which lines open a
//! file block, and which bare tokens count as file names.

use vstd::prelude::*;

use crate::fence::{
    extract_code_block, extract_loose_block, fence_content_loose, fence_content_strict,
    fence_end_loose, fence_end_strict, is_blank, is_loose_fence, is_strict_fence,
    lemma_fence_loose_bounds, lemma_fence_strict_bounds, blank_line, loose_fence_line,
    strict_fence_line,
};
use crate::record::{ParsedFile, RecordV};
use crate::text::{
    is_ws, trimmed, skip_ws, skip_ws_in, run_end, run_end_in, matches_at, matches_ci_at,
    ends_with, ends_with_ci, trim_chars, subrange_chars, ws_char, matches_lit, matches_lit_ci,
    ends_lit, ends_lit_ci, chars_to_string, join_nl,
    lemma_deep_index_chars,
};

verus! {

/// No blank space anywhere in the token.
pub open spec fn no_ws(t: Seq<char>) -> bool {
    forall|i: int| 0 <= i < t.len() ==> !is_ws(#[trigger] t[i])
}

/// A token with one of the extensions accepted when decoding, and a
/// non-empty stem before the dot.
pub open spec fn token_ok(t: Seq<char>) -> bool {
    (ends_with(t, seq!['.', 'r', 's']) && t.len() > 3) || (ends_with(
        t,
        seq!['.', 't', 'o', 'm', 'l'],
    ) && t.len() > 5) || (ends_with(t, seq!['.', 'j', 's', 'o', 'n']) && t.len() > 5)
}

/// `token_ok` under ASCII case folding of the extension.
pub open spec fn token_ok_ci(t: Seq<char>) -> bool {
    (ends_with_ci(t, seq!['.', 'r', 's']) && t.len() > 3) || (ends_with_ci(
        t,
        seq!['.', 't', 'o', 'm', 'l'],
    ) && t.len() > 5) || (ends_with_ci(t, seq!['.', 'j', 's', 'o', 'n']) && t.len() > 5)
}

/// A name whose suffix is an accepted extension; no demand on the stem.
pub open spec fn name_ok(t: Seq<char>) -> bool {
    ends_with(t, seq!['.', 'r', 's']) || ends_with(t, seq!['.', 't', 'o', 'm', 'l']) || ends_with(
        t,
        seq!['.', 'j', 's', 'o', 'n'],
    )
}

pub fn no_ws_exec(t: &Vec<char>) -> (r: bool)
    ensures
        r == no_ws(t@),
{
    let mut i: usize = 0;
    while i < t.len()
        invariant
            i <= t.len(),
            forall|j: int| 0 <= j < i ==> !is_ws(#[trigger] t@[j]),
        decreases t.len() - i,
    {
        if ws_char(t[i]) {
            return false;
        }
        i += 1;
    }
    true
}

pub fn token_ok_exec(t: &Vec<char>) -> (r: bool)
    ensures
        r == token_ok(t@),
{
    (ends_lit(t, &['.', 'r', 's']) && t.len() > 3) || (ends_lit(t, &['.', 't', 'o', 'm', 'l'])
        && t.len() > 5) || (ends_lit(t, &['.', 'j', 's', 'o', 'n']) && t.len() > 5)
}

pub fn token_ok_ci_exec(t: &Vec<char>) -> (r: bool)
    ensures
        r == token_ok_ci(t@),
{
    (ends_lit_ci(t, &['.', 'r', 's']) && t.len() > 3) || (ends_lit_ci(
        t,
        &['.', 't', 'o', 'm', 'l'],
    ) && t.len() > 5) || (ends_lit_ci(t, &['.', 'j', 's', 'o', 'n']) && t.len() > 5)
}

pub fn name_ok_exec(t: &Vec<char>) -> (r: bool)
    ensures
        r == name_ok(t@),
{
    ends_lit(t, &['.', 'r', 's']) || ends_lit(t, &['.', 't', 'o', 'm', 'l']) || ends_lit(
        t,
        &['.', 'j', 's', 'o', 'n'],
    )
}

// ---------------------------------------------------------------------------
// Heading-marker grammar: `### name.rs`
// ---------------------------------------------------------------------------

/// A heading line: one to six `#`s, blank space, then a bare file name
/// token with an accepted extension, nothing else.
pub open spec fn hash_header(l: Seq<char>) -> Option<Seq<char>> {
    let t = trimmed(l);
    let m = run_end(t, '#', 0);
    if 1 <= m <= 6 && m < t.len() && is_ws(t[m]) {
        let rest = t.skip(skip_ws(t, m));
        if rest.len() > 0 && no_ws(rest) && token_ok(rest) {
            Some(rest)
        } else {
            None
        }
    } else {
        None
    }
}

pub fn check_hash_header(l: &Vec<char>) -> (r: Option<Vec<char>>)
    ensures
        match r {
            Some(p) => hash_header(l@) == Some(p@),
            None => hash_header(l@) is None,
        },
{
    let t = trim_chars(l);
    let m = run_end_in(&t, '#', 0);
    if m < 1 || m > 6 || m >= t.len() || !ws_char(t[m]) {
        return None;
    }
    let a = skip_ws_in(&t, m);
    let rest = subrange_chars(&t, a, t.len());
    proof {
        assert(rest@ =~= t@.skip(a as int));
    }
    if rest.len() == 0 || !no_ws_exec(&rest) || !token_ok_exec(&rest) {
        return None;
    }
    Some(rest)
}

// ---------------------------------------------------------------------------
// Comment-header grammar: `// file: name.rs`
// ---------------------------------------------------------------------------

/// A comment header line: `//`, then `file:`, then a bare file name token,
/// nothing else.
pub open spec fn raw_header(l: Seq<char>) -> Option<Seq<char>> {
    let t = trimmed(l);
    if t.len() >= 2 && t[0] == '/' && t[1] == '/' {
        let a = skip_ws(t, 2);
        if matches_at(t, seq!['f', 'i', 'l', 'e', ':'], a) {
            let rest = t.skip(skip_ws(t, a + 5));
            if rest.len() > 0 && no_ws(rest) && token_ok(rest) {
                Some(rest)
            } else {
                None
            }
        } else {
            None
        }
    } else {
        None
    }
}

pub fn check_raw_header(l: &Vec<char>) -> (r: Option<Vec<char>>)
    ensures
        match r {
            Some(p) => raw_header(l@) == Some(p@),
            None => raw_header(l@) is None,
        },
{
    let t = trim_chars(l);
    if t.len() < 2 || !(t[0] == '/' && t[1] == '/') {
        return None;
    }
    let a = skip_ws_in(&t, 2);
    if !matches_lit(&t, a, &['f', 'i', 'l', 'e', ':']) {
        return None;
    }
    let b = skip_ws_in(&t, a + 5);
    let rest = subrange_chars(&t, b, t.len());
    proof {
        assert(rest@ =~= t@.skip(b as int));
    }
    if rest.len() == 0 || !no_ws_exec(&rest) || !token_ok_exec(&rest) {
        return None;
    }
    Some(rest)
}

// ---------------------------------------------------------------------------
// Delimiter-bracketed grammar: a name between two all-`=` lines
// ---------------------------------------------------------------------------

/// A line holding nothing but `=` characters, at least one.
pub open spec fn all_eq_line(l: Seq<char>) -> bool {
    let t = trimmed(l);
    t.len() > 0 && forall|i: int| 0 <= i < t.len() ==> #[trigger] t[i] == '='
}

pub fn all_eq_line_exec(l: &Vec<char>) -> (r: bool)
    ensures
        r == all_eq_line(l@),
{
    let t = trim_chars(l);
    if t.len() == 0 {
        return false;
    }
    let mut i: usize = 0;
    while i < t.len()
        invariant
            i <= t.len(),
            t@ == trimmed(l@),
            forall|j: int| 0 <= j < i ==> #[trigger] t@[j] == '=',
        decreases t.len() - i,
    {
        if t[i] != '=' {
            return false;
        }
        i += 1;
    }
    true
}

// ---------------------------------------------------------------------------
// Heading-plus-fence grammar: `### <file> name.rs </file>`
// ---------------------------------------------------------------------------

/// End of the run of characters that may stand in a `<file>` tag's name:
/// no blanks, no angle brackets.
pub open spec fn class_run_end(s: Seq<char>, i: int) -> int
    decreases s.len() - i,
{
    if 0 <= i < s.len() && !is_ws(s[i]) && s[i] != '<' && s[i] != '>' {
        class_run_end(s, i + 1)
    } else {
        i
    }
}

pub fn class_run_end_exec(v: &Vec<char>, from: usize) -> (r: usize)
    requires
        from <= v.len(),
    ensures
        r == class_run_end(v@, from as int),
        from <= r <= v.len(),
{
    let mut i: usize = from;
    while i < v.len() && !ws_char(v[i]) && v[i] != '<' && v[i] != '>'
        invariant
            from <= i <= v.len(),
            forall|j: int| from <= j < i ==> !is_ws(v@[j]) && v@[j] != '<' && v@[j] != '>',
        decreases v.len() - i,
    {
        i += 1;
    }
    proof {
        lemma_class_run_end_agrees(v@, from as int, i as int);
    }
    i
}

pub proof fn lemma_class_run_end_agrees(s: Seq<char>, from: int, i: int)
    requires
        0 <= from <= i <= s.len(),
        forall|j: int| from <= j < i ==> !is_ws(s[j]) && s[j] != '<' && s[j] != '>',
        i < s.len() ==> is_ws(s[i]) || s[i] == '<' || s[i] == '>',
    ensures
        class_run_end(s, from) == i,
    decreases i - from,
{
    if from < i {
        lemma_class_run_end_agrees(s, from + 1, i);
    }
}

/// A heading line wrapping a `<file>` tag: `#`s, the tag, a token with an
/// accepted extension, the closing tag, nothing else; tags fold case.
pub open spec fn file_heading(l: Seq<char>) -> Option<Seq<char>> {
    let a = skip_ws(l, 0);
    let m = run_end(l, '#', a);
    if 1 <= m - a <= 6 {
        let b = skip_ws(l, m);
        if matches_ci_at(l, seq!['<', 'f', 'i', 'l', 'e', '>'], b) {
            let c0 = skip_ws(l, b + 6);
            let e = class_run_end(l, c0);
            let tok = l.subrange(c0, e);
            if tok.len() > 0 && token_ok_ci(tok) {
                let d = skip_ws(l, e);
                if matches_ci_at(l, seq!['<', '/', 'f', 'i', 'l', 'e', '>'], d) && skip_ws(
                    l,
                    d + 7,
                ) == l.len() {
                    Some(tok)
                } else {
                    None
                }
            } else {
                None
            }
        } else {
            None
        }
    } else {
        None
    }
}

pub fn check_file_heading(l: &Vec<char>) -> (r: Option<Vec<char>>)
    ensures
        match r {
            Some(p) => file_heading(l@) == Some(p@),
            None => file_heading(l@) is None,
        },
{
    let a = skip_ws_in(l, 0);
    let m = run_end_in(l, '#', a);
    if m - a < 1 || m - a > 6 {
        return None;
    }
    let b = skip_ws_in(l, m);
    if !matches_lit_ci(l, b, &['<', 'f', 'i', 'l', 'e', '>']) {
        return None;
    }
    let c0 = skip_ws_in(l, b + 6);
    let e = class_run_end_exec(l, c0);
    let tok = subrange_chars(l, c0, e);
    if tok.len() == 0 || !token_ok_ci_exec(&tok) {
        return None;
    }
    let d = skip_ws_in(l, e);
    if !matches_lit_ci(l, d, &['<', '/', 'f', 'i', 'l', 'e', '>']) {
        return None;
    }
    if skip_ws_in(l, d + 7) != l.len() {
        return None;
    }
    Some(tok)
}

// ---------------------------------------------------------------------------
// Scanning whole documents, line by line
// ---------------------------------------------------------------------------

/// First line index at or after `i` that is not blank.
pub open spec fn skip_blanks(lines: Seq<Seq<char>>, i: int) -> int
    decreases lines.len() - i,
{
    if 0 <= i < lines.len() && is_blank(lines[i]) {
        skip_blanks(lines, i + 1)
    } else {
        i
    }
}

pub proof fn lemma_skip_blanks(lines: Seq<Seq<char>>, i: int)
    requires
        0 <= i <= lines.len(),
    ensures
        i <= skip_blanks(lines, i) <= lines.len(),
        forall|j: int| i <= j < skip_blanks(lines, i) ==> is_blank(lines[j]),
        skip_blanks(lines, i) < lines.len() ==> !is_blank(lines[skip_blanks(lines, i)]),
    decreases lines.len() - i,
{
    if 0 <= i < lines.len() && is_blank(lines[i]) {
        lemma_skip_blanks(lines, i + 1);
    }
}

pub fn skip_blank_lines(lines: &Vec<Vec<char>>, from: usize) -> (r: usize)
    requires
        from <= lines.len(),
    ensures
        r == skip_blanks(lines.deep_view(), from as int),
        from <= r <= lines.len(),
{
    let ghost dv = lines.deep_view();
    let mut j: usize = from;
    while j < lines.len()
        invariant
            from <= j <= lines.len(),
            dv == lines.deep_view(),
            dv.len() == lines.len(),
            forall|k: int| from <= k < j ==> is_blank(dv[k]),
        decreases lines.len() - j,
    {
        proof {
            lemma_deep_index_chars(lines, j as int);
        }
        if !blank_line(&lines[j]) {
            proof {
                lemma_skip_blanks(dv, from as int);
                let k = skip_blanks(dv, from as int);
                if k < j {
                    assert(!is_blank(dv[k]));
                }
                if j < k {
                    assert(is_blank(dv[j as int]));
                }
            }
            return j;
        }
        j += 1;
    }
    proof {
        lemma_skip_blanks(dv, from as int);
        let k = skip_blanks(dv, from as int);
        if k < j {
            assert(!is_blank(dv[k]));
        }
    }
    j
}

/// The records the heading-marker grammar yields from line `i` on: a
/// heading, optional blank lines, an opening fence, then fenced content.
pub open spec fn hash_scan(lines: Seq<Seq<char>>, i: int) -> Seq<RecordV>
    decreases lines.len() - i,
{
    if i < 0 || i >= lines.len() {
        Seq::empty()
    } else {
        match hash_header(lines[i]) {
            Some(p) => {
                let j = skip_blanks(lines, i + 1);
                if i + 1 <= j < lines.len() && is_strict_fence(lines[j]) {
                    let k = fence_end_strict(lines, j + 1);
                    proof {
                        lemma_fence_strict_bounds(lines, j + 1);
                    }
                    seq![
                        RecordV {
                            path: p,
                            content: trimmed(join_nl(fence_content_strict(lines, j + 1))),
                        },
                    ] + hash_scan(lines, k)
                } else {
                    hash_scan(lines, i + 1)
                }
            },
            None => hash_scan(lines, i + 1),
        }
    }
}

/// The records the comment-header grammar yields from line `i` on.
pub open spec fn raw_scan(lines: Seq<Seq<char>>, i: int) -> Seq<RecordV>
    decreases lines.len() - i,
{
    if i < 0 || i >= lines.len() {
        Seq::empty()
    } else {
        match raw_header(lines[i]) {
            Some(p) => {
                let j = skip_blanks(lines, i + 1);
                if i + 1 <= j < lines.len() && is_strict_fence(lines[j]) {
                    let k = fence_end_strict(lines, j + 1);
                    proof {
                        lemma_fence_strict_bounds(lines, j + 1);
                    }
                    seq![
                        RecordV {
                            path: p,
                            content: trimmed(join_nl(fence_content_strict(lines, j + 1))),
                        },
                    ] + raw_scan(lines, k)
                } else {
                    raw_scan(lines, i + 1)
                }
            },
            None => raw_scan(lines, i + 1),
        }
    }
}

/// The records the delimiter-bracketed grammar yields from line `i` on: an
/// all-`=` line, a name line, another all-`=` line, blanks, then a fence.
pub open spec fn delim_scan(lines: Seq<Seq<char>>, i: int) -> Seq<RecordV>
    decreases lines.len() - i,
{
    if i < 0 || i >= lines.len() {
        Seq::empty()
    } else if all_eq_line(lines[i]) && i + 2 < lines.len() && name_ok(trimmed(lines[i + 1]))
        && all_eq_line(lines[i + 2]) {
        let j = skip_blanks(lines, i + 3);
        if i + 3 <= j < lines.len() && is_strict_fence(lines[j]) {
            let k = fence_end_strict(lines, j + 1);
            proof {
                lemma_fence_strict_bounds(lines, j + 1);
            }
            seq![
                RecordV {
                    path: trimmed(lines[i + 1]),
                    content: trimmed(join_nl(fence_content_strict(lines, j + 1))),
                },
            ] + delim_scan(lines, k)
        } else {
            delim_scan(lines, i + 1)
        }
    } else {
        delim_scan(lines, i + 1)
    }
}

/// The records the heading-plus-fence grammar yields from line `i` on; its
/// fence rule is the loose one.
pub open spec fn file_fence_scan(lines: Seq<Seq<char>>, i: int) -> Seq<RecordV>
    decreases lines.len() - i,
{
    if i < 0 || i >= lines.len() {
        Seq::empty()
    } else {
        match file_heading(lines[i]) {
            Some(p) => {
                let j = skip_blanks(lines, i + 1);
                if i + 1 <= j < lines.len() && is_loose_fence(lines[j]) {
                    let k = fence_end_loose(lines, j + 1);
                    proof {
                        lemma_fence_loose_bounds(lines, j + 1);
                    }
                    seq![
                        RecordV {
                            path: p,
                            content: trimmed(join_nl(fence_content_loose(lines, j + 1))),
                        },
                    ] + file_fence_scan(lines, k)
                } else {
                    file_fence_scan(lines, i + 1)
                }
            },
            None => file_fence_scan(lines, i + 1),
        }
    }
}

/// Heading-marker recognizer over a document's lines.
pub fn parse_hash_marker(lines: &Vec<Vec<char>>) -> (r: Vec<ParsedFile>)
    ensures
        r.deep_view() == hash_scan(lines.deep_view(), 0),
{
    let ghost dv = lines.deep_view();
    let mut out: Vec<ParsedFile> = Vec::new();
    let mut i: usize = 0;
    proof {
        assert(out.deep_view() =~= Seq::<RecordV>::empty());
        assert(out.deep_view() + hash_scan(dv, 0) =~= hash_scan(dv, 0));
    }
    while i < lines.len()
        invariant
            i <= lines.len(),
            dv == lines.deep_view(),
            dv.len() == lines.len(),
            hash_scan(dv, 0) == out.deep_view() + hash_scan(dv, i as int),
        decreases lines.len() - i,
    {
        let ghost dv0 = out.deep_view();
        proof {
            lemma_deep_index_chars(lines, i as int);
        }
        let header = check_hash_header(&lines[i]);
        match header {
            Some(p) => {
                let j = skip_blank_lines(lines, i + 1);
                let mut fence_ok = false;
                if j < lines.len() {
                    proof {
                        lemma_deep_index_chars(lines, j as int);
                    }
                    fence_ok = strict_fence_line(&lines[j]);
                }
                if fence_ok {
                    let (content, k) = extract_code_block(lines, j + 1);
                    let ctrim = trim_chars(&content);
                    let rec = ParsedFile {
                        path: chars_to_string(&p),
                        content: chars_to_string(&ctrim),
                    };
                    proof {
                        let recv = RecordV {
                            path: p@,
                            content: trimmed(join_nl(fence_content_strict(dv, j + 1))),
                        };
                        assert(rec@ == recv);
                        assert(hash_scan(dv, i as int) == seq![recv] + hash_scan(dv, k as int));
                    }
                    out.push(rec);
                    proof {
                        assert(out.deep_view() =~= dv0.push(rec@));
                        assert(dv0.push(rec@) + hash_scan(dv, k as int) =~= dv0 + (seq![rec@]
                            + hash_scan(dv, k as int)));
                    }
                    i = k;
                } else {
                    proof {
                        assert(hash_scan(dv, i as int) == hash_scan(dv, i as int + 1));
                    }
                    i += 1;
                }
            },
            None => {
                proof {
                    assert(hash_scan(dv, i as int) == hash_scan(dv, i as int + 1));
                }
                i += 1;
            },
        }
    }
    proof {
        assert(hash_scan(dv, i as int) =~= Seq::<RecordV>::empty());
        assert(out.deep_view() + hash_scan(dv, i as int) =~= out.deep_view());
    }
    out
}

/// Comment-header recognizer over a document's lines.
pub fn parse_raw_code_block(lines: &Vec<Vec<char>>) -> (r: Vec<ParsedFile>)
    ensures
        r.deep_view() == raw_scan(lines.deep_view(), 0),
{
    let ghost dv = lines.deep_view();
    let mut out: Vec<ParsedFile> = Vec::new();
    let mut i: usize = 0;
    proof {
        assert(out.deep_view() =~= Seq::<RecordV>::empty());
        assert(out.deep_view() + raw_scan(dv, 0) =~= raw_scan(dv, 0));
    }
    while i < lines.len()
        invariant
            i <= lines.len(),
            dv == lines.deep_view(),
            dv.len() == lines.len(),
            raw_scan(dv, 0) == out.deep_view() + raw_scan(dv, i as int),
        decreases lines.len() - i,
    {
        let ghost dv0 = out.deep_view();
        proof {
            lemma_deep_index_chars(lines, i as int);
        }
        let header = check_raw_header(&lines[i]);
        match header {
            Some(p) => {
                let j = skip_blank_lines(lines, i + 1);
                let mut fence_ok = false;
                if j < lines.len() {
                    proof {
                        lemma_deep_index_chars(lines, j as int);
                    }
                    fence_ok = strict_fence_line(&lines[j]);
                }
                if fence_ok {
                    let (content, k) = extract_code_block(lines, j + 1);
                    let ctrim = trim_chars(&content);
                    let rec = ParsedFile {
                        path: chars_to_string(&p),
                        content: chars_to_string(&ctrim),
                    };
                    proof {
                        let recv = RecordV {
                            path: p@,
                            content: trimmed(join_nl(fence_content_strict(dv, j + 1))),
                        };
                        assert(rec@ == recv);
                        assert(raw_scan(dv, i as int) == seq![recv] + raw_scan(dv, k as int));
                    }
                    out.push(rec);
                    proof {
                        assert(out.deep_view() =~= dv0.push(rec@));
                        assert(dv0.push(rec@) + raw_scan(dv, k as int) =~= dv0 + (seq![rec@]
                            + raw_scan(dv, k as int)));
                    }
                    i = k;
                } else {
                    proof {
                        assert(raw_scan(dv, i as int) == raw_scan(dv, i as int + 1));
                    }
                    i += 1;
                }
            },
            None => {
                proof {
                    assert(raw_scan(dv, i as int) == raw_scan(dv, i as int + 1));
                }
                i += 1;
            },
        }
    }
    proof {
        assert(raw_scan(dv, i as int) =~= Seq::<RecordV>::empty());
        assert(out.deep_view() + raw_scan(dv, i as int) =~= out.deep_view());
    }
    out
}

/// Delimiter-bracketed recognizer over a document's lines.
pub fn parse_delimiter_marker(lines: &Vec<Vec<char>>) -> (r: Vec<ParsedFile>)
    ensures
        r.deep_view() == delim_scan(lines.deep_view(), 0),
{
    let ghost dv = lines.deep_view();
    let mut out: Vec<ParsedFile> = Vec::new();
    let mut i: usize = 0;
    proof {
        assert(out.deep_view() =~= Seq::<RecordV>::empty());
        assert(out.deep_view() + delim_scan(dv, 0) =~= delim_scan(dv, 0));
    }
    while i < lines.len()
        invariant
            i <= lines.len(),
            dv == lines.deep_view(),
            dv.len() == lines.len(),
            delim_scan(dv, 0) == out.deep_view() + delim_scan(dv, i as int),
        decreases lines.len() - i,
    {
        let ghost dv0 = out.deep_view();
        proof {
            lemma_deep_index_chars(lines, i as int);
        }
        let mut header_ok = false;
        if all_eq_line_exec(&lines[i]) && lines.len() >= 3 && i < lines.len() - 2 {
            proof {
                lemma_deep_index_chars(lines, i as int + 1);
                lemma_deep_index_chars(lines, i as int + 2);
            }
            let cand = trim_chars(&lines[i + 1]);
            if name_ok_exec(&cand) && all_eq_line_exec(&lines[i + 2]) {
                header_ok = true;
            }
        }
        if header_ok {
            let j = skip_blank_lines(lines, i + 3);
            let mut fence_ok = false;
            if j < lines.len() {
                proof {
                    lemma_deep_index_chars(lines, j as int);
                }
                fence_ok = strict_fence_line(&lines[j]);
            }
            if fence_ok {
                let (content, k) = extract_code_block(lines, j + 1);
                let ctrim = trim_chars(&content);
                let path = trim_chars(&lines[i + 1]);
                let rec = ParsedFile {
                    path: chars_to_string(&path),
                    content: chars_to_string(&ctrim),
                };
                proof {
                    lemma_deep_index_chars(lines, i as int + 1);
                    let recv = RecordV {
                        path: trimmed(dv[i as int + 1]),
                        content: trimmed(join_nl(fence_content_strict(dv, j + 1))),
                    };
                    assert(rec@ == recv);
                    assert(delim_scan(dv, i as int) == seq![recv] + delim_scan(dv, k as int));
                }
                out.push(rec);
                proof {
                    assert(out.deep_view() =~= dv0.push(rec@));
                    assert(dv0.push(rec@) + delim_scan(dv, k as int) =~= dv0 + (seq![rec@]
                        + delim_scan(dv, k as int)));
                }
                i = k;
            } else {
                proof {
                    assert(delim_scan(dv, i as int) == delim_scan(dv, i as int + 1));
                }
                i += 1;
            }
        } else {
            proof {
                assert(delim_scan(dv, i as int) == delim_scan(dv, i as int + 1));
            }
            i += 1;
        }
    }
    proof {
        assert(delim_scan(dv, i as int) =~= Seq::<RecordV>::empty());
        assert(out.deep_view() + delim_scan(dv, i as int) =~= out.deep_view());
    }
    out
}

/// Heading-plus-fence recognizer over a document's lines.
pub fn parse_file_fence(lines: &Vec<Vec<char>>) -> (r: Vec<ParsedFile>)
    ensures
        r.deep_view() == file_fence_scan(lines.deep_view(), 0),
{
    let ghost dv = lines.deep_view();
    let mut out: Vec<ParsedFile> = Vec::new();
    let mut i: usize = 0;
    proof {
        assert(out.deep_view() =~= Seq::<RecordV>::empty());
        assert(out.deep_view() + file_fence_scan(dv, 0) =~= file_fence_scan(dv, 0));
    }
    while i < lines.len()
        invariant
            i <= lines.len(),
            dv == lines.deep_view(),
            dv.len() == lines.len(),
            file_fence_scan(dv, 0) == out.deep_view() + file_fence_scan(dv, i as int),
        decreases lines.len() - i,
    {
        let ghost dv0 = out.deep_view();
        proof {
            lemma_deep_index_chars(lines, i as int);
        }
        let header = check_file_heading(&lines[i]);
        match header {
            Some(p) => {
                let j = skip_blank_lines(lines, i + 1);
                let mut fence_ok = false;
                if j < lines.len() {
                    proof {
                        lemma_deep_index_chars(lines, j as int);
                    }
                    fence_ok = loose_fence_line(&lines[j]);
                }
                if fence_ok {
                    let (content, k) = extract_loose_block(lines, j + 1);
                    let ctrim = trim_chars(&content);
                    let rec = ParsedFile {
                        path: chars_to_string(&p),
                        content: chars_to_string(&ctrim),
                    };
                    proof {
                        let recv = RecordV {
                            path: p@,
                            content: trimmed(join_nl(fence_content_loose(dv, j + 1))),
                        };
                        assert(rec@ == recv);
                        assert(file_fence_scan(dv, i as int) == seq![recv] + file_fence_scan(
                            dv,
                            k as int,
                        ));
                    }
                    out.push(rec);
                    proof {
                        assert(out.deep_view() =~= dv0.push(rec@));
                        assert(dv0.push(rec@) + file_fence_scan(dv, k as int) =~= dv0 + (seq![rec@]
                            + file_fence_scan(dv, k as int)));
                    }
                    i = k;
                } else {
                    proof {
                        assert(file_fence_scan(dv, i as int) == file_fence_scan(dv, i as int + 1));
                    }
                    i += 1;
                }
            },
            None => {
                proof {
                    assert(file_fence_scan(dv, i as int) == file_fence_scan(dv, i as int + 1));
                }
                i += 1;
            },
        }
    }
    proof {
        assert(file_fence_scan(dv, i as int) =~= Seq::<RecordV>::empty());
        assert(out.deep_view() + file_fence_scan(dv, i as int) =~= out.deep_view());
    }
    out
}

} // verus!
