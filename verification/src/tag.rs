//! The tag-oriented grammars: `<code path="...">` blocks, and `<file>` tags
//! paired positionally with `<code>` blocks.

use vstd::prelude::*;

use crate::grammar::token_ok_ci;
use crate::record::{ParsedFile, RecordV};
use crate::text::{
    is_ws, trimmed, trim_front, trim_back, skip_ws, skip_ws_in, matches_at, matches_ci_at,
    ends_with, find_char, find_ci, trim_chars, trim_front_chars, trim_back_chars, subrange_chars,
    ws_char, matches_lit, matches_lit_ci, ends_lit, chars_to_string, lemma_skip_ws,
    lemma_find_char_some, lemma_find_ci_some, lemma_find_ci_hit, lemma_find_ci_none,
    lemma_deep_index_chars, find_in,
};

verus! {

/// No line break of either kind in the token.
pub open spec fn no_cr_lf(p: Seq<char>) -> bool {
    forall|i: int| 0 <= i < p.len() ==> #[trigger] p[i] != '\r' && p[i] != '\n'
}

pub fn no_cr_lf_exec(p: &Vec<char>) -> (r: bool)
    ensures
        r == no_cr_lf(p@),
{
    let mut i: usize = 0;
    while i < p.len()
        invariant
            i <= p.len(),
            forall|j: int| 0 <= j < i ==> #[trigger] p@[j] != '\r' && p@[j] != '\n',
        decreases p.len() - i,
    {
        if p[i] == '\r' || p[i] == '\n' {
            return false;
        }
        i += 1;
    }
    true
}

/// An accidental fenced block nested directly inside a tag is tolerated:
/// an opening fence line is dropped, and a trailing fence with it.
pub open spec fn strip_nested_fence(c: Seq<char>) -> Seq<char> {
    if matches_at(c, seq!['`', '`', '`'], 0) {
        let c1 = match find_char(c, '\n', 0) {
            Some(pos) => trim_front(c.skip(pos)),
            None => c,
        };
        if ends_with(c1, seq!['`', '`', '`']) {
            trim_back(c1.take(c1.len() - 3))
        } else {
            c1
        }
    } else {
        c
    }
}

fn strip_fence_exec(c: &Vec<char>) -> (r: Vec<char>)
    ensures
        r@ == strip_nested_fence(c@),
{
    if !matches_lit(c, 0, &['`', '`', '`']) {
        let r = subrange_chars(c, 0, c.len());
        proof {
            assert(r@ =~= c@);
        }
        return r;
    }
    let c1 = match find_in(c, '\n', 0) {
        Some(pos) => {
            let t = subrange_chars(c, pos, c.len());
            proof {
                assert(t@ =~= c@.skip(pos as int));
            }
            trim_front_chars(&t)
        },
        None => {
            let t = subrange_chars(c, 0, c.len());
            proof {
                assert(t@ =~= c@);
            }
            t
        },
    };
    if ends_lit(&c1, &['`', '`', '`']) {
        let t2 = subrange_chars(&c1, 0, c1.len() - 3);
        proof {
            assert(t2@ =~= c1@.take(c1@.len() - 3));
        }
        trim_back_chars(&t2)
    } else {
        c1
    }
}

// ---------------------------------------------------------------------------
// Tag-wrapped grammar: `<code path="P"> ... </code>`
// ---------------------------------------------------------------------------

/// The match the tag-wrapped grammar makes at position `i`: the record and
/// the position just past `</code>`. Tags and the extension fold case; the
/// path may not hold quotes or line breaks; the block closes at the first
/// `</code>` that follows.
pub open spec fn code_tag_at(s: Seq<char>, i: int) -> Option<(RecordV, int)> {
    if matches_ci_at(s, seq!['<', 'c', 'o', 'd', 'e'], i) && i + 5 < s.len() && is_ws(s[i + 5]) {
        let b = skip_ws(s, i + 5);
        if matches_ci_at(s, seq!['p', 'a', 't', 'h'], b) {
            let d = skip_ws(s, b + 4);
            if d < s.len() && s[d] == '=' {
                let e = skip_ws(s, d + 1);
                if e < s.len() && s[e] == '"' {
                    match find_char(s, '"', e + 1) {
                        Some(q) => {
                            let p = s.subrange(e + 1, q);
                            if p.len() > 0 && no_cr_lf(p) && token_ok_ci(p) && q + 1 < s.len()
                                && s[q + 1] == '>' {
                                match find_ci(s, seq!['<', '/', 'c', 'o', 'd', 'e', '>'], q + 2) {
                                    Some(m) => Some(
                                        (
                                            RecordV {
                                                path: trimmed(p),
                                                content: strip_nested_fence(
                                                    trimmed(s.subrange(q + 2, m)),
                                                ),
                                            },
                                            m + 7,
                                        ),
                                    ),
                                    None => None,
                                }
                            } else {
                                None
                            }
                        },
                        None => None,
                    }
                } else {
                    None
                }
            } else {
                None
            }
        } else {
            None
        }
    } else {
        None
    }
}

pub proof fn lemma_code_tag_advances(s: Seq<char>, i: int)
    requires
        0 <= i,
        code_tag_at(s, i) is Some,
    ensures
        i < code_tag_at(s, i).unwrap().1 <= s.len(),
{
    let b = skip_ws(s, i + 5);
    lemma_skip_ws(s, i + 5);
    let d = skip_ws(s, b + 4);
    lemma_skip_ws(s, b + 4);
    let e = skip_ws(s, d + 1);
    lemma_skip_ws(s, d + 1);
    lemma_find_char_some(s, '"', e + 1);
    let q = find_char(s, '"', e + 1).unwrap();
    lemma_find_ci_some(s, seq!['<', '/', 'c', 'o', 'd', 'e', '>'], q + 2);
}

/// The records the tag-wrapped grammar yields from position `i` on:
/// leftmost matches, each scan resuming just past the previous block.
pub open spec fn code_tag_scan(s: Seq<char>, i: int) -> Seq<RecordV>
    decreases s.len() - i,
{
    if i < 0 || i >= s.len() {
        Seq::empty()
    } else {
        match code_tag_at(s, i) {
            Some((rec, k)) => {
                proof {
                    lemma_code_tag_advances(s, i);
                }
                seq![rec] + code_tag_scan(s, k)
            },
            None => code_tag_scan(s, i + 1),
        }
    }
}

/// One attempted tag-wrapped match, executably.
fn code_tag_try(v: &Vec<char>, i: usize) -> (r: Option<(ParsedFile, usize)>)
    requires
        i < v.len(),
    ensures
        match r {
            Some(rk) => code_tag_at(v@, i as int) == Some((rk.0@, rk.1 as int)) && i < rk.1
                <= v.len(),
            None => code_tag_at(v@, i as int) is None,
        },
{
    if !matches_lit_ci(v, i, &['<', 'c', 'o', 'd', 'e']) {
        return None;
    }
    if i + 5 >= v.len() || !ws_char(v[i + 5]) {
        return None;
    }
    let b = skip_ws_in(v, i + 5);
    if !matches_lit_ci(v, b, &['p', 'a', 't', 'h']) {
        return None;
    }
    let d = skip_ws_in(v, b + 4);
    if d >= v.len() || v[d] != '=' {
        return None;
    }
    let e = skip_ws_in(v, d + 1);
    if e >= v.len() || v[e] != '"' {
        return None;
    }
    match find_in(v, '"', e + 1) {
        Some(q) => {
            let p = subrange_chars(v, e + 1, q);
            if p.len() == 0 || !no_cr_lf_exec(&p) || !crate::grammar::token_ok_ci_exec(&p) {
                return None;
            }
            if q + 1 >= v.len() || v[q + 1] != '>' {
                return None;
            }
            match find_ci_in(v, &['<', '/', 'c', 'o', 'd', 'e', '>'], q + 2) {
                Some(m) => {
                    let span = subrange_chars(v, q + 2, m);
                    let code0 = trim_chars(&span);
                    let code = strip_fence_exec(&code0);
                    let ptrim = trim_chars(&p);
                    proof {
                        lemma_code_tag_advances(v@, i as int);
                    }
                    Some(
                        (
                            ParsedFile {
                                path: chars_to_string(&ptrim),
                                content: chars_to_string(&code),
                            },
                            m + 7,
                        ),
                    )
                },
                None => None,
            }
        },
        None => None,
    }
}

/// First position at or after `from` where `pat` occurs case-insensitively.
pub fn find_ci_in(v: &Vec<char>, pat: &[char], from: usize) -> (r: Option<usize>)
    requires
        from <= v.len(),
        pat.len() >= 1,
    ensures
        match r {
            Some(m) => find_ci(v@, pat@, from as int) == Some(m as int) && from <= m && m
                + pat@.len() <= v@.len(),
            None => find_ci(v@, pat@, from as int) is None,
        },
{
    if v.len() < pat.len() {
        return None;
    }
    let last = v.len() - pat.len();
    let mut j: usize = from;
    while j <= last
        invariant
            from <= j <= v.len(),
            last == v@.len() - pat@.len(),
            pat@.len() >= 1,
            forall|k: int| from <= k < j ==> !matches_ci_at(v@, pat@, k),
        decreases v.len() - j,
    {
        if matches_lit_ci(v, j, pat) {
            proof {
                lemma_find_ci_hit(v@, pat@, from as int, j as int);
            }
            return Some(j);
        }
        j += 1;
    }
    proof {
        assert forall|k: int| from <= k implies !matches_ci_at(v@, pat@, k) by {
            if k < j {
            } else {
                assert(k > last);
            }
        }
        lemma_find_ci_none(v@, pat@, from as int);
    }
    None
}

/// Tag-wrapped recognizer over a whole document.
pub fn parse_code_tag(t: &Vec<char>) -> (r: Vec<ParsedFile>)
    ensures
        r.deep_view() == code_tag_scan(t@, 0),
{
    let mut out: Vec<ParsedFile> = Vec::new();
    let mut i: usize = 0;
    proof {
        assert(out.deep_view() =~= Seq::<RecordV>::empty());
        assert(out.deep_view() + code_tag_scan(t@, 0) =~= code_tag_scan(t@, 0));
    }
    while i < t.len()
        invariant
            i <= t.len(),
            code_tag_scan(t@, 0) == out.deep_view() + code_tag_scan(t@, i as int),
        decreases t.len() - i,
    {
        let ghost dv0 = out.deep_view();
        match code_tag_try(t, i) {
            Some((rec, k)) => {
                proof {
                    assert(code_tag_scan(t@, i as int) == seq![rec@] + code_tag_scan(
                        t@,
                        k as int,
                    ));
                }
                out.push(rec);
                proof {
                    assert(out.deep_view() =~= dv0.push(out@.last()@));
                    assert(dv0.push(out@.last()@) + code_tag_scan(t@, k as int) =~= dv0 + (seq![
                        out@.last()@,
                    ] + code_tag_scan(t@, k as int)));
                }
                i = k;
            },
            None => {
                proof {
                    assert(code_tag_scan(t@, i as int) == code_tag_scan(t@, i as int + 1));
                }
                i += 1;
            },
        }
    }
    proof {
        assert(code_tag_scan(t@, i as int) =~= Seq::<RecordV>::empty());
        assert(out.deep_view() + code_tag_scan(t@, i as int) =~= out.deep_view());
    }
    out
}

// ---------------------------------------------------------------------------
// Paired-tag grammar: `<file> P </file>` with `<code> ... </code>`
// ---------------------------------------------------------------------------

/// A character that may stand in a `<file>` tag's name: anything but angle
/// brackets and line breaks.
pub open spec fn in_file_class(c: char) -> bool {
    c != '<' && c != '>' && c != '\r' && c != '\n'
}

/// Whether optional blanks and a case-folded `</file>` stand at `e`.
pub open spec fn closes_file(s: Seq<char>, e: int) -> bool {
    matches_ci_at(s, seq!['<', '/', 'f', 'i', 'l', 'e', '>'], skip_ws(s, e))
}

/// The shortest end of a name capture starting at `a`: the captured span
/// must end with an accepted extension and be followed by the closing tag;
/// it grows one admissible character at a time.
pub open spec fn file_path_end(s: Seq<char>, a: int, e: int) -> Option<int>
    decreases s.len() - e,
{
    if a < 0 || e < a || e > s.len() {
        None
    } else if token_ok_ci(s.subrange(a, e)) && closes_file(s, e) {
        Some(e)
    } else if e < s.len() && in_file_class(s[e]) {
        file_path_end(s, a, e + 1)
    } else {
        None
    }
}

pub proof fn lemma_file_path_end_some(s: Seq<char>, a: int, e: int)
    requires
        0 <= a <= e <= s.len(),
        file_path_end(s, a, e) is Some,
    ensures
        e <= file_path_end(s, a, e).unwrap() <= s.len(),
        closes_file(s, file_path_end(s, a, e).unwrap()),
    decreases s.len() - e,
{
    if !(token_ok_ci(s.subrange(a, e)) && closes_file(s, e)) {
        lemma_file_path_end_some(s, a, e + 1);
    }
}

/// One `<file>` tag match at `i`: the trimmed name and the position just
/// past `</file>`.
pub open spec fn file_tag_at(s: Seq<char>, i: int) -> Option<(Seq<char>, int)> {
    if matches_ci_at(s, seq!['<', 'f', 'i', 'l', 'e', '>'], i) {
        let a = skip_ws(s, i + 6);
        match file_path_end(s, a, a) {
            Some(e) => Some((trimmed(s.subrange(a, e)), skip_ws(s, e) + 7)),
            None => None,
        }
    } else {
        None
    }
}

pub proof fn lemma_file_tag_advances(s: Seq<char>, i: int)
    requires
        0 <= i,
        file_tag_at(s, i) is Some,
    ensures
        i < file_tag_at(s, i).unwrap().1 <= s.len(),
{
    let a = skip_ws(s, i + 6);
    lemma_skip_ws(s, i + 6);
    lemma_file_path_end_some(s, a, a);
    let e = file_path_end(s, a, a).unwrap();
    lemma_skip_ws(s, e);
}

/// One `<code>` block match at `i`: the trimmed enclosed text and the
/// position just past the first `</code>` that follows.
pub open spec fn code_block_at(s: Seq<char>, i: int) -> Option<(Seq<char>, int)> {
    if matches_ci_at(s, seq!['<', 'c', 'o', 'd', 'e', '>'], i) {
        match find_ci(s, seq!['<', '/', 'c', 'o', 'd', 'e', '>'], i + 6) {
            Some(m) => Some((trimmed(s.subrange(i + 6, m)), m + 7)),
            None => None,
        }
    } else {
        None
    }
}

pub proof fn lemma_code_block_advances(s: Seq<char>, i: int)
    requires
        0 <= i,
        code_block_at(s, i) is Some,
    ensures
        i < code_block_at(s, i).unwrap().1 <= s.len(),
{
    lemma_find_ci_some(s, seq!['<', '/', 'c', 'o', 'd', 'e', '>'], i + 6);
}

/// Every `<file>` tag name, in document order.
pub open spec fn file_tag_scan(s: Seq<char>, i: int) -> Seq<Seq<char>>
    decreases s.len() - i,
{
    if i < 0 || i >= s.len() {
        Seq::empty()
    } else {
        match file_tag_at(s, i) {
            Some((p, k)) => {
                proof {
                    lemma_file_tag_advances(s, i);
                }
                seq![p] + file_tag_scan(s, k)
            },
            None => file_tag_scan(s, i + 1),
        }
    }
}

/// Every `<code>` block body, in document order.
pub open spec fn code_block_scan(s: Seq<char>, i: int) -> Seq<Seq<char>>
    decreases s.len() - i,
{
    if i < 0 || i >= s.len() {
        Seq::empty()
    } else {
        match code_block_at(s, i) {
            Some((c, k)) => {
                proof {
                    lemma_code_block_advances(s, i);
                }
                seq![c] + code_block_scan(s, k)
            },
            None => code_block_scan(s, i + 1),
        }
    }
}

/// The paired-tag records: names zipped with blocks positionally, up to the
/// shorter count; pairing is by order of appearance only.
pub open spec fn file_code_records(s: Seq<char>) -> Seq<RecordV> {
    let fs = file_tag_scan(s, 0);
    let cs = code_block_scan(s, 0);
    let n = if fs.len() <= cs.len() {
        fs.len()
    } else {
        cs.len()
    };
    Seq::new(n as nat, |k: int| RecordV { path: fs[k], content: cs[k] })
}

/// One attempted `<file>` tag match, executably.
fn file_tag_try(v: &Vec<char>, i: usize) -> (r: Option<(Vec<char>, usize)>)
    requires
        i < v.len(),
    ensures
        match r {
            Some(pk) => file_tag_at(v@, i as int) == Some((pk.0@, pk.1 as int)) && i < pk.1
                <= v.len(),
            None => file_tag_at(v@, i as int) is None,
        },
{
    if !matches_lit_ci(v, i, &['<', 'f', 'i', 'l', 'e', '>']) {
        return None;
    }
    let a = skip_ws_in(v, i + 6);
    let mut e: usize = a;
    loop
        invariant
            a <= e <= v.len(),
            i as int + 6 <= a <= v@.len(),
            file_path_end(v@, a as int, a as int) == file_path_end(v@, a as int, e as int),
            matches_ci_at(v@, seq!['<', 'f', 'i', 'l', 'e', '>'], i as int),
            a == skip_ws(v@, i as int + 6),
        decreases v.len() - e,
    {
        let tok = subrange_chars(v, a, e);
        let mut success = false;
        if crate::grammar::token_ok_ci_exec(&tok) {
            let d = skip_ws_in(v, e);
            if matches_lit_ci(v, d, &['<', '/', 'f', 'i', 'l', 'e', '>']) {
                success = true;
            }
        }
        if success {
            let d = skip_ws_in(v, e);
            let ptrim = trim_chars(&tok);
            proof {
                assert(file_path_end(v@, a as int, e as int) == Some(e as int));
                lemma_file_tag_advances(v@, i as int);
            }
            return Some((ptrim, d + 7));
        }
        if e < v.len() && v[e] != '<' && v[e] != '>' && v[e] != '\r' && v[e] != '\n' {
            proof {
                assert(file_path_end(v@, a as int, e as int) == file_path_end(
                    v@,
                    a as int,
                    e as int + 1,
                ));
            }
            e += 1;
        } else {
            proof {
                assert(file_path_end(v@, a as int, e as int) is None);
            }
            return None;
        }
    }
}

/// One attempted `<code>` block match, executably.
fn code_block_try(v: &Vec<char>, i: usize) -> (r: Option<(Vec<char>, usize)>)
    requires
        i < v.len(),
    ensures
        match r {
            Some(ck) => code_block_at(v@, i as int) == Some((ck.0@, ck.1 as int)) && i < ck.1
                <= v.len(),
            None => code_block_at(v@, i as int) is None,
        },
{
    if !matches_lit_ci(v, i, &['<', 'c', 'o', 'd', 'e', '>']) {
        return None;
    }
    match find_ci_in(v, &['<', '/', 'c', 'o', 'd', 'e', '>'], i + 6) {
        Some(m) => {
            let span = subrange_chars(v, i + 6, m);
            let body = trim_chars(&span);
            proof {
                lemma_code_block_advances(v@, i as int);
            }
            Some((body, m + 7))
        },
        None => None,
    }
}

/// Every `<file>` tag name in the document, executably.
fn collect_file_tags(t: &Vec<char>) -> (r: Vec<Vec<char>>)
    ensures
        r.deep_view() == file_tag_scan(t@, 0),
{
    let mut out: Vec<Vec<char>> = Vec::new();
    let mut i: usize = 0;
    proof {
        assert(out.deep_view() =~= Seq::<Seq<char>>::empty());
        assert(out.deep_view() + file_tag_scan(t@, 0) =~= file_tag_scan(t@, 0));
    }
    while i < t.len()
        invariant
            i <= t.len(),
            file_tag_scan(t@, 0) == out.deep_view() + file_tag_scan(t@, i as int),
        decreases t.len() - i,
    {
        let ghost dv0 = out.deep_view();
        match file_tag_try(t, i) {
            Some((p, k)) => {
                proof {
                    assert(file_tag_scan(t@, i as int) == seq![p@] + file_tag_scan(t@, k as int));
                }
                out.push(p);
                proof {
                    assert(out.deep_view() =~~= dv0.push(out@.last()@));
                    assert(dv0.push(out@.last()@) + file_tag_scan(t@, k as int) =~= dv0 + (seq![
                        out@.last()@,
                    ] + file_tag_scan(t@, k as int)));
                }
                i = k;
            },
            None => {
                proof {
                    assert(file_tag_scan(t@, i as int) == file_tag_scan(t@, i as int + 1));
                }
                i += 1;
            },
        }
    }
    proof {
        assert(file_tag_scan(t@, i as int) =~= Seq::<Seq<char>>::empty());
        assert(out.deep_view() + file_tag_scan(t@, i as int) =~= out.deep_view());
    }
    out
}

/// Every `<code>` block body in the document, executably.
fn collect_code_blocks(t: &Vec<char>) -> (r: Vec<Vec<char>>)
    ensures
        r.deep_view() == code_block_scan(t@, 0),
{
    let mut out: Vec<Vec<char>> = Vec::new();
    let mut i: usize = 0;
    proof {
        assert(out.deep_view() =~= Seq::<Seq<char>>::empty());
        assert(out.deep_view() + code_block_scan(t@, 0) =~= code_block_scan(t@, 0));
    }
    while i < t.len()
        invariant
            i <= t.len(),
            code_block_scan(t@, 0) == out.deep_view() + code_block_scan(t@, i as int),
        decreases t.len() - i,
    {
        let ghost dv0 = out.deep_view();
        match code_block_try(t, i) {
            Some((c, k)) => {
                proof {
                    assert(code_block_scan(t@, i as int) == seq![c@] + code_block_scan(
                        t@,
                        k as int,
                    ));
                }
                out.push(c);
                proof {
                    assert(out.deep_view() =~~= dv0.push(out@.last()@));
                    assert(dv0.push(out@.last()@) + code_block_scan(t@, k as int) =~= dv0 + (seq![
                        out@.last()@,
                    ] + code_block_scan(t@, k as int)));
                }
                i = k;
            },
            None => {
                proof {
                    assert(code_block_scan(t@, i as int) == code_block_scan(t@, i as int + 1));
                }
                i += 1;
            },
        }
    }
    proof {
        assert(code_block_scan(t@, i as int) =~= Seq::<Seq<char>>::empty());
        assert(out.deep_view() + code_block_scan(t@, i as int) =~= out.deep_view());
    }
    out
}

/// Paired-tag recognizer over a whole document: zips names with blocks by
/// order of appearance, up to the shorter count.
pub fn parse_file_code(t: &Vec<char>) -> (r: Vec<ParsedFile>)
    ensures
        r.deep_view() == file_code_records(t@),
{
    let files = collect_file_tags(t);
    let codes = collect_code_blocks(t);
    let n = if files.len() < codes.len() {
        files.len()
    } else {
        codes.len()
    };
    let ghost target = file_code_records(t@);
    proof {
        assert(target.len() == n);
    }
    let mut out: Vec<ParsedFile> = Vec::new();
    let mut k: usize = 0;
    while k < n
        invariant
            k <= n,
            n <= files.len(),
            n <= codes.len(),
            files.deep_view() == file_tag_scan(t@, 0),
            codes.deep_view() == code_block_scan(t@, 0),
            target == file_code_records(t@),
            target.len() == n,
            out.deep_view().len() == k,
            forall|j: int| 0 <= j < k ==> out.deep_view()[j] == target[j],
        decreases n - k,
    {
        let rec = ParsedFile {
            path: chars_to_string(&files[k]),
            content: chars_to_string(&codes[k]),
        };
        proof {
            lemma_deep_index_chars(&files, k as int);
            lemma_deep_index_chars(&codes, k as int);
            assert(rec@ == target[k as int]);
        }
        out.push(rec);
        k += 1;
    }
    proof {
        assert(out.deep_view() =~= target);
    }
    out
}

} // verus!
