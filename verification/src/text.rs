//! Character-sequence primitives shared by the grammar recognizers and the
//! serializers: whitespace classes, trimming, searching, line splitting and
//! lexicographic comparison.
//!
//! Every document is modelled as a `Seq<char>`; the executable code works on
//! `Vec<char>` or `&str` and is proved to agree with the spec functions here.

use vstd::prelude::*;

verus! {

/// The Unicode `White_Space` characters: the set that `char::is_whitespace`
/// recognizes and that the grammars treat as blank space.
pub open spec fn is_ws(c: char) -> bool {
    ('\u{0009}' <= c && c <= '\u{000D}') || c == ' ' || c == '\u{0085}' || c == '\u{00A0}'
        || c == '\u{1680}' || ('\u{2000}' <= c && c <= '\u{200A}') || c == '\u{2028}'
        || c == '\u{2029}' || c == '\u{202F}' || c == '\u{205F}' || c == '\u{3000}'
}

/// ASCII letters and digits: the only characters allowed in the language tag
/// of a well-formed code fence line.
pub open spec fn is_alnum(c: char) -> bool {
    ('a' <= c && c <= 'z') || ('A' <= c && c <= 'Z') || ('0' <= c && c <= '9')
}

/// ASCII lowercasing, the case folding used for the case-insensitive grammars.
pub open spec fn lower(c: char) -> char {
    if 'A' <= c && c <= 'Z' {
        ((c as u8) + 32) as char
    } else {
        c
    }
}

pub fn ws_char(c: char) -> (r: bool)
    ensures
        r == is_ws(c),
{
    ('\u{0009}' <= c && c <= '\u{000D}') || c == ' ' || c == '\u{0085}' || c == '\u{00A0}'
        || c == '\u{1680}' || ('\u{2000}' <= c && c <= '\u{200A}') || c == '\u{2028}'
        || c == '\u{2029}' || c == '\u{202F}' || c == '\u{205F}' || c == '\u{3000}'
}

pub fn alnum_char(c: char) -> (r: bool)
    ensures
        r == is_alnum(c),
{
    ('a' <= c && c <= 'z') || ('A' <= c && c <= 'Z') || ('0' <= c && c <= '9')
}

pub fn lower_char(c: char) -> (r: char)
    ensures
        r == lower(c),
{
    if 'A' <= c && c <= 'Z' {
        ((c as u8) + 32) as char
    } else {
        c
    }
}

// ---------------------------------------------------------------------------
// Trimming
// ---------------------------------------------------------------------------

pub open spec fn trim_front(s: Seq<char>) -> Seq<char>
    decreases s.len(),
{
    if s.len() > 0 && is_ws(s[0]) {
        trim_front(s.drop_first())
    } else {
        s
    }
}

pub open spec fn trim_back(s: Seq<char>) -> Seq<char>
    decreases s.len(),
{
    if s.len() > 0 && is_ws(s.last()) {
        trim_back(s.drop_last())
    } else {
        s
    }
}

/// Whitespace stripped from both ends, as `str::trim` does.
pub open spec fn trimmed(s: Seq<char>) -> Seq<char> {
    trim_back(trim_front(s))
}

pub proof fn lemma_trim_front_skip(s: Seq<char>, i: int)
    requires
        0 <= i <= s.len(),
        forall|j: int| 0 <= j < i ==> is_ws(s[j]),
        i < s.len() ==> !is_ws(s[i]),
    ensures
        trim_front(s) == s.skip(i),
    decreases i,
{
    if i == 0 {
        assert(s.skip(0) =~= s);
    } else {
        assert(is_ws(s[0]));
        lemma_trim_front_skip(s.drop_first(), i - 1);
        assert(s.drop_first().skip(i - 1) =~= s.skip(i));
    }
}

pub proof fn lemma_trim_back_take(s: Seq<char>, i: int)
    requires
        0 <= i <= s.len(),
        forall|j: int| i <= j < s.len() ==> is_ws(s[j]),
        i > 0 ==> !is_ws(s[i - 1]),
    ensures
        trim_back(s) == s.take(i),
    decreases s.len() - i,
{
    if i == s.len() {
        assert(s.take(i) =~= s);
    } else {
        assert(is_ws(s.last()));
        lemma_trim_back_take(s.drop_last(), i);
        assert(s.drop_last().take(i) =~= s.take(i));
    }
}

/// A sequence with non-blank ends is left unchanged by trimming.
pub proof fn lemma_trimmed_fixed(s: Seq<char>)
    requires
        s.len() > 0 ==> !is_ws(s[0]) && !is_ws(s.last()),
    ensures
        trimmed(s) == s,
{
    lemma_trim_front_skip(s, 0);
    assert(s.skip(0) =~= s);
    lemma_trim_back_take(s, s.len() as int);
    assert(s.take(s.len() as int) =~= s);
}

// ---------------------------------------------------------------------------
// Searching
// ---------------------------------------------------------------------------

/// Index of the first occurrence of `c` at or after `from`.
pub open spec fn find_char(s: Seq<char>, c: char, from: int) -> Option<int>
    decreases s.len() - from,
{
    if from >= s.len() {
        None
    } else if s[from] == c {
        Some(from)
    } else {
        find_char(s, c, from + 1)
    }
}

/// Index of the last occurrence of `c`.
pub open spec fn rfind_char(s: Seq<char>, c: char) -> Option<int>
    decreases s.len(),
{
    if s.len() == 0 {
        None
    } else if s.last() == c {
        Some(s.len() - 1)
    } else {
        rfind_char(s.drop_last(), c)
    }
}

pub proof fn lemma_find_char_hit(s: Seq<char>, c: char, from: int, t: int)
    requires
        0 <= from <= t < s.len(),
        s[t] == c,
        forall|j: int| from <= j < t ==> s[j] != c,
    ensures
        find_char(s, c, from) == Some(t),
    decreases t - from,
{
    if from < t {
        lemma_find_char_hit(s, c, from + 1, t);
    }
}

pub proof fn lemma_find_char_none(s: Seq<char>, c: char, from: int)
    requires
        0 <= from,
        forall|j: int| from <= j < s.len() ==> s[j] != c,
    ensures
        find_char(s, c, from) is None,
    decreases s.len() - from,
{
    if from < s.len() {
        lemma_find_char_none(s, c, from + 1);
    }
}

pub proof fn lemma_find_char_none_inv(s: Seq<char>, c: char, from: int)
    requires
        0 <= from,
        find_char(s, c, from) is None,
    ensures
        forall|j: int| from <= j < s.len() ==> s[j] != c,
    decreases s.len() - from,
{
    if from < s.len() {
        lemma_find_char_none_inv(s, c, from + 1);
    }
}

pub proof fn lemma_find_char_some(s: Seq<char>, c: char, from: int)
    requires
        0 <= from,
        find_char(s, c, from) is Some,
    ensures
        from <= find_char(s, c, from).unwrap() < s.len(),
        s[find_char(s, c, from).unwrap()] == c,
        forall|j: int| from <= j < find_char(s, c, from).unwrap() ==> s[j] != c,
    decreases s.len() - from,
{
    if from < s.len() && s[from] != c {
        lemma_find_char_some(s, c, from + 1);
    }
}

/// First index at or after `i` holding a non-whitespace character.
pub open spec fn skip_ws(s: Seq<char>, i: int) -> int
    decreases s.len() - i,
{
    if 0 <= i < s.len() && is_ws(s[i]) {
        skip_ws(s, i + 1)
    } else {
        i
    }
}

pub proof fn lemma_skip_ws(s: Seq<char>, i: int)
    requires
        0 <= i <= s.len(),
    ensures
        i <= skip_ws(s, i) <= s.len(),
        forall|j: int| i <= j < skip_ws(s, i) ==> is_ws(s[j]),
        skip_ws(s, i) < s.len() ==> !is_ws(s[skip_ws(s, i)]),
    decreases s.len() - i,
{
    if 0 <= i < s.len() && is_ws(s[i]) {
        lemma_skip_ws(s, i + 1);
    }
}

// ---------------------------------------------------------------------------
// Substring matching
// ---------------------------------------------------------------------------

pub open spec fn matches_at(s: Seq<char>, pat: Seq<char>, i: int) -> bool {
    0 <= i && i + pat.len() <= s.len() && s.subrange(i, i + pat.len()) == pat
}

/// Case-insensitive equality under ASCII folding.
pub open spec fn eq_ci(a: Seq<char>, b: Seq<char>) -> bool {
    a.len() == b.len() && forall|i: int| 0 <= i < a.len() ==> lower(a[i]) == lower(b[i])
}

pub open spec fn matches_ci_at(s: Seq<char>, pat: Seq<char>, i: int) -> bool {
    0 <= i && i + pat.len() <= s.len() && eq_ci(s.subrange(i, i + pat.len()), pat)
}

pub open spec fn starts_with(s: Seq<char>, pre: Seq<char>) -> bool {
    matches_at(s, pre, 0)
}

pub open spec fn ends_with(s: Seq<char>, suf: Seq<char>) -> bool {
    suf.len() <= s.len() && s.subrange(s.len() - suf.len(), s.len() as int) == suf
}

pub open spec fn ends_with_ci(s: Seq<char>, suf: Seq<char>) -> bool {
    suf.len() <= s.len() && eq_ci(s.subrange(s.len() - suf.len(), s.len() as int), suf)
}

/// Index of the first position at or after `from` where `pat` occurs
/// case-insensitively.
pub open spec fn find_ci(s: Seq<char>, pat: Seq<char>, from: int) -> Option<int>
    decreases s.len() - from,
{
    if from + pat.len() > s.len() {
        None
    } else if matches_ci_at(s, pat, from) {
        Some(from)
    } else {
        find_ci(s, pat, from + 1)
    }
}

pub proof fn lemma_find_ci_hit(s: Seq<char>, pat: Seq<char>, from: int, t: int)
    requires
        0 <= from <= t,
        t + pat.len() <= s.len(),
        matches_ci_at(s, pat, t),
        forall|j: int| from <= j < t ==> !matches_ci_at(s, pat, j),
    ensures
        find_ci(s, pat, from) == Some(t),
    decreases t - from,
{
    if from < t {
        lemma_find_ci_hit(s, pat, from + 1, t);
    }
}

pub proof fn lemma_find_ci_none(s: Seq<char>, pat: Seq<char>, from: int)
    requires
        0 <= from,
    ensures
        (forall|j: int| from <= j ==> !matches_ci_at(s, pat, j)) ==> find_ci(s, pat, from) is None,
    decreases s.len() - from,
{
    if from < s.len() {
        lemma_find_ci_none(s, pat, from + 1);
    }
}

pub proof fn lemma_find_ci_some(s: Seq<char>, pat: Seq<char>, from: int)
    requires
        0 <= from,
        find_ci(s, pat, from) is Some,
    ensures
        from <= find_ci(s, pat, from).unwrap(),
        find_ci(s, pat, from).unwrap() + pat.len() <= s.len(),
        matches_ci_at(s, pat, find_ci(s, pat, from).unwrap()),
        forall|j: int| from <= j < find_ci(s, pat, from).unwrap() ==> !matches_ci_at(s, pat, j),
    decreases s.len() - from,
{
    if from + pat.len() <= s.len() && !matches_ci_at(s, pat, from) {
        lemma_find_ci_some(s, pat, from + 1);
    }
}

// ---------------------------------------------------------------------------
// Lines
// ---------------------------------------------------------------------------

/// One trailing carriage return removed, as happens to every line that a
/// newline terminates.
pub open spec fn strip_cr(l: Seq<char>) -> Seq<char> {
    if l.len() > 0 && l.last() == '\r' {
        l.drop_last()
    } else {
        l
    }
}

/// The lines of a document, split as `str::lines` splits them: at each `'\n'`,
/// with a `'\r'` directly before the `'\n'` dropped, and with no empty line
/// after a final terminator.
pub open spec fn lines_of(s: Seq<char>) -> Seq<Seq<char>>
    decreases s.len(),
{
    if s.len() == 0 {
        Seq::empty()
    } else {
        match find_char(s, '\n', 0) {
            Some(i) => {
                proof {
                    lemma_find_char_some(s, '\n', 0);
                }
                seq![strip_cr(s.take(i))] + lines_of(s.skip(i + 1))
            },
            None => seq![s],
        }
    }
}

/// The lines joined back with single newlines.
pub open spec fn join_nl(ls: Seq<Seq<char>>) -> Seq<char>
    decreases ls.len(),
{
    if ls.len() == 0 {
        Seq::empty()
    } else if ls.len() == 1 {
        ls[0]
    } else {
        ls[0] + seq!['\n'] + join_nl(ls.drop_first())
    }
}

/// No carriage return directly before a newline.
pub open spec fn no_crlf(s: Seq<char>) -> bool {
    forall|i: int| 0 <= i < s.len() - 1 ==> !(s[i] == '\r' && #[trigger] s[i + 1] == '\n')
}

pub proof fn lemma_lines_nonempty(s: Seq<char>)
    requires
        s.len() > 0,
    ensures
        lines_of(s).len() > 0,
{
    match find_char(s, '\n', 0) {
        Some(i) => {
            lemma_find_char_some(s, '\n', 0);
        },
        None => {},
    }
}

/// Prepending one newline-free line: it splits off whole.
pub proof fn lemma_lines_prepend(a: Seq<char>, b: Seq<char>)
    requires
        forall|j: int| 0 <= j < a.len() ==> a[j] != '\n',
        a.len() > 0 ==> a.last() != '\r',
    ensures
        lines_of(a + seq!['\n'] + b) == seq![a] + lines_of(b),
{
    let s = a + seq!['\n'] + b;
    assert(s[a.len() as int] == '\n');
    assert(forall|j: int| 0 <= j < a.len() ==> s[j] == a[j]);
    lemma_find_char_hit(s, '\n', 0, a.len() as int);
    assert(s.take(a.len() as int) =~= a);
    assert(s.skip(a.len() as int + 1) =~= b);
}

/// Splitting at a newline that terminates a non-blank-ended prefix
/// distributes over `lines_of`.
pub proof fn lemma_lines_concat(c: Seq<char>, d: Seq<char>)
    requires
        c.len() > 0,
        c.last() != '\n',
        c.last() != '\r',
    ensures
        lines_of(c + seq!['\n'] + d) == lines_of(c) + lines_of(d),
    decreases c.len(),
{
    let s = c + seq!['\n'] + d;
    match find_char(c, '\n', 0) {
        Some(i) => {
            lemma_find_char_some(c, '\n', 0);
            assert(c[i] == '\n');
            assert(i < c.len() - 1) by {
                assert(c[c.len() - 1] != '\n');
            }
            assert(forall|j: int| 0 <= j < i ==> s[j] == c[j]);
            assert(s[i] == '\n');
            lemma_find_char_hit(s, '\n', 0, i);
            let c2 = c.skip(i + 1);
            assert(c2.len() > 0);
            assert(c2.last() == c.last());
            lemma_lines_concat(c2, d);
            assert(s.take(i) =~= c.take(i));
            assert(s.skip(i + 1) =~= c2 + seq!['\n'] + d);
            assert(lines_of(s) =~= lines_of(c) + lines_of(d));
        },
        None => {
            lemma_find_char_none_inv(c, '\n', 0);
            lemma_lines_prepend(c, d);
            assert(seq![c] + lines_of(d) =~= lines_of(c) + lines_of(d));
        },
    }
}

/// Joining the lines of a document recovers it, provided no line ending was
/// normalized away: no carriage return before a newline, and no trailing
/// newline.
pub proof fn lemma_join_lines(s: Seq<char>)
    requires
        no_crlf(s),
        s.len() > 0 ==> s.last() != '\n',
    ensures
        join_nl(lines_of(s)) == s,
    decreases s.len(),
{
    if s.len() == 0 {
    } else {
        match find_char(s, '\n', 0) {
            Some(i) => {
                lemma_find_char_some(s, '\n', 0);
                assert(i < s.len() - 1) by {
                    assert(s[s.len() - 1] != '\n');
                }
                let tail = s.skip(i + 1);
                assert(tail.len() > 0);
                assert(tail.last() == s.last());
                assert(no_crlf(tail)) by {
                    assert forall|k: int| 0 <= k < tail.len() - 1 implies !(tail[k] == '\r'
                        && #[trigger] tail[k + 1] == '\n') by {
                        assert(tail[k] == s[i + 1 + k]);
                        assert(tail[k + 1] == s[i + 1 + k + 1]);
                    }
                }
                lemma_join_lines(tail);
                lemma_lines_nonempty(tail);
                assert(strip_cr(s.take(i)) == s.take(i)) by {
                    if i > 0 && s.take(i).last() == '\r' {
                        assert(s[i - 1] == '\r' && s[i - 1 + 1] == '\n');
                    }
                }
                let ls = lines_of(s);
                assert(ls == seq![s.take(i)] + lines_of(tail));
                assert(ls.len() >= 2);
                assert(ls[0] == s.take(i));
                assert(ls.drop_first() =~= lines_of(tail));
                assert(s.take(i) + seq!['\n'] + tail =~= s);
            },
            None => {},
        }
    }
}

// ---------------------------------------------------------------------------
// Lexicographic order
// ---------------------------------------------------------------------------

/// Strict lexicographic order on character sequences by code point, the order
/// `str` comparison induces.
pub open spec fn seq_lt(a: Seq<char>, b: Seq<char>) -> bool
    decreases a.len(),
{
    if b.len() == 0 {
        false
    } else if a.len() == 0 {
        true
    } else if a[0] != b[0] {
        a[0] < b[0]
    } else {
        seq_lt(a.drop_first(), b.drop_first())
    }
}

pub proof fn lemma_seq_lt_connex(a: Seq<char>, b: Seq<char>)
    ensures
        seq_lt(a, b) || seq_lt(b, a) || a == b,
    decreases a.len(),
{
    if b.len() == 0 {
        if a.len() == 0 {
            assert(a =~= b);
        }
    } else if a.len() == 0 {
    } else if a[0] == b[0] {
        lemma_seq_lt_connex(a.drop_first(), b.drop_first());
        if a.drop_first() == b.drop_first() {
            assert(a.drop_first().len() == b.drop_first().len());
            assert(a.len() == b.len());
            assert forall|i: int| 0 <= i < a.len() implies a[i] == b[i] by {
                if i > 0 {
                    assert(a[i] == a.drop_first()[i - 1]);
                    assert(b[i] == b.drop_first()[i - 1]);
                }
            }
            assert(a =~= b);
        }
    }
}

pub proof fn lemma_seq_lt_irrefl(a: Seq<char>, b: Seq<char>)
    requires
        a == b,
    ensures
        !seq_lt(a, b),
    decreases a.len(),
{
    if a.len() > 0 {
        lemma_seq_lt_irrefl(a.drop_first(), b.drop_first());
    }
}

pub proof fn lemma_seq_lt_asym(a: Seq<char>, b: Seq<char>)
    requires
        seq_lt(a, b),
    ensures
        !seq_lt(b, a),
    decreases a.len(),
{
    if a.len() > 0 && b.len() > 0 && a[0] == b[0] {
        lemma_seq_lt_asym(a.drop_first(), b.drop_first());
    }
}

pub proof fn lemma_seq_lt_trans(a: Seq<char>, b: Seq<char>, c: Seq<char>)
    requires
        seq_lt(a, b),
        seq_lt(b, c),
    ensures
        seq_lt(a, c),
    decreases a.len(),
{
    if a.len() > 0 && b.len() > 0 && c.len() > 0 {
        if a[0] == b[0] && b[0] == c[0] {
            lemma_seq_lt_trans(a.drop_first(), b.drop_first(), c.drop_first());
        }
    }
}

// ---------------------------------------------------------------------------
// Path components
// ---------------------------------------------------------------------------

/// The non-empty components of a forward-slash path.
pub open spec fn components(s: Seq<char>) -> Seq<Seq<char>>
    decreases s.len(),
{
    if s.len() == 0 {
        Seq::empty()
    } else {
        match find_char(s, '/', 0) {
            Some(i) => {
                proof {
                    lemma_find_char_some(s, '/', 0);
                }
                if i == 0 {
                    components(s.skip(1))
                } else {
                    seq![s.take(i)] + components(s.skip(i + 1))
                }
            },
            None => seq![s],
        }
    }
}

/// Strict order on component lists: the order that path comparison by
/// component induces.
pub open spec fn comp_lt(a: Seq<Seq<char>>, b: Seq<Seq<char>>) -> bool
    decreases a.len(),
{
    if b.len() == 0 {
        false
    } else if a.len() == 0 {
        true
    } else if a[0] != b[0] {
        seq_lt(a[0], b[0])
    } else {
        comp_lt(a.drop_first(), b.drop_first())
    }
}



/// Component order transfers to suffixes past a common prefix.
pub proof fn lemma_comp_lt_common(a: Seq<Seq<char>>, b: Seq<Seq<char>>, i: int)
    requires
        0 <= i <= a.len(),
        i <= b.len(),
        forall|j: int| 0 <= j < i ==> a[j] == b[j],
    ensures
        comp_lt(a, b) == comp_lt(a.skip(i), b.skip(i)),
    decreases i,
{
    if i > 0 {
        assert(a.len() > 0 && b.len() > 0 && a[0] == b[0]);
        let a1 = a.drop_first();
        let b1 = b.drop_first();
        assert(forall|j: int| 0 <= j < i - 1 ==> a1[j] == b1[j]);
        lemma_comp_lt_common(a1, b1, i - 1);
        assert(a1.skip(i - 1) =~= a.skip(i));
        assert(b1.skip(i - 1) =~= b.skip(i));
    } else {
        assert(a.skip(0) =~= a);
        assert(b.skip(0) =~= b);
    }
}

/// Component order of two component vectors, executably.
pub fn comp_lt_vec(a: &Vec<Vec<char>>, b: &Vec<Vec<char>>) -> (r: bool)
    ensures
        r == comp_lt(a.deep_view(), b.deep_view()),
{
    let ghost av = a.deep_view();
    let ghost bv = b.deep_view();
    let mut i: usize = 0;
    loop
        invariant
            i <= a.len(),
            i <= b.len(),
            av == a.deep_view(),
            bv == b.deep_view(),
            av.len() == a.len(),
            bv.len() == b.len(),
            forall|j: int| 0 <= j < i ==> av[j] == bv[j],
        decreases a.len() - i,
    {
        if i >= a.len() {
            proof {
                lemma_comp_lt_common(av, bv, i as int);
                assert(av.skip(i as int).len() == 0);
            }
            return i < b.len();
        }
        if i >= b.len() {
            proof {
                lemma_comp_lt_common(av, bv, i as int);
                assert(bv.skip(i as int).len() == 0);
            }
            return false;
        }
        proof {
            lemma_deep_index_chars(a, i as int);
            lemma_deep_index_chars(b, i as int);
        }
        if !vec_eq_chars(&a[i], &b[i]) {
            let r = vec_lt(&a[i], &b[i]);
            proof {
                lemma_comp_lt_common(av, bv, i as int);
                assert(av.skip(i as int)[0] == av[i as int]);
                assert(bv.skip(i as int)[0] == bv[i as int]);
            }
            return r;
        }
        i += 1;
    }
}

// ---------------------------------------------------------------------------
// File extensions
// ---------------------------------------------------------------------------

/// The extension of a path: what follows the last dot of the file name,
/// empty when the file name has no dot or only a leading one.
pub open spec fn ext_of(p: Seq<char>) -> Seq<char> {
    let name = match rfind_char(p, '/') {
        Some(i) => p.skip(i + 1),
        None => p,
    };
    match rfind_char(name, '.') {
        Some(j) => if j > 0 {
            name.skip(j + 1)
        } else {
            Seq::empty()
        },
        None => Seq::empty(),
    }
}

pub proof fn lemma_rfind_char_hit(s: Seq<char>, c: char, t: int)
    requires
        0 <= t < s.len(),
        s[t] == c,
        forall|j: int| t < j < s.len() ==> s[j] != c,
    ensures
        rfind_char(s, c) == Some(t),
    decreases s.len(),
{
    if t < s.len() - 1 {
        lemma_rfind_char_hit(s.drop_last(), c, t);
    }
}

pub proof fn lemma_rfind_char_none(s: Seq<char>, c: char)
    requires
        forall|j: int| 0 <= j < s.len() ==> s[j] != c,
    ensures
        rfind_char(s, c) is None,
    decreases s.len(),
{
    if s.len() > 0 {
        lemma_rfind_char_none(s.drop_last(), c);
    }
}

// ---------------------------------------------------------------------------
// Executable helpers
// ---------------------------------------------------------------------------

/// Every character of a string, in order.
pub fn str_to_chars(s: &str) -> (v: Vec<char>)
    ensures
        v@ == s@,
{
    let n = s.unicode_len();
    let mut v: Vec<char> = Vec::new();
    let mut i: usize = 0;
    while i < n
        invariant
            i <= n,
            n == s@.len(),
            v@ == s@.take(i as int),
        decreases n - i,
    {
        let c = s.get_char(i);
        v.push(c);
        proof {
            assert(s@.take(i as int + 1) =~= s@.take(i as int).push(s@[i as int]));
        }
        i += 1;
    }
    proof {
        assert(s@.take(n as int) =~= s@);
    }
    v
}

/// Relies on `String`'s `FromIterator<char>` implementation: collecting
/// characters yields the string holding exactly those characters in order.
#[verifier::external_body]
pub fn chars_to_string(v: &Vec<char>) -> (s: String)
    ensures
        s@ == v@,
{
    v.iter().collect()
}

/// A copy of the characters in `[a, b)`.
pub fn subrange_chars(v: &Vec<char>, a: usize, b: usize) -> (r: Vec<char>)
    requires
        a <= b <= v.len(),
    ensures
        r@ == v@.subrange(a as int, b as int),
{
    let mut r: Vec<char> = Vec::new();
    let mut i: usize = a;
    while i < b
        invariant
            a <= i <= b <= v.len(),
            r@ == v@.subrange(a as int, i as int),
        decreases b - i,
    {
        r.push(v[i]);
        proof {
            assert(v@.subrange(a as int, i as int + 1) =~= v@.subrange(a as int, i as int).push(
                v@[i as int],
            ));
        }
        i += 1;
    }
    r
}

pub fn trim_chars(v: &Vec<char>) -> (r: Vec<char>)
    ensures
        r@ == trimmed(v@),
{
    let mut a: usize = 0;
    while a < v.len() && ws_char(v[a])
        invariant
            a <= v.len(),
            forall|j: int| 0 <= j < a ==> is_ws(v@[j]),
        decreases v.len() - a,
    {
        a += 1;
    }
    proof {
        lemma_trim_front_skip(v@, a as int);
    }
    let mut b: usize = v.len();
    while b > a && ws_char(v[b - 1])
        invariant
            a <= b <= v.len(),
            forall|j: int| b <= j < v.len() ==> is_ws(v@[j]),
        decreases b,
    {
        b -= 1;
    }
    proof {
        let s = v@.skip(a as int);
        assert forall|j: int| b - a <= j < s.len() implies is_ws(s[j]) by {
            assert(s[j] == v@[a + j]);
        }
        if b > a {
            assert(s[b - a - 1] == v@[b as int - 1]);
        }
        lemma_trim_back_take(s, b - a);
        assert(s.take(b - a) =~= v@.subrange(a as int, b as int));
    }
    subrange_chars(v, a, b)
}

/// `str::trim`, verified against `trimmed`.
pub fn trim_str<'a>(s: &'a str) -> (r: &'a str)
    ensures
        r@ == trimmed(s@),
{
    let n = s.unicode_len();
    let mut a: usize = 0;
    while a < n && ws_char(s.get_char(a))
        invariant
            a <= n,
            n == s@.len(),
            forall|j: int| 0 <= j < a ==> is_ws(s@[j]),
        decreases n - a,
    {
        a += 1;
    }
    proof {
        lemma_trim_front_skip(s@, a as int);
    }
    let mut b: usize = n;
    while b > a && ws_char(s.get_char(b - 1))
        invariant
            a <= b <= n,
            n == s@.len(),
            forall|j: int| b <= j < s@.len() ==> is_ws(s@[j]),
        decreases b,
    {
        b -= 1;
    }
    proof {
        let t = s@.skip(a as int);
        assert forall|j: int| b - a <= j < t.len() implies is_ws(t[j]) by {
            assert(t[j] == s@[a + j]);
        }
        if b > a {
            assert(t[b - a - 1] == s@[b as int - 1]);
        }
        lemma_trim_back_take(t, b - a);
        assert(t.take(b - a) =~= s@.subrange(a as int, b as int));
    }
    s.substring_char(a, b)
}

/// First occurrence of `c` at or after `from`, as an absolute index.
pub fn find_in(v: &Vec<char>, c: char, from: usize) -> (r: Option<usize>)
    requires
        from <= v.len(),
    ensures
        match r {
            Some(i) => from <= i < v.len() && find_char(v@, c, from as int) == Some(i as int),
            None => find_char(v@, c, from as int) is None,
        },
{
    let mut i: usize = from;
    while i < v.len()
        invariant
            from <= i <= v.len(),
            forall|j: int| from <= j < i ==> v@[j] != c,
        decreases v.len() - i,
    {
        if v[i] == c {
            proof {
                lemma_find_char_hit(v@, c, from as int, i as int);
            }
            return Some(i);
        }
        i += 1;
    }
    proof {
        lemma_find_char_none(v@, c, from as int);
    }
    None
}

/// First non-whitespace index at or after `from`.
pub fn skip_ws_in(v: &Vec<char>, from: usize) -> (r: usize)
    requires
        from <= v.len(),
    ensures
        r == skip_ws(v@, from as int),
        from <= r <= v.len(),
{
    let mut i: usize = from;
    while i < v.len() && ws_char(v[i])
        invariant
            from <= i <= v.len(),
            forall|j: int| from <= j < i ==> is_ws(v@[j]),
        decreases v.len() - i,
    {
        i += 1;
    }
    proof {
        lemma_skip_ws(v@, from as int);
        let k = skip_ws(v@, from as int);
        if k < i {
            assert(!is_ws(v@[k]));
        }
        if i < k {
            assert(is_ws(v@[i as int]));
        }
    }
    i
}

/// Whether `pat` occurs at index `i`.
pub fn matches_lit(v: &Vec<char>, i: usize, pat: &[char]) -> (r: bool)
    ensures
        r == matches_at(v@, pat@, i as int),
{
    if v.len() < pat.len() || i > v.len() - pat.len() {
        return false;
    }
    let mut k: usize = 0;
    while k < pat.len()
        invariant
            k <= pat.len(),
            i + pat.len() <= v.len(),
            forall|j: int| 0 <= j < k ==> v@[i + j] == pat@[j],
        decreases pat.len() - k,
    {
        if v[i + k] != pat[k] {
            proof {
                let sub = v@.subrange(i as int, i as int + pat@.len());
                assert(sub[k as int] != pat@[k as int]);
            }
            return false;
        }
        k += 1;
    }
    proof {
        assert(v@.subrange(i as int, i as int + pat@.len()) =~= pat@);
    }
    true
}

/// Whether `pat` occurs at index `i` under ASCII case folding.
pub fn matches_lit_ci(v: &Vec<char>, i: usize, pat: &[char]) -> (r: bool)
    ensures
        r == matches_ci_at(v@, pat@, i as int),
{
    if v.len() < pat.len() || i > v.len() - pat.len() {
        return false;
    }
    let mut k: usize = 0;
    while k < pat.len()
        invariant
            k <= pat.len(),
            i + pat.len() <= v.len(),
            forall|j: int| 0 <= j < k ==> lower(v@[i + j]) == lower(pat@[j]),
        decreases pat.len() - k,
    {
        if lower_char(v[i + k]) != lower_char(pat[k]) {
            proof {
                let sub = v@.subrange(i as int, i as int + pat@.len());
                assert(lower(sub[k as int]) != lower(pat@[k as int]));
            }
            return false;
        }
        k += 1;
    }
    proof {
        let sub = v@.subrange(i as int, i as int + pat@.len());
        assert forall|j: int| 0 <= j < sub.len() implies lower(sub[j]) == lower(pat@[j]) by {
            assert(sub[j] == v@[i + j]);
        }
    }
    true
}

/// The lines of a document, as `str::lines` would produce them.
pub fn split_lines(v: &Vec<char>) -> (r: Vec<Vec<char>>)
    ensures
        r.deep_view() == lines_of(v@),
{
    let mut out: Vec<Vec<char>> = Vec::new();
    let mut pos: usize = 0;
    proof {
        assert(out.deep_view() =~= Seq::<Seq<char>>::empty());
        assert(v@.skip(0) =~= v@);
    }
    while pos < v.len()
        invariant
            pos <= v.len(),
            lines_of(v@) == out.deep_view() + lines_of(v@.skip(pos as int)),
        decreases v.len() - pos,
    {
        let ghost rest = v@.skip(pos as int);
        let ghost dv0 = out.deep_view();
        match find_in(v, '\n', pos) {
            Some(i) => {
                let endl = if i > pos && v[i - 1] == '\r' {
                    i - 1
                } else {
                    i
                };
                let line = subrange_chars(v, pos, endl);
                proof {
                    lemma_find_char_shift(v@, '\n', pos as int);
                    assert(rest.len() > 0);
                    assert(find_char(rest, '\n', 0) == Some(i - pos));
                    assert(rest.take(i - pos) =~= v@.subrange(pos as int, i as int));
                    assert(strip_cr(rest.take(i - pos)) =~= line@) by {
                        let t = rest.take(i - pos);
                        if i > pos && v@[i - 1] == '\r' {
                            assert(t.len() > 0 && t.last() == '\r');
                            assert(t.drop_last() =~= v@.subrange(pos as int, i as int - 1));
                        }
                    }
                    assert(rest.skip(i - pos + 1) =~= v@.skip(i as int + 1));
                    assert(lines_of(rest) == seq![line@] + lines_of(v@.skip(i as int + 1)));
                }
                out.push(line);
                proof {
                    assert(out.deep_view() =~~= dv0 + seq![line@]);
                    assert(out.deep_view() + lines_of(v@.skip(i as int + 1)) =~= dv0 + lines_of(
                        rest,
                    ));
                }
                pos = i + 1;
            },
            None => {
                let line = subrange_chars(v, pos, v.len());
                proof {
                    lemma_find_char_shift(v@, '\n', pos as int);
                    assert(rest.len() > 0);
                    assert(find_char(rest, '\n', 0) is None);
                    assert(rest =~= line@);
                    assert(lines_of(rest) == seq![line@]);
                }
                out.push(line);
                proof {
                    assert(out.deep_view() =~~= dv0 + seq![line@]);
                    assert(v@.skip(v@.len() as int) =~= Seq::<char>::empty());
                    assert(out.deep_view() + lines_of(v@.skip(v@.len() as int)) =~= dv0
                        + lines_of(rest));
                }
                pos = v.len();
            },
        }
    }
    proof {
        assert(v@.skip(pos as int) =~= Seq::<char>::empty());
        assert(out.deep_view() + lines_of(v@.skip(pos as int)) =~= out.deep_view());
    }
    out
}

/// The non-empty slash-separated components of a path.
pub fn split_slash(v: &Vec<char>) -> (r: Vec<Vec<char>>)
    ensures
        r.deep_view() == components(v@),
{
    let mut out: Vec<Vec<char>> = Vec::new();
    let mut pos: usize = 0;
    proof {
        assert(out.deep_view() =~= Seq::<Seq<char>>::empty());
        assert(v@.skip(0) =~= v@);
    }
    while pos < v.len()
        invariant
            pos <= v.len(),
            components(v@) == out.deep_view() + components(v@.skip(pos as int)),
        decreases v.len() - pos,
    {
        let ghost rest = v@.skip(pos as int);
        let ghost dv0 = out.deep_view();
        match find_in(v, '/', pos) {
            Some(i) => {
                proof {
                    lemma_find_char_shift(v@, '/', pos as int);
                    assert(rest.len() > 0);
                    assert(find_char(rest, '/', 0) == Some(i - pos));
                    assert(rest.skip(i - pos + 1) =~= v@.skip(i as int + 1));
                }
                if i == pos {
                    proof {
                        assert(components(rest) == components(v@.skip(i as int + 1)));
                    }
                    pos = i + 1;
                } else {
                    let part = subrange_chars(v, pos, i);
                    proof {
                        assert(rest.take(i - pos) =~= part@);
                        assert(components(rest) == seq![part@] + components(
                            v@.skip(i as int + 1),
                        ));
                    }
                    out.push(part);
                    proof {
                        assert(out.deep_view() =~~= dv0 + seq![part@]);
                        assert(out.deep_view() + components(v@.skip(i as int + 1)) =~= dv0
                            + components(rest));
                    }
                    pos = i + 1;
                }
            },
            None => {
                let part = subrange_chars(v, pos, v.len());
                proof {
                    lemma_find_char_shift(v@, '/', pos as int);
                    assert(rest.len() > 0);
                    assert(find_char(rest, '/', 0) is None);
                    assert(rest =~= part@);
                    assert(components(rest) == seq![part@]);
                }
                out.push(part);
                proof {
                    assert(out.deep_view() =~~= dv0 + seq![part@]);
                    assert(v@.skip(v@.len() as int) =~= Seq::<char>::empty());
                    assert(out.deep_view() + components(v@.skip(v@.len() as int)) =~= dv0
                        + components(rest));
                }
                pos = v.len();
            },
        }
    }
    proof {
        assert(v@.skip(pos as int) =~= Seq::<char>::empty());
        assert(out.deep_view() + components(v@.skip(pos as int)) =~= out.deep_view());
    }
    out
}

/// Order transfers to suffixes past a common prefix.
pub proof fn lemma_seq_lt_common(a: Seq<char>, b: Seq<char>, i: int)
    requires
        0 <= i <= a.len(),
        i <= b.len(),
        forall|j: int| 0 <= j < i ==> a[j] == b[j],
    ensures
        seq_lt(a, b) == seq_lt(a.skip(i), b.skip(i)),
    decreases i,
{
    if i > 0 {
        assert(a.len() > 0 && b.len() > 0 && a[0] == b[0]);
        let a1 = a.drop_first();
        let b1 = b.drop_first();
        assert(forall|j: int| 0 <= j < i - 1 ==> a1[j] == b1[j]);
        lemma_seq_lt_common(a1, b1, i - 1);
        assert(a1.skip(i - 1) =~= a.skip(i));
        assert(b1.skip(i - 1) =~= b.skip(i));
    } else {
        assert(a.skip(0) =~= a);
        assert(b.skip(0) =~= b);
    }
}

/// Strict lexicographic comparison of two strings.
pub fn str_lt(a: &str, b: &str) -> (r: bool)
    ensures
        r == seq_lt(a@, b@),
{
    let na = a.unicode_len();
    let nb = b.unicode_len();
    let mut i: usize = 0;
    loop
        invariant
            i <= na,
            i <= nb,
            na == a@.len(),
            nb == b@.len(),
            forall|j: int| 0 <= j < i ==> a@[j] == b@[j],
        decreases na - i,
    {
        if i >= na {
            proof {
                lemma_seq_lt_common(a@, b@, i as int);
                assert(a@.skip(i as int).len() == 0);
            }
            return i < nb;
        }
        if i >= nb {
            proof {
                lemma_seq_lt_common(a@, b@, i as int);
                assert(b@.skip(i as int).len() == 0);
            }
            return false;
        }
        let ca = a.get_char(i);
        let cb = b.get_char(i);
        if ca != cb {
            proof {
                lemma_seq_lt_common(a@, b@, i as int);
                assert(a@.skip(i as int)[0] == ca);
                assert(b@.skip(i as int)[0] == cb);
            }
            return ca < cb;
        }
        i += 1;
    }
}

/// Equality of two strings by their characters.
pub fn str_eq(a: &str, b: &str) -> (r: bool)
    ensures
        r == (a@ == b@),
{
    let na = a.unicode_len();
    let nb = b.unicode_len();
    if na != nb {
        return false;
    }
    let mut i: usize = 0;
    while i < na
        invariant
            i <= na,
            na == a@.len(),
            nb == b@.len(),
            na == nb,
            forall|j: int| 0 <= j < i ==> a@[j] == b@[j],
        decreases na - i,
    {
        if a.get_char(i) != b.get_char(i) {
            return false;
        }
        i += 1;
    }
    proof {
        assert(a@ =~= b@);
    }
    true
}

/// Whether `s` starts with `pre`, by characters.
pub fn str_starts_with(s: &str, pre: &str) -> (r: bool)
    ensures
        r == starts_with(s@, pre@),
{
    let n = s.unicode_len();
    let m = pre.unicode_len();
    if m > n {
        return false;
    }
    let mut i: usize = 0;
    while i < m
        invariant
            i <= m,
            m <= n,
            n == s@.len(),
            m == pre@.len(),
            forall|j: int| 0 <= j < i ==> s@[j] == pre@[j],
        decreases m - i,
    {
        if s.get_char(i) != pre.get_char(i) {
            proof {
                let sub = s@.subrange(0, pre@.len() as int);
                assert(sub[i as int] != pre@[i as int]);
            }
            return false;
        }
        i += 1;
    }
    proof {
        assert(s@.subrange(0, pre@.len() as int) =~= pre@);
    }
    true
}

/// Equality of a character vector and a string.
pub fn chars_eq_str(v: &Vec<char>, s: &str) -> (r: bool)
    ensures
        r == (v@ == s@),
{
    let n = s.unicode_len();
    if v.len() != n {
        return false;
    }
    let mut i: usize = 0;
    while i < n
        invariant
            i <= n,
            n == s@.len(),
            n == v@.len(),
            forall|j: int| 0 <= j < i ==> v@[j] == s@[j],
        decreases n - i,
    {
        if v[i] != s.get_char(i) {
            return false;
        }
        i += 1;
    }
    proof {
        assert(v@ =~= s@);
    }
    true
}

/// Equality of two character vectors.
pub fn vec_eq_chars(a: &Vec<char>, b: &Vec<char>) -> (r: bool)
    ensures
        r == (a@ == b@),
{
    if a.len() != b.len() {
        return false;
    }
    let mut i: usize = 0;
    while i < a.len()
        invariant
            i <= a.len(),
            a@.len() == b@.len(),
            forall|j: int| 0 <= j < i ==> a@[j] == b@[j],
        decreases a.len() - i,
    {
        if a[i] != b[i] {
            return false;
        }
        i += 1;
    }
    proof {
        assert(a@ =~= b@);
    }
    true
}

/// Strict lexicographic comparison of two character vectors.
pub fn vec_lt(a: &Vec<char>, b: &Vec<char>) -> (r: bool)
    ensures
        r == seq_lt(a@, b@),
{
    let mut i: usize = 0;
    loop
        invariant
            i <= a.len(),
            i <= b.len(),
            forall|j: int| 0 <= j < i ==> a@[j] == b@[j],
        decreases a.len() - i,
    {
        if i >= a.len() {
            proof {
                lemma_seq_lt_common(a@, b@, i as int);
                assert(a@.skip(i as int).len() == 0);
            }
            return i < b.len();
        }
        if i >= b.len() {
            proof {
                lemma_seq_lt_common(a@, b@, i as int);
                assert(b@.skip(i as int).len() == 0);
            }
            return false;
        }
        let ca = a[i];
        let cb = b[i];
        if ca != cb {
            proof {
                lemma_seq_lt_common(a@, b@, i as int);
                assert(a@.skip(i as int)[0] == ca);
                assert(b@.skip(i as int)[0] == cb);
            }
            return ca < cb;
        }
        i += 1;
    }
}

/// The extension of a path held as characters.
#[verifier::rlimit(30)]
pub fn ext_of_chars(v: &Vec<char>) -> (r: Vec<char>)
    ensures
        r@ == ext_of(v@),
{
    // last slash
    let mut i: usize = v.len();
    while i > 0 && v[i - 1] != '/'
        invariant
            i <= v.len(),
            forall|j: int| i <= j < v.len() ==> v@[j] != '/',
        decreases i,
    {
        i -= 1;
    }
    // name is v[i..]
    let ghost name = v@.skip(i as int);
    proof {
        if i > 0 {
            lemma_rfind_char_hit(v@, '/', i as int - 1);
        } else {
            lemma_rfind_char_none(v@, '/');
        }
        assert(match rfind_char(v@, '/') {
            Some(k) => name == v@.skip(k + 1),
            None => name =~= v@,
        });
    }
    let mut j: usize = v.len();
    while j > i && v[j - 1] != '.'
        invariant
            i <= j <= v.len(),
            forall|k: int| j <= k < v.len() ==> v@[k] != '.',
        decreases j,
    {
        j -= 1;
    }
    if j > i && j - 1 > i {
        // dot at j-1, not leading in the name
        proof {
            assert(name[j - 1 - i] == '.');
            assert forall|k: int| j - i <= k < name.len() implies name[k] != '.' by {
                assert(name[k] == v@[i + k]);
            }
            lemma_rfind_char_hit(name, '.', j - 1 - i);
            assert(name.skip(j - i) =~= v@.subrange(j as int, v@.len() as int));
        }
        subrange_chars(v, j, v.len())
    } else {
        proof {
            if j == i + 1 {
                assert(name[0] == '.');
                assert forall|k: int| 1 <= k < name.len() implies name[k] != '.' by {
                    assert(name[k] == v@[i + k]);
                }
                lemma_rfind_char_hit(name, '.', 0);
            } else {
                assert forall|k: int| 0 <= k < name.len() implies name[k] != '.' by {
                    assert(name[k] == v@[i + k]);
                }
                lemma_rfind_char_none(name, '.');
            }
        }
        Vec::new()
    }
}

/// Trimming the back cannot reach a non-blank first character.
pub proof fn lemma_trim_back_nonempty(s: Seq<char>)
    requires
        s.len() > 0,
        !is_ws(s[0]),
    ensures
        trim_back(s).len() > 0,
    decreases s.len(),
{
    if s.len() > 0 && is_ws(s.last()) {
        lemma_trim_back_nonempty(s.drop_last());
    }
}

/// Joining after appending one more line.
pub proof fn lemma_join_push(ls: Seq<Seq<char>>, x: Seq<char>)
    ensures
        join_nl(ls.push(x)) == if ls.len() == 0 {
            x
        } else {
            join_nl(ls) + seq!['\n'] + x
        },
    decreases ls.len(),
{
    if ls.len() == 0 {
        assert(ls.push(x) =~= seq![x]);
        assert(join_nl(seq![x]) == x);
    } else if ls.len() == 1 {
        assert(ls.push(x).drop_first() =~= seq![x]);
        assert(ls.push(x)[0] == ls[0]);
        assert(join_nl(seq![x]) == x);
        assert(join_nl(ls.push(x)) == ls[0] + seq!['\n'] + x);
        assert(join_nl(ls) == ls[0]);
    } else {
        let y = ls.drop_first();
        lemma_join_push(y, x);
        assert(join_nl(y.push(x)) == join_nl(y) + seq!['\n'] + x);
        assert(ls.push(x).drop_first() =~= y.push(x));
        assert(ls.push(x)[0] == ls[0]);
        assert(join_nl(ls.push(x)) == ls[0] + seq!['\n'] + (join_nl(y) + seq!['\n'] + x));
        assert(join_nl(ls) == ls[0] + seq!['\n'] + join_nl(y));
        assert((ls[0] + seq!['\n'] + (join_nl(y) + seq!['\n'] + x)) =~= (ls[0]
            + seq!['\n'] + join_nl(y)) + seq!['\n'] + x);
    }
}

/// A nested vector of characters is indexed through `deep_view` as through
/// the plain views.
pub proof fn lemma_deep_index_chars(v: &Vec<Vec<char>>, i: int)
    requires
        0 <= i < v@.len(),
    ensures
        v.deep_view().len() == v@.len(),
        v.deep_view()[i] == v@[i]@,
{
    assert(v.deep_view()[i] =~= v@[i]@);
}

/// Appends every character of `src`.
pub fn push_all(dst: &mut Vec<char>, src: &Vec<char>)
    ensures
        final(dst)@ == old(dst)@ + src@,
{
    proof {
        assert(old(dst)@ + src@.take(0) =~= old(dst)@);
    }
    let mut k: usize = 0;
    while k < src.len()
        invariant
            k <= src.len(),
            dst@ == old(dst)@ + src@.take(k as int),
        decreases src.len() - k,
    {
        dst.push(src[k]);
        proof {
            assert(old(dst)@ + src@.take(k as int + 1) =~= (old(dst)@ + src@.take(k as int)).push(
                src@[k as int],
            ));
        }
        k += 1;
    }
    proof {
        assert(src@.take(src@.len() as int) =~= src@);
    }
}

/// Blank space stripped from the front only.
pub fn trim_front_chars(v: &Vec<char>) -> (r: Vec<char>)
    ensures
        r@ == trim_front(v@),
{
    let a = skip_ws_in(v, 0);
    proof {
        lemma_skip_ws(v@, 0);
        lemma_trim_front_skip(v@, a as int);
        assert(v@.subrange(a as int, v@.len() as int) =~= v@.skip(a as int));
    }
    subrange_chars(v, a, v.len())
}

/// Blank space stripped from the back only.
pub fn trim_back_chars(v: &Vec<char>) -> (r: Vec<char>)
    ensures
        r@ == trim_back(v@),
{
    let mut b: usize = v.len();
    while b > 0 && ws_char(v[b - 1])
        invariant
            b <= v.len(),
            forall|j: int| b <= j < v.len() ==> is_ws(v@[j]),
        decreases b,
    {
        b -= 1;
    }
    proof {
        lemma_trim_back_take(v@, b as int);
        assert(v@.take(b as int) =~= v@.subrange(0, b as int));
    }
    subrange_chars(v, 0, b)
}

/// End of the run of `c` characters starting at `i`.
pub open spec fn run_end(s: Seq<char>, c: char, i: int) -> int
    decreases s.len() - i,
{
    if 0 <= i < s.len() && s[i] == c {
        run_end(s, c, i + 1)
    } else {
        i
    }
}

pub proof fn lemma_run_end(s: Seq<char>, c: char, i: int)
    requires
        0 <= i <= s.len(),
    ensures
        i <= run_end(s, c, i) <= s.len(),
        forall|j: int| i <= j < run_end(s, c, i) ==> s[j] == c,
        run_end(s, c, i) < s.len() ==> s[run_end(s, c, i)] != c,
    decreases s.len() - i,
{
    if 0 <= i < s.len() && s[i] == c {
        lemma_run_end(s, c, i + 1);
    }
}

/// End of the run of `c` characters starting at `i`, executably.
pub fn run_end_in(v: &Vec<char>, c: char, from: usize) -> (r: usize)
    requires
        from <= v.len(),
    ensures
        r == run_end(v@, c, from as int),
        from <= r <= v.len(),
{
    let mut i: usize = from;
    while i < v.len() && v[i] == c
        invariant
            from <= i <= v.len(),
            forall|j: int| from <= j < i ==> v@[j] == c,
        decreases v.len() - i,
    {
        i += 1;
    }
    proof {
        lemma_run_end(v@, c, from as int);
        let k = run_end(v@, c, from as int);
        if k < i {
            assert(v@[k] == c);
        }
        if i < k {
            assert(v@[i as int] == c);
        }
    }
    i
}

/// Whether `v` ends with `pat`.
pub fn ends_lit(v: &Vec<char>, pat: &[char]) -> (r: bool)
    ensures
        r == ends_with(v@, pat@),
{
    if pat.len() > v.len() {
        return false;
    }
    let r = matches_lit(v, v.len() - pat.len(), pat);
    proof {
        assert(v@.subrange(v@.len() - pat@.len(), v@.len() as int) == v@.subrange(
            v@.len() - pat@.len(),
            v@.len() - pat@.len() + pat@.len(),
        ));
    }
    r
}

/// Whether `v` ends with `pat` under ASCII case folding.
pub fn ends_lit_ci(v: &Vec<char>, pat: &[char]) -> (r: bool)
    ensures
        r == ends_with_ci(v@, pat@),
{
    if pat.len() > v.len() {
        return false;
    }
    let r = matches_lit_ci(v, v.len() - pat.len(), pat);
    proof {
        assert(v@.subrange(v@.len() - pat@.len(), v@.len() as int) == v@.subrange(
            v@.len() - pat@.len(),
            v@.len() - pat@.len() + pat@.len(),
        ));
    }
    r
}

/// Search indices transfer through `skip`.
pub proof fn lemma_find_char_shift(s: Seq<char>, c: char, k: int)
    requires
        0 <= k <= s.len(),
    ensures
        match find_char(s, c, k) {
            Some(i) => find_char(s.skip(k), c, 0) == Some(i - k),
            None => find_char(s.skip(k), c, 0) is None,
        },
{
    let t = s.skip(k);
    match find_char(s, c, k) {
        Some(i) => {
            lemma_find_char_some(s, c, k);
            assert(t[i - k] == s[i]);
            assert forall|j: int| 0 <= j < i - k implies t[j] != c by {
                assert(t[j] == s[k + j]);
            }
            lemma_find_char_hit(t, c, 0, i - k);
        },
        None => {
            lemma_find_char_none_inv(s, c, k);
            assert forall|j: int| 0 <= j < t.len() implies t[j] != c by {
                assert(t[j] == s[k + j]);
            }
            lemma_find_char_none(t, c, 0);
        },
    }
}

} // verus!
