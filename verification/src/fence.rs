//! The fence scanner: recognizing code fence lines and collecting the lines a
//! fence encloses, with end-of-input standing in for a missing closing fence.

use vstd::prelude::*;

use crate::text::{
    is_ws, is_alnum, trimmed, trim_front, trim_chars, skip_ws, skip_ws_in, join_nl, ws_char,
    alnum_char, lemma_skip_ws, lemma_trim_front_skip,
};

verus! {

/// A lone fence line: optional blanks, three backticks, an optional
/// alphanumeric language token, optional blanks, nothing else.
pub open spec fn is_strict_fence(l: Seq<char>) -> bool {
    let t = trimmed(l);
    t.len() >= 3 && t[0] == '`' && t[1] == '`' && t[2] == '`' && (forall|i: int|
        3 <= i < t.len() ==> is_alnum(t[i]))
}

/// A line whose first non-blank characters are three backticks, whatever
/// follows them.
pub open spec fn is_loose_fence(l: Seq<char>) -> bool {
    let t = trim_front(l);
    t.len() >= 3 && t[0] == '`' && t[1] == '`' && t[2] == '`'
}

/// A line holding nothing but blanks.
pub open spec fn is_blank(l: Seq<char>) -> bool {
    trimmed(l).len() == 0
}

pub fn strict_fence_line(l: &Vec<char>) -> (r: bool)
    ensures
        r == is_strict_fence(l@),
{
    let t = trim_chars(l);
    if t.len() < 3 {
        return false;
    }
    if !(t[0] == '`' && t[1] == '`' && t[2] == '`') {
        return false;
    }
    let mut i: usize = 3;
    while i < t.len()
        invariant
            3 <= i <= t@.len(),
            t@ == trimmed(l@),
            t@.len() >= 3,
            forall|j: int| 3 <= j < i ==> is_alnum(t@[j]),
        decreases t.len() - i,
    {
        if !alnum_char(t[i]) {
            return false;
        }
        i += 1;
    }
    true
}

pub fn loose_fence_line(l: &Vec<char>) -> (r: bool)
    ensures
        r == is_loose_fence(l@),
{
    let a = skip_ws_in(l, 0);
    proof {
        lemma_skip_ws(l@, 0);
        lemma_trim_front_skip(l@, skip_ws(l@, 0));
        assert(trim_front(l@) == l@.skip(a as int));
    }
    if l.len() < 3 || a > l.len() - 3 {
        return false;
    }
    l[a] == '`' && l[a + 1] == '`' && l[a + 2] == '`'
}

pub fn blank_line(l: &Vec<char>) -> (r: bool)
    ensures
        r == is_blank(l@),
{
    let mut i: usize = 0;
    while i < l.len() && ws_char(l[i])
        invariant
            i <= l.len(),
            forall|j: int| 0 <= j < i ==> is_ws(l@[j]),
        decreases l.len() - i,
    {
        i += 1;
    }
    proof {
        lemma_trim_front_skip(l@, i as int);
        if i < l.len() {
            assert(trim_front(l@).len() > 0);
            assert(!is_ws(trim_front(l@)[0]));
            assert(trimmed(l@).len() > 0) by {
                let t = trim_front(l@);
                crate::text::lemma_trim_back_nonempty(t);
            }
        } else {
            assert(trim_front(l@).len() == 0);
        }
    }
    i == l.len()
}

// ---------------------------------------------------------------------------
// The scanner itself
// ---------------------------------------------------------------------------

/// Index just past the closing strict fence, or the line count when no
/// closing fence follows.
pub open spec fn fence_end_strict(lines: Seq<Seq<char>>, s: int) -> int
    decreases lines.len() - s,
{
    if s < 0 || s >= lines.len() {
        lines.len() as int
    } else if is_strict_fence(lines[s]) {
        s + 1
    } else {
        fence_end_strict(lines, s + 1)
    }
}

/// The lines a strict fence opened at `s` encloses.
pub open spec fn fence_content_strict(lines: Seq<Seq<char>>, s: int) -> Seq<Seq<char>>
    decreases lines.len() - s,
{
    if s < 0 || s >= lines.len() {
        Seq::empty()
    } else if is_strict_fence(lines[s]) {
        Seq::empty()
    } else {
        seq![lines[s]] + fence_content_strict(lines, s + 1)
    }
}

pub open spec fn fence_end_loose(lines: Seq<Seq<char>>, s: int) -> int
    decreases lines.len() - s,
{
    if s < 0 || s >= lines.len() {
        lines.len() as int
    } else if is_loose_fence(lines[s]) {
        s + 1
    } else {
        fence_end_loose(lines, s + 1)
    }
}

pub open spec fn fence_content_loose(lines: Seq<Seq<char>>, s: int) -> Seq<Seq<char>>
    decreases lines.len() - s,
{
    if s < 0 || s >= lines.len() {
        Seq::empty()
    } else if is_loose_fence(lines[s]) {
        Seq::empty()
    } else {
        seq![lines[s]] + fence_content_loose(lines, s + 1)
    }
}

pub proof fn lemma_fence_strict_bounds(lines: Seq<Seq<char>>, s: int)
    requires
        0 <= s <= lines.len(),
    ensures
        s <= fence_end_strict(lines, s) <= lines.len(),
    decreases lines.len() - s,
{
    if s < lines.len() && !is_strict_fence(lines[s]) {
        lemma_fence_strict_bounds(lines, s + 1);
    }
}

pub proof fn lemma_fence_loose_bounds(lines: Seq<Seq<char>>, s: int)
    requires
        0 <= s <= lines.len(),
    ensures
        s <= fence_end_loose(lines, s) <= lines.len(),
    decreases lines.len() - s,
{
    if s < lines.len() && !is_loose_fence(lines[s]) {
        lemma_fence_loose_bounds(lines, s + 1);
    }
}

/// With a closing fence at `t`, the scanner stops there and hands back
/// exactly the lines in between.
pub proof fn lemma_fence_strict_closed(lines: Seq<Seq<char>>, s: int, t: int)
    requires
        0 <= s <= t < lines.len(),
        is_strict_fence(lines[t]),
        forall|j: int| s <= j < t ==> !is_strict_fence(lines[j]),
    ensures
        fence_end_strict(lines, s) == t + 1,
        fence_content_strict(lines, s) == lines.subrange(s, t),
    decreases t - s,
{
    if s < t {
        lemma_fence_strict_closed(lines, s + 1, t);
        assert(seq![lines[s]] + lines.subrange(s + 1, t) =~= lines.subrange(s, t));
    } else {
        assert(lines.subrange(s, t) =~= Seq::empty());
    }
}

/// With no closing fence in sight, everything to end-of-input is content.
pub proof fn lemma_fence_strict_eof(lines: Seq<Seq<char>>, s: int)
    requires
        0 <= s <= lines.len(),
        forall|j: int| s <= j < lines.len() ==> !is_strict_fence(lines[j]),
    ensures
        fence_end_strict(lines, s) == lines.len(),
        fence_content_strict(lines, s) == lines.skip(s),
    decreases lines.len() - s,
{
    if s < lines.len() {
        lemma_fence_strict_eof(lines, s + 1);
        assert(seq![lines[s]] + lines.skip(s + 1) =~= lines.skip(s));
    } else {
        assert(lines.skip(s) =~= Seq::<Seq<char>>::empty());
    }
}

pub proof fn lemma_fence_loose_closed(lines: Seq<Seq<char>>, s: int, t: int)
    requires
        0 <= s <= t < lines.len(),
        is_loose_fence(lines[t]),
        forall|j: int| s <= j < t ==> !is_loose_fence(lines[j]),
    ensures
        fence_end_loose(lines, s) == t + 1,
        fence_content_loose(lines, s) == lines.subrange(s, t),
    decreases t - s,
{
    if s < t {
        lemma_fence_loose_closed(lines, s + 1, t);
        assert(seq![lines[s]] + lines.subrange(s + 1, t) =~= lines.subrange(s, t));
    } else {
        assert(lines.subrange(s, t) =~= Seq::empty());
    }
}

pub proof fn lemma_fence_loose_eof(lines: Seq<Seq<char>>, s: int)
    requires
        0 <= s <= lines.len(),
        forall|j: int| s <= j < lines.len() ==> !is_loose_fence(lines[j]),
    ensures
        fence_end_loose(lines, s) == lines.len(),
        fence_content_loose(lines, s) == lines.skip(s),
    decreases lines.len() - s,
{
    if s < lines.len() {
        lemma_fence_loose_eof(lines, s + 1);
        assert(seq![lines[s]] + lines.skip(s + 1) =~= lines.skip(s));
    } else {
        assert(lines.skip(s) =~= Seq::<Seq<char>>::empty());
    }
}

/// The loose-fence variant of the scanner: stops at any line opening with
/// three backticks, as the heading-plus-fence grammar does.
pub fn extract_loose_block(lines: &Vec<Vec<char>>, idx: usize) -> (r: (Vec<char>, usize))
    requires
        idx <= lines.len(),
    ensures
        r.1 == fence_end_loose(lines.deep_view(), idx as int),
        r.0@ == join_nl(fence_content_loose(lines.deep_view(), idx as int)),
        idx <= r.1 <= lines.len(),
{
    let ghost dv = lines.deep_view();
    let mut cur: Vec<char> = Vec::new();
    let mut i: usize = idx;
    proof {
        assert(dv.subrange(idx as int, idx as int) =~= Seq::<Seq<char>>::empty());
        lemma_fence_loose_bounds(dv, idx as int);
    }
    while i < lines.len()
        invariant
            idx <= i <= lines.len(),
            dv == lines.deep_view(),
            dv.len() == lines.len(),
            forall|j: int| idx <= j < i ==> !is_loose_fence(dv[j]),
            cur@ == join_nl(dv.subrange(idx as int, i as int)),
        decreases lines.len() - i,
    {
        proof {
            crate::text::lemma_deep_index_chars(lines, i as int);
        }
        if loose_fence_line(&lines[i]) {
            proof {
                lemma_fence_loose_closed(dv, idx as int, i as int);
            }
            return (cur, i + 1);
        }
        if i > idx {
            cur.push('\n');
        }
        crate::text::push_all(&mut cur, &lines[i]);
        proof {
            let pre = dv.subrange(idx as int, i as int);
            assert(dv.subrange(idx as int, i as int + 1) =~= pre.push(dv[i as int]));
            crate::text::lemma_join_push(pre, dv[i as int]);
            assert(cur@ =~= join_nl(dv.subrange(idx as int, i as int + 1)));
        }
        i += 1;
    }
    proof {
        lemma_fence_loose_eof(dv, idx as int);
        assert(dv.skip(idx as int) =~= dv.subrange(idx as int, i as int));
    }
    (cur, i)
}

/// The fence scanner: collects every line from `idx` until a strict fence
/// line, which is consumed and excluded; reaching end-of-input with no fence
/// is an implicit close, not an error.
pub fn extract_code_block(lines: &Vec<Vec<char>>, idx: usize) -> (r: (Vec<char>, usize))
    requires
        idx <= lines.len(),
    ensures
        r.1 == fence_end_strict(lines.deep_view(), idx as int),
        r.0@ == join_nl(fence_content_strict(lines.deep_view(), idx as int)),
        idx <= r.1 <= lines.len(),
{
    let ghost dv = lines.deep_view();
    let mut cur: Vec<char> = Vec::new();
    let mut i: usize = idx;
    proof {
        assert(dv.subrange(idx as int, idx as int) =~= Seq::<Seq<char>>::empty());
        lemma_fence_strict_bounds(dv, idx as int);
    }
    while i < lines.len()
        invariant
            idx <= i <= lines.len(),
            dv == lines.deep_view(),
            dv.len() == lines.len(),
            forall|j: int| idx <= j < i ==> !is_strict_fence(dv[j]),
            cur@ == join_nl(dv.subrange(idx as int, i as int)),
        decreases lines.len() - i,
    {
        proof {
            crate::text::lemma_deep_index_chars(lines, i as int);
        }
        if strict_fence_line(&lines[i]) {
            proof {
                lemma_fence_strict_closed(dv, idx as int, i as int);
            }
            return (cur, i + 1);
        }
        if i > idx {
            cur.push('\n');
        }
        crate::text::push_all(&mut cur, &lines[i]);
        proof {
            let pre = dv.subrange(idx as int, i as int);
            assert(dv.subrange(idx as int, i as int + 1) =~= pre.push(dv[i as int]));
            crate::text::lemma_join_push(pre, dv[i as int]);
            if i == idx {
                assert(cur@ =~= join_nl(dv.subrange(idx as int, i as int + 1)));
            } else {
                assert(cur@ =~= join_nl(dv.subrange(idx as int, i as int + 1)));
            }
        }
        i += 1;
    }
    proof {
        lemma_fence_strict_eof(dv, idx as int);
        assert(dv.skip(idx as int) =~= dv.subrange(idx as int, i as int));
    }
    (cur, i)
}

} // verus!
