//! Library-level laws: what holds of the recognizers, the serializers and
//! the resolution policy together, proved once and for all inputs.

use vstd::prelude::*;

use crate::fence::{
    fence_content_strict, fence_end_loose, fence_end_strict, is_blank,
    is_loose_fence, is_strict_fence, lemma_fence_strict_eof,
};
use crate::grammar::{
    all_eq_line, delim_scan, file_fence_scan, file_heading, hash_header, hash_scan, name_ok,
    no_ws, raw_header, raw_scan, skip_blanks, lemma_skip_blanks, token_ok, token_ok_ci,
};
use crate::parser::{group_of, spec_parse_content};
use crate::record::{MdPatternType, RecordV};
use crate::serialize::{lang_of, spec_block};
use crate::text::{
    eq_ci, ends_with, is_alnum, is_ws, join_nl, lemma_join_lines,
    lemma_lines_concat, lemma_lines_prepend, lemma_trim_back_take, lemma_trim_front_skip,
    lemma_trimmed_fixed, lines_of, matches_at, matches_ci_at, no_crlf, skip_ws, trim_back,
    trim_front, trimmed,
};

verus! {

// ---------------------------------------------------------------------------
// Forced resolution never fails
// ---------------------------------------------------------------------------

/// Forcing a grammar on a document it does not match yields the empty
/// record sequence: a normal outcome, never a failure.
pub proof fn lemma_forced_empty(s: Seq<char>, k: MdPatternType)
    requires
        group_of(k, trimmed(s)).len() == 0,
    ensures
        spec_parse_content(s, Some(k)).len() == 0,
{
}

// ---------------------------------------------------------------------------
// An unclosed fence captures everything to end-of-input
// ---------------------------------------------------------------------------

/// A heading-marker block whose fence is never closed before end-of-input
/// still captures every remaining line, joined verbatim, as its content —
/// subject only to the single trimming pass every block's content gets.
pub proof fn lemma_unclosed_fence_captures_rest(
    lines: Seq<Seq<char>>,
    i: int,
    j: int,
    p: Seq<char>,
)
    requires
        0 <= i < lines.len(),
        hash_header(lines[i]) == Some(p),
        j == skip_blanks(lines, i + 1),
        j < lines.len(),
        is_strict_fence(lines[j]),
        forall|t: int| j < t < lines.len() ==> !is_strict_fence(lines[t]),
    ensures
        hash_scan(lines, i) == seq![
            RecordV { path: p, content: trimmed(join_nl(lines.skip(j + 1))) },
        ],
{
    lemma_skip_blanks(lines, i + 1);
    lemma_fence_strict_eof(lines, j + 1);
    let k = fence_end_strict(lines, j + 1);
    assert(k == lines.len());
    assert(hash_scan(lines, k) == Seq::<RecordV>::empty());
    assert(seq![RecordV { path: p, content: trimmed(join_nl(lines.skip(j + 1))) }]
        + Seq::<RecordV>::empty() =~= seq![
        RecordV { path: p, content: trimmed(join_nl(lines.skip(j + 1))) },
    ]);
}

// ---------------------------------------------------------------------------
// Round trip: shared ground
// ---------------------------------------------------------------------------

/// A path every serializer writes and every recognizer reads back: a bare
/// token with an accepted extension and no blank space, quotes, angle
/// brackets or line breaks.
pub open spec fn wf_path(p: Seq<char>) -> bool {
    p.len() > 0 && no_ws(p) && token_ok(p) && (forall|i: int|
        0 <= i < p.len() ==> #[trigger] p[i] != '"' && p[i] != '<' && p[i] != '>')
}

/// Content in line-join normal form: already trimmed, no carriage return
/// before a newline, so that splitting into lines and joining them back is
/// the identity.
pub open spec fn wf_content(c: Seq<char>) -> bool {
    trimmed(c) == c && no_crlf(c)
}

/// No line of the content could pass for a closing fence, under the loose
/// rule — which subsumes the strict one.
pub open spec fn no_fence_line(c: Seq<char>) -> bool {
    forall|i: int| 0 <= i < lines_of(c).len() ==> !is_loose_fence(#[trigger] lines_of(c)[i])
}

/// No case-folded occurrence of the closing code tag anywhere in the
/// content.
pub open spec fn no_code_close(c: Seq<char>) -> bool {
    forall|t: int| !matches_ci_at(c, seq!['<', '/', 'c', 'o', 'd', 'e', '>'], t)
}

/// The common domain on which every serializer's output parses back to the
/// record itself. Outside it a round trip genuinely loses information: a
/// path holding blank space breaks the bare-token headers, a content line
/// opening with three backticks closes a fence early, and content holding
/// `</code>` closes a tag block early.
pub open spec fn wf_round_trip(r: RecordV, k: MdPatternType) -> bool {
    wf_path(r.path) && wf_content(r.content) && match k {
        MdPatternType::CodeTag => no_code_close(r.content) && !matches_at(
            r.content,
            seq!['`', '`', '`'],
            0,
        ),
        MdPatternType::FileCode => false,
        _ => no_fence_line(r.content),
    }
}

/// The back of a sequence trims away without reaching a kept prefix.
pub proof fn lemma_trim_back_prefix(s: Seq<char>)
    ensures
        trim_back(s).len() <= s.len(),
        trim_back(s) == s.take(trim_back(s).len() as int),
    decreases s.len(),
{
    if s.len() > 0 && is_ws(s.last()) {
        lemma_trim_back_prefix(s.drop_last());
        assert(s.drop_last().take(trim_back(s).len() as int) =~= s.take(
            trim_back(s).len() as int,
        ));
    } else {
        assert(s.take(s.len() as int) =~= s);
    }
}

/// A strict fence line is also a loose one.
pub proof fn lemma_strict_implies_loose(l: Seq<char>)
    requires
        is_strict_fence(l),
    ensures
        is_loose_fence(l),
{
    let tf = trim_front(l);
    let t = trimmed(l);
    lemma_trim_back_prefix(tf);
    assert(t == tf.take(t.len() as int));
    assert(tf[0] == t[0] && tf[1] == t[1] && tf[2] == t[2]);
}

/// Case-sensitive extension tokens also pass the case-folded test.
pub proof fn lemma_token_ok_ci(p: Seq<char>)
    requires
        token_ok(p),
    ensures
        token_ok_ci(p),
{
    if ends_with(p, seq!['.', 'r', 's']) && p.len() > 3 {
        assert(eq_ci(p.subrange(p.len() - 3, p.len() as int), seq!['.', 'r', 's']));
    } else if ends_with(p, seq!['.', 't', 'o', 'm', 'l']) && p.len() > 5 {
        assert(eq_ci(p.subrange(p.len() - 5, p.len() as int), seq!['.', 't', 'o', 'm', 'l']));
    } else {
        assert(eq_ci(p.subrange(p.len() - 5, p.len() as int), seq!['.', 'j', 's', 'o', 'n']));
    }
}

/// What the language tag can be: one of seven alphanumeric literals.
pub proof fn lemma_lang_facts(p: Seq<char>)
    ensures
        forall|i: int| 0 <= i < lang_of(p).len() ==> is_alnum(#[trigger] lang_of(p)[i]),
        forall|i: int| 0 <= i < lang_of(p).len() ==> #[trigger] lang_of(p)[i] != '\n'
            && lang_of(p)[i] != '\r',
{
    reveal_strlit("rust");
    reveal_strlit("toml");
    reveal_strlit("json");
    reveal_strlit("dart");
    reveal_strlit("javascript");
    reveal_strlit("typescript");
    let l = lang_of(p);
    if l == "rust"@ {
        assert forall|i: int| 0 <= i < l.len() implies is_alnum(#[trigger] l[i]) && l[i] != '\n'
            && l[i] != '\r' by {
            assert(l =~= seq!['r', 'u', 's', 't']);
        }
    } else if l == "toml"@ {
        assert forall|i: int| 0 <= i < l.len() implies is_alnum(#[trigger] l[i]) && l[i] != '\n'
            && l[i] != '\r' by {
            assert(l =~= seq!['t', 'o', 'm', 'l']);
        }
    } else if l == "json"@ {
        assert forall|i: int| 0 <= i < l.len() implies is_alnum(#[trigger] l[i]) && l[i] != '\n'
            && l[i] != '\r' by {
            assert(l =~= seq!['j', 's', 'o', 'n']);
        }
    } else if l == "dart"@ {
        assert forall|i: int| 0 <= i < l.len() implies is_alnum(#[trigger] l[i]) && l[i] != '\n'
            && l[i] != '\r' by {
            assert(l =~= seq!['d', 'a', 'r', 't']);
        }
    } else if l == "javascript"@ {
        assert forall|i: int| 0 <= i < l.len() implies is_alnum(#[trigger] l[i]) && l[i] != '\n'
            && l[i] != '\r' by {
            assert(l =~= seq!['j', 'a', 'v', 'a', 's', 'c', 'r', 'i', 'p', 't']);
        }
    } else if l == "typescript"@ {
        assert forall|i: int| 0 <= i < l.len() implies is_alnum(#[trigger] l[i]) && l[i] != '\n'
            && l[i] != '\r' by {
            assert(l =~= seq!['t', 'y', 'p', 'e', 's', 'c', 'r', 'i', 'p', 't']);
        }
    } else {
        assert(l.len() == 0);
    }
}

/// A newline-free non-empty text is a single line.
pub proof fn lemma_lines_single(s: Seq<char>)
    requires
        s.len() > 0,
        forall|j: int| 0 <= j < s.len() ==> s[j] != '\n',
    ensures
        lines_of(s) == seq![s],
{
    crate::text::lemma_find_char_none(s, '\n', 0);
}

/// The fenced block minus its closing blank line.
pub open spec fn fenced_core(p: Seq<char>, c: Seq<char>) -> Seq<char> {
    "```"@ + lang_of(p) + "\n"@ + c + "\n"@ + "```"@
}

/// The opening fence line a serializer writes.
pub open spec fn fence_line(p: Seq<char>) -> Seq<char> {
    "```"@ + lang_of(p)
}

/// The serializer's fence line is a strict fence and not blank.
pub proof fn lemma_fence_line(p: Seq<char>)
    ensures
        is_strict_fence(fence_line(p)),
        is_loose_fence(fence_line(p)),
        !is_blank(fence_line(p)),
        forall|j: int| 0 <= j < fence_line(p).len() ==> #[trigger] fence_line(p)[j] != '\n',
        fence_line(p).len() > 0,
        !is_ws(fence_line(p)[0]),
        !is_ws(fence_line(p).last()),
{
    reveal_strlit("```");
    lemma_lang_facts(p);
    let fl = fence_line(p);
    assert(fl[0] == '`' && fl[1] == '`' && fl[2] == '`');
    assert(forall|j: int| 3 <= j < fl.len() ==> is_alnum(#[trigger] fl[j])) by {
        assert(forall|j: int| 3 <= j < fl.len() ==> fl[j] == lang_of(p)[j - 3]);
    }
    assert(!is_ws(fl[0]));
    assert(!is_ws(fl.last())) by {
        if fl.len() > 3 {
            assert(is_alnum(fl.last()));
        }
    }
    lemma_trimmed_fixed(fl);
    assert(is_strict_fence(fl));
    lemma_strict_implies_loose(fl);
    assert(forall|j: int| 0 <= j < fl.len() ==> #[trigger] fl[j] != '\n') by {
        assert(forall|j: int| 3 <= j < fl.len() ==> fl[j] == lang_of(p)[j - 3]);
    }
}

/// The bare closing fence line.
pub proof fn lemma_closing_fence()
    ensures
        is_strict_fence("```"@),
        is_loose_fence("```"@),
        forall|j: int| 0 <= j < ("```"@).len() ==> #[trigger] ("```"@)[j] != '\n',
        ("```"@).len() == 3,
        !is_ws(("```"@)[0]),
        !is_ws(("```"@).last()),
{
    reveal_strlit("```");
    let cl = "```"@;
    assert(cl[0] == '`' && cl[1] == '`' && cl[2] == '`');
    assert(!is_ws(cl[0]) && !is_ws(cl.last()));
    lemma_trimmed_fixed(cl);
    assert(is_strict_fence(cl));
    lemma_strict_implies_loose(cl);
}

/// The lines a content occupies inside its fence: empty content still
/// takes one blank line.
pub open spec fn content_lines(c: Seq<char>) -> Seq<Seq<char>> {
    if c.len() == 0 {
        seq![c]
    } else {
        lines_of(c)
    }
}

/// How the fenced block splits into lines: its fence line, the content's
/// lines, the closing fence line.
pub proof fn lemma_fenced_core_lines(p: Seq<char>, c: Seq<char>)
    requires
        wf_content(c),
    ensures
        lines_of(fenced_core(p, c)) == seq![fence_line(p)] + content_lines(c) + seq!["```"@],
        fenced_core(p, c).len() > 0,
        !is_ws(fenced_core(p, c)[0]),
        !is_ws(fenced_core(p, c).last()),
{
    reveal_strlit("\n");
    reveal_strlit("```");
    lemma_fence_line(p);
    lemma_closing_fence();
    let fl = fence_line(p);
    let core = fenced_core(p, c);
    let tail = c + "\n"@ + "```"@;
    assert(core =~= fl + seq!['\n'] + tail) by {
        assert(("\n"@)[0] == '\n');
        assert(("\n"@).len() == 1);
    }
    assert(fl.last() != '\r') by {
        if is_ws(fl.last()) {
            assert(false);
        }
    }
    lemma_lines_prepend(fl, tail);
    if c.len() == 0 {
        assert(tail =~= Seq::<char>::empty() + seq!['\n'] + "```"@);
        lemma_lines_prepend(Seq::<char>::empty(), "```"@);
        lemma_lines_single("```"@);
        assert(lines_of(c) =~= Seq::<Seq<char>>::empty());
        assert(lines_of(tail) =~= seq![Seq::<char>::empty()] + lines_of("```"@));
        assert(Seq::<char>::empty() =~= c);
        assert(lines_of(core) =~= seq![fl] + content_lines(c) + seq!["```"@]);
    } else {
        assert(c.last() != '\n' && c.last() != '\r') by {
            lemma_content_ends(c);
        }
        assert(tail =~= c + seq!['\n'] + "```"@);
        lemma_lines_concat(c, "```"@);
        lemma_lines_single("```"@);
        assert(lines_of(core) =~= seq![fl] + content_lines(c) + seq!["```"@]);
    }
    assert(core[0] == '`');
    assert(core.last() == '`') by {
        assert(core.last() == ("```"@)[2]);
    }
}

/// Trimmed content ends in visible characters.
pub proof fn lemma_content_ends(c: Seq<char>)
    requires
        trimmed(c) == c,
        c.len() > 0,
    ensures
        !is_ws(c[0]),
        !is_ws(c.last()),
        c.last() != '\n',
        c.last() != '\r',
        c[0] != '\n',
{
    let tf = trim_front(c);
    lemma_trim_back_prefix(tf);
    lemma_trim_front_props(c);
    if is_ws(c[0]) {
        assert(tf.len() < c.len() || tf.len() == 0 || !is_ws(tf[0]));
        assert(trim_back(tf).len() <= tf.len());
        assert(c.len() <= tf.len());
        assert(tf =~= c);
        assert(false);
    }
    if is_ws(c.last()) {
        assert(trim_back(tf) == c);
        if tf.len() > 0 && is_ws(tf.last()) {
            assert(trim_back(tf) == trim_back(tf.drop_last()));
            lemma_trim_back_prefix(tf.drop_last());
            assert(trim_back(tf.drop_last()).len() <= tf.drop_last().len());
            assert(c.len() <= tf.len() - 1);
            assert(tf.len() <= c.len());
            assert(false);
        } else {
            assert(tf.len() == c.len());
            assert(tf =~= c.subrange(c.len() - tf.len(), c.len() as int));
            assert(tf.last() == c.last());
            assert(false);
        }
    }
}

/// `trim_front` keeps a suffix.
pub proof fn lemma_trim_front_props(s: Seq<char>)
    ensures
        trim_front(s).len() <= s.len(),
        trim_front(s) == s.subrange(s.len() - trim_front(s).len(), s.len() as int),
        trim_front(s).len() > 0 ==> !is_ws(trim_front(s)[0]),
    decreases s.len(),
{
    if s.len() > 0 && is_ws(s[0]) {
        lemma_trim_front_props(s.drop_first());
        let t = trim_front(s);
        assert(s.drop_first().subrange(s.drop_first().len() - t.len(), s.drop_first().len() as int)
            =~= s.subrange(s.len() - t.len(), s.len() as int));
    } else {
        assert(s.subrange(0, s.len() as int) =~= s);
    }
}

/// Content lines never read as fences under either rule, and join back to
/// the content itself after the single trimming pass.
pub proof fn lemma_content_lines_props(c: Seq<char>)
    requires
        wf_content(c),
        no_fence_line(c),
    ensures
        forall|i: int| 0 <= i < content_lines(c).len() ==> !is_strict_fence(
            #[trigger] content_lines(c)[i],
        ),
        forall|i: int| 0 <= i < content_lines(c).len() ==> !is_loose_fence(
            #[trigger] content_lines(c)[i],
        ),
        trimmed(join_nl(content_lines(c))) == c,
{
    if c.len() == 0 {
        assert(content_lines(c) =~= seq![c]);
        assert(join_nl(seq![c]) == c);
        assert(trim_front(c) == c);
        assert(trim_back(c) == c);
        assert(!is_loose_fence(c)) by {
            assert(trim_front(c).len() == 0);
        }
        assert forall|i: int| 0 <= i < content_lines(c).len() implies !is_strict_fence(
            #[trigger] content_lines(c)[i],
        ) && !is_loose_fence(content_lines(c)[i]) by {
            if is_strict_fence(content_lines(c)[i]) {
                lemma_strict_implies_loose(content_lines(c)[i]);
            }
        }
    } else {
        lemma_content_ends(c);
        lemma_join_lines(c);
        assert forall|i: int| 0 <= i < content_lines(c).len() implies !is_strict_fence(
            #[trigger] content_lines(c)[i],
        ) && !is_loose_fence(content_lines(c)[i]) by {
            assert(!is_loose_fence(lines_of(c)[i]));
            if is_strict_fence(content_lines(c)[i]) {
                lemma_strict_implies_loose(content_lines(c)[i]);
            }
        }
    }
}

/// Assembling one header line above a fenced block: how the document trims
/// and how it splits into lines.
pub proof fn lemma_doc_lines(h: Seq<char>, p: Seq<char>, c: Seq<char>)
    requires
        wf_content(c),
        h.len() > 0,
        !is_ws(h[0]),
        !is_ws(h.last()),
        forall|j: int| 0 <= j < h.len() ==> #[trigger] h[j] != '\n',
    ensures
        trimmed(h + seq!['\n'] + fenced_core(p, c) + "\n\n"@) == h + seq!['\n'] + fenced_core(
            p,
            c,
        ),
        lines_of(h + seq!['\n'] + fenced_core(p, c)) == seq![h, fence_line(p)] + content_lines(c)
            + seq!["```"@],
{
    lemma_fenced_core_lines(p, c);
    let core = fenced_core(p, c);
    let body = h + seq!['\n'] + core;
    assert(body[0] == h[0]);
    assert(body.last() == core.last());
    lemma_trim_serialized(body);
    assert(h + seq!['\n'] + core + "\n\n"@ =~= body + "\n\n"@);
    assert(h.last() != '\r') by {
        if is_ws(h.last()) {
            assert(false);
        }
    }
    lemma_lines_prepend(h, core);
    assert(seq![h] + (seq![fence_line(p)] + content_lines(c) + seq!["```"@]) =~= seq![
        h,
        fence_line(p),
    ] + content_lines(c) + seq!["```"@]);
}

/// The heading line a serializer writes parses back to its path.
pub proof fn lemma_hash_header_line(p: Seq<char>)
    requires
        wf_path(p),
    ensures
        hash_header("### "@ + p) == Some(p),
        forall|j: int| 0 <= j < ("### "@ + p).len() ==> #[trigger] ("### "@ + p)[j] != '\n',
        ("### "@ + p).len() > 0,
        !is_ws(("### "@ + p)[0]),
        !is_ws(("### "@ + p).last()),
{
    reveal_strlit("### ");
    let h = "### "@ + p;
    assert(("### "@).len() == 4);
    assert(h[0] == '#' && h[1] == '#' && h[2] == '#' && h[3] == ' ');
    assert(forall|j: int| 4 <= j < h.len() ==> h[j] == p[j - 4]);
    assert(!is_ws(h[0]));
    assert(h.last() == p.last());
    assert(!is_ws(h.last()));
    lemma_trimmed_fixed(h);
    let t = h;
    let m = crate::text::run_end(t, '#', 0);
    crate::text::lemma_run_end(t, '#', 0);
    assert(m == 3) by {
        if m < 3 {
            assert(t[m] == '#');
        }
        if m > 3 {
            assert(t[3] == '#');
        }
    }
    assert(is_ws(t[3]));
    let a = skip_ws(t, 3);
    crate::text::lemma_skip_ws(t, 3);
    assert(a == 4) by {
        if a > 4 {
            assert(is_ws(t[4]));
            assert(t[4] == p[0]);
        }
    }
    assert(t.skip(4) =~= p);
    assert(forall|j: int| 0 <= j < h.len() ==> #[trigger] h[j] != '\n') by {
        assert(forall|j: int| 0 <= j < p.len() ==> !is_ws(#[trigger] p[j]));
    }
}

/// Round trip for the heading-marker grammar.
pub proof fn lemma_round_trip_hash(r: RecordV)
    requires
        wf_round_trip(r, MdPatternType::HashMarker),
    ensures
        spec_parse_content(
            spec_block(r.path, r.content, Some(MdPatternType::HashMarker)),
            Some(MdPatternType::HashMarker),
        ) == seq![r],
{
    reveal_strlit("### ");
    reveal_strlit("\n");
    reveal_strlit("```");
    reveal_strlit("\n```\n\n");
    reveal_strlit("\n\n");
    let p = r.path;
    let c = r.content;
    let h = "### "@ + p;
    let core = fenced_core(p, c);
    let body = h + seq!['\n'] + core;
    let t = spec_block(p, c, Some(MdPatternType::HashMarker));
    lemma_hash_header_line(p);
    lemma_fenced_core_lines(p, c);
    lemma_fence_line(p);
    lemma_closing_fence();
    lemma_content_lines_props(c);
    assert(t =~= body + "\n\n"@) by {
        assert(trimmed(c) == c);
        assert(("\n"@).len() == 1 && ("\n"@)[0] == '\n');
        assert(("\n```\n\n"@).len() == 6);
        assert(("\n```\n\n"@)[0] == '\n' && ("\n```\n\n"@)[1] == '`' && ("\n```\n\n"@)[2] == '`'
            && ("\n```\n\n"@)[3] == '`' && ("\n```\n\n"@)[4] == '\n' && ("\n```\n\n"@)[5] == '\n');
        assert(("```"@).len() == 3);
        assert(("\n\n"@).len() == 2 && ("\n\n"@)[0] == '\n' && ("\n\n"@)[1] == '\n');
    }
    assert(body[0] == h[0]);
    assert(body.last() == core.last());
    lemma_trim_serialized(body);
    assert(trimmed(t) == body);
    lemma_lines_prepend(h, core);
    assert(h.last() != '\r') by {
        if is_ws(h.last()) {
            assert(false);
        }
    }
    let cl = content_lines(c);
    let bl = lines_of(body);
    let n = cl.len() as int;
    assert(bl == seq![h] + (seq![fence_line(p)] + cl + seq!["```"@]));
    assert(bl.len() == n + 3);
    assert(bl[0] == h);
    assert(bl[1] == fence_line(p));
    assert(forall|k: int| 0 <= k < n ==> bl[2 + k] == cl[k]);
    assert(bl[n + 2] == "```"@);
    // the scan: header at 0, fence at 1, content to the closing fence
    assert(hash_header(bl[0]) == Some(p));
    let j = skip_blanks(bl, 1);
    lemma_skip_blanks(bl, 1);
    assert(j == 1) by {
        if j > 1 {
            assert(is_blank(bl[1]));
        }
    }
    assert(is_strict_fence(bl[1]));
    assert(forall|u: int| 2 <= u < n + 2 ==> !is_strict_fence(#[trigger] bl[u])) by {
        assert(forall|k: int| 0 <= k < n ==> !is_strict_fence(#[trigger] cl[k]));
        assert(forall|u: int| 2 <= u < n + 2 ==> bl[u] == cl[u - 2]);
    }
    assert(is_strict_fence(bl[n + 2]));
    crate::fence::lemma_fence_strict_closed(bl, 2, n + 2);
    let k2 = fence_end_strict(bl, 2);
    assert(k2 == n + 3);
    assert(fence_content_strict(bl, 2) == bl.subrange(2, n + 2));
    assert(bl.subrange(2, n + 2) =~= cl);
    assert(trimmed(join_nl(cl)) == c);
    assert(hash_scan(bl, k2) == Seq::<RecordV>::empty());
    assert(hash_scan(bl, 0) == seq![RecordV { path: p, content: c }] + hash_scan(bl, k2));
    assert(hash_scan(bl, 0) =~= seq![r]);
}

/// The comment-header line a serializer writes parses back to its path.
pub proof fn lemma_raw_header_line(p: Seq<char>)
    requires
        wf_path(p),
    ensures
        raw_header("// file: "@ + p) == Some(p),
        forall|j: int| 0 <= j < ("// file: "@ + p).len() ==> #[trigger] ("// file: "@ + p)[j]
            != '\n',
        ("// file: "@ + p).len() > 0,
        !is_ws(("// file: "@ + p)[0]),
        !is_ws(("// file: "@ + p).last()),
{
    reveal_strlit("// file: ");
    let h = "// file: "@ + p;
    assert(("// file: "@).len() == 9);
    assert(h[0] == '/' && h[1] == '/' && h[2] == ' ' && h[3] == 'f' && h[4] == 'i' && h[5] == 'l'
        && h[6] == 'e' && h[7] == ':' && h[8] == ' ');
    assert(forall|j: int| 9 <= j < h.len() ==> h[j] == p[j - 9]);
    assert(!is_ws(h[0]));
    assert(h.last() == p.last());
    assert(!is_ws(h.last()));
    lemma_trimmed_fixed(h);
    let t = h;
    let a = skip_ws(t, 2);
    crate::text::lemma_skip_ws(t, 2);
    assert(a == 3) by {
        if a > 3 {
            assert(is_ws(t[3]));
        }
        if a < 3 {
            assert(!is_ws(t[2]));
        }
    }
    assert(matches_at(t, seq!['f', 'i', 'l', 'e', ':'], 3)) by {
        assert(t.subrange(3, 8) =~= seq!['f', 'i', 'l', 'e', ':']);
    }
    let b = skip_ws(t, 8);
    crate::text::lemma_skip_ws(t, 8);
    assert(b == 9) by {
        if b > 9 {
            assert(is_ws(t[9]));
            assert(t[9] == p[0]);
        }
    }
    assert(t.skip(9) =~= p);
    assert(forall|j: int| 0 <= j < h.len() ==> #[trigger] h[j] != '\n') by {
        assert(forall|j: int| 0 <= j < p.len() ==> !is_ws(#[trigger] p[j]));
    }
}

/// Round trip for the comment-header grammar.
pub proof fn lemma_round_trip_raw(r: RecordV)
    requires
        wf_round_trip(r, MdPatternType::Raw),
    ensures
        spec_parse_content(
            spec_block(r.path, r.content, Some(MdPatternType::Raw)),
            Some(MdPatternType::Raw),
        ) == seq![r],
{
    reveal_strlit("// file: ");
    reveal_strlit("\n");
    reveal_strlit("```");
    reveal_strlit("\n```\n\n");
    reveal_strlit("\n\n");
    let p = r.path;
    let c = r.content;
    let h = "// file: "@ + p;
    let core = fenced_core(p, c);
    let body = h + seq!['\n'] + core;
    let t = spec_block(p, c, Some(MdPatternType::Raw));
    lemma_raw_header_line(p);
    lemma_fenced_core_lines(p, c);
    lemma_fence_line(p);
    lemma_closing_fence();
    lemma_content_lines_props(c);
    assert(t =~= body + "\n\n"@) by {
        assert(trimmed(c) == c);
        assert(("\n"@).len() == 1 && ("\n"@)[0] == '\n');
        assert(("\n```\n\n"@).len() == 6);
        assert(("\n```\n\n"@)[0] == '\n' && ("\n```\n\n"@)[1] == '`' && ("\n```\n\n"@)[2] == '`'
            && ("\n```\n\n"@)[3] == '`' && ("\n```\n\n"@)[4] == '\n' && ("\n```\n\n"@)[5] == '\n');
        assert(("```"@).len() == 3);
        assert(("\n\n"@).len() == 2 && ("\n\n"@)[0] == '\n' && ("\n\n"@)[1] == '\n');
    }
    assert(body[0] == h[0]);
    assert(body.last() == core.last());
    lemma_trim_serialized(body);
    assert(trimmed(t) == body);
    assert(h.last() != '\r') by {
        if is_ws(h.last()) {
            assert(false);
        }
    }
    lemma_lines_prepend(h, core);
    let cl = content_lines(c);
    let bl = lines_of(body);
    let n = cl.len() as int;
    assert(bl == seq![h] + (seq![fence_line(p)] + cl + seq!["```"@]));
    assert(bl.len() == n + 3);
    assert(bl[0] == h);
    assert(bl[1] == fence_line(p));
    assert(forall|k: int| 0 <= k < n ==> bl[2 + k] == cl[k]);
    assert(bl[n + 2] == "```"@);
    assert(raw_header(bl[0]) == Some(p));
    let j = skip_blanks(bl, 1);
    lemma_skip_blanks(bl, 1);
    assert(j == 1) by {
        if j > 1 {
            assert(is_blank(bl[1]));
        }
    }
    assert(is_strict_fence(bl[1]));
    assert(forall|u: int| 2 <= u < n + 2 ==> !is_strict_fence(#[trigger] bl[u])) by {
        assert(forall|k: int| 0 <= k < n ==> !is_strict_fence(#[trigger] cl[k]));
        assert(forall|u: int| 2 <= u < n + 2 ==> bl[u] == cl[u - 2]);
    }
    assert(is_strict_fence(bl[n + 2]));
    crate::fence::lemma_fence_strict_closed(bl, 2, n + 2);
    let k2 = fence_end_strict(bl, 2);
    assert(k2 == n + 3);
    assert(bl.subrange(2, n + 2) =~= cl);
    assert(trimmed(join_nl(cl)) == c);
    assert(raw_scan(bl, k2) == Seq::<RecordV>::empty());
    assert(raw_scan(bl, 0) == seq![RecordV { path: p, content: c }] + raw_scan(bl, k2));
    assert(raw_scan(bl, 0) =~= seq![r]);
}

/// Round trip for the delimiter-bracketed grammar.
pub proof fn lemma_round_trip_delim(r: RecordV)
    requires
        wf_round_trip(r, MdPatternType::Delimiter),
    ensures
        spec_parse_content(
            spec_block(r.path, r.content, Some(MdPatternType::Delimiter)),
            Some(MdPatternType::Delimiter),
        ) == seq![r],
{
    reveal_strlit("========\n");
    reveal_strlit("\n========\n");
    reveal_strlit("========");
    reveal_strlit("\n");
    reveal_strlit("```");
    reveal_strlit("\n```\n\n");
    reveal_strlit("\n\n");
    let p = r.path;
    let c = r.content;
    let d = "========"@;
    assert(d.len() == 8);
    assert(forall|j: int| 0 <= j < d.len() ==> #[trigger] d[j] == '=');
    assert(!is_ws(d[0]) && !is_ws(d.last()));
    lemma_trimmed_fixed(d);
    assert(all_eq_line(d));
    assert(!is_blank(d));
    let core = fenced_core(p, c);
    let body = d + seq!['\n'] + (p + seq!['\n'] + (d + seq!['\n'] + core));
    let t = spec_block(p, c, Some(MdPatternType::Delimiter));
    lemma_fenced_core_lines(p, c);
    lemma_fence_line(p);
    lemma_closing_fence();
    lemma_content_lines_props(c);
    assert(t =~= body + "\n\n"@) by {
        assert(trimmed(c) == c);
        assert(("========\n"@).len() == 9);
        assert(forall|j: int| 0 <= j < 8 ==> ("========\n"@)[j] == '=');
        assert(("========\n"@)[8] == '\n');
        assert(("\n========\n"@).len() == 10);
        assert(("\n========\n"@)[0] == '\n' && ("\n========\n"@)[9] == '\n');
        assert(forall|j: int| 1 <= j < 9 ==> ("\n========\n"@)[j] == '=');
        assert(("\n"@).len() == 1 && ("\n"@)[0] == '\n');
        assert(("\n```\n\n"@).len() == 6);
        assert(("\n```\n\n"@)[0] == '\n' && ("\n```\n\n"@)[1] == '`' && ("\n```\n\n"@)[2] == '`'
            && ("\n```\n\n"@)[3] == '`' && ("\n```\n\n"@)[4] == '\n' && ("\n```\n\n"@)[5] == '\n');
        assert(("```"@).len() == 3);
        assert(("\n\n"@).len() == 2 && ("\n\n"@)[0] == '\n' && ("\n\n"@)[1] == '\n');
    }
    assert(body[0] == d[0]);
    assert(body.last() == core.last());
    lemma_trim_serialized(body);
    assert(trimmed(t) == body);
    assert(forall|j: int| 0 <= j < p.len() ==> #[trigger] p[j] != '\n' && p[j] != '\r') by {
        assert(forall|j: int| 0 <= j < p.len() ==> !is_ws(#[trigger] p[j]));
    }
    assert(!is_ws(p[0]) && !is_ws(p.last()));
    lemma_trimmed_fixed(p);
    lemma_lines_prepend(d, p + seq!['\n'] + (d + seq!['\n'] + core));
    lemma_lines_prepend(p, d + seq!['\n'] + core);
    lemma_lines_prepend(d, core);
    let cl = content_lines(c);
    let bl = lines_of(body);
    let n = cl.len() as int;
    assert(bl == seq![d] + (seq![p] + (seq![d] + (seq![fence_line(p)] + cl + seq!["```"@]))));
    assert(bl.len() == n + 5);
    assert(bl[0] == d && bl[1] == p && bl[2] == d);
    assert(bl[3] == fence_line(p));
    assert(forall|k: int| 0 <= k < n ==> bl[4 + k] == cl[k]);
    assert(bl[n + 4] == "```"@);
    assert(name_ok(trimmed(bl[1])));
    let j = skip_blanks(bl, 3);
    lemma_skip_blanks(bl, 3);
    assert(j == 3) by {
        if j > 3 {
            assert(is_blank(bl[3]));
        }
    }
    assert(is_strict_fence(bl[3]));
    assert(forall|u: int| 4 <= u < n + 4 ==> !is_strict_fence(#[trigger] bl[u])) by {
        assert(forall|k: int| 0 <= k < n ==> !is_strict_fence(#[trigger] cl[k]));
        assert(forall|u: int| 4 <= u < n + 4 ==> bl[u] == cl[u - 4]);
    }
    assert(is_strict_fence(bl[n + 4]));
    crate::fence::lemma_fence_strict_closed(bl, 4, n + 4);
    let k2 = fence_end_strict(bl, 4);
    assert(k2 == n + 5);
    assert(bl.subrange(4, n + 4) =~= cl);
    assert(trimmed(join_nl(cl)) == c);
    assert(delim_scan(bl, k2) == Seq::<RecordV>::empty());
    assert(delim_scan(bl, 0) == seq![RecordV { path: p, content: c }] + delim_scan(bl, k2));
    assert(delim_scan(bl, 0) =~= seq![r]);
}

/// The tag-heading line a serializer writes parses back to its path.
pub proof fn lemma_file_heading_line(p: Seq<char>)
    requires
        wf_path(p),
    ensures
        file_heading("### <file> "@ + p + " </file>"@) == Some(p),
        forall|j: int| 0 <= j < ("### <file> "@ + p + " </file>"@).len() ==> #[trigger] ("### <file> "@
            + p + " </file>"@)[j] != '\n',
        ("### <file> "@ + p + " </file>"@).len() > 0,
        !is_ws(("### <file> "@ + p + " </file>"@)[0]),
        !is_ws(("### <file> "@ + p + " </file>"@).last()),
{
    reveal_strlit("### <file> ");
    reveal_strlit(" </file>");
    let l = "### <file> "@ + p + " </file>"@;
    let pl = p.len() as int;
    assert(("### <file> "@).len() == 11);
    assert((" </file>"@).len() == 8);
    assert(l.len() == 19 + pl);
    assert(l[0] == '#' && l[1] == '#' && l[2] == '#' && l[3] == ' ' && l[4] == '<' && l[5] == 'f'
        && l[6] == 'i' && l[7] == 'l' && l[8] == 'e' && l[9] == '>' && l[10] == ' ');
    assert(forall|j: int| 11 <= j < 11 + pl ==> l[j] == p[j - 11]);
    assert(l[11 + pl] == ' ' && l[12 + pl] == '<' && l[13 + pl] == '/' && l[14 + pl] == 'f' && l[15
        + pl] == 'i' && l[16 + pl] == 'l' && l[17 + pl] == 'e' && l[18 + pl] == '>');
    assert(!is_ws(l[0]));
    assert(l.last() == '>');
    assert(!is_ws(l.last()));
    let a = skip_ws(l, 0);
    crate::text::lemma_skip_ws(l, 0);
    assert(a == 0) by {
        if a > 0 {
            assert(is_ws(l[0]));
        }
    }
    let m = crate::text::run_end(l, '#', 0);
    crate::text::lemma_run_end(l, '#', 0);
    assert(m == 3) by {
        if m < 3 {
            assert(l[m] == '#');
        }
        if m > 3 {
            assert(l[3] == '#');
        }
    }
    let b = skip_ws(l, 3);
    crate::text::lemma_skip_ws(l, 3);
    assert(b == 4) by {
        if b > 4 {
            assert(is_ws(l[4]));
        }
    }
    assert(matches_ci_at(l, seq!['<', 'f', 'i', 'l', 'e', '>'], 4)) by {
        let sub = l.subrange(4, 10);
        assert(sub =~= seq!['<', 'f', 'i', 'l', 'e', '>']);
        assert(eq_ci(sub, seq!['<', 'f', 'i', 'l', 'e', '>']));
    }
    let c0 = skip_ws(l, 10);
    crate::text::lemma_skip_ws(l, 10);
    assert(c0 == 11) by {
        if c0 > 11 {
            assert(is_ws(l[11]));
            assert(l[11] == p[0]);
        }
    }
    let e = crate::grammar::class_run_end(l, 11);
    assert(e == 11 + pl) by {
        assert(forall|j: int| 11 <= j < 11 + pl ==> !is_ws(#[trigger] l[j]) && l[j] != '<'
            && l[j] != '>') by {
            assert(forall|j: int| 0 <= j < p.len() ==> !is_ws(#[trigger] p[j]) && p[j] != '<'
                && p[j] != '>');
        }
        assert(is_ws(l[11 + pl]));
        crate::grammar::lemma_class_run_end_agrees(l, 11, 11 + pl);
    }
    assert(l.subrange(11, e) =~= p);
    lemma_token_ok_ci(p);
    let d = skip_ws(l, e);
    crate::text::lemma_skip_ws(l, 11 + pl);
    assert(d == 12 + pl) by {
        if d > 12 + pl {
            assert(is_ws(l[12 + pl]));
        }
    }
    assert(matches_ci_at(l, seq!['<', '/', 'f', 'i', 'l', 'e', '>'], 12 + pl)) by {
        let sub = l.subrange(12 + pl, 19 + pl);
        assert(sub =~= seq!['<', '/', 'f', 'i', 'l', 'e', '>']);
        assert(eq_ci(sub, seq!['<', '/', 'f', 'i', 'l', 'e', '>']));
    }
    assert(skip_ws(l, 19 + pl) == l.len());
    assert(forall|j: int| 0 <= j < l.len() ==> #[trigger] l[j] != '\n') by {
        assert(forall|j: int| 0 <= j < p.len() ==> !is_ws(#[trigger] p[j]));
    }
}

/// The heading-plus-fence scan over an assembled document's lines.
proof fn lemma_file_fence_scan_doc(bl: Seq<Seq<char>>, h: Seq<char>, p: Seq<char>, c: Seq<char>)
    requires
        wf_content(c),
        no_fence_line(c),
        bl == seq![h, fence_line(p)] + content_lines(c) + seq!["```"@],
        file_heading(h) == Some(p),
    ensures
        file_fence_scan(bl, 0) == seq![RecordV { path: p, content: c }],
{
    lemma_fence_line(p);
    lemma_closing_fence();
    lemma_content_lines_props(c);
    let cl = content_lines(c);
    let n = cl.len() as int;
    assert(bl.len() == n + 3);
    assert(bl[0] == h);
    assert(bl[1] == fence_line(p));
    assert(forall|k: int| 0 <= k < n ==> bl[2 + k] == cl[k]);
    assert(bl[n + 2] == "```"@);
    let j = skip_blanks(bl, 1);
    lemma_skip_blanks(bl, 1);
    assert(j == 1) by {
        if j > 1 {
            assert(is_blank(bl[1]));
        }
    }
    assert(is_loose_fence(bl[1]));
    assert(forall|u: int| 2 <= u < n + 2 ==> !is_loose_fence(#[trigger] bl[u])) by {
        assert(forall|k: int| 0 <= k < n ==> !is_loose_fence(#[trigger] cl[k]));
        assert(forall|u: int| 2 <= u < n + 2 ==> bl[u] == cl[u - 2]);
    }
    assert(is_loose_fence(bl[n + 2]));
    crate::fence::lemma_fence_loose_closed(bl, 2, n + 2);
    let k2 = fence_end_loose(bl, 2);
    assert(k2 == n + 3);
    assert(bl.subrange(2, n + 2) =~= cl);
    assert(trimmed(join_nl(cl)) == c);
    assert(file_fence_scan(bl, k2) == Seq::<RecordV>::empty());
    assert(file_fence_scan(bl, 0) == seq![RecordV { path: p, content: c }] + file_fence_scan(
        bl,
        k2,
    ));
    assert(seq![RecordV { path: p, content: c }] + file_fence_scan(bl, k2) =~= seq![
        RecordV { path: p, content: c },
    ]);
}

/// Round trip for the heading-plus-fence grammar.
#[verifier::rlimit(100)]
pub proof fn lemma_round_trip_file_fence(r: RecordV)
    requires
        wf_round_trip(r, MdPatternType::FileFence),
    ensures
        spec_parse_content(
            spec_block(r.path, r.content, Some(MdPatternType::FileFence)),
            Some(MdPatternType::FileFence),
        ) == seq![r],
{
    let p = r.path;
    let c = r.content;
    let h = "### <file> "@ + p + " </file>"@;
    let core = fenced_core(p, c);
    let body = h + seq!['\n'] + core;
    let t = spec_block(p, c, Some(MdPatternType::FileFence));
    lemma_file_heading_line(p);
    lemma_doc_lines(h, p, c);
    assert(t =~= body + "\n\n"@) by {
        reveal_strlit("### <file> ");
        reveal_strlit(" </file>\n");
        reveal_strlit(" </file>");
        reveal_strlit("\n");
        reveal_strlit("\n```\n\n");
        reveal_strlit("```");
        reveal_strlit("\n\n");
        assert(trimmed(c) == c);
        assert((" </file>\n"@).len() == 9);
        assert((" </file>"@).len() == 8);
        assert(forall|j: int| 0 <= j < 8 ==> (" </file>\n"@)[j] == (" </file>"@)[j]);
        assert((" </file>\n"@)[8] == '\n');
        assert(("\n"@).len() == 1 && ("\n"@)[0] == '\n');
        assert(("\n```\n\n"@).len() == 6);
        assert(("\n```\n\n"@)[0] == '\n' && ("\n```\n\n"@)[1] == '`' && ("\n```\n\n"@)[2] == '`'
            && ("\n```\n\n"@)[3] == '`' && ("\n```\n\n"@)[4] == '\n' && ("\n```\n\n"@)[5]
            == '\n');
        assert(("```"@).len() == 3);
        assert(("\n\n"@).len() == 2 && ("\n\n"@)[0] == '\n' && ("\n\n"@)[1] == '\n');
    }
    assert(trimmed(t) == body);
    lemma_file_fence_scan_doc(lines_of(body), h, p, c);
    assert(file_fence_scan(lines_of(body), 0) == seq![r]);
}

/// Round trip for the tag-wrapped grammar.
#[verifier::rlimit(50)]
pub proof fn lemma_round_trip_code_tag(r: RecordV)
    requires
        wf_round_trip(r, MdPatternType::CodeTag),
    ensures
        spec_parse_content(
            spec_block(r.path, r.content, Some(MdPatternType::CodeTag)),
            Some(MdPatternType::CodeTag),
        ) == seq![r],
{
    reveal_strlit("<code path=\"");
    reveal_strlit("\">\n");
    reveal_strlit("\n</code>\n\n");
    reveal_strlit("\n</code>");
    reveal_strlit("\n\n");
    let p = r.path;
    let c = r.content;
    let pl = p.len() as int;
    let cl = c.len() as int;
    let s = "<code path=\""@ + p + "\">\n"@ + c + "\n</code>"@;
    let t = spec_block(p, c, Some(MdPatternType::CodeTag));
    let close = seq!['<', '/', 'c', 'o', 'd', 'e', '>'];
    assert(("<code path=\""@).len() == 12);
    assert(("\">\n"@).len() == 3);
    assert(("\n</code>"@).len() == 8);
    assert(s.len() == 23 + pl + cl);
    assert(s[0] == '<' && s[1] == 'c' && s[2] == 'o' && s[3] == 'd' && s[4] == 'e' && s[5] == ' '
        && s[6] == 'p' && s[7] == 'a' && s[8] == 't' && s[9] == 'h' && s[10] == '=' && s[11]
        == '"');
    assert(forall|j: int| 12 <= j < 12 + pl ==> s[j] == p[j - 12]);
    let q = 12 + pl;
    assert(s[q] == '"' && s[q + 1] == '>' && s[q + 2] == '\n');
    assert(forall|j: int| q + 3 <= j < q + 3 + cl ==> s[j] == c[j - (q + 3)]);
    let m = q + 4 + cl;
    assert(s[q + 3 + cl] == '\n');
    assert(s[m] == '<' && s[m + 1] == '/' && s[m + 2] == 'c' && s[m + 3] == 'o' && s[m + 4] == 'd'
        && s[m + 5] == 'e' && s[m + 6] == '>');
    // trimming the document strips the final blank line
    assert(t =~= s + "\n\n"@) by {
        assert(trimmed(c) == c);
        assert(("\n</code>\n\n"@).len() == 10);
        assert(forall|j: int| 0 <= j < 8 ==> ("\n</code>\n\n"@)[j] == ("\n</code>"@)[j]);
        assert(("\n</code>\n\n"@)[8] == '\n' && ("\n</code>\n\n"@)[9] == '\n');
        assert(("\n\n"@).len() == 2 && ("\n\n"@)[0] == '\n' && ("\n\n"@)[1] == '\n');
    }
    assert(!is_ws(s[0]));
    assert(s.last() == '>');
    assert(!is_ws(s.last()));
    lemma_trim_serialized(s);
    assert(trimmed(t) == s);
    // the match at position zero
    assert(matches_ci_at(s, seq!['<', 'c', 'o', 'd', 'e'], 0)) by {
        let sub = s.subrange(0, 5);
        assert(sub =~= seq!['<', 'c', 'o', 'd', 'e']);
        assert(eq_ci(sub, seq!['<', 'c', 'o', 'd', 'e']));
    }
    assert(is_ws(s[5]));
    let b = skip_ws(s, 5);
    crate::text::lemma_skip_ws(s, 5);
    assert(b == 6) by {
        if b > 6 {
            assert(is_ws(s[6]));
        }
    }
    assert(matches_ci_at(s, seq!['p', 'a', 't', 'h'], 6)) by {
        let sub = s.subrange(6, 10);
        assert(sub =~= seq!['p', 'a', 't', 'h']);
        assert(eq_ci(sub, seq!['p', 'a', 't', 'h']));
    }
    let d = skip_ws(s, 10);
    crate::text::lemma_skip_ws(s, 10);
    assert(d == 10) by {
        if d > 10 {
            assert(is_ws(s[10]));
        }
    }
    let e = skip_ws(s, 11);
    crate::text::lemma_skip_ws(s, 11);
    assert(e == 11) by {
        if e > 11 {
            assert(is_ws(s[11]));
        }
    }
    assert(forall|j: int| 0 <= j < p.len() ==> #[trigger] p[j] != '"' && p[j] != '\r' && p[j]
        != '\n') by {
        assert(forall|j: int| 0 <= j < p.len() ==> !is_ws(#[trigger] p[j]));
    }
    assert(crate::text::find_char(s, '"', 12) == Some(q)) by {
        assert(forall|j: int| 12 <= j < q ==> s[j] != '"');
        crate::text::lemma_find_char_hit(s, '"', 12, q);
    }
    let pq = s.subrange(12, q);
    assert(pq =~= p);
    lemma_token_ok_ci(p);
    assert(crate::tag::no_cr_lf(pq));
    // the first closing tag is the real one
    assert(matches_ci_at(s, close, m)) by {
        let sub = s.subrange(m, m + 7);
        assert(sub =~= close);
        assert(eq_ci(sub, close));
    }
    assert forall|u: int| q + 2 <= u < m implies !matches_ci_at(s, close, u) by {
        if matches_ci_at(s, close, u) {
            let sub = s.subrange(u, u + 7);
            assert(eq_ci(sub, close));
            if u == q + 2 {
                assert(sub[0] == s[q + 2]);
                assert(crate::text::lower(sub[0]) == crate::text::lower(close[0]));
                assert(false);
            } else if u + 7 <= q + 3 + cl {
                assert(matches_ci_at(c, close, u - (q + 3))) by {
                    let sub2 = c.subrange(u - (q + 3), u - (q + 3) + 7);
                    assert(sub2 =~= sub) by {
                        assert(forall|j: int| 0 <= j < 7 ==> sub2[j] == c[u - (q + 3) + j] && sub[j]
                            == s[u + j]);
                    }
                }
                assert(false);
            } else {
                let off = (q + 3 + cl) - u;
                assert(0 <= off < 7);
                assert(sub[off] == s[q + 3 + cl]);
                assert(crate::text::lower(sub[off]) == crate::text::lower(close[off]));
                assert(false);
            }
        }
    }
    crate::text::lemma_find_ci_hit(s, close, q + 2, m);
    // the captured span trims to the content
    let span = s.subrange(q + 2, m);
    assert(span =~= seq!['\n'] + c + seq!['\n']);
    assert(trimmed(span) == c) by {
        if cl == 0 {
            assert(forall|j: int| 0 <= j < span.len() ==> is_ws(#[trigger] span[j]));
            lemma_trim_front_skip(span, 2);
            assert(span.skip(2) =~= Seq::<char>::empty());
            assert(trim_back(Seq::<char>::empty()) =~= Seq::<char>::empty());
            assert(c =~= Seq::<char>::empty());
        } else {
            lemma_content_ends(c);
            assert(span[0] == '\n' && is_ws(span[0]));
            assert(span[1] == c[0] && !is_ws(span[1]));
            lemma_trim_front_skip(span, 1);
            let u = span.skip(1);
            assert(u =~= c + seq!['\n']);
            assert(forall|j: int| cl <= j < u.len() ==> is_ws(#[trigger] u[j]));
            assert(!is_ws(u[cl - 1]));
            lemma_trim_back_take(u, cl);
            assert(u.take(cl) =~= c);
        }
    }
    assert(crate::tag::strip_nested_fence(c) == c);
    lemma_trimmed_fixed(p);
    let rec = RecordV { path: p, content: c };
    assert(crate::tag::code_tag_at(s, 0) == Some((rec, m + 7)));
    assert(m + 7 == s.len());
    assert(crate::tag::code_tag_scan(s, m + 7) == Seq::<RecordV>::empty());
    assert(crate::tag::code_tag_scan(s, 0) == seq![rec] + crate::tag::code_tag_scan(s, m + 7));
    assert(crate::tag::code_tag_scan(s, 0) =~= seq![r]);
}

/// Round trip: for every record and every grammar except paired-tag, the
/// record's serialized form parses back, under that grammar forced, to
/// exactly the record itself.
pub proof fn lemma_round_trip(r: RecordV, k: MdPatternType)
    requires
        k != MdPatternType::FileCode,
        wf_round_trip(r, k),
    ensures
        spec_parse_content(spec_block(r.path, r.content, Some(k)), Some(k)) == seq![r],
{
    match k {
        MdPatternType::CodeTag => lemma_round_trip_code_tag(r),
        MdPatternType::HashMarker => lemma_round_trip_hash(r),
        MdPatternType::Delimiter => lemma_round_trip_delim(r),
        MdPatternType::Raw => lemma_round_trip_raw(r),
        MdPatternType::FileCode => {},
        MdPatternType::FileFence => lemma_round_trip_file_fence(r),
    }
}

// ---------------------------------------------------------------------------
// Automatic resolution yields pairwise distinct paths
// ---------------------------------------------------------------------------

/// Records in path order: no later path strictly precedes an earlier one.
pub open spec fn sorted_le(s: Seq<RecordV>) -> bool {
    forall|i: int, j: int|
        0 <= i < j < s.len() ==> !crate::text::seq_lt(#[trigger] s[j].path, #[trigger] s[i].path)
}

/// The first index whose path the new record's path strictly precedes.
proof fn find_first_lt(x: RecordV, s: Seq<RecordV>) -> (p: int)
    ensures
        0 <= p <= s.len(),
        forall|k: int| 0 <= k < p ==> !crate::text::seq_lt(x.path, #[trigger] s[k].path),
        p < s.len() ==> crate::text::seq_lt(x.path, s[p].path),
    decreases s.len(),
{
    if s.len() == 0 {
        0
    } else if crate::text::seq_lt(x.path, s[0].path) {
        0
    } else {
        let p1 = find_first_lt(x, s.drop_first());
        assert(forall|k: int| 1 <= k < p1 + 1 ==> s[k] == s.drop_first()[k - 1]);
        p1 + 1
    }
}

/// From `a < b` and `b` not above `c`, conclude `a < c`.
proof fn lemma_lt_le_trans(a: Seq<char>, b: Seq<char>, c: Seq<char>)
    requires
        crate::text::seq_lt(a, b),
        !crate::text::seq_lt(c, b),
    ensures
        crate::text::seq_lt(a, c),
{
    crate::text::lemma_seq_lt_connex(b, c);
    if crate::text::seq_lt(b, c) {
        crate::text::lemma_seq_lt_trans(a, b, c);
    }
}

/// Inserting into a path-ordered sequence keeps it ordered.
proof fn lemma_insert_keeps_sorted(x: RecordV, s: Seq<RecordV>)
    requires
        sorted_le(s),
    ensures
        sorted_le(crate::parser::insert_sorted(x, s)),
{
    let p = find_first_lt(x, s);
    crate::parser::lemma_insert_at(x, s, p);
    let r = crate::parser::insert_sorted(x, s);
    assert(r == s.subrange(0, p) + seq![x] + s.skip(p));
    assert(r.len() == s.len() + 1);
    assert(forall|i: int| 0 <= i < p ==> r[i] == s[i]);
    assert(r[p] == x);
    assert(forall|i: int| p < i < r.len() ==> r[i] == s[i - 1]);
    assert forall|i: int, j: int|
        0 <= i < j < r.len() implies !crate::text::seq_lt(
        #[trigger] r[j].path,
        #[trigger] r[i].path,
    ) by {
        if i < p && j < p {
        } else if i < p && j == p {
            if crate::text::seq_lt(x.path, s[i].path) {
                assert(false);
            }
        } else if i < p && j > p {
        } else if i == p && j > p {
            if crate::text::seq_lt(s[j - 1].path, x.path) {
                assert(crate::text::seq_lt(x.path, s[p].path));
                crate::text::lemma_seq_lt_trans(s[j - 1].path, x.path, s[p].path);
                if j - 1 > p {
                    assert(!crate::text::seq_lt(s[j - 1].path, s[p].path));
                }
                if j - 1 == p {
                    crate::text::lemma_seq_lt_asym(x.path, s[p].path);
                }
                assert(false);
            }
        } else {
        }
    }
}

/// The stable sort leaves the records in path order.
proof fn lemma_sort_sorted(s: Seq<RecordV>)
    ensures
        sorted_le(crate::parser::sort_by_path(s)),
    decreases s.len(),
{
    if s.len() > 0 {
        lemma_sort_sorted(s.drop_last());
        lemma_insert_keeps_sorted(s.last(), crate::parser::sort_by_path(s.drop_last()));
    }
}

/// What deduplication does to an ordered sequence: the order survives,
/// neighbours get distinct paths, the last path survives, and the last
/// input path bounds every survivor.
proof fn lemma_dedup_props(s: Seq<RecordV>)
    requires
        sorted_le(s),
    ensures
        sorted_le(crate::parser::dedup_by_path(s)),
        forall|i: int|
            0 <= i < crate::parser::dedup_by_path(s).len() - 1
                ==> #[trigger] crate::parser::dedup_by_path(s)[i].path != crate::parser::dedup_by_path(
                s,
            )[i + 1].path,
        s.len() > 0 ==> crate::parser::dedup_by_path(s).len() > 0,
        s.len() > 0 ==> crate::parser::dedup_by_path(s).last().path == s.last().path,
        forall|i: int|
            0 <= i < crate::parser::dedup_by_path(s).len() && s.len() > 0
                ==> !crate::text::seq_lt(
                s.last().path,
                #[trigger] crate::parser::dedup_by_path(s)[i].path,
            ),
    decreases s.len(),
{
    let d = crate::parser::dedup_by_path(s);
    if s.len() <= 1 {
        if s.len() == 1 {
            crate::text::lemma_seq_lt_irrefl(s[0].path, s[0].path);
        }
    } else {
        let s1 = s.drop_last();
        assert(sorted_le(s1)) by {
            assert(forall|i: int| 0 <= i < s1.len() ==> s1[i] == s[i]);
        }
        lemma_dedup_props(s1);
        let d1 = crate::parser::dedup_by_path(s1);
        assert(s1.last() == s[s.len() - 2]);
        if s[s.len() - 1].path == s[s.len() - 2].path {
            assert(d == d1);
        } else {
            assert(d == d1 + seq![s.last()]);
            assert(d.len() == d1.len() + 1);
            assert(forall|i: int| 0 <= i < d1.len() ==> d[i] == d1[i]);
            assert(d.last() == s.last());
            // the new last record does not precede any survivor
            assert forall|i: int| 0 <= i < d1.len() implies !crate::text::seq_lt(
                s.last().path,
                #[trigger] d1[i].path,
            ) by {
                if crate::text::seq_lt(s.last().path, d1[i].path) {
                    assert(!crate::text::seq_lt(s1.last().path, d1[i].path));
                    lemma_lt_le_trans(s.last().path, d1[i].path, s1.last().path);
                    assert(crate::text::seq_lt(s.last().path, s[s.len() - 2].path));
                    assert(!crate::text::seq_lt(s[s.len() - 1].path, s[s.len() - 2].path));
                    assert(false);
                }
            }
            assert(sorted_le(d)) by {
                assert(forall|i: int, j: int|
                    0 <= i < j < d1.len() ==> !crate::text::seq_lt(
                        #[trigger] d[j].path,
                        #[trigger] d[i].path,
                    ));
            }
            crate::text::lemma_seq_lt_irrefl(s.last().path, s.last().path);
        }
    }
}

/// Path order with distinct neighbours makes every pair distinct.
proof fn lemma_strict_pair(d: Seq<RecordV>, i: int, j: int)
    requires
        sorted_le(d),
        forall|k: int| 0 <= k < d.len() - 1 ==> #[trigger] d[k].path != d[k + 1].path,
        0 <= i < j < d.len(),
    ensures
        crate::text::seq_lt(d[i].path, d[j].path),
    decreases j - i,
{
    if j == i + 1 {
        crate::text::lemma_seq_lt_connex(d[i].path, d[j].path);
        assert(d[i].path != d[i + 1].path);
    } else {
        lemma_strict_pair(d, i, j - 1);
        lemma_strict_pair(d, j - 1, j);
        crate::text::lemma_seq_lt_trans(d[i].path, d[j - 1].path, d[j].path);
    }
}

/// Automatic resolution never yields two records with the same path: after
/// the stable sort equal paths stand adjacent, and only the first of each
/// run survives deduplication.
pub proof fn lemma_automatic_paths_distinct(s: Seq<char>)
    ensures
        forall|i: int, j: int|
            0 <= i < j < spec_parse_content(s, None).len() ==> #[trigger] spec_parse_content(
                s,
                None,
            )[i].path != #[trigger] spec_parse_content(s, None)[j].path,
{
    let sorted = crate::parser::sort_by_path(crate::parser::all_groups(trimmed(s)));
    lemma_sort_sorted(crate::parser::all_groups(trimmed(s)));
    lemma_dedup_props(sorted);
    let d = crate::parser::dedup_by_path(sorted);
    assert forall|i: int, j: int| 0 <= i < j < d.len() implies #[trigger] d[i].path
        != #[trigger] d[j].path by {
        lemma_strict_pair(d, i, j);
        crate::text::lemma_seq_lt_irrefl(d[i].path, d[i].path);
        if d[i].path == d[j].path {
            crate::text::lemma_seq_lt_irrefl(d[i].path, d[j].path);
        }
    }
}

/// Trimming the serialized form strips exactly the final blank line.
pub proof fn lemma_trim_serialized(body: Seq<char>)
    requires
        body.len() > 0,
        !is_ws(body[0]),
        !is_ws(body.last()),
    ensures
        trimmed(body + "\n\n"@) == body,
{
    reveal_strlit("\n\n");
    let s = body + "\n\n"@;
    assert(s[0] == body[0]);
    lemma_trim_front_skip(s, 0);
    assert(s.skip(0) =~= s);
    assert(s[s.len() - 1] == ("\n\n"@)[1]);
    assert(s[s.len() - 2] == ("\n\n"@)[0]);
    assert(("\n\n"@)[0] == '\n' && ("\n\n"@)[1] == '\n');
    assert(s[body.len() - 1] == body.last());
    lemma_trim_back_take(s, body.len() as int);
    assert(s.take(body.len() as int) =~= body);
}

} // verus!
