//! WebVTT subtitles to a plain, timestamped transcript.
use vstd::prelude::*;

use crate::text::{chars_of, contains_chars, contains_seq, extend_chars, extend_with_str,
    has_prefix, is_whitespace, is_ws, occurs_at, starts_with, string_from_chars, trim,
    trim_chars};

verus! {

// ---------------------------------------------------------------------------
// Lines
// ---------------------------------------------------------------------------

/// `s` without one trailing carriage return.
pub open spec fn strip_cr(s: Seq<char>) -> Seq<char> {
    if s.len() > 0 && s.last() == '\r' {
        s.drop_last()
    } else {
        s
    }
}

/// The pieces of `s` between line feeds (`split('\n')`).
pub open spec fn split_lf(s: Seq<char>) -> Seq<Seq<char>>
    decreases s.len(),
{
    if s.len() == 0 {
        seq![Seq::empty()]
    } else {
        let rest = split_lf(s.drop_last());
        if s.last() == '\n' {
            rest.push(Seq::empty())
        } else {
            rest.update(rest.len() - 1, rest.last().push(s.last()))
        }
    }
}

/// The lines of `s` as `str::lines` gives them: split at `\n`; a line
/// ended by `\n` loses a `\r` before it; the text after the last `\n` is a
/// line only when it is not empty.
pub open spec fn lines(s: Seq<char>) -> Seq<Seq<char>> {
    let pieces = split_lf(s);
    let ended = pieces.drop_last().map_values(|l: Seq<char>| strip_cr(l));
    if pieces.last().len() == 0 {
        ended
    } else {
        ended.push(pieces.last())
    }
}

/// The lines of `s`.
pub fn split_lines(s: &[char]) -> (r: Vec<Vec<char>>)
    ensures
        r@.map_values(|l: Vec<char>| l@) == lines(s@),
{
    let mut done: Vec<Vec<char>> = Vec::new();
    let mut cur: Vec<char> = Vec::new();
    let n = s.len();
    for i in 0..n
        invariant
            n == s@.len(),
            split_lf(s@.take(i as int)).len() >= 1,
            done@.map_values(|l: Vec<char>| l@) == split_lf(s@.take(i as int)).drop_last().map_values(
                |l: Seq<char>| strip_cr(l),
            ),
            cur@ == split_lf(s@.take(i as int)).last(),
    {
        proof {
            assert(s@.take(i + 1).drop_last() =~= s@.take(i as int));
        }
        let ghost pieces = split_lf(s@.take(i as int));
        let ghost before = done@.map_values(|l: Vec<char>| l@);
        if s[i] == '\n' {
            let line = if cur.len() > 0 && cur[cur.len() - 1] == '\r' {
                crate::text::slice_range(cur.as_slice(), 0, cur.len() - 1)
            } else {
                crate::text::slice_range(cur.as_slice(), 0, cur.len())
            };
            assert(line@ == strip_cr(cur@)) by {
                assert(cur@.subrange(0, cur@.len() as int) =~= cur@);
            }
            done.push(line);
            cur = Vec::new();
            proof {
                let next = split_lf(s@.take(i + 1));
                assert(next == pieces.push(Seq::empty()));
                assert(next.drop_last() =~= pieces);
                assert(pieces =~= pieces.drop_last().push(pieces.last()));
                assert(pieces.map_values(|l: Seq<char>| strip_cr(l)) =~= pieces.drop_last().map_values(
                    |l: Seq<char>| strip_cr(l),
                ).push(strip_cr(pieces.last())));
                assert(done@.map_values(|l: Vec<char>| l@) =~= before.push(strip_cr(pieces.last())));
            }
        } else {
            cur.push(s[i]);
            proof {
                let next = split_lf(s@.take(i + 1));
                assert(next == pieces.update(pieces.len() - 1, pieces.last().push(s@[i as int])));
                assert(next.drop_last() =~= pieces.drop_last());
            }
        }
    }
    assert(s@.take(n as int) =~= s@);
    if cur.len() > 0 {
        let ghost before = done@.map_values(|l: Vec<char>| l@);
        done.push(cur);
        assert(done@.map_values(|l: Vec<char>| l@) =~= before.push(split_lf(s@).last()));
    }
    done
}

// ---------------------------------------------------------------------------
// Cue text
// ---------------------------------------------------------------------------

/// `s` with every occurrence of `pat` replaced by `rep`, left to right
/// (`str::replace`), for a non-empty `pat`.
pub open spec fn replace_all(s: Seq<char>, pat: Seq<char>, rep: Seq<char>) -> Seq<char>
    decreases s.len(),
{
    if s.len() == 0 || pat.len() == 0 {
        s
    } else if has_prefix(s, pat) {
        rep + replace_all(s.skip(pat.len() as int), pat, rep)
    } else {
        seq![s[0]] + replace_all(s.drop_first(), pat, rep)
    }
}

/// Replaces every occurrence of `pat` in `s` by `rep`.
pub fn replace_chars(s: &[char], pat: &str, rep: &str) -> (r: Vec<char>)
    requires
        pat@.len() > 0,
    ensures
        r@ == replace_all(s@, pat@, rep@),
{
    let p = chars_of(pat);
    let rp = chars_of(rep);
    let n = s.len();
    let mut out: Vec<char> = Vec::new();
    let mut i: usize = 0;
    assert(s@.skip(0) =~= s@);
    while i < n
        invariant
            n == s@.len(),
            i <= n,
            p@ == pat@,
            p@.len() > 0,
            rp@ == rep@,
            replace_all(s@, pat@, rep@) == out@ + replace_all(s@.skip(i as int), pat@, rep@),
        decreases n - i,
    {
        let ghost rest = s@.skip(i as int);
        if crate::text::matches_at(s, p.as_slice(), i) {
            assert(has_prefix(rest, p@)) by {
                assert(rest.subrange(0, p@.len() as int) =~= s@.subrange(
                    i as int,
                    i + p@.len(),
                ));
            }
            extend_chars(&mut out, rp.as_slice());
            assert(rest.skip(p@.len() as int) =~= s@.skip(i + p@.len()));
            i = i + p.len();
        } else {
            assert(!has_prefix(rest, p@)) by {
                if has_prefix(rest, p@) {
                    assert(rest.subrange(0, p@.len() as int) =~= s@.subrange(
                        i as int,
                        i + p@.len(),
                    ));
                }
            }
            out.push(s[i]);
            assert(rest.drop_first() =~= s@.skip(i + 1));
            assert(rest[0] == s@[i as int]);
            i = i + 1;
        }
    }
    assert(s@.skip(n as int) =~= Seq::<char>::empty());
    out
}

/// The characters of `s` outside `<...>` tags; `in_tag` tells whether a tag
/// is open at the start.
pub open spec fn strip_tags_from(s: Seq<char>, in_tag: bool) -> Seq<char>
    decreases s.len(),
{
    if s.len() == 0 {
        Seq::empty()
    } else if s[0] == '<' {
        strip_tags_from(s.drop_first(), true)
    } else if s[0] == '>' {
        strip_tags_from(s.drop_first(), false)
    } else if in_tag {
        strip_tags_from(s.drop_first(), true)
    } else {
        seq![s[0]] + strip_tags_from(s.drop_first(), false)
    }
}

/// A cue line without its markup: tags removed, then the entities `&amp;`,
/// `&lt;` and `&gt;` decoded, in that order.
pub open spec fn spec_strip_vtt_tags(s: Seq<char>) -> Seq<char> {
    replace_all(
        replace_all(replace_all(strip_tags_from(s, false), "&amp;"@, "&"@), "&lt;"@, "<"@),
        "&gt;"@,
        ">"@,
    )
}

/// Removes the markup of a cue line.
pub fn strip_vtt_tags(input: &[char]) -> (r: Vec<char>)
    ensures
        r@ == spec_strip_vtt_tags(input@),
{
    let mut out: Vec<char> = Vec::new();
    let mut in_tag = false;
    let n = input.len();
    assert(input@.skip(0) =~= input@);
    for i in 0..n
        invariant
            n == input@.len(),
            strip_tags_from(input@, false) == out@ + strip_tags_from(
                input@.skip(i as int),
                in_tag,
            ),
    {
        let ch = input[i];
        let ghost rest = input@.skip(i as int);
        assert(rest[0] == ch);
        assert(rest.drop_first() =~= input@.skip(i + 1));
        if ch == '<' {
            in_tag = true;
        } else if ch == '>' {
            in_tag = false;
        } else if !in_tag {
            out.push(ch);
            assert(out@ + strip_tags_from(input@.skip(i + 1), false) =~= (out@.drop_last() + (
            seq![ch] + strip_tags_from(input@.skip(i + 1), false))));
        }
    }
    assert(input@.skip(n as int) =~= Seq::<char>::empty());
    assert(out@ =~= strip_tags_from(input@, false));
    proof {
        reveal_strlit("&amp;");
        reveal_strlit("&lt;");
        reveal_strlit("&gt;");
    }
    let a = replace_chars(out.as_slice(), "&amp;", "&");
    let b = replace_chars(a.as_slice(), "&lt;", "<");
    replace_chars(b.as_slice(), "&gt;", ">")
}

/// The words of `s` joined by single spaces
/// (`split_whitespace().collect::<Vec<_>>().join(" ")`). `pending` tells
/// whether a space is owed before the next word, `started` whether a word
/// was already written.
pub open spec fn squeeze_from(s: Seq<char>, pending: bool, started: bool) -> Seq<char>
    decreases s.len(),
{
    if s.len() == 0 {
        Seq::empty()
    } else if is_ws(s[0]) {
        squeeze_from(s.drop_first(), started, started)
    } else {
        (if pending {
            seq![' ']
        } else {
            Seq::empty()
        }) + seq![s[0]] + squeeze_from(s.drop_first(), false, true)
    }
}

/// The words of `s` joined by single spaces.
pub open spec fn squeeze_ws(s: Seq<char>) -> Seq<char> {
    squeeze_from(s, false, false)
}

/// The words of `s` joined by single spaces.
pub fn squeeze_whitespace(s: &[char]) -> (r: Vec<char>)
    ensures
        r@ == squeeze_ws(s@),
{
    let mut out: Vec<char> = Vec::new();
    let mut pending = false;
    let mut started = false;
    let n = s.len();
    assert(s@.skip(0) =~= s@);
    for i in 0..n
        invariant
            n == s@.len(),
            squeeze_ws(s@) == out@ + squeeze_from(s@.skip(i as int), pending, started),
    {
        let c = s[i];
        let ghost rest = s@.skip(i as int);
        assert(rest[0] == c);
        assert(rest.drop_first() =~= s@.skip(i + 1));
        if is_whitespace(c) {
            pending = started;
        } else {
            let ghost before = out@;
            if pending {
                out.push(' ');
            }
            out.push(c);
            assert(out@ =~= before + ((if pending {
                seq![' ']
            } else {
                Seq::empty()
            }) + seq![c]));
            pending = false;
            started = true;
        }
    }
    assert(s@.skip(n as int) =~= Seq::<char>::empty());
    out
}

/// The pieces joined with single spaces (`join(" ")`).
pub open spec fn join_spaces(parts: Seq<Seq<char>>) -> Seq<char>
    decreases parts.len(),
{
    if parts.len() == 0 {
        Seq::empty()
    } else if parts.len() == 1 {
        parts[0]
    } else {
        join_spaces(parts.drop_last()) + seq![' '] + parts.last()
    }
}

// ---------------------------------------------------------------------------
// Cues
// ---------------------------------------------------------------------------

/// Lines that carry no cue: blank lines, the `WEBVTT` header and the
/// `Kind:` and `Language:` headers (all after trimming).
pub open spec fn is_header_line(t: Seq<char>) -> bool {
    ||| t.len() == 0
    ||| t == "WEBVTT"@
    ||| has_prefix(t, "Kind:"@)
    ||| has_prefix(t, "Language:"@)
}

/// Whether a line holds a cue timing (`-->`).
pub open spec fn is_timing(l: Seq<char>) -> bool {
    contains_seq(l, "-->"@)
}

/// The text lines of a cue that starts at line `j`: trimmed and stripped of
/// markup, up to a blank line (which is consumed) or a timing line (which is
/// not); with the index of the line after them.
pub open spec fn cue_body(ls: Seq<Seq<char>>, j: int) -> (Seq<Seq<char>>, int)
    decreases ls.len() - j,
{
    if j < 0 || j >= ls.len() {
        (Seq::empty(), j)
    } else {
        let t = trim(ls[j]);
        if t.len() == 0 {
            (Seq::empty(), j + 1)
        } else if is_timing(t) {
            (Seq::empty(), j)
        } else {
            let rest = cue_body(ls, j + 1);
            (seq![spec_strip_vtt_tags(t)] + rest.0, rest.1)
        }
    }
}

/// The `(timing, text)` entries of the transcript from line `i` on, given
/// the text of the last entry written (`prev`): a cue is written when its
/// text is not empty and differs from the previous one.
pub open spec fn vtt_entries(ls: Seq<Seq<char>>, i: int, prev: Seq<char>) -> Seq<
    (Seq<char>, Seq<char>),
>
    decreases ls.len() - i, 1int,
{
    if i < 0 || i >= ls.len() {
        Seq::empty()
    } else {
        let line = trim(ls[i]);
        if is_header_line(line) {
            vtt_entries(ls, i + 1, prev)
        } else if is_timing(line) {
            vtt_cue(ls, line, i + 1, prev)
        } else if i + 1 < ls.len() && is_timing(ls[i + 1]) {
            vtt_cue(ls, trim(ls[i + 1]), i + 2, prev)
        } else {
            vtt_entries(ls, i + 1, prev)
        }
    }
}

/// The entries from a cue with timing `timing` whose text starts at line `j`.
pub open spec fn vtt_cue(ls: Seq<Seq<char>>, timing: Seq<char>, j: int, prev: Seq<char>) -> Seq<
    (Seq<char>, Seq<char>),
>
    decreases ls.len() - j + 1, 0int,
{
    if j < 0 || j > ls.len() {
        Seq::empty()
    } else {
        let body = cue_body(ls, j);
        let text = squeeze_ws(join_spaces(body.0));
        let next = body.1;
        if next < j || next > ls.len() {
            Seq::empty()
        } else if text.len() > 0 && text != prev {
            seq![(timing, text)] + vtt_entries(ls, next, text)
        } else {
            vtt_entries(ls, next, prev)
        }
    }
}

/// One transcript line: `[timing] text`.
pub open spec fn transcript_line(e: (Seq<char>, Seq<char>)) -> Seq<char> {
    seq!['['] + e.0 + "] "@ + e.1
}

/// The transcript lines, each followed by a line feed.
pub open spec fn transcript_text(es: Seq<(Seq<char>, Seq<char>)>) -> Seq<char> {
    es.map_values(|e: (Seq<char>, Seq<char>)| transcript_line(e) + seq!['\n']).flatten()
}

/// The transcript of a WebVTT document: one `[timing] text` line per cue
/// whose text is not empty and differs from the previous cue's, each line
/// ended by a line feed; empty when there is no such cue.
pub open spec fn spec_vtt_to_text(vtt: Seq<char>) -> Seq<char> {
    transcript_text(vtt_entries(lines(vtt), 0, Seq::empty()))
}

proof fn lemma_cue_body_bounds(ls: Seq<Seq<char>>, j: int)
    requires
        0 <= j <= ls.len(),
    ensures
        j <= cue_body(ls, j).1 <= ls.len(),
    decreases ls.len() - j,
{
    if j < ls.len() {
        let t = trim(ls[j]);
        if t.len() != 0 && !is_timing(t) {
            lemma_cue_body_bounds(ls, j + 1);
        }
    }
}

/// Collects the text lines of the cue starting at line `j`.
fn collect_cue_body(ls: &Vec<Vec<char>>, j: usize) -> (r: (Vec<Vec<char>>, usize))
    requires
        j <= ls@.len(),
    ensures
        r.0@.map_values(|l: Vec<char>| l@) == cue_body(
            ls@.map_values(|l: Vec<char>| l@),
            j as int,
        ).0,
        r.1 == cue_body(ls@.map_values(|l: Vec<char>| l@), j as int).1,
{
    let ghost lv = ls@.map_values(|l: Vec<char>| l@);
    let mut parts: Vec<Vec<char>> = Vec::new();
    let mut k = j;
    let n = ls.len();
    let arrow = chars_of("-->");
    loop
        invariant
            n == ls@.len(),
            lv == ls@.map_values(|l: Vec<char>| l@),
            j <= k <= n,
            arrow@ == "-->"@,
            cue_body(lv, j as int).1 == cue_body(lv, k as int).1,
            cue_body(lv, j as int).0 == parts@.map_values(|l: Vec<char>| l@) + cue_body(
                lv,
                k as int,
            ).0,
        decreases n - k,
    {
        if k >= n {
            assert(parts@.map_values(|l: Vec<char>| l@) =~= parts@.map_values(|l: Vec<char>| l@)
                + Seq::<Seq<char>>::empty());
            return (parts, k);
        }
        let t = trim_chars(ls[k].as_slice());
        assert(lv[k as int] == ls@[k as int]@);
        if t.len() == 0 {
            assert(parts@.map_values(|l: Vec<char>| l@) =~= parts@.map_values(|l: Vec<char>| l@)
                + Seq::<Seq<char>>::empty());
            return (parts, k + 1);
        }
        if contains_chars(t.as_slice(), arrow.as_slice()) {
            assert(parts@.map_values(|l: Vec<char>| l@) =~= parts@.map_values(|l: Vec<char>| l@)
                + Seq::<Seq<char>>::empty());
            return (parts, k);
        }
        let stripped = strip_vtt_tags(t.as_slice());
        let ghost before = parts@.map_values(|l: Vec<char>| l@);
        parts.push(stripped);
        assert(parts@.map_values(|l: Vec<char>| l@) =~= before.push(stripped@));
        assert(before + cue_body(lv, k as int).0 =~= parts@.map_values(|l: Vec<char>| l@)
            + cue_body(lv, k + 1).0);
        k = k + 1;
    }
}

/// The pieces joined with single spaces.
fn join_with_spaces(parts: &Vec<Vec<char>>) -> (r: Vec<char>)
    ensures
        r@ == join_spaces(parts@.map_values(|l: Vec<char>| l@)),
{
    let ghost pv = parts@.map_values(|l: Vec<char>| l@);
    let mut out: Vec<char> = Vec::new();
    let n = parts.len();
    for i in 0..n
        invariant
            n == parts@.len(),
            pv == parts@.map_values(|l: Vec<char>| l@),
            out@ == join_spaces(pv.take(i as int)),
    {
        let ghost before = out@;
        if i > 0 {
            out.push(' ');
        }
        extend_chars(&mut out, parts[i].as_slice());
        assert(pv.take(i + 1).drop_last() =~= pv.take(i as int));
        assert(pv[i as int] == parts@[i as int]@);
        if i == 0 {
            assert(out@ =~= join_spaces(pv.take(1)));
        } else {
            assert(out@ =~= join_spaces(pv.take(i as int)) + seq![' '] + pv[i as int]);
        }
    }
    assert(pv.take(n as int) =~= pv);
    out
}

/// Turns WebVTT subtitles into a transcript: one `[timing] text` line per
/// cue, cue markup removed, white space collapsed, and a cue whose text
/// repeats the previous one left out.
pub fn vtt_to_text(vtt: &str) -> (r: String)
    ensures
        r@ == spec_vtt_to_text(vtt@),
{
    let all = chars_of(vtt);
    let ls = split_lines(all.as_slice());
    let ghost lv = ls@.map_values(|l: Vec<char>| l@);
    let n = ls.len();
    let arrow = chars_of("-->");
    let webvtt = chars_of("WEBVTT");
    let kind = chars_of("Kind:");
    let language = chars_of("Language:");
    let mut out: Vec<char> = Vec::new();
    let mut prev: Vec<char> = Vec::new();
    let mut i: usize = 0;
    let ghost total = spec_vtt_to_text(vtt@);
    proof {
        assert(lv == lines(vtt@));
    }
    while i < n
        invariant
            n == ls@.len(),
            lv == ls@.map_values(|l: Vec<char>| l@),
            i <= n,
            arrow@ == "-->"@,
            webvtt@ == "WEBVTT"@,
            kind@ == "Kind:"@,
            language@ == "Language:"@,
            total == out@ + transcript_text(vtt_entries(lv, i as int, prev@)),
        decreases n - i,
    {
        let line = trim_chars(ls[i].as_slice());
        assert(lv[i as int] == ls@[i as int]@);
        let header = line.len() == 0 || crate::text::compare_chars(
            line.as_slice(),
            webvtt.as_slice(),
        ) == crate::text::Order::Equal || starts_with(line.as_slice(), kind.as_slice())
            || starts_with(line.as_slice(), language.as_slice());
        if header {
            i = i + 1;
            continue ;
        }
        let timing: Vec<char>;
        let start: usize;
        if contains_chars(line.as_slice(), arrow.as_slice()) {
            timing = line;
            start = i + 1;
        } else if i + 1 < n && contains_chars(ls[i + 1].as_slice(), arrow.as_slice()) {
            assert(lv[i + 1] == ls@[i + 1]@);
            timing = trim_chars(ls[i + 1].as_slice());
            start = i + 2;
        } else {
            i = i + 1;
            continue ;
        }
        assert(vtt_entries(lv, i as int, prev@) == vtt_cue(lv, timing@, start as int, prev@));
        let (parts, next) = collect_cue_body(&ls, start);
        proof {
            lemma_cue_body_bounds(lv, start as int);
        }
        let joined = join_with_spaces(&parts);
        let text = squeeze_whitespace(joined.as_slice());
        let same = crate::text::compare_chars(text.as_slice(), prev.as_slice())
            == crate::text::Order::Equal;
        if text.len() > 0 && !same {
            let ghost entry = (timing@, text@);
            let ghost before = out@;
            out.push('[');
            extend_chars(&mut out, timing.as_slice());
            extend_with_str(&mut out, "] ");
            extend_chars(&mut out, text.as_slice());
            out.push('\n');
            proof {
                let es = vtt_entries(lv, next as int, text@);
                let f = |e: (Seq<char>, Seq<char>)| transcript_line(e) + seq!['\n'];
                assert((seq![entry] + es).map_values(f) =~= seq![f(entry)] + es.map_values(f));
                vstd::seq_lib::lemma_flatten_concat(seq![f(entry)], es.map_values(f));
                seq![f(entry)].lemma_flatten_one_element();
                assert(out@ =~= before + f(entry));
            }
            prev = text;
        }
        i = next;
    }
    proof {
        let f = |e: (Seq<char>, Seq<char>)| transcript_line(e) + seq!['\n'];
        assert(Seq::<(Seq<char>, Seq<char>)>::empty().map_values(f) =~= Seq::<
            Seq<char>,
        >::empty());
    }
    string_from_chars(out.as_slice())
}

// ---------------------------------------------------------------------------
// Laws
// ---------------------------------------------------------------------------

proof fn lemma_entries_differ(ls: Seq<Seq<char>>, i: int, prev: Seq<char>)
    ensures
        forall|k: int|
            0 <= k < vtt_entries(ls, i, prev).len() ==> (#[trigger] vtt_entries(ls, i, prev)[
                k
            ]).1.len() > 0,
        vtt_entries(ls, i, prev).len() > 0 ==> vtt_entries(ls, i, prev)[0].1 != prev,
        forall|k: int|
            0 <= k < vtt_entries(ls, i, prev).len() - 1 ==> (#[trigger] vtt_entries(ls, i, prev)[
                k
            ]).1 != vtt_entries(ls, i, prev)[k + 1].1,
    decreases ls.len() - i, 1int,
{
    if 0 <= i < ls.len() {
        let line = trim(ls[i]);
        if is_header_line(line) {
            lemma_entries_differ(ls, i + 1, prev);
        } else if is_timing(line) {
            lemma_cue_differ(ls, line, i + 1, prev);
        } else if i + 1 < ls.len() && is_timing(ls[i + 1]) {
            lemma_cue_differ(ls, trim(ls[i + 1]), i + 2, prev);
        } else {
            lemma_entries_differ(ls, i + 1, prev);
        }
    }
}

proof fn lemma_cue_differ(ls: Seq<Seq<char>>, timing: Seq<char>, j: int, prev: Seq<char>)
    ensures
        forall|k: int|
            0 <= k < vtt_cue(ls, timing, j, prev).len() ==> (#[trigger] vtt_cue(
                ls,
                timing,
                j,
                prev,
            )[k]).1.len() > 0,
        vtt_cue(ls, timing, j, prev).len() > 0 ==> vtt_cue(ls, timing, j, prev)[0].1 != prev,
        forall|k: int|
            0 <= k < vtt_cue(ls, timing, j, prev).len() - 1 ==> (#[trigger] vtt_cue(
                ls,
                timing,
                j,
                prev,
            )[k]).1 != vtt_cue(ls, timing, j, prev)[k + 1].1,
    decreases ls.len() - j + 1, 0int,
{
    if 0 <= j <= ls.len() {
        let body = cue_body(ls, j);
        let text = squeeze_ws(join_spaces(body.0));
        let next = body.1;
        if next >= j && next <= ls.len() {
            if text.len() > 0 && text != prev {
                lemma_entries_differ(ls, next, text);
                let rest = vtt_entries(ls, next, text);
                let all = seq![(timing, text)] + rest;
                assert forall|k: int| 0 <= k < all.len() - 1 implies (#[trigger] all[k]).1
                    != all[k + 1].1 by {
                    if k > 0 {
                        assert(all[k] == rest[k - 1]);
                        assert(all[k + 1] == rest[k]);
                    }
                }
                assert forall|k: int| 0 <= k < all.len() implies (#[trigger] all[k]).1.len()
                    > 0 by {
                    if k > 0 {
                        assert(all[k] == rest[k - 1]);
                    }
                }
            } else {
                lemma_entries_differ(ls, next, prev);
            }
        }
    }
}

/// The transcript never repeats a text on two consecutive lines, and never
/// writes an empty text: every entry has text, and each differs from the
/// one before it.
pub proof fn law_vtt_entries_nonempty_and_deduplicated(vtt: Seq<char>)
    ensures
        forall|k: int|
            0 <= k < vtt_entries(lines(vtt), 0, Seq::empty()).len() ==> (#[trigger] vtt_entries(
                lines(vtt),
                0,
                Seq::empty(),
            )[k]).1.len() > 0,
        forall|k: int|
            0 <= k < vtt_entries(lines(vtt), 0, Seq::empty()).len() - 1 ==> (
            #[trigger] vtt_entries(lines(vtt), 0, Seq::empty())[k]).1 != vtt_entries(
                lines(vtt),
                0,
                Seq::empty(),
            )[k + 1].1,
{
    lemma_entries_differ(lines(vtt), 0, Seq::empty());
}

proof fn lemma_replace_step(s: Seq<char>, pat: Seq<char>, c: char)
    requires
        s.len() > 0,
        pat.len() > 0,
    ensures
        has_prefix(s, pat) ==> replace_all(s, pat, seq![c]) == seq![c] + replace_all(
            s.skip(pat.len() as int),
            pat,
            seq![c],
        ),
        !has_prefix(s, pat) ==> replace_all(s, pat, seq![c]) == seq![s[0]] + replace_all(
            s.drop_first(),
            pat,
            seq![c],
        ),
{
}

/// Text that `replace_all` copies before its first replacement is the
/// input's own: a prefix of the output without the replacement character
/// is a prefix of the input.
proof fn lemma_copied_prefix(s: Seq<char>, pat: Seq<char>, c: char, t: Seq<char>)
    requires
        pat.len() > 0,
        !t.contains(c),
        replace_all(s, pat, seq![c]).len() >= t.len(),
        replace_all(s, pat, seq![c]).take(t.len() as int) == t,
    ensures
        s.len() >= t.len(),
        s.take(t.len() as int) == t,
    decreases s.len(),
{
    if t.len() > 0 {
        let r = replace_all(s, pat, seq![c]);
        if s.len() == 0 {
            assert(r.len() == 0);
        } else {
            lemma_replace_step(s, pat, c);
            assert(r[0] == t[0]) by {
                assert(r.take(t.len() as int)[0] == r[0]);
            }
            if has_prefix(s, pat) {
                assert(r[0] == c);
                assert(t.contains(c)) by {
                    assert(t[0] == c);
                }
            } else {
                let r1 = replace_all(s.drop_first(), pat, seq![c]);
                let t1 = t.drop_first();
                assert(r1.take(t1.len() as int) =~= t1) by {
                    assert forall|k: int| 0 <= k < t1.len() implies r1[k] == t1[k] by {
                        assert(r[k + 1] == r1[k]);
                        assert(r.take(t.len() as int)[k + 1] == r[k + 1]);
                    }
                }
                assert(!t1.contains(c)) by {
                    if t1.contains(c) {
                        let k = choose|k: int| 0 <= k < t1.len() && t1[k] == c;
                        assert(t[k + 1] == c);
                    }
                }
                lemma_copied_prefix(s.drop_first(), pat, c, t1);
                assert(s.take(t.len() as int) =~= t) by {
                    assert forall|k: int| 0 <= k < t.len() implies s.take(t.len() as int)[k]
                        == t[k] by {
                        if k > 0 {
                            assert(s.drop_first().take(t1.len() as int)[k - 1] == s[k]);
                        }
                    }
                }
            }
        }
    }
}

/// After `pat` is replaced by a character not in it, `pat` is gone.
proof fn lemma_replaced_gone(s: Seq<char>, pat: Seq<char>, c: char, i: int)
    requires
        pat.len() > 0,
        !pat.contains(c),
    ensures
        !occurs_at(replace_all(s, pat, seq![c]), pat, i),
    decreases s.len(),
{
    let r = replace_all(s, pat, seq![c]);
    if s.len() > 0 && occurs_at(r, pat, i) {
        lemma_replace_step(s, pat, c);
        if i == 0 {
            assert(r.subrange(0, pat.len() as int) =~= r.take(pat.len() as int));
            if has_prefix(s, pat) {
                assert(pat[0] == r[0]);
                assert(pat.contains(c));
            } else {
                lemma_copied_prefix(s, pat, c, pat);
                assert(s.subrange(0, pat.len() as int) =~= s.take(pat.len() as int));
            }
        } else {
            let rest = if has_prefix(s, pat) {
                s.skip(pat.len() as int)
            } else {
                s.drop_first()
            };
            let r1 = replace_all(rest, pat, seq![c]);
            assert(r1.subrange(i - 1, i - 1 + pat.len()) =~= r.subrange(i, i + pat.len()));
            lemma_replaced_gone(rest, pat, c, i - 1);
        }
    }
}

/// Replacing `pat` by a character that `q` does not hold makes no new
/// occurrence of `q`.
proof fn lemma_no_new_occurrence(s: Seq<char>, pat: Seq<char>, c: char, q: Seq<char>, i: int)
    requires
        pat.len() > 0,
        q.len() > 0,
        !q.contains(c),
        forall|k: int| !occurs_at(s, q, k),
    ensures
        !occurs_at(replace_all(s, pat, seq![c]), q, i),
    decreases s.len(),
{
    let r = replace_all(s, pat, seq![c]);
    if s.len() > 0 && occurs_at(r, q, i) {
        lemma_replace_step(s, pat, c);
        if i == 0 {
            assert(r.subrange(0, q.len() as int) =~= r.take(q.len() as int));
            if has_prefix(s, pat) {
                assert(q[0] == r[0]);
                assert(q.contains(c));
            } else {
                lemma_copied_prefix(s, pat, c, q);
                assert(s.subrange(0, q.len() as int) =~= s.take(q.len() as int));
                assert(occurs_at(s, q, 0));
            }
        } else {
            let off: int = if has_prefix(s, pat) {
                pat.len() as int
            } else {
                1
            };
            let rest = s.skip(off);
            assert(has_prefix(s, pat) ==> rest == s.skip(pat.len() as int));
            assert(!has_prefix(s, pat) ==> rest =~= s.drop_first());
            assert forall|k: int| !occurs_at(rest, q, k) by {
                if occurs_at(rest, q, k) {
                    assert(s.subrange(k + off, k + off + q.len()) =~= rest.subrange(k, k + q.len()));
                    assert(occurs_at(s, q, k + off));
                }
            }
            let r1 = replace_all(rest, pat, seq![c]);
            assert(r1.subrange(i - 1, i - 1 + q.len()) =~= r.subrange(i, i + q.len()));
            lemma_no_new_occurrence(rest, pat, c, q, i - 1);
        }
    }
}

/// A decoded cue line keeps no `&lt;` and no `&gt;`: every one that stood
/// in the line, or that decoding `&amp;` made, is turned into `<` or `>`.
pub proof fn law_cue_text_has_no_lt_gt_entities(s: Seq<char>)
    ensures
        forall|i: int| !occurs_at(spec_strip_vtt_tags(s), "&lt;"@, i),
        forall|i: int| !occurs_at(spec_strip_vtt_tags(s), "&gt;"@, i),
{
    reveal_strlit("&lt;");
    reveal_strlit("&gt;");
    reveal_strlit("<");
    reveal_strlit(">");
    let lt = "&lt;"@;
    let gt = "&gt;"@;
    assert(!lt.contains('<')) by {
        if lt.contains('<') {
            let k = choose|k: int| 0 <= k < lt.len() && lt[k] == '<';
        }
    }
    assert(!lt.contains('>')) by {
        if lt.contains('>') {
            let k = choose|k: int| 0 <= k < lt.len() && lt[k] == '>';
        }
    }
    assert(!gt.contains('>')) by {
        if gt.contains('>') {
            let k = choose|k: int| 0 <= k < gt.len() && gt[k] == '>';
        }
    }
    assert("<"@ == seq!['<']);
    assert(">"@ == seq!['>']);
    let a = replace_all(strip_tags_from(s, false), "&amp;"@, "&"@);
    let b = replace_all(a, lt, seq!['<']);
    assert forall|k: int| !occurs_at(b, lt, k) by {
        lemma_replaced_gone(a, lt, '<', k);
    }
    assert forall|i: int| !occurs_at(spec_strip_vtt_tags(s), lt, i) by {
        lemma_no_new_occurrence(b, gt, '>', lt, i);
    }
    assert forall|i: int| !occurs_at(spec_strip_vtt_tags(s), gt, i) by {
        lemma_replaced_gone(b, gt, '>', i);
    }
}

proof fn lemma_replace_absent(x: Seq<char>, pat: Seq<char>, rep: Seq<char>)
    requires
        pat.len() > 0,
        forall|k: int| !occurs_at(x, pat, k),
    ensures
        replace_all(x, pat, rep) == x,
    decreases x.len(),
{
    if x.len() > 0 {
        assert(!has_prefix(x, pat)) by {
            if has_prefix(x, pat) {
                assert(occurs_at(x, pat, 0));
            }
        }
        let d = x.drop_first();
        assert forall|k: int| !occurs_at(d, pat, k) by {
            if occurs_at(d, pat, k) {
                assert(x.subrange(k + 1, k + 1 + pat.len()) =~= d.subrange(k, k + pat.len()));
                assert(occurs_at(x, pat, k + 1));
            }
        }
        lemma_replace_absent(d, pat, rep);
        assert(seq![x[0]] + d =~= x);
    }
}

proof fn lemma_replace_after_plain(a: Seq<char>, y: Seq<char>, pat: Seq<char>, rep: Seq<char>)
    requires
        pat.len() > 0,
        forall|i: int| 0 <= i < a.len() ==> a[i] != pat[0],
    ensures
        replace_all(a + y, pat, rep) == a + replace_all(y, pat, rep),
    decreases a.len(),
{
    if a.len() > 0 {
        let x = a + y;
        assert(!has_prefix(x, pat)) by {
            if has_prefix(x, pat) {
                assert(x.subrange(0, pat.len() as int)[0] == x[0]);
            }
        }
        assert(x.drop_first() =~= a.drop_first() + y);
        lemma_replace_after_plain(a.drop_first(), y, pat, rep);
        assert(seq![a[0]] + (a.drop_first() + replace_all(y, pat, rep)) =~= a + replace_all(
            y,
            pat,
            rep,
        ));
    }
}

/// Whether `s` holds no tag bracket and no `&`.
pub open spec fn is_plain_cue_text(s: Seq<char>) -> bool {
    forall|i: int| 0 <= i < s.len() ==> #[trigger] s[i] != '<' && s[i] != '>' && s[i] != '&'
}

proof fn lemma_strip_tags_plain(s: Seq<char>)
    requires
        forall|i: int| 0 <= i < s.len() ==> #[trigger] s[i] != '<' && s[i] != '>',
    ensures
        strip_tags_from(s, false) == s,
    decreases s.len(),
{
    if s.len() > 0 {
        assert(s[0] != '<' && s[0] != '>');
        let d = s.drop_first();
        assert forall|i: int| 0 <= i < d.len() implies #[trigger] d[i] != '<' && d[i] != '>' by {
            assert(d[i] == s[i + 1]);
        }
        lemma_strip_tags_plain(d);
        assert(seq![s[0]] + d =~= s);
    }
}

proof fn lemma_no_amp_no_entity(x: Seq<char>, pat: Seq<char>)
    requires
        pat.len() > 0,
        pat[0] == '&',
        forall|i: int| 0 <= i < x.len() ==> #[trigger] x[i] != '&',
    ensures
        forall|k: int| !occurs_at(x, pat, k),
{
    assert forall|k: int| !occurs_at(x, pat, k) by {
        if occurs_at(x, pat, k) {
            assert(x.subrange(k, k + pat.len())[0] == x[k]);
        }
    }
}

proof fn lemma_lone_amp_no_entity(
    a: Seq<char>,
    b: Seq<char>,
    pat: Seq<char>,
    tail: Seq<char>,
    k: int,
)
    requires
        is_plain_cue_text(a),
        is_plain_cue_text(b),
        pat.len() == 4,
        pat[0] == '&',
        pat.subrange(1, 4) == tail,
        !has_prefix(b, tail),
    ensures
        !occurs_at(a + seq!['&'] + b, pat, k),
{
    let y = a + seq!['&'] + b;
    if occurs_at(y, pat, k) {
        assert(y.subrange(k, k + 4)[0] == y[k]);
        assert(y[k] == '&');
        if k < a.len() {
            assert(y[k] == a[k]);
        } else if k > a.len() {
            assert(y[k] == b[k - a.len() - 1]);
        } else {
            assert forall|j: int| 0 <= j < 3 implies b.subrange(0, 3)[j] == tail[j] by {
                assert(b[j] == y[k + 1 + j]);
                assert(y.subrange(k, k + 4)[j + 1] == pat[j + 1]);
                assert(pat.subrange(1, 4)[j] == pat[j + 1]);
            }
            assert(b.subrange(0, 3) =~= tail);
            assert(has_prefix(b, tail));
        }
    }
}

/// A cue line with no tags and no entities comes through unchanged.
pub proof fn law_plain_cue_text_unchanged(s: Seq<char>)
    requires
        is_plain_cue_text(s),
    ensures
        spec_strip_vtt_tags(s) == s,
{
    reveal_strlit("&amp;");
    reveal_strlit("&lt;");
    reveal_strlit("&gt;");
    lemma_strip_tags_plain(s);
    lemma_no_amp_no_entity(s, "&amp;"@);
    lemma_replace_absent(s, "&amp;"@, "&"@);
    lemma_no_amp_no_entity(s, "&lt;"@);
    lemma_replace_absent(s, "&lt;"@, "<"@);
    lemma_no_amp_no_entity(s, "&gt;"@);
    lemma_replace_absent(s, "&gt;"@, ">"@);
}

/// `&amp;` in a cue line stands for `&`: between plain text, it is decoded
/// to a single `&` (unless the text after it makes `&lt;` or `&gt;`, which
/// is then decoded in turn).
pub proof fn law_cue_text_decodes_amp(a: Seq<char>, b: Seq<char>)
    requires
        is_plain_cue_text(a),
        is_plain_cue_text(b),
        !has_prefix(b, "lt;"@),
        !has_prefix(b, "gt;"@),
    ensures
        spec_strip_vtt_tags(a + "&amp;"@ + b) == a + seq!['&'] + b,
{
    reveal_strlit("&amp;");
    reveal_strlit("&lt;");
    reveal_strlit("&gt;");
    reveal_strlit("&");
    reveal_strlit("lt;");
    reveal_strlit("gt;");
    let amp = "&amp;"@;
    let x = a + amp + b;
    assert forall|i: int| 0 <= i < x.len() implies #[trigger] x[i] != '<' && x[i] != '>' by {
        if i < a.len() {
            assert(x[i] == a[i]);
        } else if i < a.len() + 5 {
            assert(x[i] == amp[i - a.len()]);
        } else {
            assert(x[i] == b[i - a.len() - 5]);
        }
    }
    lemma_strip_tags_plain(x);
    // `&amp;` becomes `&`.
    assert(x =~= a + (amp + b));
    lemma_replace_after_plain(a, amp + b, amp, "&"@);
    assert(has_prefix(amp + b, amp)) by {
        assert((amp + b).subrange(0, 5) =~= amp);
    }
    assert((amp + b).skip(5) =~= b);
    lemma_no_amp_no_entity(b, amp);
    lemma_replace_absent(b, amp, "&"@);
    assert(replace_all(amp + b, amp, "&"@) == seq!['&'] + b);
    let y = a + seq!['&'] + b;
    assert(replace_all(x, amp, "&"@) =~= y);
    // Neither `&lt;` nor `&gt;` stands in `y`: its one `&` is followed by `b`.
    assert("&lt;"@.subrange(1, 4) =~= "lt;"@);
    assert("&gt;"@.subrange(1, 4) =~= "gt;"@);
    assert forall|k: int| !occurs_at(y, "&lt;"@, k) by {
        lemma_lone_amp_no_entity(a, b, "&lt;"@, "lt;"@, k);
    }
    assert forall|k: int| !occurs_at(y, "&gt;"@, k) by {
        lemma_lone_amp_no_entity(a, b, "&gt;"@, "gt;"@, k);
    }
    lemma_replace_absent(y, "&lt;"@, "<"@);
    lemma_replace_absent(y, "&gt;"@, ">"@);
}

} // verus!
