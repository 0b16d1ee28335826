//! YouTube downloads with `yt-dlp`: file-name sanitising, the command lines,
//! and the values derived from the downloaded metadata.
use vstd::prelude::*;

use crate::config::AppConfig;
use crate::model::BundleManifest;
use crate::strmap::StrMap;
pub use crate::vtt::vtt_to_text;
use crate::text::{chars_of, decimal, decimal_chars, extend_chars, extend_with_str,
    is_blank, is_blank_str, is_whitespace, is_ws, slice_range, string_from_chars, trim,
    trim_chars, trim_end, trim_start};

verus! {

/// The views of a sequence of strings.
pub open spec fn string_views(v: Seq<String>) -> Seq<Seq<char>> {
    v.map_values(|s: String| s@)
}

// ---------------------------------------------------------------------------
// File names
// ---------------------------------------------------------------------------

/// Characters that some file system refuses in a file name.
pub open spec fn is_forbidden(c: char) -> bool {
    ||| c == '\\'
    ||| c == '/'
    ||| c == '*'
    ||| c == '?'
    ||| c == ':'
    ||| c == '"'
    ||| c == '<'
    ||| c == '>'
    ||| c == '|'
}

/// `c`, or `_` in place of a forbidden character.
pub open spec fn replace_forbidden(c: char) -> char {
    if is_forbidden(c) {
        '_'
    } else {
        c
    }
}

/// The length of the UTF-8 encoding of one character.
pub open spec fn char_utf8_len(c: char) -> nat {
    let u = c as u32;
    if u < 0x80 {
        1
    } else if u < 0x800 {
        2
    } else if u < 0x10000 {
        3
    } else {
        4
    }
}

/// The length of the UTF-8 encoding of a character sequence.
pub open spec fn utf8_len(s: Seq<char>) -> nat
    decreases s.len(),
{
    if s.len() == 0 {
        0
    } else {
        utf8_len(s.drop_last()) + char_utf8_len(s.last())
    }
}

/// The longest a sanitised name grows, in bytes, before it is cut.
pub open spec fn name_byte_limit() -> nat {
    120
}

/// The state of the sanitising scan after the characters `cs`: the text
/// written, whether it ends in a collapsed white-space run, and whether the
/// scan stopped because the text reached the byte limit.
pub open spec fn sanitize_scan(cs: Seq<char>) -> (Seq<char>, bool, bool)
    decreases cs.len(),
{
    if cs.len() == 0 {
        (Seq::empty(), false, false)
    } else {
        let st = sanitize_scan(cs.drop_last());
        if st.2 {
            st
        } else {
            let c = replace_forbidden(cs.last());
            let o = if is_ws(c) {
                if st.1 {
                    st.0
                } else {
                    st.0.push(' ')
                }
            } else {
                st.0.push(c)
            };
            (o, is_ws(c), utf8_len(o) >= name_byte_limit())
        }
    }
}

/// A space or a dot, which a name may neither begin nor end with.
pub open spec fn is_space_or_dot(c: char) -> bool {
    c == ' ' || c == '.'
}

/// `s` without spaces and dots at its start.
pub open spec fn strip_space_dot_start(s: Seq<char>) -> Seq<char>
    decreases s.len(),
{
    if s.len() > 0 && is_space_or_dot(s[0]) {
        strip_space_dot_start(s.drop_first())
    } else {
        s
    }
}

/// `s` without spaces and dots at its end.
pub open spec fn strip_space_dot_end(s: Seq<char>) -> Seq<char>
    decreases s.len(),
{
    if s.len() > 0 && is_space_or_dot(s.last()) {
        strip_space_dot_end(s.drop_last())
    } else {
        s
    }
}

/// `s` without spaces and dots at either end.
pub open spec fn strip_space_dot(s: Seq<char>) -> Seq<char> {
    strip_space_dot_end(strip_space_dot_start(s))
}

/// A name safe on every platform: the input trimmed, forbidden characters
/// replaced by `_`, white-space runs collapsed to one space, cut once it
/// reaches 120 bytes, and stripped of spaces and dots at both ends; `video`
/// when nothing is left.
pub open spec fn spec_sanitize_filename(input: Seq<char>) -> Seq<char> {
    let t = strip_space_dot(sanitize_scan(trim(input)).0);
    if t.len() == 0 {
        "video"@
    } else {
        t
    }
}

proof fn lemma_scan_stopped(cs: Seq<char>, k: int)
    requires
        0 <= k <= cs.len(),
        sanitize_scan(cs.take(k)).2,
    ensures
        sanitize_scan(cs) == sanitize_scan(cs.take(k)),
    decreases cs.len() - k,
{
    if k < cs.len() {
        assert(cs.take(k) =~= cs.drop_last().take(k));
        lemma_scan_stopped(cs.drop_last(), k);
    } else {
        assert(cs.take(k) =~= cs);
    }
}

fn utf8_width(c: char) -> (w: usize)
    ensures
        w == char_utf8_len(c),
{
    let u = c as u32;
    if u < 0x80 {
        1
    } else if u < 0x800 {
        2
    } else if u < 0x10000 {
        3
    } else {
        4
    }
}

proof fn lemma_strip_start_skip(s: Seq<char>, i: int)
    requires
        0 <= i <= s.len(),
        forall|k: int| 0 <= k < i ==> is_space_or_dot(#[trigger] s[k]),
    ensures
        strip_space_dot_start(s) == strip_space_dot_start(s.subrange(i, s.len() as int)),
    decreases i,
{
    if i > 0 {
        assert(s.drop_first().subrange(i - 1, s.drop_first().len() as int) =~= s.subrange(
            i,
            s.len() as int,
        ));
        lemma_strip_start_skip(s.drop_first(), i - 1);
    } else {
        assert(s.subrange(0, s.len() as int) =~= s);
    }
}

proof fn lemma_strip_end_cut(s: Seq<char>, j: int)
    requires
        0 <= j <= s.len(),
        forall|k: int| j <= k < s.len() ==> is_space_or_dot(#[trigger] s[k]),
    ensures
        strip_space_dot_end(s) == strip_space_dot_end(s.subrange(0, j)),
    decreases s.len() - j,
{
    if j < s.len() {
        assert(s.drop_last().subrange(0, j) =~= s.subrange(0, j));
        lemma_strip_end_cut(s.drop_last(), j);
    } else {
        assert(s.subrange(0, j) =~= s);
    }
}

fn strip_space_dot_bounds(v: &[char]) -> (r: (usize, usize))
    ensures
        r.0 <= r.1 <= v@.len(),
        v@.subrange(r.0 as int, r.1 as int) == strip_space_dot(v@),
{
    let n = v.len();
    let mut i: usize = 0;
    while i < n && (v[i] == ' ' || v[i] == '.')
        invariant
            i <= n,
            n == v@.len(),
            forall|k: int| 0 <= k < i ==> is_space_or_dot(#[trigger] v@[k]),
        decreases n - i,
    {
        i = i + 1;
    }
    proof {
        lemma_strip_start_skip(v@, i as int);
    }
    let ghost rest = v@.subrange(i as int, n as int);
    assert(strip_space_dot_start(rest) == rest) by {
        if rest.len() > 0 {
            assert(rest[0] == v@[i as int]);
        }
    }
    let mut j: usize = n;
    while j > i && (v[j - 1] == ' ' || v[j - 1] == '.')
        invariant
            i <= j <= n,
            n == v@.len(),
            rest == v@.subrange(i as int, n as int),
            forall|k: int| j - i <= k < rest.len() ==> is_space_or_dot(#[trigger] rest[k]),
        decreases j,
    {
        j = j - 1;
    }
    proof {
        lemma_strip_end_cut(rest, j - i);
        assert(rest.subrange(0, j - i) =~= v@.subrange(i as int, j as int));
    }
    (i, j)
}

/// A name for a file or folder built from `input` that every platform
/// accepts (see `spec_sanitize_filename`).
pub fn sanitize_filename(input: &str) -> (r: String)
    ensures
        r@ == spec_sanitize_filename(input@),
{
    let all = chars_of(input);
    let cs = trim_chars(all.as_slice());
    let ghost t = trim(input@);
    let mut out: Vec<char> = Vec::new();
    let mut previous_space = false;
    let mut bytes: usize = 0;
    let n = cs.len();
    let mut i: usize = 0;
    assert(t.take(n as int) =~= t);
    while i < n
        invariant_except_break
            sanitize_scan(t.take(i as int)) == (out@, previous_space, false),
            bytes == utf8_len(out@),
            bytes < 120,
        invariant
            n == cs@.len(),
            cs@ == t,
            t.take(n as int) == t,
            i <= n,
        ensures
            sanitize_scan(t) == (out@, previous_space, sanitize_scan(t).2),
        decreases n - i,
    {
        let ch = cs[i];
        let replacement = if ch == '\\' || ch == '/' || ch == '*' || ch == '?' || ch == ':' || ch
            == '"' || ch == '<' || ch == '>' || ch == '|' {
            '_'
        } else {
            ch
        };
        assert(t.take(i + 1).drop_last() =~= t.take(i as int));
        assert(t.take(i + 1).last() == ch);
        let ghost before = out@;
        if is_whitespace(replacement) {
            if !previous_space {
                out.push(' ');
                bytes = bytes + 1;
                assert(out@.drop_last() =~= before);
            }
            previous_space = true;
        } else {
            out.push(replacement);
            bytes = bytes + utf8_width(replacement);
            assert(out@.drop_last() =~= before);
            previous_space = false;
        }
        if bytes >= 120 {
            proof {
                lemma_scan_stopped(t, i + 1);
            }
            break;
        }
        i = i + 1;
    }
    let (a, b) = strip_space_dot_bounds(out.as_slice());
    if a == b {
        "video".to_owned()
    } else {
        let kept = slice_range(out.as_slice(), a, b);
        string_from_chars(kept.as_slice())
    }
}

// ---------------------------------------------------------------------------
// Laws of sanitising
// ---------------------------------------------------------------------------

/// Whether `s` is usable as a file name on every platform: not empty, no
/// forbidden character, no white space but single spaces, and no space or
/// dot at either end.
pub open spec fn is_safe_name(s: Seq<char>) -> bool {
    &&& s.len() > 0
    &&& forall|i: int| 0 <= i < s.len() ==> !is_forbidden(#[trigger] s[i])
    &&& forall|i: int| 0 <= i < s.len() && is_ws(#[trigger] s[i]) ==> s[i] == ' '
    &&& forall|i: int| 0 <= i < s.len() - 1 ==> !(#[trigger] s[i] == ' ' && s[i + 1] == ' ')
    &&& !is_space_or_dot(s[0])
    &&& !is_space_or_dot(s.last())
}

proof fn lemma_scan_props(cs: Seq<char>)
    ensures
        ({
            let st = sanitize_scan(cs);
            &&& forall|i: int| 0 <= i < st.0.len() ==> !is_forbidden(#[trigger] st.0[i])
            &&& forall|i: int| 0 <= i < st.0.len() && is_ws(#[trigger] st.0[i]) ==> st.0[i] == ' '
            &&& forall|i: int|
                0 <= i < st.0.len() - 1 ==> !(#[trigger] st.0[i] == ' ' && st.0[i + 1] == ' ')
            &&& st.1 ==> st.0.len() > 0 && st.0.last() == ' '
            &&& !st.1 ==> st.0.len() == 0 || st.0.last() != ' '
            &&& utf8_len(st.0) <= name_byte_limit() + 3
            &&& !st.2 ==> utf8_len(st.0) < name_byte_limit()
        }),
    decreases cs.len(),
{
    if cs.len() > 0 {
        lemma_scan_props(cs.drop_last());
        let st = sanitize_scan(cs.drop_last());
        if !st.2 {
            let c = replace_forbidden(cs.last());
            let o = sanitize_scan(cs).0;
            if is_ws(c) && st.1 {
            } else {
                let pushed = if is_ws(c) {
                    ' '
                } else {
                    c
                };
                assert(o == st.0.push(pushed));
                assert(o.drop_last() =~= st.0);
                assert forall|i: int| 0 <= i < o.len() - 1 implies !(#[trigger] o[i] == ' ' && o[i
                    + 1] == ' ') by {
                    if i < st.0.len() - 1 {
                        assert(o[i] == st.0[i] && o[i + 1] == st.0[i + 1]);
                    }
                }
            }
        }
    }
}

/// Every name that `sanitize_filename` returns is safe on every platform
/// and at most 123 bytes long.
pub proof fn law_sanitized_name_is_safe(input: Seq<char>)
    ensures
        is_safe_name(spec_sanitize_filename(input)),
        utf8_len(spec_sanitize_filename(input)) <= name_byte_limit() + 3,
{
    let o = sanitize_scan(trim(input)).0;
    lemma_scan_props(trim(input));
    let r = spec_sanitize_filename(input);
    lemma_strip_props(o);
    if strip_space_dot(o).len() == 0 {
        reveal_strlit("video");
        assert(r == "video"@);
        reveal_with_fuel(utf8_len, 6);
        assert(utf8_len(r) == 5);
    }
}

proof fn lemma_strip_start_form(s: Seq<char>)
    ensures
        exists|a: int|
            0 <= a <= s.len() && strip_space_dot_start(s) == s.subrange(a, s.len() as int) && (a
                < s.len() ==> !is_space_or_dot(s[a])),
    decreases s.len(),
{
    if s.len() > 0 && is_space_or_dot(s[0]) {
        lemma_strip_start_form(s.drop_first());
        let a = choose|a: int|
            0 <= a <= s.drop_first().len() && strip_space_dot_start(s.drop_first())
                == s.drop_first().subrange(a, s.drop_first().len() as int) && (a < s.drop_first().len()
                ==> !is_space_or_dot(s.drop_first()[a]));
        assert(s.drop_first().subrange(a, s.drop_first().len() as int) =~= s.subrange(
            a + 1,
            s.len() as int,
        ));
    } else {
        assert(s.subrange(0, s.len() as int) =~= s);
    }
}

proof fn lemma_strip_end_form(s: Seq<char>)
    ensures
        exists|b: int|
            0 <= b <= s.len() && strip_space_dot_end(s) == s.subrange(0, b) && (b > 0
                ==> !is_space_or_dot(s[b - 1])),
    decreases s.len(),
{
    if s.len() > 0 && is_space_or_dot(s.last()) {
        lemma_strip_end_form(s.drop_last());
        let b = choose|b: int|
            0 <= b <= s.drop_last().len() && strip_space_dot_end(s.drop_last())
                == s.drop_last().subrange(0, b) && (b > 0 ==> !is_space_or_dot(
                s.drop_last()[b - 1],
            ));
        assert(s.drop_last().subrange(0, b) =~= s.subrange(0, b));
    } else {
        assert(s.subrange(0, s.len() as int) =~= s);
    }
}

proof fn lemma_utf8_len_sub(s: Seq<char>, a: int, b: int)
    requires
        0 <= a <= b <= s.len(),
    ensures
        utf8_len(s.subrange(a, b)) <= utf8_len(s),
    decreases s.len(),
{
    if b < s.len() {
        assert(s.drop_last().subrange(a, b) =~= s.subrange(a, b));
        lemma_utf8_len_sub(s.drop_last(), a, b);
    } else if a < b {
        let t = s.subrange(a, b);
        assert(t.drop_last() =~= s.drop_last().subrange(a, b - 1));
        lemma_utf8_len_sub(s.drop_last(), a, b - 1);
    } else {
        assert(s.subrange(a, b).len() == 0);
    }
}

proof fn lemma_strip_props(o: Seq<char>)
    requires
        forall|i: int| 0 <= i < o.len() ==> !is_forbidden(#[trigger] o[i]),
        forall|i: int| 0 <= i < o.len() && is_ws(#[trigger] o[i]) ==> o[i] == ' ',
        forall|i: int| 0 <= i < o.len() - 1 ==> !(#[trigger] o[i] == ' ' && o[i + 1] == ' '),
    ensures
        strip_space_dot(o).len() > 0 ==> is_safe_name(strip_space_dot(o)),
        utf8_len(strip_space_dot(o)) <= utf8_len(o),
{
    lemma_strip_start_form(o);
    let a = choose|a: int|
        0 <= a <= o.len() && strip_space_dot_start(o) == o.subrange(a, o.len() as int) && (a
            < o.len() ==> !is_space_or_dot(o[a]));
    let m = o.subrange(a, o.len() as int);
    lemma_strip_end_form(m);
    let b = choose|b: int|
        0 <= b <= m.len() && strip_space_dot_end(m) == m.subrange(0, b) && (b > 0
            ==> !is_space_or_dot(m[b - 1]));
    let r = strip_space_dot(o);
    assert(r =~= o.subrange(a, a + b));
    lemma_utf8_len_sub(o, a, a + b);
    if r.len() > 0 {
        assert(r[0] == o[a]);
        assert forall|i: int| 0 <= i < r.len() - 1 implies !(#[trigger] r[i] == ' ' && r[i + 1]
            == ' ') by {
            assert(r[i] == o[a + i] && r[i + 1] == o[a + i + 1]);
        }
        assert forall|i: int| 0 <= i < r.len() implies !is_forbidden(#[trigger] r[i]) by {
            assert(r[i] == o[a + i]);
        }
        assert forall|i: int| 0 <= i < r.len() && is_ws(#[trigger] r[i]) implies r[i] == ' ' by {
            assert(r[i] == o[a + i]);
        }
    }
}

proof fn lemma_scan_prefixes_short(cs: Seq<char>)
    ensures
        forall|k: int|
            0 <= k < sanitize_scan(cs).0.len() ==> utf8_len(#[trigger] sanitize_scan(cs).0.take(k))
                < name_byte_limit(),
    decreases cs.len(),
{
    if cs.len() > 0 {
        lemma_scan_prefixes_short(cs.drop_last());
        lemma_scan_props(cs.drop_last());
        let st = sanitize_scan(cs.drop_last());
        let o = sanitize_scan(cs).0;
        if !st.2 {
            let c = replace_forbidden(cs.last());
            if !(is_ws(c) && st.1) {
                assert(o.drop_last() =~= st.0);
                assert forall|k: int| 0 <= k < o.len() implies utf8_len(#[trigger] o.take(k))
                    < name_byte_limit() by {
                    if k == st.0.len() {
                        assert(o.take(k) =~= st.0);
                    } else {
                        assert(o.take(k) =~= st.0.take(k));
                    }
                }
            }
        }
    }
}

proof fn lemma_scan_of_safe(cs: Seq<char>)
    requires
        forall|i: int| 0 <= i < cs.len() ==> !is_forbidden(#[trigger] cs[i]),
        forall|i: int| 0 <= i < cs.len() && is_ws(#[trigger] cs[i]) ==> cs[i] == ' ',
        forall|i: int| 0 <= i < cs.len() - 1 ==> !(#[trigger] cs[i] == ' ' && cs[i + 1] == ' '),
        forall|k: int| 0 <= k < cs.len() ==> utf8_len(#[trigger] cs.take(k)) < name_byte_limit(),
    ensures
        sanitize_scan(cs).0 == cs,
        sanitize_scan(cs).1 == (cs.len() > 0 && cs.last() == ' '),
        sanitize_scan(cs).2 == (cs.len() > 0 && utf8_len(cs) >= name_byte_limit()),
    decreases cs.len(),
{
    if cs.len() > 0 {
        let d = cs.drop_last();
        assert forall|k: int| 0 <= k < d.len() implies utf8_len(#[trigger] d.take(k))
            < name_byte_limit() by {
            assert(d.take(k) =~= cs.take(k));
        }
        assert forall|i: int| 0 <= i < d.len() - 1 implies !(#[trigger] d[i] == ' ' && d[i + 1]
            == ' ') by {
            assert(d[i] == cs[i] && d[i + 1] == cs[i + 1]);
        }
        assert forall|i: int| 0 <= i < d.len() implies !is_forbidden(#[trigger] d[i]) by {
            assert(d[i] == cs[i]);
        }
        assert forall|i: int| 0 <= i < d.len() && is_ws(#[trigger] d[i]) implies d[i] == ' ' by {
            assert(d[i] == cs[i]);
        }
        lemma_scan_of_safe(d);
        assert(d =~= cs.take(cs.len() - 1));
        let c = cs.last();
        assert(!is_forbidden(cs[cs.len() - 1]));
        assert(replace_forbidden(c) == c);
        if is_ws(c) {
            assert(is_ws(cs[cs.len() - 1]));
            assert(c == ' ');
            if d.len() > 0 {
                assert(!(cs[cs.len() - 2] == ' ' && cs[cs.len() - 1] == ' '));
            }
        }
        assert(d.push(c) =~= cs);
    }
}

/// A name already made safe by `sanitize_filename` comes back unchanged:
/// sanitising twice is the same as sanitising once.
pub proof fn law_sanitize_idempotent(input: Seq<char>)
    ensures
        spec_sanitize_filename(spec_sanitize_filename(input)) == spec_sanitize_filename(input),
{
    let r = spec_sanitize_filename(input);
    law_sanitized_name_is_safe(input);
    let o = sanitize_scan(trim(input)).0;
    if strip_space_dot(o).len() == 0 {
        reveal_strlit("video");
        assert(r == "video"@);
        reveal_with_fuel(utf8_len, 6);
        assert(utf8_len(r) == 5);
        assert forall|k: int| 0 <= k < r.len() implies utf8_len(#[trigger] r.take(k))
            < name_byte_limit() by {
            lemma_utf8_len_sub(r, 0, k);
            assert(r.subrange(0, k) =~= r.take(k));
        }
    } else {
        lemma_scan_prefixes_short(trim(input));
        lemma_strip_start_form(o);
        let a = choose|a: int|
            0 <= a <= o.len() && strip_space_dot_start(o) == o.subrange(a, o.len() as int) && (a
                < o.len() ==> !is_space_or_dot(o[a]));
        let m = o.subrange(a, o.len() as int);
        lemma_strip_end_form(m);
        let b = choose|b: int|
            0 <= b <= m.len() && strip_space_dot_end(m) == m.subrange(0, b) && (b > 0
                ==> !is_space_or_dot(m[b - 1]));
        assert(r =~= o.subrange(a, a + b));
        assert forall|k: int| 0 <= k < r.len() implies utf8_len(#[trigger] r.take(k))
            < name_byte_limit() by {
            let p = o.take(a + k);
            assert(utf8_len(o.take(a + k)) < name_byte_limit());
            lemma_utf8_len_sub(p, a, a + k);
            assert(p.subrange(a, a + k) =~= r.take(k));
        }
    }
    lemma_scan_of_safe(r);
    assert(!is_ws(r[0])) by {
        if is_ws(r[0]) {
            assert(r[0] == ' ');
        }
    }
    assert(!is_ws(r.last())) by {
        if is_ws(r[r.len() - 1]) {
            assert(r[r.len() - 1] == ' ');
        }
    }
    assert(trim_start(r) == r);
    assert(trim_end(r) == r);
    assert(trim(r) == r);
    assert(strip_space_dot_start(r) == r);
    assert(strip_space_dot_end(r) == r);
}

// ---------------------------------------------------------------------------
// yt-dlp command lines
// ---------------------------------------------------------------------------

pub(crate) fn push_str(v: &mut Vec<String>, s: &str)
    ensures
        final(v)@.len() == old(v)@.len() + 1,
        string_views(final(v)@) == string_views(old(v)@).push(s@),
{
    let ghost before = v@;
    v.push(s.to_owned());
    assert(string_views(v@) =~= string_views(before).push(s@));
}

/// The arguments that make `yt-dlp` print a video's metadata as one JSON
/// document without downloading it.
pub fn metadata_args(url: &str) -> (r: Vec<String>)
    ensures
        string_views(r@) == seq![
            "--no-playlist"@,
            "--no-warnings"@,
            "--dump-single-json"@,
            "--skip-download"@,
            url@,
        ],
{
    let mut v: Vec<String> = Vec::new();
    push_str(&mut v, "--no-playlist");
    push_str(&mut v, "--no-warnings");
    push_str(&mut v, "--dump-single-json");
    push_str(&mut v, "--skip-download");
    push_str(&mut v, url);
    assert(string_views(v@) =~= seq![
        "--no-playlist"@,
        "--no-warnings"@,
        "--dump-single-json"@,
        "--skip-download"@,
        url@,
    ]);
    v
}

/// `--ffmpeg-location` and the configured FFmpeg path, unless the path is blank.
pub open spec fn ffmpeg_location_args(ffmpeg_path: Seq<char>) -> Seq<Seq<char>> {
    if is_blank(ffmpeg_path) {
        Seq::empty()
    } else {
        seq!["--ffmpeg-location"@, ffmpeg_path]
    }
}

/// The arguments that make `yt-dlp` download a video as MP4 to `output`.
pub open spec fn spec_download_video_args(ffmpeg_path: Seq<char>, output: Seq<char>, url: Seq<char>) -> Seq<Seq<char>> {
    seq!["--no-playlist"@, "--no-warnings"@, "--merge-output-format"@, "mp4"@]
        + ffmpeg_location_args(ffmpeg_path) + seq!["-o"@, output, url]
}

/// The arguments that make `yt-dlp` download the video at `url` as MP4 to
/// the file `output`, with the configured FFmpeg when one is set.
pub fn download_video_args(config: &AppConfig, output: &str, url: &str) -> (r: Vec<String>)
    ensures
        string_views(r@) == spec_download_video_args(config.ffmpeg_path@, output@, url@),
{
    let mut v: Vec<String> = Vec::new();
    push_str(&mut v, "--no-playlist");
    push_str(&mut v, "--no-warnings");
    push_str(&mut v, "--merge-output-format");
    push_str(&mut v, "mp4");
    if !is_blank_str(config.ffmpeg_path.as_str()) {
        push_str(&mut v, "--ffmpeg-location");
        push_str(&mut v, config.ffmpeg_path.as_str());
    }
    push_str(&mut v, "-o");
    push_str(&mut v, output);
    push_str(&mut v, url);
    assert(string_views(v@) =~= spec_download_video_args(config.ffmpeg_path@, output@, url@));
    v
}

/// The arguments that make `yt-dlp` fetch the subtitles (German or English,
/// uploaded or generated, as WebVTT) and the thumbnail, without the video.
pub fn subtitle_args(output_template: &str, url: &str) -> (r: Vec<String>)
    ensures
        string_views(r@) == seq![
            "--no-playlist"@,
            "--no-warnings"@,
            "--skip-download"@,
            "--write-auto-subs"@,
            "--write-subs"@,
            "--write-thumbnail"@,
            "--sub-langs"@,
            "de.*,en.*,de,en"@,
            "--sub-format"@,
            "vtt"@,
            "-o"@,
            output_template@,
            url@,
        ],
{
    let mut v: Vec<String> = Vec::new();
    push_str(&mut v, "--no-playlist");
    push_str(&mut v, "--no-warnings");
    push_str(&mut v, "--skip-download");
    push_str(&mut v, "--write-auto-subs");
    push_str(&mut v, "--write-subs");
    push_str(&mut v, "--write-thumbnail");
    push_str(&mut v, "--sub-langs");
    push_str(&mut v, "de.*,en.*,de,en");
    push_str(&mut v, "--sub-format");
    push_str(&mut v, "vtt");
    push_str(&mut v, "-o");
    push_str(&mut v, output_template);
    push_str(&mut v, url);
    assert(string_views(v@) =~= seq![
        "--no-playlist"@,
        "--no-warnings"@,
        "--skip-download"@,
        "--write-auto-subs"@,
        "--write-subs"@,
        "--write-thumbnail"@,
        "--sub-langs"@,
        "de.*,en.*,de,en"@,
        "--sub-format"@,
        "vtt"@,
        "-o"@,
        output_template@,
        url@,
    ]);
    v
}

// ---------------------------------------------------------------------------
// Metadata
// ---------------------------------------------------------------------------

/// The watch page of a video id.
pub open spec fn watch_url(video_id: Seq<char>) -> Seq<char> {
    "https://www.youtube.com/watch?v="@ + video_id
}

/// The watch page of the video `video_id`.
pub fn video_watch_url(video_id: &str) -> (r: String)
    ensures
        r@ == watch_url(video_id@),
{
    let mut s = "https://www.youtube.com/watch?v=".to_owned();
    s.append(video_id);
    s
}

/// The title of a video: its own title, or its id when the title is blank.
pub fn metadata_title(id: &str, title: &str) -> (r: String)
    ensures
        r@ == (if is_blank(title@) {
            id@
        } else {
            title@
        }),
{
    if is_blank_str(title) {
        id.to_owned()
    } else {
        title.to_owned()
    }
}

/// The page of a video: the page `yt-dlp` reported, or the watch page of its id.
pub fn metadata_url(id: &str, webpage_url: &str) -> (r: String)
    ensures
        r@ == (if webpage_url@.len() == 0 {
            watch_url(id@)
        } else {
            webpage_url@
        }),
{
    if webpage_url.is_empty() {
        video_watch_url(id)
    } else {
        webpage_url.to_owned()
    }
}

/// The name of chapter `index` (counted from 0): its trimmed title, or
/// `Chapter n` (counted from 1) when the title is blank.
pub open spec fn chapter_display_name(index: nat, title: Seq<char>) -> Seq<char> {
    if is_blank(title) {
        "Chapter "@ + decimal(index + 1)
    } else {
        trim(title)
    }
}

/// The name of chapter `index` with the given title.
pub fn chapter_name(index: usize, title: &str) -> (r: String)
    requires
        index < usize::MAX,
    ensures
        r@ == chapter_display_name(index as nat, title@),
{
    let v = chars_of(title);
    let t = trim_chars(v.as_slice());
    if t.len() == 0 {
        let mut out: Vec<char> = Vec::new();
        extend_with_str(&mut out, "Chapter ");
        let d = decimal_chars((index + 1) as u64);
        extend_chars(&mut out, d.as_slice());
        string_from_chars(out.as_slice())
    } else {
        string_from_chars(t.as_slice())
    }
}

/// The file that holds a bundle's thumbnail, by the image's extension.
pub fn thumbnail_file_name(extension: &str) -> (r: String)
    ensures
        r@ == "thumbnail."@ + extension@,
{
    let mut s = "thumbnail.".to_owned();
    s.append(extension);
    s
}

/// The manifest written after a download: the source, and the files of the
/// bundle under their roles (`video`, `chapters`, and `transcript` and
/// `thumbnail` when present).
pub fn downloaded_manifest(
    source_url: &str,
    video_id: &str,
    title: &str,
    has_transcript: bool,
    thumbnail_name: Option<&str>,
) -> (m: BundleManifest)
    ensures
        m.source_url@ == source_url@,
        m.video_id@ == video_id@,
        m.title@ == title@,
        m.uploads@ == Map::<Seq<char>, Seq<char>>::empty(),
        m.files@ == {
            let base = Map::<Seq<char>, Seq<char>>::empty().insert("video"@, "video.mp4"@).insert(
                "chapters"@,
                "chapters.json"@,
            );
            let with_transcript = if has_transcript {
                base.insert("transcript"@, "transcript.txt"@)
            } else {
                base
            };
            match thumbnail_name {
                Some(n) => with_transcript.insert("thumbnail"@, n@),
                None => with_transcript,
            }
        },
{
    let mut files = StrMap::new();
    files.insert("video".to_owned(), "video.mp4".to_owned());
    files.insert("chapters".to_owned(), "chapters.json".to_owned());
    if has_transcript {
        files.insert("transcript".to_owned(), "transcript.txt".to_owned());
    }
    match thumbnail_name {
        Some(n) => {
            files.insert("thumbnail".to_owned(), n.to_owned());
        },
        None => {},
    }
    BundleManifest {
        source_url: source_url.to_owned(),
        video_id: video_id.to_owned(),
        title: title.to_owned(),
        files,
        uploads: StrMap::new(),
    }
}

} // verus!
