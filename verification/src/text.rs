//! Character-sequence helpers shared by the library: conversions between
//! strings and character vectors, Unicode white-space trimming, ASCII case
//! folding, substring search, lexicographic order and decimal formatting.
use vstd::prelude::*;

verus! {

// ---------------------------------------------------------------------------
// Conversions
// ---------------------------------------------------------------------------

/// The characters of `s`, in order.
pub fn chars_of(s: &str) -> (v: Vec<char>)
    ensures
        v@ == s@,
{
    let mut v: Vec<char> = Vec::new();
    for c in it: s.chars()
        invariant
            it.seq() == s@,
            v@ == it.seq().take(it.index() as int),
    {
        v.push(c);
    }
    v
}

/// Appends one character to a string (`String::push`).
#[verifier::external_body]
pub(crate) fn push_char(s: &mut String, c: char)
    ensures
        final(s)@ == old(s)@.push(c),
{
    s.push(c);
}

/// Appends every character of `v` to `s`.
pub fn push_chars(s: &mut String, v: &[char])
    ensures
        final(s)@ == old(s)@ + v@,
{
    let n = v.len();
    for i in 0..n
        invariant
            n == v@.len(),
            s@ == old(s)@ + v@.take(i as int),
    {
        push_char(s, v[i]);
        assert(v@.take(i + 1) == v@.take(i as int).push(v@[i as int]));
    }
    assert(v@.take(n as int) == v@);
}

/// The string made of the characters of `v`.
pub fn string_from_chars(v: &[char]) -> (s: String)
    ensures
        s@ == v@,
{
    let mut s = String::new();
    push_chars(&mut s, v);
    s
}

/// Appends every character of `t` to `v`.
pub fn extend_chars(v: &mut Vec<char>, t: &[char])
    ensures
        final(v)@ == old(v)@ + t@,
{
    let n = t.len();
    for i in 0..n
        invariant
            n == t@.len(),
            v@ == old(v)@ + t@.take(i as int),
    {
        v.push(t[i]);
        assert(t@.take(i + 1) == t@.take(i as int).push(t@[i as int]));
    }
    assert(t@.take(n as int) == t@);
}

/// Appends every character of the string `t` to `v`.
pub fn extend_with_str(v: &mut Vec<char>, t: &str)
    ensures
        final(v)@ == old(v)@ + t@,
{
    let tc = chars_of(t);
    extend_chars(v, tc.as_slice());
}

// ---------------------------------------------------------------------------
// Unicode white space and trimming
// ---------------------------------------------------------------------------

/// The Unicode `White_Space` property, which `char::is_whitespace` tests.
pub open spec fn is_ws(c: char) -> bool {
    let u = c as u32;
    ||| 0x09 <= u <= 0x0D
    ||| u == 0x20
    ||| u == 0x85
    ||| u == 0xA0
    ||| u == 0x1680
    ||| 0x2000 <= u <= 0x200A
    ||| u == 0x2028
    ||| u == 0x2029
    ||| u == 0x202F
    ||| u == 0x205F
    ||| u == 0x3000
}

/// Whether `c` has the Unicode `White_Space` property.
pub fn is_whitespace(c: char) -> (b: bool)
    ensures
        b == is_ws(c),
{
    let u = c as u32;
    (0x09 <= u && u <= 0x0D) || u == 0x20 || u == 0x85 || u == 0xA0 || u == 0x1680 || (0x2000
        <= u && u <= 0x200A) || u == 0x2028 || u == 0x2029 || u == 0x202F || u == 0x205F || u
        == 0x3000
}

/// `s` without its leading white space.
pub open spec fn trim_start(s: Seq<char>) -> Seq<char>
    decreases s.len(),
{
    if s.len() > 0 && is_ws(s[0]) {
        trim_start(s.drop_first())
    } else {
        s
    }
}

/// `s` without its trailing white space.
pub open spec fn trim_end(s: Seq<char>) -> Seq<char>
    decreases s.len(),
{
    if s.len() > 0 && is_ws(s.last()) {
        trim_end(s.drop_last())
    } else {
        s
    }
}

/// `s` without leading and trailing white space (`str::trim`).
pub open spec fn trim(s: Seq<char>) -> Seq<char> {
    trim_end(trim_start(s))
}

/// Whether `s` is empty or white space only.
pub open spec fn is_blank(s: Seq<char>) -> bool {
    trim(s).len() == 0
}

proof fn lemma_trim_start_skip(s: Seq<char>, i: int)
    requires
        0 <= i <= s.len(),
        forall|k: int| 0 <= k < i ==> is_ws(#[trigger] s[k]),
    ensures
        trim_start(s) == trim_start(s.subrange(i, s.len() as int)),
    decreases i,
{
    if i > 0 {
        assert(s.drop_first().subrange(i - 1, s.drop_first().len() as int) =~= s.subrange(
            i,
            s.len() as int,
        ));
        lemma_trim_start_skip(s.drop_first(), i - 1);
    } else {
        assert(s.subrange(0, s.len() as int) =~= s);
    }
}

proof fn lemma_trim_end_cut(s: Seq<char>, j: int)
    requires
        0 <= j <= s.len(),
        forall|k: int| j <= k < s.len() ==> is_ws(#[trigger] s[k]),
    ensures
        trim_end(s) == trim_end(s.subrange(0, j)),
    decreases s.len() - j,
{
    if j < s.len() {
        assert(s.drop_last().subrange(0, j) =~= s.subrange(0, j));
        lemma_trim_end_cut(s.drop_last(), j);
    } else {
        assert(s.subrange(0, j) =~= s);
    }
}

/// The bounds `(start, end)` of `trim(v)` inside `v`.
pub fn trim_bounds(v: &[char]) -> (r: (usize, usize))
    ensures
        r.0 <= r.1 <= v@.len(),
        v@.subrange(r.0 as int, r.1 as int) == trim(v@),
        r.0 < r.1 ==> !is_ws(v@[r.0 as int]) && !is_ws(v@[r.1 - 1]),
{
    let n = v.len();
    let mut i: usize = 0;
    while i < n && is_whitespace(v[i])
        invariant
            i <= n,
            n == v@.len(),
            forall|k: int| 0 <= k < i ==> is_ws(#[trigger] v@[k]),
        decreases n - i,
    {
        i = i + 1;
    }
    proof {
        lemma_trim_start_skip(v@, i as int);
    }
    let ghost rest = v@.subrange(i as int, n as int);
    assert(trim_start(rest) == rest) by {
        if rest.len() > 0 {
            assert(rest[0] == v@[i as int]);
        }
    }
    let mut j: usize = n;
    while j > i && is_whitespace(v[j - 1])
        invariant
            i <= j <= n,
            n == v@.len(),
            rest == v@.subrange(i as int, n as int),
            forall|k: int| j - i <= k < rest.len() ==> is_ws(#[trigger] rest[k]),
        decreases j,
    {
        j = j - 1;
    }
    proof {
        lemma_trim_end_cut(rest, j - i);
        let cut = rest.subrange(0, j - i);
        assert(cut =~= v@.subrange(i as int, j as int));
        if cut.len() > 0 {
            assert(cut.last() == v@[j - 1]);
        }
    }
    (i, j)
}

/// `v` without leading and trailing white space.
pub fn trim_chars(v: &[char]) -> (r: Vec<char>)
    ensures
        r@ == trim(v@),
{
    let (a, b) = trim_bounds(v);
    slice_range(v, a, b)
}

/// The string `s` without leading and trailing white space (`str::trim`).
pub fn trim_str(s: &str) -> (r: String)
    ensures
        r@ == trim(s@),
{
    let v = chars_of(s);
    let t = trim_chars(v.as_slice());
    string_from_chars(t.as_slice())
}

/// Whether `s` is empty or made of white space only.
pub fn is_blank_str(s: &str) -> (b: bool)
    ensures
        b == is_blank(s@),
{
    let v = chars_of(s);
    let (a, b) = trim_bounds(v.as_slice());
    a == b
}

/// The characters `v[a..b]`.
pub fn slice_range(v: &[char], a: usize, b: usize) -> (r: Vec<char>)
    requires
        a <= b <= v@.len(),
    ensures
        r@ == v@.subrange(a as int, b as int),
{
    let mut r: Vec<char> = Vec::new();
    let mut k = a;
    while k < b
        invariant
            a <= k <= b,
            b <= v@.len(),
            r@ == v@.subrange(a as int, k as int),
        decreases b - k,
    {
        r.push(v[k]);
        assert(v@.subrange(a as int, k + 1) == v@.subrange(a as int, k as int).push(v@[k as int]));
        k = k + 1;
    }
    r
}

// ---------------------------------------------------------------------------
// Stripping one repeated character
// ---------------------------------------------------------------------------

/// `s` without the copies of `c` at its start (`trim_start_matches(c)`).
pub open spec fn strip_leading(s: Seq<char>, c: char) -> Seq<char>
    decreases s.len(),
{
    if s.len() > 0 && s[0] == c {
        strip_leading(s.drop_first(), c)
    } else {
        s
    }
}

/// `s` without the copies of `c` at its end (`trim_end_matches(c)`).
pub open spec fn strip_trailing(s: Seq<char>, c: char) -> Seq<char>
    decreases s.len(),
{
    if s.len() > 0 && s.last() == c {
        strip_trailing(s.drop_last(), c)
    } else {
        s
    }
}

proof fn lemma_strip_leading_skip(s: Seq<char>, c: char, i: int)
    requires
        0 <= i <= s.len(),
        forall|k: int| 0 <= k < i ==> #[trigger] s[k] == c,
    ensures
        strip_leading(s, c) == strip_leading(s.subrange(i, s.len() as int), c),
    decreases i,
{
    if i > 0 {
        assert(s.drop_first().subrange(i - 1, s.drop_first().len() as int) =~= s.subrange(
            i,
            s.len() as int,
        ));
        lemma_strip_leading_skip(s.drop_first(), c, i - 1);
    } else {
        assert(s.subrange(0, s.len() as int) =~= s);
    }
}

proof fn lemma_strip_trailing_cut(s: Seq<char>, c: char, j: int)
    requires
        0 <= j <= s.len(),
        forall|k: int| j <= k < s.len() ==> #[trigger] s[k] == c,
    ensures
        strip_trailing(s, c) == strip_trailing(s.subrange(0, j), c),
    decreases s.len() - j,
{
    if j < s.len() {
        assert(s.drop_last().subrange(0, j) =~= s.subrange(0, j));
        lemma_strip_trailing_cut(s.drop_last(), c, j);
    } else {
        assert(s.subrange(0, j) =~= s);
    }
}

/// `v` without the copies of `c` at its start.
pub fn strip_leading_chars(v: &[char], c: char) -> (r: Vec<char>)
    ensures
        r@ == strip_leading(v@, c),
{
    let n = v.len();
    let mut i: usize = 0;
    while i < n && v[i] == c
        invariant
            i <= n,
            n == v@.len(),
            forall|k: int| 0 <= k < i ==> #[trigger] v@[k] == c,
        decreases n - i,
    {
        i = i + 1;
    }
    proof {
        lemma_strip_leading_skip(v@, c, i as int);
        let rest = v@.subrange(i as int, n as int);
        if rest.len() > 0 {
            assert(rest[0] == v@[i as int]);
        }
    }
    slice_range(v, i, n)
}

/// `v` without the copies of `c` at its end.
pub fn strip_trailing_chars(v: &[char], c: char) -> (r: Vec<char>)
    ensures
        r@ == strip_trailing(v@, c),
{
    let n = v.len();
    let mut j: usize = n;
    while j > 0 && v[j - 1] == c
        invariant
            j <= n,
            n == v@.len(),
            forall|k: int| j <= k < n ==> #[trigger] v@[k] == c,
        decreases j,
    {
        j = j - 1;
    }
    proof {
        lemma_strip_trailing_cut(v@, c, j as int);
        let cut = v@.subrange(0, j as int);
        if cut.len() > 0 {
            assert(cut.last() == v@[j - 1]);
        }
    }
    slice_range(v, 0, j)
}

// ---------------------------------------------------------------------------
// ASCII case folding
// ---------------------------------------------------------------------------

/// ASCII lower case of one character (`char::to_ascii_lowercase`).
pub open spec fn lower_char(c: char) -> char {
    if 'A' <= c && c <= 'Z' {
        ((c as u32) + 32) as char
    } else {
        c
    }
}

/// ASCII lower case of a character sequence (`str::to_ascii_lowercase`).
pub open spec fn lower(s: Seq<char>) -> Seq<char> {
    s.map_values(|c: char| lower_char(c))
}

/// ASCII lower case of one character.
pub fn ascii_lower(c: char) -> (r: char)
    ensures
        r == lower_char(c),
{
    if 'A' <= c && c <= 'Z' {
        let u = (c as u32) + 32;
        assert(u == (c as u32) + 32);
        let b = u as u8;
        assert(b as u32 == u);
        let r = b as char;
        assert(r == ((c as u32) + 32) as char) by {
            assert(r as u32 == u);
        }
        r
    } else {
        c
    }
}

/// ASCII lower case of `v`.
pub fn ascii_lower_chars(v: &[char]) -> (r: Vec<char>)
    ensures
        r@ == lower(v@),
{
    let mut r: Vec<char> = Vec::new();
    let n = v.len();
    for i in 0..n
        invariant
            n == v@.len(),
            r@ == lower(v@.take(i as int)),
    {
        r.push(ascii_lower(v[i]));
        assert(lower(v@.take(i + 1)) =~= lower(v@.take(i as int)).push(lower_char(v@[i as int])));
    }
    assert(v@.take(n as int) =~= v@);
    r
}

/// Whether `a` and `b` are equal ignoring ASCII case (`str::eq_ignore_ascii_case`).
pub fn eq_ignore_ascii_case(a: &[char], b: &[char]) -> (r: bool)
    ensures
        r == (lower(a@) == lower(b@)),
{
    if a.len() != b.len() {
        assert(lower(a@).len() != lower(b@).len());
        return false;
    }
    let n = a.len();
    for i in 0..n
        invariant
            n == a@.len(),
            n == b@.len(),
            forall|k: int| 0 <= k < i ==> lower_char(a@[k]) == lower_char(b@[k]),
    {
        if ascii_lower(a[i]) != ascii_lower(b[i]) {
            assert(lower(a@)[i as int] != lower(b@)[i as int]);
            return false;
        }
    }
    assert(lower(a@) =~= lower(b@));
    true
}

// ---------------------------------------------------------------------------
// Prefixes, suffixes and substrings
// ---------------------------------------------------------------------------

/// Whether `s` begins with `p`.
pub open spec fn has_prefix(s: Seq<char>, p: Seq<char>) -> bool {
    p.len() <= s.len() && s.subrange(0, p.len() as int) == p
}

/// Whether `s` ends with `p`.
pub open spec fn has_suffix(s: Seq<char>, p: Seq<char>) -> bool {
    p.len() <= s.len() && s.subrange(s.len() - p.len(), s.len() as int) == p
}

/// Whether `t` occurs in `s` at position `i`.
pub open spec fn occurs_at(s: Seq<char>, t: Seq<char>, i: int) -> bool {
    0 <= i && i + t.len() <= s.len() && s.subrange(i, i + t.len()) == t
}

/// Whether `t` occurs in `s` (`str::contains`).
pub open spec fn contains_seq(s: Seq<char>, t: Seq<char>) -> bool {
    exists|i: int| occurs_at(s, t, i)
}

/// Whether `t` occurs in `s` at position `i`.
pub fn matches_at(s: &[char], t: &[char], i: usize) -> (r: bool)
    ensures
        r == occurs_at(s@, t@, i as int),
{
    if i > s.len() || t.len() > s.len() - i {
        return false;
    }
    let n = t.len();
    for k in 0..n
        invariant
            n == t@.len(),
            i + n <= s@.len(),
            s@.len() <= usize::MAX,
            forall|m: int| 0 <= m < k ==> s@[i + m] == t@[m],
    {
        if s[i + k] != t[k] {
            assert(s@.subrange(i as int, i + n)[k as int] != t@[k as int]);
            return false;
        }
    }
    assert(s@.subrange(i as int, i + n) =~= t@);
    true
}

/// Whether `s` begins with `p`.
pub fn starts_with(s: &[char], p: &[char]) -> (r: bool)
    ensures
        r == has_prefix(s@, p@),
{
    matches_at(s, p, 0)
}

/// Whether `s` ends with `p`.
pub fn ends_with(s: &[char], p: &[char]) -> (r: bool)
    ensures
        r == has_suffix(s@, p@),
{
    if p.len() > s.len() {
        false
    } else {
        matches_at(s, p, s.len() - p.len())
    }
}

/// Whether `t` occurs in `s`.
pub fn contains_chars(s: &[char], t: &[char]) -> (r: bool)
    ensures
        r == contains_seq(s@, t@),
{
    if t.len() > s.len() {
        assert forall|i: int| !occurs_at(s@, t@, i) by {}
        return false;
    }
    if t.len() == 0 {
        assert(s@.subrange(0, 0) =~= t@);
        assert(occurs_at(s@, t@, 0));
        return true;
    }
    let last = s.len() - t.len();
    let mut i: usize = 0;
    while i <= last
        invariant
            last == s@.len() - t@.len(),
            t@.len() >= 1,
            s@.len() <= usize::MAX,
            i <= last + 1,
            forall|k: int| 0 <= k < i ==> !occurs_at(s@, t@, k),
        decreases last + 1 - i,
    {
        if matches_at(s, t, i) {
            return true;
        }
        i = i + 1;
    }
    assert forall|k: int| !occurs_at(s@, t@, k) by {
        if 0 <= k < i {
        }
    }
    false
}

// ---------------------------------------------------------------------------
// Lexicographic order (the order of `str` and `String`)
// ---------------------------------------------------------------------------

/// Strict lexicographic order of character sequences by code point, which
/// for UTF-8 strings is the byte order that `Ord for str` uses.
pub open spec fn seq_lt(a: Seq<char>, b: Seq<char>) -> bool
    decreases a.len(),
{
    if a.len() == 0 {
        b.len() > 0
    } else if b.len() == 0 {
        false
    } else if (a[0] as u32) < (b[0] as u32) {
        true
    } else if (a[0] as u32) > (b[0] as u32) {
        false
    } else {
        seq_lt(a.drop_first(), b.drop_first())
    }
}

/// `seq_lt` is irreflexive.
pub proof fn lemma_seq_lt_irreflexive(a: Seq<char>)
    ensures
        !seq_lt(a, a),
    decreases a.len(),
{
    if a.len() > 0 {
        lemma_seq_lt_irreflexive(a.drop_first());
    }
}

proof fn lemma_char_u32_injective(x: char, y: char)
    requires
        x as u32 == y as u32,
    ensures
        x == y,
{
    vstd::utf8::char_u32_cast(x, x as u32);
    vstd::utf8::char_u32_cast(y, y as u32);
}

/// `seq_lt` is total: two different sequences are ordered one way.
pub proof fn lemma_seq_lt_total(a: Seq<char>, b: Seq<char>)
    ensures
        a == b || seq_lt(a, b) || seq_lt(b, a),
    decreases a.len(),
{
    if a.len() > 0 && b.len() > 0 {
        if a[0] as u32 == b[0] as u32 {
            lemma_char_u32_injective(a[0], b[0]);
            lemma_seq_lt_total(a.drop_first(), b.drop_first());
            if a.drop_first() == b.drop_first() {
                assert(a =~= seq![a[0]] + a.drop_first());
                assert(b =~= seq![b[0]] + b.drop_first());
            }
        }
    } else if a.len() == 0 && b.len() == 0 {
        assert(a =~= b);
    }
}

/// `seq_lt` is asymmetric.
pub proof fn lemma_seq_lt_asymmetric(a: Seq<char>, b: Seq<char>)
    ensures
        !(seq_lt(a, b) && seq_lt(b, a)),
    decreases a.len(),
{
    if a.len() > 0 && b.len() > 0 {
        lemma_seq_lt_asymmetric(a.drop_first(), b.drop_first());
    }
}

/// `seq_lt` is transitive.
pub proof fn lemma_seq_lt_transitive(a: Seq<char>, b: Seq<char>, c: Seq<char>)
    requires
        seq_lt(a, b),
        seq_lt(b, c),
    ensures
        seq_lt(a, c),
    decreases a.len(),
{
    if a.len() > 0 && b.len() > 0 && c.len() > 0 {
        if a[0] as u32 == b[0] as u32 && b[0] as u32 == c[0] as u32 {
            lemma_seq_lt_transitive(a.drop_first(), b.drop_first(), c.drop_first());
        }
    }
}

/// Three-way comparison result.
#[derive(Clone, Copy, PartialEq, Eq, Structural, Debug)]
pub enum Order {
    Less,
    Equal,
    Greater,
}

/// Compares `a` and `b` lexicographically by code point.
pub fn compare_chars(a: &[char], b: &[char]) -> (r: Order)
    ensures
        r == Order::Less <==> seq_lt(a@, b@),
        r == Order::Equal <==> a@ == b@,
        r == Order::Greater <==> seq_lt(b@, a@),
{
    let n = if a.len() < b.len() {
        a.len()
    } else {
        b.len()
    };
    let mut i: usize = 0;
    assert(a@.skip(0) =~= a@);
    assert(b@.skip(0) =~= b@);
    while i < n
        invariant
            n <= a@.len(),
            n <= b@.len(),
            n == a@.len() || n == b@.len(),
            i <= n,
            a@.take(i as int) == b@.take(i as int),
            seq_lt(a@, b@) == seq_lt(a@.skip(i as int), b@.skip(i as int)),
            seq_lt(b@, a@) == seq_lt(b@.skip(i as int), a@.skip(i as int)),
        decreases n - i,
    {
        let x = a[i] as u32;
        let y = b[i] as u32;
        assert(a@.skip(i as int)[0] == a@[i as int]);
        assert(b@.skip(i as int)[0] == b@[i as int]);
        if x < y {
            proof {
                lemma_seq_lt_asymmetric(a@, b@);
                assert(a@ != b@ ==> true);
                if a@ == b@ {
                    assert(a@[i as int] == b@[i as int]);
                }
            }
            return Order::Less;
        }
        if x > y {
            proof {
                if a@ == b@ {
                    assert(a@[i as int] == b@[i as int]);
                }
            }
            return Order::Greater;
        }
        proof {
            lemma_char_u32_injective(a@[i as int], b@[i as int]);
            assert(a@.skip(i as int).drop_first() =~= a@.skip(i + 1));
            assert(b@.skip(i as int).drop_first() =~= b@.skip(i + 1));
            assert(a@.take(i + 1) =~= a@.take(i as int).push(a@[i as int]));
            assert(b@.take(i + 1) =~= b@.take(i as int).push(b@[i as int]));
        }
        i = i + 1;
    }
    if a.len() < b.len() {
        proof {
            assert(a@.skip(i as int).len() == 0);
            if a@ == b@ {
            }
        }
        Order::Less
    } else if a.len() > b.len() {
        proof {
            assert(b@.skip(i as int).len() == 0);
        }
        Order::Greater
    } else {
        proof {
            assert(a@ =~= a@.take(i as int));
            assert(b@ =~= b@.take(i as int));
            lemma_seq_lt_irreflexive(a@);
        }
        Order::Equal
    }
}

// ---------------------------------------------------------------------------
// Decimal numbers
// ---------------------------------------------------------------------------

/// The decimal digit for `d < 10`.
pub open spec fn digit_char(d: nat) -> char {
    (('0' as u32) + d) as char
}

/// The decimal representation of `n`, without leading zeros.
pub open spec fn decimal(n: nat) -> Seq<char>
    decreases n,
{
    if n < 10 {
        seq![digit_char(n)]
    } else {
        decimal(n / 10).push(digit_char(n % 10))
    }
}

/// The decimal representation of `n`, padded with zeros to at least `width` digits.
pub open spec fn decimal_padded(n: nat, width: nat) -> Seq<char> {
    let d = decimal(n);
    if d.len() >= width {
        d
    } else {
        Seq::new((width - d.len()) as nat, |_i: int| '0') + d
    }
}

/// The decimal digit `d`.
pub fn digit(d: u64) -> (c: char)
    requires
        d < 10,
    ensures
        c == digit_char(d as nat),
{
    let b = (48 + d) as u8;
    let c = b as char;
    assert(c as u32 == 48 + d);
    c
}

proof fn lemma_decimal_len_pos(n: nat)
    ensures
        decimal(n).len() >= 1,
    decreases n,
{
    if n >= 10 {
        lemma_decimal_len_pos(n / 10);
    }
}

/// The decimal representation of `n` (`format!("{n}")`).
pub fn decimal_chars(n: u64) -> (r: Vec<char>)
    ensures
        r@ == decimal(n as nat),
    decreases n,
{
    if n < 10 {
        let mut r: Vec<char> = Vec::new();
        r.push(digit(n));
        assert(r@ =~= seq![digit_char(n as nat)]);
        r
    } else {
        let mut r = decimal_chars(n / 10);
        r.push(digit(n % 10));
        r
    }
}

/// The decimal representation of `n` padded with zeros to `width` digits
/// (`format!("{n:0width$}")`).
pub fn decimal_padded_chars(n: u64, width: usize) -> (r: Vec<char>)
    ensures
        r@ == decimal_padded(n as nat, width as nat),
{
    let d = decimal_chars(n);
    if d.len() >= width {
        d
    } else {
        let pad = width - d.len();
        let mut r: Vec<char> = Vec::new();
        for i in 0..pad
            invariant
                r@ == Seq::new(i as nat, |_i: int| '0'),
        {
            r.push('0');
            assert(r@ =~= Seq::new((i + 1) as nat, |_i: int| '0'));
        }
        extend_chars(&mut r, d.as_slice());
        r
    }
}

} // verus!
