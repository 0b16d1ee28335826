//! File-system paths as text, with `/` as the separator: joining a name to a
//! folder, and the part of a path below a folder.
use vstd::prelude::*;

use crate::text::{chars_of, compare_chars, extend_chars, extend_with_str,
    lemma_seq_lt_asymmetric, lemma_seq_lt_irreflexive, lemma_seq_lt_total,
    lemma_seq_lt_transitive, seq_lt, slice_range, string_from_chars, Order};

verus! {

/// The pieces of `s` between the separators `c` (`split(c)`).
pub open spec fn split_on(s: Seq<char>, c: char) -> Seq<Seq<char>>
    decreases s.len(),
{
    if s.len() == 0 {
        seq![Seq::empty()]
    } else {
        let rest = split_on(s.drop_last(), c);
        if s.last() == c {
            rest.push(Seq::empty())
        } else {
            rest.update(rest.len() - 1, rest.last().push(s.last()))
        }
    }
}

pub(crate) proof fn lemma_split_on_nonempty(s: Seq<char>, c: char)
    ensures
        split_on(s, c).len() >= 1,
    decreases s.len(),
{
    if s.len() > 0 {
        lemma_split_on_nonempty(s.drop_last(), c);
    }
}

/// The views of a sequence of character vectors.
pub open spec fn char_vec_views(v: Seq<Vec<char>>) -> Seq<Seq<char>> {
    v.map_values(|l: Vec<char>| l@)
}

/// Splits `s` at every `c`.
pub fn split_chars(s: &[char], c: char) -> (r: Vec<Vec<char>>)
    ensures
        char_vec_views(r@) == split_on(s@, c),
{
    let mut pieces: Vec<Vec<char>> = Vec::new();
    let mut cur: Vec<char> = Vec::new();
    let n = s.len();
    for i in 0..n
        invariant
            n == s@.len(),
            char_vec_views(pieces@).push(cur@) == split_on(s@.take(i as int), c),
    {
        proof {
            lemma_split_on_nonempty(s@.take(i as int), c);
            assert(s@.take(i + 1).drop_last() =~= s@.take(i as int));
        }
        let ghost before = char_vec_views(pieces@).push(cur@);
        if s[i] == c {
            let done = cur;
            pieces.push(done);
            cur = Vec::new();
            assert(char_vec_views(pieces@).push(cur@) =~= before.push(Seq::empty()));
        } else {
            cur.push(s[i]);
            assert(char_vec_views(pieces@).push(cur@) =~= before.update(
                before.len() - 1,
                before.last().push(s@[i as int]),
            ));
        }
    }
    assert(s@.take(n as int) =~= s@);
    pieces.push(cur);
    pieces
}

/// The named components of a path: the pieces between `/` separators,
/// without empty pieces (repeated separators) and without `.` pieces after
/// the first one, as `Path::components` normalises them.
pub open spec fn named_components(pieces: Seq<Seq<char>>) -> Seq<Seq<char>>
    decreases pieces.len(),
{
    if pieces.len() == 0 {
        Seq::empty()
    } else {
        let rest = named_components(pieces.drop_last());
        let p = pieces.last();
        if p.len() == 0 || (p == seq!['.'] && pieces.len() > 1) {
            rest
        } else {
            rest.push(p)
        }
    }
}

/// Whether a path starts at the root.
pub open spec fn is_absolute(p: Seq<char>) -> bool {
    p.len() > 0 && p[0] == '/'
}

/// The components of a path.
pub open spec fn components(p: Seq<char>) -> Seq<Seq<char>> {
    named_components(split_on(p, '/'))
}

/// The pieces joined with `/`.
pub open spec fn join_slash(parts: Seq<Seq<char>>) -> Seq<char>
    decreases parts.len(),
{
    if parts.len() == 0 {
        Seq::empty()
    } else if parts.len() == 1 {
        parts[0]
    } else {
        join_slash(parts.drop_last()) + seq!['/'] + parts.last()
    }
}

/// The part of `path` below `base` (`Path::strip_prefix`): defined when both
/// are absolute or both relative and the components of `base` begin those of
/// `path`; it is the remaining components joined with `/`.
pub open spec fn spec_strip_prefix(path: Seq<char>, base: Seq<char>) -> Option<Seq<char>> {
    let pc = components(path);
    let bc = components(base);
    if is_absolute(path) == is_absolute(base) && bc.len() <= pc.len() && pc.take(bc.len() as int)
        == bc {
        Some(join_slash(pc.skip(bc.len() as int)))
    } else {
        None
    }
}

fn component_list(p: &[char]) -> (r: Vec<Vec<char>>)
    ensures
        char_vec_views(r@) == components(p@),
{
    let pieces = split_chars(p, '/');
    let ghost pv = char_vec_views(pieces@);
    let mut r: Vec<Vec<char>> = Vec::new();
    let n = pieces.len();
    for i in 0..n
        invariant
            n == pieces@.len(),
            pv == char_vec_views(pieces@),
            char_vec_views(r@) == named_components(pv.take(i as int)),
    {
        let piece = &pieces[i];
        assert(pv.take(i + 1).drop_last() =~= pv.take(i as int));
        assert(pv[i as int] == piece@);
        let is_dot = piece.len() == 1 && piece[0] == '.';
        assert(is_dot == (piece@ == seq!['.'])) by {
            if piece@ == seq!['.'] {
                assert(piece@[0] == '.');
            }
            if is_dot {
                assert(piece@ =~= seq!['.']);
            }
        }
        if piece.len() == 0 || (is_dot && i > 0) {
        } else {
            let ghost before = char_vec_views(r@);
            let copy = slice_range(piece.as_slice(), 0, piece.len());
            assert(copy@ =~= piece@);
            r.push(copy);
            assert(char_vec_views(r@) =~= before.push(piece@));
        }
    }
    assert(pv.take(n as int) =~= pv);
    r
}

fn join_components(parts: &Vec<Vec<char>>, from: usize) -> (r: Vec<char>)
    requires
        from <= parts@.len(),
    ensures
        r@ == join_slash(char_vec_views(parts@).skip(from as int)),
{
    let ghost pv = char_vec_views(parts@).skip(from as int);
    let mut out: Vec<char> = Vec::new();
    let n = parts.len();
    let mut i = from;
    while i < n
        invariant
            n == parts@.len(),
            from <= i <= n,
            pv == char_vec_views(parts@).skip(from as int),
            out@ == join_slash(pv.take(i - from)),
        decreases n - i,
    {
        let ghost before = out@;
        if i > from {
            out.push('/');
        }
        extend_chars(&mut out, parts[i].as_slice());
        assert(pv.take(i - from + 1).drop_last() =~= pv.take(i - from));
        assert(pv[i - from] == parts@[i as int]@);
        if i == from {
            assert(out@ =~= join_slash(pv.take(1)));
        } else {
            assert(out@ =~= join_slash(pv.take(i - from)) + seq!['/'] + pv[i - from]);
        }
        i = i + 1;
    }
    assert(pv.take(n - from) =~= pv);
    out
}

/// The part of `path` below `base`, if `base` is a leading part of `path`.
pub fn strip_prefix(path: &str, base: &str) -> (r: Option<String>)
    ensures
        match r {
            Some(s) => spec_strip_prefix(path@, base@) == Some(s@),
            None => spec_strip_prefix(path@, base@) is None,
        },
{
    let p = chars_of(path);
    let b = chars_of(base);
    let pa = p.len() > 0 && p[0] == '/';
    let ba = b.len() > 0 && b[0] == '/';
    assert(is_absolute(path@) == pa && is_absolute(base@) == ba);
    if pa != ba {
        return None;
    }
    let pc = component_list(p.as_slice());
    let bc = component_list(b.as_slice());
    if bc.len() > pc.len() {
        return None;
    }
    let ghost pv = char_vec_views(pc@);
    let ghost bv = char_vec_views(bc@);
    let m = bc.len();
    for i in 0..m
        invariant
            m == bc@.len(),
            m <= pc@.len(),
            pv == char_vec_views(pc@),
            bv == char_vec_views(bc@),
            pv == components(path@),
            bv == components(base@),
            is_absolute(path@) == is_absolute(base@),
            forall|k: int| 0 <= k < i ==> pv[k] == bv[k],
    {
        assert(pv[i as int] == pc@[i as int]@ && bv[i as int] == bc@[i as int]@);
        if crate::text::compare_chars(pc[i].as_slice(), bc[i].as_slice()) != crate::text::Order::Equal {
            assert(pv.take(m as int)[i as int] != bv[i as int]);
            assert(pv.take(m as int) != bv);
            assert(spec_strip_prefix(path@, base@) is None);
            return None;
        }
    }
    assert(pv.take(m as int) =~= bv);
    let rest = join_components(&pc, m);
    Some(string_from_chars(rest.as_slice()))
}

/// `name` joined to the folder `dir` (`Path::join` with a relative name):
/// `name` alone when `dir` is empty, otherwise `dir`, a `/` unless `dir`
/// already ends with one, and `name`; an absolute `name` replaces `dir`.
pub open spec fn spec_join(dir: Seq<char>, name: Seq<char>) -> Seq<char> {
    if is_absolute(name) || dir.len() == 0 {
        name
    } else if dir.last() == '/' {
        dir + name
    } else {
        dir + seq!['/'] + name
    }
}

/// `name` joined to the folder `dir`.
pub fn join(dir: &str, name: &str) -> (r: String)
    ensures
        r@ == spec_join(dir@, name@),
{
    let d = chars_of(dir);
    let n = chars_of(name);
    if (n.len() > 0 && n[0] == '/') || d.len() == 0 {
        return name.to_owned();
    }
    let mut out = d;
    if out[out.len() - 1] != '/' {
        out.push('/');
    }
    extend_chars(&mut out, n.as_slice());
    string_from_chars(out.as_slice())
}

/// The last component of a path (`Path::file_name`), when it is a name.
pub open spec fn spec_file_name(p: Seq<char>) -> Option<Seq<char>> {
    let c = components(p);
    if c.len() == 0 || c.last() == seq!['.'] || c.last() == seq!['.', '.'] {
        None
    } else {
        Some(c.last())
    }
}

/// The last component of `path`, when it is a name.
pub fn file_name(path: &str) -> (r: Option<String>)
    ensures
        match r {
            Some(s) => spec_file_name(path@) == Some(s@),
            None => spec_file_name(path@) is None,
        },
{
    let p = chars_of(path);
    let c = component_list(p.as_slice());
    if c.len() == 0 {
        return None;
    }
    let last = &c[c.len() - 1];
    assert(char_vec_views(c@).last() == last@);
    let is_dot = last.len() == 1 && last[0] == '.';
    let is_dotdot = last.len() == 2 && last[0] == '.' && last[1] == '.';
    proof {
        if last@ == seq!['.'] {
            assert(last@[0] == '.');
        }
        if is_dot {
            assert(last@ =~= seq!['.']);
        }
        if last@ == seq!['.', '.'] {
            assert(last@[0] == '.' && last@[1] == '.');
        }
        if is_dotdot {
            assert(last@ =~= seq!['.', '.']);
        }
    }
    if is_dot || is_dotdot {
        None
    } else {
        Some(string_from_chars(last.as_slice()))
    }
}

// ---------------------------------------------------------------------------
// The order of paths
// ---------------------------------------------------------------------------

/// The kind of a component in the order of `Path`: the root (0) before a
/// leading `.` (1), before `..` (2), before a name (3).
pub open spec fn component_rank(c: Seq<char>) -> int {
    if c == seq!['.'] {
        1
    } else if c == seq!['.', '.'] {
        2
    } else {
        3
    }
}

/// The components of a path as `Path` compares them: the root first for an
/// absolute path, then each component with its kind.
#[verifier::opaque]
pub open spec fn ranked_components(p: Seq<char>) -> Seq<(int, Seq<char>)> {
    let named = components(p).map_values(|c: Seq<char>| (component_rank(c), c));
    if is_absolute(p) {
        seq![(0int, Seq::<char>::empty())] + named
    } else {
        named
    }
}

/// The order of two components: by kind, then names by their text.
pub open spec fn part_lt(a: (int, Seq<char>), b: (int, Seq<char>)) -> bool {
    a.0 < b.0 || (a.0 == b.0 && seq_lt(a.1, b.1))
}

/// The lexicographic order of component sequences.
#[verifier::opaque]
pub open spec fn parts_lt(a: Seq<(int, Seq<char>)>, b: Seq<(int, Seq<char>)>) -> bool
    decreases a.len(),
{
    if a.len() == 0 {
        b.len() > 0
    } else if b.len() == 0 {
        false
    } else if part_lt(a[0], b[0]) {
        true
    } else if part_lt(b[0], a[0]) {
        false
    } else {
        parts_lt(a.drop_first(), b.drop_first())
    }
}

/// The order of paths (`Ord for Path`): component by component.
pub open spec fn path_lt(p: Seq<char>, q: Seq<char>) -> bool {
    parts_lt(ranked_components(p), ranked_components(q))
}

proof fn lemma_part_lt_total(a: (int, Seq<char>), b: (int, Seq<char>))
    ensures
        a == b || part_lt(a, b) || part_lt(b, a),
        !(part_lt(a, b) && part_lt(b, a)),
        !part_lt(a, a),
{
    lemma_seq_lt_total(a.1, b.1);
    lemma_seq_lt_asymmetric(a.1, b.1);
    lemma_seq_lt_irreflexive(a.1);
}

proof fn lemma_part_lt_transitive(a: (int, Seq<char>), b: (int, Seq<char>), c: (int, Seq<char>))
    requires
        part_lt(a, b),
        part_lt(b, c),
    ensures
        part_lt(a, c),
{
    if a.0 == b.0 && b.0 == c.0 {
        lemma_seq_lt_transitive(a.1, b.1, c.1);
    }
}

/// `parts_lt` is a strict total order: irreflexive, asymmetric and total.
pub proof fn lemma_parts_lt_total(a: Seq<(int, Seq<char>)>, b: Seq<(int, Seq<char>)>)
    ensures
        a == b || parts_lt(a, b) || parts_lt(b, a),
        !(parts_lt(a, b) && parts_lt(b, a)),
        !parts_lt(a, a),
    decreases a.len(),
{
    reveal(parts_lt);
    if a.len() > 0 {
        lemma_part_lt_total(a[0], a[0]);
        lemma_parts_lt_total(a.drop_first(), a.drop_first());
    }
    if a.len() > 0 && b.len() > 0 {
        lemma_part_lt_total(a[0], b[0]);
        lemma_parts_lt_total(a.drop_first(), b.drop_first());
        if a[0] == b[0] && a.drop_first() == b.drop_first() {
            assert(a =~= seq![a[0]] + a.drop_first());
            assert(b =~= seq![b[0]] + b.drop_first());
        }
    } else if a.len() == 0 && b.len() == 0 {
        assert(a =~= b);
    }
}

/// `parts_lt` is transitive.
pub proof fn lemma_parts_lt_transitive(
    a: Seq<(int, Seq<char>)>,
    b: Seq<(int, Seq<char>)>,
    c: Seq<(int, Seq<char>)>,
)
    requires
        parts_lt(a, b),
        parts_lt(b, c),
    ensures
        parts_lt(a, c),
    decreases a.len(),
{
    reveal(parts_lt);
    if a.len() > 0 && b.len() > 0 && c.len() > 0 {
        lemma_part_lt_total(a[0], b[0]);
        lemma_part_lt_total(b[0], c[0]);
        lemma_part_lt_total(a[0], c[0]);
        if part_lt(a[0], b[0]) && part_lt(b[0], c[0]) {
            lemma_part_lt_transitive(a[0], b[0], c[0]);
        }
        if a[0] == b[0] && b[0] == c[0] {
            lemma_parts_lt_transitive(a.drop_first(), b.drop_first(), c.drop_first());
        }
    }
}

/// The views of exec components with their kinds.
pub open spec fn ranked_views(v: Seq<(u8, Vec<char>)>) -> Seq<(int, Seq<char>)> {
    v.map_values(|x: (u8, Vec<char>)| (x.0 as int, x.1@))
}

fn ranked_component_list(p: &[char]) -> (r: Vec<(u8, Vec<char>)>)
    ensures
        ranked_views(r@) == ranked_components(p@),
{
    proof {
        reveal(ranked_components);
    }
    let comps = component_list(p);
    let ghost cv = char_vec_views(comps@);
    let ghost named = cv.map_values(|c: Seq<char>| (component_rank(c), c));
    let mut r: Vec<(u8, Vec<char>)> = Vec::new();
    let absolute = p.len() > 0 && p[0] == '/';
    if absolute {
        r.push((0u8, Vec::new()));
        assert(ranked_views(r@) =~= seq![(0int, Seq::<char>::empty())]);
    }
    let ghost head = ranked_views(r@);
    let n = comps.len();
    for i in 0..n
        invariant
            n == comps@.len(),
            cv == char_vec_views(comps@),
            named == cv.map_values(|c: Seq<char>| (component_rank(c), c)),
            ranked_views(r@) == head + named.take(i as int),
    {
        let c = &comps[i];
        assert(cv[i as int] == c@);
        let is_dot = c.len() == 1 && c[0] == '.';
        let is_dotdot = c.len() == 2 && c[0] == '.' && c[1] == '.';
        proof {
            if c@ == seq!['.'] {
                assert(c@[0] == '.');
            }
            if is_dot {
                assert(c@ =~= seq!['.']);
            }
            if c@ == seq!['.', '.'] {
                assert(c@[0] == '.' && c@[1] == '.');
            }
            if is_dotdot {
                assert(c@ =~= seq!['.', '.']);
            }
        }
        let rank: u8 = if is_dot {
            1
        } else if is_dotdot {
            2
        } else {
            3
        };
        let copy = slice_range(c.as_slice(), 0, c.len());
        assert(copy@ =~= c@);
        let ghost before = ranked_views(r@);
        r.push((rank, copy));
        assert(ranked_views(r@) =~= before.push((rank as int, c@)));
        assert(named.take(i + 1) =~= named.take(i as int).push(named[i as int]));
    }
    assert(named.take(n as int) =~= named);
    r
}

fn compare_ranked(a: &Vec<(u8, Vec<char>)>, b: &Vec<(u8, Vec<char>)>) -> (r: Order)
    ensures
        r == Order::Less <==> parts_lt(ranked_views(a@), ranked_views(b@)),
        r == Order::Equal <==> ranked_views(a@) == ranked_views(b@),
        r == Order::Greater <==> parts_lt(ranked_views(b@), ranked_views(a@)),
{
    let ghost av = ranked_views(a@);
    let ghost bv = ranked_views(b@);
    proof {
        reveal(parts_lt);
        lemma_parts_lt_total(av, bv);
    }
    let n = if a.len() < b.len() {
        a.len()
    } else {
        b.len()
    };
    let mut i: usize = 0;
    assert(av.skip(0) =~= av);
    assert(bv.skip(0) =~= bv);
    while i < n
        invariant
            n <= a@.len(),
            n <= b@.len(),
            n == a@.len() || n == b@.len(),
            av == ranked_views(a@),
            bv == ranked_views(b@),
            i <= n,
            av.take(i as int) == bv.take(i as int),
            parts_lt(av, bv) == parts_lt(av.skip(i as int), bv.skip(i as int)),
            parts_lt(bv, av) == parts_lt(bv.skip(i as int), av.skip(i as int)),
            av == bv || parts_lt(av, bv) || parts_lt(bv, av),
            !(parts_lt(av, bv) && parts_lt(bv, av)),
        decreases n - i,
    {
        proof {
            reveal(parts_lt);
        }
        let x = &a[i];
        let y = &b[i];
        let ghost xv = av[i as int];
        let ghost yv = bv[i as int];
        assert(xv == (x.0 as int, x.1@));
        assert(yv == (y.0 as int, y.1@));
        assert(av.skip(i as int)[0] == xv);
        assert(bv.skip(i as int)[0] == yv);
        proof {
            lemma_part_lt_total(xv, yv);
        }
        let text = compare_chars(x.1.as_slice(), y.1.as_slice());
        if x.0 < y.0 || (x.0 == y.0 && text == Order::Less) {
            proof {
                if av == bv {
                    assert(av[i as int] == bv[i as int]);
                }
            }
            return Order::Less;
        }
        if x.0 > y.0 || (x.0 == y.0 && text == Order::Greater) {
            proof {
                if av == bv {
                    assert(av[i as int] == bv[i as int]);
                }
            }
            return Order::Greater;
        }
        proof {
            assert(xv == yv);
            assert(av.skip(i as int).drop_first() =~= av.skip(i + 1));
            assert(bv.skip(i as int).drop_first() =~= bv.skip(i + 1));
            assert(av.take(i + 1) =~= av.take(i as int).push(xv));
            assert(bv.take(i + 1) =~= bv.take(i as int).push(yv));
        }
        i = i + 1;
    }
    proof {
        reveal(parts_lt);
    }
    if a.len() < b.len() {
        proof {
            assert(av.skip(i as int).len() == 0);
            if av == bv {
            }
        }
        Order::Less
    } else if a.len() > b.len() {
        proof {
            assert(bv.skip(i as int).len() == 0);
        }
        Order::Greater
    } else {
        proof {
            assert(av =~= av.take(i as int));
            assert(bv =~= bv.take(i as int));
        }
        Order::Equal
    }
}

fn insertion_point(keys: &Vec<Vec<(u8, Vec<char>)>>, key: &Vec<(u8, Vec<char>)>) -> (r: (
    usize,
    bool,
))
    ensures
        r.0 <= keys@.len(),
        forall|j: int|
            0 <= j < r.0 ==> parts_lt(ranked_views(#[trigger] keys@[j]@), ranked_views(key@)),
        r.1 ==> r.0 < keys@.len() && ranked_views(keys@[r.0 as int]@) == ranked_views(key@),
        !r.1 ==> r.0 == keys@.len() || parts_lt(ranked_views(key@), ranked_views(keys@[r.0 as int]@)),
{
    let m = keys.len();
    let mut pos: usize = 0;
    while pos < m
        invariant
            m == keys@.len(),
            pos <= m,
            forall|j: int|
                0 <= j < pos ==> parts_lt(ranked_views(#[trigger] keys@[j]@), ranked_views(key@)),
        decreases m - pos,
    {
        let c = compare_ranked(&keys[pos], key);
        if c == Order::Equal {
            return (pos, true);
        }
        if c == Order::Greater {
            return (pos, false);
        }
        pos = pos + 1;
    }
    (pos, false)
}

/// Whether `out` lists paths of strictly increasing order.
pub open spec fn paths_increasing(out: Seq<Seq<char>>) -> bool {
    forall|a: int, b: int|
        0 <= a < b < out.len() ==> path_lt(#[trigger] out[a], #[trigger] out[b])
}

/// Whether `paths[i]` is the first of `paths` with its components.
pub open spec fn first_of_its_kind(paths: Seq<Seq<char>>, i: int) -> bool {
    &&& 0 <= i < paths.len()
    &&& forall|k: int|
        0 <= k < i ==> ranked_components(#[trigger] paths[k]) != ranked_components(paths[i])
}

/// Whether some entry of `out` is the same path as `p`.
#[verifier::opaque]
pub open spec fn holds_path(out: Seq<Seq<char>>, p: Seq<char>) -> bool {
    exists|j: int| 0 <= j < out.len() && ranked_components(#[trigger] out[j]) == ranked_components(p)
}

/// Whether `t` is the first of the first `bound` entries of `paths` that
/// name its path.
#[verifier::opaque]
pub open spec fn first_entry_text(paths: Seq<Seq<char>>, t: Seq<char>, bound: int) -> bool {
    exists|i: int| 0 <= i < bound && first_of_its_kind(paths, i) && #[trigger] paths[i] == t
}

/// Whether `out` is `paths` sorted and without repeated paths (`sort` then
/// `dedup` of `PathBuf`s): increasing, each entry the first of the inputs
/// that are the same path, and every input there as the same path.
pub open spec fn sorted_unique_paths(paths: Seq<Seq<char>>, out: Seq<Seq<char>>) -> bool {
    &&& paths_increasing(out)
    &&& forall|j: int|
        0 <= j < out.len() ==> first_entry_text(paths, #[trigger] out[j], paths.len() as int)
    &&& forall|i: int| 0 <= i < paths.len() ==> holds_path(out, #[trigger] paths[i])
}

/// The views of a vector of strings.
pub open spec fn text_views(v: Seq<String>) -> Seq<Seq<char>> {
    v.map_values(|s: String| s@)
}

/// What holds of the paths kept from the first `i` inputs.
pub open spec fn kept_so_far(pv: Seq<Seq<char>>, ov: Seq<Seq<char>>, i: int) -> bool {
    &&& paths_increasing(ov)
    &&& forall|j: int| 0 <= j < ov.len() ==> first_entry_text(pv, #[trigger] ov[j], i)
    &&& forall|k: int| 0 <= k < i ==> holds_path(ov, #[trigger] pv[k])
}

proof fn lemma_keep_when_seen(pv: Seq<Seq<char>>, ov: Seq<Seq<char>>, i: int, pos: int)
    requires
        0 <= i < pv.len(),
        kept_so_far(pv, ov, i),
        0 <= pos < ov.len(),
        ranked_components(ov[pos]) == ranked_components(pv[i]),
    ensures
        kept_so_far(pv, ov, i + 1),
{
    assert forall|j: int| 0 <= j < ov.len() implies first_entry_text(pv, #[trigger] ov[j], i + 1)
        by {
        assert(first_entry_text(pv, ov[j], i));
        reveal(first_entry_text);
        let k = choose|k: int| 0 <= k < i && first_of_its_kind(pv, k) && #[trigger] pv[k] == ov[j];
        assert(0 <= k < i + 1 && first_of_its_kind(pv, k) && pv[k] == ov[j]);
    }
    assert forall|k: int| 0 <= k < i + 1 implies holds_path(ov, #[trigger] pv[k]) by {
        if k == i {
            reveal(holds_path);
            assert(ranked_components(ov[pos]) == ranked_components(pv[k]));
        }
    }
}

proof fn lemma_new_path_is_first(pv: Seq<Seq<char>>, ov: Seq<Seq<char>>, i: int, pos: int)
    requires
        0 <= i < pv.len(),
        kept_so_far(pv, ov, i),
        0 <= pos <= ov.len(),
        forall|j: int| 0 <= j < pos ==> path_lt(#[trigger] ov[j], pv[i]),
        pos == ov.len() || path_lt(pv[i], ov[pos]),
    ensures
        first_of_its_kind(pv, i),
{
    let x = pv[i];
    assert forall|k: int| 0 <= k < i implies ranked_components(#[trigger] pv[k])
        != ranked_components(x) by {
        assert(holds_path(ov, pv[k]));
        reveal(holds_path);
        let j = choose|j: int|
            0 <= j < ov.len() && ranked_components(#[trigger] ov[j]) == ranked_components(pv[k]);
        if ranked_components(pv[k]) == ranked_components(x) {
            if j < pos {
                assert(path_lt(ov[j], x));
                lemma_parts_lt_total(ranked_components(ov[j]), ranked_components(x));
            } else {
                if j > pos {
                    assert(path_lt(ov[pos], ov[j]));
                    lemma_parts_lt_transitive(
                        ranked_components(x),
                        ranked_components(ov[pos]),
                        ranked_components(ov[j]),
                    );
                }
                lemma_parts_lt_total(ranked_components(ov[j]), ranked_components(x));
            }
        }
    }
}

proof fn lemma_insert_keeps_increasing(ov: Seq<Seq<char>>, x: Seq<char>, pos: int)
    requires
        paths_increasing(ov),
        0 <= pos <= ov.len(),
        forall|j: int| 0 <= j < pos ==> path_lt(#[trigger] ov[j], x),
        pos == ov.len() || path_lt(x, ov[pos]),
    ensures
        paths_increasing(ov.insert(pos, x)),
{
    let nv = ov.insert(pos, x);
    assert forall|a: int, b: int| 0 <= a < b < nv.len() implies path_lt(
        #[trigger] nv[a],
        #[trigger] nv[b],
    ) by {
        if b < pos {
            assert(nv[a] == ov[a] && nv[b] == ov[b]);
        } else if b == pos {
            assert(nv[a] == ov[a]);
        } else if a < pos {
            assert(nv[a] == ov[a] && nv[b] == ov[b - 1]);
            assert(path_lt(ov[a], x));
            if b - 1 > pos {
                assert(path_lt(ov[pos], ov[b - 1]));
                lemma_parts_lt_transitive(
                    ranked_components(x),
                    ranked_components(ov[pos]),
                    ranked_components(ov[b - 1]),
                );
            }
            lemma_parts_lt_transitive(
                ranked_components(ov[a]),
                ranked_components(x),
                ranked_components(ov[b - 1]),
            );
        } else if a == pos {
            assert(nv[b] == ov[b - 1]);
            if b - 1 > pos {
                assert(path_lt(ov[pos], ov[b - 1]));
                lemma_parts_lt_transitive(
                    ranked_components(x),
                    ranked_components(ov[pos]),
                    ranked_components(ov[b - 1]),
                );
            }
        } else {
            assert(nv[a] == ov[a - 1] && nv[b] == ov[b - 1]);
        }
    }
}

proof fn lemma_insert_new_path(pv: Seq<Seq<char>>, ov: Seq<Seq<char>>, i: int, pos: int)
    requires
        0 <= i < pv.len(),
        kept_so_far(pv, ov, i),
        0 <= pos <= ov.len(),
        forall|j: int| 0 <= j < pos ==> path_lt(#[trigger] ov[j], pv[i]),
        pos == ov.len() || path_lt(pv[i], ov[pos]),
    ensures
        kept_so_far(pv, ov.insert(pos, pv[i]), i + 1),
{
    let nv = ov.insert(pos, pv[i]);
    lemma_new_path_is_first(pv, ov, i, pos);
    lemma_insert_keeps_increasing(ov, pv[i], pos);
    assert forall|j: int| 0 <= j < nv.len() implies first_entry_text(pv, #[trigger] nv[j], i + 1)
        by {
        if j == pos {
            reveal(first_entry_text);
            assert(0 <= i < i + 1 && first_of_its_kind(pv, i) && pv[i] == nv[j]);
        } else {
            let jj = if j < pos {
                j
            } else {
                j - 1
            };
            assert(nv[j] == ov[jj]);
            assert(first_entry_text(pv, ov[jj], i));
            reveal(first_entry_text);
            let k = choose|k: int| 0 <= k < i && first_of_its_kind(pv, k) && #[trigger] pv[k] == ov[jj];
            assert(0 <= k < i + 1 && first_of_its_kind(pv, k) && pv[k] == nv[j]);
        }
    }
    assert forall|k: int| 0 <= k < i + 1 implies holds_path(nv, #[trigger] pv[k]) by {
        reveal(holds_path);
        if k == i {
            assert(ranked_components(nv[pos]) == ranked_components(pv[k]));
        } else {
            assert(holds_path(ov, pv[k]));
            let j = choose|j: int|
                0 <= j < ov.len() && ranked_components(#[trigger] ov[j]) == ranked_components(pv[k]);
            let jn = if j < pos {
                j
            } else {
                j + 1
            };
            assert(nv[jn] == ov[j]);
        }
    }
}

/// `paths` sorted in the order of `Path`, each path kept once (the first of
/// those that name it).
pub fn sort_unique_paths(paths: &Vec<String>) -> (r: Vec<String>)
    ensures
        sorted_unique_paths(text_views(paths@), text_views(r@)),
{
    let ghost pv = text_views(paths@);
    let mut out: Vec<String> = Vec::new();
    let mut keys: Vec<Vec<(u8, Vec<char>)>> = Vec::new();
    let n = paths.len();
    for i in 0..n
        invariant
            n == paths@.len(),
            pv == text_views(paths@),
            out@.len() == keys@.len(),
            forall|j: int|
                0 <= j < keys@.len() ==> ranked_views(#[trigger] keys@[j]@) == ranked_components(
                    text_views(out@)[j],
                ),
            kept_so_far(pv, text_views(out@), i as int),
    {
        let ghost ov = text_views(out@);
        let pc = chars_of(paths[i].as_str());
        let key = ranked_component_list(pc.as_slice());
        assert(pv[i as int] == pc@);
        let (pos, found) = insertion_point(&keys, &key);
        proof {
            assert forall|j: int| 0 <= j < pos implies path_lt(#[trigger] ov[j], pv[i as int]) by {
                assert(ranked_views(keys@[j]@) == ranked_components(ov[j]));
            }
            if found {
                assert(ranked_views(keys@[pos as int]@) == ranked_components(ov[pos as int]));
            } else if pos < keys@.len() {
                assert(ranked_views(keys@[pos as int]@) == ranked_components(ov[pos as int]));
            }
        }
        if found {
            proof {
                lemma_keep_when_seen(pv, ov, i as int, pos as int);
            }
        } else {
            proof {
                lemma_insert_new_path(pv, ov, i as int, pos as int);
            }
            out.insert(pos, paths[i].clone());
            keys.insert(pos, key);
            proof {
                let nv = text_views(out@);
                assert(nv =~= ov.insert(pos as int, pv[i as int]));
                assert forall|j: int| 0 <= j < keys@.len() implies ranked_views(
                    #[trigger] keys@[j]@,
                ) == ranked_components(nv[j]) by {
                    if j < pos {
                        assert(nv[j] == ov[j]);
                    } else if j > pos {
                        assert(nv[j] == ov[j - 1]);
                    }
                }
            }
        }
    }
    out
}

} // verus!
