//! What the library reads from the output of external programs.
use vstd::prelude::*;

use crate::text::{chars_of, is_blank, string_from_chars, trim, trim_chars};
use crate::vtt::{lines, split_lines};

verus! {

/// The first line of `ls` that is not blank, trimmed.
pub open spec fn first_nonblank(ls: Seq<Seq<char>>) -> Option<Seq<char>>
    decreases ls.len(),
{
    if ls.len() == 0 {
        None
    } else if !is_blank(ls[0]) {
        Some(trim(ls[0]))
    } else {
        first_nonblank(ls.drop_first())
    }
}

proof fn lemma_first_nonblank_skip(ls: Seq<Seq<char>>, i: int)
    requires
        0 <= i <= ls.len(),
        forall|k: int| 0 <= k < i ==> is_blank(#[trigger] ls[k]),
    ensures
        first_nonblank(ls) == first_nonblank(ls.skip(i)),
    decreases i,
{
    if i > 0 {
        assert(ls.drop_first().skip(i - 1) =~= ls.skip(i));
        lemma_first_nonblank_skip(ls.drop_first(), i - 1);
    } else {
        assert(ls.skip(0) =~= ls);
    }
}

/// The version a tool reports: the first line of its standard output, then
/// of its standard error, that is not blank, trimmed.
pub fn tool_version_line(stdout: &str, stderr: &str) -> (r: Option<String>)
    ensures
        match r {
            Some(v) => first_nonblank(lines(stdout@) + lines(stderr@)) == Some(v@),
            None => first_nonblank(lines(stdout@) + lines(stderr@)) is None,
        },
{
    let oc = chars_of(stdout);
    let ec = chars_of(stderr);
    let mut all = split_lines(oc.as_slice());
    let mut more = split_lines(ec.as_slice());
    let ghost a = all@.map_values(|l: Vec<char>| l@);
    let ghost b = more@.map_values(|l: Vec<char>| l@);
    all.append(&mut more);
    let ghost ls = all@.map_values(|l: Vec<char>| l@);
    assert(ls =~= a + b);
    let n = all.len();
    for i in 0..n
        invariant
            n == all@.len(),
            ls == all@.map_values(|l: Vec<char>| l@),
            ls == lines(stdout@) + lines(stderr@),
            forall|k: int| 0 <= k < i ==> is_blank(#[trigger] ls[k]),
    {
        let t = trim_chars(all[i].as_slice());
        assert(all@[i as int]@ == ls[i as int]);
        if t.len() > 0 {
            proof {
                lemma_first_nonblank_skip(ls, i as int);
                assert(ls.skip(i as int)[0] == ls[i as int]);
            }
            return Some(string_from_chars(t.as_slice()));
        }
    }
    proof {
        lemma_first_nonblank_skip(ls, n as int);
    }
    None
}

} // verus!
