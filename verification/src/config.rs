//! Application settings: tool paths, the fixed workspace and `data.json`
//! locations, and the Cloudflare R2 credentials, with the environment overlay.
use vstd::prelude::*;

use crate::strmap::{map_of_assignments, StrMap};
use crate::text::{chars_of, has_prefix, is_blank, is_blank_str, slice_range, starts_with,
    string_from_chars, trim, trim_chars};
use crate::vtt::{lines, split_lines};

verus! {

/// The workspace folder that holds the video bundles.
pub const WORKSPACE_DIR: &'static str = "/run/media/paul/Seagate Portable Drive/flutter_desktop/";

/// Where `data.json` is edited (its repository page).
pub const DATA_JSON_SOURCE_URL: &'static str = "https://github.com/Areo-RGB/data.json/blob/main/data.json";

/// Where the raw `data.json` is downloaded from.
pub const DATA_JSON_RAW_URL: &'static str =
    "https://raw.githubusercontent.com/Areo-RGB/data.json/main/data.json";

/// Credentials and location of the R2 bucket.
#[derive(Clone, Debug, PartialEq, Eq)]
pub struct R2Config {
    pub account_id: String,
    pub bucket: String,
    pub prefix: String,
    pub public_base_url: String,
    pub access_key_id: String,
    pub secret_access_key: String,
}

/// Whether every field of `c` is empty.
pub open spec fn r2_config_is_empty(c: R2Config) -> bool {
    &&& c.account_id@.len() == 0
    &&& c.bucket@.len() == 0
    &&& c.prefix@.len() == 0
    &&& c.public_base_url@.len() == 0
    &&& c.access_key_id@.len() == 0
    &&& c.secret_access_key@.len() == 0
}

impl Default for R2Config {
    fn default() -> (c: R2Config)
        ensures
            r2_config_is_empty(c),
    {
        R2Config {
            account_id: String::new(),
            bucket: String::new(),
            prefix: String::new(),
            public_base_url: String::new(),
            access_key_id: String::new(),
            secret_access_key: String::new(),
        }
    }
}

impl R2Config {
    /// A copy of this configuration.
    pub fn copy(&self) -> (c: R2Config)
        ensures
            c == *self,
    {
        R2Config {
            account_id: self.account_id.clone(),
            bucket: self.bucket.clone(),
            prefix: self.prefix.clone(),
            public_base_url: self.public_base_url.clone(),
            access_key_id: self.access_key_id.clone(),
            secret_access_key: self.secret_access_key.clone(),
        }
    }
}

/// The application's settings.
#[derive(Clone, Debug, PartialEq, Eq)]
pub struct AppConfig {
    pub workspace_dir: String,
    pub data_json_path: String,
    pub yt_dlp_path: String,
    pub ffmpeg_path: String,
    pub r2: R2Config,
}

/// The default settings: the fixed workspace and `data.json` locations,
/// `yt-dlp` and `ffmpeg` looked up on the search path, and no R2 credentials.
pub open spec fn is_default_config(c: AppConfig) -> bool {
    &&& c.workspace_dir@ == WORKSPACE_DIR@
    &&& c.data_json_path@ == DATA_JSON_SOURCE_URL@
    &&& c.yt_dlp_path@ == "yt-dlp"@
    &&& c.ffmpeg_path@ == "ffmpeg"@
    &&& r2_config_is_empty(c.r2)
}

impl Default for AppConfig {
    fn default() -> (c: AppConfig)
        ensures
            is_default_config(c),
    {
        AppConfig {
            workspace_dir: WORKSPACE_DIR.to_owned(),
            data_json_path: DATA_JSON_SOURCE_URL.to_owned(),
            yt_dlp_path: "yt-dlp".to_owned(),
            ffmpeg_path: "ffmpeg".to_owned(),
            r2: R2Config::default(),
        }
    }
}

// ---------------------------------------------------------------------------
// The environment overlay
// ---------------------------------------------------------------------------

/// The value that the variables give a setting: the value of `key` when it
/// is set and not blank, else the setting's current value.
pub open spec fn env_setting(
    vars: Map<Seq<char>, Seq<char>>,
    key: Seq<char>,
    current: Seq<char>,
) -> Seq<char> {
    if vars.contains_key(key) && !is_blank(vars[key]) {
        vars[key]
    } else {
        current
    }
}

fn set_if_present(target: &mut String, vars: &StrMap, key: &str)
    ensures
        final(target)@ == env_setting(vars@, key@, old(target)@),
{
    if let Some(value) = vars.get(key) {
        if !is_blank_str(value.as_str()) {
            *target = value;
        }
    }
}

impl AppConfig {
    /// Takes the workspace folder, the `data.json` location, the tool paths
    /// and the R2 settings from `vars` where they are set and not blank
    /// (`VIDEO_MANAGER_WORKSPACE`, `VIDEO_MANAGER_DATA_JSON`, `YT_DLP_PATH`,
    /// `FFMPEG_PATH`, `R2_ACCOUNT_ID`, `R2_BUCKET`, `R2_PREFIX`,
    /// `R2_PUBLIC_BASE_URL`, `R2_ACCESS_KEY_ID`, `R2_SECRET_ACCESS_KEY`);
    /// every other setting stays.
    pub fn apply_env_map(&mut self, vars: &StrMap)
        ensures
            final(self).workspace_dir@ == env_setting(
                vars@,
                "VIDEO_MANAGER_WORKSPACE"@,
                old(self).workspace_dir@,
            ),
            final(self).data_json_path@ == env_setting(
                vars@,
                "VIDEO_MANAGER_DATA_JSON"@,
                old(self).data_json_path@,
            ),
            final(self).yt_dlp_path@ == env_setting(vars@, "YT_DLP_PATH"@, old(self).yt_dlp_path@),
            final(self).ffmpeg_path@ == env_setting(vars@, "FFMPEG_PATH"@, old(self).ffmpeg_path@),
            final(self).r2.account_id@ == env_setting(
                vars@,
                "R2_ACCOUNT_ID"@,
                old(self).r2.account_id@,
            ),
            final(self).r2.bucket@ == env_setting(vars@, "R2_BUCKET"@, old(self).r2.bucket@),
            final(self).r2.prefix@ == env_setting(vars@, "R2_PREFIX"@, old(self).r2.prefix@),
            final(self).r2.public_base_url@ == env_setting(
                vars@,
                "R2_PUBLIC_BASE_URL"@,
                old(self).r2.public_base_url@,
            ),
            final(self).r2.access_key_id@ == env_setting(
                vars@,
                "R2_ACCESS_KEY_ID"@,
                old(self).r2.access_key_id@,
            ),
            final(self).r2.secret_access_key@ == env_setting(
                vars@,
                "R2_SECRET_ACCESS_KEY"@,
                old(self).r2.secret_access_key@,
            ),
    {
        set_if_present(&mut self.workspace_dir, vars, "VIDEO_MANAGER_WORKSPACE");
        set_if_present(&mut self.data_json_path, vars, "VIDEO_MANAGER_DATA_JSON");
        set_if_present(&mut self.yt_dlp_path, vars, "YT_DLP_PATH");
        set_if_present(&mut self.ffmpeg_path, vars, "FFMPEG_PATH");
        set_if_present(&mut self.r2.account_id, vars, "R2_ACCOUNT_ID");
        set_if_present(&mut self.r2.bucket, vars, "R2_BUCKET");
        set_if_present(&mut self.r2.prefix, vars, "R2_PREFIX");
        set_if_present(&mut self.r2.public_base_url, vars, "R2_PUBLIC_BASE_URL");
        set_if_present(&mut self.r2.access_key_id, vars, "R2_ACCESS_KEY_ID");
        set_if_present(&mut self.r2.secret_access_key, vars, "R2_SECRET_ACCESS_KEY");
    }

    /// The settings as they are read from and written to the settings file:
    /// the workspace folder and the `data.json` location there are the
    /// application's fixed ones (the environment overlay may then set them).
    pub fn with_fixed_locations(&self) -> (c: AppConfig)
        ensures
            c.workspace_dir@ == WORKSPACE_DIR@,
            c.data_json_path@ == DATA_JSON_SOURCE_URL@,
            c.yt_dlp_path == self.yt_dlp_path,
            c.ffmpeg_path == self.ffmpeg_path,
            c.r2 == self.r2,
    {
        AppConfig {
            workspace_dir: WORKSPACE_DIR.to_owned(),
            data_json_path: DATA_JSON_SOURCE_URL.to_owned(),
            yt_dlp_path: self.yt_dlp_path.clone(),
            ffmpeg_path: self.ffmpeg_path.clone(),
            r2: self.r2.copy(),
        }
    }
}

/// Applying the environment overlay a second time changes nothing: every
/// setting the variables give is already in place.
pub proof fn law_env_overlay_idempotent(
    vars: Map<Seq<char>, Seq<char>>,
    key: Seq<char>,
    current: Seq<char>,
)
    ensures
        env_setting(vars, key, env_setting(vars, key, current)) == env_setting(vars, key, current),
{
}

/// Adds to `vars` the variables of `extra` that it does not have yet: a
/// value already there (from the process environment or an earlier `.env`
/// file) wins.
pub fn add_missing_vars(vars: &mut StrMap, extra: &StrMap)
    ensures
        final(vars)@ == extra@.union_prefer_right(old(vars)@),
{
    let entries = extra.entries();
    let ghost s = crate::strmap::pair_views(entries@);
    let ghost before = vars@;
    let n = entries.len();
    for i in 0..n
        invariant
            n == entries@.len(),
            s == crate::strmap::pair_views(entries@),
            crate::strmap::keys_increasing(s),
            crate::strmap::map_of(s) == extra@,
            vars@ == crate::strmap::map_of(s.take(i as int)).union_prefer_right(before),
    {
        let key = entries[i].0.clone();
        let value = entries[i].1.clone();
        proof {
            assert(s[i as int] == (key@, value@));
        }
        let ghost prev = vars@;
        if vars.get(key.as_str()).is_none() {
            vars.insert(key, value);
        }
        proof {
            crate::strmap::lemma_map_of_take_push(s, i as int);
            assert(vars@ =~= crate::strmap::map_of(s.take(i + 1)).union_prefer_right(before));
        }
    }
    proof {
        assert(s.take(n as int) =~= s);
    }
}

// ---------------------------------------------------------------------------
// `.env` files
// ---------------------------------------------------------------------------

/// The number of characters of `s` before the first `c` (the length of `s`
/// when there is none).
pub open spec fn first_index(s: Seq<char>, c: char) -> nat
    decreases s.len(),
{
    if s.len() == 0 || s[0] == c {
        0
    } else {
        1 + first_index(s.drop_first(), c)
    }
}

/// A quote character, as `.env` values may be wrapped in.
pub open spec fn is_quote(c: char) -> bool {
    c == '"' || c == '\''
}

/// `s` without its leading quotes.
pub open spec fn trim_quotes_start(s: Seq<char>) -> Seq<char>
    decreases s.len(),
{
    if s.len() > 0 && is_quote(s[0]) {
        trim_quotes_start(s.drop_first())
    } else {
        s
    }
}

/// `s` without its trailing quotes.
pub open spec fn trim_quotes_end(s: Seq<char>) -> Seq<char>
    decreases s.len(),
{
    if s.len() > 0 && is_quote(s.last()) {
        trim_quotes_end(s.drop_last())
    } else {
        s
    }
}

/// `s` without quotes at either end (`trim_matches` of `"` and `'`).
pub open spec fn trim_quotes(s: Seq<char>) -> Seq<char> {
    trim_quotes_end(trim_quotes_start(s))
}

/// The assignment that one line of a `.env` file makes, if any: blank
/// lines and `#` comments make none; an `export ` in front is ignored; the
/// key is the trimmed text before the first `=`, the value the trimmed text
/// after it with quotes stripped from both ends; a line without `=` makes
/// none.
pub open spec fn dotenv_line(line: Seq<char>) -> Option<(Seq<char>, Seq<char>)> {
    let t = trim(line);
    if t.len() == 0 || t[0] == '#' {
        None
    } else {
        let u = if has_prefix(t, "export "@) {
            t.skip(7)
        } else {
            t
        };
        let i = first_index(u, '=');
        if i < u.len() {
            Some((trim(u.take(i as int)), trim_quotes(trim(u.skip(i + 1 as int)))))
        } else {
            None
        }
    }
}

/// The assignments of a sequence of `.env` lines, in order.
pub open spec fn dotenv_assignments(ls: Seq<Seq<char>>) -> Seq<(Seq<char>, Seq<char>)>
    decreases ls.len(),
{
    if ls.len() == 0 {
        Seq::empty()
    } else {
        let rest = dotenv_assignments(ls.drop_last());
        match dotenv_line(ls.last()) {
            Some(a) => rest.push(a),
            None => rest,
        }
    }
}

/// The variables that a `.env` file sets: its assignments in order, a
/// later one replacing an earlier one of the same key.
pub open spec fn spec_parse_dotenv(raw: Seq<char>) -> Map<Seq<char>, Seq<char>> {
    map_of_assignments(dotenv_assignments(lines(raw)))
}

proof fn lemma_first_index_skip(s: Seq<char>, c: char, i: int)
    requires
        0 <= i <= s.len(),
        forall|k: int| 0 <= k < i ==> #[trigger] s[k] != c,
    ensures
        first_index(s, c) == i + first_index(s.subrange(i, s.len() as int), c),
    decreases i,
{
    if i > 0 {
        assert(s.drop_first().subrange(i - 1, s.drop_first().len() as int) =~= s.subrange(
            i,
            s.len() as int,
        ));
        lemma_first_index_skip(s.drop_first(), c, i - 1);
    } else {
        assert(s.subrange(0, s.len() as int) =~= s);
    }
}

fn find_char(v: &[char], c: char) -> (r: usize)
    ensures
        r == first_index(v@, c),
        r <= v@.len(),
{
    let n = v.len();
    let mut i: usize = 0;
    while i < n && v[i] != c
        invariant
            i <= n,
            n == v@.len(),
            forall|k: int| 0 <= k < i ==> #[trigger] v@[k] != c,
        decreases n - i,
    {
        i = i + 1;
    }
    proof {
        lemma_first_index_skip(v@, c, i as int);
        let rest = v@.subrange(i as int, n as int);
        if rest.len() > 0 {
            assert(rest[0] == v@[i as int]);
        }
    }
    i
}

proof fn lemma_quotes_start_skip(s: Seq<char>, i: int)
    requires
        0 <= i <= s.len(),
        forall|k: int| 0 <= k < i ==> is_quote(#[trigger] s[k]),
    ensures
        trim_quotes_start(s) == trim_quotes_start(s.subrange(i, s.len() as int)),
    decreases i,
{
    if i > 0 {
        assert(s.drop_first().subrange(i - 1, s.drop_first().len() as int) =~= s.subrange(
            i,
            s.len() as int,
        ));
        lemma_quotes_start_skip(s.drop_first(), i - 1);
    } else {
        assert(s.subrange(0, s.len() as int) =~= s);
    }
}

proof fn lemma_quotes_end_cut(s: Seq<char>, j: int)
    requires
        0 <= j <= s.len(),
        forall|k: int| j <= k < s.len() ==> is_quote(#[trigger] s[k]),
    ensures
        trim_quotes_end(s) == trim_quotes_end(s.subrange(0, j)),
    decreases s.len() - j,
{
    if j < s.len() {
        assert(s.drop_last().subrange(0, j) =~= s.subrange(0, j));
        lemma_quotes_end_cut(s.drop_last(), j);
    } else {
        assert(s.subrange(0, j) =~= s);
    }
}

fn trim_quote_chars(v: &[char]) -> (r: Vec<char>)
    ensures
        r@ == trim_quotes(v@),
{
    let n = v.len();
    let mut i: usize = 0;
    while i < n && (v[i] == '"' || v[i] == '\'')
        invariant
            i <= n,
            n == v@.len(),
            forall|k: int| 0 <= k < i ==> is_quote(#[trigger] v@[k]),
        decreases n - i,
    {
        i = i + 1;
    }
    proof {
        lemma_quotes_start_skip(v@, i as int);
    }
    let ghost rest = v@.subrange(i as int, n as int);
    assert(trim_quotes_start(rest) == rest) by {
        if rest.len() > 0 {
            assert(rest[0] == v@[i as int]);
        }
    }
    let mut j: usize = n;
    while j > i && (v[j - 1] == '"' || v[j - 1] == '\'')
        invariant
            i <= j <= n,
            n == v@.len(),
            rest == v@.subrange(i as int, n as int),
            forall|k: int| j - i <= k < rest.len() ==> is_quote(#[trigger] rest[k]),
        decreases j,
    {
        j = j - 1;
    }
    proof {
        lemma_quotes_end_cut(rest, j - i);
        let cut = rest.subrange(0, j - i);
        assert(cut =~= v@.subrange(i as int, j as int));
        if cut.len() > 0 {
            assert(cut.last() == v@[j - 1]);
        }
    }
    slice_range(v, i, j)
}

fn parse_dotenv_line(line: &[char]) -> (r: Option<(String, String)>)
    ensures
        match r {
            Some(kv) => dotenv_line(line@) == Some((kv.0@, kv.1@)),
            None => dotenv_line(line@) is None,
        },
{
    let t = trim_chars(line);
    if t.len() == 0 || t[0] == '#' {
        return None;
    }
    let export_chars = chars_of("export ");
    proof {
        reveal_strlit("export ");
    }
    let u = if starts_with(t.as_slice(), export_chars.as_slice()) {
        slice_range(t.as_slice(), 7, t.len())
    } else {
        t
    };
    proof {
        if has_prefix(t@, "export "@) {
            assert(u@ =~= t@.skip(7));
        }
    }
    let i = find_char(u.as_slice(), '=');
    if i >= u.len() {
        return None;
    }
    let key_part = slice_range(u.as_slice(), 0, i);
    let value_part = slice_range(u.as_slice(), i + 1, u.len());
    assert(key_part@ =~= u@.take(i as int));
    assert(value_part@ =~= u@.skip(i + 1));
    let key = trim_chars(key_part.as_slice());
    let value_trimmed = trim_chars(value_part.as_slice());
    let value = trim_quote_chars(value_trimmed.as_slice());
    Some((string_from_chars(key.as_slice()), string_from_chars(value.as_slice())))
}

/// The variables that the `.env` text `raw` sets.
pub fn parse_dotenv(raw: &str) -> (m: StrMap)
    ensures
        m@ == spec_parse_dotenv(raw@),
{
    let chars = chars_of(raw);
    let ls = split_lines(chars.as_slice());
    let ghost views = ls@.map_values(|l: Vec<char>| l@);
    let mut m = StrMap::new();
    let n = ls.len();
    for i in 0..n
        invariant
            n == ls@.len(),
            views == ls@.map_values(|l: Vec<char>| l@),
            views == lines(raw@),
            m@ == map_of_assignments(dotenv_assignments(views.take(i as int))),
    {
        proof {
            assert(views.take(i + 1).drop_last() =~= views.take(i as int));
            assert(views.take(i + 1).last() == ls@[i as int]@);
        }
        match parse_dotenv_line(ls[i].as_slice()) {
            Some(kv) => {
                let ghost a = (kv.0@, kv.1@);
                m.insert(kv.0, kv.1);
                proof {
                    let prev = dotenv_assignments(views.take(i as int));
                    assert(dotenv_assignments(views.take(i + 1)) == prev.push(a));
                    assert(prev.push(a).drop_last() =~= prev);
                }
            },
            None => {},
        }
    }
    proof {
        assert(views.take(n as int) =~= views);
    }
    m
}

} // verus!
