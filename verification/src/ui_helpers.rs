//! Small decisions of the user interface: how a local file is linked from
//! the player, which bundles a filter shows, and the log kept on screen.
use vstd::prelude::*;
use vstd::utf8::encode_utf8;

use crate::config::{AppConfig, R2Config};
use crate::paths::{lemma_split_on_nonempty, split_chars, split_on};
use crate::local::{forward_slashes, replace_char_in};
use crate::r2::{hex_upper, hex_upper_char, is_unreserved, lemma_map_flatten_step};
use crate::text::{ascii_lower_chars, chars_of, contains_chars, contains_seq, extend_chars,
    extend_with_str, has_prefix, has_suffix, is_blank, is_blank_str, lower, matches_at,
    starts_with, string_from_chars, trim, trim_chars};

verus! {

/// How the local bundle view is laid out: three panes side by side when the
/// window is wide enough, else one compact column.
#[derive(Clone, Copy, Debug, PartialEq, Eq, Structural)]
pub enum LocalLayoutMode {
    ThreePane,
    Compact,
}

/// A byte that stays as it is in a `file://` path: ASCII letters and
/// digits, and `/ : - _ . ~`.
pub open spec fn is_path_safe(b: u8) -> bool {
    is_unreserved(b) || b == 47 || b == 58
}

/// One byte of a path, percent-encoded: safe bytes stand for themselves,
/// every other byte becomes `%` and two upper-case hexadecimal digits.
pub open spec fn encode_path_byte(b: u8) -> Seq<char> {
    if is_path_safe(b) {
        seq![b as char]
    } else {
        seq!['%', hex_upper((b / 16) as nat), hex_upper((b % 16) as nat)]
    }
}

/// The percent-encoding of the UTF-8 bytes of a path.
pub open spec fn spec_percent_encode_path(s: Seq<char>) -> Seq<char> {
    encode_utf8(s).map_values(|b: u8| encode_path_byte(b)).flatten()
}

fn percent_encode_path_into(out: &mut Vec<char>, path: &[char], text: &str)
    requires
        text@ == path@,
    ensures
        final(out)@ == old(out)@ + spec_percent_encode_path(path@),
{
    let bytes = text.as_bytes();
    let ghost f = |b: u8| encode_path_byte(b);
    let n = bytes.len();
    for i in 0..n
        invariant
            n == bytes@.len(),
            bytes@ == encode_utf8(path@),
            f == (|b: u8| encode_path_byte(b)),
            out@ == old(out)@ + bytes@.take(i as int).map_values(f).flatten(),
    {
        let b = bytes[i];
        let ghost before = out@;
        if (65 <= b && b <= 90) || (97 <= b && b <= 122) || (48 <= b && b <= 57) || b == 45 || b
            == 95 || b == 46 || b == 126 || b == 47 || b == 58 {
            out.push(b as char);
            assert(out@ =~= before + encode_path_byte(b));
        } else {
            out.push('%');
            out.push(hex_upper_char(b / 16));
            out.push(hex_upper_char(b % 16));
            assert(out@ =~= before + encode_path_byte(b));
        }
        proof {
            lemma_map_flatten_step(bytes@, f, i as int);
        }
        assert(out@ =~= old(out)@ + bytes@.take(i + 1).map_values(f).flatten());
    }
    assert(bytes@.take(n as int) =~= bytes@);
}

/// The link to a local file: a path that is already an `http://` or
/// `https://` address is kept (with `\` turned into `/`); any other path
/// becomes a `file://` URI of the absolute path, percent-encoded.
pub open spec fn spec_local_file_uri(path: Seq<char>) -> Seq<char> {
    let raw = forward_slashes(path);
    if has_prefix(raw, "http://"@) || has_prefix(raw, "https://"@) {
        raw
    } else {
        let normalized = if raw.len() > 0 && raw[0] == '/' {
            raw
        } else {
            seq!['/'] + raw
        };
        "file://"@ + spec_percent_encode_path(normalized)
    }
}

/// The link under which the player opens the local file `path`.
pub fn local_file_uri(path: &str) -> (r: String)
    ensures
        r@ == spec_local_file_uri(path@),
{
    let pc = chars_of(path);
    let raw = replace_char_in(pc.as_slice(), '\\', '/');
    let http = chars_of("http://");
    let https = chars_of("https://");
    if starts_with(raw.as_slice(), http.as_slice()) || starts_with(
        raw.as_slice(),
        https.as_slice(),
    ) {
        return string_from_chars(raw.as_slice());
    }
    let mut normalized: Vec<char> = Vec::new();
    if raw.len() == 0 || raw[0] != '/' {
        normalized.push('/');
    }
    extend_chars(&mut normalized, raw.as_slice());
    assert(normalized@ == (if raw@.len() > 0 && raw@[0] == '/' {
        raw@
    } else {
        seq!['/'] + raw@
    }));
    let text = string_from_chars(normalized.as_slice());
    let mut out: Vec<char> = Vec::new();
    extend_with_str(&mut out, "file://");
    percent_encode_path_into(&mut out, normalized.as_slice(), text.as_str());
    string_from_chars(out.as_slice())
}

/// Whether a bundle with the texts `primary` and `secondary` passes the
/// filter `query`: a blank query passes everything; otherwise the trimmed
/// query must occur in one of the two texts, ignoring ASCII case.
pub open spec fn spec_matches_local_filter(
    primary: Seq<char>,
    secondary: Seq<char>,
    query: Seq<char>,
) -> bool {
    let q = lower(trim(query));
    q.len() == 0 || contains_seq(lower(primary), q) || contains_seq(lower(secondary), q)
}

/// Whether a bundle with the texts `primary` and `secondary` passes the
/// filter `query`.
pub fn matches_local_filter(primary: &str, secondary: &str, query: &str) -> (r: bool)
    ensures
        r == spec_matches_local_filter(primary@, secondary@, query@),
{
    let qc = chars_of(query);
    let qt = trim_chars(qc.as_slice());
    let q = ascii_lower_chars(qt.as_slice());
    if q.len() == 0 {
        return true;
    }
    let pc = chars_of(primary);
    let pl = ascii_lower_chars(pc.as_slice());
    if contains_chars(pl.as_slice(), q.as_slice()) {
        return true;
    }
    let sc = chars_of(secondary);
    let sl = ascii_lower_chars(sc.as_slice());
    contains_chars(sl.as_slice(), q.as_slice())
}

// ---------------------------------------------------------------------------
// Tabs
// ---------------------------------------------------------------------------

/// The tabs of the main window.
#[derive(Clone, Copy, Debug, PartialEq, Eq, Structural)]
pub enum Tab {
    Youtube,
    Local,
    R2,
    Data,
    Settings,
    Log,
}

/// The caption of a tab.
pub open spec fn tab_label(t: Tab) -> Seq<char> {
    match t {
        Tab::Youtube => "YouTube"@,
        Tab::Local => "Local Files"@,
        Tab::R2 => "R2"@,
        Tab::Data => "Data JSON"@,
        Tab::Settings => "Settings"@,
        Tab::Log => "Log"@,
    }
}

impl Default for Tab {
    /// The window opens on the YouTube tab.
    fn default() -> (t: Tab)
        ensures
            t == Tab::Youtube,
    {
        Tab::Youtube
    }
}

impl Tab {
    /// The caption of this tab.
    pub fn label(self) -> (r: &'static str)
        ensures
            r@ == tab_label(self),
    {
        match self {
            Tab::Youtube => "YouTube",
            Tab::Local => "Local Files",
            Tab::R2 => "R2",
            Tab::Data => "Data JSON",
            Tab::Settings => "Settings",
            Tab::Log => "Log",
        }
    }

    /// Every tab, in the order the navigation shows them.
    pub fn all() -> (r: [Tab; 6])
        ensures
            r@ == seq![Tab::Youtube, Tab::Local, Tab::R2, Tab::Data, Tab::Settings, Tab::Log],
    {
        let r = [Tab::Youtube, Tab::Local, Tab::R2, Tab::Data, Tab::Settings, Tab::Log];
        assert(r@ =~= seq![Tab::Youtube, Tab::Local, Tab::R2, Tab::Data, Tab::Settings, Tab::Log]);
        r
    }
}

// ---------------------------------------------------------------------------
// The log
// ---------------------------------------------------------------------------

/// How many messages the log keeps.
pub const LOG_LIMIT: usize = 500;

/// The log after `message` is added: the newest `LOG_LIMIT` messages.
pub open spec fn spec_push_log(logs: Seq<String>, message: String) -> Seq<String> {
    let all = logs.push(message);
    if all.len() > LOG_LIMIT {
        all.skip(all.len() - LOG_LIMIT)
    } else {
        all
    }
}

/// Adds `message` to the log, dropping the oldest messages beyond `LOG_LIMIT`.
pub fn push_log(logs: &mut Vec<String>, message: String)
    ensures
        final(logs)@ == spec_push_log(old(logs)@, message),
{
    let ghost all = old(logs)@.push(message);
    logs.push(message);
    let ghost mut dropped: int = 0;
    while logs.len() > LOG_LIMIT
        invariant
            0 <= dropped <= all.len(),
            logs@ == all.skip(dropped),
            dropped > 0 ==> logs@.len() >= LOG_LIMIT,
        decreases logs@.len(),
    {
        logs.remove(0);
        proof {
            assert(all.skip(dropped).drop_first() =~= all.skip(dropped + 1));
            dropped = dropped + 1;
        }
    }
    proof {
        if all.len() > LOG_LIMIT {
            assert(dropped == all.len() - LOG_LIMIT);
        } else {
            assert(dropped == 0);
            assert(all.skip(0) =~= all);
        }
    }
}

// ---------------------------------------------------------------------------
// Settings form
// ---------------------------------------------------------------------------

/// Whether the R2 configuration has been started: one of the account id,
/// bucket or keys is filled in.
pub open spec fn r2_started(c: R2Config) -> bool {
    ||| !is_blank(c.account_id@)
    ||| !is_blank(c.bucket@)
    ||| !is_blank(c.access_key_id@)
    ||| !is_blank(c.secret_access_key@)
}

/// The fields of the settings form that are checked: both tool paths must be
/// filled in; once the R2 configuration is started its account id, bucket and
/// keys must be too; a public base URL that is not blank must be a URL.
pub struct SettingsValidation {
    pub yt_dlp_path: String,
    pub ffmpeg_path: String,
    pub r2_active: bool,
    pub r2_account_id: String,
    pub r2_bucket: String,
    pub r2_access_key_id: String,
    pub r2_secret_access_key: String,
    pub r2_public_base_url: String,
}

impl SettingsValidation {
    /// The fields to check of the settings `config`.
    pub fn from_config(config: &AppConfig) -> (v: SettingsValidation)
        ensures
            v.yt_dlp_path == config.yt_dlp_path,
            v.ffmpeg_path == config.ffmpeg_path,
            v.r2_active == r2_started(config.r2),
            v.r2_account_id == config.r2.account_id,
            v.r2_bucket == config.r2.bucket,
            v.r2_access_key_id == config.r2.access_key_id,
            v.r2_secret_access_key == config.r2.secret_access_key,
            v.r2_public_base_url == config.r2.public_base_url,
    {
        let r2 = &config.r2;
        let r2_active = !is_blank_str(r2.account_id.as_str()) || !is_blank_str(r2.bucket.as_str())
            || !is_blank_str(r2.access_key_id.as_str()) || !is_blank_str(
            r2.secret_access_key.as_str(),
        );
        SettingsValidation {
            yt_dlp_path: config.yt_dlp_path.clone(),
            ffmpeg_path: config.ffmpeg_path.clone(),
            r2_active,
            r2_account_id: r2.account_id.clone(),
            r2_bucket: r2.bucket.clone(),
            r2_access_key_id: r2.access_key_id.clone(),
            r2_secret_access_key: r2.secret_access_key.clone(),
            r2_public_base_url: r2.public_base_url.clone(),
        }
    }
}

/// The log never holds more than `LOG_LIMIT` messages, and the newest
/// message is always the last one kept.
pub proof fn law_log_bounded(logs: Seq<String>, message: String)
    ensures
        spec_push_log(logs, message).len() <= LOG_LIMIT,
        spec_push_log(logs, message).last() == message,
{
}

// ---------------------------------------------------------------------------
// Bucket objects as chapters
// ---------------------------------------------------------------------------

/// `s` without the copies of `pat` at its end (`trim_end_matches(pat)`).
pub open spec fn strip_trailing_str(s: Seq<char>, pat: Seq<char>) -> Seq<char>
    decreases s.len(),
{
    if pat.len() > 0 && has_suffix(s, pat) {
        strip_trailing_str(s.take(s.len() - pat.len()), pat)
    } else {
        s
    }
}

/// The chapter name suggested for a bucket object: the last segment of its
/// key, without `.mp4` at its end, with `_` and `-` turned into spaces.
pub open spec fn spec_clip_name_from_key(key: Seq<char>) -> Seq<char> {
    strip_trailing_str(split_on(key, '/').last(), ".mp4"@).map_values(
        |c: char|
            if c == '_' || c == '-' {
                ' '
            } else {
                c
            },
    )
}

/// The chapter name suggested for the bucket object `key`.
pub fn clip_name_from_key(key: &str) -> (r: String)
    ensures
        r@ == spec_clip_name_from_key(key@),
{
    let kc = chars_of(key);
    let pieces = split_chars(kc.as_slice(), '/');
    proof {
        lemma_split_on_nonempty(key@, '/');
    }
    let last = &pieces[pieces.len() - 1];
    assert(last@ == split_on(key@, '/').last());
    let suffix = chars_of(".mp4");
    proof {
        reveal_strlit(".mp4");
    }
    let mut end = last.len();
    assert(last@.take(end as int) =~= last@);
    while end >= 4 && matches_at(last.as_slice(), suffix.as_slice(), end - 4)
        invariant
            end <= last@.len(),
            suffix@ == ".mp4"@,
            suffix@.len() == 4,
            strip_trailing_str(last@, ".mp4"@) == strip_trailing_str(last@.take(end as int), ".mp4"@),
        decreases end,
    {
        let ghost t = last@.take(end as int);
        assert(t.subrange(t.len() - 4, t.len() as int) =~= last@.subrange(end - 4, end as int));
        assert(t.take(t.len() - 4) =~= last@.take(end - 4));
        end = end - 4;
    }
    let ghost t = last@.take(end as int);
    assert(!has_suffix(t, ".mp4"@)) by {
        if has_suffix(t, ".mp4"@) {
            assert(t.subrange(t.len() - 4, t.len() as int) =~= last@.subrange(end - 4, end as int));
        }
    }
    let mut out: Vec<char> = Vec::new();
    for i in 0..end
        invariant
            end <= last@.len(),
            t == last@.take(end as int),
            out@ == t.take(i as int).map_values(
                |c: char|
                    if c == '_' || c == '-' {
                        ' '
                    } else {
                        c
                    },
            ),
    {
        let c = last[i];
        let d = if c == '_' || c == '-' {
            ' '
        } else {
            c
        };
        out.push(d);
        assert(out@ =~= t.take(i + 1).map_values(
            |c: char|
                if c == '_' || c == '-' {
                    ' '
                } else {
                    c
                },
        ));
    }
    assert(t.take(end as int) =~= t);
    string_from_chars(out.as_slice())
}

} // verus!
