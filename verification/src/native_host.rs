//! The decisions of the browser native-messaging host: when the program was
//! started by a browser, which extensions may talk to it, which action a
//! request asks for, and how a chapter clip is named and downloaded.
use vstd::prelude::*;

use crate::config::AppConfig;
use crate::data_json::{chapter_view, ChapterView};
use crate::local::{replace_char, replace_char_in};
use crate::model::{BundleInfo, Chapter, ChapterFile};
use crate::paths::{join, spec_join};
use crate::strmap::{has_key, lemma_map_of_entry, pair_views, StrMap};
use crate::text::{chars_of, decimal, decimal_chars, decimal_padded, decimal_padded_chars,
    extend_chars, extend_with_str, has_prefix, is_blank, is_blank_str, lemma_seq_lt_asymmetric,
    lemma_seq_lt_irreflexive, seq_lt, starts_with, string_from_chars, strip_trailing,
    strip_trailing_chars, trim, trim_chars};
use crate::youtube::{chapter_display_name, chapter_name, ffmpeg_location_args, push_str,
    sanitize_filename, spec_sanitize_filename, string_views, video_watch_url, watch_url};

verus! {

broadcast use {
    vstd::std_specs::hash::axiom_u64_obeys_hash_table_key_model,
    vstd::std_specs::hash::axiom_random_state_builds_valid_hashers,
};

/// The name under which the host is registered with the browsers.
pub const HOST_NAME: &'static str = "com.fluent_desktop.youtube_clipper";

/// The id of the Chapter Clipper extension, which is always allowed.
pub const KNOWN_EXTENSION_ID: &'static str = "elbdfelfkbnnjojpaoiongmepoohjooi";

/// The description written into the host's manifest.
pub const HOST_DESCRIPTION: &'static str =
    "Video Manager YouTube Chapter Clipper Native Messaging Host";

/// The environment variable that lists further extension ids to allow.
pub const EXTRA_EXTENSION_IDS_ENV: &'static str = "VIDEO_MANAGER_NATIVE_EXTENSION_IDS";

/// The browsers the host registers with.
pub open spec fn spec_chromium_browsers() -> Seq<Seq<char>> {
    seq!["chrome"@, "chromium"@, "edge"@, "brave"@, "vivaldi"@]
}

/// The browsers the host registers with, in order.
pub fn chromium_browsers() -> (r: Vec<String>)
    ensures
        string_views(r@) == spec_chromium_browsers(),
{
    let mut r: Vec<String> = Vec::new();
    r.push("chrome".to_owned());
    r.push("chromium".to_owned());
    r.push("edge".to_owned());
    r.push("brave".to_owned());
    r.push("vivaldi".to_owned());
    assert(string_views(r@) =~= spec_chromium_browsers());
    r
}

// ---------------------------------------------------------------------------
// Registration report
// ---------------------------------------------------------------------------

/// What registering the host did: the browsers it was installed for, the
/// errors of the others, and the extension origins it allows.
#[derive(Clone, Debug, PartialEq, Eq)]
pub struct RegistrationReport {
    pub installed_browsers: Vec<String>,
    pub errors: Vec<String>,
    pub allowed_origins: Vec<String>,
}

impl Default for RegistrationReport {
    fn default() -> (r: RegistrationReport)
        ensures
            r.installed_browsers@.len() == 0,
            r.errors@.len() == 0,
            r.allowed_origins@.len() == 0,
    {
        RegistrationReport {
            installed_browsers: Vec::new(),
            errors: Vec::new(),
            allowed_origins: Vec::new(),
        }
    }
}

/// The report line of a browser whose installation failed.
pub open spec fn install_error_line(browser: Seq<char>, error: Seq<char>) -> Seq<char> {
    browser + ": "@ + error
}

impl RegistrationReport {
    /// A report that allows `allowed_origins` and has installed nothing yet.
    pub fn with_origins(allowed_origins: Vec<String>) -> (r: RegistrationReport)
        ensures
            r.installed_browsers@.len() == 0,
            r.errors@.len() == 0,
            r.allowed_origins@ == allowed_origins@,
    {
        RegistrationReport { installed_browsers: Vec::new(), errors: Vec::new(), allowed_origins }
    }

    /// A report of a registration that failed before any browser was tried.
    pub fn failed(error: String) -> (r: RegistrationReport)
        ensures
            r.installed_browsers@.len() == 0,
            string_views(r.errors@) == seq![error@],
            r.allowed_origins@.len() == 0,
    {
        let mut errors: Vec<String> = Vec::new();
        errors.push(error);
        assert(string_views(errors@) =~= seq![error@]);
        RegistrationReport { installed_browsers: Vec::new(), errors, allowed_origins: Vec::new() }
    }

    /// Records the outcome of installing the host for `browser`: the browser
    /// joins the installed ones, or `browser: error` joins the errors.
    pub fn record_install(&mut self, browser: &str, error: Option<String>)
        ensures
            final(self).allowed_origins == old(self).allowed_origins,
            error is None ==> string_views(final(self).installed_browsers@) == string_views(
                old(self).installed_browsers@,
            ).push(browser@) && final(self).errors == old(self).errors,
            error matches Some(e) ==> string_views(final(self).errors@) == string_views(
                old(self).errors@,
            ).push(install_error_line(browser@, e@)) && final(self).installed_browsers == old(
                self,
            ).installed_browsers,
    {
        match error {
            None => {
                let ghost before = self.installed_browsers@;
                self.installed_browsers.push(browser.to_owned());
                assert(string_views(self.installed_browsers@) =~= string_views(before).push(
                    browser@,
                ));
            },
            Some(e) => {
                let ghost before = self.errors@;
                let mut line = browser.to_owned();
                line.append(": ");
                line.append(e.as_str());
                self.errors.push(line);
                assert(string_views(self.errors@) =~= string_views(before).push(
                    install_error_line(browser@, e@),
                ));
            },
        }
    }
}

// ---------------------------------------------------------------------------
// How the program was started
// ---------------------------------------------------------------------------

/// An argument that a browser passes when it starts a native host: the
/// host flag, or the origin of the calling extension.
pub open spec fn is_host_arg(a: Seq<char>) -> bool {
    ||| a == "--native-messaging-host"@
    ||| has_prefix(a, "chrome-extension://"@)
    ||| has_prefix(a, "extension://"@)
}

fn chars_equal(a: &[char], b: &[char]) -> (r: bool)
    ensures
        r == (a@ == b@),
{
    if a.len() != b.len() {
        return false;
    }
    let r = starts_with(a, b);
    assert(a@.subrange(0, b@.len() as int) =~= a@);
    r
}

/// Whether a browser started the program as its native host: some argument
/// after the program's own name is the host flag or an extension origin.
/// The arguments are those that are valid Unicode.
pub fn is_native_host_launch(args: &[String]) -> (r: bool)
    ensures
        r == exists|i: int| 1 <= i < args@.len() && is_host_arg(#[trigger] args@[i]@),
{
    let flag = chars_of("--native-messaging-host");
    let chrome = chars_of("chrome-extension://");
    let ext = chars_of("extension://");
    let n = args.len();
    if n == 0 {
        return false;
    }
    for i in 1..n
        invariant
            n == args@.len(),
            flag@ == "--native-messaging-host"@,
            chrome@ == "chrome-extension://"@,
            ext@ == "extension://"@,
            forall|j: int| 1 <= j < i ==> !is_host_arg(#[trigger] args@[j]@),
    {
        let a = chars_of(args[i].as_str());
        if chars_equal(a.as_slice(), flag.as_slice()) || starts_with(
            a.as_slice(),
            chrome.as_slice(),
        ) || starts_with(a.as_slice(), ext.as_slice()) {
            assert(is_host_arg(args@[i as int]@));
            return true;
        }
    }
    false
}

// ---------------------------------------------------------------------------
// Extension ids and origins
// ---------------------------------------------------------------------------

/// A Chromium extension id: 32 letters from `a` to `p`.
pub open spec fn is_valid_extension_id(id: Seq<char>) -> bool {
    id.len() == 32 && forall|i: int| 0 <= i < id.len() ==> 'a' <= #[trigger] id[i] <= 'p'
}

/// Whether `id` is a Chromium extension id.
pub fn valid_extension_id(id: &str) -> (r: bool)
    ensures
        r == is_valid_extension_id(id@),
{
    let v = chars_of(id);
    if v.len() != 32 {
        return false;
    }
    for i in 0..32
        invariant
            v@ == id@,
            v@.len() == 32,
            forall|j: int| 0 <= j < i ==> 'a' <= #[trigger] v@[j] <= 'p',
    {
        if v[i] < 'a' || v[i] > 'p' {
            return false;
        }
    }
    true
}

/// Whether the text sequence `s` strictly increases.
pub open spec fn increasing(s: Seq<Seq<char>>) -> bool {
    forall|i: int, j: int| 0 <= i < j < s.len() ==> seq_lt(#[trigger] s[i], #[trigger] s[j])
}

/// The valid extension ids among `ids`.
pub open spec fn valid_id_set(ids: Seq<Seq<char>>) -> Set<Seq<char>> {
    Set::new(|x: Seq<char>| ids.contains(x) && is_valid_extension_id(x))
}

/// Whether `s` lists the valid ids of `ids`, each once, in increasing order.
pub open spec fn lists_valid_ids(s: Seq<Seq<char>>, ids: Seq<Seq<char>>) -> bool {
    &&& increasing(s)
    &&& forall|x: Seq<char>|
        #![trigger s.contains(x)]
        #![trigger valid_id_set(ids).contains(x)]
        s.contains(x) <==> valid_id_set(ids).contains(x)
}

/// The valid ids of `ids`, each once, in increasing order (as a `BTreeSet`
/// of strings iterates them).
pub open spec fn sorted_valid_ids(ids: Seq<Seq<char>>) -> Seq<Seq<char>> {
    choose|s: Seq<Seq<char>>| lists_valid_ids(s, ids)
}

/// Two increasing sequences with the same elements are equal.
pub proof fn lemma_increasing_unique(a: Seq<Seq<char>>, b: Seq<Seq<char>>)
    requires
        increasing(a),
        increasing(b),
        forall|x: Seq<char>|
            #![trigger a.contains(x)]
            #![trigger b.contains(x)]
            a.contains(x) <==> b.contains(x),
    ensures
        a == b,
    decreases a.len(),
{
    if a.len() == 0 {
        if b.len() > 0 {
            assert(b.contains(b[0]));
            assert(a.contains(b[0]));
        }
        assert(a =~= b);
    } else {
        assert(a.contains(a[0]));
        assert(b.contains(a[0]));
        assert(b.len() > 0);
        assert(b.contains(b[0]));
        assert(a.contains(b[0]));
        if a[0] != b[0] {
            let ia = choose|i: int| 0 <= i < a.len() && a[i] == b[0];
            let ib = choose|i: int| 0 <= i < b.len() && b[i] == a[0];
            assert(ia > 0 && ib > 0);
            assert(seq_lt(a[0], a[ia]));
            assert(seq_lt(b[0], b[ib]));
            lemma_seq_lt_asymmetric(a[0], b[0]);
        }
        let a1 = a.drop_first();
        let b1 = b.drop_first();
        assert forall|x: Seq<char>|
            #![trigger a1.contains(x)]
            #![trigger b1.contains(x)]
            a1.contains(x) <==> b1.contains(x) by {
            if a1.contains(x) {
                let i = choose|i: int| 0 <= i < a1.len() && a1[i] == x;
                assert(a[i + 1] == x);
                assert(a.contains(x));
                assert(b.contains(x));
                assert(seq_lt(a[0], a[i + 1]));
                let j = choose|j: int| 0 <= j < b.len() && b[j] == x;
                if j == 0 {
                    lemma_seq_lt_irreflexive(x);
                }
                assert(b1[j - 1] == x);
            }
            if b1.contains(x) {
                let i = choose|i: int| 0 <= i < b1.len() && b1[i] == x;
                assert(b[i + 1] == x);
                assert(b.contains(x));
                assert(a.contains(x));
                assert(seq_lt(b[0], b[i + 1]));
                let j = choose|j: int| 0 <= j < a.len() && a[j] == x;
                if j == 0 {
                    lemma_seq_lt_irreflexive(x);
                }
                assert(a1[j - 1] == x);
            }
        }
        lemma_increasing_unique(a1, b1);
        assert(a.len() == b.len());
        assert forall|i: int| 0 <= i < a.len() implies a[i] == b[i] by {
            if i > 0 {
                assert(a[i] == a1[i - 1]);
                assert(b[i] == b1[i - 1]);
            }
        }
        assert(a =~= b);
    }
}

/// The valid extension ids of `ids`, each once, in increasing order.
pub fn valid_ids_sorted(ids: &Vec<String>) -> (r: Vec<String>)
    ensures
        string_views(r@) == sorted_valid_ids(string_views(ids@)),
        lists_valid_ids(string_views(r@), string_views(ids@)),
{
    let ghost views = string_views(ids@);
    let mut m = StrMap::new();
    let n = ids.len();
    for i in 0..n
        invariant
            n == ids@.len(),
            views == string_views(ids@),
            forall|x: Seq<char>| #[trigger] m@.contains_key(x) <==> (views.take(i as int).contains(
                x,
            ) && is_valid_extension_id(x)),
    {
        let ghost before = m@;
        if valid_extension_id(ids[i].as_str()) {
            m.insert(ids[i].clone(), String::new());
        }
        assert forall|x: Seq<char>| #[trigger] m@.contains_key(x) <==> (views.take(
            i + 1,
        ).contains(x) && is_valid_extension_id(x)) by {
            assert(views.take(i + 1)[i as int] == ids@[i as int]@);
            if views.take(i as int).contains(x) {
                let k = choose|k: int| 0 <= k < i && views.take(i as int)[k] == x;
                assert(views.take(i + 1)[k] == x);
            }
            let t = views.take(i + 1);
            if t.contains(x) {
                let k = choose|k: int| 0 <= k < t.len() && #[trigger] t[k] == x;
                if k < i {
                    assert(views.take(i as int)[k] == x);
                }
            }
        }
    }
    assert(views.take(n as int) =~= views);
    let entries = m.entries();
    let ghost s = pair_views(entries@);
    let mut r: Vec<String> = Vec::new();
    let k = entries.len();
    for i in 0..k
        invariant
            k == entries@.len(),
            s == pair_views(entries@),
            string_views(r@) == s.take(i as int).map_values(|e: (Seq<char>, Seq<char>)| e.0),
    {
        let ghost before = string_views(r@);
        let key = entries[i].0.clone();
        assert(key@ == s[i as int].0);
        r.push(key);
        assert(string_views(r@) =~= before.push(key@));
        assert(s.take(i + 1).map_values(|e: (Seq<char>, Seq<char>)| e.0) =~= s.take(
            i as int,
        ).map_values(|e: (Seq<char>, Seq<char>)| e.0).push(s[i as int].0));
    }
    let ghost keys = s.map_values(|e: (Seq<char>, Seq<char>)| e.0);
    assert(s.take(k as int) =~= s);
    proof {
        assert(increasing(keys));
        assert forall|x: Seq<char>| keys.contains(x) <==> #[trigger] valid_id_set(
            views,
        ).contains(x) by {
            if keys.contains(x) {
                let j = choose|j: int| 0 <= j < keys.len() && keys[j] == x;
                lemma_map_of_entry(s, j);
            }
            if valid_id_set(views).contains(x) {
                assert(m@.contains_key(x));
                assert(has_key(s, x));
                let j = choose|j: int| 0 <= j < s.len() && #[trigger] s[j].0 == x;
                assert(keys[j] == x);
            }
        }
        assert(lists_valid_ids(keys, views));
        let c = sorted_valid_ids(views);
        assert(lists_valid_ids(c, views));
        assert forall|x: Seq<char>|
            #![trigger keys.contains(x)]
            #![trigger c.contains(x)]
            keys.contains(x) <==> c.contains(x) by {
            assert(keys.contains(x) <==> valid_id_set(views).contains(x));
        }
        lemma_increasing_unique(keys, c);
    }
    r
}

// ---------------------------------------------------------------------------
// Extension ids in a browser profile's `Preferences` file
// ---------------------------------------------------------------------------

#[verifier::external_type_specification]
#[verifier::external_body]
pub struct ExJsonValue(serde_json::Value);

/// The JSON document that `serde_json` reads from `raw`, if `raw` is one.
pub uninterp spec fn json_parsed(raw: Seq<char>) -> Option<serde_json::Value>;

/// The member `key` of a JSON value: present only when the value is an
/// object that has that key.
pub uninterp spec fn json_member(v: serde_json::Value, key: Seq<char>) -> Option<serde_json::Value>;

/// The keys of a JSON value that is an object, in the order `serde_json`'s
/// map keeps them; `None` for any other value.
pub uninterp spec fn json_keys(v: serde_json::Value) -> Option<Seq<Seq<char>>>;

/// `serde_json::from_str::<Value>`: the document `raw` holds, or `None` when
/// it is not JSON.
#[verifier::external_body]
fn json_parse(raw: &str) -> (r: Option<serde_json::Value>)
    ensures
        r == json_parsed(raw@),
{
    serde_json::from_str::<serde_json::Value>(raw).ok()
}

/// `Value::get` with a string index: the member `key` of an object, `None`
/// for a missing key or a value that is not an object.
#[verifier::external_body]
fn json_get<'a>(v: &'a serde_json::Value, key: &str) -> (r: Option<&'a serde_json::Value>)
    ensures
        r matches Some(m) ==> json_member(*v, key@) == Some(*m),
        r is None ==> json_member(*v, key@) is None,
{
    v.get(key)
}

/// `Value::as_object` followed by the map's `keys()`: the keys of an object,
/// `None` for a value that is not an object.
#[verifier::external_body]
fn json_object_keys(v: &serde_json::Value) -> (r: Option<Vec<String>>)
    ensures
        r matches Some(ks) ==> json_keys(*v) == Some(string_views(ks@)),
        r is None ==> json_keys(*v) is None,
{
    match v.as_object() {
        Some(map) => Some(map.keys().cloned().collect()),
        None => None,
    }
}

/// The extension ids a `Preferences` document lists: the keys of its
/// `extensions.settings` object; none when the document, either member or
/// the object is missing.
pub open spec fn spec_document_extension_ids(doc: serde_json::Value) -> Seq<Seq<char>> {
    match json_member(doc, "extensions"@) {
        Some(e) => match json_member(e, "settings"@) {
            Some(settings) => match json_keys(settings) {
                Some(ks) => ks,
                None => Seq::empty(),
            },
            None => Seq::empty(),
        },
        None => Seq::empty(),
    }
}

/// The extension ids a `Preferences` file with the text `raw` lists; none
/// when the text is not JSON.
pub open spec fn spec_preference_extension_ids(raw: Seq<char>) -> Seq<Seq<char>> {
    match json_parsed(raw) {
        Some(doc) => spec_document_extension_ids(doc),
        None => Seq::empty(),
    }
}

fn no_ids() -> (r: Vec<String>)
    ensures
        string_views(r@) == Seq::<Seq<char>>::empty(),
{
    let r: Vec<String> = Vec::new();
    assert(string_views(r@) =~= Seq::<Seq<char>>::empty());
    r
}

/// The keys of the `extensions.settings` object of the document `doc`.
pub fn document_extension_ids(doc: &serde_json::Value) -> (r: Vec<String>)
    ensures
        string_views(r@) == spec_document_extension_ids(*doc),
{
    match json_get(doc, "extensions") {
        Some(extensions) => match json_get(extensions, "settings") {
            Some(settings) => match json_object_keys(settings) {
                Some(ks) => ks,
                None => no_ids(),
            },
            None => no_ids(),
        },
        None => no_ids(),
    }
}

/// The extension ids that a browser profile's `Preferences` file with the
/// text `raw` lists (the keys of `extensions.settings`), in the document's
/// key order; none when the text is not JSON or has no such object.
pub fn preference_extension_ids(raw: &str) -> (r: Vec<String>)
    ensures
        string_views(r@) == spec_preference_extension_ids(raw@),
{
    match json_parse(raw) {
        Some(doc) => document_extension_ids(&doc),
        None => no_ids(),
    }
}

// ---------------------------------------------------------------------------
// The `action` member of the host's answers
// ---------------------------------------------------------------------------

/// The JSON object `v` with the member `key` set to the JSON string `text`.
pub uninterp spec fn json_with_text(v: serde_json::Value, key: Seq<char>, text: Seq<char>)
    -> serde_json::Value;

/// The JSON object `v` with the member `key` set to the JSON boolean `b`.
pub uninterp spec fn json_with_bool(v: serde_json::Value, key: Seq<char>, b: bool)
    -> serde_json::Value;

/// `Value::is_object`: whether `v` is a JSON object, which is exactly when it
/// has keys to list.
#[verifier::external_body]
fn json_is_object(v: &serde_json::Value) -> (r: bool)
    ensures
        r <==> json_keys(*v) is Some,
{
    v.is_object()
}

/// `Value::Object(Map::new())`: a JSON object without members.
#[verifier::external_body]
fn json_new_object() -> (r: serde_json::Value)
    ensures
        json_keys(r) == Some(Seq::<Seq<char>>::empty()),
{
    serde_json::Value::Object(serde_json::Map::new())
}

/// `Map::insert` of a `Value::String` into an object: the member `key` is
/// set to the string `text`, and the value stays an object.
#[verifier::external_body]
fn json_insert_text(v: &mut serde_json::Value, key: &str, text: &str)
    requires
        json_keys(*old(v)) is Some,
    ensures
        *final(v) == json_with_text(*old(v), key@, text@),
        json_keys(*final(v)) is Some,
{
    if let serde_json::Value::Object(map) = v {
        map.insert(key.to_owned(), serde_json::Value::String(text.to_owned()));
    }
}

/// `Map::insert` of a `Value::Bool` into an object: the member `key` is set
/// to `b`, and the value stays an object.
#[verifier::external_body]
fn json_insert_bool(v: &mut serde_json::Value, key: &str, b: bool)
    requires
        json_keys(*old(v)) is Some,
    ensures
        *final(v) == json_with_bool(*old(v), key@, b),
        json_keys(*final(v)) is Some,
{
    if let serde_json::Value::Object(map) = v {
        map.insert(key.to_owned(), serde_json::Value::Bool(b));
    }
}

/// The error of an answer that is not a JSON object.
pub const NON_OBJECT_RESPONSE_ERROR: &'static str =
    "Native host backend returned a non-object response";

/// The answer that replaces one that is not a JSON object: built from the
/// empty object `empty` as `success` false, the requested `action`, and the
/// error, in that order.
pub open spec fn non_object_answer(empty: serde_json::Value, action: Seq<char>) -> serde_json::Value {
    json_with_text(
        json_with_text(json_with_bool(empty, "success"@, false), "action"@, action),
        "error"@,
        NON_OBJECT_RESPONSE_ERROR@,
    )
}

/// The answer to a request for `action`: an object answer gets the member
/// `action` when it has none (one it has stays); any other answer is
/// replaced by an error object that names the action.
pub fn with_action(response: serde_json::Value, action: &str) -> (r: serde_json::Value)
    ensures
        json_keys(response) is Some && json_member(response, "action"@) is Some ==> r == response,
        json_keys(response) is Some && json_member(response, "action"@) is None ==> r
            == json_with_text(response, "action"@, action@),
        json_keys(response) is None ==> exists|empty: serde_json::Value|
            json_keys(empty) == Some(Seq::<Seq<char>>::empty()) && r == #[trigger] non_object_answer(
                empty,
                action@,
            ),
{
    let mut response = response;
    if json_is_object(&response) {
        if json_get(&response, "action").is_none() {
            json_insert_text(&mut response, "action", action);
        }
        response
    } else {
        let mut answer = json_new_object();
        let ghost empty = answer;
        json_insert_bool(&mut answer, "success", false);
        json_insert_text(&mut answer, "action", action);
        json_insert_text(&mut answer, "error", NON_OBJECT_RESPONSE_ERROR);
        assert(answer == non_object_answer(empty, action@));
        answer
    }
}

/// The origin under which the browser lets the extension `id` talk to the host.
pub open spec fn extension_origin(id: Seq<char>) -> Seq<char> {
    "chrome-extension://"@ + id + "/"@
}

/// The origins allowed to talk to the host: one per valid extension id of
/// `ids`, each once, in increasing order of id.
pub fn allowed_origins_from_ids(ids: Vec<String>) -> (r: Vec<String>)
    ensures
        string_views(r@) == sorted_valid_ids(string_views(ids@)).map_values(
            |id: Seq<char>| extension_origin(id),
        ),
        lists_valid_ids(sorted_valid_ids(string_views(ids@)), string_views(ids@)),
{
    let sorted = valid_ids_sorted(&ids);
    let ghost target = string_views(sorted@).map_values(|id: Seq<char>| extension_origin(id));
    let mut r: Vec<String> = Vec::new();
    let n = sorted.len();
    for i in 0..n
        invariant
            n == sorted@.len(),
            target == string_views(sorted@).map_values(|id: Seq<char>| extension_origin(id)),
            string_views(r@) == target.take(i as int),
    {
        let ghost before = string_views(r@);
        let mut o = "chrome-extension://".to_owned();
        o.append(sorted[i].as_str());
        o.append("/");
        assert(o@ == target[i as int]);
        r.push(o);
        assert(string_views(r@) =~= before.push(o@));
        assert(target.take(i + 1) =~= target.take(i as int).push(target[i as int]));
    }
    assert(target.take(n as int) =~= target);
    r
}

// ---------------------------------------------------------------------------
// Further extension ids from the environment
// ---------------------------------------------------------------------------

/// A character that separates extension ids in the environment variable.
pub open spec fn is_id_separator(c: char) -> bool {
    c == ',' || c == ';' || c == ' ' || c == '\t' || c == '\n'
}

/// The pieces of `s` between separators.
pub open spec fn split_at_separators(s: Seq<char>) -> Seq<Seq<char>>
    decreases s.len(),
{
    if s.len() == 0 {
        seq![Seq::empty()]
    } else {
        let rest = split_at_separators(s.drop_last());
        if is_id_separator(s.last()) {
            rest.push(Seq::empty())
        } else {
            rest.update(rest.len() - 1, rest.last().push(s.last()))
        }
    }
}

/// The trimmed pieces that are not blank, in order.
pub open spec fn trimmed_nonblank(pieces: Seq<Seq<char>>) -> Seq<Seq<char>>
    decreases pieces.len(),
{
    if pieces.len() == 0 {
        Seq::empty()
    } else {
        let rest = trimmed_nonblank(pieces.drop_last());
        if is_blank(pieces.last()) {
            rest
        } else {
            rest.push(trim(pieces.last()))
        }
    }
}

/// The extension ids listed in the text `raw`: split at `,` `;` space, tab
/// and line feed, trimmed, blank ones dropped.
pub open spec fn spec_extra_extension_ids(raw: Seq<char>) -> Seq<Seq<char>> {
    trimmed_nonblank(split_at_separators(raw))
}

proof fn lemma_split_at_separators_nonempty(s: Seq<char>)
    ensures
        split_at_separators(s).len() >= 1,
    decreases s.len(),
{
    if s.len() > 0 {
        lemma_split_at_separators_nonempty(s.drop_last());
    }
}

fn push_trimmed_nonblank(out: &mut Vec<String>, piece: &[char])
    ensures
        string_views(final(out)@) == (if is_blank(piece@) {
            string_views(old(out)@)
        } else {
            string_views(old(out)@).push(trim(piece@))
        }),
{
    let t = trim_chars(piece);
    if t.len() > 0 {
        let ghost before = out@;
        out.push(string_from_chars(t.as_slice()));
        assert(string_views(out@) =~= string_views(before).push(trim(piece@)));
    }
}

/// The extension ids listed in the text `raw`.
pub fn extra_extension_ids(raw: &str) -> (r: Vec<String>)
    ensures
        string_views(r@) == spec_extra_extension_ids(raw@),
{
    let s = chars_of(raw);
    let mut out: Vec<String> = Vec::new();
    let mut cur: Vec<char> = Vec::new();
    let ghost mut done: Seq<Seq<char>> = Seq::empty();
    let n = s.len();
    for i in 0..n
        invariant
            n == s@.len(),
            s@ == raw@,
            split_at_separators(s@.take(i as int)) == done.push(cur@),
            string_views(out@) == trimmed_nonblank(done),
    {
        proof {
            lemma_split_at_separators_nonempty(s@.take(i as int));
            assert(s@.take(i + 1).drop_last() =~= s@.take(i as int));
        }
        let c = s[i];
        if c == ',' || c == ';' || c == ' ' || c == '\t' || c == '\n' {
            push_trimmed_nonblank(&mut out, cur.as_slice());
            proof {
                assert(done.push(cur@).drop_last() =~= done);
                done = done.push(cur@);
            }
            cur = Vec::new();
            assert(split_at_separators(s@.take(i + 1)) =~= done.push(cur@));
        } else {
            let ghost before = cur@;
            cur.push(c);
            assert(split_at_separators(s@.take(i + 1)) =~= done.push(cur@));
        }
    }
    assert(s@.take(n as int) =~= s@);
    push_trimmed_nonblank(&mut out, cur.as_slice());
    assert(done.push(cur@).drop_last() =~= done);
    out
}

/// The extension ids the host is registered for, before validation: the
/// discovered ones, the known Chapter Clipper id, and those listed in the
/// environment variable when it is set.
pub open spec fn spec_registration_ids(
    discovered: Seq<Seq<char>>,
    extra: Option<Seq<char>>,
) -> Seq<Seq<char>> {
    discovered + seq![KNOWN_EXTENSION_ID@] + match extra {
        Some(e) => spec_extra_extension_ids(e),
        None => Seq::empty(),
    }
}

/// The extension ids the host is registered for, before validation.
pub fn registration_ids(discovered: Vec<String>, extra: Option<&str>) -> (r: Vec<String>)
    ensures
        string_views(r@) == spec_registration_ids(
            string_views(discovered@),
            match extra {
                Some(e) => Some(e@),
                None => None,
            },
        ),
{
    let mut r = discovered;
    let ghost d = string_views(r@);
    push_str(&mut r, KNOWN_EXTENSION_ID);
    let ghost with_known = string_views(r@);
    match extra {
        Some(e) => {
            let more = extra_extension_ids(e);
            let ghost m = string_views(more@);
            let k = more.len();
            for i in 0..k
                invariant
                    k == more@.len(),
                    m == string_views(more@),
                    string_views(r@) == with_known + m.take(i as int),
            {
                push_str(&mut r, more[i].as_str());
                assert(m.take(i + 1) =~= m.take(i as int).push(m[i as int]));
                assert(string_views(r@) =~= with_known + m.take(i + 1));
            }
            assert(m.take(k as int) =~= m);
        },
        None => {
            assert(string_views(r@) =~= with_known + Seq::<Seq<char>>::empty());
        },
    }
    r
}

// ---------------------------------------------------------------------------
// Requests
// ---------------------------------------------------------------------------

/// The actions a browser extension can ask the host for.
#[derive(Clone, Copy, Debug, PartialEq, Eq, Structural)]
pub enum NativeAction {
    Ping,
    DownloadChapter,
    DownloadFullVideo,
    OpenClip,
    GetJobs,
    Unknown,
}

/// The action named `name`.
pub open spec fn spec_action_of(name: Seq<char>) -> NativeAction {
    if name == "ping"@ {
        NativeAction::Ping
    } else if name == "download_chapter"@ {
        NativeAction::DownloadChapter
    } else if name == "download_full_video"@ {
        NativeAction::DownloadFullVideo
    } else if name == "open_clip"@ {
        NativeAction::OpenClip
    } else if name == "get_jobs"@ {
        NativeAction::GetJobs
    } else {
        NativeAction::Unknown
    }
}

fn str_equals(a: &str, b: &str) -> (r: bool)
    ensures
        r == (a@ == b@),
{
    let x = chars_of(a);
    let y = chars_of(b);
    chars_equal(x.as_slice(), y.as_slice())
}

/// The action named `name`.
pub fn action_of(name: &str) -> (r: NativeAction)
    ensures
        r == spec_action_of(name@),
{
    if str_equals(name, "ping") {
        NativeAction::Ping
    } else if str_equals(name, "download_chapter") {
        NativeAction::DownloadChapter
    } else if str_equals(name, "download_full_video") {
        NativeAction::DownloadFullVideo
    } else if str_equals(name, "open_clip") {
        NativeAction::OpenClip
    } else if str_equals(name, "get_jobs") {
        NativeAction::GetJobs
    } else {
        NativeAction::Unknown
    }
}

/// The action a request names in its `action` text; a request without one
/// asks for `ping`.
pub fn requested_action(action: Option<String>) -> (r: String)
    ensures
        r@ == match action {
            Some(a) => a@,
            None => "ping"@,
        },
{
    match action {
        Some(a) => a,
        None => "ping".to_owned(),
    }
}

/// The error answered to a request for an action the host does not know.
pub fn unknown_action_error(action: &str) -> (r: String)
    ensures
        r@ == "Unknown action: "@ + action@,
{
    let mut m = "Unknown action: ".to_owned();
    m.append(action);
    m
}

/// The video a download request is about: its `url`, or the watch page of
/// its `videoId` when the URL is blank; `None` when both are blank (the
/// request is answered "Missing URL or videoId").
pub open spec fn spec_request_url(video_id: Seq<char>, url: Seq<char>) -> Option<Seq<char>> {
    if !is_blank(url) {
        Some(url)
    } else if !is_blank(video_id) {
        Some(watch_url(video_id))
    } else {
        None
    }
}

/// The video a download request is about, from its (trimmed) `videoId`
/// and `url` texts, empty where absent.
pub fn request_url(video_id: &str, url: &str) -> (r: Option<String>)
    ensures
        match r {
            Some(u) => spec_request_url(video_id@, url@) == Some(u@),
            None => spec_request_url(video_id@, url@) is None,
        },
{
    if !is_blank_str(url) {
        Some(url.to_owned())
    } else if !is_blank_str(video_id) {
        Some(video_watch_url(video_id))
    } else {
        None
    }
}

/// A request text, or `fallback` when it is absent or blank.
pub fn nonempty_or(value: Option<String>, fallback: &str) -> (r: String)
    ensures
        r@ == match value {
            Some(v) => if is_blank(v@) {
                fallback@
            } else {
                v@
            },
            None => fallback@,
        },
{
    match value {
        Some(v) => if is_blank_str(v.as_str()) {
            fallback.to_owned()
        } else {
            v
        },
        None => fallback.to_owned(),
    }
}

// ---------------------------------------------------------------------------
// Chapter clips
// ---------------------------------------------------------------------------

/// A time of `total` whole seconds as `MM:SS`, or `HH:MM:SS` from one hour
/// on, each part with at least two digits.
pub open spec fn spec_format_timestamp(total: nat) -> Seq<char> {
    let h = total / 3600;
    let m = (total / 60) % 60;
    let s = total % 60;
    if h > 0 {
        decimal_padded(h, 2) + seq![':'] + decimal_padded(m, 2) + seq![':'] + decimal_padded(s, 2)
    } else {
        decimal_padded(m, 2) + seq![':'] + decimal_padded(s, 2)
    }
}

/// A time of `total` whole seconds as `MM:SS` or `HH:MM:SS`.
pub fn format_timestamp(total: u64) -> (r: String)
    ensures
        r@ == spec_format_timestamp(total as nat),
{
    let h = total / 3600;
    let m = (total / 60) % 60;
    let s = total % 60;
    let mut out: Vec<char> = Vec::new();
    if h > 0 {
        let hc = decimal_padded_chars(h, 2);
        extend_chars(&mut out, hc.as_slice());
        out.push(':');
    }
    let mc = decimal_padded_chars(m, 2);
    extend_chars(&mut out, mc.as_slice());
    out.push(':');
    let sc = decimal_padded_chars(s, 2);
    extend_chars(&mut out, sc.as_slice());
    assert(out@ =~= spec_format_timestamp(total as nat));
    string_from_chars(out.as_slice())
}

/// A time in a clip's file name: the timestamp with `-` for `:`.
pub open spec fn spec_clip_time_label(total: nat) -> Seq<char> {
    replace_char(spec_format_timestamp(total), ':', '-')
}

/// A time of `total` whole seconds as it stands in a clip's file name.
pub fn clip_time_label(total: u64) -> (r: String)
    ensures
        r@ == spec_clip_time_label(total as nat),
{
    let t = format_timestamp(total);
    let tc = chars_of(t.as_str());
    let fixed = replace_char_in(tc.as_slice(), ':', '-');
    string_from_chars(fixed.as_slice())
}

/// The file name of a chapter clip: `video - chapter [start - end].mp4`,
/// with both titles made safe as file names.
pub open spec fn spec_clip_file_name(
    video_title: Seq<char>,
    chapter_title: Seq<char>,
    start: Seq<char>,
    end: Seq<char>,
) -> Seq<char> {
    spec_sanitize_filename(video_title) + " - "@ + spec_sanitize_filename(chapter_title) + " ["@
        + start + " - "@ + end + "].mp4"@
}

/// The file name of a chapter clip.
pub fn clip_file_name(video_title: &str, chapter_title: &str, start: &str, end: &str) -> (r:
    String)
    ensures
        r@ == spec_clip_file_name(video_title@, chapter_title@, start@, end@),
{
    let mut name = sanitize_filename(video_title);
    name.append(" - ");
    let chapter = sanitize_filename(chapter_title);
    name.append(chapter.as_str());
    name.append(" [");
    name.append(start);
    name.append(" - ");
    name.append(end);
    name.append("].mp4");
    name
}

/// The id of a job started at `millis` milliseconds after the epoch:
/// `prefix_millis`.
pub fn job_id(prefix: &str, millis: u64) -> (r: String)
    ensures
        r@ == prefix@ + seq!['_'] + decimal(millis as nat),
{
    let mut out: Vec<char> = Vec::new();
    extend_with_str(&mut out, prefix);
    out.push('_');
    let d = decimal_chars(millis);
    extend_chars(&mut out, d.as_slice());
    string_from_chars(out.as_slice())
}

/// A decimal number printed with a fixed number of fraction digits, with
/// its trailing zeros removed and then a trailing `.`.
pub open spec fn spec_trim_fraction_zeros(text: Seq<char>) -> Seq<char> {
    let t = strip_trailing(text, '0');
    if t.len() > 0 && t.last() == '.' {
        t.drop_last()
    } else {
        t
    }
}

/// `text` without trailing zeros, and without the `.` that this leaves last.
pub fn trim_fraction_zeros(text: &str) -> (r: String)
    ensures
        r@ == spec_trim_fraction_zeros(text@),
{
    let v = chars_of(text);
    let mut t = strip_trailing_chars(v.as_slice(), '0');
    if t.len() > 0 && t[t.len() - 1] == '.' {
        t.pop();
        assert(t@ =~= strip_trailing(text@, '0').drop_last());
    }
    string_from_chars(t.as_slice())
}

/// The `--download-sections` value for the part from `start` to `end`
/// seconds, or to the end of the video when there is no end.
pub fn download_section(start: &str, end: Option<&str>) -> (r: String)
    ensures
        r@ == seq!['*'] + start@ + seq!['-'] + match end {
            Some(e) => e@,
            None => "inf"@,
        },
{
    let mut out: Vec<char> = Vec::new();
    out.push('*');
    extend_with_str(&mut out, start);
    out.push('-');
    match end {
        Some(e) => extend_with_str(&mut out, e),
        None => extend_with_str(&mut out, "inf"),
    }
    string_from_chars(out.as_slice())
}

/// The arguments that make `yt-dlp` download a video as MP4 to `output`,
/// only the part `section` when there is one (cutting at keyframes).
pub open spec fn spec_chapter_download_args(
    ffmpeg_path: Seq<char>,
    output: Seq<char>,
    url: Seq<char>,
    section: Option<Seq<char>>,
) -> Seq<Seq<char>> {
    seq!["--no-playlist"@, "--no-warnings"@, "--merge-output-format"@, "mp4"@]
        + ffmpeg_location_args(ffmpeg_path) + match section {
        Some(s) => seq!["--download-sections"@, s, "--force-keyframes-at-cuts"@],
        None => Seq::empty(),
    } + seq!["-o"@, output, url]
}

/// The arguments that make `yt-dlp` download the part `section` of the
/// video at `url` to `output_path`.
pub fn chapter_download_args(
    config: &AppConfig,
    output_path: &str,
    url: &str,
    section: Option<&str>,
) -> (r: Vec<String>)
    ensures
        string_views(r@) == spec_chapter_download_args(
            config.ffmpeg_path@,
            output_path@,
            url@,
            match section {
                Some(s) => Some(s@),
                None => None,
            },
        ),
{
    let mut v: Vec<String> = Vec::new();
    push_str(&mut v, "--no-playlist");
    push_str(&mut v, "--no-warnings");
    push_str(&mut v, "--merge-output-format");
    push_str(&mut v, "mp4");
    if !is_blank_str(config.ffmpeg_path.as_str()) {
        push_str(&mut v, "--ffmpeg-location");
        push_str(&mut v, config.ffmpeg_path.as_str());
    }
    match section {
        Some(s) => {
            push_str(&mut v, "--download-sections");
            push_str(&mut v, s);
            push_str(&mut v, "--force-keyframes-at-cuts");
        },
        None => {},
    }
    push_str(&mut v, "-o");
    push_str(&mut v, output_path);
    push_str(&mut v, url);
    assert(string_views(v@) =~= spec_chapter_download_args(
        config.ffmpeg_path@,
        output_path@,
        url@,
        match section {
            Some(s) => Some(s@),
            None => None,
        },
    ));
    v
}

// ---------------------------------------------------------------------------
// Chapters sent by the browser
// ---------------------------------------------------------------------------

/// A chapter as the browser sent it, once its times were found valid (both
/// finite, the start not negative, the end after the start): its position
/// in the browser's list, its title (empty when it had none) and its times
/// as `f64` bit patterns.
#[derive(Clone, Debug, PartialEq, Eq)]
pub struct BrowserChapter {
    pub index: usize,
    pub title: String,
    pub start_seconds_bits: u64,
    pub end_seconds_bits: u64,
}

/// The chapter made of a browser chapter: its title, or `Chapter n` when
/// the title is blank, with no URLs.
pub open spec fn browser_chapter_view(b: BrowserChapter) -> ChapterView {
    (
        chapter_display_name(b.index as nat, b.title@),
        b.start_seconds_bits,
        b.end_seconds_bits,
        Seq::empty(),
        Seq::empty(),
    )
}

/// Whether a chapter of `cs` starts at `start`.
pub open spec fn has_start(cs: Seq<ChapterView>, start: u64) -> bool {
    exists|j: int| 0 <= j < cs.len() && (#[trigger] cs[j]).1 == start
}

/// The chapters of the browser's list, in order, each start kept once (the
/// first chapter with a given start wins).
pub open spec fn spec_normalize_browser_chapters(items: Seq<BrowserChapter>) -> Seq<ChapterView>
    decreases items.len(),
{
    if items.len() == 0 {
        Seq::empty()
    } else {
        let rest = spec_normalize_browser_chapters(items.drop_last());
        if has_start(rest, items.last().start_seconds_bits) {
            rest
        } else {
            rest.push(browser_chapter_view(items.last()))
        }
    }
}

/// The chapters of the browser's list, each start kept once.
pub fn normalize_browser_chapters(items: &Vec<BrowserChapter>) -> (r: Vec<Chapter>)
    requires
        forall|i: int| 0 <= i < items@.len() ==> (#[trigger] items@[i]).index < usize::MAX,
    ensures
        r@.map_values(|c: Chapter| chapter_view(c)) == spec_normalize_browser_chapters(items@),
{
    let mut r: Vec<Chapter> = Vec::new();
    let mut seen_starts: std::collections::HashSet<u64> = std::collections::HashSet::new();
    let n = items.len();
    for i in 0..n
        invariant
            n == items@.len(),
            forall|k: int| 0 <= k < items@.len() ==> (#[trigger] items@[k]).index < usize::MAX,
            r@.map_values(|c: Chapter| chapter_view(c)) == spec_normalize_browser_chapters(
                items@.take(i as int),
            ),
            forall|start: u64| #[trigger]
                seen_starts@.contains(start) <==> has_start(
                    r@.map_values(|c: Chapter| chapter_view(c)),
                    start,
                ),
    {
        let ghost views = r@.map_values(|c: Chapter| chapter_view(c));
        let item = &items[i];
        assert(items@.take(i + 1).drop_last() =~= items@.take(i as int));
        assert(items@.take(i + 1).last() == *item);
        if seen_starts.insert(item.start_seconds_bits) {
            let chapter = Chapter {
                name: chapter_name(item.index, item.title.as_str()),
                start_seconds_bits: item.start_seconds_bits,
                end_seconds_bits: item.end_seconds_bits,
                video_url: String::new(),
                thumbnail_url: String::new(),
            };
            r.push(chapter);
            let ghost after = views.push(browser_chapter_view(*item));
            assert(r@.map_values(|c: Chapter| chapter_view(c)) =~= after);
            assert forall|start: u64| #[trigger]
                seen_starts@.contains(start) <==> has_start(after, start) by {
                if has_start(views, start) {
                    let j = choose|j: int| 0 <= j < views.len() && (#[trigger] views[j]).1 == start;
                    assert(after[j] == views[j]);
                }
                if start == item.start_seconds_bits {
                    assert(after[views.len() as int].1 == start);
                }
                if has_start(after, start) {
                    let j = choose|j: int| 0 <= j < after.len() && (#[trigger] after[j]).1 == start;
                    if j < views.len() {
                        assert(views[j] == after[j]);
                    }
                }
            }
        }
    }
    assert(items@.take(n as int) =~= items@);
    r
}

/// The browser's chapters when they are to be recorded for a downloaded
/// video: only when the download found no chapters of its own and the
/// browser sent at least one; `None` otherwise.
pub fn browser_chapters_to_record(downloaded: &Vec<Chapter>, from_browser: Vec<Chapter>) -> (r:
    Option<Vec<Chapter>>)
    ensures
        r is Some <==> (downloaded@.len() == 0 && from_browser@.len() > 0),
        r matches Some(c) ==> c@ == from_browser@,
{
    if downloaded.len() == 0 && from_browser.len() > 0 {
        Some(from_browser)
    } else {
        None
    }
}

/// The `chapters.json` of a downloaded bundle that had no chapters of its
/// own, filled with the chapters the browser sent.
pub fn browser_chapter_file(bundle: &BundleInfo, chapters: Vec<Chapter>) -> (f: ChapterFile)
    ensures
        f.video_id == bundle.video_id,
        f.video_title == bundle.title,
        f.url == bundle.source_url,
        f.chapters@ == chapters@,
        f.available,
{
    ChapterFile {
        video_id: bundle.video_id.clone(),
        video_title: bundle.title.clone(),
        url: bundle.source_url.clone(),
        chapters,
        available: true,
    }
}

// ---------------------------------------------------------------------------
// The application's host
// ---------------------------------------------------------------------------

/// The host that serves the browser extension with the application's
/// settings.
pub struct AppNativeHostBackend {
    config: AppConfig,
}

impl AppNativeHostBackend {
    /// The settings the host works with.
    pub closed spec fn spec_config(&self) -> AppConfig {
        self.config
    }

    /// A host that works with `config`.
    pub fn new(config: AppConfig) -> (b: AppNativeHostBackend)
        ensures
            b.spec_config() == config,
    {
        AppNativeHostBackend { config }
    }

    /// The settings the host works with.
    pub fn config(&self) -> (c: &AppConfig)
        ensures
            *c == self.spec_config(),
    {
        &self.config
    }

    /// Where chapter clips go unless the request names a folder: the
    /// workspace's `Youtube_Clips` folder.
    pub fn default_clip_dir(&self) -> (r: String)
        ensures
            r@ == spec_join(self.spec_config().workspace_dir@, "Youtube_Clips"@),
    {
        join(self.config.workspace_dir.as_str(), "Youtube_Clips")
    }

    /// Where whole videos go unless the request names a folder: the
    /// workspace's `Youtube_Videos` folder.
    pub fn default_full_video_dir(&self) -> (r: String)
        ensures
            r@ == spec_join(self.spec_config().workspace_dir@, "Youtube_Videos"@),
    {
        join(self.config.workspace_dir.as_str(), "Youtube_Videos")
    }

    /// The settings a whole-video download runs with: the host's, with the
    /// bundle written under `output_root`.
    pub fn full_video_config(&self, output_root: &str) -> (c: AppConfig)
        ensures
            c.workspace_dir@ == output_root@,
            c.data_json_path == self.spec_config().data_json_path,
            c.yt_dlp_path == self.spec_config().yt_dlp_path,
            c.ffmpeg_path == self.spec_config().ffmpeg_path,
            c.r2 == self.spec_config().r2,
    {
        AppConfig {
            workspace_dir: output_root.to_owned(),
            data_json_path: self.config.data_json_path.clone(),
            yt_dlp_path: self.config.yt_dlp_path.clone(),
            ffmpeg_path: self.config.ffmpeg_path.clone(),
            r2: self.config.r2.copy(),
        }
    }
}

// ---------------------------------------------------------------------------
// Laws
// ---------------------------------------------------------------------------

/// No two chapters taken from the browser start at the same time.
pub proof fn law_browser_chapter_starts_distinct(items: Seq<BrowserChapter>)
    ensures
        forall|i: int, j: int|
            0 <= i < j < spec_normalize_browser_chapters(items).len() ==> (#[trigger] spec_normalize_browser_chapters(items)[i]).1
                != (#[trigger] spec_normalize_browser_chapters(items)[j]).1,
    decreases items.len(),
{
    if items.len() > 0 {
        law_browser_chapter_starts_distinct(items.drop_last());
        let rest = spec_normalize_browser_chapters(items.drop_last());
        let all = spec_normalize_browser_chapters(items);
        if !has_start(rest, items.last().start_seconds_bits) {
            assert forall|i: int, j: int| 0 <= i < j < all.len() implies (#[trigger] all[i]).1
                != (#[trigger] all[j]).1 by {
                if j == rest.len() {
                    assert(all[i] == rest[i]);
                } else {
                    assert(all[i] == rest[i] && all[j] == rest[j]);
                }
            }
        }
    }
}

/// The known Chapter Clipper extension is always among the valid ids the
/// host is registered for, whatever was discovered or listed.
pub proof fn law_known_extension_always_allowed(
    discovered: Seq<Seq<char>>,
    extra: Option<Seq<char>>,
)
    ensures
        valid_id_set(spec_registration_ids(discovered, extra)).contains(KNOWN_EXTENSION_ID@),
{
    reveal_strlit("elbdfelfkbnnjojpaoiongmepoohjooi");
    let ids = spec_registration_ids(discovered, extra);
    assert(ids[discovered.len() as int] == KNOWN_EXTENSION_ID@);
    assert(ids.contains(KNOWN_EXTENSION_ID@));
    assert(is_valid_extension_id(KNOWN_EXTENSION_ID@));
}

} // verus!
