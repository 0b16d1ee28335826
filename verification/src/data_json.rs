//! Editing the playlists of `data.json`, and turning a local bundle with its
//! uploaded files into a playlist.
use vstd::prelude::*;

use crate::error::AppError;
use crate::local::{cut_relative_name, forward_slashes, lemma_cut_name_keeps_its_slashes,
    replace_char_in, spec_cut_relative_name};
use crate::model::{BundleInfo, Chapter, DataFile, Playlist};
use crate::paths::{spec_strip_prefix, strip_prefix};
use crate::strmap::StrMap;
use crate::text::{chars_of, eq_ignore_ascii_case, extend_with_str, is_blank, is_blank_str,
    lower, string_from_chars, trim, trim_str};

verus! {

// ---------------------------------------------------------------------------
// Views
// ---------------------------------------------------------------------------

/// A chapter as text: name, start and end time bits, video URL, thumbnail URL.
pub type ChapterView = (Seq<char>, u64, u64, Seq<char>, Seq<char>);

/// The view of a chapter.
pub open spec fn chapter_view(c: Chapter) -> ChapterView {
    (c.name@, c.start_seconds_bits, c.end_seconds_bits, c.video_url@, c.thumbnail_url@)
}

/// The views of chapters.
pub open spec fn chapters_view(cs: Seq<Chapter>) -> Seq<ChapterView> {
    cs.map_values(|c: Chapter| chapter_view(c))
}

/// A playlist as text: name, kind, video id, video URL, thumbnail URL, chapters.
pub type PlaylistView = (Seq<char>, Seq<char>, Seq<char>, Seq<char>, Seq<char>, Seq<ChapterView>);

/// The view of a playlist.
pub open spec fn playlist_view(p: Playlist) -> PlaylistView {
    (p.name@, p.kind@, p.video_id@, p.video_url@, p.thumbnail_url@, chapters_view(p.chapters@))
}

/// The playlists of a `data.json`, as views.
pub open spec fn data_view(d: DataFile) -> Seq<PlaylistView> {
    d.playlists@.map_values(|p: Playlist| playlist_view(p))
}

/// A playlist with other chapters.
pub open spec fn with_chapters(p: PlaylistView, cs: Seq<ChapterView>) -> PlaylistView {
    (p.0, p.1, p.2, p.3, p.4, cs)
}

/// A new, empty playlist of kind `direct`.
pub open spec fn new_playlist(name: Seq<char>) -> PlaylistView {
    (name, "direct"@, Seq::empty(), Seq::empty(), Seq::empty(), Seq::empty())
}

/// Whether a playlist of `d` has `name`, ignoring ASCII case.
pub open spec fn has_playlist_named(d: Seq<PlaylistView>, name: Seq<char>) -> bool {
    exists|i: int| 0 <= i < d.len() && lower(#[trigger] d[i].0) == lower(name)
}

/// Whether no two playlists share a name, ignoring ASCII case.
pub open spec fn names_distinct(d: Seq<PlaylistView>) -> bool {
    forall|i: int, j: int|
        0 <= i < d.len() && 0 <= j < d.len() && i != j ==> lower(#[trigger] d[i].0) != lower(
            #[trigger] d[j].0,
        )
}

/// `d` with chapter `c` appended to playlist `p`.
pub open spec fn spec_add_chapter(d: Seq<PlaylistView>, p: int, c: ChapterView) -> Seq<
    PlaylistView,
> {
    d.update(p, with_chapters(d[p], d[p].5.push(c)))
}

/// `d` with chapter `k` of playlist `p` removed.
pub open spec fn spec_remove_chapter(d: Seq<PlaylistView>, p: int, k: int) -> Seq<PlaylistView> {
    d.update(p, with_chapters(d[p], d[p].5.remove(k)))
}

/// `d` with chapter `from` of playlist `p` moved to position `to`.
pub open spec fn spec_move_chapter(d: Seq<PlaylistView>, p: int, from: int, to: int) -> Seq<
    PlaylistView,
> {
    d.update(p, with_chapters(d[p], d[p].5.remove(from).insert(to, d[p].5[from])))
}

/// An `Invalid` error with the message `m`.
pub open spec fn is_invalid(e: AppError, m: Seq<char>) -> bool {
    e matches AppError::Invalid(x) && x@ == m
}

/// A failure with an `Invalid` error whose message is `m`.
pub open spec fn fails_with<T>(r: Result<T, AppError>, m: Seq<char>) -> bool {
    r matches Err(e) && is_invalid(e, m)
}

// ---------------------------------------------------------------------------
// Playlists
// ---------------------------------------------------------------------------

fn playlist_named(d: &DataFile, name: &[char]) -> (r: bool)
    ensures
        r == has_playlist_named(data_view(*d), name@),
{
    let n = d.playlists.len();
    for i in 0..n
        invariant
            n == d.playlists@.len(),
            forall|j: int| 0 <= j < i ==> lower(#[trigger] data_view(*d)[j].0) != lower(name@),
    {
        let pn = chars_of(d.playlists[i].name.as_str());
        if eq_ignore_ascii_case(pn.as_slice(), name) {
            assert(lower(data_view(*d)[i as int].0) == lower(name@));
            return true;
        }
    }
    false
}

/// Adds an empty `direct` playlist named `name` (trimmed) and returns its
/// index. A blank name, or one that an existing playlist has already
/// (ignoring ASCII case), is refused and `data` left as it was.
pub fn add_playlist(data: &mut DataFile, name: &str) -> (r: Result<usize, AppError>)
    ensures
        is_blank(name@) ==> fails_with(r, "playlist name cannot be empty"@)
            && *final(data) == *old(data),
        !is_blank(name@) && has_playlist_named(data_view(*old(data)), trim(name@)) ==> fails_with(r, "playlist `"@ + trim(name@) + "` already exists"@) && *final(data)
            == *old(data),
        !is_blank(name@) && !has_playlist_named(data_view(*old(data)), trim(name@)) ==> r == Ok::<usize, AppError>(
            old(data).playlists@.len() as usize,
        ) && data_view(*final(data)) == data_view(*old(data)).push(new_playlist(trim(name@))),
{
    let name = trim_str(name);
    if name.as_str().is_empty() {
        return Err(AppError::Invalid("playlist name cannot be empty".to_owned()));
    }
    let nc = chars_of(name.as_str());
    if playlist_named(data, nc.as_slice()) {
        let mut m: Vec<char> = Vec::new();
        extend_with_str(&mut m, "playlist `");
        extend_with_str(&mut m, name.as_str());
        extend_with_str(&mut m, "` already exists");
        return Err(AppError::Invalid(string_from_chars(m.as_slice())));
    }
    let ghost before = data_view(*data);
    let p = Playlist {
        name,
        kind: "direct".to_owned(),
        video_id: String::new(),
        video_url: String::new(),
        thumbnail_url: String::new(),
        chapters: Vec::new(),
    };
    assert(chapters_view(p.chapters@) =~= Seq::<ChapterView>::empty());
    data.playlists.push(p);
    assert(data_view(*data) =~= before.push(new_playlist(name@)));
    Ok(data.playlists.len() - 1)
}

/// Removes playlist `playlist_index` and returns it; an index out of range
/// is refused and `data` left as it was.
pub fn remove_playlist(data: &mut DataFile, playlist_index: usize) -> (r: Result<
    Playlist,
    AppError,
>)
    ensures
        playlist_index >= old(data).playlists@.len() ==> fails_with(r,
            "playlist index out of range"@,
        ) && *final(data) == *old(data),
        playlist_index < old(data).playlists@.len() ==> r == Ok::<Playlist, AppError>(
            old(data).playlists@[playlist_index as int],
        ) && final(data).playlists@ == old(data).playlists@.remove(playlist_index as int),
{
    if playlist_index >= data.playlists.len() {
        return Err(AppError::Invalid("playlist index out of range".to_owned()));
    }
    Ok(data.playlists.remove(playlist_index))
}

/// Appends `chapter` to playlist `playlist_index` and returns its index.
/// Refused, with `data` left as it was: an index out of range, then a blank
/// chapter name, then a chapter that ends before it starts
/// (`ends_before_start`, the comparison of its two times).
pub fn add_chapter(
    data: &mut DataFile,
    playlist_index: usize,
    chapter: Chapter,
    ends_before_start: bool,
) -> (r: Result<usize, AppError>)
    ensures
        playlist_index >= old(data).playlists@.len() ==> fails_with(r,
            "playlist index out of range"@,
        ) && *final(data) == *old(data),
        playlist_index < old(data).playlists@.len() && is_blank(chapter.name@) ==> fails_with(r, "chapter name cannot be empty"@) && *final(data) == *old(data),
        playlist_index < old(data).playlists@.len() && !is_blank(chapter.name@)
            && ends_before_start ==> fails_with(r,
            "chapter end must be greater than or equal to start"@,
        ) && *final(data) == *old(data),
        playlist_index < old(data).playlists@.len() && !is_blank(chapter.name@)
            && !ends_before_start ==> r == Ok::<usize, AppError>(
            old(data).playlists@[playlist_index as int].chapters@.len() as usize,
        ) && data_view(*final(data)) == spec_add_chapter(
            data_view(*old(data)),
            playlist_index as int,
            chapter_view(chapter),
        ),
{
    if playlist_index >= data.playlists.len() {
        return Err(AppError::Invalid("playlist index out of range".to_owned()));
    }
    if is_blank_str(chapter.name.as_str()) {
        return Err(AppError::Invalid("chapter name cannot be empty".to_owned()));
    }
    if ends_before_start {
        return Err(
            AppError::Invalid("chapter end must be greater than or equal to start".to_owned()),
        );
    }
    let ghost before = data_view(*data);
    let ghost cv = chapter_view(chapter);
    let mut p = data.playlists.remove(playlist_index);
    let ghost pv = playlist_view(p);
    p.chapters.push(chapter);
    let index = p.chapters.len() - 1;
    assert(chapters_view(p.chapters@) =~= pv.5.push(cv));
    data.playlists.insert(playlist_index, p);
    assert(data_view(*data) =~= spec_add_chapter(before, playlist_index as int, cv));
    Ok(index)
}

/// Removes chapter `chapter_index` of playlist `playlist_index` and returns
/// it; an index out of range is refused and `data` left as it was.
pub fn remove_chapter(data: &mut DataFile, playlist_index: usize, chapter_index: usize) -> (r:
    Result<Chapter, AppError>)
    ensures
        playlist_index >= old(data).playlists@.len() ==> fails_with(r,
            "playlist index out of range"@,
        ) && *final(data) == *old(data),
        playlist_index < old(data).playlists@.len() && chapter_index >= old(
            data,
        ).playlists@[playlist_index as int].chapters@.len() ==> fails_with(r,
            "chapter index out of range"@,
        ) && *final(data) == *old(data),
        playlist_index < old(data).playlists@.len() && chapter_index < old(
            data,
        ).playlists@[playlist_index as int].chapters@.len() ==> r == Ok::<Chapter, AppError>(
            old(data).playlists@[playlist_index as int].chapters@[chapter_index as int],
        ) && data_view(*final(data)) == spec_remove_chapter(
            data_view(*old(data)),
            playlist_index as int,
            chapter_index as int,
        ),
{
    if playlist_index >= data.playlists.len() {
        return Err(AppError::Invalid("playlist index out of range".to_owned()));
    }
    if chapter_index >= data.playlists[playlist_index].chapters.len() {
        return Err(AppError::Invalid("chapter index out of range".to_owned()));
    }
    let ghost before = data_view(*data);
    let mut p = data.playlists.remove(playlist_index);
    let ghost pv = playlist_view(p);
    let c = p.chapters.remove(chapter_index);
    assert(chapters_view(p.chapters@) =~= pv.5.remove(chapter_index as int));
    data.playlists.insert(playlist_index, p);
    assert(data_view(*data) =~= spec_remove_chapter(
        before,
        playlist_index as int,
        chapter_index as int,
    ));
    Ok(c)
}

/// Moves chapter `from` of playlist `playlist_index` to position `to`; an
/// index out of range is refused and `data` left as it was.
pub fn move_chapter(data: &mut DataFile, playlist_index: usize, from: usize, to: usize) -> (r:
    Result<(), AppError>)
    ensures
        playlist_index >= old(data).playlists@.len() ==> fails_with(r,
            "playlist index out of range"@,
        ) && *final(data) == *old(data),
        playlist_index < old(data).playlists@.len() && (from >= old(
            data,
        ).playlists@[playlist_index as int].chapters@.len() || to >= old(
            data,
        ).playlists@[playlist_index as int].chapters@.len()) ==> fails_with(r,
            "chapter index out of range"@,
        ) && *final(data) == *old(data),
        playlist_index < old(data).playlists@.len() && from < old(
            data,
        ).playlists@[playlist_index as int].chapters@.len() && to < old(
            data,
        ).playlists@[playlist_index as int].chapters@.len() ==> r is Ok && data_view(*final(data))
            == spec_move_chapter(
            data_view(*old(data)),
            playlist_index as int,
            from as int,
            to as int,
        ),
{
    if playlist_index >= data.playlists.len() {
        return Err(AppError::Invalid("playlist index out of range".to_owned()));
    }
    let len = data.playlists[playlist_index].chapters.len();
    if from >= len || to >= len {
        return Err(AppError::Invalid("chapter index out of range".to_owned()));
    }
    let ghost before = data_view(*data);
    if from == to {
        proof {
            let cs = before[playlist_index as int].5;
            assert(cs.remove(from as int).insert(to as int, cs[from as int]) =~= cs);
            assert(spec_move_chapter(before, playlist_index as int, from as int, to as int)
                =~= before);
        }
        return Ok(());
    }
    let mut p = data.playlists.remove(playlist_index);
    let ghost pv = playlist_view(p);
    let c = p.chapters.remove(from);
    p.chapters.insert(to, c);
    assert(chapters_view(p.chapters@) =~= pv.5.remove(from as int).insert(
        to as int,
        pv.5[from as int],
    ));
    data.playlists.insert(playlist_index, p);
    assert(data_view(*data) =~= spec_move_chapter(
        before,
        playlist_index as int,
        from as int,
        to as int,
    ));
    Ok(())
}

// ---------------------------------------------------------------------------
// Bundles as playlists
// ---------------------------------------------------------------------------

/// The name of a bundle file in the manifest: its path relative to the
/// bundle folder (or the whole path when it is not inside the folder), with
/// `/` separators.
pub open spec fn relative_name(dir: Seq<char>, path: Seq<char>) -> Seq<char> {
    forward_slashes(
        match spec_strip_prefix(path, dir) {
            Some(r) => r,
            None => path,
        },
    )
}

/// The uploaded URL of a bundle file, or an empty text when it was not uploaded.
pub open spec fn uploaded_url(uploads: Map<Seq<char>, Seq<char>>, name: Seq<char>) -> Seq<char> {
    if uploads.contains_key(name) {
        uploads[name]
    } else {
        Seq::empty()
    }
}

/// The uploaded URL of an optional bundle file.
pub open spec fn uploaded_file_url(
    uploads: Map<Seq<char>, Seq<char>>,
    dir: Seq<char>,
    path: Option<String>,
) -> Seq<char> {
    match path {
        Some(p) => uploaded_url(uploads, relative_name(dir, p@)),
        None => Seq::empty(),
    }
}

/// A bundle chapter in its playlist: the URL of its uploaded cut (or of the
/// whole video when the cut was not uploaded), and the bundle thumbnail
/// when the chapter has none.
pub open spec fn bundle_chapter_view(
    c: Chapter,
    index: nat,
    uploads: Map<Seq<char>, Seq<char>>,
    video_url: Seq<char>,
    thumbnail_url: Seq<char>,
) -> ChapterView {
    let cut = uploaded_url(uploads, spec_cut_relative_name(index, c.name@));
    (
        c.name@,
        c.start_seconds_bits,
        c.end_seconds_bits,
        if cut.len() == 0 {
            video_url
        } else {
            cut
        },
        if c.thumbnail_url@.len() == 0 {
            thumbnail_url
        } else {
            c.thumbnail_url@
        },
    )
}

/// The playlist of a bundle whose uploads are `uploads`: named by its
/// title, of kind `direct`, with the uploaded URLs of its video and
/// thumbnail, and its chapters pointing at their uploaded cuts.
pub open spec fn spec_bundle_playlist(b: BundleInfo, uploads: Map<Seq<char>, Seq<char>>) -> PlaylistView {
    let video_url = uploaded_file_url(uploads, b.dir@, b.video_path);
    let thumbnail_url = uploaded_file_url(uploads, b.dir@, b.thumbnail_path);
    (
        b.title@,
        "direct"@,
        b.video_id@,
        video_url,
        thumbnail_url,
        Seq::new(
            b.chapters@.len(),
            |i: int| bundle_chapter_view(b.chapters@[i], i as nat, uploads, video_url, thumbnail_url),
        ),
    )
}

/// The playlist of a bundle, from the uploads its manifest records.
pub open spec fn spec_playlist_from_bundle(b: BundleInfo) -> PlaylistView {
    spec_bundle_playlist(b, b.manifest.uploads@)
}

fn uploaded_url_of(uploads: &StrMap, name: &str) -> (r: String)
    ensures
        r@ == uploaded_url(uploads@, name@),
{
    match uploads.get(name) {
        Some(u) => u,
        None => String::new(),
    }
}

fn relative_upload(bundle: &BundleInfo, path: &Option<String>) -> (r: String)
    ensures
        r@ == uploaded_file_url(bundle.manifest.uploads@, bundle.dir@, *path),
{
    match path {
        Some(p) => {
            let rel = match strip_prefix(p.as_str(), bundle.dir.as_str()) {
                Some(r) => r,
                None => p.clone(),
            };
            let rc = chars_of(rel.as_str());
            let fixed = replace_char_in(rc.as_slice(), '\\', '/');
            let name = string_from_chars(fixed.as_slice());
            uploaded_url_of(&bundle.manifest.uploads, name.as_str())
        },
        None => String::new(),
    }
}

/// The `data.json` playlist of a local bundle, using the URLs of its
/// uploaded files.
pub fn playlist_from_bundle(bundle: &BundleInfo) -> (p: Playlist)
    ensures
        playlist_view(p) == spec_playlist_from_bundle(*bundle),
{
    let full_video_url = relative_upload(bundle, &bundle.video_path);
    let thumbnail_url = relative_upload(bundle, &bundle.thumbnail_path);
    let ghost uploads = bundle.manifest.uploads@;
    let ghost target = spec_playlist_from_bundle(*bundle);
    let mut chapters: Vec<Chapter> = Vec::new();
    let n = bundle.chapters.len();
    for i in 0..n
        invariant
            n == bundle.chapters@.len(),
            uploads == bundle.manifest.uploads@,
            target == spec_playlist_from_bundle(*bundle),
            full_video_url@ == target.3,
            thumbnail_url@ == target.4,
            chapters@.len() == i,
            forall|j: int| 0 <= j < i ==> chapter_view(#[trigger] chapters@[j]) == target.5[j],
    {
        let c = &bundle.chapters[i];
        let cut_name = cut_relative_name(i, c.name.as_str());
        let cut_url = uploaded_url_of(&bundle.manifest.uploads, cut_name.as_str());
        let video_url = if cut_url.as_str().is_empty() {
            full_video_url.clone()
        } else {
            cut_url
        };
        let thumb = if c.thumbnail_url.as_str().is_empty() {
            thumbnail_url.clone()
        } else {
            c.thumbnail_url.clone()
        };
        let chapter = Chapter {
            name: c.name.clone(),
            start_seconds_bits: c.start_seconds_bits,
            end_seconds_bits: c.end_seconds_bits,
            video_url,
            thumbnail_url: thumb,
        };
        assert(chapter_view(chapter) == target.5[i as int]);
        chapters.push(chapter);
    }
    let p = Playlist {
        name: bundle.title.clone(),
        kind: "direct".to_owned(),
        video_id: bundle.video_id.clone(),
        video_url: full_video_url,
        thumbnail_url,
        chapters,
    };
    assert(chapters_view(p.chapters@) =~= target.5);
    p
}

/// The first playlist that a bundle playlist replaces: the first with the
/// same (non-empty) video id or the same name ignoring ASCII case.
pub open spec fn matches_bundle(candidate: PlaylistView, p: PlaylistView) -> bool {
    (p.2.len() > 0 && candidate.2 == p.2) || lower(candidate.0) == lower(p.0)
}

/// Whether `i` is the first position of `d` that `p` replaces.
pub open spec fn is_first_match(d: Seq<PlaylistView>, p: PlaylistView, i: int) -> bool {
    &&& 0 <= i < d.len()
    &&& matches_bundle(d[i], p)
    &&& forall|j: int| 0 <= j < i ==> !matches_bundle(#[trigger] d[j], p)
}

/// `d` with the playlist `p` put in place of the first playlist it
/// replaces, or appended when none matches.
pub open spec fn spec_upsert(d: Seq<PlaylistView>, p: PlaylistView) -> Seq<PlaylistView> {
    if exists|i: int| is_first_match(d, p, i) {
        d.update(choose|i: int| is_first_match(d, p, i), p)
    } else {
        d.push(p)
    }
}

/// The position `spec_upsert` writes to.
pub open spec fn upsert_index(d: Seq<PlaylistView>, p: PlaylistView) -> int {
    if exists|i: int| is_first_match(d, p, i) {
        choose|i: int| is_first_match(d, p, i)
    } else {
        d.len() as int
    }
}

proof fn lemma_first_match_unique(d: Seq<PlaylistView>, p: PlaylistView, i: int, j: int)
    requires
        is_first_match(d, p, i),
        is_first_match(d, p, j),
    ensures
        i == j,
{
    if i < j {
        assert(!matches_bundle(d[i], p));
    } else if j < i {
        assert(!matches_bundle(d[j], p));
    }
}

/// Puts the playlist of `bundle` into `data`: in place of the first
/// playlist with the same video id or name, or at the end; returns its index.
pub fn upsert_bundle_playlist(data: &mut DataFile, bundle: &BundleInfo) -> (r: usize)
    ensures
        data_view(*final(data)) == spec_upsert(
            data_view(*old(data)),
            spec_playlist_from_bundle(*bundle),
        ),
        r == upsert_index(data_view(*old(data)), spec_playlist_from_bundle(*bundle)),
{
    let playlist = playlist_from_bundle(bundle);
    let ghost pv = playlist_view(playlist);
    let ghost d = data_view(*data);
    let vid = chars_of(playlist.video_id.as_str());
    let name = chars_of(playlist.name.as_str());
    let n = data.playlists.len();
    let mut found: Option<usize> = None;
    for i in 0..n
        invariant
            n == data.playlists@.len(),
            d == data_view(*data),
            pv == playlist_view(playlist),
            vid@ == pv.2,
            name@ == pv.0,
            found is None ==> forall|j: int| 0 <= j < i ==> !matches_bundle(#[trigger] d[j], pv),
            found matches Some(k) ==> is_first_match(d, pv, k as int),
    {
        if found.is_none() {
            let cv = chars_of(data.playlists[i].video_id.as_str());
            let cn = chars_of(data.playlists[i].name.as_str());
            let same_id = vid.len() > 0 && crate::text::compare_chars(
                cv.as_slice(),
                vid.as_slice(),
            ) == crate::text::Order::Equal;
            if same_id || eq_ignore_ascii_case(cn.as_slice(), name.as_slice()) {
                found = Some(i);
            }
        }
    }
    match found {
        Some(index) => {
            proof {
                assert(is_first_match(d, pv, index as int));
                let c = choose|i: int| is_first_match(d, pv, i);
                lemma_first_match_unique(d, pv, index as int, c);
            }
            data.playlists.set(index, playlist);
            assert(data_view(*data) =~= d.update(index as int, pv));
            index
        },
        None => {
            assert(!exists|i: int| is_first_match(d, pv, i));
            data.playlists.push(playlist);
            assert(data_view(*data) =~= d.push(pv));
            data.playlists.len() - 1
        },
    }
}

// ---------------------------------------------------------------------------
// Laws
// ---------------------------------------------------------------------------

/// Removing the chapter that was just added restores the playlists.
pub proof fn law_remove_undoes_add_chapter(d: Seq<PlaylistView>, p: int, c: ChapterView)
    requires
        0 <= p < d.len(),
    ensures
        spec_remove_chapter(spec_add_chapter(d, p, c), p, d[p].5.len() as int) == d,
{
    let a = spec_add_chapter(d, p, c);
    assert(a[p].5.remove(d[p].5.len() as int) =~= d[p].5);
    assert(spec_remove_chapter(a, p, d[p].5.len() as int) =~= d);
}

/// Moving a chapter back to where it was restores the playlists.
pub proof fn law_move_chapter_back(d: Seq<PlaylistView>, p: int, from: int, to: int)
    requires
        0 <= p < d.len(),
        0 <= from < d[p].5.len(),
        0 <= to < d[p].5.len(),
    ensures
        spec_move_chapter(spec_move_chapter(d, p, from, to), p, to, from) == d,
{
    let cs = d[p].5;
    let moved = cs.remove(from).insert(to, cs[from]);
    assert(moved[to] == cs[from]);
    assert(moved.remove(to) =~= cs.remove(from));
    assert(moved.remove(to).insert(from, moved[to]) =~= cs);
    assert(spec_move_chapter(spec_move_chapter(d, p, from, to), p, to, from) =~= d);
}

/// Putting the same bundle playlist in twice changes nothing the second time.
pub proof fn law_upsert_idempotent(d: Seq<PlaylistView>, p: PlaylistView)
    ensures
        spec_upsert(spec_upsert(d, p), p) == spec_upsert(d, p),
{
    let d1 = spec_upsert(d, p);
    assert(matches_bundle(p, p));
    if exists|i: int| is_first_match(d, p, i) {
        let i = choose|i: int| is_first_match(d, p, i);
        assert(is_first_match(d1, p, i)) by {
            assert forall|j: int| 0 <= j < i implies !matches_bundle(#[trigger] d1[j], p) by {
                assert(d1[j] == d[j]);
            }
        }
        let k = choose|k: int| is_first_match(d1, p, k);
        lemma_first_match_unique(d1, p, i, k);
        assert(d1.update(i, p) =~= d1);
    } else {
        let i = d.len() as int;
        assert(is_first_match(d1, p, i)) by {
            assert forall|j: int| 0 <= j < i implies !matches_bundle(#[trigger] d1[j], p) by {
                assert(d1[j] == d[j]);
                if matches_bundle(d[j], p) {
                    lemma_some_first_match(d, p, j);
                }
            }
        }
        let k = choose|k: int| is_first_match(d1, p, k);
        lemma_first_match_unique(d1, p, i, k);
        assert(d1.update(i, p) =~= d1);
    }
}

/// A bundle playlist that shares no name (ignoring ASCII case) with the
/// playlists of `d`, and no video id unless its own is empty, replaces
/// nothing: it is appended after all of them, and every playlist already
/// there stays as it was. In particular a bundle without a video id never
/// takes the place of a playlist whose video id is empty too.
pub proof fn law_upsert_appends_unmatched_playlist(d: Seq<PlaylistView>, p: PlaylistView)
    requires
        forall|j: int|
            0 <= j < d.len() ==> lower((#[trigger] d[j]).0) != lower(p.0) && (p.2.len() == 0
                || d[j].2 != p.2),
    ensures
        spec_upsert(d, p).len() == d.len() + 1,
        forall|j: int| 0 <= j < d.len() ==> #[trigger] spec_upsert(d, p)[j] == d[j],
        spec_upsert(d, p)[d.len() as int] == p,
        upsert_index(d, p) == d.len(),
{
    if exists|i: int| is_first_match(d, p, i) {
        let i = choose|i: int| is_first_match(d, p, i);
        assert(matches_bundle(d[i], p));
        assert(false);
    }
}

/// A bundle playlist whose name matches a playlist of `d` (ignoring ASCII
/// case) takes the place of exactly one playlist, no later than that one,
/// which has the same name or the same non-empty video id; the number of
/// playlists stays and every other playlist is kept as it was.
pub proof fn law_upsert_replaces_one_matching_playlist(d: Seq<PlaylistView>, p: PlaylistView, j: int)
    requires
        0 <= j < d.len(),
        lower(d[j].0) == lower(p.0),
    ensures
        spec_upsert(d, p).len() == d.len(),
        exists|i: int|
            {
                &&& 0 <= i <= j
                &&& lower(d[i].0) == lower(p.0) || (p.2.len() > 0 && d[i].2 == p.2)
                &&& #[trigger] spec_upsert(d, p)[i] == p
                &&& upsert_index(d, p) == i
                &&& forall|k: int| 0 <= k < d.len() && k != i ==> spec_upsert(d, p)[k] == d[k]
            },
{
    assert(matches_bundle(d[j], p));
    lemma_some_first_match(d, p, j);
    let i = choose|i: int| is_first_match(d, p, i);
    if i > j {
        assert(!matches_bundle(d[j], p));
    }
    assert(spec_upsert(d, p)[i] == p);
}

proof fn lemma_some_first_match(d: Seq<PlaylistView>, p: PlaylistView, j: int)
    requires
        0 <= j < d.len(),
        matches_bundle(d[j], p),
    ensures
        exists|i: int| is_first_match(d, p, i),
    decreases j,
{
    if forall|m: int| 0 <= m < j ==> !matches_bundle(#[trigger] d[m], p) {
        assert(is_first_match(d, p, j));
    } else {
        let m = choose|m: int| 0 <= m < j && !!matches_bundle(#[trigger] d[m], p);
        lemma_some_first_match(d, p, m);
    }
}

/// Once the upload of a chapter's cut is recorded in the bundle's manifest
/// (under its name with `/` separators, as `record_uploaded_url` stores it),
/// syncing the bundle gives that chapter the uploaded URL.
pub proof fn law_recorded_cut_url_is_synced(b: BundleInfo, i: int, url: Seq<char>)
    requires
        0 <= i < b.chapters@.len(),
        url.len() > 0,
    ensures
        spec_bundle_playlist(
            b,
            b.manifest.uploads@.insert(
                forward_slashes(spec_cut_relative_name(i as nat, b.chapters@[i].name@)),
                url,
            ),
        ).5[i].3 == url,
{
    lemma_cut_name_keeps_its_slashes(i as nat, b.chapters@[i].name@);
}

/// Adding a playlist keeps the playlist names distinct (ignoring ASCII
/// case): the only new name is one that no playlist had.
pub proof fn law_add_playlist_keeps_names_distinct(d: Seq<PlaylistView>, name: Seq<char>)
    requires
        names_distinct(d),
        !has_playlist_named(d, trim(name)),
    ensures
        names_distinct(d.push(new_playlist(trim(name)))),
{
    let e = d.push(new_playlist(trim(name)));
    assert forall|i: int, j: int|
        0 <= i < e.len() && 0 <= j < e.len() && i != j implies lower(#[trigger] e[i].0) != lower(
        #[trigger] e[j].0,
    ) by {
        if i == d.len() {
            assert(e[j] == d[j]);
        } else if j == d.len() {
            assert(e[i] == d[i]);
        } else {
            assert(e[i] == d[i] && e[j] == d[j]);
        }
    }
}

} // verus!
