//! Local video bundles: clip names, uploaded-URL bookkeeping, the FFmpeg cut
//! command and how a bundle is assembled from the files found on disk.
use vstd::prelude::*;

use crate::error::AppError;
use crate::model::{copy_chapters, BundleInfo, BundleManifest, Chapter, ChapterFile};
use crate::paths::{file_name, join, spec_file_name, spec_join};
use crate::strmap::StrMap;
use crate::text::{chars_of, decimal, decimal_padded, decimal_padded_chars, eq_ignore_ascii_case,
    extend_chars, extend_with_str, has_prefix, lower, matches_at, slice_range,
    string_from_chars};
use crate::youtube::{is_forbidden, law_sanitized_name_is_safe, sanitize_filename,
    spec_sanitize_filename, string_views};

verus! {

/// `s` with every `from` replaced by `to`.
pub open spec fn replace_char(s: Seq<char>, from: char, to: char) -> Seq<char> {
    s.map_values(|c: char| if c == from {
        to
    } else {
        c
    })
}

/// Replaces every `from` in `s` by `to`.
pub fn replace_char_in(s: &[char], from: char, to: char) -> (r: Vec<char>)
    ensures
        r@ == replace_char(s@, from, to),
{
    let mut r: Vec<char> = Vec::new();
    let n = s.len();
    for i in 0..n
        invariant
            n == s@.len(),
            r@ == replace_char(s@.take(i as int), from, to),
    {
        let c = s[i];
        r.push(if c == from {
            to
        } else {
            c
        });
        assert(r@ =~= replace_char(s@.take(i + 1), from, to));
    }
    assert(s@.take(n as int) =~= s@);
    r
}

/// A relative name with `\` separators turned into `/`.
pub open spec fn forward_slashes(s: Seq<char>) -> Seq<char> {
    replace_char(s, '\\', '/')
}

/// Records that the file `relative_name` of a bundle was uploaded to `url`:
/// the manifest's uploads map the name, with `/` separators, to the URL.
pub fn record_uploaded_url(manifest: BundleManifest, relative_name: &str, url: &str) -> (m:
    BundleManifest)
    ensures
        m.source_url == manifest.source_url,
        m.video_id == manifest.video_id,
        m.title == manifest.title,
        m.files@ == manifest.files@,
        m.uploads@ == manifest.uploads@.insert(forward_slashes(relative_name@), url@),
{
    let mut m = manifest;
    let name = chars_of(relative_name);
    let fixed = replace_char_in(name.as_slice(), '\\', '/');
    m.uploads.insert(string_from_chars(fixed.as_slice()), url.to_owned());
    m
}

/// The file of the cut of chapter `index` (counted from 0) named `name`:
/// `cuts/NN-name.mp4`, with the chapter number counted from 1 on at least two
/// digits and the name sanitised.
pub open spec fn spec_cut_relative_name(index: nat, name: Seq<char>) -> Seq<char> {
    "cuts/"@ + decimal_padded(index + 1, 2) + "-"@ + spec_sanitize_filename(name) + ".mp4"@
}

proof fn lemma_decimal_digits(n: nat)
    ensures
        forall|k: int| 0 <= k < decimal(n).len() ==> '0' <= #[trigger] decimal(n)[k] <= '9',
    decreases n,
{
    if n >= 10 {
        lemma_decimal_digits(n / 10);
        assert forall|k: int| 0 <= k < decimal(n).len() implies '0' <= #[trigger] decimal(n)[k]
            <= '9' by {
            if k < decimal(n / 10).len() {
                assert(decimal(n)[k] == decimal(n / 10)[k]);
            }
        }
    }
}

/// A cut's name has no backslash, so writing its separators as `/` leaves it
/// as it is.
pub proof fn lemma_cut_name_keeps_its_slashes(index: nat, name: Seq<char>)
    ensures
        forward_slashes(spec_cut_relative_name(index, name)) == spec_cut_relative_name(index, name),
{
    reveal_strlit("cuts/");
    reveal_strlit("-");
    reveal_strlit(".mp4");
    let s = spec_cut_relative_name(index, name);
    let d = decimal_padded(index + 1, 2);
    let safe = spec_sanitize_filename(name);
    law_sanitized_name_is_safe(name);
    lemma_decimal_digits(index + 1);
    assert forall|k: int| 0 <= k < d.len() implies '0' <= #[trigger] d[k] <= '9' by {
        let dec = decimal(index + 1);
        if dec.len() < 2 {
            let pad = (2 - dec.len()) as nat;
            if k >= pad {
                assert(d[k] == dec[k - pad]);
            }
        }
    }
    assert forall|k: int| 0 <= k < s.len() implies #[trigger] s[k] != '\\' by {
        let a = "cuts/"@;
        if k < a.len() {
        } else if k < a.len() + d.len() {
            assert(s[k] == d[k - a.len()]);
        } else if k < a.len() + d.len() + 1 {
        } else if k < a.len() + d.len() + 1 + safe.len() {
            assert(s[k] == safe[k - a.len() - d.len() - 1]);
            assert(!is_forbidden(safe[k - a.len() - d.len() - 1]));
        } else {
        }
    }
    assert(forward_slashes(s) =~= s);
}

/// The file of the cut of chapter `chapter_index` named `chapter_name`,
/// relative to its bundle.
pub fn cut_relative_name(chapter_index: usize, chapter_name: &str) -> (r: String)
    requires
        chapter_index < u64::MAX,
    ensures
        r@ == spec_cut_relative_name(chapter_index as nat, chapter_name@),
{
    let mut out: Vec<char> = Vec::new();
    extend_with_str(&mut out, "cuts/");
    let n = decimal_padded_chars((chapter_index as u64) + 1, 2);
    extend_chars(&mut out, n.as_slice());
    extend_with_str(&mut out, "-");
    let name = sanitize_filename(chapter_name);
    extend_with_str(&mut out, name.as_str());
    extend_with_str(&mut out, ".mp4");
    string_from_chars(out.as_slice())
}

/// `s` without the copies of `pat` at its start (`trim_start_matches(pat)`).
pub open spec fn strip_leading_str(s: Seq<char>, pat: Seq<char>) -> Seq<char>
    decreases s.len(),
{
    if pat.len() > 0 && has_prefix(s, pat) {
        strip_leading_str(s.skip(pat.len() as int), pat)
    } else {
        s
    }
}

fn strip_leading_str_chars(s: &[char], pat: &str) -> (r: Vec<char>)
    ensures
        r@ == strip_leading_str(s@, pat@),
{
    let p = chars_of(pat);
    if p.len() == 0 {
        return slice_range(s, 0, s.len());
    }
    let n = s.len();
    let mut i: usize = 0;
    assert(s@.skip(0) =~= s@);
    while matches_at(s, p.as_slice(), i)
        invariant
            i <= n,
            n == s@.len(),
            p@ == pat@,
            p@.len() > 0,
            strip_leading_str(s@, pat@) == strip_leading_str(s@.skip(i as int), pat@),
        decreases n - i,
    {
        let ghost rest = s@.skip(i as int);
        assert(rest.subrange(0, p@.len() as int) =~= s@.subrange(i as int, i + p@.len()));
        assert(rest.skip(p@.len() as int) =~= s@.skip(i + p@.len()));
        i = i + p.len();
    }
    let ghost rest = s@.skip(i as int);
    assert(!has_prefix(rest, pat@)) by {
        if has_prefix(rest, pat@) {
            assert(rest.subrange(0, p@.len() as int) =~= s@.subrange(i as int, i + p@.len()));
        }
    }
    let r = slice_range(s, i, n);
    assert(r@ =~= rest);
    r
}

/// The name of an uploaded bundle file in the bucket: the bundle title
/// sanitised with `_` for spaces, a `/`, and the relative name without
/// leading `/` and `cuts/`.
pub open spec fn spec_bundle_object_name(bundle_title: Seq<char>, relative_name: Seq<char>) -> Seq<
    char,
> {
    replace_char(spec_sanitize_filename(bundle_title), ' ', '_') + seq!['/'] + strip_leading_str(
        strip_leading_str(relative_name, "/"@),
        "cuts/"@,
    )
}

/// The bucket name of the file `relative_name` of the bundle titled `bundle_title`.
pub fn bundle_object_name(bundle_title: &str, relative_name: &str) -> (r: String)
    ensures
        r@ == spec_bundle_object_name(bundle_title@, relative_name@),
{
    let title = sanitize_filename(bundle_title);
    let tc = chars_of(title.as_str());
    let folder = replace_char_in(tc.as_slice(), ' ', '_');
    let rc = chars_of(relative_name);
    let a = strip_leading_str_chars(rc.as_slice(), "/");
    let b = strip_leading_str_chars(a.as_slice(), "cuts/");
    let mut out = folder;
    out.push('/');
    extend_chars(&mut out, b.as_slice());
    string_from_chars(out.as_slice())
}

/// The FFmpeg command that cuts `duration` seconds from `start` (both
/// already written as decimal text) out of `input` into `output`,
/// re-encoding with x264 and AAC so that the cut is frame-accurate.
pub open spec fn spec_cut_args(input: Seq<char>, start: Seq<char>, duration: Seq<char>, output: Seq<char>) -> Seq<Seq<char>> {
    seq![
        "-y"@,
        "-ss"@,
        start,
        "-i"@,
        input,
        "-t"@,
        duration,
        "-c:v"@,
        "libx264"@,
        "-preset"@,
        "veryfast"@,
        "-crf"@,
        "20"@,
        "-c:a"@,
        "aac"@,
        "-movflags"@,
        "+faststart"@,
        output,
    ]
}

fn push_arg(v: &mut Vec<String>, s: &str)
    ensures
        string_views(final(v)@) == string_views(old(v)@).push(s@),
{
    let ghost before = v@;
    v.push(s.to_owned());
    assert(string_views(v@) =~= string_views(before).push(s@));
}

/// The program and arguments that cut a chapter out of a video with FFmpeg.
pub fn cut_args(ffmpeg: &str, input: &str, start: &str, duration: &str, output: &str) -> (r: (
    String,
    Vec<String>,
))
    ensures
        r.0@ == ffmpeg@,
        string_views(r.1@) == spec_cut_args(input@, start@, duration@, output@),
{
    let mut v: Vec<String> = Vec::new();
    push_arg(&mut v, "-y");
    push_arg(&mut v, "-ss");
    push_arg(&mut v, start);
    push_arg(&mut v, "-i");
    push_arg(&mut v, input);
    push_arg(&mut v, "-t");
    push_arg(&mut v, duration);
    push_arg(&mut v, "-c:v");
    push_arg(&mut v, "libx264");
    push_arg(&mut v, "-preset");
    push_arg(&mut v, "veryfast");
    push_arg(&mut v, "-crf");
    push_arg(&mut v, "20");
    push_arg(&mut v, "-c:a");
    push_arg(&mut v, "aac");
    push_arg(&mut v, "-movflags");
    push_arg(&mut v, "+faststart");
    push_arg(&mut v, output);
    assert(string_views(v@) =~= spec_cut_args(input@, start@, duration@, output@));
    (ffmpeg.to_owned(), v)
}


/// Where the cut of one chapter of a bundle is made: the bundle's video,
/// the `cuts` folder, the cut's name relative to the bundle and its path,
/// and the chapter itself.
pub struct CutTarget {
    pub video: String,
    pub cuts_dir: String,
    pub relative: String,
    pub output: String,
    pub chapter: Chapter,
}

/// Where the cut of chapter `chapter_index` of `bundle` is made. A bundle
/// without a video is refused (`Missing`), then an index out of range
/// (`Invalid`).
pub fn cut_target(bundle: &BundleInfo, chapter_index: usize) -> (r: Result<CutTarget, AppError>)
    ensures
        bundle.video_path is None ==> (r matches Err(AppError::Missing(m)) && m@
            == "bundle has no MP4 video"@),
        bundle.video_path is Some && chapter_index >= bundle.chapters@.len() ==> (r matches Err(
            AppError::Invalid(m),
        ) && m@ == "chapter index out of range"@),
        bundle.video_path is Some && chapter_index < bundle.chapters@.len() ==> (r matches Ok(t)
            && t.video@ == bundle.video_path->0@ && t.cuts_dir@ == spec_join(
            bundle.dir@,
            "cuts"@,
        ) && t.relative@ == spec_cut_relative_name(
            chapter_index as nat,
            bundle.chapters@[chapter_index as int].name@,
        ) && t.output@ == spec_join(bundle.dir@, t.relative@) && t.chapter
            == bundle.chapters@[chapter_index as int]),
{
    let video = match &bundle.video_path {
        Some(v) => v.clone(),
        None => {
            return Err(AppError::Missing("bundle has no MP4 video".to_owned()));
        },
    };
    if chapter_index >= bundle.chapters.len() {
        return Err(AppError::Invalid("chapter index out of range".to_owned()));
    }
    let chapter = bundle.chapters[chapter_index].copy();
    let cuts_dir = join(bundle.dir.as_str(), "cuts");
    let relative = cut_relative_name(chapter_index, chapter.name.as_str());
    let output = join(bundle.dir.as_str(), relative.as_str());
    Ok(CutTarget { video, cuts_dir, relative, output, chapter })
}

/// Whether a file extension (any case) names a video: `mp4`, `mkv`, `webm`
/// or `mov`.
pub open spec fn is_video_ext(ext: Seq<char>) -> bool {
    let l = lower(ext);
    l == "mp4"@ || l == "mkv"@ || l == "webm"@ || l == "mov"@
}

/// Whether the extension `ext` names a video file.
pub fn is_video_extension(ext: &str) -> (r: bool)
    ensures
        r == is_video_ext(ext@),
{
    let e = chars_of(ext);
    let mp4 = chars_of("mp4");
    let mkv = chars_of("mkv");
    let webm = chars_of("webm");
    let mov = chars_of("mov");
    proof {
        reveal_strlit("mp4");
        reveal_strlit("mkv");
        reveal_strlit("webm");
        reveal_strlit("mov");
        assert(lower("mp4"@) =~= "mp4"@);
        assert(lower("mkv"@) =~= "mkv"@);
        assert(lower("webm"@) =~= "webm"@);
        assert(lower("mov"@) =~= "mov"@);
    }
    eq_ignore_ascii_case(e.as_slice(), mp4.as_slice()) || eq_ignore_ascii_case(
        e.as_slice(),
        mkv.as_slice(),
    ) || eq_ignore_ascii_case(e.as_slice(), webm.as_slice()) || eq_ignore_ascii_case(
        e.as_slice(),
        mov.as_slice(),
    )
}

/// Whether `ext` equals one of `wanted`, ignoring ASCII case.
pub fn extension_is_one_of(ext: &str, wanted: &[&str]) -> (r: bool)
    ensures
        r == exists|i: int| 0 <= i < wanted@.len() && lower(ext@) == lower(#[trigger] wanted@[i]@),
{
    let e = chars_of(ext);
    let n = wanted.len();
    for i in 0..n
        invariant
            n == wanted@.len(),
            e@ == ext@,
            forall|j: int| 0 <= j < i ==> lower(ext@) != lower(#[trigger] wanted@[j]@),
    {
        let w = chars_of(wanted[i]);
        if eq_ignore_ascii_case(e.as_slice(), w.as_slice()) {
            return true;
        }
    }
    false
}

/// The video of a bundle among the candidate files `(size, path)` in the
/// order the folder listed them: the largest, the first one listed among
/// equally large files (a stable sort by decreasing size keeps that order).
pub fn largest_video(candidates: &Vec<(u64, String)>) -> (r: Option<String>)
    ensures
        candidates@.len() == 0 <==> r is None,
        r matches Some(p) ==> exists|i: int|
            0 <= i < candidates@.len() && #[trigger] candidates@[i].1 == p && (forall|j: int|
                0 <= j < candidates@.len() ==> candidates@[j].0 <= candidates@[i].0) && (forall|
                j: int|
                0 <= j < i ==> candidates@[j].0 < candidates@[i].0),
{
    let n = candidates.len();
    if n == 0 {
        return None;
    }
    let mut best: usize = 0;
    for i in 1..n
        invariant
            n == candidates@.len(),
            best < i <= n,
            forall|j: int| 0 <= j < i ==> candidates@[j].0 <= candidates@[best as int].0,
            forall|j: int| 0 <= j < best ==> candidates@[j].0 < candidates@[best as int].0,
    {
        if candidates[i].0 > candidates[best].0 {
            best = i;
        }
    }
    Some(candidates[best].1.clone())
}

/// The names a bundle's thumbnail may have, in the order they are tried.
pub fn thumbnail_candidates() -> (r: Vec<String>)
    ensures
        string_views(r@) == seq![
            "thumbnail.jpg"@,
            "thumbnail.jpeg"@,
            "thumbnail.png"@,
            "thumbnail.webp"@,
        ],
{
    let mut v: Vec<String> = Vec::new();
    push_arg(&mut v, "thumbnail.jpg");
    push_arg(&mut v, "thumbnail.jpeg");
    push_arg(&mut v, "thumbnail.png");
    push_arg(&mut v, "thumbnail.webp");
    assert(string_views(v@) =~= seq![
        "thumbnail.jpg"@,
        "thumbnail.jpeg"@,
        "thumbnail.png"@,
        "thumbnail.webp"@,
    ]);
    v
}

/// The name shown for a bundle folder without a title: the folder's name,
/// or `Local video`.
pub open spec fn folder_title(dir: Seq<char>) -> Seq<char> {
    match spec_file_name(dir) {
        Some(n) => n,
        None => "Local video"@,
    }
}

fn folder_title_of(dir: &str) -> (r: String)
    ensures
        r@ == folder_title(dir@),
{
    match file_name(dir) {
        Some(n) => n,
        None => "Local video".to_owned(),
    }
}

/// The chapter file assumed for a bundle without `chapters.json`.
pub fn default_chapter_file(dir: &str) -> (c: ChapterFile)
    ensures
        c.video_id@.len() == 0,
        c.video_title@ == folder_title(dir@),
        c.url@.len() == 0,
        c.chapters@.len() == 0,
        !c.available,
{
    ChapterFile {
        video_id: String::new(),
        video_title: folder_title_of(dir),
        url: String::new(),
        chapters: Vec::new(),
        available: false,
    }
}

/// A bundle from what was read in its folder `dir`: its chapter file (or
/// the default one when there is none), its largest video, transcript and
/// thumbnail, and its manifest (`None` when it could not be read, in which
/// case one is made from the chapter file). A blank title falls back to the
/// folder name.
pub fn bundle_from_parts(
    dir: &str,
    chapter_file: Option<ChapterFile>,
    video_path: Option<String>,
    transcript_path: Option<String>,
    thumbnail_path: Option<String>,
    manifest: Option<BundleManifest>,
) -> (b: BundleInfo)
    ensures
        b.dir@ == dir@,
        b.video_path == video_path,
        b.transcript_path == transcript_path,
        b.thumbnail_path == thumbnail_path,
        match chapter_file {
            Some(cf) => {
                &&& b.title@ == (if cf.video_title@.len() == 0 {
                    folder_title(dir@)
                } else {
                    cf.video_title@
                })
                &&& b.source_url == cf.url
                &&& b.video_id == cf.video_id
                &&& b.chapters@ == cf.chapters@
            },
            None => {
                &&& b.title@ == folder_title(dir@)
                &&& b.source_url@.len() == 0
                &&& b.video_id@.len() == 0
                &&& b.chapters@.len() == 0
            },
        },
        match manifest {
            Some(m) => b.manifest == m,
            None => {
                &&& b.manifest.source_url == b.source_url
                &&& b.manifest.video_id == b.video_id
                &&& b.manifest.files@ == Map::<Seq<char>, Seq<char>>::empty()
                &&& b.manifest.uploads@ == Map::<Seq<char>, Seq<char>>::empty()
                &&& match chapter_file {
                    Some(cf) => b.manifest.title == cf.video_title,
                    None => b.manifest.title@ == folder_title(dir@),
                }
            },
        },
{
    let cf = match chapter_file {
        Some(cf) => cf,
        None => default_chapter_file(dir),
    };
    let manifest = match manifest {
        Some(m) => m,
        None => BundleManifest {
            source_url: cf.url.clone(),
            video_id: cf.video_id.clone(),
            title: cf.video_title.clone(),
            files: StrMap::new(),
            uploads: StrMap::new(),
        },
    };
    let title = if cf.video_title.as_str().is_empty() {
        folder_title_of(dir)
    } else {
        cf.video_title
    };
    BundleInfo {
        dir: dir.to_owned(),
        title,
        source_url: cf.url,
        video_id: cf.video_id,
        video_path,
        transcript_path,
        thumbnail_path,
        chapters: cf.chapters,
        manifest,
    }
}

} // verus!
