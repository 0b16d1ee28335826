//! The records the application keeps: chapters, bundle manifests, local
//! bundles, `data.json` playlists and R2 objects.
use vstd::prelude::*;

use crate::strmap::StrMap;

verus! {

/// One chapter of a video. Its start and end times are seconds held as the
/// bit patterns of IEEE-754 binary64 numbers (`f64::to_bits`); the library
/// carries them and never computes with them.
#[derive(Clone, Debug, PartialEq, Eq)]
pub struct Chapter {
    pub name: String,
    pub start_seconds_bits: u64,
    pub end_seconds_bits: u64,
    pub video_url: String,
    pub thumbnail_url: String,
}

impl Default for Chapter {
    /// An unnamed chapter from 0 to 0 seconds (the bit pattern of `0.0` is
    /// zero), without URLs.
    fn default() -> (c: Chapter)
        ensures
            c.name@.len() == 0,
            c.start_seconds_bits == 0,
            c.end_seconds_bits == 0,
            c.video_url@.len() == 0,
            c.thumbnail_url@.len() == 0,
    {
        Chapter {
            name: String::new(),
            start_seconds_bits: 0,
            end_seconds_bits: 0,
            video_url: String::new(),
            thumbnail_url: String::new(),
        }
    }
}

impl Chapter {
    /// A copy of this chapter.
    pub fn copy(&self) -> (c: Chapter)
        ensures
            c == *self,
    {
        Chapter {
            name: self.name.clone(),
            start_seconds_bits: self.start_seconds_bits,
            end_seconds_bits: self.end_seconds_bits,
            video_url: self.video_url.clone(),
            thumbnail_url: self.thumbnail_url.clone(),
        }
    }
}

/// Copies of the chapters of `v`.
pub fn copy_chapters(v: &Vec<Chapter>) -> (r: Vec<Chapter>)
    ensures
        r@ == v@,
{
    let mut r: Vec<Chapter> = Vec::new();
    let n = v.len();
    for i in 0..n
        invariant
            n == v@.len(),
            r@ == v@.take(i as int),
    {
        r.push(v[i].copy());
        assert(r@ =~= v@.take(i + 1));
    }
    assert(v@.take(n as int) =~= v@);
    r
}

/// The `chapters.json` file of a bundle.
#[derive(Clone, Debug, PartialEq, Eq)]
pub struct ChapterFile {
    pub video_id: String,
    pub video_title: String,
    pub url: String,
    pub chapters: Vec<Chapter>,
    pub available: bool,
}

/// The bookkeeping record of a bundle: the video's page,
/// id and title, the files the bundle holds, and the public URL of every
/// uploaded file by its relative name.
#[derive(Clone, Debug, PartialEq, Eq)]
pub struct BundleManifest {
    pub source_url: String,
    pub video_id: String,
    pub title: String,
    pub files: StrMap,
    pub uploads: StrMap,
}

/// Whether every field of `m` is empty.
pub open spec fn manifest_is_empty(m: BundleManifest) -> bool {
    &&& m.source_url@.len() == 0
    &&& m.video_id@.len() == 0
    &&& m.title@.len() == 0
    &&& m.files@ == Map::<Seq<char>, Seq<char>>::empty()
    &&& m.uploads@ == Map::<Seq<char>, Seq<char>>::empty()
}

impl Default for BundleManifest {
    fn default() -> (m: BundleManifest)
        ensures
            manifest_is_empty(m),
    {
        BundleManifest {
            source_url: String::new(),
            video_id: String::new(),
            title: String::new(),
            files: StrMap::new(),
            uploads: StrMap::new(),
        }
    }
}

impl BundleManifest {
    /// A copy of this manifest.
    pub fn copy(&self) -> (m: BundleManifest)
        ensures
            m.source_url == self.source_url,
            m.video_id == self.video_id,
            m.title == self.title,
            m.files@ == self.files@,
            m.uploads@ == self.uploads@,
    {
        BundleManifest {
            source_url: self.source_url.clone(),
            video_id: self.video_id.clone(),
            title: self.title.clone(),
            files: self.files.copy(),
            uploads: self.uploads.copy(),
        }
    }
}

/// A video bundle found in the workspace. Paths are file-system paths as text.
#[derive(Clone, Debug, PartialEq, Eq)]
pub struct BundleInfo {
    pub dir: String,
    pub title: String,
    pub source_url: String,
    pub video_id: String,
    pub video_path: Option<String>,
    pub transcript_path: Option<String>,
    pub thumbnail_path: Option<String>,
    pub chapters: Vec<Chapter>,
    pub manifest: BundleManifest,
}

/// A playlist of `data.json`.
#[derive(Clone, Debug, PartialEq, Eq)]
pub struct Playlist {
    pub name: String,
    pub kind: String,
    pub video_id: String,
    pub video_url: String,
    pub thumbnail_url: String,
    pub chapters: Vec<Chapter>,
}

impl Default for Playlist {
    fn default() -> (p: Playlist)
        ensures
            p.name@.len() == 0,
            p.kind@.len() == 0,
            p.video_id@.len() == 0,
            p.video_url@.len() == 0,
            p.thumbnail_url@.len() == 0,
            p.chapters@.len() == 0,
    {
        Playlist {
            name: String::new(),
            kind: String::new(),
            video_id: String::new(),
            video_url: String::new(),
            thumbnail_url: String::new(),
            chapters: Vec::new(),
        }
    }
}

/// The contents of `data.json`.
#[derive(Clone, Debug, PartialEq, Eq)]
pub struct DataFile {
    pub playlists: Vec<Playlist>,
}

impl Default for DataFile {
    fn default() -> (d: DataFile)
        ensures
            d.playlists@.len() == 0,
    {
        DataFile { playlists: Vec::new() }
    }
}

/// An object listed in the R2 bucket, with its public URL.
#[derive(Clone, Debug, PartialEq, Eq)]
pub struct R2Object {
    pub key: String,
    pub size: u64,
    pub last_modified: String,
    pub public_url: String,
}

impl Default for R2Object {
    fn default() -> (o: R2Object)
        ensures
            o.key@.len() == 0,
            o.size == 0,
            o.last_modified@.len() == 0,
            o.public_url@.len() == 0,
    {
        R2Object {
            key: String::new(),
            size: 0,
            last_modified: String::new(),
            public_url: String::new(),
        }
    }
}

} // verus!
