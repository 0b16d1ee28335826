use video_manager_egui::data_json::{
    add_chapter, add_playlist, move_chapter, playlist_from_bundle, remove_chapter,
    remove_playlist, upsert_bundle_playlist,
};
use video_manager_egui::error::AppError;
use video_manager_egui::model::{BundleInfo, BundleManifest, Chapter, DataFile, Playlist};
use video_manager_egui::strmap::StrMap;

fn chapter(name: &str, start: f64, end: f64, url: &str) -> Chapter {
    Chapter {
        name: name.into(),
        start_seconds_bits: start.to_bits(),
        end_seconds_bits: end.to_bits(),
        video_url: url.into(),
        thumbnail_url: String::new(),
    }
}

fn uploads(pairs: &[(&str, &str)]) -> StrMap {
    StrMap::from_pairs(
        pairs
            .iter()
            .map(|(k, v)| (k.to_string(), v.to_string()))
            .collect(),
    )
}

fn demo_bundle(uploaded: &[(&str, &str)]) -> BundleInfo {
    BundleInfo {
        dir: "/work/Demo".into(),
        title: "Demo".into(),
        source_url: "https://youtu.be/abc".into(),
        video_id: "abc".into(),
        video_path: Some("/work/Demo/video.mp4".into()),
        transcript_path: None,
        thumbnail_path: Some("/work/Demo/thumbnail.jpg".into()),
        chapters: vec![chapter("One", 0.0, 10.0, ""), chapter("Two", 10.0, 20.0, "")],
        manifest: BundleManifest {
            uploads: uploads(uploaded),
            ..BundleManifest::default()
        },
    }
}

#[test]
fn default_data_file_has_no_playlists() {
    assert!(DataFile::default().playlists.is_empty());
}

#[test]
fn playlist_mutations_add_and_remove_chapters() {
    let mut data = DataFile::default();
    add_playlist(&mut data, "Training").unwrap();
    add_chapter(
        &mut data,
        0,
        chapter("Pressing", 5.0, 12.0, "https://cdn.test/pressing.mp4"),
        12.0 < 5.0,
    )
    .unwrap();
    assert_eq!(data.playlists[0].chapters.len(), 1);
    remove_chapter(&mut data, 0, 0).unwrap();
    assert!(data.playlists[0].chapters.is_empty());
}

#[test]
fn bundle_playlist_uses_uploaded_clip_urls_from_manifest() {
    let bundle = demo_bundle(&[("cuts/01-One.mp4", "https://cdn.test/one.mp4")]);
    let playlist = playlist_from_bundle(&bundle);
    assert_eq!(playlist.kind, "direct");
    assert_eq!(playlist.chapters[0].video_url, "https://cdn.test/one.mp4");
}

#[test]
fn bundle_playlist_falls_back_to_video_and_thumbnail_urls() {
    let bundle = demo_bundle(&[
        ("video.mp4", "https://cdn.test/video.mp4"),
        ("thumbnail.jpg", "https://cdn.test/thumb.jpg"),
        ("cuts/02-Two.mp4", "https://cdn.test/two.mp4"),
    ]);
    let playlist = playlist_from_bundle(&bundle);
    assert_eq!(playlist.name, "Demo");
    assert_eq!(playlist.video_id, "abc");
    assert_eq!(playlist.video_url, "https://cdn.test/video.mp4");
    assert_eq!(playlist.thumbnail_url, "https://cdn.test/thumb.jpg");
    assert_eq!(playlist.chapters[0].video_url, "https://cdn.test/video.mp4");
    assert_eq!(playlist.chapters[1].video_url, "https://cdn.test/two.mp4");
    assert_eq!(playlist.chapters[0].thumbnail_url, "https://cdn.test/thumb.jpg");
    assert_eq!(playlist.chapters[1].start_seconds_bits, 10.0f64.to_bits());
}

#[test]
fn bundle_playlist_without_uploads_has_empty_urls() {
    let playlist = playlist_from_bundle(&demo_bundle(&[]));
    assert_eq!(playlist.video_url, "");
    assert_eq!(playlist.thumbnail_url, "");
    assert_eq!(playlist.chapters[0].video_url, "");
}

#[test]
fn add_playlist_trims_and_refuses_blank_or_duplicate_names() {
    let mut data = DataFile::default();
    assert_eq!(add_playlist(&mut data, "  Drills  ").unwrap(), 0);
    assert_eq!(data.playlists[0].name, "Drills");
    assert_eq!(data.playlists[0].kind, "direct");
    assert_eq!(
        add_playlist(&mut data, "   "),
        Err(AppError::Invalid("playlist name cannot be empty".into()))
    );
    assert_eq!(
        add_playlist(&mut data, "DRILLS"),
        Err(AppError::Invalid("playlist `DRILLS` already exists".into()))
    );
    assert_eq!(data.playlists.len(), 1);
    assert_eq!(add_playlist(&mut data, "Games").unwrap(), 1);
}

#[test]
fn chapter_edits_refuse_bad_indices_and_inputs() {
    let mut data = DataFile::default();
    add_playlist(&mut data, "P").unwrap();
    let out_of_range = Err(AppError::Invalid("playlist index out of range".into()));
    assert_eq!(add_chapter(&mut data, 3, chapter("x", 0.0, 1.0, ""), false), out_of_range);
    assert_eq!(
        add_chapter(&mut data, 0, chapter("  ", 0.0, 1.0, ""), false),
        Err(AppError::Invalid("chapter name cannot be empty".into()))
    );
    assert_eq!(
        add_chapter(&mut data, 0, chapter("x", 5.0, 1.0, ""), 1.0 < 5.0),
        Err(AppError::Invalid(
            "chapter end must be greater than or equal to start".into()
        ))
    );
    assert_eq!(
        remove_chapter(&mut data, 0, 0),
        Err(AppError::Invalid("chapter index out of range".into()))
    );
    assert_eq!(
        move_chapter(&mut data, 0, 0, 1),
        Err(AppError::Invalid("chapter index out of range".into()))
    );
    assert!(data.playlists[0].chapters.is_empty());
    assert_eq!(
        remove_playlist(&mut data, 1).map(|p| p.name),
        Err(AppError::Invalid("playlist index out of range".into()))
    );
}

#[test]
fn removing_the_added_chapter_restores_the_playlist() {
    let mut data = DataFile::default();
    add_playlist(&mut data, "P").unwrap();
    add_chapter(&mut data, 0, chapter("a", 0.0, 1.0, ""), false).unwrap();
    let before = data.clone();
    let index = add_chapter(&mut data, 0, chapter("b", 1.0, 2.0, ""), false).unwrap();
    assert_eq!(index, 1);
    let removed = remove_chapter(&mut data, 0, index).unwrap();
    assert_eq!(removed.name, "b");
    assert_eq!(data, before);
}

#[test]
fn moving_a_chapter_back_restores_the_order() {
    let mut data = DataFile::default();
    add_playlist(&mut data, "P").unwrap();
    for name in ["a", "b", "c"] {
        add_chapter(&mut data, 0, chapter(name, 0.0, 1.0, ""), false).unwrap();
    }
    let before = data.clone();
    move_chapter(&mut data, 0, 0, 2).unwrap();
    let names: Vec<&str> = data.playlists[0].chapters.iter().map(|c| c.name.as_str()).collect();
    assert_eq!(names, vec!["b", "c", "a"]);
    move_chapter(&mut data, 0, 2, 0).unwrap();
    assert_eq!(data, before);
}

#[test]
fn removing_a_playlist_returns_it() {
    let mut data = DataFile::default();
    add_playlist(&mut data, "A").unwrap();
    add_playlist(&mut data, "B").unwrap();
    let removed = remove_playlist(&mut data, 0).unwrap();
    assert_eq!(removed.name, "A");
    assert_eq!(data.playlists.len(), 1);
    assert_eq!(data.playlists[0].name, "B");
}

#[test]
fn upserting_a_bundle_replaces_by_video_id_or_name_and_is_idempotent() {
    let bundle = demo_bundle(&[]);
    let mut data = DataFile::default();
    data.playlists.push(Playlist {
        name: "Other".into(),
        kind: "direct".into(),
        ..Playlist::default()
    });
    data.playlists.push(Playlist {
        name: "Old title".into(),
        kind: "direct".into(),
        video_id: "abc".into(),
        ..Playlist::default()
    });
    assert_eq!(upsert_bundle_playlist(&mut data, &bundle), 1);
    assert_eq!(data.playlists.len(), 2);
    assert_eq!(data.playlists[1].name, "Demo");
    let once = data.clone();
    assert_eq!(upsert_bundle_playlist(&mut data, &bundle), 1);
    assert_eq!(data, once);

    let mut by_name = DataFile::default();
    by_name.playlists.push(Playlist {
        name: "demo".into(),
        ..Playlist::default()
    });
    assert_eq!(upsert_bundle_playlist(&mut by_name, &bundle), 0);
    assert_eq!(by_name.playlists[0].video_id, "abc");

    let mut empty = DataFile::default();
    assert_eq!(upsert_bundle_playlist(&mut empty, &bundle), 0);
    assert_eq!(empty.playlists.len(), 1);
}

#[test]
fn a_recorded_cut_upload_reaches_the_synced_playlist() {
    let mut bundle = demo_bundle(&[]);
    bundle.manifest = video_manager_egui::local::record_uploaded_url(
        bundle.manifest.clone(),
        "cuts\\02-Two.mp4",
        "https://cdn.test/two.mp4",
    );
    let playlist = playlist_from_bundle(&bundle);
    assert_eq!(playlist.chapters[1].video_url, "https://cdn.test/two.mp4");
    assert_eq!(playlist.chapters[0].video_url, "");
}

#[test]
fn default_chapter_is_empty_and_starts_at_zero() {
    let c = Chapter::default();
    assert!(c.name.is_empty());
    assert_eq!(f64::from_bits(c.start_seconds_bits), 0.0);
    assert_eq!(f64::from_bits(c.end_seconds_bits), 0.0);
}
