use video_manager_egui::error::AppError;
use video_manager_egui::local::{
    bundle_from_parts, bundle_object_name, cut_relative_name, cut_target, default_chapter_file,
    extension_is_one_of, is_video_extension, largest_video, record_uploaded_url,
    thumbnail_candidates,
};
use video_manager_egui::model::{BundleInfo, BundleManifest, Chapter, ChapterFile};
use video_manager_egui::paths::{file_name, join, sort_unique_paths, strip_prefix};
use video_manager_egui::pipeline::bundle_relative_name;

fn chapter(name: &str) -> Chapter {
    Chapter {
        name: name.into(),
        start_seconds_bits: 0.0f64.to_bits(),
        end_seconds_bits: 10.0f64.to_bits(),
        video_url: String::new(),
        thumbnail_url: String::new(),
    }
}

#[test]
fn records_uploaded_url_in_manifest() {
    let manifest = record_uploaded_url(
        BundleManifest::default(),
        "cuts/one.mp4",
        "https://cdn.test/one.mp4",
    );
    assert_eq!(
        manifest.uploads.get("cuts/one.mp4"),
        Some("https://cdn.test/one.mp4".to_string())
    );
}

#[test]
fn recorded_names_use_forward_slashes_and_later_uploads_win() {
    let first = record_uploaded_url(BundleManifest::default(), "cuts\\two.mp4", "https://a/1");
    let second = record_uploaded_url(first, "cuts/two.mp4", "https://a/2");
    assert_eq!(second.uploads.get("cuts/two.mp4"), Some("https://a/2".to_string()));
    assert_eq!(second.uploads.len(), 1);
}

#[test]
fn cut_names_are_numbered_from_one_and_sanitised() {
    assert_eq!(cut_relative_name(0, "Intro: Part 1"), "cuts/01-Intro_ Part 1.mp4");
    assert_eq!(cut_relative_name(11, "  "), "cuts/12-video.mp4");
    assert_eq!(cut_relative_name(99, "x"), "cuts/100-x.mp4");
}

#[test]
fn bucket_names_use_the_bundle_folder_without_the_cuts_prefix() {
    assert_eq!(bundle_object_name("My Demo", "cuts/01-One.mp4"), "My_Demo/01-One.mp4");
    assert_eq!(bundle_object_name("A/B", "/video.mp4"), "A_B/video.mp4");
}

#[test]
fn cut_target_checks_video_then_index() {
    let mut bundle = BundleInfo {
        dir: "/work/Demo".into(),
        title: "Demo".into(),
        source_url: String::new(),
        video_id: String::new(),
        video_path: None,
        transcript_path: None,
        thumbnail_path: None,
        chapters: vec![chapter("One")],
        manifest: BundleManifest::default(),
    };
    assert_eq!(
        cut_target(&bundle, 5).err(),
        Some(AppError::Missing("bundle has no MP4 video".into()))
    );
    bundle.video_path = Some("/work/Demo/video.mp4".into());
    assert_eq!(
        cut_target(&bundle, 5).err(),
        Some(AppError::Invalid("chapter index out of range".into()))
    );
    let t = cut_target(&bundle, 0).ok().unwrap();
    assert_eq!(t.video, "/work/Demo/video.mp4");
    assert_eq!(t.cuts_dir, "/work/Demo/cuts");
    assert_eq!(t.relative, "cuts/01-One.mp4");
    assert_eq!(t.output, "/work/Demo/cuts/01-One.mp4");
    assert_eq!(t.chapter, bundle.chapters[0]);
}

#[test]
fn video_extensions_ignore_case() {
    assert!(is_video_extension("MP4"));
    assert!(is_video_extension("webm"));
    assert!(!is_video_extension("mp3"));
    assert!(extension_is_one_of("JPG", &["jpg", "png"]));
    assert!(!extension_is_one_of("gif", &["jpg", "png"]));
}

#[test]
fn largest_video_prefers_the_biggest_and_the_first_among_equals() {
    assert_eq!(largest_video(&vec![]), None);
    let candidates = vec![
        (10, "a.mp4".to_string()),
        (30, "b.mkv".to_string()),
        (30, "c.webm".to_string()),
    ];
    assert_eq!(largest_video(&candidates), Some("b.mkv".to_string()));
}

#[test]
fn thumbnails_are_looked_up_in_order() {
    assert_eq!(
        thumbnail_candidates(),
        vec!["thumbnail.jpg", "thumbnail.jpeg", "thumbnail.png", "thumbnail.webp"]
    );
}

#[test]
fn bundle_without_chapter_file_is_named_after_its_folder() {
    let c = default_chapter_file("/work/My Video");
    assert_eq!(c.video_title, "My Video");
    assert!(!c.available);
    let b = bundle_from_parts("/work/My Video", None, Some("/work/My Video/v.mp4".into()), None, None, None);
    assert_eq!(b.title, "My Video");
    assert_eq!(b.manifest.title, "My Video");
    assert!(b.chapters.is_empty());
}

#[test]
fn bundle_takes_title_and_chapters_from_its_chapter_file() {
    let cf = ChapterFile {
        video_id: "abc".into(),
        video_title: "Demo".into(),
        url: "https://youtu.be/abc".into(),
        chapters: vec![chapter("One")],
        available: true,
    };
    let b = bundle_from_parts("/work/x", Some(cf), None, None, None, None);
    assert_eq!(b.title, "Demo");
    assert_eq!(b.video_id, "abc");
    assert_eq!(b.chapters.len(), 1);
    assert_eq!(b.manifest.source_url, "https://youtu.be/abc");
}

#[test]
fn paths_join_strip_and_name() {
    assert_eq!(join("/work/", "a"), "/work/a");
    assert_eq!(join("/work", "a"), "/work/a");
    assert_eq!(join("", "a"), "a");
    assert_eq!(join("/work", "/abs"), "/abs");
    assert_eq!(strip_prefix("/work/Demo/cuts/a.mp4", "/work/Demo"), Some("cuts/a.mp4".to_string()));
    assert_eq!(strip_prefix("/other/a.mp4", "/work/Demo"), None);
    assert_eq!(file_name("/work/Demo/"), Some("Demo".to_string()));
    assert_eq!(file_name("/"), None);
}

#[test]
fn relative_names_in_bundles() {
    assert_eq!(bundle_relative_name("/work/Demo", "/work/Demo/cuts/01-One.mp4"), "cuts/01-One.mp4");
    assert_eq!(bundle_relative_name("/work/Demo", "C:\\x\\y.mp4"), "C:/x/y.mp4");
}

#[test]
fn bundle_folders_are_sorted_as_paths_and_listed_once() {
    let paths: Vec<String> = ["/w/b", "/w/a", "/w//a", "/w/Youtube_Videos/x", "/w/Youtube_Videos-2"]
        .iter()
        .map(|s| s.to_string())
        .collect();
    assert_eq!(
        sort_unique_paths(&paths),
        vec!["/w/Youtube_Videos/x", "/w/Youtube_Videos-2", "/w/a", "/w/b"]
    );
    let kinds: Vec<String> = ["a", "/a", "./a", "../a", "-"].iter().map(|s| s.to_string()).collect();
    assert_eq!(sort_unique_paths(&kinds), vec!["/a", "./a", "../a", "-", "a"]);
    assert!(sort_unique_paths(&Vec::new()).is_empty());
}
