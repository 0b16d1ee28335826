use video_manager_egui::youtube::{
    chapter_name, downloaded_manifest, metadata_title, metadata_url, sanitize_filename,
    thumbnail_file_name, video_watch_url, vtt_to_text,
};

#[test]
fn sanitizes_cross_platform_filename_characters() {
    assert_eq!(sanitize_filename("  A/B:*?  Clip  "), "A_B___ Clip");
}

#[test]
fn vtt_conversion_keeps_timestamps_and_deduplicates_lines() {
    let input = "WEBVTT\n\n00:00:01.000 --> 00:00:03.000\nHello world\n\n00:00:03.000 --> 00:00:05.000\nHello world\n\n00:00:05.000 --> 00:00:06.000\nNext line\n";
    let output = vtt_to_text(input);
    assert!(output.contains("[00:00:01.000 --> 00:00:03.000] Hello world"));
    assert!(output.contains("[00:00:05.000 --> 00:00:06.000] Next line"));
    assert_eq!(output.matches("Hello world").count(), 1);
}

#[test]
fn vtt_conversion_exact_output() {
    let input = "WEBVTT\nKind: captions\nLanguage: de\n\n1\n00:00:01.000 --> 00:00:02.000\n<c>Hallo</c> &amp;  <i>Welt</i>\nzwei\n\n00:00:02.000 --> 00:00:03.000\n\n";
    assert_eq!(
        vtt_to_text(input),
        "[00:00:01.000 --> 00:00:02.000] Hallo & Welt zwei\n"
    );
    assert_eq!(vtt_to_text("WEBVTT\n"), "");
    assert_eq!(vtt_to_text(""), "");
}

#[test]
fn sanitizing_handles_blank_dots_and_long_names() {
    assert_eq!(sanitize_filename("   "), "video");
    assert_eq!(sanitize_filename(" .. "), "video");
    assert_eq!(sanitize_filename("a\tb\n\nc"), "a b c");
    assert_eq!(sanitize_filename("name."), "name");
    let long = "x".repeat(300);
    assert_eq!(sanitize_filename(&long).len(), 120);
    let wide = "ä".repeat(100);
    let cut = sanitize_filename(&wide);
    assert_eq!(cut.chars().count(), 60);
}

#[test]
fn sanitized_names_are_safe() {
    for input in ["a/b\\c:d*e?f\"g<h>i|j", "  ..x..  ", "\u{3000}y\u{3000}", "."] {
        let out = sanitize_filename(input);
        assert!(!out.is_empty());
        assert!(out.len() <= 123);
        assert!(!out.contains(['\\', '/', '*', '?', ':', '"', '<', '>', '|']));
        assert!(!out.starts_with(' ') && !out.ends_with(' '));
        assert!(!out.starts_with('.') && !out.ends_with('.'));
    }
}

#[test]
fn metadata_fallbacks() {
    assert_eq!(metadata_title("abc", "  "), "abc");
    assert_eq!(metadata_title("abc", "Demo"), "Demo");
    assert_eq!(metadata_url("abc", ""), "https://www.youtube.com/watch?v=abc");
    assert_eq!(metadata_url("abc", "https://youtu.be/abc"), "https://youtu.be/abc");
    assert_eq!(video_watch_url("xyz"), "https://www.youtube.com/watch?v=xyz");
}

#[test]
fn chapter_names_default_to_their_number() {
    assert_eq!(chapter_name(0, "  "), "Chapter 1");
    assert_eq!(chapter_name(9, " Intro "), "Intro");
    assert_eq!(chapter_name(41, ""), "Chapter 42");
}

#[test]
fn downloaded_manifest_lists_the_bundle_files() {
    let m = downloaded_manifest("https://youtu.be/abc", "abc", "Demo", true, Some("thumbnail.webp"));
    assert_eq!(m.files.get("video"), Some("video.mp4".to_string()));
    assert_eq!(m.files.get("chapters"), Some("chapters.json".to_string()));
    assert_eq!(m.files.get("transcript"), Some("transcript.txt".to_string()));
    assert_eq!(m.files.get("thumbnail"), Some("thumbnail.webp".to_string()));
    assert_eq!(m.uploads.len(), 0);
    let bare = downloaded_manifest("u", "i", "t", false, None);
    assert_eq!(bare.files.len(), 2);
    assert_eq!(thumbnail_file_name("png"), "thumbnail.png");
}

#[test]
fn sanitizing_twice_changes_nothing() {
    let long = "é".repeat(80);
    for input in ["  A/B:*?  Clip  ", "...", "", "x. .", "a\t\tb", long.as_str(), "video"] {
        let once = sanitize_filename(input);
        assert_eq!(sanitize_filename(&once), once);
    }
}
