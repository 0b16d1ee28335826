use video_manager_egui::config::AppConfig;
use video_manager_egui::local::cut_args;
use video_manager_egui::youtube::{download_video_args, metadata_args, subtitle_args};

#[test]
fn metadata_command_skips_download() {
    let args = metadata_args("https://youtu.be/abc");
    assert!(args.contains(&"--skip-download".to_string()));
    assert!(args.contains(&"--dump-single-json".to_string()));
}

#[test]
fn download_command_uses_configured_ffmpeg() {
    let cfg = AppConfig {
        ffmpeg_path: "/tools/ffmpeg".into(),
        ..Default::default()
    };
    let args = download_video_args(&cfg, "video.mp4", "https://youtu.be/abc");
    assert!(
        args.windows(2)
            .any(|w| w[0] == "--ffmpeg-location" && w[1] == "/tools/ffmpeg")
    );
}

#[test]
fn cut_command_reencodes_for_accurate_boundaries() {
    let (_, args) = cut_args("ffmpeg", "video.mp4", "12.500", "7.500", "cut.mp4");
    assert!(args.windows(2).any(|w| w[0] == "-c:v" && w[1] == "libx264"));
    assert!(args.windows(2).any(|w| w[0] == "-t" && w[1] == "7.500"));
}

#[test]
fn download_command_without_ffmpeg_has_no_location() {
    let cfg = AppConfig {
        ffmpeg_path: "  ".into(),
        ..Default::default()
    };
    let args = download_video_args(&cfg, "/w/video.mp4", "https://youtu.be/abc");
    assert_eq!(
        args,
        vec![
            "--no-playlist",
            "--no-warnings",
            "--merge-output-format",
            "mp4",
            "-o",
            "/w/video.mp4",
            "https://youtu.be/abc"
        ]
    );
}

#[test]
fn cut_command_is_complete() {
    let (program, args) = cut_args("/bin/ffmpeg", "in.mp4", "1.000", "2.000", "out.mp4");
    assert_eq!(program, "/bin/ffmpeg");
    assert_eq!(
        args,
        vec![
            "-y", "-ss", "1.000", "-i", "in.mp4", "-t", "2.000", "-c:v", "libx264", "-preset",
            "veryfast", "-crf", "20", "-c:a", "aac", "-movflags", "+faststart", "out.mp4"
        ]
    );
}

#[test]
fn subtitle_command_fetches_subtitles_and_thumbnail_only() {
    let args = subtitle_args("/w/.subs/%(id)s.%(ext)s", "https://youtu.be/abc");
    assert_eq!(args.len(), 13);
    assert_eq!(args[7], "de.*,en.*,de,en");
    assert_eq!(args[11], "/w/.subs/%(id)s.%(ext)s");
    assert_eq!(args[12], "https://youtu.be/abc");
}
