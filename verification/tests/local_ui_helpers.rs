use video_manager_egui::ui_helpers::{
    local_file_uri, matches_local_filter, push_log, SettingsValidation, Tab, LOG_LIMIT,
};
use video_manager_egui::config::AppConfig;

#[test]
fn local_file_uri_supports_unix_and_windows_paths() {
    assert_eq!(
        local_file_uri("/home/user/Videos/thumb.webp"),
        "file:///home/user/Videos/thumb.webp"
    );
    assert_eq!(
        local_file_uri(r"C:\Users\user\Videos\thumb.webp"),
        "file:///C:/Users/user/Videos/thumb.webp"
    );
}

#[test]
fn local_filter_is_case_insensitive_and_searches_secondary_text() {
    assert!(matches_local_filter("01-Intro.mp4", "https://media.example/Intro.mp4", "intro"));
    assert!(matches_local_filter("01-Intro.mp4", "https://media.example/Intro.mp4", "MEDIA.EXAMPLE"));
    assert!(matches_local_filter("anything", "else", "   "));
    assert!(!matches_local_filter("01-Intro.mp4", "https://media.example/Intro.mp4", "drill"));
}

#[test]
fn local_file_uri_encodes_and_keeps_web_addresses() {
    assert_eq!(local_file_uri("/a b/ü#.mp4"), "file:///a%20b/%C3%BC%23.mp4");
    assert_eq!(local_file_uri("rel/x.mp4"), "file:///rel/x.mp4");
    assert_eq!(local_file_uri("https://cdn.test/a b.mp4"), "https://cdn.test/a b.mp4");
    assert_eq!(local_file_uri(""), "file:///");
}

#[test]
fn filter_trims_the_query() {
    assert!(matches_local_filter("Pressing drill", "", "  DRILL "));
    assert!(!matches_local_filter("", "", "x"));
}

#[test]
fn default_tab_is_youtube_and_tabs_have_captions() {
    assert_eq!(Tab::default(), Tab::Youtube);
    let labels: Vec<&str> = Tab::all().iter().map(|t| t.label()).collect();
    assert_eq!(labels, vec!["YouTube", "Local Files", "R2", "Data JSON", "Settings", "Log"]);
}

#[test]
fn log_keeps_the_newest_messages() {
    let mut logs: Vec<String> = Vec::new();
    for i in 0..(LOG_LIMIT + 7) {
        push_log(&mut logs, format!("m{i}"));
    }
    assert_eq!(logs.len(), LOG_LIMIT);
    assert_eq!(logs[0], "m7");
    assert_eq!(logs[LOG_LIMIT - 1], format!("m{}", LOG_LIMIT + 6));
}

#[test]
fn r2_settings_count_as_started_once_a_credential_is_filled() {
    let mut cfg = AppConfig::default();
    assert!(!SettingsValidation::from_config(&cfg).r2_active);
    cfg.r2.public_base_url = "https://cdn.test".into();
    assert!(!SettingsValidation::from_config(&cfg).r2_active);
    cfg.r2.bucket = "clips".into();
    let v = SettingsValidation::from_config(&cfg);
    assert!(v.r2_active);
    assert_eq!(v.r2_bucket, "clips");
    assert_eq!(v.yt_dlp_path, "yt-dlp");
}
