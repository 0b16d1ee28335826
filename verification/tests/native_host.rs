use video_manager_egui::config::AppConfig;
use video_manager_egui::model::{BundleInfo, BundleManifest};
use video_manager_egui::native_host::{
    action_of, allowed_origins_from_ids, browser_chapter_file, browser_chapters_to_record,
    chapter_download_args, preference_extension_ids, with_action, NON_OBJECT_RESPONSE_ERROR,
    chromium_browsers, clip_file_name, clip_time_label, download_section, extra_extension_ids,
    format_timestamp, is_native_host_launch, job_id, nonempty_or, normalize_browser_chapters,
    registration_ids, request_url, requested_action, trim_fraction_zeros, unknown_action_error,
    valid_extension_id, valid_ids_sorted, AppNativeHostBackend, BrowserChapter, NativeAction,
    RegistrationReport, HOST_NAME, KNOWN_EXTENSION_ID,
};

fn strings(v: &[&str]) -> Vec<String> {
    v.iter().map(|s| s.to_string()).collect()
}

#[test]
fn detects_browser_native_host_launch_from_extension_origin() {
    let args = strings(&[
        "video-manager-egui",
        "chrome-extension://abcdefghijklmnopabcdefghijklmnop/",
    ]);
    assert!(is_native_host_launch(&args));

    let normal = strings(&["video-manager-egui"]);
    assert!(!is_native_host_launch(&normal));
}

#[test]
fn allowed_origins_include_known_and_discovered_extensions() {
    let origins = allowed_origins_from_ids(vec![
        KNOWN_EXTENSION_ID.to_string(),
        "aaaaaaaaaaaaaaaaaaaaaaaaaaaaaaaa".to_string(),
    ]);
    assert_eq!(origins[0], "chrome-extension://aaaaaaaaaaaaaaaaaaaaaaaaaaaaaaaa/");
    assert!(origins.contains(&format!("chrome-extension://{KNOWN_EXTENSION_ID}/")));
}

#[test]
fn launch_detection_ignores_the_program_name_and_other_arguments() {
    assert!(!is_native_host_launch(&strings(&["--native-messaging-host"])));
    assert!(is_native_host_launch(&strings(&["x", "--verbose", "--native-messaging-host"])));
    assert!(is_native_host_launch(&strings(&["x", "extension://id/"])));
    assert!(!is_native_host_launch(&strings(&["x", "--native-messaging-host=1"])));
    assert!(!is_native_host_launch(&[]));
}

#[test]
fn extension_ids_are_32_letters_from_a_to_p() {
    assert!(valid_extension_id(KNOWN_EXTENSION_ID));
    assert!(valid_extension_id("pppppppppppppppppppppppppppppppp"));
    assert!(!valid_extension_id("qqqqqqqqqqqqqqqqqqqqqqqqqqqqqqqq"));
    assert!(!valid_extension_id("aaaa"));
    assert!(!valid_extension_id("INVALID"));
    assert!(!valid_extension_id("aaaaaaaaaaaaaaaaaaaaaaaaaaaaaaaaa"));
}

#[test]
fn valid_ids_are_sorted_deduplicated_and_filtered() {
    let ids = strings(&[
        "cccccccccccccccccccccccccccccccc",
        "INVALID",
        "bbbbbbbbbbbbbbbbbbbbbbbbbbbbbbbb",
        "cccccccccccccccccccccccccccccccc",
    ]);
    assert_eq!(
        valid_ids_sorted(&ids),
        strings(&["bbbbbbbbbbbbbbbbbbbbbbbbbbbbbbbb", "cccccccccccccccccccccccccccccccc"])
    );
    assert_eq!(
        allowed_origins_from_ids(ids),
        strings(&[
            "chrome-extension://bbbbbbbbbbbbbbbbbbbbbbbbbbbbbbbb/",
            "chrome-extension://cccccccccccccccccccccccccccccccc/"
        ])
    );
    assert!(allowed_origins_from_ids(Vec::new()).is_empty());
}

#[test]
fn extra_ids_are_split_trimmed_and_blank_ones_dropped() {
    assert_eq!(
        extra_extension_ids(" a,b;;c d\te\n\r f ,"),
        strings(&["a", "b", "c", "d", "e", "f"])
    );
    assert!(extra_extension_ids("").is_empty());
}

#[test]
fn the_known_extension_is_always_registered() {
    let ids = registration_ids(strings(&["dddddddddddddddddddddddddddddddd"]), Some("x, eeeeeeeeeeeeeeeeeeeeeeeeeeeeeeee"));
    assert_eq!(
        ids,
        strings(&[
            "dddddddddddddddddddddddddddddddd",
            KNOWN_EXTENSION_ID,
            "x",
            "eeeeeeeeeeeeeeeeeeeeeeeeeeeeeeee"
        ])
    );
    let origins = allowed_origins_from_ids(registration_ids(Vec::new(), None));
    assert_eq!(origins, vec![format!("chrome-extension://{KNOWN_EXTENSION_ID}/")]);
}

#[test]
fn registration_report_records_each_browser() {
    let mut report = RegistrationReport::with_origins(strings(&["o"]));
    for browser in chromium_browsers() {
        let error = if browser == "edge" { Some("denied".to_string()) } else { None };
        report.record_install(&browser, error);
    }
    assert_eq!(report.installed_browsers, strings(&["chrome", "chromium", "brave", "vivaldi"]));
    assert_eq!(report.errors, strings(&["edge: denied"]));
    assert_eq!(report.allowed_origins, strings(&["o"]));
    let failed = RegistrationReport::failed("no exe".into());
    assert_eq!(failed.errors, strings(&["no exe"]));
    assert_eq!(RegistrationReport::default().errors.len(), 0);
}

#[test]
fn actions_are_routed_by_name() {
    assert_eq!(action_of("ping"), NativeAction::Ping);
    assert_eq!(action_of("download_chapter"), NativeAction::DownloadChapter);
    assert_eq!(action_of("download_full_video"), NativeAction::DownloadFullVideo);
    assert_eq!(action_of("open_clip"), NativeAction::OpenClip);
    assert_eq!(action_of("get_jobs"), NativeAction::GetJobs);
    assert_eq!(action_of("anything_goes"), NativeAction::Unknown);
    assert_eq!(requested_action(None), "ping");
    assert_eq!(requested_action(Some("open_clip".into())), "open_clip");
    assert!(unknown_action_error("anything_goes").contains("Unknown action"));
    assert_eq!(unknown_action_error("x"), "Unknown action: x");
    assert_eq!(HOST_NAME, "com.fluent_desktop.youtube_clipper");
}

#[test]
fn request_urls_fall_back_to_the_video_id() {
    assert_eq!(request_url("abc", "https://youtu.be/x"), Some("https://youtu.be/x".into()));
    assert_eq!(request_url("abc", ""), Some("https://www.youtube.com/watch?v=abc".into()));
    assert_eq!(request_url(" ", "  "), None);
    assert_eq!(nonempty_or(Some(" ".into()), "Chapter"), "Chapter");
    assert_eq!(nonempty_or(None, "YouTube Video"), "YouTube Video");
    assert_eq!(nonempty_or(Some("Pressing".into()), "Chapter"), "Pressing");
}

#[test]
fn clip_names_use_timestamps() {
    assert_eq!(format_timestamp(0), "00:00");
    assert_eq!(format_timestamp(75), "01:15");
    assert_eq!(format_timestamp(3725), "01:02:05");
    assert_eq!(format_timestamp(360000), "100:00:00");
    assert_eq!(clip_time_label(3725), "01-02-05");
    assert_eq!(
        clip_file_name("My: Video", "Intro/1", "00-05", "end"),
        "My_ Video - Intro_1 [00-05 - end].mp4"
    );
    assert_eq!(job_id("job", 1234), "job_1234");
}

#[test]
fn seconds_are_written_without_trailing_zeros() {
    assert_eq!(trim_fraction_zeros("12.500"), "12.5");
    assert_eq!(trim_fraction_zeros("3.000"), "3");
    assert_eq!(trim_fraction_zeros("100.000"), "100");
    assert_eq!(trim_fraction_zeros("0.125"), "0.125");
    assert_eq!(download_section("5", Some("12.5")), "*5-12.5");
    assert_eq!(download_section("5", None), "*5-inf");
}

#[test]
fn chapter_downloads_cut_sections_at_keyframes() {
    let cfg = AppConfig::default();
    let args = chapter_download_args(&cfg, "/clips/a.mp4", "https://youtu.be/x", Some("*5-12.5"));
    assert_eq!(
        args,
        strings(&[
            "--no-playlist",
            "--no-warnings",
            "--merge-output-format",
            "mp4",
            "--ffmpeg-location",
            "ffmpeg",
            "--download-sections",
            "*5-12.5",
            "--force-keyframes-at-cuts",
            "-o",
            "/clips/a.mp4",
            "https://youtu.be/x"
        ])
    );
    let whole = chapter_download_args(&cfg, "o", "u", None);
    assert_eq!(whole.len(), 9);
}

fn browser(index: usize, title: &str, start: f64, end: f64) -> BrowserChapter {
    BrowserChapter {
        index,
        title: title.into(),
        start_seconds_bits: start.to_bits(),
        end_seconds_bits: end.to_bits(),
    }
}

#[test]
fn browser_chapters_keep_the_first_of_each_start() {
    let items = vec![
        browser(0, "Intro", 0.0, 10.0),
        browser(2, "  ", 10.0, 20.0),
        browser(3, "Again", 10.0, 30.0),
    ];
    let chapters = normalize_browser_chapters(&items);
    assert_eq!(chapters.len(), 2);
    assert_eq!(chapters[0].name, "Intro");
    assert_eq!(chapters[1].name, "Chapter 3");
    assert_eq!(f64::from_bits(chapters[1].end_seconds_bits), 20.0);
    assert!(chapters[1].video_url.is_empty());
    let bundle = BundleInfo {
        dir: "/w/Demo".into(),
        title: "Demo".into(),
        source_url: "https://youtu.be/abc".into(),
        video_id: "abc".into(),
        video_path: None,
        transcript_path: None,
        thumbnail_path: None,
        chapters: Vec::new(),
        manifest: BundleManifest::default(),
    };
    let file = browser_chapter_file(&bundle, chapters);
    assert!(file.available);
    assert_eq!(file.video_title, "Demo");
    assert_eq!(file.chapters.len(), 2);
}

#[test]
fn backend_folders_live_in_the_workspace() {
    let mut cfg = AppConfig::default();
    cfg.workspace_dir = "/work".into();
    let backend = AppNativeHostBackend::new(cfg);
    assert_eq!(backend.default_clip_dir(), "/work/Youtube_Clips");
    assert_eq!(backend.default_full_video_dir(), "/work/Youtube_Videos");
    let full = backend.full_video_config("/videos");
    assert_eq!(full.workspace_dir, "/videos");
    assert_eq!(full.yt_dlp_path, backend.config().yt_dlp_path);
}

#[test]
fn preference_ids_are_the_keys_of_extensions_settings() {
    let raw = r#"{"profile":{"name":"A"},"extensions":{"settings":{"elbdfelfkbnnjojpaoiongmepoohjooi":{"state":1},"not-an-id":{}}}}"#;
    let mut ids = preference_extension_ids(raw);
    ids.sort();
    assert_eq!(ids, strings(&["elbdfelfkbnnjojpaoiongmepoohjooi", "not-an-id"]));
    assert_eq!(
        valid_ids_sorted(&ids),
        strings(&["elbdfelfkbnnjojpaoiongmepoohjooi"])
    );
}

#[test]
fn preference_ids_are_empty_without_the_settings_object() {
    assert!(preference_extension_ids("not json").is_empty());
    assert!(preference_extension_ids("{}").is_empty());
    assert!(preference_extension_ids(r#"{"extensions":{}}"#).is_empty());
    assert!(preference_extension_ids(r#"{"extensions":{"settings":[1,2]}}"#).is_empty());
    assert!(preference_extension_ids(r#"{"extensions":"settings"}"#).is_empty());
}

#[test]
fn browser_chapters_are_recorded_only_when_the_download_has_none() {
    let sent = normalize_browser_chapters(&vec![browser(0, "Intro", 0.0, 10.0)]);
    let recorded = browser_chapters_to_record(&Vec::new(), sent.clone());
    assert_eq!(recorded.map(|c| c.len()), Some(1));
    assert!(browser_chapters_to_record(&Vec::new(), Vec::new()).is_none());
    assert!(browser_chapters_to_record(&sent, sent.clone()).is_none());
}

fn parsed(raw: &str) -> serde_json::Value {
    serde_json::from_str(raw).unwrap()
}

#[test]
fn answers_carry_the_requested_action() {
    assert_eq!(
        with_action(parsed(r#"{"success":true}"#), "ping"),
        parsed(r#"{"success":true,"action":"ping"}"#)
    );
    assert_eq!(
        with_action(parsed(r#"{"success":true,"action":"kept"}"#), "ping"),
        parsed(r#"{"success":true,"action":"kept"}"#)
    );
    let replaced = with_action(parsed("[1,2]"), "openClip");
    assert_eq!(replaced["success"], serde_json::Value::Bool(false));
    assert_eq!(replaced["action"], serde_json::Value::String("openClip".into()));
    assert_eq!(
        replaced["error"],
        serde_json::Value::String(NON_OBJECT_RESPONSE_ERROR.into())
    );
    assert_eq!(replaced.as_object().map(|m| m.len()), Some(3));
}
