use video_manager_egui::config::{AppConfig, R2Config, DATA_JSON_SOURCE_URL, WORKSPACE_DIR};
use video_manager_egui::config::{add_missing_vars, parse_dotenv};
use video_manager_egui::strmap::StrMap;

fn vars(pairs: &[(&str, &str)]) -> StrMap {
    StrMap::from_pairs(
        pairs
            .iter()
            .map(|(k, v)| (k.to_string(), v.to_string()))
            .collect(),
    )
}

#[test]
fn defaults_do_not_embed_r2_credentials() {
    let cfg = AppConfig::default();
    assert!(cfg.r2.access_key_id.is_empty());
    assert!(cfg.r2.secret_access_key.is_empty());
}

#[test]
fn env_overlay_sets_r2_and_tool_paths() {
    let mut cfg = AppConfig::default();
    let vars = vars(&[
        ("R2_ACCOUNT_ID", "acct"),
        ("R2_ACCESS_KEY_ID", "key"),
        ("R2_SECRET_ACCESS_KEY", "secret"),
        ("YT_DLP_PATH", "/bin/yt-dlp"),
    ]);
    cfg.apply_env_map(&vars);
    assert_eq!(cfg.r2.account_id, "acct");
    assert_eq!(cfg.r2.access_key_id, "key");
    assert_eq!(cfg.r2.secret_access_key, "secret");
    assert_eq!(cfg.yt_dlp_path, "/bin/yt-dlp");
}

#[test]
fn default_config_uses_fixed_locations_and_tools_on_path() {
    let cfg = AppConfig::default();
    assert_eq!(cfg.workspace_dir, WORKSPACE_DIR);
    assert_eq!(cfg.data_json_path, DATA_JSON_SOURCE_URL);
    assert_eq!(cfg.yt_dlp_path, "yt-dlp");
    assert_eq!(cfg.ffmpeg_path, "ffmpeg");
    assert_eq!(cfg.r2, R2Config::default());
}

#[test]
fn env_overlay_ignores_blank_values_and_keeps_other_settings() {
    let mut cfg = AppConfig::default();
    cfg.ffmpeg_path = "/opt/ffmpeg".to_string();
    let vars = vars(&[("FFMPEG_PATH", "   "), ("R2_BUCKET", "clips"), ("UNRELATED", "x")]);
    cfg.apply_env_map(&vars);
    assert_eq!(cfg.ffmpeg_path, "/opt/ffmpeg");
    assert_eq!(cfg.r2.bucket, "clips");
    assert_eq!(cfg.workspace_dir, WORKSPACE_DIR);
    assert_eq!(cfg.r2.prefix, "");
}

#[test]
fn env_overlay_applied_twice_changes_nothing_more() {
    let vars = vars(&[("R2_PREFIX", "videos"), ("YT_DLP_PATH", "/usr/bin/yt-dlp")]);
    let mut once = AppConfig::default();
    once.apply_env_map(&vars);
    let mut twice = once.clone();
    twice.apply_env_map(&vars);
    assert_eq!(once, twice);
}

#[test]
fn fixed_locations_replace_edited_ones() {
    let mut cfg = AppConfig::default();
    cfg.workspace_dir = "/elsewhere".to_string();
    cfg.data_json_path = "/tmp/data.json".to_string();
    cfg.yt_dlp_path = "/x/yt-dlp".to_string();
    let fixed = cfg.with_fixed_locations();
    assert_eq!(fixed.workspace_dir, WORKSPACE_DIR);
    assert_eq!(fixed.data_json_path, DATA_JSON_SOURCE_URL);
    assert_eq!(fixed.yt_dlp_path, "/x/yt-dlp");
}

#[test]
fn dotenv_parsing_handles_comments_export_and_quotes() {
    let raw = "# settings\n\nexport R2_BUCKET=\"clips\"\nR2_PREFIX = 'videos' \r\nnot a pair\nKEY=a=b\nR2_BUCKET=later\n";
    let m = parse_dotenv(raw);
    assert_eq!(m.get("R2_BUCKET"), Some("later".to_string()));
    assert_eq!(m.get("R2_PREFIX"), Some("videos".to_string()));
    assert_eq!(m.get("KEY"), Some("a=b".to_string()));
    assert_eq!(m.get("not a pair"), None);
    assert_eq!(m.len(), 3);
}

#[test]
fn dotenv_value_of_only_quotes_is_empty() {
    let m = parse_dotenv("A=\"'\"\nB=");
    assert_eq!(m.get("A"), Some(String::new()));
    assert_eq!(m.get("B"), Some(String::new()));
}

#[test]
fn process_variables_win_over_dotenv_files() {
    let mut env = vars(&[("R2_BUCKET", "from-env")]);
    let file = vars(&[("R2_BUCKET", "from-file"), ("R2_PREFIX", "p")]);
    add_missing_vars(&mut env, &file);
    assert_eq!(env.get("R2_BUCKET"), Some("from-env".to_string()));
    assert_eq!(env.get("R2_PREFIX"), Some("p".to_string()));
    assert_eq!(env.len(), 2);
}

#[test]
fn env_overlay_sets_workspace_and_data_json_locations() {
    let mut cfg = AppConfig::default();
    let given = vars(&[("VIDEO_MANAGER_WORKSPACE", "/w"), ("VIDEO_MANAGER_DATA_JSON", "/d.json")]);
    cfg.apply_env_map(&given);
    assert_eq!(cfg.workspace_dir, "/w");
    assert_eq!(cfg.data_json_path, "/d.json");
    assert_eq!(cfg.yt_dlp_path, "yt-dlp");
    assert_eq!(cfg.ffmpeg_path, "ffmpeg");
    assert_eq!(cfg.r2, R2Config::default());

    let mut blank = AppConfig::default();
    blank.apply_env_map(&vars(&[("VIDEO_MANAGER_WORKSPACE", "  ")]));
    assert_eq!(blank.workspace_dir, WORKSPACE_DIR);
}
