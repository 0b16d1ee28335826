use video_manager_egui::error::AppError;

#[test]
fn every_error_has_its_message() {
    let cases = vec![
        (
            AppError::Io { path: "/x".into(), message: "denied".into() },
            "I/O error at /x: denied",
        ),
        (AppError::Json("bad".into()), "JSON error: bad"),
        (AppError::Http("down".into()), "HTTP error: down"),
        (AppError::Xml("tag".into()), "XML error: tag"),
        (
            AppError::Process { program: "ffmpeg".into(), code: Some(-2), stderr: "oops".into() },
            "process `ffmpeg` failed with exit code Some(-2): oops",
        ),
        (
            AppError::Process { program: "yt-dlp".into(), code: None, stderr: String::new() },
            "process `yt-dlp` failed with exit code None: ",
        ),
        (AppError::Missing("R2 bucket".into()), "missing required value: R2 bucket"),
        (AppError::Invalid("x".into()), "invalid data: x"),
        (AppError::Message("plain".into()), "plain"),
    ];
    for (error, text) in cases {
        assert_eq!(error.message(), text);
    }
    let min = AppError::Process { program: "p".into(), code: Some(i32::MIN), stderr: "e".into() };
    assert_eq!(min.message(), format!("process `p` failed with exit code {:?}: e", Some(i32::MIN)));
}
