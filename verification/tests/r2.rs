use video_manager_egui::config::R2Config;
use video_manager_egui::error::AppError;
use video_manager_egui::r2::{
    aws_encode, build_authorization, canonical_object_uri, canonical_query, hmac_hex,
    sha256_hex, sigv4_timestamps, LAST_SECOND_OF_9999, PayloadHasher, signing_key, validate_config, R2Client,
};

fn full_config() -> R2Config {
    R2Config {
        account_id: "acct".into(),
        bucket: "bucket".into(),
        prefix: String::new(),
        public_base_url: String::new(),
        access_key_id: "AKID".into(),
        secret_access_key: "SECRET".into(),
    }
}

#[test]
fn aws_encoding_preserves_unreserved_and_encodes_spaces() {
    assert_eq!(aws_encode("folder/a b+c.mp4"), "folder%2Fa%20b%2Bc.mp4");
}

#[test]
fn canonical_object_uri_preserves_path_separators() {
    assert_eq!(
        canonical_object_uri("bucket", "folder/a b.mp4"),
        "/bucket/folder/a%20b.mp4"
    );
}

#[test]
fn canonical_query_sorts_encoded_pairs() {
    assert_eq!(
        canonical_query(&[("prefix", "b c"), ("list-type", "2")]),
        "list-type=2&prefix=b%20c"
    );
}

#[test]
fn authorization_contains_expected_scope_and_credential() {
    let cfg = full_config();
    let auth = build_authorization(
        &cfg,
        "GET",
        "/bucket",
        "list-type=2",
        "",
        "20260903T000000Z",
        "20260903",
    )
    .unwrap();
    assert!(
        auth.authorization
            .contains("Credential=AKID/20260903/auto/s3/aws4_request")
    );
    assert!(
        auth.authorization
            .contains("SignedHeaders=host;x-amz-content-sha256;x-amz-date")
    );
}

#[test]
fn aws_encoding_of_non_ascii_uses_utf8_bytes() {
    assert_eq!(aws_encode("ü~-_."), "%C3%BC~-_.");
    assert_eq!(aws_encode(""), "");
}

#[test]
fn canonical_query_does_not_depend_on_parameter_order() {
    let a = canonical_query(&[("b", "2"), ("a", "1"), ("c", "x y")]);
    let b = canonical_query(&[("c", "x y"), ("a", "1"), ("b", "2")]);
    assert_eq!(a, b);
    assert_eq!(a, "a=1&b=2&c=x%20y");
}

#[test]
fn canonical_object_uri_of_bucket_alone() {
    assert_eq!(canonical_object_uri("bucket", ""), "/bucket");
}

#[test]
fn hashes_match_published_test_vectors() {
    assert_eq!(
        sha256_hex(b""),
        "e3b0c44298fc1c149afbf4c8996fb92427ae41e4649b934ca495991b7852b855"
    );
    assert_eq!(
        sha256_hex(b"abc"),
        "ba7816bf8f01cfea414140de5dae2223b00361a396177a9cb410ff61f20015ad"
    );
    assert_eq!(
        hmac_hex(&[0x0b; 20], b"Hi There").unwrap(),
        "b0344c61d8db38535ca8afceaf0bf12b881dc200c9833da726e9376c2e32cff7"
    );
}

#[test]
fn signing_key_depends_on_the_day() {
    let a = signing_key("SECRET", "20260903").unwrap();
    let b = signing_key("SECRET", "20260904").unwrap();
    assert_eq!(a.len(), 32);
    assert_ne!(a, b);
    assert_eq!(a, signing_key("SECRET", "20260903").unwrap());
}

#[test]
fn missing_credentials_are_named_in_order() {
    let mut cfg = full_config();
    cfg.bucket = " ".into();
    cfg.secret_access_key = String::new();
    assert_eq!(validate_config(&cfg), Err(AppError::Missing("R2 bucket".into())));
    assert!(build_authorization(&cfg, "GET", "/", "", "", "20260903T000000Z", "20260903").is_err());
    cfg.account_id = String::new();
    assert_eq!(validate_config(&cfg), Err(AppError::Missing("R2 account id".into())));
    assert_eq!(validate_config(&full_config()), Ok(()));
    assert!(R2Client::new(cfg).is_err());
}

#[test]
fn authorization_headers_are_complete() {
    let auth = build_authorization(
        &full_config(),
        "PUT",
        "/bucket/a.mp4",
        "",
        "UNSIGNED",
        "20260903T000000Z",
        "20260903",
    )
    .unwrap();
    assert_eq!(auth.host, "acct.r2.cloudflarestorage.com");
    assert_eq!(auth.amz_date, "20260903T000000Z");
    assert_eq!(auth.payload_hash, "UNSIGNED");
    assert!(auth.authorization.starts_with("AWS4-HMAC-SHA256 Credential=AKID/20260903/auto/s3/aws4_request, SignedHeaders=host;x-amz-content-sha256;x-amz-date, Signature="));
    let signature = auth.authorization.rsplit('=').next().unwrap();
    assert_eq!(signature.len(), 64);
}

#[test]
fn client_builds_public_urls_and_keys() {
    let mut cfg = full_config();
    cfg.public_base_url = "https://cdn.test/".into();
    cfg.prefix = "/videos/".into();
    let client = R2Client::new(cfg).unwrap();
    assert_eq!(client.public_url("A b/c+d.mp4"), "https://cdn.test/A%20b/c%2Bd.mp4");
    assert_eq!(client.key_for_filename("/Demo/01.mp4"), "videos/Demo/01.mp4");
    assert!(client.require_public_base_url().is_ok());
    let object = client.listed_object("x.mp4".into(), 5, "2026".into());
    assert_eq!(object.public_url, "https://cdn.test/x.mp4");
    assert_eq!(object.size, 5);
}

#[test]
fn client_without_public_base_url_cannot_upload() {
    let client = R2Client::new(full_config()).unwrap();
    assert_eq!(client.public_url("x"), "");
    assert_eq!(client.key_for_filename("a.mp4"), "a.mp4");
    assert_eq!(
        client.require_public_base_url(),
        Err(AppError::Missing(
            "R2 public base URL (needed to write usable URLs to data.json)".into()
        ))
    );
}

#[test]
fn list_request_targets_the_bucket_with_its_prefix() {
    let mut cfg = full_config();
    cfg.prefix = "a b".into();
    let client = R2Client::new(cfg).unwrap();
    let (url, signed) = client.list_objects_request("20260903T000000Z", "20260903").unwrap();
    assert_eq!(
        url,
        "https://acct.r2.cloudflarestorage.com/bucket?list-type=2&prefix=a%20b"
    );
    assert_eq!(signed.payload_hash, sha256_hex(b""));
}

#[test]
fn upload_request_targets_the_object() {
    let client = R2Client::new(full_config()).unwrap();
    let (url, signed) = client
        .upload_request("Demo/01 One.mp4", "abc", "20260903T000000Z", "20260903")
        .unwrap();
    assert_eq!(url, "https://acct.r2.cloudflarestorage.com/bucket/Demo/01%20One.mp4");
    assert_eq!(signed.payload_hash, "abc");
}

#[test]
fn request_time_stamps_are_utc() {
    assert_eq!(
        sigv4_timestamps(1788393600),
        Some(("20260903T000000Z".to_string(), "20260903".to_string()))
    );
    assert_eq!(
        sigv4_timestamps(1788436245),
        Some(("20260903T115045Z".to_string(), "20260903".to_string()))
    );
    assert_eq!(sigv4_timestamps(i64::MAX), None);
}

#[test]
fn request_time_stamps_cover_epoch_to_year_9999() {
    assert_eq!(
        sigv4_timestamps(0),
        Some(("19700101T000000Z".to_string(), "19700101".to_string()))
    );
    assert_eq!(
        sigv4_timestamps(LAST_SECOND_OF_9999),
        Some(("99991231T235959Z".to_string(), "99991231".to_string()))
    );
}

fn percent_decode(text: &str) -> Vec<u8> {
    let bytes = text.as_bytes();
    let mut out = Vec::new();
    let mut i = 0;
    while i < bytes.len() {
        if bytes[i] == b'%' && i + 2 < bytes.len() {
            let hex = std::str::from_utf8(&bytes[i + 1..i + 3]).unwrap();
            out.push(u8::from_str_radix(hex, 16).unwrap());
            i += 3;
        } else {
            out.push(bytes[i]);
            i += 1;
        }
    }
    out
}

#[test]
fn aws_encoding_decodes_back_and_keeps_inputs_apart() {
    for input in ["folder/a b+c.mp4", "Ümlaut & ünïcode", "~-_.AZaz09", "%41", ""] {
        let encoded = aws_encode(input);
        assert_eq!(percent_decode(&encoded), input.as_bytes());
    }
    assert_ne!(aws_encode("a b"), aws_encode("a+b"));
    assert_ne!(aws_encode("%20"), aws_encode(" "));
}

#[test]
fn streamed_payload_hash_equals_hash_of_whole_body() {
    let mut hasher = PayloadHasher::new();
    hasher.update(b"ab");
    hasher.update(b"");
    hasher.update(b"c");
    let streamed = hasher.finish_hex();
    assert_eq!(streamed, sha256_hex(b"abc"));
    assert_eq!(
        streamed,
        "ba7816bf8f01cfea414140de5dae2223b00361a396177a9cb410ff61f20015ad"
    );
    assert_eq!(
        PayloadHasher::new().finish_hex(),
        "e3b0c44298fc1c149afbf4c8996fb92427ae41e4649b934ca495991b7852b855"
    );
}

#[test]
fn encoding_keeps_a_value_exactly_when_every_byte_is_unreserved() {
    for value in ["abcXYZ019-_.~", "", "Clip_01.mp4"] {
        assert_eq!(aws_encode(value), value);
    }
    for value in ["a b", "é", "a/b", "100%"] {
        assert_ne!(aws_encode(value), value);
    }
    assert_eq!(aws_encode("é"), "%C3%A9");
}
