//! Cutting chapters and uploading them: where each cut goes in the bucket.
use vstd::prelude::*;

use crate::data_json::relative_name;
use crate::local::{bundle_object_name, replace_char_in, spec_bundle_object_name};
use crate::model::BundleInfo;
use crate::paths::{file_name, spec_file_name, strip_prefix};
use crate::r2::{spec_key_for_filename, R2Client};
use crate::text::{chars_of, string_from_chars};

verus! {

/// The name of the bundle file `path` in the bundle's manifest: its path
/// relative to the folder `dir` (the whole path when it lies elsewhere),
/// with `/` separators.
pub fn bundle_relative_name(dir: &str, path: &str) -> (r: String)
    ensures
        r@ == relative_name(dir@, path@),
{
    let rel = match strip_prefix(path, dir) {
        Some(r) => r,
        None => path.to_owned(),
    };
    let rc = chars_of(rel.as_str());
    let fixed = replace_char_in(rc.as_slice(), '\\', '/');
    string_from_chars(fixed.as_slice())
}

/// Where the cut `output` of `bundle` is uploaded: its name in the bundle's
/// manifest, and its key in the bucket (the bundle's folder in the bucket,
/// under the client's prefix).
pub fn upload_target(client: &R2Client, bundle: &BundleInfo, output: &str) -> (r: (
    String,
    String,
))
    ensures
        r.0@ == relative_name(bundle.dir@, output@),
        r.1@ == spec_key_for_filename(
            client.spec_config().prefix@,
            spec_bundle_object_name(bundle.title@, relative_name(bundle.dir@, output@)),
        ),
{
    let relative = bundle_relative_name(bundle.dir.as_str(), output);
    let object_name = bundle_object_name(bundle.title.as_str(), relative.as_str());
    let key = client.key_for_filename(object_name.as_str());
    (relative, key)
}

/// The name of an uploaded file and its object name in the bucket: inside a
/// bundle folder, its name relative to the folder and the bundle's object
/// name (the folder's name as title, `video` when it has none); elsewhere,
/// its file name (`upload.bin` when it has none) for both.
pub open spec fn spec_upload_names(path: Seq<char>, bundle_dir: Option<Seq<char>>) -> (
    Seq<char>,
    Seq<char>,
) {
    match bundle_dir {
        Some(dir) => {
            let relative = relative_name(dir, path);
            let title = match spec_file_name(dir) {
                Some(n) => n,
                None => "video"@,
            };
            (relative, spec_bundle_object_name(title, relative))
        },
        None => {
            let name = match spec_file_name(path) {
                Some(n) => n,
                None => "upload.bin"@,
            };
            (name, name)
        },
    }
}

/// The name of the uploaded file `path` and its object name in the bucket.
pub fn upload_names(path: &str, bundle_dir: Option<&str>) -> (r: (String, String))
    ensures
        (r.0@, r.1@) == spec_upload_names(
            path@,
            match bundle_dir {
                Some(d) => Some(d@),
                None => None,
            },
        ),
{
    match bundle_dir {
        Some(dir) => {
            let relative = bundle_relative_name(dir, path);
            let title = match file_name(dir) {
                Some(n) => n,
                None => "video".to_owned(),
            };
            let object = bundle_object_name(title.as_str(), relative.as_str());
            (relative, object)
        },
        None => {
            let name = match file_name(path) {
                Some(n) => n,
                None => "upload.bin".to_owned(),
            };
            let copy = name.clone();
            (name, copy)
        },
    }
}

} // verus!
