//! Verified core of a video workspace manager: YouTube bundle bookkeeping,
//! chapter clip naming, `data.json` playlist editing, Cloudflare R2 request
//! signing and the browser native-messaging host's decisions.
pub mod config;
pub mod data_json;
pub mod error;
pub mod local;
pub mod model;
pub mod native_host;
pub mod paths;
pub mod pipeline;
pub mod process;
pub mod r2;
pub mod strmap;
pub mod text;
pub mod ui_helpers;
pub mod vtt;
pub mod youtube;
