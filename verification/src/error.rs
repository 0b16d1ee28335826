//! The library's error type and its user-facing messages.
use vstd::prelude::*;

use crate::text::{decimal, decimal_chars, extend_chars, extend_with_str, string_from_chars};

verus! {

/// What can go wrong in the library. Errors raised by outside services are
/// carried as the text they reported.
#[derive(Clone, Debug, PartialEq, Eq)]
pub enum AppError {
    /// A file-system operation failed at `path`.
    Io { path: String, message: String },
    /// A JSON document could not be read or written.
    Json(String),
    /// An HTTP request failed.
    Http(String),
    /// An XML document could not be read.
    Xml(String),
    /// An external program exited unsuccessfully.
    Process { program: String, code: Option<i32>, stderr: String },
    /// A required value was missing.
    Missing(String),
    /// A value was invalid.
    Invalid(String),
    /// Any other failure, already worded for the user.
    Message(String),
}

/// The text of `{code:?}` for an optional exit code.
pub open spec fn exit_code_text(code: Option<i32>) -> Seq<char> {
    match code {
        None => "None"@,
        Some(c) => "Some("@ + (if c < 0 {
            seq!['-'] + decimal((-(c as int)) as nat)
        } else {
            decimal(c as nat)
        }) + ")"@,
    }
}

/// The user-facing message of an error (what the error's `Display` shows).
pub open spec fn error_message(e: AppError) -> Seq<char> {
    match e {
        AppError::Io { path, message } => "I/O error at "@ + path@ + ": "@ + message@,
        AppError::Json(m) => "JSON error: "@ + m@,
        AppError::Http(m) => "HTTP error: "@ + m@,
        AppError::Xml(m) => "XML error: "@ + m@,
        AppError::Process { program, code, stderr } => "process `"@ + program@
            + "` failed with exit code "@ + exit_code_text(code) + ": "@ + stderr@,
        AppError::Missing(m) => "missing required value: "@ + m@,
        AppError::Invalid(m) => "invalid data: "@ + m@,
        AppError::Message(m) => m@,
    }
}

fn exit_code_chars(code: Option<i32>) -> (r: Vec<char>)
    ensures
        r@ == exit_code_text(code),
{
    let mut r: Vec<char> = Vec::new();
    match code {
        None => {
            extend_with_str(&mut r, "None");
        },
        Some(c) => {
            extend_with_str(&mut r, "Some(");
            if c < 0 {
                r.push('-');
                let magnitude: u64 = if c == i32::MIN {
                    2147483648u64
                } else {
                    (-c) as u64
                };
                let d = decimal_chars(magnitude);
                extend_chars(&mut r, d.as_slice());
            } else {
                let d = decimal_chars(c as u64);
                extend_chars(&mut r, d.as_slice());
            }
            extend_with_str(&mut r, ")");
        },
    }
    r
}

impl AppError {
    /// The user-facing message of this error.
    pub fn message(&self) -> (r: String)
        ensures
            r@ == error_message(*self),
    {
        let mut v: Vec<char> = Vec::new();
        match self {
            AppError::Io { path, message } => {
                extend_with_str(&mut v, "I/O error at ");
                extend_with_str(&mut v, path.as_str());
                extend_with_str(&mut v, ": ");
                extend_with_str(&mut v, message.as_str());
            },
            AppError::Json(m) => {
                extend_with_str(&mut v, "JSON error: ");
                extend_with_str(&mut v, m.as_str());
            },
            AppError::Http(m) => {
                extend_with_str(&mut v, "HTTP error: ");
                extend_with_str(&mut v, m.as_str());
            },
            AppError::Xml(m) => {
                extend_with_str(&mut v, "XML error: ");
                extend_with_str(&mut v, m.as_str());
            },
            AppError::Process { program, code, stderr } => {
                extend_with_str(&mut v, "process `");
                extend_with_str(&mut v, program.as_str());
                extend_with_str(&mut v, "` failed with exit code ");
                let c = exit_code_chars(*code);
                extend_chars(&mut v, c.as_slice());
                extend_with_str(&mut v, ": ");
                extend_with_str(&mut v, stderr.as_str());
            },
            AppError::Missing(m) => {
                extend_with_str(&mut v, "missing required value: ");
                extend_with_str(&mut v, m.as_str());
            },
            AppError::Invalid(m) => {
                extend_with_str(&mut v, "invalid data: ");
                extend_with_str(&mut v, m.as_str());
            },
            AppError::Message(m) => {
                extend_with_str(&mut v, m.as_str());
            },
        }
        string_from_chars(v.as_slice())
    }
}

} // verus!
