//! Polite HTTP collection: one identified client, hard limits, no evasion. This
//! is what is asked with and what is accepted; the request itself is made
//! elsewhere.

use vstd::prelude::*;
use vstd::utf8::encode_utf8;

use crate::text::{append_number, decimal, string_opt};

verus! {

/// Wikimedia's User-Agent policy requires a descriptive agent naming the tool
/// and a way to reach its operator.
pub const USER_AGENT: &'static str = "racetoturin/0.1 (+https://racetotur.in; independent noncommercial fan project; contact: evalir@init4.technology)";

/// The article response is a few hundred KB; far larger is not what we asked for.
pub const MAX_BODY_BYTES: u64 = 4 * 1024 * 1024;

/// Seconds a request may take in all.
pub const TIMEOUT_SECS: u64 = 20;

/// Seconds that connecting may take.
pub const CONNECT_TIMEOUT_SECS: u64 = 10;

/// Redirects that are followed.
pub const MAX_REDIRECTS: usize = 3;

/// Why a response is not accepted.
#[derive(Debug, Clone)]
pub enum FetchError {
    /// The status, and when the server asks to be tried again.
    Status { status: String, retry_after: Option<String> },
    TooLarge { bytes: u64 },
}

/// What a `FetchError` says.
pub enum FetchErrorModel {
    Status { status: Seq<char>, retry_after: Option<Seq<char>> },
    TooLarge { bytes: nat },
}

impl View for FetchError {
    type V = FetchErrorModel;

    open spec fn view(&self) -> FetchErrorModel {
        match *self {
            FetchError::Status { status, retry_after } => FetchErrorModel::Status {
                status: status@,
                retry_after: string_opt(retry_after),
            },
            FetchError::TooLarge { bytes } => FetchErrorModel::TooLarge { bytes: bytes as nat },
        }
    }
}

/// Whether to read the body of a response: its status has to be a success, and
/// its length, where it states one, within the cap.
pub fn accept_response(
    success: bool,
    status: &str,
    retry_after: Option<String>,
    content_length: Option<u64>,
) -> (r: Result<(), FetchError>)
    ensures
        match r {
            Ok(_) => success && (content_length matches Some(len) ==> len <= MAX_BODY_BYTES),
            Err(e) => if !success {
                e@ == (FetchErrorModel::Status {
                    status: status@,
                    retry_after: string_opt(retry_after),
                })
            } else {
                content_length matches Some(len) && len > MAX_BODY_BYTES && e@
                    == (FetchErrorModel::TooLarge { bytes: len as nat })
            },
        },
        r is Ok <==> success && (content_length matches Some(len) ==> len <= 4_194_304),
{
    if !success {
        return Err(FetchError::Status { status: status.to_string(), retry_after });
    }
    if let Some(len) = content_length {
        if len > MAX_BODY_BYTES {
            return Err(FetchError::TooLarge { bytes: len });
        }
    }
    Ok(())
}

/// Whether a body is within the cap.
pub fn accept_body(body: &str) -> (r: Result<(), FetchError>)
    ensures
        match r {
            Ok(_) => encode_utf8(body@).len() <= MAX_BODY_BYTES,
            Err(e) => encode_utf8(body@).len() > MAX_BODY_BYTES && e@ == (FetchErrorModel::TooLarge {
                bytes: encode_utf8(body@).len(),
            }),
        },
        r is Ok <==> encode_utf8(body@).len() <= 4_194_304,
{
    let len: usize = body.as_bytes().len();
    if len as u64 > MAX_BODY_BYTES {
        Err(FetchError::TooLarge { bytes: len as u64 })
    } else {
        Ok(())
    }
}

/// How an error is worded for an address.
pub open spec fn fetch_error_text(e: FetchErrorModel, url: Seq<char>) -> Seq<char> {
    match e {
        FetchErrorModel::Status { status, retry_after } => url + " returned HTTP "@ + status + (
        match retry_after {
            Some(v) => " (Retry-After: "@ + v + ")"@,
            None => seq![],
        }),
        FetchErrorModel::TooLarge { bytes } => url + " body of "@ + decimal(bytes)
            + " bytes exceeds the "@ + decimal(MAX_BODY_BYTES as nat) + "-byte cap"@,
    }
}

impl FetchError {
    pub fn message(&self, url: &str) -> (r: String)
        ensures
            r@ == fetch_error_text(self@, url@),
    {
        let mut s = url.to_string();
        match self {
            FetchError::Status { status, retry_after } => {
                s.append(" returned HTTP ");
                s.append(status.as_str());
                if let Some(v) = retry_after {
                    let mut later = " (Retry-After: ".to_string();
                    later.append(v.as_str());
                    later.append(")");
                    s.append(later.as_str());
                }
            },
            FetchError::TooLarge { bytes } => {
                s.append(" body of ");
                append_number(&mut s, *bytes);
                s.append(" bytes exceeds the ");
                append_number(&mut s, MAX_BODY_BYTES);
                s.append("-byte cap");
            },
        }
        assert(s@ =~= fetch_error_text(self@, url@));
        s
    }
}

} // verus!
