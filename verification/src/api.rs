//! The HTTP API's messages and the rules a notification request obeys.
use vstd::prelude::*;

use crate::text::{chars_of, decimal, push_decimal, trim, trim_bounds};

verus! {

/// Name of the service in `/health` answers; the SDK checks it.
pub const APP_ID: &'static str = "x-notify-service";

/// Most characters of a title (after trimming).
pub const TITLE_MAX: usize = 200;

/// Most characters of a body.
pub const BODY_MAX: usize = 2000;

/// A notification request: a title and an optional HTML body.
pub struct NotifyRequest {
    pub title: String,
    pub body: Option<String>,
}

/// Answer to `GET /health`.
pub struct HealthResponse {
    pub app: &'static str,
    pub version: &'static str,
    pub port: u16,
}

/// Channel that showed a notification.
#[derive(Debug, Clone, Copy, PartialEq, Eq, Structural)]
pub enum NotifyVia {
    Popup,
    System,
}

impl NotifyVia {
    pub open spec fn name(self) -> Seq<char> {
        match self {
            NotifyVia::Popup => "popup"@,
            NotifyVia::System => "system"@,
        }
    }

    /// `"popup"` or `"system"`, as the channel is written in answers.
    pub fn as_str(self) -> (r: &'static str)
        ensures
            r@ == self.name(),
    {
        match self {
            NotifyVia::Popup => "popup",
            NotifyVia::System => "system",
        }
    }
}

/// Answer to an accepted `POST /notify`.
pub struct NotifyResponse {
    pub ok: bool,
    pub via: NotifyVia,
}

/// Answer to a refused request.
pub struct ErrorResponse {
    pub ok: bool,
    pub error: String,
}

/// Why a notification request was refused.
pub enum NotifyError {
    /// The body is not valid JSON (400).
    BadJson(String),
    /// The trimmed title is empty (422).
    EmptyTitle,
    /// The trimmed title is longer than `TITLE_MAX` characters (422).
    TitleTooLong,
    /// The body is longer than `BODY_MAX` characters (422).
    BodyTooLong,
}

pub open spec fn status_of(e: NotifyError) -> u16 {
    match e {
        NotifyError::BadJson(_) => 400,
        _ => 422,
    }
}

/// Text of a refusal, as callers are told it.
pub open spec fn message_of(e: NotifyError) -> Seq<char> {
    match e {
        NotifyError::BadJson(detail) => "JSON 解析失败: "@ + detail@,
        NotifyError::EmptyTitle => "title 不能为空"@,
        NotifyError::TitleTooLong => "title 过长(最多 "@ + decimal(TITLE_MAX as nat) + " 字符)"@,
        NotifyError::BodyTooLong => "body 过长(最多 "@ + decimal(BODY_MAX as nat) + " 字符)"@,
    }
}

impl NotifyError {
    /// HTTP status: 400 for malformed JSON, 422 for a refused request.
    pub fn status(&self) -> (r: u16)
        ensures
            r == status_of(*self),
    {
        match self {
            NotifyError::BadJson(_) => 400,
            NotifyError::EmptyTitle | NotifyError::TitleTooLong | NotifyError::BodyTooLong => 422,
        }
    }

    /// The refusal's text.
    pub fn message(&self) -> (r: String)
        ensures
            r@ == message_of(*self),
    {
        let mut s = String::new();
        match self {
            NotifyError::BadJson(detail) => {
                s.push_str("JSON 解析失败: ");
                s.push_str(detail.as_str());
            },
            NotifyError::EmptyTitle => {
                s.push_str("title 不能为空");
            },
            NotifyError::TitleTooLong => {
                s.push_str("title 过长(最多 ");
                push_decimal(&mut s, TITLE_MAX as u64);
                s.push_str(" 字符)");
            },
            NotifyError::BodyTooLong => {
                s.push_str("body 过长(最多 ");
                push_decimal(&mut s, BODY_MAX as u64);
                s.push_str(" 字符)");
            },
        }
        s
    }
}

pub open spec fn body_view(body: Option<String>) -> Option<Seq<char>> {
    match body {
        Some(b) => Some(b@),
        None => None,
    }
}

/// The refusal a request earns, if any: an empty trimmed title, then a
/// trimmed title over `TITLE_MAX` characters, then a body over `BODY_MAX`.
pub open spec fn request_error(title: Seq<char>, body: Option<Seq<char>>) -> Option<NotifyError> {
    let t = trim(title);
    if t.len() == 0 {
        Some(NotifyError::EmptyTitle)
    } else if t.len() > TITLE_MAX {
        Some(NotifyError::TitleTooLong)
    } else if body matches Some(b) && b.len() > BODY_MAX {
        Some(NotifyError::BodyTooLong)
    } else {
        None
    }
}

impl NotifyRequest {
    /// Checks the request: `Ok` exactly when no rule refuses it.
    pub fn validate(&self) -> (r: Result<(), NotifyError>)
        ensures
            r == (match request_error(self.title@, body_view(self.body)) {
                Some(e) => Err(e),
                None => Ok(()),
            }),
    {
        let title = chars_of(self.title.as_str());
        let (a, b) = trim_bounds(&title);
        if b - a == 0 {
            return Err(NotifyError::EmptyTitle);
        }
        if b - a > TITLE_MAX {
            return Err(NotifyError::TitleTooLong);
        }
        match &self.body {
            Some(body) => {
                let chars = chars_of(body.as_str());
                if chars.len() > BODY_MAX {
                    return Err(NotifyError::BodyTooLong);
                }
            },
            None => {},
        }
        Ok(())
    }
}

} // verus!
