//! Failures of a request, and which of them another provider may cure.

use vstd::prelude::*;

use crate::number::append_decimal;
#[allow(unused_imports)]
use crate::number::decimal;
use crate::text::truncate;
#[allow(unused_imports)]
use crate::text::{trimmed, truncated};

verus! {

/// The most characters of a refused reply that an error keeps.
pub const MAX_ERROR_CHARS: usize = 300;

/// Why a request failed.
#[derive(Debug)]
pub enum Error {
    Status(u16, String),
    Transport(String),
    Decode(String),
}

impl Clone for Error {
    fn clone(&self) -> (r: Self)
        ensures
            r@ == self@,
    {
        match self {
            Error::Status(code, body) => Error::Status(*code, body.clone()),
            Error::Transport(message) => Error::Transport(message.clone()),
            Error::Decode(message) => Error::Decode(message.clone()),
        }
    }
}

/// What an [`Error`] holds.
pub enum ErrorView {
    Status(u16, Seq<char>),
    Transport(Seq<char>),
    Decode(Seq<char>),
}

impl View for Error {
    type V = ErrorView;

    open spec fn view(&self) -> ErrorView {
        match self {
            Error::Status(code, body) => ErrorView::Status(*code, body@),
            Error::Transport(message) => ErrorView::Transport(message@),
            Error::Decode(message) => ErrorView::Decode(message@),
        }
    }
}

impl ErrorView {
    /// Whether another provider may succeed where this failure came up: a refused
    /// or exhausted key, a timeout, a rate limit, a server at fault, a broken
    /// transport, an answer that makes no sense. Other statuses blame the request
    /// itself.
    pub open spec fn can_failover(self) -> bool {
        match self {
            ErrorView::Status(code, _) => code == 401 || code == 402 || code == 403 || code == 408
                || code == 429 || 500 <= code < 600,
            ErrorView::Transport(_) => true,
            ErrorView::Decode(_) => true,
        }
    }

    /// The failure in words.
    pub open spec fn message(self) -> Seq<char> {
        match self {
            ErrorView::Status(code, body) => "HTTP "@ + decimal(code as nat) + ": "@ + body,
            ErrorView::Transport(message) => "transport: "@ + message,
            ErrorView::Decode(message) => "decode: "@ + message,
        }
    }
}

impl Error {
    /// Whether another provider may succeed where this failure came up.
    pub fn can_failover(&self) -> (b: bool)
        ensures
            b == self@.can_failover(),
    {
        match self {
            Error::Status(code, _) => {
                let code: u16 = *code;
                code == 401 || code == 402 || code == 403 || code == 408 || code == 429 || (500
                    <= code && code < 600)
            },
            Error::Transport(_) => true,
            Error::Decode(_) => true,
        }
    }

    /// The failure in words.
    pub fn message(&self) -> (r: String)
        ensures
            r@ == self@.message(),
    {
        let mut r = String::new();
        match self {
            Error::Status(code, body) => {
                r.append("HTTP ");
                append_decimal(&mut r, *code as u64);
                r.append(": ");
                r.append(body.as_str());
            },
            Error::Transport(message) => {
                r.append("transport: ");
                r.append(message.as_str());
            },
            Error::Decode(message) => {
                r.append("decode: ");
                r.append(message.as_str());
            },
        }
        assert(r@ =~= self@.message());
        r
    }
}

/// What a reply with the given status and text amounts to before its text is
/// read: only status 200 carries an answer.
pub open spec fn refusal(status: u16, text: Seq<char>) -> Option<ErrorView> {
    if status == 200 {
        None
    } else {
        Some(ErrorView::Status(status, truncated(text, MAX_ERROR_CHARS as nat)))
    }
}

/// Lets a reply through when its status is 200, and turns any other into an error
/// with the shortened text.
pub fn check_status(status: u16, text: &str) -> (r: Result<(), Error>)
    ensures
        match r {
            Ok(_) => refusal(status, text@) is None,
            Err(e) => refusal(status, text@) == Some(e@),
        },
{
    if status != 200 {
        Err(Error::Status(status, truncate(text, MAX_ERROR_CHARS)))
    } else {
        Ok(())
    }
}

/// Another provider is tried after exactly these statuses, and after every failure of the
/// transport or of decoding.
pub proof fn failures_that_another_provider_may_cure(code: u16, message: Seq<char>)
    ensures
        code == 401 || code == 402 || code == 403 || code == 408 || code == 429 ==> ErrorView::Status(
            code,
            message,
        ).can_failover(),
        500 <= code <= 599 ==> ErrorView::Status(code, message).can_failover(),
        ErrorView::Status(code, message).can_failover() ==> (401 <= code <= 403) || code == 408
            || code == 429 || (500 <= code <= 599),
        ErrorView::Transport(message).can_failover(),
        ErrorView::Decode(message).can_failover(),
{
}

/// A failure says of which sort it is, and then what came with it.
pub proof fn failures_say_what_they_are(code: u16, message: Seq<char>)
    ensures
        ErrorView::Status(code, message).message() == "HTTP "@ + decimal(code as nat) + ": "@
            + message,
        ErrorView::Transport(message).message() == "transport: "@ + message,
        ErrorView::Decode(message).message() == "decode: "@ + message,
{
}

/// Only a reply with status 200 is let through. Any other becomes an error with its own
/// status and at most 300 characters of its trimmed text, and an ellipsis where there
/// were more.
pub proof fn only_status_200_is_let_through(status: u16, text: Seq<char>)
    ensures
        refusal(200, text) is None,
        status != 200 ==> {
            &&& refusal(status, text) matches Some(ErrorView::Status(code, kept))
            &&& code == status
            &&& trimmed(text).len() <= 300 ==> kept == trimmed(text)
            &&& trimmed(text).len() > 300 ==> kept.len() == 301 && kept[300] as int == 0x2026
                && forall|i: int| 0 <= i < 300 ==> #[trigger] kept[i] == trimmed(text)[i]
        },
{
}

/// An error is seen with what came with it.
pub proof fn error_view_shows_all(error: Error)
    ensures
        match error {
            Error::Status(code, body) => error@ == ErrorView::Status(code, body@),
            Error::Transport(message) => error@ == ErrorView::Transport(message@),
            Error::Decode(message) => error@ == ErrorView::Decode(message@),
        },
{
}

} // verus!
