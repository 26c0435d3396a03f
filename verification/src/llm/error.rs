//! Errors of the providers.

use vstd::prelude::*;

use crate::text::{decimal, to_decimal};

verus! {

/// An error of a provider or of the chain of providers.
#[derive(Debug)]
pub enum Error {
    /// The request failed.
    Http {
        /// The provider.
        provider: &'static str,
        /// Why, in words.
        source: String,
    },
    /// The provider answered with a status other than success.
    Api {
        /// The provider.
        provider: &'static str,
        /// The status.
        status: u16,
        /// The start of the answer.
        body: String,
    },
    /// The answer has not the expected form.
    BadResponse {
        /// The provider.
        provider: &'static str,
        /// What is wrong with it.
        reason: String,
    },
    /// There is no provider to ask.
    NoProviders,
    /// Every provider failed.
    AllProvidersFailed {
        /// The error of the last, in words.
        last: String,
    },
    /// A provider's configuration lacks something.
    Config(String),
    /// The answer is not JSON.
    Json(String),
    /// A file could not be read or written.
    Io(String),
}

/// An error as plain values.
#[verifier::ext_equal]
pub enum ErrorView {
    Http { provider: Seq<char>, source: Seq<char> },
    Api { provider: Seq<char>, status: u16, body: Seq<char> },
    BadResponse { provider: Seq<char>, reason: Seq<char> },
    NoProviders,
    AllProvidersFailed { last: Seq<char> },
    Config(Seq<char>),
    Json(Seq<char>),
    Io(Seq<char>),
}

impl View for Error {
    type V = ErrorView;

    open spec fn view(&self) -> ErrorView {
        match self {
            Error::Http { provider, source } => ErrorView::Http {
                provider: provider@,
                source: source@,
            },
            Error::Api { provider, status, body } => ErrorView::Api {
                provider: provider@,
                status: *status,
                body: body@,
            },
            Error::BadResponse { provider, reason } => ErrorView::BadResponse {
                provider: provider@,
                reason: reason@,
            },
            Error::NoProviders => ErrorView::NoProviders,
            Error::AllProvidersFailed { last } => ErrorView::AllProvidersFailed { last: last@ },
            Error::Config(s) => ErrorView::Config(s@),
            Error::Json(s) => ErrorView::Json(s@),
            Error::Io(s) => ErrorView::Io(s@),
        }
    }
}

/// An error in words.
pub open spec fn error_words(e: ErrorView) -> Seq<char> {
    match e {
        ErrorView::Http { provider, source } => "HTTP error talking to "@ + provider + ": "@
            + source,
        ErrorView::Api { provider, status, body } => provider + " returned HTTP "@ + decimal(
            status as nat,
        ) + ": "@ + body,
        ErrorView::BadResponse { provider, reason } => provider
            + " returned a malformed response: "@ + reason,
        ErrorView::NoProviders => "no providers configured — call add_provider() first"@,
        ErrorView::AllProvidersFailed { last } => "all providers failed; last error: "@ + last,
        ErrorView::Config(s) => "invalid provider config: "@ + s,
        ErrorView::Json(s) => "JSON error: "@ + s,
        ErrorView::Io(s) => "I/O error: "@ + s,
    }
}

impl Error {
    /// The error in words.
    pub fn message(&self) -> (r: String)
        ensures
            r@ == error_words(self@),
    {
        match self {
            Error::Http { provider, source } => {
                let mut r = "HTTP error talking to ".to_owned();
                r.append(provider);
                r.append(": ");
                r.append(source);
                r
            },
            Error::Api { provider, status, body } => {
                let mut r = (*provider).to_owned();
                r.append(" returned HTTP ");
                r.append(&to_decimal(*status as u64));
                r.append(": ");
                r.append(body);
                r
            },
            Error::BadResponse { provider, reason } => {
                let mut r = (*provider).to_owned();
                r.append(" returned a malformed response: ");
                r.append(reason);
                r
            },
            Error::NoProviders => "no providers configured — call add_provider() first".to_owned(),
            Error::AllProvidersFailed { last } => {
                let mut r = "all providers failed; last error: ".to_owned();
                r.append(last);
                r
            },
            Error::Config(s) => {
                let mut r = "invalid provider config: ".to_owned();
                r.append(s);
                r
            },
            Error::Json(s) => {
                let mut r = "JSON error: ".to_owned();
                r.append(s);
                r
            },
            Error::Io(s) => {
                let mut r = "I/O error: ".to_owned();
                r.append(s);
                r
            },
        }
    }
}

} // verus!
