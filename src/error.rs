use vstd::prelude::*;

verus! {

/// Every way a request can fail. Each phase stops at the first error.
#[derive(Debug, PartialEq, Eq)]
pub enum RequestError {
    /// The URL cannot be split into the parts needed to build the request.
    ParseUrlError,
    /// A status line with fewer than three tokens, or a header line without `:`.
    /// Carries the offending line.
    ParseHeaderError(String),
    /// The name lookup gave no IPv4 address.
    NoAddressFound,
    /// Connecting to the peer failed; carries the cause.
    ConnectionError(String),
    /// Reading or writing the connection failed, a short body read included.
    IOError(String),
    /// The response body is not valid UTF-8.
    Utf8DecodeError,
}

/// A `RequestError` with its text as characters.
pub ghost enum ErrorView {
    ParseUrlError,
    ParseHeaderError(Seq<char>),
    NoAddressFound,
    ConnectionError(Seq<char>),
    IOError(Seq<char>),
    Utf8DecodeError,
}

impl View for RequestError {
    type V = ErrorView;

    open spec fn view(&self) -> ErrorView {
        match self {
            RequestError::ParseUrlError => ErrorView::ParseUrlError,
            RequestError::ParseHeaderError(s) => ErrorView::ParseHeaderError(s@),
            RequestError::NoAddressFound => ErrorView::NoAddressFound,
            RequestError::ConnectionError(s) => ErrorView::ConnectionError(s@),
            RequestError::IOError(s) => ErrorView::IOError(s@),
            RequestError::Utf8DecodeError => ErrorView::Utf8DecodeError,
        }
    }
}

} // verus!
