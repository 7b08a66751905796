//! The error type shared by every module.

use vstd::prelude::*;

verus! {

/// Errors of the library.
#[derive(Clone, Debug, PartialEq)]
pub enum Error {
    /// The operation was aborted and must be retried, typically because the
    /// Raft leader changed.
    Abort,
    /// Invalid data: a decoding error or an unexpected internal value.
    InvalidData(String),
    /// Invalid user input.
    InvalidInput(String),
    /// An I/O error.
    IO(String),
}

/// What contracts say of an [`Error`]. The texts of [`Error::InvalidData`] and
/// [`Error::IO`] come from the decoder or the operating system and carry no
/// meaning, so they are left out. Where an error is passed on, contracts speak of
/// them by [`error_detail`].
pub ghost enum ErrorView {
    Abort,
    InvalidData,
    InvalidInput(Seq<char>),
    IO,
}

/// The result type of the library.
pub type Result<T> = std::result::Result<T, Error>;

impl View for Error {
    type V = ErrorView;

    open spec fn view(&self) -> ErrorView {
        match self {
            Error::Abort => ErrorView::Abort,
            Error::InvalidData(_) => ErrorView::InvalidData,
            Error::InvalidInput(text) => ErrorView::InvalidInput(text@),
            Error::IO(_) => ErrorView::IO,
        }
    }
}

/// The text of an error, where its view leaves it out.
pub open spec fn error_detail(error: Error) -> Seq<char> {
    match error {
        Error::InvalidData(detail) => detail@,
        Error::IO(detail) => detail@,
        _ => seq![],
    }
}

impl Error {
    /// Whether the error is determined by the command alone.
    ///
    /// A command that fails this way counts as applied and the error is the
    /// client's answer. Any other failure could differ between nodes.
    pub fn is_deterministic(&self) -> (r: bool)
        ensures
            r == (self@ is InvalidInput),
    {
        match self {
            Error::Abort => false,
            Error::InvalidData(_) => false,
            Error::InvalidInput(_) => true,
            Error::IO(_) => false,
        }
    }

    /// A copy of the error, text included.
    pub fn duplicate(&self) -> (r: Error)
        ensures
            r == *self,
    {
        match self {
            Error::Abort => Error::Abort,
            Error::InvalidData(text) => Error::InvalidData(text.clone()),
            Error::InvalidInput(text) => Error::InvalidInput(text.clone()),
            Error::IO(text) => Error::IO(text.clone()),
        }
    }

    /// The error as one line of text.
    pub fn message(&self) -> (r: String)
        ensures
            r@ == match self {
                Error::Abort => "operation aborted"@,
                Error::InvalidData(text) => "invalid data: "@ + text@,
                Error::InvalidInput(text) => "invalid input: "@ + text@,
                Error::IO(text) => "io error: "@ + text@,
            },
    {
        match self {
            Error::Abort => "operation aborted".to_string(),
            Error::InvalidData(text) => {
                let mut out = "invalid data: ".to_string();
                out.append(text.as_str());
                out
            },
            Error::InvalidInput(text) => {
                let mut out = "invalid input: ".to_string();
                out.append(text.as_str());
                out
            },
            Error::IO(text) => {
                let mut out = "io error: ".to_string();
                out.append(text.as_str());
                out
            },
        }
    }
}

} // verus!
