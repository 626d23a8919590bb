//! Why a reduction failed.

use vstd::prelude::*;
use vstd::string::StringExecFns;

verus! {

/// Why a reduction failed.
#[derive(Debug, PartialEq, Eq)]
pub enum Error {
    /// The concrete types of a call do not match the declaration of the
    /// function: the declaration's key and the call's key, as text.
    Incompatible(String, String),
    /// The entry function has generic parameters.
    GenericsInMain,
    /// The reduction did not finish within its limits: the passes allowed
    /// were used up, or a version grew past what the machine can hold.
    Exhausted,
}

/// Mathematical model of an [`Error`].
pub enum ErrorView {
    Incompatible(Seq<char>, Seq<char>),
    GenericsInMain,
    Exhausted,
}

impl View for Error {
    type V = ErrorView;

    open spec fn view(&self) -> ErrorView {
        match *self {
            Error::Incompatible(d, c) => ErrorView::Incompatible(d@, c@),
            Error::GenericsInMain => ErrorView::GenericsInMain,
            Error::Exhausted => ErrorView::Exhausted,
        }
    }
}

/// The report of an error.
pub open spec fn error_text(e: ErrorView) -> Seq<char> {
    match e {
        ErrorView::Incompatible(d, c) => "Call site `"@ + c + "` incompatible with declaration `"@
            + d + "`"@,
        ErrorView::GenericsInMain => "Cannot generate code for generic function"@,
        ErrorView::Exhausted => "Reduction did not finish within its limits"@,
    }
}

impl Error {
    /// The report of the error.
    pub fn to_string(&self) -> (r: String)
        ensures
            r@ == error_text(self@),
    {
        match self {
            Error::Incompatible(d, c) => {
                let mut out = String::from_str("Call site `");
                out.append(c.as_str());
                out.append("` incompatible with declaration `");
                out.append(d.as_str());
                out.append("`");
                out
            },
            Error::GenericsInMain => String::from_str("Cannot generate code for generic function"),
            Error::Exhausted => String::from_str("Reduction did not finish within its limits"),
        }
    }
}

impl Clone for Error {
    fn clone(&self) -> (r: Error)
        ensures
            r@ == self@,
    {
        match self {
            Error::Incompatible(d, c) => Error::Incompatible(d.clone(), c.clone()),
            Error::GenericsInMain => Error::GenericsInMain,
            Error::Exhausted => Error::Exhausted,
        }
    }
}

} // verus!
