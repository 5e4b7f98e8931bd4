//! Why the enforcer could not be consulted.

use vstd::prelude::*;
use vstd::string::*;

verus! {

/// Why the enforcer could not be consulted.
#[derive(Debug, Clone, PartialEq, Eq)]
pub enum EnforcerError {
    /// The remote call failed, with this status.
    Grpc(String),
    /// The reply lacks this field.
    MissingField(&'static str),
    /// The reply holds this text where bytes in hexadecimal should be.
    InvalidHex(String),
}

/// What an error holds.
pub enum EnforcerErrorView {
    Grpc(Seq<char>),
    MissingField(Seq<char>),
    InvalidHex(Seq<char>),
}

impl View for EnforcerError {
    type V = EnforcerErrorView;

    open spec fn view(&self) -> EnforcerErrorView {
        match *self {
            EnforcerError::Grpc(status) => EnforcerErrorView::Grpc(status@),
            EnforcerError::MissingField(field) => EnforcerErrorView::MissingField(field@),
            EnforcerError::InvalidHex(text) => EnforcerErrorView::InvalidHex(text@),
        }
    }
}

impl EnforcerErrorView {
    /// What the error is printed as.
    pub open spec fn message(self) -> Seq<char> {
        match self {
            EnforcerErrorView::Grpc(status) => "enforcer RPC failed: "@ + status,
            EnforcerErrorView::MissingField(field) => "enforcer response missing field `"@ + field
                + "`"@,
            EnforcerErrorView::InvalidHex(text) => "enforcer returned invalid hex: "@ + text,
        }
    }
}

impl EnforcerError {
    /// What the error is printed as.
    pub fn message(&self) -> (text: String)
        ensures
            text@ == self@.message(),
    {
        match self {
            EnforcerError::Grpc(status) => "enforcer RPC failed: ".to_owned().concat(
                status.as_str(),
            ),
            EnforcerError::MissingField(
                field,
            ) => "enforcer response missing field `".to_owned().concat(field).concat("`"),
            EnforcerError::InvalidHex(text) => "enforcer returned invalid hex: ".to_owned().concat(
                text.as_str(),
            ),
        }
    }
}

/// What is printed ends with what the error holds, after words that tell the kinds apart.
pub proof fn lemma_messages(text: Seq<char>)
    ensures
        EnforcerErrorView::Grpc(text).message() == "enforcer RPC failed: "@ + text,
        EnforcerErrorView::InvalidHex(text).message() == "enforcer returned invalid hex: "@ + text,
        EnforcerErrorView::MissingField(text).message() == ("enforcer response missing field `"@
            + text).push('`'),
{
    reveal_strlit("`");
    let missing = "enforcer response missing field `"@ + text;
    assert(missing + "`"@ =~= missing.push('`'));
}

/// An error holds the text that it was made with.
pub proof fn lemma_errors_hold_their_text(error: EnforcerError)
    ensures
        error matches EnforcerError::Grpc(status) ==> error@ == EnforcerErrorView::Grpc(status@),
        error matches EnforcerError::MissingField(field) ==> error@
            == EnforcerErrorView::MissingField(field@),
        error matches EnforcerError::InvalidHex(text) ==> error@ == EnforcerErrorView::InvalidHex(
            text@,
        ),
{
}

} // verus!
