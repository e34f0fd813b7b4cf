//! The error taxonomy of the bridge: a model may deliberately decline an
//! operation (`NotImplemented`, non-critical during sequence execution) or
//! fail (`Other`, critical).

use vstd::prelude::*;

verus! {

/// The model of an [`MbtError`]: the kind and the message characters.
pub enum ErrorModel {
    NotImplemented(Seq<char>),
    Other(Seq<char>),
}

/// The message characters of an error model.
pub open spec fn message_of(e: ErrorModel) -> Seq<char> {
    match e {
        ErrorModel::NotImplemented(s) => s,
        ErrorModel::Other(s) => s,
    }
}

/// An error reported by the bridge or by the user's model.
#[derive(Debug, PartialEq, Eq)]
pub enum MbtError {
    NotImplemented(String),
    Other(String),
}

impl View for MbtError {
    type V = ErrorModel;

    open spec fn view(&self) -> ErrorModel {
        match self {
            MbtError::NotImplemented(s) => ErrorModel::NotImplemented(s@),
            MbtError::Other(s) => ErrorModel::Other(s@),
        }
    }
}

impl MbtError {
    /// A generic execution failure with the given message.
    pub fn other(message: String) -> (r: MbtError)
        ensures
            r@ == ErrorModel::Other(message@),
    {
        MbtError::Other(message)
    }

    /// A deliberate refusal with the given message.
    pub fn not_implemented(message: String) -> (r: MbtError)
        ensures
            r@ == ErrorModel::NotImplemented(message@),
    {
        MbtError::NotImplemented(message)
    }

    /// Relies on the standard `Display` formatting of the source error to
    /// produce the message text; the result is always the `Other` kind.
    #[verifier::external_body]
    pub fn from_err<E: std::error::Error>(error: E) -> (r: MbtError)
        ensures
            r@ is Other,
    {
        MbtError::Other(format!("{}", error))
    }

    /// Whether the error is the deliberate-refusal kind.
    pub fn is_not_implemented(&self) -> (r: bool)
        ensures
            r == (self@ is NotImplemented),
    {
        match self {
            MbtError::NotImplemented(_) => true,
            _ => false,
        }
    }

    /// The message text of the error.
    pub fn message(&self) -> (r: &str)
        ensures
            r@ == message_of(self@),
    {
        match self {
            MbtError::NotImplemented(s) => s.as_str(),
            MbtError::Other(s) => s.as_str(),
        }
    }

    /// An owned copy of the error, equal at the model level.
    pub fn duplicate(&self) -> (r: MbtError)
        ensures
            r@ == self@,
    {
        match self {
            MbtError::NotImplemented(s) => MbtError::NotImplemented(s.clone()),
            MbtError::Other(s) => MbtError::Other(s.clone()),
        }
    }
}

} // verus!
