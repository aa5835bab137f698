//! The errors of this library.

use vstd::prelude::*;

verus! {

/// An error, with a message for a human reader.
#[derive(Debug, PartialEq, Eq, Clone)]
pub enum BaconError {
    /// An error of no particular kind.
    GeneralError(String),
    /// An error that a codec reports.
    CodecError(String),
    /// An error that a steganographer reports.
    SteganographerError(String),
}

impl BaconError {
    /// The message that the error carries.
    pub open spec fn message(&self) -> Seq<char> {
        match self {
            BaconError::GeneralError(message) => message@,
            BaconError::CodecError(message) => message@,
            BaconError::SteganographerError(message) => message@,
        }
    }

    /// What the error shows to a reader: its message.
    pub fn to_string(&self) -> (text: String)
        ensures
            text@ == self.message(),
    {
        match self {
            BaconError::GeneralError(message) => message.clone(),
            BaconError::CodecError(message) => message.clone(),
            BaconError::SteganographerError(message) => message.clone(),
        }
    }

    /// A short description of the kind of the error.
    pub fn description(&self) -> (text: &'static str)
        ensures
            self is GeneralError ==> text@ == "A general error occured"@,
            self is CodecError ==> text@ == "An error coming from a codec occured"@,
            self is SteganographerError ==> text@
                == "An error coming from a steganographer occured"@,
    {
        match self {
            BaconError::GeneralError(_) => "A general error occured",
            BaconError::CodecError(_) => "An error coming from a codec occured",
            BaconError::SteganographerError(_) => "An error coming from a steganographer occured",
        }
    }
}

} // verus!
