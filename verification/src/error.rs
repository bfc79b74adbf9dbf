//! The failures a call can end in.

use vstd::prelude::*;
use vstd::string::*;

verus! {

/// Why a call was abandoned. Every failure ends the call it occurs in; none
/// leaves a partial result behind.
#[derive(Debug)]
pub enum AppError {
    /// A ref or an object is absent from the store.
    NotFound(String),
    /// An identifier is not a well-formed object id.
    InvalidId(String),
    /// An object's body is corrupt.
    Decode(String),
    /// The file system failed.
    Io(String),
    /// An interrupt was observed between two network steps.
    Cancelled,
    /// A path or a repository name was refused.
    Path(String),
    /// A removable device could not be inspected.
    Usb(String),
}

/// The detail text that an error carries; empty for `Cancelled`.
pub open spec fn error_detail(e: AppError) -> Seq<char> {
    match e {
        AppError::NotFound(m) => m@,
        AppError::InvalidId(m) => m@,
        AppError::Decode(m) => m@,
        AppError::Io(m) => m@,
        AppError::Cancelled => Seq::empty(),
        AppError::Path(m) => m@,
        AppError::Usb(m) => m@,
    }
}

/// The label that the message of an error starts with.
pub open spec fn error_label(e: AppError) -> Seq<char> {
    match e {
        AppError::NotFound(_) => "Not found: "@,
        AppError::InvalidId(_) => "Invalid id: "@,
        AppError::Decode(_) => "Decode error: "@,
        AppError::Io(_) => "IO error: "@,
        AppError::Cancelled => "Cancelled"@,
        AppError::Path(_) => "Path error: "@,
        AppError::Usb(_) => "USB error: "@,
    }
}

impl AppError {
    /// The text shown to a user: the label of the kind, then the detail.
    pub fn to_message(&self) -> (s: String)
        ensures
            s@ == error_label(*self) + error_detail(*self),
    {
        match self {
            AppError::NotFound(m) => String::from_str("Not found: ").concat(m.as_str()),
            AppError::InvalidId(m) => String::from_str("Invalid id: ").concat(m.as_str()),
            AppError::Decode(m) => String::from_str("Decode error: ").concat(m.as_str()),
            AppError::Io(m) => String::from_str("IO error: ").concat(m.as_str()),
            AppError::Cancelled => {
                let s = String::from_str("Cancelled");
                assert(s@ + Seq::<char>::empty() =~= s@);
                s
            },
            AppError::Path(m) => String::from_str("Path error: ").concat(m.as_str()),
            AppError::Usb(m) => String::from_str("USB error: ").concat(m.as_str()),
        }
    }
}

} // verus!
