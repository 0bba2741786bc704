//! One error type for every fallible path in the library.
//!
//! Each variant carries a human-readable message; `kind` gives the stable
//! machine-readable tag the window branches on.

use vstd::prelude::*;
use vstd::string::StringExecFns;

verus! {

/// Why an operation failed.
#[derive(Debug)]
pub enum AppError {
    /// The item catalog is missing, empty, or unreadable.
    Catalog(String),
    /// Universalis could not be reached, timed out, or replied with an error.
    Universalis(String),
    /// XIVAPI could not be reached during a catalog sync.
    XivApi(String),
    /// Reading or writing the on-disk config failed.
    Config(String),
    /// The request itself was wrong (unknown item, empty world, bad hotkey).
    Invalid(String),
    /// Anything the user can neither cause nor fix.
    Internal(String),
}

/// The result of a fallible library operation.
pub type AppResult<T> = Result<T, AppError>;

impl AppError {
    /// The stable tag of each variant.
    pub open spec fn kind_spec(&self) -> Seq<char> {
        match self {
            AppError::Catalog(_) => "catalog"@,
            AppError::Universalis(_) => "universalis"@,
            AppError::XivApi(_) => "xivapi"@,
            AppError::Config(_) => "config"@,
            AppError::Invalid(_) => "invalid"@,
            AppError::Internal(_) => "internal"@,
        }
    }

    /// The text a variant carries.
    pub open spec fn detail(&self) -> Seq<char> {
        match self {
            AppError::Catalog(m) => m@,
            AppError::Universalis(m) => m@,
            AppError::XivApi(m) => m@,
            AppError::Config(m) => m@,
            AppError::Invalid(m) => m@,
            AppError::Internal(m) => m@,
        }
    }

    /// The sentence shown to the user for this error.
    pub open spec fn message_spec(&self) -> Seq<char> {
        match self {
            AppError::Catalog(m) => "item catalog unavailable: "@ + m@,
            AppError::Universalis(m) => "couldn't reach Universalis: "@ + m@,
            AppError::XivApi(m) => "couldn't reach XIVAPI: "@ + m@,
            AppError::Config(m) => "settings could not be saved: "@ + m@,
            AppError::Invalid(m) => m@,
            AppError::Internal(m) => m@,
        }
    }

    /// An `Invalid` error carrying exactly `text`.
    pub open spec fn is_invalid_with(&self, text: Seq<char>) -> bool {
        &&& self is Invalid
        &&& self.detail() == text
    }

    /// Stable machine-readable tag: one of `catalog`, `universalis`,
    /// `xivapi`, `config`, `invalid`, `internal`.
    pub fn kind(&self) -> (r: &'static str)
        ensures
            r@ == self.kind_spec(),
    {
        match self {
            AppError::Catalog(_) => "catalog",
            AppError::Universalis(_) => "universalis",
            AppError::XivApi(_) => "xivapi",
            AppError::Config(_) => "config",
            AppError::Invalid(_) => "invalid",
            AppError::Internal(_) => "internal",
        }
    }

    /// The message shown to the user.
    pub fn to_string(&self) -> (r: String)
        ensures
            r@ == self.message_spec(),
    {
        match self {
            AppError::Catalog(m) => {
                let mut s = String::from_str("item catalog unavailable: ");
                s.append(m.as_str());
                s
            },
            AppError::Universalis(m) => {
                let mut s = String::from_str("couldn't reach Universalis: ");
                s.append(m.as_str());
                s
            },
            AppError::XivApi(m) => {
                let mut s = String::from_str("couldn't reach XIVAPI: ");
                s.append(m.as_str());
                s
            },
            AppError::Config(m) => {
                let mut s = String::from_str("settings could not be saved: ");
                s.append(m.as_str());
                s
            },
            AppError::Invalid(m) => m.clone(),
            AppError::Internal(m) => m.clone(),
        }
    }
}

/// An `Invalid` error with the given message.
pub fn invalid(message: &str) -> (e: AppError)
    ensures
        e.is_invalid_with(message@),
{
    AppError::Invalid(String::from_str(message))
}

} // verus!
