//! The library's error type.
use vstd::prelude::*;

verus! {

/// `std::io::Error`, carried opaque.
#[verifier::external_type_specification]
#[verifier::external_body]
pub struct ExIoError(std::io::Error);

/// `toml::de::Error`, carried opaque.
#[verifier::external_type_specification]
#[verifier::external_body]
pub struct ExTomlDeError(toml::de::Error);

/// `toml::ser::Error`, carried opaque.
#[verifier::external_type_specification]
#[verifier::external_body]
pub struct ExTomlSerError(toml::ser::Error);

/// `notify::Error`, carried opaque.
#[verifier::external_type_specification]
#[verifier::external_body]
pub struct ExNotifyError(notify::Error);

/// `reqwest::Error`, carried opaque.
#[verifier::external_type_specification]
#[verifier::external_body]
pub struct ExReqwestError(reqwest::Error);

/// `zip::result::ZipError`, carried opaque.
#[verifier::external_type_specification]
#[verifier::external_body]
pub struct ExZipError(zip::result::ZipError);

/// `std::num::ParseIntError`, carried opaque.
#[verifier::external_type_specification]
#[verifier::external_body]
pub struct ExParseIntError(std::num::ParseIntError);

/// A variable that shell-style expansion could not look up: its name, the
/// message of the lookup failure, and the whole message of the expansion.
#[derive(Debug)]
pub struct ExpandFailure {
    pub var_name: String,
    pub cause: String,
    pub message: String,
}

/// Everything that can go wrong in the library.
#[derive(Debug)]
pub enum LoaderError {
    Io(std::io::Error),
    TomlDe(toml::de::Error),
    TomlSer(toml::ser::Error),
    Notify(notify::Error),
    Reqwest(reqwest::Error),
    Zip(zip::result::ZipError),
    ParseInt(std::num::ParseIntError),
    Shellexpand(ExpandFailure),
    Other(&'static str),
    NoConfig,
    WouldOverwrite,
    NotLoggedIn,
    ServerError(u16),
    NoFilesInLibrary,
    FileEmpty,
    ZipArchiveEmpty,
    ZipEntryTooLarge(String, u64),
    ZipArchiveTooLarge(u64),
    NoEpwInZipArchive,
    EcadNotFound,
}

} // verus!
