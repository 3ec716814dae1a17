//! What can end a build.

use vstd::prelude::*;

verus! {

/// What is wrong with one asset record.
#[derive(Clone, Copy, Debug, PartialEq, Eq, Structural)]
pub enum AssetError {
    /// The record has no origin field.
    MissingOrigin,
    /// The record has no target field.
    MissingTarget,
    /// The record has no mode field.
    MissingMode,
    /// The mode field is not an octal permission value.
    InvalidMode,
    /// The target field is empty.
    EmptyTarget,
    /// The target names a directory and the origin ends in no file name.
    NoFileName,
}

/// What is wrong with the configuration.
#[derive(Clone, Copy, Debug, PartialEq, Eq, Structural)]
pub enum ConfigError {
    /// The asset at `index` is malformed.
    Asset { index: usize, reason: AssetError },
    /// The license file reference names no path.
    MissingLicenseFile,
}

/// Why an entry did not reach the archive.
#[derive(Clone, Copy, Debug, PartialEq, Eq, Structural)]
pub enum WriteError {
    /// The archive format cannot hold the entry's path.
    Encoding,
    /// Appending to the archive failed.
    Io,
}

/// Why a build was given up. Every one of these ends the build: what the
/// archive holds afterwards is no package payload.
#[derive(Clone, Copy, Debug, PartialEq, Eq, Structural)]
pub enum Error {
    /// The configuration is malformed.
    Config(ConfigError),
    /// No content was handed over for the asset at `asset`.
    MissingContent { asset: usize },
    /// The entry at `entry`, counted over the entries that the call was to
    /// write, did not reach the archive.
    Write { entry: usize, reason: WriteError },
    /// The end of the archive could not be written.
    Finish,
}

impl AssetError {
    /// What the user is told of the error.
    pub open spec fn text(self) -> Seq<char> {
        match self {
            AssetError::MissingOrigin => "cargo-deb: unable to get asset's path"@,
            AssetError::MissingTarget => "cargo-deb: unable to get asset's target"@,
            AssetError::MissingMode => "cargo-deb: unable to get chmod argument"@,
            AssetError::InvalidMode => "cargo-deb: chmod argument is not an octal number"@,
            AssetError::EmptyTarget => "cargo-deb: asset's target is empty"@,
            AssetError::NoFileName => "cargo-deb: asset's path has no file name"@,
        }
    }

    /// A short message that names what failed.
    pub fn message(&self) -> (text: &'static str)
        ensures
            text@ == self.text(),
    {
        match self {
            AssetError::MissingOrigin => "cargo-deb: unable to get asset's path",
            AssetError::MissingTarget => "cargo-deb: unable to get asset's target",
            AssetError::MissingMode => "cargo-deb: unable to get chmod argument",
            AssetError::InvalidMode => "cargo-deb: chmod argument is not an octal number",
            AssetError::EmptyTarget => "cargo-deb: asset's target is empty",
            AssetError::NoFileName => "cargo-deb: asset's path has no file name",
        }
    }
}

impl ConfigError {
    /// What the user is told of the error.
    pub open spec fn text(self) -> Seq<char> {
        match self {
            ConfigError::Asset { reason, .. } => reason.text(),
            ConfigError::MissingLicenseFile => "cargo-deb: missing license file argument"@,
        }
    }

    /// A short message that names what failed.
    pub fn message(&self) -> (text: &'static str)
        ensures
            text@ == self.text(),
    {
        match self {
            ConfigError::Asset { reason, .. } => reason.message(),
            ConfigError::MissingLicenseFile => "cargo-deb: missing license file argument",
        }
    }
}

impl WriteError {
    /// What the user is told of the error.
    pub open spec fn text(self) -> Seq<char> {
        match self {
            WriteError::Encoding => "cargo-deb: unable to set the path of an archive entry"@,
            WriteError::Io => "cargo-deb: unable to write data to archive."@,
        }
    }

    /// A short message that names what failed.
    pub fn message(&self) -> (text: &'static str)
        ensures
            text@ == self.text(),
    {
        match self {
            WriteError::Encoding => "cargo-deb: unable to set the path of an archive entry",
            WriteError::Io => "cargo-deb: unable to write data to archive.",
        }
    }
}

impl Error {
    /// What the user is told of the error.
    pub open spec fn text(self) -> Seq<char> {
        match self {
            Error::Config(error) => error.text(),
            Error::MissingContent { .. } => "cargo-deb: unable to read asset's data"@,
            Error::Write { reason, .. } => reason.text(),
            Error::Finish => "cargo-deb: unable to finish the archive"@,
        }
    }

    /// A short message that names what failed.
    pub fn message(&self) -> (text: &'static str)
        ensures
            text@ == self.text(),
    {
        match self {
            Error::Config(error) => error.message(),
            Error::MissingContent { .. } => "cargo-deb: unable to read asset's data",
            Error::Write { reason, .. } => reason.message(),
            Error::Finish => "cargo-deb: unable to finish the archive",
        }
    }
}

} // verus!
