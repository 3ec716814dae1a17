//! The data archive of a Debian package: the assets of the package under
//! their places in the archive, each after the directories above it, and the
//! copyright document that is made from the text of the license.

mod text;
pub mod number;
pub mod error;
pub mod config;
pub mod path;
pub mod asset;
pub mod directories;
pub mod entry;
pub mod tarball;
pub mod archive;
pub mod copyright;
pub mod data;
