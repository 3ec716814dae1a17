//! The configuration of a build.

use vstd::prelude::*;

verus! {

/// What a package is built from.
#[derive(Debug)]
pub struct Config {
    /// The name of the package.
    pub name: String,
    /// Where its source is kept.
    pub repository: String,
    /// Its copyright statement.
    pub copyright: String,
    /// The name of its license.
    pub license: String,
    /// The path of the license file and, behind it, the number of lines to
    /// skip at its top.
    pub license_file: Vec<String>,
    /// The asset records, each `[origin, target, mode]`.
    pub assets: Vec<Vec<String>>,
}

/// A configuration as a mathematical value.
pub struct ConfigView {
    pub name: Seq<char>,
    pub repository: Seq<char>,
    pub copyright: Seq<char>,
    pub license: Seq<char>,
    pub license_file: Seq<Seq<char>>,
    pub assets: Seq<Seq<Seq<char>>>,
}

impl View for Config {
    type V = ConfigView;

    open spec fn view(&self) -> ConfigView {
        ConfigView {
            name: self.name@,
            repository: self.repository@,
            copyright: self.copyright@,
            license: self.license@,
            license_file: self.license_file.deep_view(),
            assets: self.assets.deep_view(),
        }
    }
}

} // verus!
