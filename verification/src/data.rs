//! The copyright pass, and the build of a whole archive.

use vstd::prelude::*;
use crate::archive::{asset_entries, asset_entries_of};
use crate::config::{Config, ConfigView};
use crate::copyright::{copyright_document, copyright_document_of};
use crate::entry::{directory_entry, file_entry, ArchiveEntry, EntryView, CHMOD_FILE};
use crate::error::{ConfigError, Error};
use crate::tarball::{entries_written, lemma_records_concat, records, Archive};

verus! {

/// The directory that holds the documentation of the package `name`.
pub open spec fn documentation_directory(name: Seq<char>) -> Seq<char> {
    "./usr/share/doc/"@ + name + "/"@
}

/// The entries of the copyright pass: the chain of directories down to the
/// documentation of the package, and the copyright document in it, with
/// mode `0644`. The chain is the same whatever the archive holds already: a
/// directory of it that the assets have emitted before is written a second
/// time.
pub open spec fn copyright_plan(name: Seq<char>, document: Seq<u8>, time: u64) -> Seq<EntryView> {
    seq![
        directory_entry("."@, time),
        directory_entry("./usr/"@, time),
        directory_entry("./usr/share/"@, time),
        directory_entry("./usr/share/doc/"@, time),
        directory_entry(documentation_directory(name), time),
        file_entry(documentation_directory(name) + "copyright"@, CHMOD_FILE, time, document),
    ]
}

/// The entries of a whole build, or why there are none: those of the
/// assets, then those of the copyright pass.
pub open spec fn archive_plan(
    options: ConfigView,
    contents: Seq<Seq<u8>>,
    license: Seq<char>,
    time: u64,
) -> Result<Seq<EntryView>, Error> {
    match asset_entries_of(options.assets, contents, time) {
        Err(error) => Err(error),
        Ok(entries) => match copyright_document_of(options, license) {
            Err(error) => Err(Error::Config(error)),
            Ok(document) => Ok(entries + copyright_plan(options.name, document, time)),
        },
    }
}

/// The entries of the copyright pass.
pub fn copyright_entries<'a>(
    name: &str,
    document: &'a [u8],
    time: u64,
) -> (entries: Vec<ArchiveEntry<'a>>)
    ensures
        entries.deep_view() == copyright_plan(name@, document@, time),
{
    let mut directory = "./usr/share/doc/".to_owned();
    directory.append(name);
    directory.append("/");
    let mut file = directory.clone();
    file.append("copyright");
    let mut entries: Vec<ArchiveEntry<'a>> = Vec::new();
    entries.push(ArchiveEntry::directory(".".to_owned(), time));
    entries.push(ArchiveEntry::directory("./usr/".to_owned(), time));
    entries.push(ArchiveEntry::directory("./usr/share/".to_owned(), time));
    entries.push(ArchiveEntry::directory("./usr/share/doc/".to_owned(), time));
    entries.push(ArchiveEntry::directory(directory, time));
    entries.push(ArchiveEntry::file(file, CHMOD_FILE, time, document));
    entries
}

/// Writes the copyright pass into the archive: the chain of documentation
/// directories, then the document.
pub fn archive_copyright(
    archive: &mut Archive,
    name: &str,
    document: &[u8],
    time: u64,
) -> (outcome: Result<(), Error>)
    ensures
        entries_written(
            old(archive)@,
            final(archive)@,
            copyright_plan(name@, document@, time),
            outcome,
        ),
{
    let entries = copyright_entries(name, document, time);
    archive.append_entries(&entries)
}

/// What holds after `generate_copyright` or `generate_archive` gave
/// `outcome`, where the entries to write and the document were `plan` and
/// `document`: a configuration error leaves the archive as it was, and the
/// document is handed out where every entry was written.
pub open spec fn generated(
    before: Seq<u8>,
    after: Seq<u8>,
    plan: Result<(Seq<EntryView>, Seq<u8>), Error>,
    outcome: Result<Vec<u8>, Error>,
) -> bool {
    match plan {
        Err(error) => outcome == Err::<Vec<u8>, Error>(error) && after == before,
        Ok((entries, document)) => match outcome {
            Ok(bytes) => bytes@ == document && entries_written(before, after, entries, Ok(())),
            Err(error) => entries_written(before, after, entries, Err(error)),
        },
    }
}

/// The entries and the document of the copyright pass, or the error where
/// the configuration names no license file.
pub open spec fn copyright_pass(options: ConfigView, license: Seq<char>, time: u64) -> Result<
    (Seq<EntryView>, Seq<u8>),
    Error,
> {
    match copyright_document_of(options, license) {
        Err(error) => Err(Error::Config(error)),
        Ok(document) => Ok((copyright_plan(options.name, document, time), document)),
    }
}

/// The entries and the document of a whole build, or why there are none.
pub open spec fn whole_build(
    options: ConfigView,
    contents: Seq<Seq<u8>>,
    license: Seq<char>,
    time: u64,
) -> Result<(Seq<EntryView>, Seq<u8>), Error> {
    match archive_plan(options, contents, license, time) {
        Err(error) => Err(error),
        Ok(entries) => Ok((entries, copyright_document_of(options, license).unwrap())),
    }
}

/// Without a license file there is no copyright pass: the build ends in a
/// configuration error, and the copyright pass has not touched the archive.
pub proof fn lemma_missing_license_file(
    options: ConfigView,
    contents: Seq<Seq<u8>>,
    license: Seq<char>,
    time: u64,
    before: Seq<u8>,
    after: Seq<u8>,
    outcome: Result<Vec<u8>, Error>,
)
    requires
        options.license_file.len() == 0,
    ensures
        copyright_pass(options, license, time) == Err::<(Seq<EntryView>, Seq<u8>), Error>(
            Error::Config(ConfigError::MissingLicenseFile),
        ),
        whole_build(options, contents, license, time) is Err,
        asset_entries_of(options.assets, contents, time) is Ok ==> whole_build(
            options,
            contents,
            license,
            time,
        ) == Err::<(Seq<EntryView>, Seq<u8>), Error>(
            Error::Config(ConfigError::MissingLicenseFile),
        ),
        generated(before, after, copyright_pass(options, license, time), outcome) ==> after
            == before && outcome == Err::<Vec<u8>, Error>(
            Error::Config(ConfigError::MissingLicenseFile),
        ),
        generated(before, after, whole_build(options, contents, license, time), outcome)
            ==> after == before && outcome is Err,
{
}

/// A build is a function of its inputs: two builds from the same
/// configuration, contents, license text and time, into archives that hold
/// the same, make the same archive and the same document where both
/// succeed, and end in the same error where the configuration is at fault.
pub proof fn lemma_deterministic(
    options: ConfigView,
    contents: Seq<Seq<u8>>,
    license: Seq<char>,
    time: u64,
    before: Seq<u8>,
    first_after: Seq<u8>,
    first: Result<Vec<u8>, Error>,
    second_after: Seq<u8>,
    second: Result<Vec<u8>, Error>,
)
    requires
        generated(before, first_after, whole_build(options, contents, license, time), first),
        generated(before, second_after, whole_build(options, contents, license, time), second),
    ensures
        first is Ok && second is Ok ==> first_after == second_after && first.unwrap()@
            == second.unwrap()@,
        whole_build(options, contents, license, time) is Err ==> first_after == second_after
            && first == second,
{
}

/// The copyright pass does not look at what the assets emitted: a whole
/// build ends in the six entries of the copyright pass, behind those of the
/// assets, and writes what the two passes write one after the other.
pub proof fn lemma_copyright_pass_fixed(
    options: ConfigView,
    contents: Seq<Seq<u8>>,
    license: Seq<char>,
    time: u64,
)
    requires
        archive_plan(options, contents, license, time) is Ok,
    ensures
        ({
            let whole = archive_plan(options, contents, license, time).unwrap();
            let assets = asset_entries_of(options.assets, contents, time).unwrap();
            let document = copyright_document_of(options, license).unwrap();
            let copyright = copyright_plan(options.name, document, time);
            &&& copyright_document_of(options, license) is Ok
            &&& copyright.len() == 6
            &&& whole == assets + copyright
            &&& records(whole) == records(assets) + records(copyright)
        }),
{
    let assets = asset_entries_of(options.assets, contents, time).unwrap();
    let document = copyright_document_of(options, license).unwrap();
    lemma_records_concat(assets, copyright_plan(options.name, document, time));
}

/// Makes the copyright document from the text of the license file and
/// writes the copyright pass into the archive. Hands out the document.
pub fn generate_copyright(
    archive: &mut Archive,
    options: &Config,
    license_text: &str,
    time: u64,
) -> (outcome: Result<Vec<u8>, Error>)
    ensures
        generated(
            old(archive)@,
            final(archive)@,
            copyright_pass(options@, license_text@, time),
            outcome,
        ),
{
    let document = match copyright_document(options, license_text) {
        Ok(document) => document,
        Err(error) => {
            return Err(Error::Config(error));
        },
    };
    match archive_copyright(archive, options.name.as_str(), document.as_slice(), time) {
        Ok(()) => Ok(document),
        Err(error) => Err(error),
    }
}

/// Builds the archive: the assets, each with the directories above it, then
/// the copyright pass. Nothing is written unless the configuration is
/// well-formed. Hands out the copyright document.
pub fn generate_archive(
    archive: &mut Archive,
    options: &Config,
    contents: &Vec<Vec<u8>>,
    license_text: &str,
    time: u64,
) -> (outcome: Result<Vec<u8>, Error>)
    ensures
        generated(
            old(archive)@,
            final(archive)@,
            whole_build(options@, contents.deep_view(), license_text@, time),
            outcome,
        ),
{
    let mut entries = match asset_entries(&options.assets, contents, time) {
        Ok(entries) => entries,
        Err(error) => {
            return Err(error);
        },
    };
    let document = match copyright_document(options, license_text) {
        Ok(document) => document,
        Err(error) => {
            return Err(Error::Config(error));
        },
    };
    let ghost first = entries.deep_view();
    let mut more = copyright_entries(options.name.as_str(), document.as_slice(), time);
    let ghost second = more.deep_view();
    entries.append(&mut more);
    assert(entries.deep_view() =~= first + second);
    match archive.append_entries(&entries) {
        Ok(()) => Ok(document),
        Err(error) => Err(error),
    }
}

} // verus!
