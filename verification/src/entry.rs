//! The entries of an archive.

use vstd::prelude::*;

verus! {

/// Permission bits of a regular file: `0644`.
pub const CHMOD_FILE: u32 = 420;

/// Permission bits of a directory or an executable: `0755`.
pub const CHMOD_BIN_OR_DIR: u32 = 493;

/// What an archive entry is.
#[derive(Clone, Copy, Debug, PartialEq, Eq, Structural)]
pub enum EntryKind {
    /// A regular file.
    File,
    /// A directory.
    Directory,
}

/// One item of an archive: a file with its content, or a directory.
#[derive(Debug)]
pub struct ArchiveEntry<'a> {
    /// Where the entry stands in the archive.
    pub path: String,
    /// Whether it is a file or a directory.
    pub kind: EntryKind,
    /// Its permission bits.
    pub mode: u32,
    /// The number of bytes of its content.
    pub size: u64,
    /// Its time of modification, in seconds since 1970.
    pub mtime: u64,
    /// Its content; a directory has none.
    pub content: &'a [u8],
}

/// An archive entry as a mathematical value.
pub struct EntryView {
    pub path: Seq<char>,
    pub kind: EntryKind,
    pub mode: u32,
    pub size: u64,
    pub mtime: u64,
    pub content: Seq<u8>,
}

impl<'a> View for ArchiveEntry<'a> {
    type V = EntryView;

    open spec fn view(&self) -> EntryView {
        EntryView {
            path: self.path@,
            kind: self.kind,
            mode: self.mode,
            size: self.size,
            mtime: self.mtime,
            content: self.content@,
        }
    }
}

impl<'a> DeepView for ArchiveEntry<'a> {
    type V = EntryView;

    open spec fn deep_view(&self) -> EntryView {
        self@
    }
}

/// The entry of a directory at `path`: mode `0755`, no content.
pub open spec fn directory_entry(path: Seq<char>, mtime: u64) -> EntryView {
    EntryView {
        path,
        kind: EntryKind::Directory,
        mode: CHMOD_BIN_OR_DIR,
        size: 0,
        mtime,
        content: Seq::empty(),
    }
}

/// The entry of a file at `path` that holds `content`.
pub open spec fn file_entry(path: Seq<char>, mode: u32, mtime: u64, content: Seq<u8>) -> EntryView {
    EntryView { path, kind: EntryKind::File, mode, size: content.len() as u64, mtime, content }
}

impl EntryView {
    /// The size is the length of the content, and a directory has none.
    pub open spec fn wf(self) -> bool {
        &&& self.size == self.content.len()
        &&& self.kind == EntryKind::Directory ==> self.content.len() == 0
    }
}

impl<'a> ArchiveEntry<'a> {
    /// The entry of a directory at `path`.
    pub fn directory(path: String, mtime: u64) -> (entry: ArchiveEntry<'a>)
        ensures
            entry@ == directory_entry(path@, mtime),
            entry@.wf(),
    {
        let content: &[u8] = &[];
        assert(content@ =~= Seq::empty());
        ArchiveEntry {
            path,
            kind: EntryKind::Directory,
            mode: CHMOD_BIN_OR_DIR,
            size: 0,
            mtime,
            content,
        }
    }

    /// The entry of a file at `path` that holds `content`.
    pub fn file(path: String, mode: u32, mtime: u64, content: &'a [u8]) -> (entry: ArchiveEntry<'a>)
        ensures
            entry@ == file_entry(path@, mode, mtime, content@),
            entry@.wf(),
    {
        ArchiveEntry {
            path,
            kind: EntryKind::File,
            mode,
            size: content.len() as u64,
            mtime,
            content,
        }
    }
}

} // verus!
