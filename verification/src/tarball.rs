//! Writing entries into a tar archive, by way of the `tar` crate.

use vstd::prelude::*;
use crate::entry::{ArchiveEntry, EntryKind, EntryView};
use crate::error::{Error, WriteError};

verus! {

/// The header of one archive entry, as the `tar` crate holds it.
#[verifier::external_type_specification]
#[verifier::external_body]
pub struct ExHeader(tar::Header);

/// The error of an input or output operation.
#[verifier::external_type_specification]
#[verifier::external_body]
pub struct ExIoError(std::io::Error);

/// An archive under construction: a `tar::Builder` that writes into a
/// buffer in memory. The verifier does not look inside: what it knows of an
/// archive is `archive_bytes`.
#[verifier::external_body]
pub struct Archive {
    builder: tar::Builder<Vec<u8>>,
}

/// The 512 bytes of a header (`tar::Header::as_bytes`).
pub uninterp spec fn header_block(header: tar::Header) -> Seq<u8>;

/// The bytes that an archive's builder has written into its buffer so far
/// (`tar::Builder::get_ref`).
pub uninterp spec fn archive_bytes(archive: Archive) -> Seq<u8>;

/// The header block that `tar::Header::set_mtime` makes of `block`.
pub uninterp spec fn block_with_mtime(block: Seq<u8>, mtime: u64) -> Seq<u8>;

/// The header block that `tar::Header::set_size` makes of `block`.
pub uninterp spec fn block_with_size(block: Seq<u8>, size: u64) -> Seq<u8>;

/// The header block that `tar::Header::set_mode` makes of `block`.
pub uninterp spec fn block_with_mode(block: Seq<u8>, mode: u32) -> Seq<u8>;

/// The header block that `tar::Header::set_path` makes of `block`, or
/// `None` where it refuses the path.
pub uninterp spec fn block_with_path(block: Seq<u8>, path: Seq<char>) -> Option<Seq<u8>>;

/// The header block that `tar::Header::set_cksum` makes of `block`.
pub uninterp spec fn block_with_cksum(block: Seq<u8>) -> Seq<u8>;

/// `count` zero bytes.
pub open spec fn zeros(count: nat) -> Seq<u8> {
    Seq::new(count, |i: int| 0u8)
}

/// The block of a blank GNU header: zero bytes, but for the magic `ustar `
/// with the version ` \0` behind it, and a modification time of zero,
/// written as eleven digits `0`.
pub open spec fn blank_block() -> Seq<u8> {
    Seq::new(
        512,
        |i: int|
            if 136 <= i < 147 {
                0x30u8
            } else if i == 257 {
                0x75u8
            } else if i == 258 {
                0x73u8
            } else if i == 259 {
                0x74u8
            } else if i == 260 {
                0x61u8
            } else if i == 261 {
                0x72u8
            } else if i == 262 || i == 263 {
                0x20u8
            } else {
                0u8
            },
    )
}

/// The byte that tells the kind of an entry, at place 156 of its header
/// block: the digit `0` for a file, the digit `5` for a directory.
pub open spec fn kind_byte(kind: EntryKind) -> u8 {
    match kind {
        EntryKind::File => 0x30,
        EntryKind::Directory => 0x35,
    }
}

/// The zero bytes that follow content of `length` bytes, to fill its last
/// block.
pub open spec fn padding(length: nat) -> Seq<u8> {
    zeros(((512 - length % 512) % 512) as nat)
}

impl View for Archive {
    type V = Seq<u8>;

    open spec fn view(&self) -> Seq<u8> {
        archive_bytes(*self)
    }
}

/// Trusted: `tar::Header::new_gnu` gives a header whose block is zero but
/// for the GNU magic and version and a modification time of zero.
#[verifier::external_body]
fn new_header() -> (header: tar::Header)
    ensures
        header_block(header) == blank_block(),
{
    tar::Header::new_gnu()
}

/// Trusted: what `tar::Header::set_mtime` does to the header's block
/// depends on that block and on the time alone; the block keeps its 512
/// bytes.
#[verifier::external_body]
fn set_mtime(header: &mut tar::Header, mtime: u64)
    ensures
        header_block(*final(header)) == block_with_mtime(header_block(*old(header)), mtime),
        header_block(*final(header)).len() == 512,
{
    header.set_mtime(mtime)
}

/// Trusted: what `tar::Header::set_size` does to the header's block
/// depends on that block and on the size alone; the block keeps its 512
/// bytes.
#[verifier::external_body]
fn set_size(header: &mut tar::Header, size: u64)
    ensures
        header_block(*final(header)) == block_with_size(header_block(*old(header)), size),
        header_block(*final(header)).len() == 512,
{
    header.set_size(size)
}

/// Trusted: what `tar::Header::set_mode` does to the header's block
/// depends on that block and on the mode alone; the block keeps its 512
/// bytes.
#[verifier::external_body]
fn set_mode(header: &mut tar::Header, mode: u32)
    ensures
        header_block(*final(header)) == block_with_mode(header_block(*old(header)), mode),
        header_block(*final(header)).len() == 512,
{
    header.set_mode(mode)
}

/// Trusted: whether `tar::Header::set_path` takes a path, and what it then
/// does to the header's block, depends on that block and on the path alone;
/// the block keeps its 512 bytes.
#[verifier::external_body]
fn set_path(header: &mut tar::Header, path: &str) -> (outcome: Result<(), std::io::Error>)
    ensures
        outcome is Ok ==> block_with_path(header_block(*old(header)), path@) == Some(
            header_block(*final(header)),
        ),
        outcome is Err ==> block_with_path(header_block(*old(header)), path@) is None,
        header_block(*final(header)).len() == 512,
{
    header.set_path(path)
}

/// Trusted: `tar::Header::set_entry_type` stores the byte of the type at
/// place 156 of the header's block and changes nothing else, a file being
/// `tar::EntryType::Regular` and a directory `tar::EntryType::Directory`.
#[verifier::external_body]
fn set_kind(header: &mut tar::Header, kind: EntryKind)
    ensures
        header_block(*final(header)) == header_block(*old(header)).update(156, kind_byte(kind)),
{
    header.set_entry_type(
        match kind {
            EntryKind::File => tar::EntryType::Regular,
            EntryKind::Directory => tar::EntryType::Directory,
        },
    )
}

/// Trusted: what `tar::Header::set_cksum` does to the header's block
/// depends on that block alone; the block keeps its 512 bytes.
#[verifier::external_body]
fn set_cksum(header: &mut tar::Header)
    ensures
        header_block(*final(header)) == block_with_cksum(header_block(*old(header))),
        header_block(*final(header)).len() == 512,
{
    header.set_cksum()
}

/// Trusted: `tar::Builder::new` on an empty buffer has written nothing.
#[verifier::external_body]
fn new_builder() -> (archive: Archive)
    ensures
        archive_bytes(archive) == Seq::<u8>::empty(),
{
    Archive { builder: tar::Builder::new(Vec::new()) }
}

/// Trusted: `tar::Builder::append` only adds to what was written. Where it
/// succeeds it has added the header's block, then the data, then zero bytes
/// up to the end of the data's last block.
#[verifier::external_body]
fn append(
    archive: &mut Archive,
    header: &tar::Header,
    data: &[u8],
) -> (outcome: Result<(), std::io::Error>)
    ensures
        archive_bytes(*old(archive)).is_prefix_of(archive_bytes(*final(archive))),
        outcome is Ok ==> archive_bytes(*final(archive)) == archive_bytes(*old(archive))
            + header_block(*header) + data@ + padding(data@.len()),
{
    archive.builder.append(header, data)
}

/// Trusted: `tar::Builder::into_inner` on a builder that was not finished
/// before hands out what was written, with 1024 zero bytes behind it.
#[verifier::external_body]
fn finish(archive: Archive) -> (outcome: Result<Vec<u8>, std::io::Error>)
    ensures
        outcome matches Ok(bytes) ==> bytes@ == archive_bytes(archive) + zeros(1024),
{
    archive.builder.into_inner()
}

/// The header block of an entry, or `None` where the archive format cannot
/// hold its path.
pub open spec fn entry_block(entry: EntryView) -> Option<Seq<u8>> {
    let timed = block_with_mtime(blank_block(), entry.mtime);
    let sized = block_with_size(timed, entry.size);
    let moded = block_with_mode(sized, entry.mode);
    match block_with_path(moded, entry.path) {
        Some(named) => Some(block_with_cksum(named.update(156, kind_byte(entry.kind)))),
        None => None,
    }
}

/// Whether the archive format can hold the entry: it has a header block,
/// of 512 bytes.
pub open spec fn encodable(entry: EntryView) -> bool {
    entry_block(entry) matches Some(block) && block.len() == 512
}

/// What an entry adds to an archive: its header block, its content, and
/// zero bytes up to the end of the content's last block.
pub open spec fn entry_record(entry: EntryView) -> Seq<u8> {
    entry_block(entry).unwrap() + entry.content + padding(entry.content.len())
}

/// What a run of entries adds to an archive.
pub open spec fn records(entries: Seq<EntryView>) -> Seq<u8>
    decreases entries.len(),
{
    if entries.len() == 0 {
        Seq::empty()
    } else {
        records(entries.drop_last()) + entry_record(entries.last())
    }
}

/// What holds of an archive that held `before`, after an attempt to write
/// one entry that ended in `outcome`: the entry was added whole; or its path
/// was refused and nothing was written; or appending failed, and the archive
/// has at most grown.
pub open spec fn entry_written(
    before: Seq<u8>,
    after: Seq<u8>,
    entry: EntryView,
    outcome: Result<(), WriteError>,
) -> bool {
    match outcome {
        Ok(()) => encodable(entry) && after == before + entry_record(entry),
        Err(WriteError::Encoding) => entry_block(entry) is None && after == before,
        Err(WriteError::Io) => encodable(entry) && before.is_prefix_of(after),
    }
}

/// What holds of an archive that held `before`, after an attempt to write
/// `entries` in order that ended in `outcome`. The attempt ends at the first
/// entry that does not reach the archive, and names it.
pub open spec fn entries_written(
    before: Seq<u8>,
    after: Seq<u8>,
    entries: Seq<EntryView>,
    outcome: Result<(), Error>,
) -> bool {
    match outcome {
        Ok(()) => {
            &&& forall|i: int| 0 <= i < entries.len() ==> encodable(#[trigger] entries[i])
            &&& after == before + records(entries)
        },
        Err(Error::Write { entry, reason }) => {
            &&& entry < entries.len()
            &&& forall|i: int| 0 <= i < entry ==> encodable(#[trigger] entries[i])
            &&& entry_written(
                before + records(entries.take(entry as int)),
                after,
                entries[entry as int],
                Err(reason),
            )
        },
        Err(_) => false,
    }
}

/// What a run of entries adds is what its first entries add, then what the
/// next one adds.
proof fn lemma_records_step(entries: Seq<EntryView>, count: int)
    requires
        0 <= count < entries.len(),
    ensures
        records(entries.take(count + 1)) == records(entries.take(count)) + entry_record(
            entries[count],
        ),
{
    assert(entries.take(count + 1).drop_last() == entries.take(count));
}

/// What two runs of entries add, one after the other, is what the one run
/// made of both adds.
pub proof fn lemma_records_concat(first: Seq<EntryView>, second: Seq<EntryView>)
    ensures
        records(first + second) == records(first) + records(second),
    decreases second.len(),
{
    if second.len() == 0 {
        assert(first + second == first);
    } else {
        assert((first + second).drop_last() == first + second.drop_last());
        lemma_records_concat(first, second.drop_last());
    }
}

/// An archive is made of whole blocks: entries that were written have added
/// a multiple of 512 bytes.
pub proof fn lemma_whole_blocks(before: Seq<u8>, after: Seq<u8>, entries: Seq<EntryView>)
    requires
        entries_written(before, after, entries, Ok(())),
    ensures
        after.len() >= before.len(),
        (after.len() - before.len()) % 512 == 0,
{
    lemma_records_length(entries);
}

proof fn lemma_records_length(entries: Seq<EntryView>)
    requires
        forall|i: int| 0 <= i < entries.len() ==> encodable(#[trigger] entries[i]),
    ensures
        records(entries).len() % 512 == 0,
    decreases entries.len(),
{
    if entries.len() > 0 {
        let front = entries.drop_last();
        assert forall|i: int| 0 <= i < front.len() implies encodable(#[trigger] front[i]) by {
            assert(front[i] == entries[i]);
        }
        lemma_records_length(front);
        let last = entries.last();
        assert(encodable(last));
        let length = last.content.len();
        assert((512 + length + (512 - length % 512) % 512) % 512 == 0);
    }
}

/// An archive only grows: whatever came of an attempt to write entries,
/// what the archive held before still stands at its start.
pub proof fn lemma_append_only(
    before: Seq<u8>,
    after: Seq<u8>,
    entries: Seq<EntryView>,
    outcome: Result<(), Error>,
)
    requires
        entries_written(before, after, entries, outcome),
    ensures
        before.is_prefix_of(after),
{
    match outcome {
        Ok(()) => {
            assert(before =~= (before + records(entries)).subrange(0, before.len() as int));
        },
        Err(Error::Write { entry, .. }) => {
            let written = before + records(entries.take(entry as int));
            assert(before =~= written.subrange(0, before.len() as int));
            assert(before =~= after.subrange(0, before.len() as int));
        },
        Err(_) => {},
    }
}

/// What a write comes to, given what the archive builder answered.
pub fn write_outcome(answer: Result<(), std::io::Error>) -> (outcome: Result<(), WriteError>)
    ensures
        answer is Ok <==> outcome is Ok,
        answer is Err <==> outcome == Err::<(), WriteError>(WriteError::Io),
{
    match answer {
        Ok(()) => Ok(()),
        Err(_) => Err(WriteError::Io),
    }
}

impl Archive {
    /// An archive that holds nothing yet.
    pub fn new() -> (archive: Archive)
        ensures
            archive@ == Seq::<u8>::empty(),
    {
        new_builder()
    }

    /// Writes one entry: a header that records the modification time, the
    /// size, the mode, the path, the kind and a checksum, then the content.
    pub fn append_entry(&mut self, entry: &ArchiveEntry) -> (outcome: Result<(), WriteError>)
        ensures
            entry_written(old(self)@, final(self)@, entry@, outcome),
    {
        let mut header = new_header();
        set_mtime(&mut header, entry.mtime);
        set_size(&mut header, entry.size);
        set_mode(&mut header, entry.mode);
        match set_path(&mut header, entry.path.as_str()) {
            Ok(()) => {},
            Err(_) => {
                return Err(WriteError::Encoding);
            },
        }
        set_kind(&mut header, entry.kind);
        set_cksum(&mut header);
        let answer = append(self, &header, entry.content);
        proof {
            let block = header_block(header);
            let tail = padding(entry.content@.len());
            assert(old(self)@ + block + entry.content@ + tail =~= old(self)@ + (block
                + entry.content@ + tail));
        }
        write_outcome(answer)
    }

    /// Writes `entries` in order, and stops at the first that does not
    /// reach the archive.
    pub fn append_entries(&mut self, entries: &Vec<ArchiveEntry>) -> (outcome: Result<(), Error>)
        ensures
            entries_written(old(self)@, final(self)@, entries.deep_view(), outcome),
    {
        let ghost before = self@;
        let ghost all = entries.deep_view();
        let mut i: usize = 0;
        while i < entries.len()
            invariant
                i <= entries.len(),
                before == old(self)@,
                all == entries.deep_view(),
                forall|j: int| 0 <= j < i ==> encodable(#[trigger] all[j]),
                self@ == before + records(all.take(i as int)),
            decreases entries.len() - i,
        {
            match self.append_entry(&entries[i]) {
                Ok(()) => {},
                Err(reason) => {
                    return Err(Error::Write { entry: i, reason });
                },
            }
            proof {
                lemma_records_step(all, i as int);
            }
            i += 1;
        }
        assert(all.take(entries.len() as int) == all);
        Ok(())
    }

    /// Ends the archive and hands out its bytes: what was written, and the
    /// two blocks of zero bytes that end an archive.
    pub fn into_bytes(self) -> (bytes: Result<Vec<u8>, Error>)
        ensures
            match bytes {
                Ok(all) => all@ == self@ + zeros(1024),
                Err(error) => error == Error::Finish,
            },
    {
        match finish(self) {
            Ok(all) => Ok(all),
            Err(_) => Err(Error::Finish),
        }
    }
}

} // verus!
