//! Packing a tree of entries into one compressed archive, and back.
//!
//! An archive is a tar stream, compressed with zstd. The tree is handed in
//! as values: each entry with its path, and each file with its bytes. An
//! entry is stored under its path from the parent of the root on, so that
//! the root folder itself heads every path in the archive.

use vstd::prelude::*;
use vstd::string::StringSliceAdditionalSpecFns;
use vstd::slice::slice_subrange;
use vstd::utf8::valid_utf8;
use std::io::Read;
use crate::error::ShadowError;
use crate::path::components;
use crate::path::excluded;
use crate::path::is_container_name;
use crate::path::is_excluded;
use crate::path::is_valid_path;
use crate::path::same_path;
use crate::path::join_path;
use crate::path::joined;
use crate::path::lemma_split_joined_valid;
use crate::path::split;
use crate::path::split_name;
use crate::path::starts_with;
use crate::path::valid_path;
use crate::text::utf8_text;

verus! {

/// The type byte of a file's record.
pub const KIND_FILE: u8 = 0x30;

/// The type byte of a directory's record.
pub const KIND_DIRECTORY: u8 = 0x35;

/// The permissions written for a file.
pub const FILE_MODE: u32 = 0o644;

/// The permissions written for a directory.
pub const DIRECTORY_MODE: u32 = 0o755;

/// The compression level: zero, which stands for the compressor's default.
pub const LEVEL: i32 = 0;

/// What an entry is: a directory, or a file with its bytes.
#[derive(Clone, Debug, PartialEq, Eq)]
pub enum Content {
    Directory,
    File(Vec<u8>),
}

/// What an entry is, as a mathematical value.
pub enum ContentView {
    Directory,
    File(Seq<u8>),
}

/// One entry of a tree: where it is and what it is.
#[derive(Clone, Debug, PartialEq, Eq)]
pub struct Entry {
    pub path: Vec<Vec<u8>>,
    pub content: Content,
}

/// One entry of a tree, as a mathematical value.
pub struct EntryView {
    pub path: Seq<Seq<u8>>,
    pub content: ContentView,
}

impl View for Content {
    type V = ContentView;

    open spec fn view(&self) -> ContentView {
        match self {
            Content::Directory => ContentView::Directory,
            Content::File(data) => ContentView::File(data@),
        }
    }
}

impl View for Entry {
    type V = EntryView;

    open spec fn view(&self) -> EntryView {
        EntryView { path: components(self.path@), content: self.content@ }
    }
}

/// The entries of a list, as mathematical values.
pub open spec fn entry_views(entries: Seq<Entry>) -> Seq<EntryView> {
    Seq::new(entries.len(), |i: int| entries[i]@)
}

/// One record of a tar stream: its name, its type byte and its data.
pub type Record = (Seq<u8>, u8, Seq<u8>);

/// One record as it was read from a tar stream.
struct RawRecord {
    name: Vec<u8>,
    kind: u8,
    data: Vec<u8>,
}

/// The records of a list, as mathematical values.
spec fn record_views(records: Seq<RawRecord>) -> Seq<Record> {
    Seq::new(records.len(), |i: int| (records[i].name@, records[i].kind, records[i].data@))
}

#[verifier::external_type_specification]
#[verifier::external_body]
pub struct ExIoError(std::io::Error);

/// A tar stream being written in memory: a `tar::Builder` over a `Vec<u8>`.
#[verifier::external_body]
pub struct TarWriter {
    inner: tar::Builder<Vec<u8>>,
}

/// The records appended to a tar stream so far, in order.
pub uninterp spec fn tar_written(writer: TarWriter) -> Seq<Record>;

/// The bytes of the finished tar stream that holds the given records.
pub uninterp spec fn tar_stream(records: Seq<Record>) -> Seq<u8>;

/// The records that reading `bytes` as a tar stream gives, in order, or
/// nothing where the reading fails.
pub uninterp spec fn tar_listing(bytes: Seq<u8>) -> Option<Seq<Record>>;

/// The zstd frame that compressing `data` at `level` gives, or nothing
/// where the compressor reports a failure.
pub uninterp spec fn zstd_compressed(data: Seq<u8>, level: int) -> Option<Seq<u8>>;

/// The data that decompressing `bytes` as zstd frames gives, or nothing
/// where `bytes` is not made of such frames.
pub uninterp spec fn zstd_decoded(bytes: Seq<u8>) -> Option<Seq<u8>>;

/// Starts a tar stream in memory with `tar::Builder::new`.
///
/// Not proved: that a new stream holds no record.
#[verifier::external_body]
fn tar_start() -> (writer: TarWriter)
    ensures
        tar_written(writer) == Seq::<Record>::empty(),
{
    TarWriter { inner: tar::Builder::new(Vec::new()) }
}

/// Appends one record with `tar::Builder::append_data`, under a GNU header
/// that carries the type byte, the permissions and the length of the data.
///
/// Not proved: that the call succeeds, and that the stream then holds one
/// record more, with this name, type byte and data. The name must be that of
/// a plain path: such a name is stored as it is, in the header or, where it
/// is longer than the header takes, in a long-name record before it, and
/// writing to memory does not fail; other names are refused or rewritten.
/// The permissions must be those that go with the type byte, so that the
/// records decide the bytes of the stream.
#[verifier::external_body]
fn tar_append(writer: &mut TarWriter, name: &str, kind: u8, mode: u32, data: &[u8]) -> (r: Result<
    (),
    std::io::Error,
>)
    requires
        valid_path(split(name.spec_bytes())),
        (kind == KIND_FILE && mode == FILE_MODE) || (kind == KIND_DIRECTORY && mode
            == DIRECTORY_MODE),
    ensures
        r is Ok,
        tar_written(*final(writer)) == tar_written(*old(writer)).push(
            (name.spec_bytes(), kind, data@),
        ),
{
    let mut header = tar::Header::new_gnu();
    header.set_entry_type(tar::EntryType::new(kind));
    header.set_mode(mode);
    header.set_size(data.len() as u64);
    writer.inner.append_data(&mut header, name, data)
}

/// Ends a tar stream with `tar::Builder::into_inner`.
///
/// Not proved: that the call succeeds, as it only writes the two closing
/// blocks to memory; that the bytes are the stream named above; and that
/// reading them back gives the records that were appended.
#[verifier::external_body]
fn tar_finish(writer: TarWriter) -> (r: Result<Vec<u8>, std::io::Error>)
    ensures
        r is Ok,
        r matches Ok(bytes) ==> (bytes@ == tar_stream(tar_written(writer))),
        r matches Ok(bytes) ==> (tar_listing(bytes@) == Some(tar_written(writer))),
{
    writer.inner.into_inner()
}

/// Reads a tar stream with `tar::Archive::entries`, and takes from each
/// entry its name, its type byte and its data.
///
/// Not proved: that the records are the listing named above.
#[verifier::external_body]
fn tar_list(bytes: &[u8]) -> (r: Result<Vec<RawRecord>, std::io::Error>)
    ensures
        r is Ok <==> tar_listing(bytes@) is Some,
        r matches Ok(records) ==> (tar_listing(bytes@) == Some(record_views(records@))),
{
    let mut archive = tar::Archive::new(bytes);
    let mut records = Vec::new();
    for entry in archive.entries()? {
        let mut entry = entry?;
        let name = entry.path_bytes().into_owned();
        let kind = entry.header().entry_type().as_byte();
        let mut data = Vec::new();
        entry.read_to_end(&mut data)?;
        records.push(RawRecord { name, kind, data });
    }
    Ok(records)
}

/// Compresses with `zstd::stream::encode_all`.
///
/// Not proved: that the call succeeds exactly where the name above gives a
/// frame, that the bytes are that frame, and that decompressing them gives
/// the data back.
#[verifier::external_body]
fn zstd_encode(data: &[u8], level: i32) -> (r: Result<Vec<u8>, std::io::Error>)
    ensures
        r is Ok <==> zstd_compressed(data@, level as int) is Some,
        r matches Ok(bytes) ==> (zstd_compressed(data@, level as int) == Some(bytes@)),
        r matches Ok(bytes) ==> (zstd_decoded(bytes@) == Some(data@)),
{
    zstd::stream::encode_all(data, level)
}

/// Decompresses with `zstd::stream::decode_all`.
///
/// Not proved: that the data is the decompression named above.
#[verifier::external_body]
fn zstd_decode(bytes: &[u8]) -> (r: Result<Vec<u8>, std::io::Error>)
    ensures
        r is Ok <==> zstd_decoded(bytes@) is Some,
        r matches Ok(data) ==> (zstd_decoded(bytes@) == Some(data@)),
{
    zstd::stream::decode_all(bytes)
}


/// Whether the entry `e` is left out of an archive that is being written to
/// `ignore`: it stands at `ignore`, or it is a file whose name has the
/// extension `shadow`.
pub open spec fn left_out(e: EntryView, ignore: Seq<Seq<u8>>) -> bool {
    excluded(e.path, e.content is Directory, ignore)
}

/// The entry `e` of a tree with root `root`, as it stands in an archive:
/// with its path from the last component of the root on.
pub open spec fn relative(root: Seq<Seq<u8>>, e: EntryView) -> EntryView {
    EntryView { path: e.path.subrange(root.len() - 1, e.path.len() as int), content: e.content }
}

/// Whether the entry `e` can stand in an archive of the tree with root
/// `root`: it is the root or lies below it, and its path from the last
/// component of the root on is a plain path whose name is text.
pub open spec fn fits(root: Seq<Seq<u8>>, e: EntryView) -> bool {
    &&& root.len() >= 1
    &&& root.is_prefix_of(e.path)
    &&& valid_path(relative(root, e).path)
    &&& valid_utf8(joined(relative(root, e).path))
}

/// Whether the tree can be archived: it has a root, every entry that is not
/// left out fits, and no two of them stand at the same path.
pub open spec fn archivable(
    root: Seq<Seq<u8>>,
    entries: Seq<EntryView>,
    ignore: Seq<Seq<u8>>,
) -> bool {
    &&& root.len() >= 1
    &&& forall|i: int|
        0 <= i < entries.len() && !(#[trigger] left_out(entries[i], ignore)) ==> fits(
            root,
            entries[i],
        )
    &&& forall|i: int, j: int|
        #![trigger left_out(entries[i], ignore), left_out(entries[j], ignore)]
        0 <= i < j < entries.len() && !left_out(entries[i], ignore) && !left_out(
            entries[j],
            ignore,
        ) ==> entries[i].path != entries[j].path
}

/// The entries that an archive of the tree holds: those that are not left
/// out, in their order, each as it stands in the archive.
pub open spec fn archived(
    root: Seq<Seq<u8>>,
    entries: Seq<EntryView>,
    ignore: Seq<Seq<u8>>,
) -> Seq<EntryView>
    decreases entries.len(),
{
    if entries.len() == 0 {
        Seq::empty()
    } else {
        let before = archived(root, entries.drop_last(), ignore);
        if left_out(entries.last(), ignore) {
            before
        } else {
            before.push(relative(root, entries.last()))
        }
    }
}

/// The archive of the tree: the compressed tar stream of the entries it
/// holds, or nothing where the compressor gives none.
pub open spec fn packed(
    root: Seq<Seq<u8>>,
    entries: Seq<EntryView>,
    ignore: Seq<Seq<u8>>,
) -> Option<Seq<u8>> {
    zstd_compressed(tar_stream(records_of(archived(root, entries, ignore))), LEVEL as int)
}

/// The record that stands for an entry.
pub open spec fn record_of(e: EntryView) -> Record {
    match e.content {
        ContentView::Directory => (joined(e.path), KIND_DIRECTORY, Seq::<u8>::empty()),
        ContentView::File(data) => (joined(e.path), KIND_FILE, data),
    }
}

/// The records that stand for a list of entries.
pub open spec fn records_of(entries: Seq<EntryView>) -> Seq<Record> {
    Seq::new(entries.len(), |i: int| record_of(entries[i]))
}

/// Whether a record may be unpacked: it is a file or a directory, and its
/// name is text and the name of a plain path.
pub open spec fn safe_record(r: Record) -> bool {
    &&& r.1 == KIND_FILE || r.1 == KIND_DIRECTORY
    &&& valid_utf8(r.0)
    &&& valid_path(split(r.0))
}

/// The entry that a record stands for. The data of a directory's record is
/// not looked at.
pub open spec fn entry_of(r: Record) -> EntryView {
    EntryView {
        path: split(r.0),
        content: if r.1 == KIND_DIRECTORY {
            ContentView::Directory
        } else {
            ContentView::File(r.2)
        },
    }
}

/// The entries that a list of records stands for.
pub open spec fn entries_of(records: Seq<Record>) -> Seq<EntryView> {
    Seq::new(records.len(), |i: int| entry_of(records[i]))
}

/// What unpacking `bytes` gives: the entries of the archive, each with a
/// plain path, or the reason why there are none.
pub open spec fn unpacked(bytes: Seq<u8>) -> Result<Seq<EntryView>, ShadowError> {
    match zstd_decoded(bytes) {
        None => Err(ShadowError::Io),
        Some(stream) => match tar_listing(stream) {
            None => Err(ShadowError::Io),
            Some(records) => if forall|i: int|
                0 <= i < records.len() ==> safe_record(#[trigger] records[i]) {
                Ok(entries_of(records))
            } else {
                Err(ShadowError::PathSafety)
            },
        },
    }
}


/// A tree that can be archived stays so without its last entry.
proof fn lemma_archivable_front(
    root: Seq<Seq<u8>>,
    entries: Seq<EntryView>,
    ignore: Seq<Seq<u8>>,
)
    requires
        archivable(root, entries, ignore),
        entries.len() > 0,
    ensures
        archivable(root, entries.drop_last(), ignore),
{
    let front = entries.drop_last();
    assert forall|i: int|
        0 <= i < front.len() && !(#[trigger] left_out(front[i], ignore)) implies fits(
        root,
        front[i],
    ) by {
        assert(front[i] == entries[i]);
        assert(!left_out(entries[i], ignore));
    }
    assert forall|i: int, j: int|
        #![trigger left_out(front[i], ignore), left_out(front[j], ignore)]
        0 <= i < j < front.len() && !left_out(front[i], ignore) && !left_out(
            front[j],
            ignore,
        ) implies front[i].path != front[j].path by {
        assert(front[i] == entries[i] && front[j] == entries[j]);
        assert(!left_out(entries[i], ignore) && !left_out(entries[j], ignore));
    }
}

/// Every entry that an archive of an archivable tree holds has a plain path
/// whose name is text and whose first component is the root's own name; it
/// is an entry of the tree, at the parent of the root followed by that path,
/// and is not left out there.
pub proof fn lemma_archived_fit(
    root: Seq<Seq<u8>>,
    entries: Seq<EntryView>,
    ignore: Seq<Seq<u8>>,
)
    requires
        archivable(root, entries, ignore),
    ensures
        forall|k: int|
            0 <= k < archived(root, entries, ignore).len() ==> {
                let e = #[trigger] archived(root, entries, ignore)[k];
                &&& valid_path(e.path)
                &&& valid_utf8(joined(e.path))
                &&& e.path[0] == root.last()
                &&& exists|i: int|
                    0 <= i < entries.len() && !(#[trigger] left_out(entries[i], ignore))
                        && entries[i].path == root.drop_last() + e.path && entries[i].content
                        == e.content
            },
    decreases entries.len(),
{
    if entries.len() > 0 {
        let front = entries.drop_last();
        lemma_archivable_front(root, entries, ignore);
        lemma_archived_fit(root, front, ignore);
        let all = archived(root, entries, ignore);
        let before = archived(root, front, ignore);
        assert forall|k: int| 0 <= k < all.len() implies {
            let e = #[trigger] all[k];
            &&& valid_path(e.path)
            &&& valid_utf8(joined(e.path))
            &&& e.path[0] == root.last()
            &&& exists|i: int|
                0 <= i < entries.len() && !(#[trigger] left_out(entries[i], ignore))
                    && entries[i].path == root.drop_last() + e.path && entries[i].content
                    == e.content
        } by {
            let e = all[k];
            if k < before.len() {
                assert(e == before[k]);
                let i = choose|i: int|
                    0 <= i < front.len() && !(#[trigger] left_out(front[i], ignore))
                        && front[i].path == root.drop_last() + e.path && front[i].content
                        == e.content;
                assert(entries[i] == front[i]);
                assert(!left_out(entries[i], ignore));
            } else {
                let last = entries.last();
                let i = entries.len() - 1;
                assert(e == relative(root, last));
                assert(!left_out(entries[i], ignore));
                assert(fits(root, entries[i]));
                assert(last.path.subrange(0, root.len() as int) =~= root);
                assert(e.path[0] == last.path[root.len() - 1]);
                assert(root.drop_last() + e.path =~= last.path);
                assert(entries[i].path == root.drop_last() + e.path);
            }
        }
    }
}

/// No two entries of an archive stand at the same path.
pub proof fn lemma_archived_distinct(
    root: Seq<Seq<u8>>,
    entries: Seq<EntryView>,
    ignore: Seq<Seq<u8>>,
)
    requires
        archivable(root, entries, ignore),
    ensures
        forall|k: int, l: int|
            0 <= k < l < archived(root, entries, ignore).len() ==> (#[trigger] archived(
                root,
                entries,
                ignore,
            )[k]).path != (#[trigger] archived(root, entries, ignore)[l]).path,
    decreases entries.len(),
{
    if entries.len() > 0 {
        let front = entries.drop_last();
        lemma_archivable_front(root, entries, ignore);
        lemma_archived_distinct(root, front, ignore);
        lemma_archived_fit(root, front, ignore);
        let all = archived(root, entries, ignore);
        let before = archived(root, front, ignore);
        let last = entries.last();
        let n = entries.len() - 1;
        assert forall|k: int, l: int| 0 <= k < l < all.len() implies (#[trigger] all[k]).path != (
        #[trigger] all[l]).path by {
            if l < before.len() {
                assert(all[k] == before[k] && all[l] == before[l]);
            } else {
                let e = before[k];
                assert(all[k] == e);
                assert(all[l] == relative(root, last));
                assert(!left_out(entries[n], ignore));
                assert(fits(root, entries[n]));
                assert(last.path.subrange(0, root.len() as int) =~= root);
                assert(root.drop_last() + relative(root, last).path =~= last.path);
                let i = choose|i: int|
                    0 <= i < front.len() && !(#[trigger] left_out(front[i], ignore))
                        && front[i].path == root.drop_last() + e.path && front[i].content
                        == e.content;
                assert(entries[i] == front[i]);
                assert(!left_out(entries[i], ignore));
                if e.path == relative(root, last).path {
                    assert(entries[i].path == entries[n].path);
                    assert(false);
                }
            }
        }
    }
}

/// Every entry of the tree that is not left out stands in the archive, as
/// it stands there: nothing of the tree is missing from it.
pub proof fn lemma_kept_is_archived(
    root: Seq<Seq<u8>>,
    entries: Seq<EntryView>,
    ignore: Seq<Seq<u8>>,
    i: int,
)
    requires
        0 <= i < entries.len(),
        !left_out(entries[i], ignore),
    ensures
        exists|k: int|
            0 <= k < archived(root, entries, ignore).len() && #[trigger] archived(
                root,
                entries,
                ignore,
            )[k] == relative(root, entries[i]),
    decreases entries.len(),
{
    let front = entries.drop_last();
    let all = archived(root, entries, ignore);
    let before = archived(root, front, ignore);
    if i == entries.len() - 1 {
        assert(all[all.len() - 1] == relative(root, entries[i]));
    } else {
        assert(front[i] == entries[i]);
        lemma_kept_is_archived(root, front, ignore, i);
        let k = choose|k: int|
            0 <= k < before.len() && #[trigger] before[k] == relative(root, front[i]);
        assert(all[k] == before[k]);
    }
}

/// An archive never holds the entry at the path that was to be ignored, nor
/// a file whose name has the extension `shadow`.
pub proof fn lemma_ignored_is_left_out(
    root: Seq<Seq<u8>>,
    entries: Seq<EntryView>,
    ignore: Seq<Seq<u8>>,
)
    requires
        archivable(root, entries, ignore),
    ensures
        forall|k: int|
            0 <= k < archived(root, entries, ignore).len() ==> {
                let e = #[trigger] archived(root, entries, ignore)[k];
                &&& root.drop_last() + e.path != ignore
                &&& e.content is File ==> !is_container_name(e.path.last())
            },
{
    lemma_archived_fit(root, entries, ignore);
    let all = archived(root, entries, ignore);
    assert forall|k: int| 0 <= k < all.len() implies {
        let e = #[trigger] all[k];
        &&& root.drop_last() + e.path != ignore
        &&& e.content is File ==> !is_container_name(e.path.last())
    } by {
        let e = all[k];
        let full = root.drop_last() + e.path;
        let i = choose|i: int|
            0 <= i < entries.len() && !(#[trigger] left_out(entries[i], ignore))
                && entries[i].path == full && entries[i].content == e.content;
        assert(valid_path(e.path));
        assert(full.last() == e.path.last());
    }
}

/// The records of plain entries are safe, and stand for these entries.
pub proof fn lemma_entries_of_records(entries: Seq<EntryView>)
    requires
        forall|k: int|
            0 <= k < entries.len() ==> valid_path(#[trigger] entries[k].path) && valid_utf8(
                joined(entries[k].path),
            ),
    ensures
        forall|k: int|
            0 <= k < records_of(entries).len() ==> safe_record(#[trigger] records_of(entries)[k]),
        entries_of(records_of(entries)) == entries,
{
    let records = records_of(entries);
    assert forall|k: int| 0 <= k < records.len() implies safe_record(#[trigger] records[k])
        && entry_of(records[k]) == entries[k] by {
        lemma_split_joined_valid(entries[k].path);
    }
    assert(entries_of(records) =~= entries);
}

/// Whether `entry` is left out of an archive that is being written to
/// `ignore_path`.
pub fn is_left_out(entry: &Entry, ignore_path: &Vec<Vec<u8>>) -> (r: bool)
    ensures
        r == left_out(entry@, components(ignore_path@)),
{
    let is_directory = match &entry.content {
        Content::Directory => true,
        Content::File(_) => false,
    };
    is_excluded(entry.path.as_slice(), is_directory, ignore_path.as_slice())
}

/// Whether `entry` fits into an archive of the tree with root `root`.
fn entry_fits(root: &Vec<Vec<u8>>, entry: &Entry) -> (r: bool)
    requires
        root@.len() >= 1,
    ensures
        r == fits(components(root@), entry@),
{
    let ghost root_view = components(root@);
    assert(root_view.subrange(0, root@.len() as int) =~= root_view);
    if !starts_with(entry.path.as_slice(), root.as_slice(), root.len()) {
        return false;
    }
    let rest = slice_subrange(entry.path.as_slice(), root.len() - 1, entry.path.len());
    assert(components(rest@) =~= relative(root_view, entry@).path);
    if !is_valid_path(rest) {
        return false;
    }
    let name = join_path(rest);
    utf8_text(name.as_slice()).is_some()
}

/// Whether an entry before the one at `at` is kept and stands at its path.
fn is_repeated(entries: &Vec<Entry>, at: usize, ignore_path: &Vec<Vec<u8>>) -> (r: bool)
    requires
        at < entries@.len(),
    ensures
        r == exists|j: int|
            0 <= j < at && !(#[trigger] left_out(entry_views(entries@)[j], components(ignore_path@)))
                && entry_views(entries@)[j].path == entry_views(entries@)[at as int].path,
{
    let ghost all = entry_views(entries@);
    let ghost ignore = components(ignore_path@);
    let mut j: usize = 0;
    while j < at
        invariant
            j <= at < entries.len(),
            all == entry_views(entries@),
            ignore == components(ignore_path@),
            forall|a: int|
                0 <= a < j && !(#[trigger] left_out(all[a], ignore)) ==> all[a].path
                    != all[at as int].path,
        decreases at - j,
    {
        assert(all[j as int] == entries@[j as int]@);
        assert(all[at as int] == entries@[at as int]@);
        if same_path(entries[j].path.as_slice(), entries[at].path.as_slice()) && !is_left_out(
            &entries[j],
            ignore_path,
        ) {
            assert(!left_out(all[j as int], ignore));
            return true;
        }
        j += 1;
    }
    false
}

/// Whether the tree can be archived.
fn tree_fits(root: &Vec<Vec<u8>>, entries: &Vec<Entry>, ignore_path: &Vec<Vec<u8>>) -> (r: bool)
    ensures
        r == archivable(components(root@), entry_views(entries@), components(ignore_path@)),
{
    if root.len() == 0 {
        return false;
    }
    let ghost root_view = components(root@);
    let ghost ignore = components(ignore_path@);
    let ghost all = entry_views(entries@);
    let mut i: usize = 0;
    while i < entries.len()
        invariant
            i <= entries.len(),
            root.len() >= 1,
            root_view == components(root@),
            ignore == components(ignore_path@),
            all == entry_views(entries@),
            forall|a: int|
                0 <= a < i && !(#[trigger] left_out(all[a], ignore)) ==> fits(root_view, all[a]),
            forall|a: int, b: int|
                #![trigger left_out(all[a], ignore), left_out(all[b], ignore)]
                0 <= a < b < i && !left_out(all[a], ignore) && !left_out(all[b], ignore)
                    ==> all[a].path != all[b].path,
        decreases entries.len() - i,
    {
        let entry = &entries[i];
        assert(all[i as int] == entry@);
        if !is_left_out(entry, ignore_path) {
            assert(!left_out(all[i as int], ignore));
            if !entry_fits(root, entry) {
                return false;
            }
            if is_repeated(entries, i, ignore_path) {
                let ghost j = choose|j: int|
                    0 <= j < i && !(#[trigger] left_out(all[j], ignore)) && all[j].path
                        == all[i as int].path;
                assert(!left_out(all[j], ignore) && !left_out(all[i as int], ignore));
                return false;
            }
        }
        i += 1;
    }
    true
}

/// Packs the entries of a tree into one compressed archive.
///
/// `root` is the path of the tree's root and `entries` are the entries of
/// the tree, the root itself among them, each with its whole path. Left out
/// are the entry at `ignore_path`, the place where the container is being
/// written, and every file whose name has the extension `shadow`. Each of the
/// others is stored under its path from the root's own name on.
///
/// A tree with an entry that does not fit, or with two entries at one path,
/// is refused before anything is packed. Every other tree is packed, unless
/// the compressor gives nothing, and its archive unpacks to exactly the
/// entries it was made of.
pub fn create_archive(
    root: &Vec<Vec<u8>>,
    entries: &Vec<Entry>,
    ignore_path: &Vec<Vec<u8>>,
) -> (r: Result<Vec<u8>, ShadowError>)
    ensures
        match r {
            Ok(bytes) => {
                &&& archivable(
                    components(root@),
                    entry_views(entries@),
                    components(ignore_path@),
                )
                &&& packed(components(root@), entry_views(entries@), components(ignore_path@))
                    == Some(bytes@)
                &&& unpacked(bytes@) == Ok::<Seq<EntryView>, ShadowError>(
                    archived(components(root@), entry_views(entries@), components(ignore_path@)),
                )
            },
            Err(e) => if archivable(
                components(root@),
                entry_views(entries@),
                components(ignore_path@),
            ) {
                e == ShadowError::Io && packed(
                    components(root@),
                    entry_views(entries@),
                    components(ignore_path@),
                ) is None
            } else {
                e == ShadowError::PathSafety
            },
        },
{
    if !tree_fits(root, entries, ignore_path) {
        return Err(ShadowError::PathSafety);
    }
    let first = root.len() - 1;
    let ghost root_view = components(root@);
    let ghost ignore = components(ignore_path@);
    let ghost all = entry_views(entries@);
    let mut writer = tar_start();
    let mut i: usize = 0;
    assert(all.subrange(0, 0) =~= Seq::<EntryView>::empty());
    assert(records_of(Seq::<EntryView>::empty()) =~= Seq::<Record>::empty());
    while i < entries.len()
        invariant
            i <= entries.len(),
            first == root.len() - 1,
            root.len() >= 1,
            root_view == components(root@),
            ignore == components(ignore_path@),
            all == entry_views(entries@),
            archivable(root_view, all, ignore),
            tar_written(writer) == records_of(archived(root_view, all.subrange(0, i as int), ignore)),
        decreases entries.len() - i,
    {
        let entry = &entries[i];
        let ghost before = archived(root_view, all.subrange(0, i as int), ignore);
        let ghost upto = all.subrange(0, i + 1);
        proof {
            assert(all[i as int] == entry@);
            assert(upto.drop_last() =~= all.subrange(0, i as int));
            assert(upto.last() == entry@);
        }
        if !is_left_out(entry, ignore_path) {
            assert(!left_out(all[i as int], ignore));
            assert(fits(root_view, all[i as int]));
            let rest = slice_subrange(entry.path.as_slice(), first, entry.path.len());
            assert(components(rest@) =~= relative(root_view, entry@).path);
            let name = join_path(rest);
            let text = match utf8_text(name.as_slice()) {
                Some(text) => text,
                None => {
                    return Err(ShadowError::PathSafety);
                },
            };
            proof {
                lemma_split_joined_valid(components(rest@));
            }
            let appended = match &entry.content {
                Content::Directory => {
                    let nothing: Vec<u8> = Vec::new();
                    tar_append(&mut writer, text, KIND_DIRECTORY, DIRECTORY_MODE, nothing.as_slice())
                },
                Content::File(data) => tar_append(
                    &mut writer,
                    text,
                    KIND_FILE,
                    FILE_MODE,
                    data.as_slice(),
                ),
            };
            if appended.is_err() {
                return Err(ShadowError::Io);
            }
            assert(tar_written(writer) =~= records_of(before.push(relative(root_view, entry@))));
        }
        i += 1;
    }
    assert(all.subrange(0, i as int) =~= all);
    let ghost kept = archived(root_view, all, ignore);
    let stream = match tar_finish(writer) {
        Ok(stream) => stream,
        Err(_) => {
            return Err(ShadowError::Io);
        },
    };
    let bytes = match zstd_encode(stream.as_slice(), LEVEL) {
        Ok(bytes) => bytes,
        Err(_) => {
            return Err(ShadowError::Io);
        },
    };
    proof {
        lemma_archived_fit(root_view, all, ignore);
        lemma_entries_of_records(kept);
    }
    Ok(bytes)
}

/// Unpacks a compressed archive into its entries.
///
/// Every entry that comes back has a plain path, so that below any folder
/// it names a place inside that folder. An archive with any other entry is
/// refused as a whole: with a name that is not text, with an empty, `.` or
/// `..` component, with a `\` or a zero byte, with a leading or trailing `/`,
/// or of a kind other than file and directory.
pub fn unpack_archive(data: &[u8]) -> (r: Result<Vec<Entry>, ShadowError>)
    ensures
        match r {
            Ok(entries) => unpacked(data@) == Ok::<Seq<EntryView>, ShadowError>(
                entry_views(entries@),
            ),
            Err(e) => unpacked(data@) == Err::<Seq<EntryView>, ShadowError>(e),
        },
{
    let stream = match zstd_decode(data) {
        Ok(stream) => stream,
        Err(_) => {
            return Err(ShadowError::Io);
        },
    };
    let records = match tar_list(stream.as_slice()) {
        Ok(records) => records,
        Err(_) => {
            return Err(ShadowError::Io);
        },
    };
    let ghost listing = record_views(records@);
    let mut entries: Vec<Entry> = Vec::new();
    for record in it: records
        invariant
            zstd_decoded(data@) == Some(stream@),
            tar_listing(stream@) == Some(listing),
            listing == record_views(it.seq()),
            entries.len() == it.index(),
            forall|k: int| 0 <= k < it.index() ==> safe_record(#[trigger] listing[k]),
            forall|k: int| 0 <= k < it.index() ==> (#[trigger] entries@[k])@ == entry_of(listing[k]),
    {
        let ghost k = it.index() as int;
        assert(listing[k] == (record.name@, record.kind, record.data@));
        let RawRecord { name, kind, data } = record;
        if kind != KIND_FILE && kind != KIND_DIRECTORY {
            assert(!safe_record(listing[k]));
            return Err(ShadowError::PathSafety);
        }
        if utf8_text(name.as_slice()).is_none() {
            assert(!safe_record(listing[k]));
            return Err(ShadowError::PathSafety);
        }
        let path = split_name(name.as_slice());
        if !is_valid_path(path.as_slice()) {
            assert(!safe_record(listing[k]));
            return Err(ShadowError::PathSafety);
        }
        let content = if kind == KIND_DIRECTORY {
            Content::Directory
        } else {
            Content::File(data)
        };
        entries.push(Entry { path, content });
    }
    assert(entry_views(entries@) =~= entries_of(listing));
    Ok(entries)
}

} // verus!
