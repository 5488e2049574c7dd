//! Project archives: a project's files packed into a zip archive in
//! memory, and the entries of an uploaded archive checked one by one
//! before they are written out. The zip format is the `zip` crate's work;
//! walking and writing the project's folder is the caller's.
use std::io::{Read, Write};
use vstd::prelude::*;
use vstd::utf8::encode_utf8;

use crate::http::{spec_safe_join, FileOpError};
use crate::text::{chars_of, starts_with, string_of};

verus! {

#[verifier::external_type_specification]
#[verifier::external_body]
#[verifier::reject_recursive_types(T)]
pub struct ExCursor<T>(std::io::Cursor<T>);

#[verifier::external_type_specification]
#[verifier::external_body]
#[verifier::reject_recursive_types(R)]
pub struct ExZipArchive<R>(zip::ZipArchive<R>);

/// Unix permissions of a file in an exported archive.
pub const FILE_MODE: u32 = 0o644;

/// Unix permissions of a folder in an exported archive.
pub const DIR_MODE: u32 = 0o755;

/// A zip archive being written in memory.
#[verifier::external_body]
pub struct ArchiveWriter {
    inner: zip::ZipWriter<std::io::Cursor<Vec<u8>>>,
}

/// The entries added to a writer, in order: the name given, whether it is
/// a folder, its permissions, and its data.
pub uninterp spec fn archive_entries(w: ArchiveWriter) -> Seq<(Seq<char>, bool, u32, Seq<u8>)>;

/// The bytes of the archive that `zip::ZipWriter::finish` gives for these
/// entries, each added once, files compressed with deflate.
pub uninterp spec fn zip_archive_bytes(entries: Seq<(Seq<char>, bool, u32, Seq<u8>)>) -> Seq<u8>;

/// The name an entry is stored under: a folder's name gets a trailing `/`
/// unless it already ends in `/` or `\` (`add_directory`, write.rs).
pub open spec fn stored_name(e: (Seq<char>, bool, u32, Seq<u8>)) -> Seq<char> {
    if e.1 && !(e.0.len() > 0 && (e.0.last() == '/' || e.0.last() == '\\')) {
        e.0 + seq!['/']
    } else {
        e.0
    }
}

/// The longest stored name, in UTF-8 bytes, that a zip entry header can
/// hold; a longer one makes the writer panic.
pub const MAX_NAME_BYTES: usize = 65535;

/// The largest file the writer is owed to take: its deflate output stays
/// below the 4 GiB that an entry without the large-file option may hold.
pub const MAX_OWED_FILE_BYTES: u64 = 0x4000_0000;

/// The archive size, by `archive_size_bound`, up to which the writer is
/// owed to succeed: every entry then starts below 4 GiB.
pub const MAX_OWED_ARCHIVE_BYTES: u64 = 0x8000_0000;

/// Whether no entry is stored under the name `n`.
pub open spec fn name_fresh(entries: Seq<(Seq<char>, bool, u32, Seq<u8>)>, n: Seq<char>) -> bool {
    forall|i: int| 0 <= i < entries.len() ==> stored_name(#[trigger] entries[i]) != n
}

/// Whether no two entries are stored under the same name.
pub open spec fn names_distinct(entries: Seq<(Seq<char>, bool, u32, Seq<u8>)>) -> bool {
    forall|i: int, j: int|
        0 <= i < j < entries.len() ==> stored_name(#[trigger] entries[i]) != stored_name(#[trigger] entries[j])
}

/// Whether every file holds at most `MAX_OWED_FILE_BYTES`.
pub open spec fn files_small(entries: Seq<(Seq<char>, bool, u32, Seq<u8>)>) -> bool {
    forall|i: int| 0 <= i < entries.len() ==> #[trigger] entries[i].3.len() <= MAX_OWED_FILE_BYTES
}

/// A bound on the bytes that these entries take in an archive: per entry,
/// its header and stored name, and twice its data for the deflate output.
pub open spec fn archive_size_bound(entries: Seq<(Seq<char>, bool, u32, Seq<u8>)>) -> int
    decreases entries.len(),
{
    if entries.len() == 0 {
        0
    } else {
        archive_size_bound(entries.drop_last()) + encode_utf8(stored_name(entries.last())).len() + 2
            * entries.last().3.len() + 128
    }
}

/// Whether the writer is owed to take one more entry stored under `n`: no
/// entry has that name, every file so far is small, and the archive so far
/// is small.
pub open spec fn owed_entry(entries: Seq<(Seq<char>, bool, u32, Seq<u8>)>, n: Seq<char>) -> bool {
    &&& name_fresh(entries, n)
    &&& files_small(entries)
    &&& archive_size_bound(entries) <= MAX_OWED_ARCHIVE_BYTES
}

/// Calls `zip::ZipWriter::new` on an empty in-memory buffer. Trusted: the
/// new writer holds no entries.
#[verifier::external_body]
fn zip_writer_new() -> (r: ArchiveWriter)
    ensures
        archive_entries(r) == Seq::<(Seq<char>, bool, u32, Seq<u8>)>::empty(),
{
    ArchiveWriter { inner: zip::ZipWriter::new(std::io::Cursor::new(Vec::new())) }
}

/// Calls `zip::ZipWriter::add_directory` with the permissions `mode`; it
/// panics on a stored name of more than `MAX_NAME_BYTES` bytes
/// (types.rs `local_block`), which `requires` leaves out. Trusted: on
/// success the writer holds one more entry, the folder; on failure the
/// writer is dropped. It fails only on a name already stored (write.rs
/// `insert_file_data`) or on the previous file's deflate output passing
/// 4 GiB (write.rs `update_local_file_header`), as the buffer is an
/// in-memory `Vec`; so where `owed_entry` holds it succeeds.
#[verifier::external_body]
fn zip_add_dir(w: ArchiveWriter, name: &str, mode: u32) -> (r: Result<ArchiveWriter, String>)
    requires
        encode_utf8(stored_name((name@, true, mode, Seq::<u8>::empty()))).len() <= MAX_NAME_BYTES,
    ensures
        r matches Ok(v) ==> archive_entries(v) == archive_entries(w).push((name@, true, mode, Seq::<u8>::empty())),
        owed_entry(archive_entries(w), stored_name((name@, true, mode, Seq::<u8>::empty()))) ==> r is Ok,
{
    let mut w = w;
    let options = zip::write::SimpleFileOptions::default().unix_permissions(mode);
    match w.inner.add_directory(name, options) {
        Ok(()) => Ok(w),
        Err(e) => Err(e.to_string()),
    }
}

/// Calls `zip::ZipWriter::start_file` for a deflate-compressed file with the
/// permissions `mode`; it panics on a name of more than `MAX_NAME_BYTES`
/// bytes (types.rs `local_block`), which `requires` leaves out. Trusted: on
/// success the writer holds one more entry, the file, still empty; on
/// failure the writer is dropped. It fails only as `zip_add_dir` does, so
/// where `owed_entry` holds it succeeds.
#[verifier::external_body]
fn zip_start_file(w: ArchiveWriter, name: &str, mode: u32) -> (r: Result<ArchiveWriter, String>)
    requires
        encode_utf8(name@).len() <= MAX_NAME_BYTES,
    ensures
        r matches Ok(v) ==> archive_entries(v) == archive_entries(w).push((name@, false, mode, Seq::<u8>::empty())),
        owed_entry(archive_entries(w), name@) ==> r is Ok,
{
    let mut w = w;
    let options = zip::write::SimpleFileOptions::default().compression_method(zip::CompressionMethod::Deflated)
        .unix_permissions(mode);
    match w.inner.start_file(name, options) {
        Ok(()) => Ok(w),
        Err(e) => Err(e.to_string()),
    }
}

/// Calls `Write::write_all` on the writer, which writes into the file it
/// started last. Trusted: on success that file's data is `data`; on
/// failure the writer is dropped. It fails only past 4 GiB of data
/// (write.rs, `Write for ZipWriter`), so it succeeds on at most
/// `MAX_OWED_FILE_BYTES`.
#[verifier::external_body]
fn zip_write(w: ArchiveWriter, data: &[u8]) -> (r: Result<ArchiveWriter, String>)
    requires
        archive_entries(w).len() > 0,
        !archive_entries(w).last().1,
        archive_entries(w).last().3.len() == 0,
    ensures
        r matches Ok(v) ==> archive_entries(v) == archive_entries(w).update(
            archive_entries(w).len() - 1,
            (archive_entries(w).last().0, false, archive_entries(w).last().2, data@),
        ),
        data@.len() <= MAX_OWED_FILE_BYTES ==> r is Ok,
{
    let mut w = w;
    match w.inner.write_all(data) {
        Ok(()) => Ok(w),
        Err(e) => Err(e.to_string()),
    }
}

/// Calls `zip::ZipWriter::finish` and takes the buffer. Trusted: on
/// success the bytes are those of the archive of the writer's entries. It
/// fails only on the last file's deflate output passing 4 GiB, so it
/// succeeds where every file is small and the archive is too.
///
/// Deflate output stays small because `miniz_oxide` (the deflate back end
/// here) writes a block that does not shrink as a stored block, or as a
/// static one of at most 9 bits a byte (miniz_oxide deflate/core.rs
/// `flush_block`): twice a file's size is ample.
#[verifier::external_body]
fn zip_finish(w: ArchiveWriter) -> (r: Result<Vec<u8>, String>)
    ensures
        r matches Ok(b) ==> b@ == zip_archive_bytes(archive_entries(w)),
        files_small(archive_entries(w)) && archive_size_bound(archive_entries(w)) <= MAX_OWED_ARCHIVE_BYTES
            ==> r is Ok,
{
    match w.inner.finish() {
        Ok(cursor) => Ok(cursor.into_inner()),
        Err(e) => Err(e.to_string()),
    }
}

/// One item found in a project's folder: its path relative to the project,
/// whether it is a folder or a regular file, and a file's data.
pub struct ExportEntry {
    pub rel: String,
    pub is_dir: bool,
    pub is_file: bool,
    pub data: Vec<u8>,
}

pub open spec fn export_entry_view(e: ExportEntry) -> (Seq<char>, bool, bool, Seq<u8>) {
    (e.rel@, e.is_dir, e.is_file, e.data@)
}

pub open spec fn export_entries_view(s: Seq<ExportEntry>) -> Seq<(Seq<char>, bool, bool, Seq<u8>)> {
    s.map_values(|e: ExportEntry| export_entry_view(e))
}

/// What an export packs: every folder and regular file but the project
/// folder itself (empty path), in order, folders with no data.
pub open spec fn spec_export_list(s: Seq<(Seq<char>, bool, bool, Seq<u8>)>) -> Seq<(Seq<char>, bool, u32, Seq<u8>)>
    decreases s.len(),
{
    if s.len() == 0 {
        Seq::empty()
    } else {
        let rest = spec_export_list(s.drop_last());
        let e = s.last();
        if e.0.len() == 0 {
            rest
        } else if e.1 {
            rest.push((e.0, true, DIR_MODE, Seq::empty()))
        } else if e.2 {
            rest.push((e.0, false, FILE_MODE, e.3))
        } else {
            rest
        }
    }
}

/// Whether `m` is one of the export's failure messages: the step of the
/// zip writer that failed, then its reason.
pub open spec fn export_failure(m: Seq<char>) -> bool {
    ||| starts_with(m, "Failed to add archive directory: "@)
    ||| starts_with(m, "Failed to start archive entry: "@)
    ||| starts_with(m, "Failed to write archive entry: "@)
    ||| starts_with(m, "Failed to finalize archive: "@)
}

fn export_error(prefix: &str, reason: String) -> (r: FileOpError)
    ensures
        r.status == 500,
        r.message@ == prefix@ + reason@,
        starts_with(r.message@, prefix@),
{
    assert((prefix@ + reason@).subrange(0, prefix@.len() as int) =~= prefix@);
    let mut m = chars_of(prefix);
    let mut rest = chars_of(reason.as_str());
    m.append(&mut rest);
    FileOpError { status: 500, message: string_of(m.as_slice()) }
}

/// Whether every entry's stored name fits in a zip entry header.
pub open spec fn names_fit(entries: Seq<(Seq<char>, bool, u32, Seq<u8>)>) -> bool {
    forall|i: int| 0 <= i < entries.len() ==> encode_utf8(stored_name(#[trigger] entries[i])).len() <= MAX_NAME_BYTES
}

/// Whether an export of these entries is owed to succeed: no two stored
/// under one name, every file small, and the archive small.
pub open spec fn export_owed(entries: Seq<(Seq<char>, bool, u32, Seq<u8>)>) -> bool {
    &&& names_distinct(entries)
    &&& files_small(entries)
    &&& archive_size_bound(entries) <= MAX_OWED_ARCHIVE_BYTES
}

proof fn lemma_export_list_prefix(s: Seq<(Seq<char>, bool, bool, Seq<u8>)>, i: int)
    requires
        0 <= i <= s.len(),
    ensures
        spec_export_list(s.subrange(0, i)).len() <= spec_export_list(s).len(),
        spec_export_list(s).subrange(0, spec_export_list(s.subrange(0, i)).len() as int) == spec_export_list(
            s.subrange(0, i),
        ),
    decreases s.len(),
{
    if i == s.len() {
        assert(s.subrange(0, i) =~= s);
        assert(spec_export_list(s).subrange(0, spec_export_list(s).len() as int) =~= spec_export_list(s));
    } else {
        let d = s.drop_last();
        lemma_export_list_prefix(d, i);
        assert(d.subrange(0, i) =~= s.subrange(0, i));
        let k = spec_export_list(s.subrange(0, i)).len() as int;
        assert(spec_export_list(s).subrange(0, k) =~= spec_export_list(d).subrange(0, k));
    }
}

proof fn lemma_size_bound_prefix(u: Seq<(Seq<char>, bool, u32, Seq<u8>)>, k: int)
    requires
        0 <= k <= u.len(),
    ensures
        archive_size_bound(u.subrange(0, k)) <= archive_size_bound(u),
    decreases u.len(),
{
    if k == u.len() {
        assert(u.subrange(0, k) =~= u);
    } else {
        lemma_size_bound_prefix(u.drop_last(), k);
        assert(u.drop_last().subrange(0, k) =~= u.subrange(0, k));
    }
}

/// What exporting the items before `i` has stored is a prefix of what the
/// whole export stores; where the export is owed, so is the next entry.
proof fn lemma_export_step(ev: Seq<(Seq<char>, bool, bool, Seq<u8>)>, i: int)
    requires
        0 <= i < ev.len(),
    ensures
        ({
            let all = spec_export_list(ev);
            let pre = spec_export_list(ev.subrange(0, i));
            let nxt = spec_export_list(ev.subrange(0, i + 1));
            &&& nxt == pre || (pre.len() < all.len() && nxt == pre.push(all[pre.len() as int]))
            &&& names_fit(all) ==> names_fit(pre)
            &&& pre.len() < all.len() && names_fit(all) ==> encode_utf8(stored_name(all[pre.len() as int])).len()
                <= MAX_NAME_BYTES
            &&& pre.len() < all.len() && export_owed(all) ==> owed_entry(pre, stored_name(all[pre.len() as int]))
                && all[pre.len() as int].3.len() <= MAX_OWED_FILE_BYTES
        }),
{
    let all = spec_export_list(ev);
    let pre = spec_export_list(ev.subrange(0, i));
    let nxt = spec_export_list(ev.subrange(0, i + 1));
    lemma_export_list_prefix(ev, i);
    lemma_export_list_prefix(ev, i + 1);
    assert(ev.subrange(0, i + 1).drop_last() =~= ev.subrange(0, i));
    if nxt != pre {
        assert(nxt == pre.push(nxt.last()));
        assert(all.subrange(0, nxt.len() as int)[pre.len() as int] == all[pre.len() as int]);
    }
    assert forall|j: int| 0 <= j < pre.len() implies pre[j] == all[j] by {
        assert(all.subrange(0, pre.len() as int)[j] == all[j]);
    }
    if pre.len() < all.len() && export_owed(all) {
        lemma_size_bound_prefix(all, pre.len() as int);
        assert(all.subrange(0, pre.len() as int) == pre);
        let k = pre.len() as int;
        assert forall|j: int| 0 <= j < pre.len() implies stored_name(#[trigger] pre[j]) != stored_name(all[k]) by {
            assert(pre[j] == all[j]);
        }
        assert forall|j: int| 0 <= j < pre.len() implies #[trigger] pre[j].3.len() <= MAX_OWED_FILE_BYTES by {
            assert(pre[j] == all[j]);
        }
    }
    if names_fit(all) {
        assert forall|j: int| 0 <= j < pre.len() implies encode_utf8(stored_name(#[trigger] pre[j])).len()
            <= MAX_NAME_BYTES by {
            assert(pre[j] == all[j]);
        }
    }
}

/// Packs a project's items into a zip archive: folders and regular files
/// in the order given, files compressed, the project folder itself and
/// anything else left out (see `spec_export_list`). A failure of the zip
/// writer is a 500 error naming the step that failed.
pub fn export_archive(entries: &[ExportEntry]) -> (r: Result<Vec<u8>, FileOpError>)
    requires
        names_fit(spec_export_list(export_entries_view(entries@))),
    ensures
        match r {
            Ok(b) => b@ == zip_archive_bytes(spec_export_list(export_entries_view(entries@))),
            Err(e) => e.status == 500 && export_failure(e.message@),
        },
        export_owed(spec_export_list(export_entries_view(entries@))) ==> r is Ok,
{
    let ghost ev = export_entries_view(entries@);
    let ghost all = spec_export_list(ev);
    let mut w = zip_writer_new();
    let mut i: usize = 0;
    while i < entries.len()
        invariant
            i <= entries@.len(),
            ev == export_entries_view(entries@),
            all == spec_export_list(ev),
            names_fit(all),
            archive_entries(w) == spec_export_list(ev.subrange(0, i as int)),
        decreases entries@.len() - i,
    {
        let e = &entries[i];
        let ghost pre = spec_export_list(ev.subrange(0, i as int));
        proof {
            assert(ev.subrange(0, i + 1).drop_last() =~= ev.subrange(0, i as int));
            assert(ev.subrange(0, i + 1).last() == export_entry_view(*e));
            lemma_export_step(ev, i as int);
        }
        let rel = chars_of(e.rel.as_str());
        if rel.len() == 0 {
        } else if e.is_dir {
            proof {
                let x = (e.rel@, true, DIR_MODE, Seq::<u8>::empty());
                assert(spec_export_list(ev.subrange(0, i + 1)) == pre.push(x));
                assert(pre.push(x).len() == pre.len() + 1);
                assert(pre.len() < all.len() && all[pre.len() as int] == x) by {
                    assert(pre.push(x)[pre.len() as int] == x);
                }
            }
            w = match zip_add_dir(w, e.rel.as_str(), DIR_MODE) {
                Ok(v) => v,
                Err(reason) => {
                    let err = export_error("Failed to add archive directory: ", reason);
                    return Err(err);
                },
            };
        } else if e.is_file {
            proof {
                let x = (e.rel@, false, FILE_MODE, e.data@);
                assert(spec_export_list(ev.subrange(0, i + 1)) == pre.push(x));
                assert(pre.push(x).len() == pre.len() + 1);
                assert(pre.len() < all.len() && all[pre.len() as int] == x) by {
                    assert(pre.push(x)[pre.len() as int] == x);
                }
                assert(stored_name(x) == e.rel@);
            }
            w = match zip_start_file(w, e.rel.as_str(), FILE_MODE) {
                Ok(v) => v,
                Err(reason) => {
                    let err = export_error("Failed to start archive entry: ", reason);
                    return Err(err);
                },
            };
            w = match zip_write(w, e.data.as_slice()) {
                Ok(v) => v,
                Err(reason) => {
                    let err = export_error("Failed to write archive entry: ", reason);
                    return Err(err);
                },
            };
            proof {
                assert(archive_entries(w) =~= pre.push((e.rel@, false, FILE_MODE, e.data@)));
            }
        }
        i += 1;
    }
    proof {
        assert(ev.subrange(0, entries@.len() as int) =~= ev);
    }
    match zip_finish(w) {
        Ok(b) => Ok(b),
        Err(reason) => {
            let err = export_error("Failed to finalize archive: ", reason);
            Err(err)
        },
    }
}

/// What a zip archive holds, entry by entry in the order of its central
/// directory: the outcome of `zip::ZipArchive::by_index` for that entry,
/// either the text of its error or the entry's stored name, whether it is
/// a folder, and its data as `Read::read_to_end` gives it (or the text of
/// that error).
pub type ZipContents = Seq<Result<(Seq<char>, bool, Result<Seq<u8>, Seq<char>>), Seq<char>>>;

/// What `zip::ZipArchive::new` reads from these bytes: the archive's
/// contents, or the text of the error that it reports.
pub uninterp spec fn zip_read(bytes: Seq<u8>) -> Result<ZipContents, Seq<char>>;

/// The contents of an opened archive.
pub uninterp spec fn archive_contents(a: zip::ZipArchive<std::io::Cursor<Vec<u8>>>) -> ZipContents;

/// Calls `zip::ZipArchive::new` on a copy of the bytes. Trusted: whether it
/// fails, with which message, and what the opened archive holds depend on
/// the bytes alone.
#[verifier::external_body]
fn zip_open(bytes: &[u8]) -> (r: Result<zip::ZipArchive<std::io::Cursor<Vec<u8>>>, String>)
    ensures
        match r {
            Ok(a) => zip_read(bytes@) == Ok::<ZipContents, Seq<char>>(archive_contents(a)),
            Err(e) => zip_read(bytes@) == Err::<ZipContents, Seq<char>>(e@),
        },
{
    zip::ZipArchive::new(std::io::Cursor::new(bytes.to_vec())).map_err(|e| e.to_string())
}

/// An entry as read from an archive: its name where it is safe to use as a
/// relative path, whether it is a folder, and its data or why that could
/// not be read.
pub struct ZipEntryRead {
    pub name: Option<String>,
    pub is_dir: bool,
    pub data: Result<Vec<u8>, String>,
}

/// A stored name that `enclosed_name` lets through on every host: no NUL,
/// `:` or `\`, not starting with `/`, and no `..` component.
pub open spec fn plain_entry_name(n: Seq<char>) -> bool {
    &&& forall|i: int| 0 <= i < n.len() ==> #[trigger] n[i] != '\0' && n[i] != ':' && n[i] != '\\'
    &&& (n.len() == 0 || n[0] != '/')
    &&& !crate::http::parent_part_from(n, 0)
}

/// Whether `read` is what reading entry `index` of an archive with these
/// contents gives: an error past the last entry; the entry's error, or its
/// folder flag and data with, where a name comes, the stored name (which
/// does come where it is plain).
pub open spec fn read_of_entry(
    read: Result<(Option<Seq<char>>, bool, Result<Seq<u8>, Seq<char>>), Seq<char>>,
    contents: ZipContents,
    index: int,
) -> bool {
    if 0 <= index < contents.len() {
        match contents[index] {
            Err(m) => read == Err::<(Option<Seq<char>>, bool, Result<Seq<u8>, Seq<char>>), Seq<char>>(m),
            Ok((n, is_dir, data)) => read matches Ok((name, d, x)) && d == is_dir && x == data && match name {
                Some(v) => v == n,
                None => !plain_entry_name(n),
            },
        }
    } else {
        read is Err
    }
}

/// Calls `zip::ZipArchive::by_index`, then on the entry `enclosed_name`
/// (taken lossily as text), `is_dir` and `Read::read_to_end`. Trusted: the
/// archive's contents stay as they were, and the outcome is that of entry
/// `index` (`read_of_entry`). Whether `enclosed_name` refuses a name that
/// is not plain follows the host's path rules and is left unsaid.
#[verifier::external_body]
fn zip_entry(archive: &mut zip::ZipArchive<std::io::Cursor<Vec<u8>>>, index: usize) -> (r: Result<ZipEntryRead, String>)
    ensures
        archive_contents(*final(archive)) == archive_contents(*old(archive)),
        read_of_entry(entry_read_view(r), archive_contents(*old(archive)), index as int),
{
    match archive.by_index(index) {
        Ok(mut f) => {
            let name = f.enclosed_name().map(|p| p.to_string_lossy().into_owned());
            let is_dir = f.is_dir();
            let mut buf = Vec::new();
            let data = f.read_to_end(&mut buf).map(|_| buf).map_err(|e| e.to_string());
            Ok(ZipEntryRead { name, is_dir, data })
        },
        Err(e) => Err(e.to_string()),
    }
}

/// Why the bytes do not read as an archive.
pub open spec fn open_error_text(bytes: Seq<u8>) -> Seq<char> {
    match zip_read(bytes) {
        Err(m) => m,
        Ok(_) => Seq::empty(),
    }
}

/// Reads an uploaded archive; one that does not read as a zip archive is a
/// 400 error.
pub fn open_import_archive(bytes: &[u8]) -> (r: Result<zip::ZipArchive<std::io::Cursor<Vec<u8>>>, FileOpError>)
    ensures
        match r {
            Ok(a) => zip_read(bytes@) == Ok::<ZipContents, Seq<char>>(archive_contents(a)),
            Err(e) => zip_read(bytes@) is Err && e.status == 400 && e.message@ == "Invalid zip archive: "@
                + open_error_text(bytes@),
        },
{
    match zip_open(bytes) {
        Ok(a) => Ok(a),
        Err(m) => {
            let mut out = chars_of("Invalid zip archive: ");
            let mut rest = chars_of(m.as_str());
            out.append(&mut rest);
            Err(FileOpError { status: 400, message: string_of(out.as_slice()) })
        },
    }
}

/// An entry of an uploaded archive to write out: where it goes, its name in
/// the archive, whether it is a folder, and its data.
pub struct ImportItem {
    pub path: String,
    pub name: String,
    pub is_dir: bool,
    pub data: Result<Vec<u8>, String>,
}

pub open spec fn data_view(d: Result<Vec<u8>, String>) -> Result<Seq<u8>, Seq<char>> {
    match d {
        Ok(b) => Ok(b@),
        Err(e) => Err(e@),
    }
}

pub open spec fn entry_read_view(r: Result<ZipEntryRead, String>) -> Result<
    (Option<Seq<char>>, bool, Result<Seq<u8>, Seq<char>>),
    Seq<char>,
> {
    match r {
        Ok(e) => Ok((crate::tasks::opt_string_view(e.name), e.is_dir, data_view(e.data))),
        Err(m) => Err(m@),
    }
}

pub open spec fn import_item_view(r: Result<Option<ImportItem>, FileOpError>) -> Result<
    Option<(Seq<char>, Seq<char>, bool, Result<Seq<u8>, Seq<char>>)>,
    (u16, Seq<char>),
> {
    match r {
        Ok(None) => Ok(None),
        Ok(Some(it)) => Ok(Some((it.path@, it.name@, it.is_dir, data_view(it.data)))),
        Err(e) => Err((e.status, e.message@)),
    }
}

/// What becomes of an archive entry on import into `target_dir`: an entry
/// that could not be read is a 400 error; one without a safe name is
/// skipped; one whose name holds a `..` component is refused as `safe_join`
/// refuses it; any other goes to its name joined to the folder.
pub open spec fn spec_import_item(
    read: Result<(Option<Seq<char>>, bool, Result<Seq<u8>, Seq<char>>), Seq<char>>,
    target_dir: Seq<char>,
) -> Result<Option<(Seq<char>, Seq<char>, bool, Result<Seq<u8>, Seq<char>>)>, (u16, Seq<char>)> {
    match read {
        Err(e) => Err((400u16, "Failed to read zip entry: "@ + e)),
        Ok((None, _, _)) => Ok(None),
        Ok((Some(n), is_dir, data)) => match spec_safe_join(target_dir, n) {
            Err(m) => Err((400u16, m)),
            Ok(p) => Ok(Some((p, n, is_dir, data))),
        },
    }
}

/// What becomes of an entry, as read, on import into `target_dir` (see
/// `spec_import_item`).
pub fn import_item(read: Result<ZipEntryRead, String>, target_dir: &str) -> (r: Result<Option<ImportItem>, FileOpError>)
    ensures
        import_item_view(r) == spec_import_item(entry_read_view(read), target_dir@),
{
    match read {
        Err(e) => {
            let mut out = chars_of("Failed to read zip entry: ");
            let mut rest = chars_of(e.as_str());
            out.append(&mut rest);
            Err(FileOpError { status: 400, message: string_of(out.as_slice()) })
        },
        Ok(entry) => match entry.name {
            None => Ok(None),
            Some(n) => match crate::http::safe_join(target_dir, n.as_str()) {
                Err(m) => Err(FileOpError { status: 400, message: m }),
                Ok(p) => Ok(Some(ImportItem { path: p, name: n, is_dir: entry.is_dir, data: entry.data })),
            },
        },
    }
}

/// Reads entry `index` of an archive and says what becomes of it on import
/// into `target_dir`: the outcome is the one `spec_import_item` gives for
/// what reading that entry gives (`read_of_entry`); the archive's contents
/// stay as they were.
pub fn next_import_item(
    archive: &mut zip::ZipArchive<std::io::Cursor<Vec<u8>>>,
    index: usize,
    target_dir: &str,
) -> (r: Result<Option<ImportItem>, FileOpError>)
    ensures
        archive_contents(*final(archive)) == archive_contents(*old(archive)),
        exists|read: Result<(Option<Seq<char>>, bool, Result<Seq<u8>, Seq<char>>), Seq<char>>|
            read_of_entry(read, archive_contents(*old(archive)), index as int) && import_item_view(r)
                == #[trigger] spec_import_item(read, target_dir@),
{
    let read = zip_entry(archive, index);
    let ghost rv = entry_read_view(read);
    let r = import_item(read, target_dir);
    assert(read_of_entry(rv, archive_contents(*old(archive)), index as int) && import_item_view(r)
        == spec_import_item(rv, target_dir@));
    r
}

} // verus!

