//! Reading zip archives held in memory through the `zip` crate.

use vstd::prelude::*;
use crate::error::VVError;
use std::io::Cursor;
use zip::result::ZipError;
use zip::ZipArchive;

verus! {

#[verifier::external_type_specification]
#[verifier::external_body]
#[verifier::reject_recursive_types(T)]
pub struct ExCursor<T>(Cursor<T>);

#[verifier::external_type_specification]
#[verifier::external_body]
#[verifier::reject_recursive_types(R)]
pub struct ExZipArchive<R>(ZipArchive<R>);

#[verifier::external_type_specification]
#[verifier::external_body]
pub struct ExZipError(ZipError);

#[verifier::external_type_specification]
#[verifier::external_body]
pub struct ExIoError(std::io::Error);

/// An archive read from bytes in memory.
pub type MemArchive = ZipArchive<Cursor<Vec<u8>>>;

/// The entries an archive holds, in the archive's order: each entry's name
/// and the contents that reading it gives (decompressed), none where
/// reading it fails.
pub uninterp spec fn archive_entries(archive: ZipArchive<Cursor<Vec<u8>>>) -> Seq<(Seq<char>, Option<Seq<u8>>)>;

/// What `ZipArchive::new` reads from `bytes`: the entries of the archive
/// they hold, or none where it refuses them.
pub uninterp spec fn zip_archive(bytes: Seq<u8>) -> Option<Seq<(Seq<char>, Option<Seq<u8>>)>>;

/// No two entries have the same name.
pub open spec fn distinct_names(entries: Seq<(Seq<char>, Option<Seq<u8>>)>) -> bool {
    forall|i: int, j: int| 0 <= i < j < entries.len() ==> (#[trigger] entries[i]).0 != (#[trigger] entries[j]).0
}

/// Some entry is named `name`.
pub open spec fn has_entry(entries: Seq<(Seq<char>, Option<Seq<u8>>)>, name: Seq<char>) -> bool {
    exists|i: int| 0 <= i < entries.len() && #[trigger] entries[i].0 == name
}

/// What reading the entry named `name` gives: none when there is no such
/// entry or reading it fails.
pub open spec fn part_contents(entries: Seq<(Seq<char>, Option<Seq<u8>>)>, name: Seq<char>) -> Option<Seq<u8>> {
    if has_entry(entries, name) {
        entries[choose|i: int| 0 <= i < entries.len() && #[trigger] entries[i].0 == name].1
    } else {
        None
    }
}

/// `ZipArchive::new` over the bytes: reads the archive's central directory.
/// It succeeds exactly where `zip_archive` gives entries, and the archive
/// holds those entries, no name twice (its entries are a map by name).
#[verifier::external_body]
pub(crate) fn open_archive(bytes: Vec<u8>) -> (res: Result<MemArchive, ZipError>)
    ensures
        match res {
            Ok(a) => zip_archive(bytes@) == Some(archive_entries(a)) && distinct_names(archive_entries(a)),
            Err(_) => zip_archive(bytes@) is None,
        },
{
    ZipArchive::new(Cursor::new(bytes))
}

/// `ZipArchive::len`: the number of entries in the archive.
#[verifier::external_body]
pub(crate) fn archive_len(archive: &MemArchive) -> (res: usize)
    ensures
        res == archive_entries(*archive).len(),
{
    archive.len()
}

/// Why an entry's contents could not be read.
pub enum EntryReadError {
    Zip(ZipError),
    Io(std::io::Error),
}

/// `ZipArchive::name_for_index`: the name the archive records for the entry
/// at `index`, none past the last entry.
#[verifier::external_body]
pub(crate) fn entry_name_at(archive: &MemArchive, index: usize) -> (res: Option<String>)
    ensures
        match res {
            Some(n) => index < archive_entries(*archive).len() && n@ == archive_entries(*archive)[index as int].0,
            None => index >= archive_entries(*archive).len(),
        },
{
    archive.name_for_index(index).map(|n| n.to_string())
}

/// `ZipArchive::by_index` and `Read::read_to_end` on the entry it gives:
/// the decompressed contents of the entry at `index`, an error past the
/// last entry or where reading the entry fails (an encrypted entry, an
/// unsupported method, damaged data). Reading moves only the position in
/// the bytes: the entries stay.
#[verifier::external_body]
pub(crate) fn entry_contents_at(archive: &mut MemArchive, index: usize) -> (res: Result<Vec<u8>, EntryReadError>)
    ensures
        archive_entries(*final(archive)) == archive_entries(*old(archive)),
        index < archive_entries(*old(archive)).len() ==> match archive_entries(*old(archive))[index as int].1 {
            Some(c) => res matches Ok(d) && d@ == c,
            None => res is Err,
        },
        index >= archive_entries(*old(archive)).len() ==> res is Err,
{
    let mut file = archive.by_index(index).map_err(EntryReadError::Zip)?;
    let mut buf = Vec::new();
    std::io::Read::read_to_end(&mut file, &mut buf).map_err(EntryReadError::Io)?;
    Ok(buf)
}

/// `ZipArchive::by_name` and `Read::read_to_end` on the entry it gives: the
/// decompressed contents of the entry named exactly `name`, an error when
/// no entry has that name or reading it fails. The entries stay.
#[verifier::external_body]
pub(crate) fn entry_contents_named(archive: &mut MemArchive, name: &str) -> (res: Result<Vec<u8>, EntryReadError>)
    ensures
        archive_entries(*final(archive)) == archive_entries(*old(archive)),
        forall|i: int| 0 <= i < archive_entries(*old(archive)).len() && #[trigger] archive_entries(*old(archive))[i].0 == name@
            ==> match archive_entries(*old(archive))[i].1 {
                Some(c) => res matches Ok(d) && d@ == c,
                None => res is Err,
            },
        !has_entry(archive_entries(*old(archive)), name@) ==> res is Err,
{
    let mut file = archive.by_name(name).map_err(EntryReadError::Zip)?;
    let mut buf = Vec::new();
    std::io::Read::read_to_end(&mut file, &mut buf).map_err(EntryReadError::Io)?;
    Ok(buf)
}

/// The `Display` text of a zip error; its words are not stated.
#[verifier::external_body]
pub(crate) fn zip_error_text(e: &ZipError) -> (res: String) {
    format!("{}", e)
}

/// The `Display` text of an I/O error; its words are not stated.
#[verifier::external_body]
pub(crate) fn io_error_text(e: &std::io::Error) -> (res: String) {
    format!("{}", e)
}

/// `ZipFile::is_dir`: the entry's name ends with `/` or `\`.
pub open spec fn names_directory(name: Seq<char>) -> bool {
    name.len() > 0 && (name.last() == '/' || name.last() == '\\')
}

/// Decides `names_directory`.
pub fn is_dir_name(name: &str) -> (res: bool)
    ensures
        res == names_directory(name@),
{
    let c = crate::text::chars_of(name);
    c.len() > 0 && (c[c.len() - 1] == '/' || c[c.len() - 1] == '\\')
}

/// The library's error for an entry that could not be read.
pub fn entry_error(e: &EntryReadError) -> (res: VVError)
    ensures
        res is Zip || res is Io,
        e is Zip <==> res is Zip,
{
    match e {
        EntryReadError::Zip(z) => VVError::Zip(zip_error_text(z)),
        EntryReadError::Io(i) => VVError::Io(io_error_text(i)),
    }
}

/// An entry a reading of the archive keeps: a directory (by its name), or
/// a file whose contents can be read.
pub open spec fn entry_readable(e: (Seq<char>, Option<Seq<u8>>)) -> bool {
    names_directory(e.0) || e.1 is Some
}

/// What reading an entry records: its name, whether it is a directory (by
/// its name) and, for a file, its contents.
pub open spec fn entry_record(e: (Seq<char>, Option<Seq<u8>>)) -> (Seq<char>, bool, Seq<u8>) {
    (e.0, names_directory(e.0), if names_directory(e.0) { Seq::empty() } else {
        match e.1 {
            Some(c) => c,
            None => Seq::empty(),
        }
    })
}

/// Every entry a reading of the archive keeps is readable.
pub open spec fn all_readable(es: Seq<(Seq<char>, Option<Seq<u8>>)>) -> bool {
    forall|i: int| 0 <= i < es.len() ==> entry_readable(#[trigger] es[i])
}

/// What reading every entry of an archive held in `bytes` records, in the
/// archive's order; none where the bytes hold no archive or a file entry
/// cannot be read.
pub open spec fn spec_read_entries(bytes: Seq<u8>) -> Option<Seq<(Seq<char>, bool, Seq<u8>)>> {
    match zip_archive(bytes) {
        Some(es) => if all_readable(es) {
            Some(es.map_values(|e: (Seq<char>, Option<Seq<u8>>)| entry_record(e)))
        } else {
            None
        },
        None => None,
    }
}

/// Reads every entry of an archive in memory, in the archive's order: its
/// name, whether it is a directory (by its name) and, for a file, its
/// contents. Fails when the bytes hold no archive or an entry cannot be read.
pub fn read_entries(bytes: Vec<u8>) -> (res: Result<Vec<(String, bool, Vec<u8>)>, VVError>)
    ensures
        match spec_read_entries(bytes@) {
            Some(r) => res matches Ok(v) && crate::source::raw_view(v@) == r,
            None => res matches Err(e) && (e is Zip || e is Io),
        },
{
    let ghost bv = bytes@;
    let mut archive = match open_archive(bytes) {
        Ok(a) => a,
        Err(e) => return Err(VVError::Zip(zip_error_text(&e))),
    };
    let ghost entries = archive_entries(archive);
    let n = archive_len(&archive);
    let mut out: Vec<(String, bool, Vec<u8>)> = Vec::new();
    let mut i: usize = 0;
    while i < n
        invariant
            i <= n,
            n == entries.len(),
            archive_entries(archive) == entries,
            zip_archive(bv) == Some(entries),
            bv == bytes@,
            forall|j: int| 0 <= j < i ==> entry_readable(#[trigger] entries[j]),
            crate::source::raw_view(out@) == entries.take(i as int).map_values(|e: (Seq<char>, Option<Seq<u8>>)| entry_record(e)),
        decreases n - i,
    {
        let name = match entry_name_at(&archive, i) {
            Some(nm) => nm,
            None => return Err(VVError::Zip("specified file not found in archive".to_owned())),
        };
        let is_dir = is_dir_name(name.as_str());
        let contents = if is_dir {
            Vec::new()
        } else {
            match entry_contents_at(&mut archive, i) {
                Ok(c) => c,
                Err(e) => {
                    assert(!entry_readable(entries[i as int]));
                    assert(!all_readable(entries));
                    return Err(entry_error(&e));
                },
            }
        };
        let ghost before = out@;
        out.push((name, is_dir, contents));
        proof {
            assert(entries.take(i + 1) == entries.take(i as int).push(entries[i as int]));
            assert(crate::source::raw_view(out@) == crate::source::raw_view(before).push(entry_record(entries[i as int])));
        }
        i = i + 1;
    }
    assert(entries.take(n as int) == entries);
    Ok(out)
}

} // verus!
