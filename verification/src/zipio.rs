//! Trusted boundary to the zip crate: the archive reader type is
//! declared opaque, its entry names and entry contents are given
//! uninterpreted names, and each method the loader and resolver call
//! is wrapped with the contract the crate's source shows.
//!
//! The zip crate stores the central directory in an insertion-ordered
//! index map shared behind an `Arc`; reading an entry only moves the
//! seek position of the reader, so the logical contents of an archive
//! value never change.

use vstd::prelude::*;

verus! {

/// Declares the zip crate's archive reader so it can stand in fields
/// and signatures; its values are opaque to the verifier.
#[verifier::external_type_specification]
#[verifier::external_body]
#[verifier::reject_recursive_types(R)]
pub struct ExZipArchive<R>(zip::ZipArchive<R>);

/// Declares the in-memory cursor the archive reads from.
#[verifier::external_type_specification]
#[verifier::external_body]
#[verifier::reject_recursive_types(T)]
pub struct ExCursor<T>(std::io::Cursor<T>);

/// The entry names of the archive, in central-directory order, each as
/// its byte sequence.
pub uninterp spec fn entry_names(a: zip::ZipArchive<std::io::Cursor<Vec<u8>>>) -> Seq<Seq<u8>>;

/// The decompressed bytes of the entry at index `i` of the archive.
pub uninterp spec fn entry_data(a: zip::ZipArchive<std::io::Cursor<Vec<u8>>>, i: int) -> Seq<u8>;

/// Whether the entry at index `i` of the archive can be read in full:
/// locating, decompressing and reading it is a function of the shared
/// directory metadata and the underlying buffer alone (the reader
/// seeks absolutely), so each entry either always reads or never does.
pub uninterp spec fn entry_ok(a: zip::ZipArchive<std::io::Cursor<Vec<u8>>>, i: int) -> bool;

/// The entry names that parsing the given bytes as an archive yields,
/// or nothing when they are not a valid archive; parsing reads only
/// the bytes, so this is a function of them alone.
pub uninterp spec fn zip_names_of(data: Seq<u8>) -> Option<Seq<Seq<u8>>>;

/// The decompressed bytes of entry `i` of an archive parsed from the
/// given bytes.
pub uninterp spec fn zip_data_of(data: Seq<u8>, i: int) -> Seq<u8>;

/// Whether entry `i` of an archive parsed from the given bytes can be
/// read in full.
pub uninterp spec fn zip_ok_of(data: Seq<u8>, i: int) -> bool;

/// Relies on zip::ZipArchive::new: parses the central directory of the
/// archive bytes, succeeding exactly when they are a valid archive;
/// the archive value it builds — names, entry contents, readability —
/// is a function of the bytes alone.
#[verifier::external_body]
pub fn archive_open(data: Vec<u8>) -> (r: Option<zip::ZipArchive<std::io::Cursor<Vec<u8>>>>)
    ensures
        (r is Some) == (zip_names_of(data@) is Some),
        r matches Some(a) ==> {
            &&& Some(entry_names(a)) == zip_names_of(data@)
            &&& forall|i: int| #[trigger] entry_data(a, i) == zip_data_of(data@, i)
            &&& forall|i: int| #[trigger] entry_ok(a, i) == zip_ok_of(data@, i)
        },
{
    zip::ZipArchive::new(std::io::Cursor::new(data)).ok()
}

/// Relies on zip::ZipArchive::len: the number of entries.
#[verifier::external_body]
pub fn archive_len(a: &zip::ZipArchive<std::io::Cursor<Vec<u8>>>) -> (r: usize)
    ensures
        r == entry_names(*a).len(),
{
    a.len()
}

/// Relies on zip::ZipArchive::name_for_index: the stored name of the
/// entry at each index below the length.
#[verifier::external_body]
pub fn archive_name_at(a: &zip::ZipArchive<std::io::Cursor<Vec<u8>>>, i: usize) -> (r: Vec<u8>)
    requires
        i < entry_names(*a).len(),
    ensures
        r@ == entry_names(*a)[i as int],
{
    match a.name_for_index(i) {
        Some(n) => n.as_bytes().to_vec(),
        None => Vec::new(),
    }
}

/// Relies on zip::ZipArchive::by_index and Read::read_to_end: reading
/// an entry decompresses its bytes, succeeding exactly when the entry
/// is readable; it only moves the reader's seek position, so names,
/// contents and readability of the archive are unchanged.
#[verifier::external_body]
pub fn archive_read_at(a: &mut zip::ZipArchive<std::io::Cursor<Vec<u8>>>, i: usize) -> (r: Option<
    Vec<u8>,
>)
    requires
        i < entry_names(*old(a)).len(),
    ensures
        entry_names(*final(a)) == entry_names(*old(a)),
        forall|j: int| #[trigger] entry_data(*final(a), j) == entry_data(*old(a), j),
        forall|j: int| #[trigger] entry_ok(*final(a), j) == entry_ok(*old(a), j),
        (r is Some) == entry_ok(*old(a), i as int),
        r matches Some(v) ==> v@ == entry_data(*old(a), i as int),
{
    let mut f = a.by_index(i).ok()?;
    let mut buf = Vec::new();
    std::io::Read::read_to_end(&mut f, &mut buf).ok()?;
    Some(buf)
}

} // verus!
