//! Access to packed archive templates through the `zip` crate.
//!
//! An archive is handed to the library as an in-memory byte buffer and
//! opened over a cursor. Parsing is a deterministic function of those
//! bytes; the entries an open archive exposes by index are modelled by
//! `archive_entries`, and what parsing a buffer yields by
//! `spec_parse_archive`.

use vstd::prelude::*;

use std::io::Cursor;
use zip::ZipArchive;
use zip::result::ZipError;

verus! {

#[verifier::external_type_specification]
#[verifier::external_body]
#[verifier::reject_recursive_types(R)]
pub struct ExZipArchive<R>(ZipArchive<R>);

#[verifier::external_type_specification]
#[verifier::external_body]
#[verifier::reject_recursive_types(T)]
pub struct ExCursor<T>(Cursor<T>);

#[verifier::external_type_specification]
#[verifier::external_body]
pub struct ExZipError(ZipError);

/// The entries of an open archive, in storage order: for each entry the
/// bytes of its stored (decoded) name and its full decompressed content
/// (a well-formed directory-marker entry stores none, though a malformed
/// archive may attach data to a slash-terminated name).
pub uninterp spec fn archive_entries(a: ZipArchive<Cursor<Vec<u8>>>) -> Seq<(Seq<u8>, Seq<u8>)>;

/// What parsing a byte buffer as an archive yields: its entry list, or
/// nothing when the buffer is not a well-formed archive.
pub uninterp spec fn spec_parse_archive(bytes: Seq<u8>) -> Option<Seq<(Seq<u8>, Seq<u8>)>>;

/// The byte buffer an open archive was parsed from.
pub uninterp spec fn archive_bytes(a: ZipArchive<Cursor<Vec<u8>>>) -> Seq<u8>;

/// Whether reading entry `i`'s stored name succeeds. Over an in-memory
/// cursor this is a deterministic property of the buffer's bytes: it fails
/// exactly when the entry's local header cannot be read or its form is
/// unsupported.
pub uninterp spec fn spec_entry_name_ok(bytes: Seq<u8>, i: int) -> bool;

/// Whether reading entry `i`'s full content succeeds. Over an in-memory
/// cursor this is a deterministic property of the buffer's bytes: it fails
/// exactly when the entry cannot be opened, decompressed, or checked.
pub uninterp spec fn spec_entry_data_ok(bytes: Seq<u8>, i: int) -> bool;

/// Relies on zip's `ZipArchive::new` over an in-memory cursor: parsing is a
/// deterministic function of the buffer's bytes; on success the archive
/// exposes exactly the parsed entries.
#[verifier::external_body]
pub(crate) fn open_archive(bytes: &Vec<u8>) -> (r: Result<
    ZipArchive<Cursor<Vec<u8>>>,
    ZipError,
>)
    ensures
        r is Ok <==> spec_parse_archive(bytes@) is Some,
        r is Ok ==> archive_entries(r->Ok_0) == spec_parse_archive(bytes@)->Some_0,
        r is Ok ==> archive_bytes(r->Ok_0) == bytes@,
{
    ZipArchive::new(Cursor::new(bytes.clone()))
}

/// Relies on zip's `ZipArchive::len`: the number of entries.
#[verifier::external_body]
pub(crate) fn archive_len(a: &ZipArchive<Cursor<Vec<u8>>>) -> (r: usize)
    ensures
        r == archive_entries(*a).len(),
{
    a.len()
}

/// Relies on zip's `by_index` and `ZipFile::name`: the stored, decoded name
/// of entry `i`. Reading moves only the cursor, leaving the entry list and
/// the underlying buffer as they were, and over an in-memory cursor its
/// success is a function of that buffer alone.
#[verifier::external_body]
pub(crate) fn entry_name(a: &mut ZipArchive<Cursor<Vec<u8>>>, i: usize) -> (r: Result<
    Vec<u8>,
    ZipError,
>)
    requires
        i < archive_entries(*old(a)).len(),
    ensures
        archive_entries(*final(a)) == archive_entries(*old(a)),
        archive_bytes(*final(a)) == archive_bytes(*old(a)),
        r is Ok <==> spec_entry_name_ok(archive_bytes(*old(a)), i as int),
        r is Ok ==> r->Ok_0@ == archive_entries(*old(a))[i as int].0,
{
    match a.by_index(i) {
        Ok(f) => Ok(f.name().as_bytes().to_vec()),
        Err(e) => Err(e),
    }
}

/// Relies on zip's `by_index` and its `Read` implementation: the full
/// decompressed content of entry `i`. Reading moves only the cursor,
/// leaving the entry list and the underlying buffer as they were, and over
/// an in-memory cursor its success is a function of that buffer alone.
#[verifier::external_body]
pub(crate) fn entry_data(a: &mut ZipArchive<Cursor<Vec<u8>>>, i: usize) -> (r: Result<
    Vec<u8>,
    ZipError,
>)
    requires
        i < archive_entries(*old(a)).len(),
    ensures
        archive_entries(*final(a)) == archive_entries(*old(a)),
        archive_bytes(*final(a)) == archive_bytes(*old(a)),
        r is Ok <==> spec_entry_data_ok(archive_bytes(*old(a)), i as int),
        r is Ok ==> r->Ok_0@ == archive_entries(*old(a))[i as int].1,
{
    match a.by_index(i) {
        Ok(mut f) => {
            let mut buf: Vec<u8> = Vec::new();
            match std::io::Read::read_to_end(&mut f, &mut buf) {
                Ok(_) => Ok(buf),
                Err(e) => Err(ZipError::Io(e)),
            }
        },
        Err(e) => Err(e),
    }
}

} // verus!
