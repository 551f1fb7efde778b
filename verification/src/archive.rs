//! The archive accessor: a thin trusted facade over the `zip` crate.
//! Given an entry path it hands back decoded text, or a ZIP failure kind.

use vstd::prelude::*;
use crate::errors::ZipErrorKind;

verus! {

#[verifier::external_type_specification]
#[verifier::external_body]
#[verifier::reject_recursive_types(R)]
pub struct ExZipArchive<R>(zip::ZipArchive<R>);

#[verifier::external_type_specification]
#[verifier::external_body]
#[verifier::reject_recursive_types(T)]
pub struct ExCursor<T>(std::io::Cursor<T>);

#[verifier::external_type_specification]
#[verifier::external_body]
pub struct ExZipError(zip::result::ZipError);

/// The text entries of the archive whose bytes these are: each entry path
/// mapped to its content decoded as UTF-8 text, leaving out entries that
/// are encrypted, whose data cannot be read (unsupported compression,
/// corrupt data), or whose bytes do not decode as UTF-8; or `None` where
/// the bytes are not a readable archive. The result depends on the bytes
/// alone.
pub uninterp spec fn zip_parse(bytes: Seq<u8>) -> Option<Map<Seq<char>, Seq<char>>>;

/// The text entries that this open archive holds.
pub uninterp spec fn zip_entries(z: zip::ZipArchive<std::io::Cursor<Vec<u8>>>) -> Map<
    Seq<char>,
    Seq<char>,
>;

/// Relies on the variants of `zip::result::ZipError`: maps each failure
/// kind to the library's own, one arm each.
#[verifier::external_body]
fn zip_error_kind(e: zip::result::ZipError) -> ZipErrorKind {
    match e {
        zip::result::ZipError::Io(_) => ZipErrorKind::Io,
        zip::result::ZipError::InvalidArchive(_) => ZipErrorKind::InvalidArchive,
        zip::result::ZipError::UnsupportedArchive(_) => ZipErrorKind::UnsupportedArchive,
        zip::result::ZipError::FileNotFound => ZipErrorKind::FileNotFound,
    }
}

/// Relies on `zip::ZipArchive::new`: reads the central directory of the
/// archive, failing where the bytes are not a valid ZIP archive.
#[verifier::external_body]
pub fn zip_open(bytes: &[u8]) -> (r: Result<
    zip::ZipArchive<std::io::Cursor<Vec<u8>>>,
    ZipErrorKind,
>)
    ensures
        match r {
            Ok(z) => zip_parse(bytes@) == Some(zip_entries(z)),
            Err(_) => zip_parse(bytes@) is None,
        },
{
    match zip::ZipArchive::new(std::io::Cursor::new(bytes.to_vec())) {
        Ok(z) => Ok(z),
        Err(e) => Err(zip_error_kind(e)),
    }
}

/// Relies on `zip::ZipArchive::by_name_decrypt` (with an empty password,
/// which plain entries ignore) and `std::io::Read::read_to_string`:
/// returns the named entry decoded as UTF-8 text. It succeeds exactly on
/// the entries the archive's text-entry map holds — entries that are
/// encrypted, marked for decryption, unreadable or undecodable fall
/// outside it and yield an error rather than a panic — and reading does
/// not change what the archive holds.
#[verifier::external_body]
pub fn zip_read(z: &mut zip::ZipArchive<std::io::Cursor<Vec<u8>>>, path: &str) -> (r: Result<
    String,
    ZipErrorKind,
>)
    ensures
        zip_entries(*final(z)) == zip_entries(*old(z)),
        match r {
            Ok(s) => zip_entries(*old(z)).contains_key(path@) && s@ == zip_entries(*old(z)).index(
                path@,
            ),
            Err(_) => !zip_entries(*old(z)).contains_key(path@),
        },
{
    let mut file = match z.by_name_decrypt(path, b"") {
        Ok(Ok(f)) => f,
        Ok(Err(_)) => return Err(ZipErrorKind::UnsupportedArchive),
        Err(e) => return Err(zip_error_kind(e)),
    };
    let mut buffer = String::new();
    match std::io::Read::read_to_string(&mut file, &mut buffer) {
        Ok(_) => Ok(buffer),
        Err(e) => match e.kind() {
            std::io::ErrorKind::InvalidData => Err(ZipErrorKind::InvalidText),
            _ => Err(ZipErrorKind::Io),
        },
    }
}

} // verus!
