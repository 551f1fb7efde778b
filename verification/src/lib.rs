//! A library that converts an EPUB container (a ZIP archive holding XML
//! metadata, an XML navigation tree, and XHTML content documents) into a
//! simplified, text-only hierarchical book: a title, an optional author,
//! an ungrouped preface, and an ordered tree of chapters, each carrying
//! its own text plus nested subchapters.

use vstd::prelude::*;

pub mod archive;
pub mod errors;
pub mod ncx;
pub mod package;
pub mod reconcile;
pub mod strutil;
pub mod types;
pub mod util;
pub mod xml;

use crate::errors::{ParseError, ParseErrV};
use crate::reconcile::{
    EpubArchive, spec_archive, spec_reconcile, shape_matches, lemma_reconcile_shape,
};
use crate::types::{Book, BookV};

verus! {

/// What the conversion yields on an archive's bytes: the book assembled
/// from the parsed package, the navigation tree and the reconciled
/// content, or the most specific failure.
pub open spec fn book_of_bytes(bytes: Seq<u8>) -> Result<BookV, ParseErrV> {
    match spec_archive(bytes) {
        Err(e) => Err(e),
        Ok(a) => match spec_reconcile(a.opf, a.nav, a.pool) {
            Err(e) => Err(ParseErrV::Epub(e)),
            Ok(pc) => Ok(
                BookV {
                    title: a.opf.title,
                    author: a.opf.author,
                    preface_content: pc.0,
                    chapters: pc.1,
                },
            ),
        },
    }
}

/// For every well-formed EPUB, the book's chapter tree has exactly the
/// shape of the navigation forest: as many top-level chapters as
/// top-level navigation points, and recursively so at every nesting
/// level. No chapter is synthesized or dropped.
pub proof fn lemma_book_shape(bytes: Seq<u8>)
    requires
        book_of_bytes(bytes) is Ok,
    ensures
        spec_archive(bytes) is Ok,
        shape_matches(
            book_of_bytes(bytes)->Ok_0.chapters,
            spec_archive(bytes)->Ok_0.nav.nav_points,
        ),
{
    let a = spec_archive(bytes)->Ok_0;
    lemma_reconcile_shape(a.opf, a.nav, a.pool);
}

/// Parsing the same input buffer twice yields structurally equal books:
/// what `epub_to_book` returns is a function of the bytes alone, so two
/// successful conversions of the same buffer agree.
pub proof fn lemma_parse_deterministic(bytes: Seq<u8>, b1: BookV, b2: BookV)
    requires
        book_of_bytes(bytes) == Ok::<BookV, ParseErrV>(b1),
        book_of_bytes(bytes) == Ok::<BookV, ParseErrV>(b2),
    ensures
        b1 == b2,
{
}

/// Parses an EPUB file to a text-only book structure.
///
/// This may fail for various reasons, captured by the returned Result's
/// error type; the result is determined by the bytes alone.
pub fn epub_to_book(bytes: &[u8]) -> (r: Result<Book, ParseError>)
    ensures
        match r {
            Ok(b) => book_of_bytes(bytes@) == Ok::<BookV, ParseErrV>(b@),
            Err(e) => book_of_bytes(bytes@) == Err::<BookV, ParseErrV>(e@),
        },
{
    let a = match EpubArchive::new(bytes) {
        Ok(a) => a,
        Err(e) => {
            return Err(e);
        },
    };
    match a.to_book() {
        Ok(b) => {
            proof {
                assert(book_of_bytes(bytes@) =~~= Ok::<BookV, ParseErrV>(b@));
            }
            Ok(b)
        },
        Err(e) => {
            return Err(e);
        },
    }
}

} // verus!
