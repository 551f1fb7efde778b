//! The output types: a text-only book with an ordered tree of chapters.

use vstd::prelude::*;

verus! {

/// A chapter within a book: a title, its own text, and its subchapters in
/// order.
#[derive(Debug, PartialEq)]
pub struct Chapter {
    pub title: String,
    pub text: String,
    pub subchapters: Vec<Chapter>,
}

/// A text-only book: a title, an optional author, the ungrouped preface
/// content, and the ordered tree of chapters.
#[derive(Debug, PartialEq)]
pub struct Book {
    pub title: String,
    pub author: Option<String>,
    pub preface_content: String,
    pub chapters: Vec<Chapter>,
}

/// The model of a chapter.
pub struct ChapterV {
    pub title: Seq<char>,
    pub text: Seq<char>,
    pub subchapters: Seq<ChapterV>,
}

/// The model of a book.
pub struct BookV {
    pub title: Seq<char>,
    pub author: Option<Seq<char>>,
    pub preface_content: Seq<char>,
    pub chapters: Seq<ChapterV>,
}

/// The model of a chapter, with subchapters modelled recursively.
pub open spec fn chapter_view(c: Chapter) -> ChapterV
    decreases c,
{
    ChapterV {
        title: c.title@,
        text: c.text@,
        subchapters: chapters_view(c.subchapters@),
    }
}

/// The models of a sequence of chapters.
pub open spec fn chapters_view(cs: Seq<Chapter>) -> Seq<ChapterV>
    decreases cs,
{
    if cs.len() == 0 {
        Seq::empty()
    } else {
        seq![chapter_view(cs[0])] + chapters_view(cs.drop_first())
    }
}

impl View for Chapter {
    type V = ChapterV;

    open spec fn view(&self) -> ChapterV {
        chapter_view(*self)
    }
}

impl DeepView for Chapter {
    type V = ChapterV;

    open spec fn deep_view(&self) -> ChapterV {
        chapter_view(*self)
    }
}

impl View for Book {
    type V = BookV;

    open spec fn view(&self) -> BookV {
        BookV {
            title: self.title@,
            author: self.author.deep_view(),
            preface_content: self.preface_content@,
            chapters: chapters_view(self.chapters@),
        }
    }
}

/// Appending one chapter to a sequence appends its model.
pub proof fn lemma_chapters_view_snoc(cs: Seq<Chapter>, x: Chapter)
    ensures
        chapters_view(cs.push(x)) == chapters_view(cs) + seq![chapter_view(x)],
    decreases cs,
{
    let p = cs.push(x);
    if cs.len() == 0 {
        assert(p[0] == x);
        assert(p.drop_first() =~= Seq::<Chapter>::empty());
        assert(chapters_view(Seq::<Chapter>::empty()) == Seq::<ChapterV>::empty());
        assert(chapters_view(p) =~= chapters_view(cs) + seq![chapter_view(x)]);
    } else {
        assert(p[0] == cs[0]);
        assert(p.drop_first() =~= cs.drop_first().push(x));
        lemma_chapters_view_snoc(cs.drop_first(), x);
        assert(chapters_view(p) =~= chapters_view(cs) + seq![chapter_view(x)]);
    }
}

} // verus!
