//! What the program that reads PDFs answers.
use vstd::prelude::*;

use crate::extract::{cap_body_text, MAX_BODY_TEXT_CHARS};
use crate::fspath::texts;
use crate::office::{as_count, count_of, detect_language, language_of};
use crate::text::{
    count_words, first_chars, is_blank, text_view, trim_text, trimmed,
    words_are_told_apart_by_white_space, words_upto,
};

verus! {

/// What the program answers. With an error, nothing else in it counts.
#[derive(Debug, PartialEq)]
pub struct PdfReply {
    pub title: Option<String>,
    pub author: Option<String>,
    pub page_count: Option<i64>,
    pub word_count: Option<i64>,
    pub language: Option<String>,
    pub body_text: Option<String>,
    pub error: Option<String>,
}

/// The text of a document: that of its pages, a line break behind each.
pub open spec fn pages_text(pages: Seq<Seq<char>>) -> Seq<char>
    decreases pages.len(),
{
    if pages.len() == 0 {
        Seq::empty()
    } else {
        (pages_text(pages.drop_last()) + pages.last()).push('\n')
    }
}

/// A property of a document: without the white space around it, and only where
/// something is left.
pub open spec fn property(value: Option<Seq<char>>) -> Option<Seq<char>> {
    match value {
        Some(v) => if trimmed(v).len() > 0 {
            Some(trimmed(v))
        } else {
            None
        },
        None => None,
    }
}

/// A property of a document.
pub fn metadata_tag(value: &Option<String>) -> (r: Option<String>)
    ensures
        text_view(r) == property(text_view(*value)),
{
    match value {
        Some(v) => {
            let text = trim_text(v.as_str());
            if text.as_str().is_empty() {
                None
            } else {
                Some(text)
            }
        },
        None => None,
    }
}

/// The text of the pages, a line break behind each.
pub fn text_of_pages(pages: &Vec<String>) -> (r: String)
    ensures
        r@ == pages_text(texts(pages@)),
{
    let ghost all = texts(pages@);
    let mut out = String::new();
    let mut k: usize = 0;
    assert(all.take(0) =~= Seq::<Seq<char>>::empty());
    while k < pages.len()
        invariant
            0 <= k <= pages.len(),
            all == texts(pages@),
            out@ == pages_text(all.take(k as int)),
        decreases pages.len() - k,
    {
        proof {
            assert(all.take(k + 1).drop_last() =~= all.take(k as int));
            assert(all.take(k + 1).last() == pages@[k as int]@);
        }
        out.append(pages[k].as_str());
        out.push('\n');
        k = k + 1;
    }
    assert(all.take(pages.len() as int) =~= all);
    out
}

/// Whether a reply says what a document's properties and pages say.
pub open spec fn is_reply(
    r: PdfReply,
    title: Option<Seq<char>>,
    author: Option<Seq<char>>,
    pages: Seq<Seq<char>>,
) -> bool {
    let text = pages_text(pages);
    &&& text_view(r.title) == property(title)
    &&& text_view(r.author) == property(author)
    &&& r.page_count is Some && r.page_count.unwrap() == as_count(pages.len())
    &&& r.word_count is Some && r.word_count.unwrap() == as_count(words_upto(text, text.len()))
    &&& text_view(r.language) == language_of(text)
    &&& text_view(r.body_text) == Some(first_chars(text, MAX_BODY_TEXT_CHARS as nat))
    &&& r.error is None
}

/// Answer with what a document's properties and pages say.
pub fn reply_for(title: &Option<String>, author: &Option<String>, pages: &Vec<String>) -> (r: PdfReply)
    ensures
        is_reply(r, text_view(*title), text_view(*author), texts(pages@)),
{
    let text = text_of_pages(pages);
    assert(texts(pages@).len() == pages.len());
    PdfReply {
        title: metadata_tag(title),
        author: metadata_tag(author),
        page_count: Some(count_of(pages.len())),
        word_count: Some(count_of(count_words(text.as_str()))),
        language: detect_language(text.as_str()),
        body_text: Some(cap_body_text(text.as_str())),
        error: None,
    }
}

/// Answer that something failed.
pub fn error_reply(message: String) -> (r: PdfReply)
    ensures
        r == (PdfReply {
            title: None,
            author: None,
            page_count: None,
            word_count: None,
            language: None,
            body_text: None,
            error: Some(message),
        }),
{
    PdfReply {
        title: None,
        author: None,
        page_count: None,
        word_count: None,
        language: None,
        body_text: None,
        error: Some(message),
    }
}

// Laws.

/// The text of a document's pages is that of the first of them followed by that of the
/// others, each with a line break behind it, and nothing else.
pub proof fn pages_follow_one_another(pages: Seq<Seq<char>>, more: Seq<Seq<char>>, page: Seq<char>)
    ensures
        pages_text(pages + more) == pages_text(pages) + pages_text(more),
        pages_text(seq![page]) == page + seq!['\n'],
        pages_text(Seq::empty()) == Seq::<char>::empty(),
    decreases more.len(),
{
    assert(seq![page].drop_last() =~= Seq::<Seq<char>>::empty());
    assert(pages_text(Seq::<Seq<char>>::empty()) == Seq::<char>::empty());
    assert(pages_text(seq![page]) =~= page + seq!['\n']);
    if more.len() == 0 {
        assert(pages + more =~= pages);
        assert(pages_text(pages) + pages_text(more) =~= pages_text(pages));
    } else {
        pages_follow_one_another(pages, more.drop_last(), page);
        assert((pages + more).drop_last() =~= pages + more.drop_last());
        assert((pages + more).last() == more.last());
        assert(pages_text(pages + more) =~= pages_text(pages) + pages_text(more));
    }
}

/// How many words the pages have, each counted by itself.
pub open spec fn words_on(pages: Seq<Seq<char>>) -> nat
    decreases pages.len(),
{
    if pages.len() == 0 {
        0
    } else {
        words_on(pages.drop_last()) + words_upto(pages.last(), pages.last().len())
    }
}

/// A reply counts the pages and, page by page, the words on them; its title and its
/// author are those of the document, without the white space around them, and nothing
/// where there is nothing else. Of the text it has the beginning, at most eight
/// thousand characters.
pub proof fn a_reply_says_what_the_document_says(
    r: PdfReply,
    title: Option<Seq<char>>,
    author: Option<Seq<char>>,
    pages: Seq<Seq<char>>,
)
    requires
        is_reply(r, title, author, pages),
    ensures
        pages.len() <= i64::MAX ==> r.page_count == Some(pages.len() as i64),
        words_on(pages) <= i64::MAX ==> r.word_count == Some(words_on(pages) as i64),
        text_view(r.title) == (if title is Some && trimmed(title->0).len() > 0 {
            Some(trimmed(title->0))
        } else {
            None
        }),
        text_view(r.author) == (if author is Some && trimmed(author->0).len() > 0 {
            Some(trimmed(author->0))
        } else {
            None
        }),
        r.body_text is Some,
        r.body_text->0@.len() <= 8000,
        r.body_text->0@.is_prefix_of(pages_text(pages)),
        r.body_text->0@.len() < 8000 ==> r.body_text->0@ == pages_text(pages),
        text_view(r.language) == language_of(pages_text(pages)),
        r.error is None,
{
    lemma_words_on(pages);
}

proof fn lemma_words_on(pages: Seq<Seq<char>>)
    ensures
        words_upto(pages_text(pages), pages_text(pages).len()) == words_on(pages),
        pages.len() > 0 ==> pages_text(pages).len() > 0 && pages_text(pages).last() == '\n',
    decreases pages.len(),
{
    if pages.len() > 0 {
        let before = pages_text(pages.drop_last());
        let page = pages.last();
        lemma_words_on(pages.drop_last());
        let gap = seq!['\n'];
        assert(is_blank(gap));
        words_are_told_apart_by_white_space(page, gap, Seq::empty());
        assert(page + gap + Seq::<char>::empty() =~= page + gap);
        assert(pages_text(pages) =~= before + (page + gap));
        if before.len() > 0 {
            let head = before.drop_last();
            assert(before =~= head + gap);
            words_are_told_apart_by_white_space(head, gap, page + gap);
            words_are_told_apart_by_white_space(head, gap, Seq::empty());
            assert(head + gap + Seq::<char>::empty() =~= before);
            assert(head + gap + (page + gap) =~= pages_text(pages));
        } else {
            assert(pages_text(pages) =~= page + gap);
            assert(words_upto(before, before.len()) == 0);
        }
    }
}

} // verus!
