//! The adapters that prepare a page before it is printed, and the detectors
//! that choose among them.

use crate::bytes::name;
use crate::toc::{contains_bytes, has_part};
use vstd::prelude::*;
use vstd::string::*;
use vstd::utf8::encode_utf8;

verus! {

/// The adapter for pages of no known kind.
#[derive(Debug, Default, Clone, Copy)]
pub struct DefaultAdapter;

/// The adapter for books made with mdBook.
#[derive(Debug, Default, Clone, Copy)]
pub struct MdBookAdapter;

/// The detector of books made with mdBook.
#[derive(Debug, Default, Clone, Copy)]
pub struct MdBookDetector;

/// What is looked for in the elements of a page to tell how it was made.
#[derive(Debug)]
pub struct PageSignals {
    /// What the page names as its generator: the `content` of the first
    /// `meta` element with the name `generator`.
    pub generator: Option<String>,
    /// Whether the page has a `ul` of the class `chapter`.
    pub has_chapter_list: bool,
    /// Whether the page has a `li` of the class `chapter-item`.
    pub has_chapter_item: bool,
    /// Whether the page has an element with the id `content`.
    pub has_content: bool,
}

/// A text in lower case.
pub uninterp spec fn lowercase(text: Seq<char>) -> Seq<char>;

/// `str::to_lowercase`: a text in lower case. It is taken on trust that
/// this depends on the text alone.
#[verifier::external_body]
fn to_lower(text: &str) -> (r: String)
    ensures
        r@ == lowercase(text@),
{
    text.to_lowercase()
}

/// Whether a word stands in a text.
pub open spec fn mentions(text: Seq<char>, word: &str) -> bool {
    has_part(encode_utf8(text), name(word))
}

/// How much speaks for a book made with mdBook: the list of chapters and
/// its items count 2 each, the content element 1, the script `book.js` 3,
/// the search index `elasticlunr` 2, and the word `mdBook` 1.
pub open spec fn mdbook_score(html: Seq<char>, signals: PageSignals) -> int {
    (if signals.has_chapter_list { 2int } else { 0 }) + (if signals.has_chapter_item { 2int } else { 0 })
        + (if signals.has_content { 1int } else { 0 }) + (if mentions(html, "book.js") { 3int } else { 0 })
        + (if mentions(html, "elasticlunr") { 2int } else { 0 }) + (if mentions(html, "mdBook") {
        1int
    } else {
        0
    })
}

/// Whether a page is taken for a book made with mdBook: where it names a
/// generator, that name decides; else a score of 5 or more does.
pub open spec fn is_mdbook(html: Seq<char>, signals: PageSignals) -> bool {
    match signals.generator {
        Some(g) => mentions(lowercase(g@), "mdbook"),
        None => mdbook_score(html, signals) >= 5,
    }
}

impl MdBookDetector {
    /// Whether the page with the given text and elements is a book made
    /// with mdBook.
    pub fn detect_fast(&self, html: &str, signals: &PageSignals) -> (r: bool)
        ensures
            r == is_mdbook(html@, *signals),
    {
        if let Some(g) = &signals.generator {
            let lower = to_lower(g.as_str());
            return contains_bytes(lower.as_str().as_bytes(), "mdbook".as_bytes());
        }
        let mut score: u8 = 0;
        if signals.has_chapter_list {
            score += 2;
        }
        if signals.has_chapter_item {
            score += 2;
        }
        if signals.has_content {
            score += 1;
        }
        if contains_bytes(html.as_bytes(), "book.js".as_bytes()) {
            score += 3;
        }
        if contains_bytes(html.as_bytes(), "elasticlunr".as_bytes()) {
            score += 2;
        }
        if contains_bytes(html.as_bytes(), "mdBook".as_bytes()) {
            score += 1;
        }
        score >= 5
    }
}

/// What the registry does next while it looks for the adapter of a page.
#[derive(Clone, Copy, Debug, PartialEq, Eq, Structural)]
pub enum Probe {
    /// The adapter at this place is used.
    Use(usize),
    /// The slow detector at this place is asked.
    Ask(usize),
    /// The adapter for pages of no known kind is used.
    Fallback,
}

/// What the registry does once the fast detectors have answered: it uses
/// the adapter of the first that said yes; where none did, it asks the slow
/// detectors from the first on; without any detector it falls back.
pub fn first_probe(fast: &Vec<bool>) -> (r: Probe)
    ensures
        match r {
            Probe::Use(i) => i < fast@.len() && fast@[i as int] && forall|j: int| 0 <= j < i ==> !fast@[j],
            Probe::Ask(i) => i == 0 && fast@.len() > 0 && forall|j: int| 0 <= j < fast@.len() ==> !fast@[j],
            Probe::Fallback => fast@.len() == 0,
        },
{
    match first_detected(fast) {
        Some(i) => Probe::Use(i),
        None => if fast.len() > 0 {
            Probe::Ask(0)
        } else {
            Probe::Fallback
        },
    }
}

/// What the registry does once the slow detector at the place `asked` of
/// `count` has answered: on a yes it uses the adapter at that place, else it
/// asks the next detector, and after the last it falls back.
pub fn next_probe(count: usize, asked: usize, yes: bool) -> (r: Probe)
    ensures
        r == (if yes {
            Probe::Use(asked)
        } else if asked + 1 < count {
            Probe::Ask((asked + 1) as usize)
        } else {
            Probe::Fallback
        }),
{
    if yes {
        Probe::Use(asked)
    } else if asked < count && count - asked > 1 {
        Probe::Ask(asked + 1)
    } else {
        Probe::Fallback
    }
}

/// Which of the registered adapters is used: that of the first detector
/// that said yes; none where no detector did, so that the adapter for pages
/// of no known kind is used.
pub fn first_detected(answers: &Vec<bool>) -> (r: Option<usize>)
    ensures
        match r {
            Some(i) => i < answers@.len() && answers@[i as int] && forall|j: int|
                0 <= j < i ==> !answers@[j],
            None => forall|j: int| 0 <= j < answers@.len() ==> !answers@[j],
        },
{
    let mut i: usize = 0;
    while i < answers.len()
        invariant
            i <= answers@.len(),
            forall|j: int| 0 <= j < i ==> !answers@[j],
        decreases answers@.len() - i,
    {
        if answers[i] {
            return Some(i);
        }
        i += 1;
    }
    None
}

} // verus!
