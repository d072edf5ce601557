//! The table of contents of a book, read from the list of chapters in its
//! sidebar.

use crate::toc::{node_values, TocNode, TocNodeValue};
use vstd::prelude::*;

verus! {

/// A link in the list of chapters.
#[derive(Debug)]
pub struct NavLink {
    /// The text of the link.
    pub text: String,
    /// Where it leads, as it is written.
    pub href: Option<String>,
}

/// An item of the list of chapters: a link, or a list of items below it.
#[derive(Debug)]
pub struct NavItem {
    /// The link of the item.
    pub link: Option<NavLink>,
    /// The list below the item.
    pub sublist: Option<Vec<NavItem>>,
}

/// Why a table of contents could not be read.
#[derive(Clone, Copy, Debug, PartialEq, Eq, Structural)]
pub enum TocError {
    /// The address of the book is no URL.
    InvalidUrl,
    /// The page has no list of chapters.
    NotFound,
    /// A link leads nowhere.
    LinkWithoutHref,
    /// A link leads to what is no URL.
    InvalidHref,
    /// The lists are nested deeper than a table of contents has levels.
    TooDeep,
}

/// What joining a reference to a base address gives, where the base is a
/// URL and the reference can be read against it.
pub uninterp spec fn joined_url(base: Seq<char>, href: Seq<char>) -> Option<Seq<char>>;

/// Whether a text is an absolute URL.
pub uninterp spec fn valid_url(text: Seq<char>) -> bool;

/// A text without the white space at its start and its end.
pub uninterp spec fn trimmed(text: Seq<char>) -> Seq<char>;

/// `url::Url::parse`: whether a text is read as an absolute URL. It is
/// taken on trust that this depends on the text alone.
#[verifier::external_body]
fn is_url(text: &str) -> (r: bool)
    ensures
        r == valid_url(text@),
{
    url::Url::parse(text).is_ok()
}

/// `url::Url::join` on the URL that `url::Url::parse` reads from `base`: the
/// text of the URL that `href` gives against that base, or nothing where
/// the base is no URL or `href` cannot be read against it. It is taken on
/// trust that this depends on the two texts alone.
#[verifier::external_body]
fn join_url(base: &str, href: &str) -> (r: Option<String>)
    ensures
        match r {
            Some(u) => joined_url(base@, href@) == Some(u@),
            None => joined_url(base@, href@) is None,
        },
{
    url::Url::parse(base).ok().and_then(|b| b.join(href).ok()).map(|u| u.to_string())
}

/// `str::trim`: a text without the white space at its start and its end. It
/// is taken on trust that this depends on the text alone.
#[verifier::external_body]
fn trim_text(text: &str) -> (r: String)
    ensures
        r@ == trimmed(text@),
{
    text.trim().to_string()
}

/// The entries of one item at the given level. An item with a list below
/// it gives the entries of that list, one level down, and its own link is
/// passed over; an item with a link alone gives one entry; any other item
/// gives none.
pub open spec fn item_entries(item: NavItem, base: Seq<char>, level: u8) -> Result<Seq<TocNodeValue>, TocError>
    decreases item, 0nat,
{
    match item.sublist {
        Some(items) => if level == u8::MAX {
            Err(TocError::TooDeep)
        } else {
            list_entries(items@, base, (level + 1) as u8)
        },
        None => match item.link {
            Some(link) => match link.href {
                None => Err(TocError::LinkWithoutHref),
                Some(href) => match joined_url(base, href@) {
                    None => Err(TocError::InvalidHref),
                    Some(url) => Ok(
                        seq![TocNodeValue { title: Some(trimmed(link.text@)), href: url, level }],
                    ),
                },
            },
            None => Ok(Seq::empty()),
        },
    }
}

/// The entries of a list of items at the given level, in order, up to the
/// first item that cannot be read.
pub open spec fn list_entries(items: Seq<NavItem>, base: Seq<char>, level: u8) -> Result<Seq<TocNodeValue>, TocError>
    decreases items, 1nat,
{
    if items.len() == 0 {
        Ok(Seq::empty())
    } else {
        match list_entries(items.drop_last(), base, level) {
            Err(e) => Err(e),
            Ok(before) => match item_entries(items.last(), base, level) {
                Err(e) => Err(e),
                Ok(entries) => Ok(before + entries),
            },
        }
    }
}

/// Adds the entries of one item to the table of contents.
pub fn parse_li(nodes: &mut Vec<TocNode>, li: &NavItem, base_url: &str, level: u8) -> (r: Result<(), TocError>)
    ensures
        match r {
            Ok(_) => item_entries(*li, base_url@, level) matches Ok(entries) && node_values(final(nodes)@)
                == node_values(old(nodes)@) + entries,
            Err(e) => item_entries(*li, base_url@, level) == Err::<Seq<TocNodeValue>, TocError>(e),
        },
        r is Err ==> final(nodes)@.len() >= old(nodes)@.len(),
    decreases li, 0nat,
{
    if let Some(items) = &li.sublist {
        if level == u8::MAX {
            return Err(TocError::TooDeep);
        }
        return parse_ol(nodes, items, base_url, level + 1);
    }
    if let Some(link) = &li.link {
        let title = trim_text(link.text.as_str());
        let href_raw = match &link.href {
            Some(h) => h,
            None => {
                return Err(TocError::LinkWithoutHref);
            },
        };
        let href = match join_url(base_url, href_raw.as_str()) {
            Some(u) => u,
            None => {
                return Err(TocError::InvalidHref);
            },
        };
        let ghost before = node_values(nodes@);
        nodes.push(TocNode { title: Some(title), href, level });
        proof {
            assert(node_values(nodes@) =~= before + seq![
                TocNodeValue { title: Some(trimmed(link.text@)), href: href@, level },
            ]);
        }
    } else {
        proof {
            assert(node_values(nodes@) + Seq::<TocNodeValue>::empty() =~= node_values(nodes@));
        }
    }
    Ok(())
}

/// Adds the entries of a list of items to the table of contents.
pub fn parse_ol(nodes: &mut Vec<TocNode>, ol: &Vec<NavItem>, base_url: &str, level: u8) -> (r: Result<
    (),
    TocError,
>)
    ensures
        match r {
            Ok(_) => list_entries(ol@, base_url@, level) matches Ok(entries) && node_values(final(nodes)@)
                == node_values(old(nodes)@) + entries,
            Err(e) => list_entries(ol@, base_url@, level) == Err::<Seq<TocNodeValue>, TocError>(e),
        },
        r is Err ==> final(nodes)@.len() >= old(nodes)@.len(),
    decreases ol, 1nat,
{
    let ghost start = node_values(nodes@);
    let mut i: usize = 0;
    proof {
        assert(start + Seq::<TocNodeValue>::empty() =~= start);
    }
    while i < ol.len()
        invariant
            i <= ol@.len(),
            start == node_values(old(nodes)@),
            nodes@.len() >= old(nodes)@.len(),
            list_entries(ol@.take(i as int), base_url@, level) matches Ok(entries) && node_values(nodes@)
                == start + entries,
        decreases ol@.len() - i,
    {
        let ghost so_far = list_entries(ol@.take(i as int), base_url@, level)->Ok_0;
        proof {
            assert(ol@.take(i + 1).drop_last() =~= ol@.take(i as int));
            assert(ol@.take(i + 1).last() == ol@[i as int]);
        }
        match parse_li(nodes, &ol[i], base_url, level) {
            Ok(_) => {
                proof {
                    let entries = item_entries(ol@[i as int], base_url@, level)->Ok_0;
                    assert((start + so_far) + entries =~= start + (so_far + entries));
                }
            },
            Err(e) => {
                proof {
                    lemma_error_stays(ol@, base_url@, level, i + 1);
                }
                return Err(e);
            },
        }
        i += 1;
    }
    proof {
        assert(ol@.take(ol@.len() as int) =~= ol@);
    }
    Ok(())
}

/// An item that cannot be read makes the whole list unreadable, with the
/// error of the first such item.
proof fn lemma_error_stays(items: Seq<NavItem>, base: Seq<char>, level: u8, n: int)
    requires
        0 <= n <= items.len(),
        list_entries(items.take(n), base, level) is Err,
    ensures
        list_entries(items, base, level) == list_entries(items.take(n), base, level),
    decreases items.len() - n,
{
    if n < items.len() {
        assert(items.take(n + 1).drop_last() =~= items.take(n));
        lemma_error_stays(items, base, level, n + 1);
    } else {
        assert(items.take(n) =~= items);
    }
}

/// The table of contents of a book for the list of chapters in its sidebar,
/// where the page has one.
pub open spec fn mdbook_toc(list: Option<Vec<NavItem>>, base: Seq<char>) -> Result<Seq<TocNodeValue>, TocError> {
    if !valid_url(base) {
        Err(TocError::InvalidUrl)
    } else {
        match list {
            None => Err(TocError::NotFound),
            Some(items) => list_entries(items@, base, 0),
        }
    }
}

/// Reads the table of contents of a book from the list of chapters in its
/// sidebar, where the page has one; the links are read against the address
/// of the book.
pub fn parse_mdbook_toc(list: &Option<Vec<NavItem>>, base_url: &str) -> (r: Result<Vec<TocNode>, TocError>)
    ensures
        match r {
            Ok(nodes) => mdbook_toc(*list, base_url@) == Ok::<Seq<TocNodeValue>, TocError>(
                node_values(nodes@),
            ),
            Err(e) => mdbook_toc(*list, base_url@) == Err::<Seq<TocNodeValue>, TocError>(e),
        },
{
    if !is_url(base_url) {
        return Err(TocError::InvalidUrl);
    }
    let items = match list {
        Some(items) => items,
        None => {
            return Err(TocError::NotFound);
        },
    };
    let mut nodes: Vec<TocNode> = Vec::new();
    proof {
        assert(node_values(nodes@) =~= Seq::<TocNodeValue>::empty());
    }
    match parse_ol(&mut nodes, items, base_url, 0) {
        Ok(_) => {
            proof {
                let entries = list_entries(items@, base_url@, 0)->Ok_0;
                assert(Seq::<TocNodeValue>::empty() + entries =~= entries);
            }
            Ok(nodes)
        },
        Err(e) => Err(e),
    }
}

} // verus!
