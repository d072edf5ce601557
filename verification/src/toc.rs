//! The table of contents: its entries, and the order of the pages of a
//! sitemap.

use crate::bytes::name;
use crate::sitemap::texts;
use vstd::prelude::*;
use vstd::string::*;
use vstd::utf8::encode_utf8;

verus! {

/// An entry of the table of contents.
#[derive(Debug)]
pub struct TocNode {
    /// The title, where one is known.
    pub title: Option<String>,
    /// The address of the page.
    pub href: String,
    /// The level; 0 is the top.
    pub level: u8,
}

/// An entry of the table of contents as a mathematical value.
pub struct TocNodeValue {
    pub title: Option<Seq<char>>,
    pub href: Seq<char>,
    pub level: u8,
}

impl View for TocNode {
    type V = TocNodeValue;

    open spec fn view(&self) -> TocNodeValue {
        TocNodeValue {
            title: match self.title {
                Some(t) => Some(t@),
                None => None,
            },
            href: self.href@,
            level: self.level,
        }
    }
}

/// Whether a byte is a decimal digit.
pub open spec fn is_digit(b: u8) -> bool {
    48 <= b <= 57
}

/// Where the last path segment starts: after the last `/`, or at the start.
pub open spec fn segment_start(s: Seq<u8>) -> int
    decreases s.len(),
{
    if s.len() == 0 {
        0
    } else if s.last() == 47 {
        s.len() as int
    } else {
        segment_start(s.drop_last())
    }
}

/// Where the digits at the end start.
pub open spec fn digits_start(s: Seq<u8>) -> int
    decreases s.len(),
{
    if s.len() == 0 {
        0
    } else if !is_digit(s.last()) {
        s.len() as int
    } else {
        digits_start(s.drop_last())
    }
}

/// The number that decimal digits write.
pub open spec fn decimal(s: Seq<u8>) -> nat
    decreases s.len(),
{
    if s.len() == 0 {
        0
    } else {
        decimal(s.drop_last()) * 10 + (s.last() - 48) as nat
    }
}

/// The last path segment.
pub open spec fn last_segment(s: Seq<u8>) -> Seq<u8> {
    s.skip(segment_start(s))
}

/// The digits at the end.
pub open spec fn trailing_digits(s: Seq<u8>) -> Seq<u8> {
    s.skip(digits_start(s))
}

/// The chapter number of an address: the number that the digits at the end
/// of its last path segment write; 0 where there are none or the number is
/// too large.
pub open spec fn chapter_number(s: Seq<u8>) -> u32 {
    let n = decimal(trailing_digits(last_segment(s)));
    if n <= u32::MAX {
        n as u32
    } else {
        0
    }
}

proof fn lemma_segment_start_is(s: Seq<u8>, k: int)
    requires
        0 <= k <= s.len(),
        k > 0 ==> s[k - 1] == 47,
        forall|j: int| k <= j < s.len() ==> s[j] != 47,
    ensures
        segment_start(s) == k,
    decreases s.len(),
{
    if s.len() == 0 {
    } else if s.last() == 47 {
        if k < s.len() {
            assert(s[s.len() - 1] != 47);
        }
    } else {
        if k == s.len() {
            assert(s[k - 1] == 47);
        }
        let t = s.drop_last();
        assert(k > 0 ==> t[k - 1] == s[k - 1]);
        assert forall|j: int| k <= j < t.len() implies t[j] != 47 by {
            assert(t[j] == s[j]);
        }
        lemma_segment_start_is(t, k);
    }
}

proof fn lemma_digits_start_is(s: Seq<u8>, k: int)
    requires
        0 <= k <= s.len(),
        k > 0 ==> !is_digit(s[k - 1]),
        forall|j: int| k <= j < s.len() ==> is_digit(s[j]),
    ensures
        digits_start(s) == k,
    decreases s.len(),
{
    if s.len() == 0 {
    } else if !is_digit(s.last()) {
        if k < s.len() {
            assert(is_digit(s[s.len() - 1]));
        }
    } else {
        if k == s.len() {
            assert(!is_digit(s[k - 1]));
        }
        let t = s.drop_last();
        assert(k > 0 ==> t[k - 1] == s[k - 1]);
        assert forall|j: int| k <= j < t.len() implies is_digit(t[j]) by {
            assert(t[j] == s[j]);
        }
        lemma_digits_start_is(t, k);
    }
}

/// A number grows with every digit that is written after it.
proof fn lemma_decimal_grows(s: Seq<u8>, k: int)
    requires
        0 <= k <= s.len(),
        forall|j: int| 0 <= j < s.len() ==> is_digit(s[j]),
    ensures
        decimal(s.take(k)) <= decimal(s),
    decreases s.len() - k,
{
    if k < s.len() {
        lemma_decimal_grows(s, k + 1);
        assert(s.take(k + 1).drop_last() =~= s.take(k));
    } else {
        assert(s.take(k) =~= s);
    }
}

/// The chapter number of an address.
pub fn extract_chapter_number(url: &str) -> (r: u32)
    ensures
        r == chapter_number(url.spec_bytes()),
{
    let bytes = url.as_bytes();
    let n = bytes.len();
    let ghost s = bytes@;
    // The last path segment.
    let mut start: usize = n;
    while start > 0 && bytes[start - 1] != 47
        invariant
            start <= n,
            n == s.len(),
            s == bytes@,
            forall|j: int| start <= j < n ==> s[j] != 47,
        decreases start,
    {
        start -= 1;
    }
    proof {
        lemma_segment_start_is(s, start as int);
    }
    let ghost seg = last_segment(s);
    // The digits at its end.
    let mut first: usize = n;
    while first > start && bytes[first - 1] >= 48 && bytes[first - 1] <= 57
        invariant
            start <= first <= n,
            n == s.len(),
            s == bytes@,
            forall|j: int| first <= j < n ==> is_digit(s[j]),
        decreases first,
    {
        first -= 1;
    }
    let ghost digits = s.skip(first as int);
    proof {
        assert(seg.len() == n - start);
        assert forall|j: int| first - start <= j < seg.len() implies is_digit(seg[j]) by {
            assert(seg[j] == s[j + start]);
        }
        if first > start {
            assert(seg[first - start - 1] == s[first - 1]);
        }
        lemma_digits_start_is(seg, first - start);
        assert(trailing_digits(seg) =~= digits);
        assert forall|j: int| 0 <= j < digits.len() implies is_digit(digits[j]) by {
            assert(digits[j] == s[j + first]);
        }
    }
    let mut value: u64 = 0;
    let mut i: usize = first;
    while i < n
        invariant
            first <= i <= n,
            n == s.len(),
            s == bytes@,
            s == url.spec_bytes(),
            digits == s.skip(first as int),
            digits == trailing_digits(last_segment(s)),
            forall|j: int| 0 <= j < digits.len() ==> is_digit(digits[j]),
            value == decimal(digits.take(i - first)),
            value <= u32::MAX,
        decreases n - i,
    {
        proof {
            assert(digits.take(i - first + 1).drop_last() =~= digits.take(i - first));
            assert(digits.take(i - first + 1).last() == s[i as int]);
            assert(digits[i - first] == s[i as int]);
        }
        value = value * 10 + (bytes[i] - 48) as u64;
        assert(value == decimal(digits.take(i - first + 1)));
        if value > u32::MAX as u64 {
            proof {
                lemma_decimal_grows(digits, i - first + 1);
            }
            return 0;
        }
        i += 1;
    }
    proof {
        assert(digits.take(n - first) =~= digits);
    }
    value as u32
}

/// Whether `needle` stands in `hay` at place `i`.
pub open spec fn stands_at(hay: Seq<u8>, needle: Seq<u8>, i: int) -> bool {
    0 <= i && i + needle.len() <= hay.len() && hay.subrange(i, i + needle.len()) == needle
}

/// Whether `needle` stands somewhere in `hay`.
pub open spec fn has_part(hay: Seq<u8>, needle: Seq<u8>) -> bool {
    exists|i: int| stands_at(hay, needle, i)
}

/// Whether `needle` stands somewhere in `hay`.
pub fn contains_bytes(hay: &[u8], needle: &[u8]) -> (r: bool)
    ensures
        r == has_part(hay@, needle@),
{
    if needle.len() > hay.len() {
        return false;
    }
    let n = hay.len();
    let last = n - needle.len();
    let mut i: usize = 0;
    while i <= last
        invariant
            i <= last + 1,
            n == hay@.len(),
            last == hay@.len() - needle@.len(),
            forall|j: int| 0 <= j < i ==> !stands_at(hay@, needle@, j),
        decreases last + 1 - i,
    {
        let mut k: usize = 0;
        while k < needle.len() && hay[i + k] == needle[k]
            invariant
                k <= needle@.len(),
                i + needle@.len() <= hay@.len(),
                n == hay@.len(),
                forall|m: int| 0 <= m < k ==> hay@[i + m] == needle@[m],
            decreases needle@.len() - k,
        {
            k += 1;
        }
        if k == needle.len() {
            proof {
                assert(hay@.subrange(i as int, i + needle@.len()) =~= needle@);
                assert(stands_at(hay@, needle@, i as int));
            }
            return true;
        }
        proof {
            assert(hay@.subrange(i as int, i + needle@.len())[k as int] == hay@[i + k]);
        }
        i += 1;
    }
    false
}

/// Whether an address is left out of the table of contents: it holds one of
/// the words `subscribe`, `errata`, `colophon`.
pub open spec fn left_out(href: Seq<char>) -> bool {
    has_part(encode_utf8(href), name("subscribe")) || has_part(encode_utf8(href), name("errata"))
        || has_part(encode_utf8(href), name("colophon"))
}

/// Whether an address is left out of the table of contents.
pub fn is_left_out(href: &str) -> (r: bool)
    ensures
        r == left_out(href@),
{
    contains_bytes(href.as_bytes(), "subscribe".as_bytes()) || contains_bytes(
        href.as_bytes(),
        "errata".as_bytes(),
    ) || contains_bytes(href.as_bytes(), "colophon".as_bytes())
}

/// The addresses that are not left out, in their order.
pub open spec fn kept_links(links: Seq<Seq<char>>) -> Seq<Seq<char>>
    decreases links.len(),
{
    if links.len() == 0 {
        Seq::empty()
    } else if left_out(links.last()) {
        kept_links(links.drop_last())
    } else {
        kept_links(links.drop_last()).push(links.last())
    }
}

/// The chapter number of an address.
pub open spec fn chapter_of(href: Seq<char>) -> u32 {
    chapter_number(encode_utf8(href))
}

/// A list in the order of the chapter numbers with one more address put in:
/// after every address whose chapter number is not larger.
pub open spec fn put_in(sorted: Seq<Seq<char>>, href: Seq<char>) -> Seq<Seq<char>>
    decreases sorted.len(),
{
    if sorted.len() == 0 {
        seq![href]
    } else if chapter_of(sorted.last()) <= chapter_of(href) {
        sorted.push(href)
    } else {
        put_in(sorted.drop_last(), href).push(sorted.last())
    }
}

/// The addresses in the order of their chapter numbers; addresses with one
/// chapter number keep their order.
pub open spec fn by_chapter(links: Seq<Seq<char>>) -> Seq<Seq<char>>
    decreases links.len(),
{
    if links.len() == 0 {
        Seq::empty()
    } else {
        put_in(by_chapter(links.drop_last()), links.last())
    }
}

/// Whether the chapter numbers of a list do not fall.
pub open spec fn chapters_rise(links: Seq<Seq<char>>) -> bool {
    forall|i: int, j: int| 0 <= i <= j < links.len() ==> chapter_of(links[i]) <= chapter_of(links[j])
}

/// Where an address is put in: before the addresses with a larger chapter
/// number, which stand at the end.
proof fn lemma_put_in_at(sorted: Seq<Seq<char>>, href: Seq<char>, p: int)
    requires
        0 <= p <= sorted.len(),
        p > 0 ==> chapter_of(sorted[p - 1]) <= chapter_of(href),
        forall|j: int| p <= j < sorted.len() ==> chapter_of(sorted[j]) > chapter_of(href),
    ensures
        put_in(sorted, href) == sorted.insert(p, href),
    decreases sorted.len(),
{
    if sorted.len() == 0 {
        assert(sorted.insert(p, href) =~= seq![href]);
    } else if p == sorted.len() {
        assert(sorted.insert(p, href) =~= sorted.push(href));
    } else {
        let rest = sorted.drop_last();
        assert(chapter_of(sorted[sorted.len() - 1]) > chapter_of(href));
        assert(p > 0 ==> rest[p - 1] == sorted[p - 1]);
        assert forall|j: int| p <= j < rest.len() implies chapter_of(rest[j]) > chapter_of(href) by {
            assert(rest[j] == sorted[j]);
        }
        lemma_put_in_at(rest, href, p);
        assert(rest.insert(p, href).push(sorted.last()) =~= sorted.insert(p, href));
    }
}

/// Putting an address into a list whose chapter numbers do not fall gives
/// such a list.
pub proof fn lemma_put_in_rises(sorted: Seq<Seq<char>>, href: Seq<char>)
    requires
        chapters_rise(sorted),
    ensures
        chapters_rise(put_in(sorted, href)),
        put_in(sorted, href).len() == sorted.len() + 1,
        forall|i: int|
            0 <= i < put_in(sorted, href).len() ==> #[trigger] put_in(sorted, href)[i] == href
                || sorted.contains(put_in(sorted, href)[i]),
    decreases sorted.len(),
{
    if sorted.len() == 0 {
    } else if chapter_of(sorted.last()) <= chapter_of(href) {
        let r = sorted.push(href);
        assert forall|i: int, j: int| 0 <= i <= j < r.len() implies chapter_of(r[i]) <= chapter_of(r[j]) by {
            if j == sorted.len() && i < sorted.len() {
                assert(chapter_of(sorted[i]) <= chapter_of(sorted[sorted.len() - 1]));
            }
        }
        assert forall|i: int| 0 <= i < r.len() implies #[trigger] r[i] == href || sorted.contains(r[i]) by {
            if i < sorted.len() {
                assert(sorted[i] == r[i]);
            }
        }
    } else {
        let rest = sorted.drop_last();
        assert(chapters_rise(rest)) by {
            assert forall|i: int, j: int| 0 <= i <= j < rest.len() implies chapter_of(rest[i])
                <= chapter_of(rest[j]) by {
                assert(rest[i] == sorted[i] && rest[j] == sorted[j]);
            }
        }
        lemma_put_in_rises(rest, href);
        let inner = put_in(rest, href);
        let r = inner.push(sorted.last());
        assert forall|i: int| 0 <= i < r.len() implies #[trigger] r[i] == href || sorted.contains(r[i]) by {
            if i < inner.len() {
                if inner[i] != href {
                    let k = choose|k: int| 0 <= k < rest.len() && rest[k] == inner[i];
                    assert(sorted[k] == rest[k]);
                }
            } else {
                assert(sorted[sorted.len() - 1] == r[i]);
            }
        }
        assert forall|i: int, j: int| 0 <= i <= j < r.len() implies chapter_of(r[i]) <= chapter_of(r[j]) by {
            if j == inner.len() && i < inner.len() {
                if inner[i] != href {
                    let k = choose|k: int| 0 <= k < rest.len() && rest[k] == inner[i];
                    assert(chapter_of(sorted[k]) <= chapter_of(sorted[sorted.len() - 1]));
                }
            }
        }
    }
}

/// The chapter numbers of the sorted addresses do not fall, and the sorted
/// addresses are as many as the addresses.
pub proof fn lemma_by_chapter_rises(links: Seq<Seq<char>>)
    ensures
        chapters_rise(by_chapter(links)),
        by_chapter(links).len() == links.len(),
    decreases links.len(),
{
    if links.len() > 0 {
        lemma_by_chapter_rises(links.drop_last());
        lemma_put_in_rises(by_chapter(links.drop_last()), links.last());
    }
}

/// Puts an address into a list that is in the order of the chapter numbers.
fn put_in_order(sorted: &mut Vec<String>, href: String)
    ensures
        texts(final(sorted)@) == put_in(texts(old(sorted)@), href@),
{
    let key = extract_chapter_number(href.as_str());
    let ghost before = texts(sorted@);
    let mut p: usize = sorted.len();
    while p > 0 && extract_chapter_number(sorted[p - 1].as_str()) > key
        invariant
            p <= sorted@.len(),
            before == texts(sorted@),
            key == chapter_of(href@),
            forall|j: int| p <= j < sorted@.len() ==> chapter_of(before[j]) > key,
        decreases p,
    {
        proof {
            assert(before[p - 1] == sorted@[p - 1]@);
        }
        p -= 1;
    }
    proof {
        if p > 0 {
            assert(before[p - 1] == sorted@[p - 1]@);
        }
        lemma_put_in_at(before, href@, p as int);
    }
    sorted.insert(p, href);
    proof {
        assert(texts(sorted@) =~= before.insert(p as int, href@));
    }
}

/// The entries of a table of contents for the given addresses: each at the
/// top, without a title.
pub open spec fn entries_for(hrefs: Seq<Seq<char>>) -> Seq<TocNodeValue> {
    Seq::new(hrefs.len(), |i: int| TocNodeValue { title: None, href: hrefs[i], level: 0 })
}

/// The values of a list of entries.
pub open spec fn node_values(nodes: Seq<TocNode>) -> Seq<TocNodeValue> {
    Seq::new(nodes.len(), |i: int| nodes[i]@)
}

/// The table of contents of a sitemap: none where the sitemap lists no
/// address; else one entry at the top for each address that is not left
/// out, in the order of the chapter numbers.
pub open spec fn sitemap_toc(links: Seq<Seq<char>>) -> Option<Seq<TocNodeValue>> {
    if links.len() == 0 {
        None
    } else {
        Some(entries_for(by_chapter(kept_links(links))))
    }
}

/// The table of contents of a sitemap that lists the given addresses.
pub fn toc_from_sitemap(sitemap_links: Vec<String>) -> (r: Option<Vec<TocNode>>)
    ensures
        match r {
            Some(nodes) => sitemap_toc(texts(sitemap_links@)) == Some(node_values(nodes@)),
            None => sitemap_toc(texts(sitemap_links@)) is None,
        },
{
    if sitemap_links.len() == 0 {
        return None;
    }
    let ghost all = texts(sitemap_links@);
    let mut links = sitemap_links;
    let mut kept: Vec<String> = Vec::new();
    let mut sorted: Vec<String> = Vec::new();
    proof {
        assert(texts(sorted@) =~= Seq::<Seq<char>>::empty());
        assert(texts(kept@) =~= Seq::<Seq<char>>::empty());
    }
    // The addresses that are not left out. They are taken from the end, so
    // that each one changes hands once.
    let n = links.len();
    let mut i: usize = 0;
    while i < n
        invariant
            i <= n,
            n == links@.len(),
            all.len() == n,
            all == texts(sitemap_links@),
            forall|j: int| i <= j < n ==> all[j] == links@[j]@,
            texts(kept@) == kept_links(all.take(i as int)),
        decreases n - i,
    {
        proof {
            assert(all.take(i + 1).drop_last() =~= all.take(i as int));
            assert(all.take(i + 1).last() == all[i as int]);
        }
        let mut href = String::new();
        core::mem::swap(&mut links[i], &mut href);
        if !is_left_out(href.as_str()) {
            let ghost before = texts(kept@);
            kept.push(href);
            proof {
                assert(texts(kept@) =~= before.push(href@));
            }
        }
        i += 1;
    }
    proof {
        assert(all.take(n as int) =~= all);
    }
    // In the order of the chapter numbers.
    let ghost chosen = texts(kept@);
    let m = kept.len();
    let mut k: usize = 0;
    while k < m
        invariant
            k <= m,
            m == kept@.len(),
            chosen.len() == m,
            forall|j: int| k <= j < m ==> chosen[j] == kept@[j]@,
            texts(sorted@) == by_chapter(chosen.take(k as int)),
        decreases m - k,
    {
        proof {
            assert(chosen.take(k + 1).drop_last() =~= chosen.take(k as int));
            assert(chosen.take(k + 1).last() == chosen[k as int]);
        }
        let mut href = String::new();
        core::mem::swap(&mut kept[k], &mut href);
        put_in_order(&mut sorted, href);
        k += 1;
    }
    proof {
        assert(chosen.take(m as int) =~= chosen);
    }
    // One entry for each.
    let ghost hrefs = texts(sorted@);
    let len = sorted.len();
    let mut nodes: Vec<TocNode> = Vec::new();
    let mut t: usize = 0;
    while t < len
        invariant
            t <= len,
            len == sorted@.len(),
            hrefs.len() == len,
            forall|j: int| t <= j < len ==> hrefs[j] == sorted@[j]@,
            nodes@.len() == t,
            forall|j: int|
                0 <= j < t ==> (#[trigger] nodes@[j])@ == (TocNodeValue {
                    title: None,
                    href: hrefs[j],
                    level: 0,
                }),
        decreases len - t,
    {
        let mut href = String::new();
        core::mem::swap(&mut sorted[t], &mut href);
        nodes.push(TocNode { title: None, href, level: 0 });
        t += 1;
    }
    proof {
        assert(node_values(nodes@) =~= entries_for(hrefs));
    }
    Some(nodes)
}

/// The table of contents of a site of which nothing is known: the one page
/// at the given address.
pub fn single_page_toc(url: &str) -> (nodes: Vec<TocNode>)
    ensures
        node_values(nodes@) == entries_for(seq![url@]),
{
    let mut nodes: Vec<TocNode> = Vec::new();
    nodes.push(TocNode { title: None, href: url.to_owned(), level: 0 });
    proof {
        assert(node_values(nodes@) =~= entries_for(seq![url@]));
    }
    nodes
}

} // verus!
