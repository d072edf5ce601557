//! What taking in a document keeps: the objects taken in before, the
//! order of the pages, and the keys of the pages into the parent tree.

use crate::bytes::name;
use crate::document::{DocumentValue, get_object, resolve_id};
use crate::extract::{offset_increment, shift_page, shift_pages, struct_parents};
use crate::frame::{lemma_overwrite, lemma_resolve};
use crate::merge::{collect_pages, MergerValue};
use crate::object::{dict_get, ObjectId, Value};
use crate::table::{id_lt, ids_rise, lists_keys};
use vstd::prelude::*;

verus! {

/// Whether every id of the mapping has an object number below the bound.
pub open spec fn numbered_below(objects: Map<ObjectId, Value>, bound: u32) -> bool {
    forall|id: ObjectId| objects.contains_key(id) ==> id.0 < bound
}

/// Whether every id of the mapping has an object number from `low` to
/// `high`.
pub open spec fn numbered_within(objects: Map<ObjectId, Value>, low: u32, high: u32) -> bool {
    forall|id: ObjectId| objects.contains_key(id) ==> low <= id.0 <= high
}

/// Raising the key of a page changes the place of no object, and no object
/// into one of another kind.
pub proof fn lemma_shift_page_frame(objects: Map<ObjectId, Value>, page: ObjectId, offset: i64, x: ObjectId)
    ensures
        shift_page(objects, page, offset).dom() =~= objects.dom(),
        resolve_id(shift_page(objects, page, offset), x) == resolve_id(objects, x),
        get_object(shift_page(objects, page, offset), x) is Ok == get_object(objects, x) is Ok,
        resolve_id(objects, x) != resolve_id(objects, page) ==> get_object(
            shift_page(objects, page, offset),
            x,
        ) == get_object(objects, x),
{
    lemma_resolve(objects, page);
    lemma_resolve(objects, x);
    match (resolve_id(objects, page), get_object(objects, page), struct_parents(objects, page)) {
        (Ok(at), Ok(Value::Dictionary(d)), Some(sp)) => {
            let new = Value::Dictionary(
                d.insert(name("StructParents"), Value::Integer((sp + offset) as i64)),
            );
            lemma_overwrite(objects, at, new, x);
            assert(objects.insert(at, new).dom() =~= objects.dom());
        },
        _ => {},
    }
}

/// Raising the keys of pages changes the place of no object.
pub proof fn lemma_shift_pages_frame(
    objects: Map<ObjectId, Value>,
    pages: Seq<ObjectId>,
    offset: i64,
    x: ObjectId,
)
    ensures
        shift_pages(objects, pages, offset).dom() =~= objects.dom(),
        resolve_id(shift_pages(objects, pages, offset), x) == resolve_id(objects, x),
        get_object(shift_pages(objects, pages, offset), x) is Ok == get_object(objects, x) is Ok,
    decreases pages.len(),
{
    if pages.len() > 0 {
        lemma_shift_pages_frame(objects, pages.drop_last(), offset, x);
        lemma_shift_page_frame(shift_pages(objects, pages.drop_last(), offset), pages.last(), offset, x);
    }
}

/// Taking in a document whose object numbers start where those taken in
/// before end replaces none of the objects taken in before: all ids stay
/// distinct, and the numbers of all objects lie below the number from which
/// the next document is to be numbered.
pub proof fn lemma_absorb_keeps_objects(
    st: MergerValue,
    doc: DocumentValue,
    pages: Seq<ObjectId>,
    title: Seq<char>,
    level: u8,
)
    requires
        numbered_below(st.objects, st.max_id),
        numbered_within(doc.objects, st.max_id, doc.max_id),
        st.max_id <= doc.max_id + 1,
        doc.max_id < u32::MAX,
    ensures
        numbered_below(st.absorb(doc, pages, title, level).objects, st.absorb(doc, pages, title, level).max_id),
        st.max_id <= st.absorb(doc, pages, title, level).max_id,
        forall|id: ObjectId|
            st.objects.contains_key(id) ==> !doc.objects.contains_key(id) && st.absorb(
                doc,
                pages,
                title,
                level,
            ).objects.contains_key(id) && st.absorb(doc, pages, title, level).objects[id]
                == st.objects[id],
        forall|id: ObjectId|
            doc.objects.contains_key(id) ==> st.absorb(doc, pages, title, level).objects.contains_key(
                id,
            ),
{
    let shifted = shift_pages(doc.objects, pages, st.offset);
    lemma_shift_pages_frame(doc.objects, pages, st.offset, (0u32, 0u16));
    assert(shifted.dom() =~= doc.objects.dom());
    assert forall|id: ObjectId| doc.objects.contains_key(id) == shifted.contains_key(id) by {
        assert(shifted.dom().contains(id) == doc.objects.dom().contains(id));
    }
}

/// The pages that are collected from a document: those of its pages that
/// are read in it.
pub proof fn lemma_collect_pages(
    collected: Map<ObjectId, Value>,
    objects: Map<ObjectId, Value>,
    pages: Seq<ObjectId>,
    id: ObjectId,
)
    ensures
        collect_pages(collected, objects, pages).contains_key(id) == (collected.contains_key(id) || (
        pages.contains(id) && get_object(objects, id) is Ok)),
        pages.contains(id) && get_object(objects, id) is Ok ==> collect_pages(collected, objects, pages)[id]
            == get_object(objects, id)->Ok_0,
        !pages.contains(id) && collected.contains_key(id) ==> collect_pages(collected, objects, pages)[id]
            == collected[id],
    decreases pages.len(),
{
    if pages.len() > 0 {
        let rest = pages.drop_last();
        lemma_collect_pages(collected, objects, rest, id);
        assert(pages.contains(id) == (rest.contains(id) || pages.last() == id)) by {
            if pages.contains(id) {
                let i = choose|i: int| 0 <= i < pages.len() && pages[i] == id;
                if i < pages.len() - 1 {
                    assert(rest[i] == id);
                }
            }
            if rest.contains(id) {
                let i = choose|i: int| 0 <= i < rest.len() && rest[i] == id;
                assert(pages[i] == id);
            }
            if pages.last() == id {
                assert(pages[pages.len() - 1] == id);
            }
        }
    }
}

/// Taking in a document keeps the pages in the order of the table of
/// contents: where the pages taken in before are listed by `listed`, the
/// object numbers of the document start where theirs end, and its pages
/// come in the order of their ids and are all read in it, the pages are
/// listed afterwards by `listed` followed by the pages of the document. So
/// no page is lost and none is counted twice.
pub proof fn lemma_absorb_keeps_page_order(
    st: MergerValue,
    doc: DocumentValue,
    pages: Seq<ObjectId>,
    title: Seq<char>,
    level: u8,
    listed: Seq<ObjectId>,
)
    requires
        lists_keys(listed, st.pages),
        numbered_below(st.pages, st.max_id),
        ids_rise(pages),
        forall|i: int| 0 <= i < pages.len() ==> st.max_id <= (#[trigger] pages[i]).0 <= doc.max_id,
        forall|i: int| 0 <= i < pages.len() ==> get_object(doc.objects, #[trigger] pages[i]) is Ok,
        st.max_id <= doc.max_id + 1,
        doc.max_id < u32::MAX,
    ensures
        lists_keys(listed + pages, st.absorb(doc, pages, title, level).pages),
        numbered_below(st.absorb(doc, pages, title, level).pages, st.absorb(doc, pages, title, level).max_id),
{
    let after = st.absorb(doc, pages, title, level);
    let shifted = shift_pages(doc.objects, pages, st.offset);
    let all = listed + pages;
    assert forall|id: ObjectId|
        #[trigger] after.pages.contains_key(id) == (st.pages.contains_key(id) || pages.contains(id)) by {
        lemma_collect_pages(st.pages, shifted, pages, id);
        lemma_shift_pages_frame(doc.objects, pages, st.offset, id);
        if pages.contains(id) {
            let i = choose|i: int| 0 <= i < pages.len() && pages[i] == id;
            assert(get_object(doc.objects, pages[i]) is Ok);
        }
    }
    assert forall|i: int, j: int| 0 <= i < j < all.len() implies id_lt(all[i], all[j]) by {
        if j < listed.len() {
        } else if i >= listed.len() {
            assert(id_lt(pages[i - listed.len()], pages[j - listed.len()]));
        } else {
            assert(st.pages.contains_key(listed[i]));
            assert(pages[j - listed.len()].0 >= st.max_id);
        }
    }
    assert forall|i: int| 0 <= i < all.len() implies after.pages.contains_key(#[trigger] all[i]) by {
        assert(after.pages.contains_key(all[i]) == (st.pages.contains_key(all[i]) || pages.contains(
            all[i],
        )));
        if i < listed.len() {
            assert(st.pages.contains_key(listed[i]));
        } else {
            assert(pages[i - listed.len()] == all[i]);
            assert(pages.contains(all[i]));
        }
    }
    assert forall|id: ObjectId| after.pages.contains_key(id) implies exists|i: int|
        0 <= i < all.len() && #[trigger] all[i] == id by {
        assert(after.pages.contains_key(id) == (st.pages.contains_key(id) || pages.contains(id)));
        if st.pages.contains_key(id) {
            let i = choose|i: int| 0 <= i < listed.len() && #[trigger] listed[i] == id;
            assert(all[i] == id);
        } else {
            let i = choose|i: int| 0 <= i < pages.len() && pages[i] == id;
            assert(all[i + listed.len()] == id);
        }
    }
    assert forall|id: ObjectId| after.pages.contains_key(id) implies id.0 < after.max_id by {
        assert(after.pages.contains_key(id) == (st.pages.contains_key(id) || pages.contains(id)));
        if !st.pages.contains_key(id) {
            let i = choose|i: int| 0 <= i < pages.len() && pages[i] == id;
            assert(pages[i].0 <= doc.max_id);
        }
    }
}

/// A list that lists the keys of a mapping is as long as the mapping has
/// keys.
pub proof fn lemma_lists_keys_len(ids: Seq<ObjectId>, m: Map<ObjectId, Value>)
    requires
        lists_keys(ids, m),
    ensures
        m.dom().finite(),
        m.dom().len() == ids.len(),
{
    assert forall|i: int, j: int| 0 <= i < ids.len() && 0 <= j < ids.len() && i != j implies ids[i]
        != ids[j] by {
        if i < j {
            assert(id_lt(ids[i], ids[j]));
        } else {
            assert(id_lt(ids[j], ids[i]));
        }
    }
    ids.unique_seq_to_set();
    assert(ids.to_set() =~= m.dom()) by {
        assert forall|id: ObjectId| ids.to_set().contains(id) == m.dom().contains(id) by {
            if ids.to_set().contains(id) {
                let i = choose|i: int| 0 <= i < ids.len() && ids[i] == id;
                assert(m.contains_key(ids[i]));
            }
            if m.dom().contains(id) {
                let i = choose|i: int| 0 <= i < ids.len() && #[trigger] ids[i] == id;
                assert(ids.contains(id));
            }
        }
    }
}

/// Taking in a document adds as many pages as the document has: under the
/// conditions under which the order of the pages is kept, the number of
/// pages afterwards is the number before and the number of its pages.
pub proof fn lemma_absorb_adds_pages(
    st: MergerValue,
    doc: DocumentValue,
    pages: Seq<ObjectId>,
    title: Seq<char>,
    level: u8,
    listed: Seq<ObjectId>,
)
    requires
        lists_keys(listed, st.pages),
        numbered_below(st.pages, st.max_id),
        ids_rise(pages),
        forall|i: int| 0 <= i < pages.len() ==> st.max_id <= (#[trigger] pages[i]).0 <= doc.max_id,
        forall|i: int| 0 <= i < pages.len() ==> get_object(doc.objects, #[trigger] pages[i]) is Ok,
        st.max_id <= doc.max_id + 1,
        doc.max_id < u32::MAX,
    ensures
        st.pages.dom().finite(),
        st.absorb(doc, pages, title, level).pages.dom().finite(),
        st.absorb(doc, pages, title, level).pages.dom().len() == st.pages.dom().len() + pages.len(),
{
    lemma_absorb_keeps_page_order(st, doc, pages, title, level, listed);
    lemma_lists_keys_len(listed, st.pages);
    lemma_lists_keys_len(listed + pages, st.absorb(doc, pages, title, level).pages);
}

/// The key of a page into the parent tree, where it has one.
pub open spec fn page_key(page: Value) -> Option<i64> {
    match page {
        Value::Dictionary(d) => match dict_get(d, name("StructParents")) {
            Ok(Value::Integer(k)) => Some(k),
            _ => None,
        },
        _ => None,
    }
}

/// Whether no two pages have the same key into the parent tree.
pub open spec fn keys_differ(pages: Map<ObjectId, Value>) -> bool {
    forall|a: ObjectId, b: ObjectId|
        pages.contains_key(a) && pages.contains_key(b) && a != b && page_key(#[trigger] pages[a]) is Some
            ==> page_key(pages[a]) != page_key(#[trigger] pages[b])
}

/// Whether every key of a page into the parent tree is at least `low` and
/// below `high`.
pub open spec fn keys_within(pages: Map<ObjectId, Value>, low: int, high: int) -> bool {
    forall|a: ObjectId|
        pages.contains_key(a) ==> (page_key(#[trigger] pages[a]) matches Some(k) ==> low <= k < high)
}

/// Whether the pages of a document are dictionaries that stand under the
/// ids of the pages, each id once.
pub open spec fn pages_stand(objects: Map<ObjectId, Value>, pages: Seq<ObjectId>) -> bool {
    &&& pages.no_duplicates()
    &&& forall|i: int|
        0 <= i < pages.len() ==> objects.contains_key(#[trigger] pages[i]) && objects[pages[i]] is Dictionary
}

/// A page with its key raised.
pub open spec fn shifted_page(page: Value, offset: i64) -> Value {
    match (page, page_key(page)) {
        (Value::Dictionary(d), Some(k)) => Value::Dictionary(
            d.insert(name("StructParents"), Value::Integer((k + offset) as i64)),
        ),
        _ => page,
    }
}

/// Raising the keys of pages that stand under their ids raises the key of
/// each page once, and changes nothing else.
pub proof fn lemma_shift_standing_pages(
    objects: Map<ObjectId, Value>,
    pages: Seq<ObjectId>,
    offset: i64,
    x: ObjectId,
)
    requires
        pages_stand(objects, pages),
        objects.contains_key(x),
    ensures
        shift_pages(objects, pages, offset).contains_key(x),
        shift_pages(objects, pages, offset)[x] == (if pages.contains(x) {
            shifted_page(objects[x], offset)
        } else {
            objects[x]
        }),
    decreases pages.len(),
{
    if pages.len() > 0 {
        let rest = pages.drop_last();
        let p = pages.last();
        let before = shift_pages(objects, rest, offset);
        assert(pages_stand(objects, rest)) by {
            assert forall|i: int| 0 <= i < rest.len() implies objects.contains_key(#[trigger] rest[i])
                && objects[rest[i]] is Dictionary by {
                assert(rest[i] == pages[i]);
            }
            assert forall|i: int, j: int| 0 <= i < rest.len() && 0 <= j < rest.len() && i != j implies rest[i]
                != rest[j] by {
                assert(rest[i] == pages[i] && rest[j] == pages[j]);
            }
        }
        assert(objects.contains_key(pages[pages.len() - 1]));
        lemma_shift_standing_pages(objects, rest, offset, x);
        lemma_shift_standing_pages(objects, rest, offset, p);
        assert(!rest.contains(p)) by {
            if rest.contains(p) {
                let i = choose|i: int| 0 <= i < rest.len() && rest[i] == p;
                assert(pages[i] == pages[pages.len() - 1]);
            }
        }
        assert(pages.contains(x) == (rest.contains(x) || x == p)) by {
            if pages.contains(x) {
                let i = choose|i: int| 0 <= i < pages.len() && pages[i] == x;
                if i < pages.len() - 1 {
                    assert(rest[i] == x);
                }
            }
            if rest.contains(x) {
                let i = choose|i: int| 0 <= i < rest.len() && rest[i] == x;
                assert(pages[i] == x);
            }
            if x == p {
                assert(pages[pages.len() - 1] == x);
            }
        }
        lemma_resolve(before, p);
        assert(before[p] == objects[p]);
    }
}

/// Taking in a document keeps the keys of the pages into the parent tree
/// apart. Where the keys of the pages taken in before differ and lie below
/// the next free key, and the pages of the document stand under their ids,
/// which are new, with keys that differ and lie from 0 to below the amount
/// by which the next free key is raised, then afterwards the keys of all
/// pages differ and lie below the next free key.
pub proof fn lemma_absorb_keeps_keys_apart(
    st: MergerValue,
    doc: DocumentValue,
    pages: Seq<ObjectId>,
    title: Seq<char>,
    level: u8,
)
    requires
        st.absorb_error(doc, pages) is None,
        keys_differ(st.pages),
        keys_within(st.pages, i64::MIN as int, st.offset as int),
        pages_stand(doc.objects, pages),
        forall|i: int| 0 <= i < pages.len() ==> !st.pages.contains_key(#[trigger] pages[i]),
        forall|i: int, j: int|
            0 <= i < pages.len() && 0 <= j < pages.len() && i != j && page_key(
                doc.objects[#[trigger] pages[i]],
            ) is Some ==> page_key(doc.objects[pages[i]]) != page_key(doc.objects[#[trigger] pages[j]]),
        forall|i: int|
            0 <= i < pages.len() ==> (page_key(doc.objects[#[trigger] pages[i]]) matches Some(k) ==> 0 <= k
                < offset_increment(doc, pages.len())),
    ensures
        keys_differ(st.absorb(doc, pages, title, level).pages),
        keys_within(
            st.absorb(doc, pages, title, level).pages,
            i64::MIN as int,
            st.absorb(doc, pages, title, level).offset as int,
        ),
{
    let after = st.absorb(doc, pages, title, level);
    let shifted = shift_pages(doc.objects, pages, st.offset);
    let inc = offset_increment(doc, pages.len());
    assert(after.offset == st.offset + inc);
    crate::bytes::lemma_parent_key_differs();
    // What a page of the document is afterwards.
    assert forall|id: ObjectId| after.pages.contains_key(id) implies #[trigger] after.pages[id] == (
    if pages.contains(id) {
        shifted_page(doc.objects[id], st.offset)
    } else {
        st.pages[id]
    }) && (pages.contains(id) || st.pages.contains_key(id)) by {
        lemma_collect_pages(st.pages, shifted, pages, id);
        if pages.contains(id) {
            let i = choose|i: int| 0 <= i < pages.len() && pages[i] == id;
            assert(doc.objects.contains_key(pages[i]));
            lemma_shift_standing_pages(doc.objects, pages, st.offset, id);
            lemma_resolve(shifted, id);
        }
    }
    // The key of a page of the document afterwards.
    assert forall|id: ObjectId| pages.contains(id) implies page_key(
        #[trigger] shifted_page(doc.objects[id], st.offset),
    ) == (match page_key(doc.objects[id]) {
        Some(k) => Some((k + st.offset) as i64),
        None => None::<i64>,
    }) && (page_key(doc.objects[id]) matches Some(k) ==> 0 <= k < inc) by {
        let i = choose|i: int| 0 <= i < pages.len() && pages[i] == id;
        assert(doc.objects[pages[i]] is Dictionary);
    }
    assert forall|a: ObjectId|
        after.pages.contains_key(a) implies (page_key(#[trigger] after.pages[a]) matches Some(k)
        ==> i64::MIN <= k < after.offset) by {
        if pages.contains(a) {
            assert(page_key(shifted_page(doc.objects[a], st.offset)) == (match page_key(doc.objects[a]) {
                Some(k) => Some((k + st.offset) as i64),
                None => None::<i64>,
            }));
        } else {
            assert(st.pages.contains_key(a));
        }
    }
    assert forall|a: ObjectId, b: ObjectId|
        after.pages.contains_key(a) && after.pages.contains_key(b) && a != b && page_key(
            #[trigger] after.pages[a],
        ) is Some implies page_key(after.pages[a]) != page_key(#[trigger] after.pages[b]) by {
        if pages.contains(a) {
            assert(page_key(shifted_page(doc.objects[a], st.offset)) == (match page_key(doc.objects[a]) {
                Some(k) => Some((k + st.offset) as i64),
                None => None::<i64>,
            }));
        }
        if pages.contains(b) {
            assert(page_key(shifted_page(doc.objects[b], st.offset)) == (match page_key(doc.objects[b]) {
                Some(k) => Some((k + st.offset) as i64),
                None => None::<i64>,
            }));
        }
        if pages.contains(a) && pages.contains(b) {
            let i = choose|i: int| 0 <= i < pages.len() && pages[i] == a;
            let j = choose|j: int| 0 <= j < pages.len() && pages[j] == b;
            assert(page_key(doc.objects[pages[i]]) != page_key(doc.objects[pages[j]]));
        } else if pages.contains(a) {
            assert(st.pages.contains_key(b));
        } else if pages.contains(b) {
            assert(st.pages.contains_key(a));
        } else {
            assert(st.pages.contains_key(a) && st.pages.contains_key(b));
        }
    }
}

} // verus!
