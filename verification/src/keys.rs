//! The keys into the parent tree when documents are extracted one after the
//! other: each document gets a range of its own.

use crate::document::DocumentValue;
use crate::extract::{
    extract, offset_increment, parent_tree_nums, shift_nums, shift_pages, shift_pairs,
    struct_root_dict,
};
use crate::object::{ObjectId, Value};
use crate::pages::{lemma_shift_standing_pages, page_key, pages_stand};
use vstd::prelude::*;

verus! {

/// The entries of the parent tree of a document; none where it has no
/// structure tree.
pub open spec fn tree_nums(doc: DocumentValue) -> Seq<Value> {
    match struct_root_dict(doc) {
        Some(root) => parent_tree_nums(doc.objects, root),
        None => Seq::empty(),
    }
}

/// Whether every integer key of a number tree is at least `low` and below
/// `high`.
pub open spec fn tree_keys_within(nums: Seq<Value>, low: int, high: int) -> bool {
    forall|p: int|
        0 <= p < nums.len() / 2 ==> (#[trigger] nums[2 * p] matches Value::Integer(k) ==> low <= k < high)
}

/// Whether a number tree holds pairs of an integer key and a value, with
/// every key at least `low` and below `high`.
pub open spec fn keyed_pairs_within(nums: Seq<Value>, low: int, high: int) -> bool {
    &&& nums.len() % 2 == 0
    &&& forall|p: int|
        0 <= p < nums.len() / 2 ==> (#[trigger] nums[2 * p] matches Value::Integer(k) && low <= k < high)
}

/// Whether the key of every page at the given ids is at least `low` and
/// below `high`.
pub open spec fn page_keys_within(objects: Map<ObjectId, Value>, pages: Seq<ObjectId>, low: int, high: int) -> bool {
    forall|i: int|
        0 <= i < pages.len() ==> (page_key(objects[#[trigger] pages[i]]) matches Some(k) ==> low <= k < high)
}

/// Whether no two of the pages at the given ids have the same key.
pub open spec fn page_keys_differ(objects: Map<ObjectId, Value>, pages: Seq<ObjectId>) -> bool {
    forall|i: int, j: int|
        0 <= i < pages.len() && 0 <= j < pages.len() && i != j && page_key(objects[#[trigger] pages[i]]) is Some
            ==> page_key(objects[pages[i]]) != page_key(objects[#[trigger] pages[j]])
}

/// Whether the keys of a document are its own: its pages are dictionaries
/// that stand under their ids, their keys differ, and these keys and the
/// keys of its parent tree lie from 0 to below the amount by which the
/// document raises the next free key.
pub open spec fn keys_its_own(doc: DocumentValue, pages: Seq<ObjectId>) -> bool {
    &&& pages_stand(doc.objects, pages)
    &&& page_keys_differ(doc.objects, pages)
    &&& page_keys_within(doc.objects, pages, 0, offset_increment(doc, pages.len()))
    &&& tree_keys_within(tree_nums(doc), 0, offset_increment(doc, pages.len()))
}

/// Raising the keys of a number tree moves the range in which they lie.
pub proof fn lemma_shifted_tree_keys(nums: Seq<Value>, offset: i64, pairs: nat, low: int, high: int)
    requires
        pairs <= nums.len() / 2,
        tree_keys_within(nums, low, high),
        i64::MIN <= low + offset,
        high + offset <= i64::MAX + 1,
    ensures
        keyed_pairs_within(shift_pairs(nums, offset, pairs), low + offset, high + offset),
    decreases pairs,
{
    if pairs > 0 {
        let before = shift_pairs(nums, offset, (pairs - 1) as nat);
        lemma_shifted_tree_keys(nums, offset, (pairs - 1) as nat, low, high);
        let after = shift_pairs(nums, offset, pairs);
        if let Value::Integer(k) = nums[2 * (pairs - 1)] {
            assert(low <= k < high);
            assert forall|p: int| 0 <= p < after.len() / 2 implies (#[trigger] after[2 * p] matches Value::Integer(
                n,
            ) && low + offset <= n < high + offset) by {
                if p < before.len() / 2 {
                    assert(after[2 * p] == before[2 * p]);
                }
            }
        }
    }
}

/// Raising the keys of the pages of a document moves the range in which
/// they lie, and keeps them apart.
pub proof fn lemma_shifted_page_keys(
    objects: Map<ObjectId, Value>,
    pages: Seq<ObjectId>,
    offset: i64,
    low: int,
    high: int,
)
    requires
        pages_stand(objects, pages),
        page_keys_within(objects, pages, low, high),
        i64::MIN <= low + offset,
        high + offset <= i64::MAX + 1,
    ensures
        page_keys_within(shift_pages(objects, pages, offset), pages, low + offset, high + offset),
        page_keys_differ(objects, pages) ==> page_keys_differ(shift_pages(objects, pages, offset), pages),
        forall|i: int|
            0 <= i < pages.len() ==> (page_key(shift_pages(objects, pages, offset)[#[trigger] pages[i]]) is Some)
                == (page_key(objects[pages[i]]) is Some),
{
    let after = shift_pages(objects, pages, offset);
    assert forall|i: int| 0 <= i < pages.len() implies page_key(after[#[trigger] pages[i]]) == (match page_key(
        objects[pages[i]],
    ) {
        Some(k) => Some((k + offset) as i64),
        None => None::<i64>,
    }) by {
        lemma_shift_standing_pages(objects, pages, offset, pages[i]);
        lemma_key_of_shifted(objects[pages[i]], offset);
    }
}

/// The key of a page whose key was raised.
proof fn lemma_key_of_shifted(page: Value, offset: i64)
    ensures
        page_key(crate::pages::shifted_page(page, offset)) == (match page_key(page) {
            Some(k) => Some((k + offset) as i64),
            None => None::<i64>,
        }),
{
}

/// Two documents that are extracted one after the other, the second with
/// the offset of the first raised by the first's increment, get keys in two
/// ranges that follow each other: every key of a page and of the parent tree
/// of the first lies from the offset to below the offset of the second, and
/// every key of the second lies from there to below the next offset. The
/// keys of the pages of each document stay apart, so no two pages of the
/// two documents have the same key.
pub proof fn lemma_extractions_keep_keys_apart(
    first: DocumentValue,
    first_pages: Seq<ObjectId>,
    second: DocumentValue,
    second_pages: Seq<ObjectId>,
    offset: i64,
)
    requires
        keys_its_own(first, first_pages),
        keys_its_own(second, second_pages),
        0 <= offset,
        offset + offset_increment(first, first_pages.len()) + offset_increment(second, second_pages.len())
            <= i64::MAX,
    ensures
        ({
            let one = extract(first, first_pages, offset);
            let next = (offset + one.next_offset_increment) as i64;
            let two = extract(second, second_pages, next);
            let end = next + two.next_offset_increment;
            &&& offset < next < end
            &&& page_keys_within(shift_pages(first.objects, first_pages, offset), first_pages, offset as int, next as int)
            &&& page_keys_within(shift_pages(second.objects, second_pages, next), second_pages, next as int, end)
            &&& page_keys_differ(shift_pages(first.objects, first_pages, offset), first_pages)
            &&& page_keys_differ(shift_pages(second.objects, second_pages, next), second_pages)
            &&& keyed_pairs_within(one.shifted_nums, offset as int, next as int)
            &&& keyed_pairs_within(two.shifted_nums, next as int, end)
        }),
{
    let inc1 = offset_increment(first, first_pages.len());
    let inc2 = offset_increment(second, second_pages.len());
    let next = (offset + inc1) as i64;
    lemma_shifted_page_keys(first.objects, first_pages, offset, 0, inc1);
    lemma_shifted_page_keys(second.objects, second_pages, next, 0, inc2);
    let nums1 = tree_nums(first);
    let nums2 = tree_nums(second);
    lemma_shifted_tree_keys(nums1, offset, (nums1.len() / 2) as nat, 0, inc1);
    lemma_shifted_tree_keys(nums2, next, (nums2.len() / 2) as nat, 0, inc2);
    assert(shift_nums(Seq::<Value>::empty(), offset) =~= Seq::<Value>::empty());
    assert(shift_nums(Seq::<Value>::empty(), next) =~= Seq::<Value>::empty());
}

} // verus!
