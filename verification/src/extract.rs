//! What one document gives to the merged structure tree: its parent tree
//! with the keys shifted, its top-level structure, and its role map.

use crate::bytes::{copy_bytes, name};
use crate::document::{Document, DocumentValue, get_dictionary, get_object, resolve_id};
use crate::helpers::{kids_of, node_role, struct_tree_root};
use crate::object::{
    array_value, copy_objects, dict_get, Dictionary, Object, ObjectId, push_object, Value,
};
use vstd::prelude::*;

verus! {

/// What one document gives to the merged structure tree.
#[derive(Debug)]
pub struct DocStructureData {
    /// The entries of the parent tree, keys and values in turn, with the keys
    /// shifted.
    pub shifted_nums: Vec<Object>,
    /// The children to put under the merged `Document` element.
    pub root_kids: Vec<Object>,
    /// The role map of the document, where it has one.
    pub role_map: Option<Dictionary>,
    /// By how much the next document's keys have to be shifted further.
    pub next_offset_increment: i64,
}

/// What one document gives to the merged structure tree, as a mathematical
/// value.
pub struct StructureValue {
    pub shifted_nums: Seq<Value>,
    pub root_kids: Seq<Value>,
    pub role_map: Option<Map<Seq<u8>, Value>>,
    pub next_offset_increment: i64,
}

impl View for DocStructureData {
    type V = StructureValue;

    open spec fn view(&self) -> StructureValue {
        StructureValue {
            shifted_nums: array_value(self.shifted_nums@),
            root_kids: array_value(self.root_kids@),
            role_map: match self.role_map {
                Some(d) => Some(d@),
                None => None,
            },
            next_offset_increment: self.next_offset_increment,
        }
    }
}

/// The dictionary of the structure tree root, where the catalog names one
/// and a dictionary is read under it.
pub open spec fn struct_root_dict(doc: DocumentValue) -> Option<Map<Seq<u8>, Value>> {
    match struct_tree_root(doc) {
        Some(id) => match get_dictionary(doc.objects, id) {
            Ok(d) => Some(d),
            Err(_) => None,
        },
        None => None,
    }
}

/// The integer under a key, or 0.
pub open spec fn integer_or_zero(d: Map<Seq<u8>, Value>, key: Seq<u8>) -> i64 {
    match dict_get(d, key) {
        Ok(Value::Integer(i)) => i,
        _ => 0,
    }
}

/// The array `Nums` of the parent tree that a structure tree root names.
pub open spec fn parent_tree_nums(objects: Map<ObjectId, Value>, root: Map<Seq<u8>, Value>) -> Seq<Value> {
    match dict_get(root, name("ParentTree")) {
        Ok(Value::Reference(id)) => match get_dictionary(objects, id) {
            Ok(pt) => match dict_get(pt, name("Nums")) {
                Ok(Value::Array(a)) => a,
                _ => Seq::empty(),
            },
            Err(_) => Seq::empty(),
        },
        _ => Seq::empty(),
    }
}

/// The first `pairs` pairs of key and value of a number tree, with each
/// integer key raised by `offset`; a pair whose key is no integer is left
/// out.
pub open spec fn shift_pairs(nums: Seq<Value>, offset: i64, pairs: nat) -> Seq<Value>
    decreases pairs,
{
    if pairs == 0 {
        Seq::empty()
    } else {
        let before = shift_pairs(nums, offset, (pairs - 1) as nat);
        match nums[2 * (pairs - 1)] {
            Value::Integer(k) => before.push(Value::Integer((k + offset) as i64)).push(
                nums[2 * (pairs - 1) + 1],
            ),
            _ => before,
        }
    }
}

/// The entries of a number tree with each integer key raised by `offset`. A
/// key without a value after it is left out.
pub open spec fn shift_nums(nums: Seq<Value>, offset: i64) -> Seq<Value> {
    shift_pairs(nums, offset, (nums.len() / 2) as nat)
}

/// Whether every integer key of a number tree can be raised by `offset`.
pub open spec fn nums_fit(nums: Seq<Value>, offset: i64) -> bool {
    forall|p: int|
        0 <= p < nums.len() / 2 ==> (#[trigger] nums[2 * p] matches Value::Integer(k) ==> sum_fits(
            k,
            offset,
        ))
}

/// Whether the sum of two integers stays in their range.
pub open spec fn sum_fits(a: i64, b: i64) -> bool {
    i64::MIN <= a + b <= i64::MAX
}

/// Whether the sum of two integers stays in their range.
pub fn sum_in_range(a: i64, b: i64) -> (r: bool)
    ensures
        r == sum_fits(a, b),
{
    a.checked_add(b).is_some()
}

/// The children to put under the merged `Document` element: the members of
/// the array under the root's `K`; or, where `K` refers to a `Document`
/// element, that element's children; or the one object under `K`.
pub open spec fn root_kids_of(objects: Map<ObjectId, Value>, root: Map<Seq<u8>, Value>) -> Seq<Value> {
    match dict_get(root, name("K")) {
        Ok(Value::Array(a)) => a,
        Ok(Value::Reference(id)) => if node_role(objects, id) == Some(name("Document")) {
            match get_dictionary(objects, id) {
                Ok(d) => kids_of(d),
                Err(_) => Seq::empty(),
            }
        } else {
            seq![Value::Reference(id)]
        },
        Ok(other) => seq![other],
        Err(_) => Seq::empty(),
    }
}

/// The role map that a structure tree root holds.
pub open spec fn role_map_of(root: Map<Seq<u8>, Value>) -> Option<Map<Seq<u8>, Value>> {
    match dict_get(root, name("RoleMap")) {
        Ok(Value::Dictionary(d)) => Some(d),
        _ => None,
    }
}

/// The key of a page into the parent tree, where the page has one.
pub open spec fn struct_parents(objects: Map<ObjectId, Value>, page: ObjectId) -> Option<i64> {
    match get_object(objects, page) {
        Ok(Value::Dictionary(d)) => match dict_get(d, name("StructParents")) {
            Ok(Value::Integer(sp)) => Some(sp),
            _ => None,
        },
        _ => None,
    }
}

/// The document after the key of one page was raised by `offset`. A page
/// without such a key stays as it is.
pub open spec fn shift_page(objects: Map<ObjectId, Value>, page: ObjectId, offset: i64) -> Map<
    ObjectId,
    Value,
> {
    match (resolve_id(objects, page), get_object(objects, page), struct_parents(objects, page)) {
        (Ok(at), Ok(Value::Dictionary(d)), Some(sp)) => objects.insert(
            at,
            Value::Dictionary(d.insert(name("StructParents"), Value::Integer((sp + offset) as i64))),
        ),
        _ => objects,
    }
}

/// The document after the keys of the given pages were raised, in order.
pub open spec fn shift_pages(objects: Map<ObjectId, Value>, pages: Seq<ObjectId>, offset: i64) -> Map<
    ObjectId,
    Value,
>
    decreases pages.len(),
{
    if pages.len() == 0 {
        objects
    } else {
        shift_page(shift_pages(objects, pages.drop_last(), offset), pages.last(), offset)
    }
}

/// Whether the keys of the given pages can be raised in order: none leaves
/// the range of the integers.
pub open spec fn pages_fit(objects: Map<ObjectId, Value>, pages: Seq<ObjectId>, offset: i64) -> bool {
    forall|i: int| 0 <= i < pages.len() ==> page_fits(objects, pages, offset, i)
}

/// Whether the key of the page at place `i` can be raised, after those of
/// the pages before it were.
pub open spec fn page_fits(objects: Map<ObjectId, Value>, pages: Seq<ObjectId>, offset: i64, i: int) -> bool {
    struct_parents(shift_pages(objects, pages.take(i), offset), pages[i]) matches Some(sp)
        ==> sum_fits(sp, offset)
}

/// The larger of two integers.
pub open spec fn max_of(a: int, b: int) -> int {
    if a >= b {
        a
    } else {
        b
    }
}

/// By how much the next document's keys have to be shifted further: the
/// next free key of the parent tree, the number of pages, or 1, whichever is
/// largest.
pub open spec fn offset_increment(doc: DocumentValue, page_count: nat) -> int {
    let next_key: int = match struct_root_dict(doc) {
        Some(root) => integer_or_zero(root, name("ParentTreeNextKey")) as int,
        None => 0,
    };
    max_of(max_of(next_key, page_count as int), 1)
}

/// What a document, whose pages are `pages`, gives to the merged structure
/// tree when its keys are raised by `offset`.
pub open spec fn extract(doc: DocumentValue, pages: Seq<ObjectId>, offset: i64) -> StructureValue {
    match struct_root_dict(doc) {
        Some(root) => StructureValue {
            shifted_nums: shift_nums(parent_tree_nums(doc.objects, root), offset),
            root_kids: root_kids_of(doc.objects, root),
            role_map: role_map_of(root),
            next_offset_increment: offset_increment(doc, pages.len()) as i64,
        },
        None => StructureValue {
            shifted_nums: Seq::empty(),
            root_kids: Seq::empty(),
            role_map: None,
            next_offset_increment: offset_increment(doc, pages.len()) as i64,
        },
    }
}

/// Whether the keys of a document can be raised by `offset`.
pub open spec fn shift_fits(doc: DocumentValue, pages: Seq<ObjectId>, offset: i64) -> bool {
    &&& pages.len() <= i64::MAX
    &&& pages_fit(doc.objects, pages, offset)
    &&& tree_fits(doc, offset)
}

/// The entries of a number tree with each integer key raised by `offset`.
fn shifted_entries(nums: &Vec<Object>, offset: i64) -> (r: Vec<Object>)
    requires
        nums_fit(array_value(nums@), offset),
    ensures
        array_value(r@) == shift_nums(array_value(nums@), offset),
{
    let ghost numsv = array_value(nums@);
    let mut r: Vec<Object> = Vec::new();
    let pairs = nums.len() / 2;
    let mut p: usize = 0;
    proof {
        assert(array_value(r@) =~= Seq::<Value>::empty());
    }
    while p < pairs
        invariant
            p <= pairs,
            nums@.len() <= usize::MAX,
            pairs == nums@.len() / 2,
            numsv == array_value(nums@),
            nums_fit(numsv, offset),
            array_value(r@) == shift_pairs(numsv, offset, p as nat),
        decreases pairs - p,
    {
        assert(2 * p + 1 < nums@.len());
        proof {
            assert(numsv[2 * p] == nums@[2 * p]@);
            assert(numsv[2 * p + 1] == nums@[2 * p + 1]@);
        }
        if let Object::Integer(k) = &nums[2 * p] {
            push_object(&mut r, Object::Integer(*k + offset));
            push_object(&mut r, nums[2 * p + 1].clone());
        }
        p += 1;
    }
    r
}

/// Whether every integer key of a number tree can be raised by `offset`.
fn entries_fit(nums: &Vec<Object>, offset: i64) -> (r: bool)
    ensures
        r == nums_fit(array_value(nums@), offset),
{
    let ghost numsv = array_value(nums@);
    let pairs = nums.len() / 2;
    let mut p: usize = 0;
    while p < pairs
        invariant
            p <= pairs,
            nums@.len() <= usize::MAX,
            pairs == nums@.len() / 2,
            numsv == array_value(nums@),
            forall|q: int|
                0 <= q < p ==> (#[trigger] numsv[2 * q] matches Value::Integer(k) ==> sum_fits(
                    k,
                    offset,
                )),
        decreases pairs - p,
    {
        assert(2 * p + 1 < nums@.len());
        proof {
            assert(numsv[2 * p] == nums@[2 * p]@);
        }
        if let Object::Integer(k) = &nums[2 * p] {
            if !sum_in_range(*k, offset) {
                return false;
            }
        }
        p += 1;
    }
    true
}

/// The array `Nums` of the parent tree that a structure tree root names.
fn find_parent_tree_nums<'a>(doc: &'a Document, root: &Dictionary) -> (r: Option<&'a Vec<Object>>)
    ensures
        match r {
            Some(a) => array_value(a@) == parent_tree_nums(doc@.objects, root@),
            None => parent_tree_nums(doc@.objects, root@) == Seq::<Value>::empty(),
        },
{
    match root.get("ParentTree".as_bytes()) {
        Ok(Object::Reference(id)) => match doc.get_dictionary(*id) {
            Ok(pt) => match pt.get("Nums".as_bytes()) {
                Ok(Object::Array(a)) => Some(a),
                _ => None,
            },
            Err(_) => None,
        },
        _ => None,
    }
}

/// The dictionary of the structure tree root.
fn find_struct_root(doc: &Document) -> (r: Option<&Dictionary>)
    ensures
        match r {
            Some(d) => struct_root_dict(doc@) == Some(d@),
            None => struct_root_dict(doc@) is None,
        },
{
    match crate::helpers::find_struct_tree_root(doc) {
        Some(id) => match doc.get_dictionary(id) {
            Ok(d) => Some(d),
            Err(_) => None,
        },
        None => None,
    }
}

/// The children to put under the merged `Document` element.
fn find_root_kids(doc: &Document, root: &Dictionary) -> (r: Vec<Object>)
    ensures
        array_value(r@) == root_kids_of(doc@.objects, root@),
{
    let mut r: Vec<Object> = Vec::new();
    proof {
        assert(array_value(r@) =~= Seq::<Value>::empty());
    }
    match root.get("K".as_bytes()) {
        Ok(Object::Array(a)) => copy_objects(a),
        Ok(Object::Reference(id)) => {
            let is_document = match crate::helpers::get_node_role(doc, *id) {
                Some(role) => crate::bytes::is_name(role.as_slice(), "Document"),
                None => false,
            };
            if is_document {
                match doc.get_dictionary(*id) {
                    Ok(d) => match crate::helpers::get_kids_as_vec(d) {
                        Ok(kids) => kids,
                        Err(_) => r,
                    },
                    Err(_) => r,
                }
            } else {
                push_object(&mut r, Object::Reference(*id));
                proof {
                    assert(array_value(r@) =~= seq![Value::Reference(*id)]);
                }
                r
            }
        },
        Ok(other) => {
            push_object(&mut r, other.clone());
            proof {
                assert(array_value(r@) =~= seq![other@]);
            }
            r
        },
        Err(_) => r,
    }
}

/// Raises the key of one page by `offset`, where it stays in the range of the
/// integers: the result says whether it did.
fn shift_one_page(doc: &mut Document, page: ObjectId, offset: i64) -> (done: bool)
    ensures
        done == (struct_parents(old(doc)@.objects, page) matches Some(sp) ==> sum_fits(sp, offset)),
        done ==> final(doc)@.objects == shift_page(old(doc)@.objects, page, offset),
        final(doc)@.version == old(doc)@.version,
        final(doc)@.trailer == old(doc)@.trailer,
        final(doc)@.max_id == old(doc)@.max_id,
{
    let found = match doc.resolve(page) {
        Ok(x) => match x.object {
            Object::Dictionary(d) => match d.get("StructParents".as_bytes()) {
                Ok(Object::Integer(sp)) => {
                    if !sum_in_range(*sp, offset) {
                        return false;
                    }
                    let mut dict = d.clone();
                    dict.set(copy_bytes("StructParents".as_bytes()), Object::Integer(*sp + offset));
                    Some((x.id, dict))
                },
                _ => None,
            },
            _ => None,
        },
        Err(_) => None,
    };
    if let Some((at, dict)) = found {
        doc.objects.insert(at, Object::Dictionary(dict));
    }
    true
}

/// Raises the keys of the given pages by `offset`, in order, as far as they
/// stay in the range of the integers: the result says whether all did.
pub fn shift_struct_parents(doc: &mut Document, pages: &Vec<ObjectId>, offset: i64) -> (done: bool)
    ensures
        done == pages_fit(old(doc)@.objects, pages@, offset),
        done ==> final(doc)@ == (DocumentValue {
            objects: shift_pages(old(doc)@.objects, pages@, offset),
            ..old(doc)@
        }),
        final(doc)@.version == old(doc)@.version,
        final(doc)@.trailer == old(doc)@.trailer,
        final(doc)@.max_id == old(doc)@.max_id,
{
    let ghost start = doc@.objects;
    let mut i: usize = 0;
    while i < pages.len()
        invariant
            i <= pages@.len(),
            start == old(doc)@.objects,
            doc@.version == old(doc)@.version,
            doc@.trailer == old(doc)@.trailer,
            doc@.max_id == old(doc)@.max_id,
            doc@.objects == shift_pages(start, pages@.take(i as int), offset),
            forall|j: int| 0 <= j < i ==> page_fits(start, pages@, offset, j),
        decreases pages@.len() - i,
    {
        proof {
            assert(pages@.take(i + 1).drop_last() =~= pages@.take(i as int));
        }
        if !shift_one_page(doc, pages[i], offset) {
            proof {
                assert(!page_fits(start, pages@, offset, i as int));
            }
            return false;
        }
        proof {
            assert(page_fits(start, pages@, offset, i as int));
        }
        i += 1;
    }
    proof {
        assert(pages@.take(pages@.len() as int) =~= pages@);
    }
    true
}

/// Whether the keys of the parent tree of a document can be raised by
/// `offset`.
pub open spec fn tree_fits(doc: DocumentValue, offset: i64) -> bool {
    match struct_root_dict(doc) {
        Some(root) => nums_fit(parent_tree_nums(doc.objects, root), offset),
        None => true,
    }
}

/// Reads from a document, whose pages are `pages`, what it gives to the
/// merged structure tree, where the keys of its parent tree can be raised
/// by `offset`.
pub fn read_structure(doc: &Document, pages: &Vec<ObjectId>, offset: i64) -> (r: Option<DocStructureData>)
    requires
        pages@.len() <= i64::MAX,
    ensures
        r is Some == tree_fits(doc@, offset),
        r matches Some(data) ==> data@ == extract(doc@, pages@, offset),
{
    let mut shifted_nums: Vec<Object> = Vec::new();
    let mut root_kids: Vec<Object> = Vec::new();
    let mut role_map: Option<Dictionary> = None;
    let mut local_next_key: i64 = 0;
    proof {
        assert(array_value(shifted_nums@) =~= Seq::<Value>::empty());
        assert(array_value(root_kids@) =~= Seq::<Value>::empty());
        reveal_with_fuel(shift_pairs, 1);
    }
    if let Some(root) = find_struct_root(doc) {
        local_next_key = match root.get("ParentTreeNextKey".as_bytes()) {
            Ok(Object::Integer(i)) => *i,
            _ => 0,
        };
        if let Some(nums) = find_parent_tree_nums(doc, root) {
            if !entries_fit(nums, offset) {
                return None;
            }
            shifted_nums = shifted_entries(nums, offset);
        }
        root_kids = find_root_kids(doc, root);
        role_map = match root.get("RoleMap".as_bytes()) {
            Ok(Object::Dictionary(d)) => Some(d.clone()),
            _ => None,
        };
    }
    let page_count: i64 = pages.len() as i64;
    let mut increment = if local_next_key >= page_count {
        local_next_key
    } else {
        page_count
    };
    if increment < 1 {
        increment = 1;
    }
    Some(DocStructureData { shifted_nums, root_kids, role_map, next_offset_increment: increment })
}

/// Takes from a document, whose pages are `pages`, what it gives to the
/// merged structure tree, and raises the keys of its pages by
/// `current_offset`.
pub fn extract_and_shift_structure(doc: &mut Document, pages: &Vec<ObjectId>, current_offset: i64) -> (r:
    DocStructureData)
    requires
        shift_fits(old(doc)@, pages@, current_offset),
    ensures
        r@ == extract(old(doc)@, pages@, current_offset),
        final(doc)@ == (DocumentValue {
            objects: shift_pages(old(doc)@.objects, pages@, current_offset),
            ..old(doc)@
        }),
{
    let data = read_structure(doc, pages, current_offset);
    let done = shift_struct_parents(doc, pages, current_offset);
    data.unwrap()
}

} // verus!
