//! Flattening the `NonStruct` children of an element whose dictionary is at
//! hand, and giving a link the marked content next to it.

use crate::bytes::{copy_bytes, name};
use crate::dissolve::{dissolve_children, dissolve_in};
use crate::document::{Document, DocumentValue, get_dictionary, get_object};
use crate::helpers::kids_of;
use crate::object::{
    array_value, dict_get, Dictionary, Object, ObjectId, ObjectKind, PdfError, push_object,
    type_error, Value,
};
use vstd::prelude::*;

verus! {

/// Flattens the element under `node_id`, whose dictionary is `dict`: each
/// child that refers to a `NonStruct` element gives way to that element's
/// children. A marked-content id that comes up is bound to the page of the
/// element it leaves, and an element that comes up gets `node_id` as its
/// parent and, where it has no page, that page.
pub fn flatten_nonstruct(doc: &mut Document, node_id: ObjectId, dict: &Dictionary) -> (r: Result<
    (),
    PdfError,
>)
    ensures
        r == Ok::<(), PdfError>(()),
        final(doc)@ == (DocumentValue {
            objects: dissolve_in(old(doc)@.objects, node_id, dict@),
            ..old(doc)@
        }),
{
    dissolve_children(doc, node_id, dict.clone());
    Ok(())
}

/// The document after the link under `link` got a marked-content id as its
/// first child. Nothing changes where no dictionary is read under `link`.
pub open spec fn attach_mcid(objects: Map<ObjectId, Value>, link: ObjectId, mcid: Value) -> Map<
    ObjectId,
    Value,
> {
    match get_object(objects, link) {
        Ok(Value::Dictionary(d)) => objects.insert(
            link,
            Value::Dictionary(d.insert(name("K"), Value::Array(seq![mcid] + kids_of(d)))),
        ),
        _ => objects,
    }
}

/// Whether a marked-content id can be given to the link under `link`: not
/// where no dictionary is read there.
pub open spec fn attach_outcome(objects: Map<ObjectId, Value>, link: ObjectId) -> Result<(), PdfError> {
    match get_object(objects, link) {
        Ok(Value::Dictionary(_)) => Ok(()),
        Ok(v) => Err(type_error(v, ObjectKind::Dictionary)),
        Err(e) => Err(e),
    }
}

/// Gives the link under `link_id` a marked-content id as its first child.
pub fn attach_mcid_to_link(doc: &mut Document, link_id: ObjectId, mcid_ref: Object) -> (r: Result<
    (),
    PdfError,
>)
    ensures
        r == attach_outcome(old(doc)@.objects, link_id),
        final(doc)@ == (DocumentValue {
            objects: attach_mcid(old(doc)@.objects, link_id, mcid_ref@),
            ..old(doc)@
        }),
{
    let mut dict = match doc.get_object(link_id) {
        Ok(o) => match o.as_dict() {
            Ok(d) => d.clone(),
            Err(e) => {
                return Err(e);
            },
        },
        Err(e) => {
            return Err(e);
        },
    };
    let mut new_k: Vec<Object> = Vec::new();
    push_object(&mut new_k, mcid_ref);
    let mut kids = match crate::helpers::get_kids_as_vec(&dict) {
        Ok(k) => k,
        Err(_) => Vec::new(),
    };
    proof {
        assert(array_value(new_k@) =~= seq![mcid_ref@]);
        crate::object::lemma_array_value_add(new_k@, kids@);
    }
    new_k.append(&mut kids);
    dict.set(copy_bytes("K".as_bytes()), Object::Array(new_k));
    doc.objects.insert(link_id, Object::Dictionary(dict));
    Ok(())
}

/// The marked-content id next to the place `i` among the children: the one
/// after it, else the one before it.
pub open spec fn mcid_next_to(kids: Seq<Value>, i: int) -> Option<Value> {
    if i + 1 < kids.len() && kids[i + 1] is Integer {
        Some(kids[i + 1])
    } else if i > 0 && kids[i - 1] is Integer {
        Some(kids[i - 1])
    } else {
        None
    }
}

/// The marked-content id next to a reference to `link` among the first `n`
/// children: that of the first such reference which has one.
pub open spec fn adjacent_mcid(kids: Seq<Value>, link: ObjectId, n: int) -> Option<Value>
    decreases n,
{
    if n <= 0 {
        None
    } else {
        match adjacent_mcid(kids, link, n - 1) {
            Some(v) => Some(v),
            None => if kids[n - 1] == Value::Reference(link) {
                mcid_next_to(kids, n - 1)
            } else {
                None
            },
        }
    }
}

/// The marked-content id next to the link under `link` in its parent, the
/// element under `parent`, whose `K` is an array.
pub open spec fn adjacent_mcid_in_parent(objects: Map<ObjectId, Value>, parent: ObjectId, link: ObjectId) -> Option<
    Value,
> {
    match get_dictionary(objects, parent) {
        Ok(d) => match dict_get(d, name("K")) {
            Ok(Value::Array(kids)) => adjacent_mcid(kids, link, kids.len() as int),
            _ => None,
        },
        Err(_) => None,
    }
}

/// What was found among the first children is what is found among all.
proof fn lemma_adjacent_stays(kids: Seq<Value>, link: ObjectId, n: int, m: int)
    requires
        0 <= n <= m,
        adjacent_mcid(kids, link, n) is Some,
    ensures
        adjacent_mcid(kids, link, m) == adjacent_mcid(kids, link, n),
    decreases m - n,
{
    if n < m {
        lemma_adjacent_stays(kids, link, n, m - 1);
    }
}

/// The marked-content id next to the link under `link_id` in its parent.
pub fn find_adjacent_mcid_in_parent(doc: &Document, parent_id: ObjectId, link_id: ObjectId) -> (r: Option<
    Object,
>)
    ensures
        crate::object::option_value(r) == adjacent_mcid_in_parent(doc@.objects, parent_id, link_id),
{
    let arr = match doc.get_dictionary(parent_id) {
        Ok(d) => match d.get("K".as_bytes()) {
            Ok(Object::Array(a)) => a,
            _ => {
                return None;
            },
        },
        Err(_) => {
            return None;
        },
    };
    let ghost kids = array_value(arr@);
    let mut idx: usize = 0;
    while idx < arr.len()
        invariant
            idx <= arr@.len(),
            kids == array_value(arr@),
            adjacent_mcid_in_parent(doc@.objects, parent_id, link_id) == adjacent_mcid(
                kids,
                link_id,
                kids.len() as int,
            ),
            adjacent_mcid(kids, link_id, idx as int) is None,
        decreases arr@.len() - idx,
    {
        proof {
            assert(kids[idx as int] == arr@[idx as int]@);
            if idx + 1 < arr@.len() {
                assert(kids[idx + 1] == arr@[idx + 1]@);
            }
            if idx > 0 {
                assert(kids[idx - 1] == arr@[idx - 1]@);
            }
            if adjacent_mcid(kids, link_id, idx + 1) is Some {
                lemma_adjacent_stays(kids, link_id, idx + 1, kids.len() as int);
            }
        }
        let here = match &arr[idx] {
            Object::Reference(id) => crate::table::id_eq(*id, link_id),
            _ => false,
        };
        if here {
            if idx + 1 < arr.len() {
                if let Object::Integer(_) = &arr[idx + 1] {
                    return Some(arr[idx + 1].clone());
                }
            }
            if idx > 0 {
                if let Object::Integer(_) = &arr[idx - 1] {
                    return Some(arr[idx - 1].clone());
                }
            }
        }
        idx += 1;
    }
    None
}

} // verus!
