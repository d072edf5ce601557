//! How reading a document changes when one of its objects is replaced or
//! an object is added.

use crate::document::{DEREF_LIMIT, dereference_from, get_object, resolve_id};
use crate::object::{ObjectId, PdfError, Value};
use vstd::prelude::*;

verus! {

/// Following references ends at an object that the document has and that is
/// no reference.
pub proof fn lemma_dereference_ends(
    objects: Map<ObjectId, Value>,
    last: Option<ObjectId>,
    v: Value,
    steps: nat,
)
    requires
        steps <= DEREF_LIMIT,
        last matches Some(l) ==> objects.contains_key(l) && objects[l] == v,
    ensures
        dereference_from(objects, last, v, steps) matches Ok((at, w)) ==> !(w is Reference) && (
        at matches Some(a) ==> objects.contains_key(a) && objects[a] == w) && (at is None ==> last is None
            && w == v),
    decreases DEREF_LIMIT + 1 - steps,
{
    if let Value::Reference(id) = v {
        if objects.contains_key(id) && steps < DEREF_LIMIT {
            lemma_dereference_ends(objects, Some(id), objects[id], steps + 1);
        }
    }
}

/// What is read under an id stands under the id that reading ends at, and it
/// is no reference.
pub proof fn lemma_resolve(objects: Map<ObjectId, Value>, id: ObjectId)
    ensures
        resolve_id(objects, id) matches Ok(at) ==> objects.contains_key(at) && !(
        objects[at] is Reference) && get_object(objects, id) == Ok::<Value, PdfError>(objects[at]),
        resolve_id(objects, id) matches Err(e) ==> get_object(objects, id) == Err::<Value, PdfError>(e),
        get_object(objects, id) is Ok ==> resolve_id(objects, id) is Ok,
        objects.contains_key(id) && !(objects[id] is Reference) ==> resolve_id(objects, id) == Ok::<
            ObjectId,
            PdfError,
        >(id),
{
    if objects.contains_key(id) {
        lemma_dereference_ends(objects, None, objects[id], 0);
    }
}

/// Replacing an object that is no reference by one that is none either
/// leaves every chain of references as it was: it ends at the same place,
/// with the new object where that is the place of the replaced one.
pub proof fn lemma_overwrite_dereference(
    objects: Map<ObjectId, Value>,
    at: ObjectId,
    new: Value,
    id: ObjectId,
    steps: nat,
)
    requires
        steps <= DEREF_LIMIT,
        objects.contains_key(at),
        !(objects[at] is Reference),
        !(new is Reference),
        objects.contains_key(id),
    ensures
        match dereference_from(objects, Some(id), objects[id], steps) {
            Ok((a, w)) => dereference_from(
                objects.insert(at, new),
                Some(id),
                objects.insert(at, new)[id],
                steps,
            ) == Ok::<(Option<ObjectId>, Value), PdfError>(
                (
                    a,
                    if a == Some(at) {
                        new
                    } else {
                        w
                    },
                ),
            ),
            Err(e) => dereference_from(
                objects.insert(at, new),
                Some(id),
                objects.insert(at, new)[id],
                steps,
            ) == Err::<(Option<ObjectId>, Value), PdfError>(e),
        },
    decreases DEREF_LIMIT + 1 - steps,
{
    let after = objects.insert(at, new);
    if id != at {
        assert(after[id] == objects[id]);
        if let Value::Reference(n) = objects[id] {
            if objects.contains_key(n) && steps < DEREF_LIMIT {
                lemma_overwrite_dereference(objects, at, new, n, steps + 1);
            }
        }
    }
}

/// Replacing an object that is no reference by one that is none either:
/// every id is read at the same place as before, and what is read there is
/// the new object at the place of the replaced one, and the old one
/// elsewhere.
pub proof fn lemma_overwrite(objects: Map<ObjectId, Value>, at: ObjectId, new: Value, id: ObjectId)
    requires
        objects.contains_key(at),
        !(objects[at] is Reference),
        !(new is Reference),
    ensures
        resolve_id(objects.insert(at, new), id) == resolve_id(objects, id),
        get_object(objects.insert(at, new), id) == (if resolve_id(objects, id) == Ok::<
            ObjectId,
            PdfError,
        >(at) {
            Ok::<Value, PdfError>(new)
        } else {
            get_object(objects, id)
        }),
{
    let after = objects.insert(at, new);
    if objects.contains_key(id) {
        if id != at {
            assert(after[id] == objects[id]);
            if let Value::Reference(n) = objects[id] {
                if objects.contains_key(n) {
                    lemma_overwrite_dereference(objects, at, new, n, 1);
                }
            }
        }
    }
}

/// Adding an object under an id that the document did not have leaves every
/// chain of references that ended as it was.
pub proof fn lemma_add_dereference(
    objects: Map<ObjectId, Value>,
    at: ObjectId,
    new: Value,
    last: Option<ObjectId>,
    v: Value,
    steps: nat,
)
    requires
        steps <= DEREF_LIMIT,
        !objects.contains_key(at),
    ensures
        dereference_from(objects, last, v, steps) is Ok ==> dereference_from(
            objects.insert(at, new),
            last,
            v,
            steps,
        ) == dereference_from(objects, last, v, steps),
    decreases DEREF_LIMIT + 1 - steps,
{
    if let Value::Reference(id) = v {
        if objects.contains_key(id) && steps < DEREF_LIMIT {
            assert(objects.insert(at, new)[id] == objects[id]);
            lemma_add_dereference(objects, at, new, Some(id), objects[id], steps + 1);
        }
    }
}

/// Adding an object under an id that the document did not have: what was
/// read under an id is still read under it, at the same place.
pub proof fn lemma_add(objects: Map<ObjectId, Value>, at: ObjectId, new: Value, id: ObjectId)
    requires
        !objects.contains_key(at),
        get_object(objects, id) is Ok,
    ensures
        resolve_id(objects.insert(at, new), id) == resolve_id(objects, id),
        get_object(objects.insert(at, new), id) == get_object(objects, id),
{
    assert(objects.insert(at, new)[id] == objects[id]);
    lemma_add_dereference(objects, at, new, None, objects[id], 0);
}

} // verus!
