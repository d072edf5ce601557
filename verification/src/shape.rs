//! Documents of one shape: the same objects stand under the same ids, and
//! an element differs from its counterpart at most in its children, its
//! parent and its page.

use crate::bytes::{lemma_structure_keys_differ, name};
use crate::dissolve::{
    dissolve_all, dissolve_one, Dissolving, mcr, surface_all, surface_one, with_page,
};
use crate::document::{DEREF_LIMIT, dereference_from, get_dictionary, get_object, resolve_id};
use crate::frame::lemma_resolve;
use crate::helpers::{is_nonstruct_node, is_objr_child, kids_of, node_role, with_parent};
use crate::object::{ObjectId, PdfError, Value};
use vstd::prelude::*;

verus! {

/// Whether a key is one of those under which the structure of an element
/// stands: its children, its parent, its page.
pub open spec fn structure_key(key: Seq<u8>) -> bool {
    key == name("K") || key == name("P") || key == name("Pg")
}

/// Whether two objects are the same but for the structure of an element: two
/// dictionaries hold the same under every other key, and what is no
/// dictionary is the same.
pub open spec fn same_but_structure(a: Value, b: Value) -> bool {
    match (a, b) {
        (Value::Dictionary(x), Value::Dictionary(y)) => forall|key: Seq<u8>|
            !structure_key(key) ==> x.contains_key(key) == y.contains_key(key) && (x.contains_key(key)
                ==> x[key] == y[key]),
        _ => a == b,
    }
}

/// Whether two objects hold the same children.
pub open spec fn same_kids(a: Value, b: Value) -> bool {
    match (a, b) {
        (Value::Dictionary(x), Value::Dictionary(y)) => x.contains_key(name("K")) == y.contains_key(
            name("K"),
        ) && (x.contains_key(name("K")) ==> x[name("K")] == y[name("K")]),
        _ => true,
    }
}

/// Whether two documents are of one shape.
pub open spec fn same_shape(a: Map<ObjectId, Value>, b: Map<ObjectId, Value>) -> bool {
    &&& forall|id: ObjectId| a.contains_key(id) == b.contains_key(id)
    &&& forall|id: ObjectId| a.contains_key(id) ==> same_but_structure(#[trigger] a[id], b[id])
}

/// Whether two documents are of one shape and their elements hold the same
/// children, but for the element under `except`.
pub open spec fn same_kids_but(a: Map<ObjectId, Value>, b: Map<ObjectId, Value>, except: Option<ObjectId>) -> bool {
    &&& same_shape(a, b)
    &&& forall|id: ObjectId|
        a.contains_key(id) && Some(id) != except ==> same_kids(#[trigger] a[id], b[id])
}

/// Being of one shape carries over.
pub proof fn lemma_shape_carries(a: Map<ObjectId, Value>, b: Map<ObjectId, Value>, c: Map<ObjectId, Value>)
    requires
        same_shape(a, b),
        same_shape(b, c),
    ensures
        same_shape(a, c),
{
    assert forall|id: ObjectId| a.contains_key(id) implies same_but_structure(#[trigger] a[id], c[id]) by {
        assert(same_but_structure(a[id], b[id]));
        assert(b.contains_key(id));
        assert(same_but_structure(b[id], c[id]));
    }
}

/// Holding the same children carries over.
pub proof fn lemma_kids_carry(
    a: Map<ObjectId, Value>,
    b: Map<ObjectId, Value>,
    c: Map<ObjectId, Value>,
    except: Option<ObjectId>,
)
    requires
        same_kids_but(a, b, except),
        same_kids_but(b, c, except),
    ensures
        same_kids_but(a, c, except),
{
    lemma_shape_carries(a, b, c);
    assert forall|id: ObjectId| a.contains_key(id) && Some(id) != except implies same_kids(
        #[trigger] a[id],
        c[id],
    ) by {
        assert(same_but_structure(a[id], b[id]));
        assert(same_kids(a[id], b[id]));
        assert(b.contains_key(id));
        assert(same_but_structure(b[id], c[id]));
        assert(same_kids(b[id], c[id]));
    }
}

/// In documents of one shape every chain of references ends at the same
/// place.
pub proof fn lemma_shape_dereference(
    a: Map<ObjectId, Value>,
    b: Map<ObjectId, Value>,
    id: ObjectId,
    steps: nat,
)
    requires
        same_shape(a, b),
        steps <= DEREF_LIMIT,
        a.contains_key(id),
    ensures
        match dereference_from(a, Some(id), a[id], steps) {
            Ok((at, v)) => at matches Some(p) && a.contains_key(p) && v == a[p] && dereference_from(
                b,
                Some(id),
                b[id],
                steps,
            ) == Ok::<(Option<ObjectId>, Value), PdfError>((at, b[p])),
            Err(e) => dereference_from(b, Some(id), b[id], steps) == Err::<
                (Option<ObjectId>, Value),
                PdfError,
            >(e),
        },
    decreases DEREF_LIMIT + 1 - steps,
{
    assert(same_but_structure(a[id], b[id]));
    if let Value::Reference(n) = a[id] {
        assert(a.contains_key(n) == b.contains_key(n));
        if a.contains_key(n) && steps < DEREF_LIMIT {
            lemma_shape_dereference(a, b, n, steps + 1);
        }
    }
}

/// In documents of one shape every id is read at the same place, and what is
/// read is what stands there.
pub proof fn lemma_shape_reads(a: Map<ObjectId, Value>, b: Map<ObjectId, Value>, id: ObjectId)
    requires
        same_shape(a, b),
    ensures
        resolve_id(b, id) == resolve_id(a, id),
        match resolve_id(a, id) {
            Ok(at) => a.contains_key(at) && get_object(a, id) == Ok::<Value, PdfError>(a[at])
                && get_object(b, id) == Ok::<Value, PdfError>(b[at]) && same_but_structure(a[at], b[at]),
            Err(e) => get_object(a, id) == Err::<Value, PdfError>(e) && get_object(b, id) == Err::<
                Value,
                PdfError,
            >(e),
        },
{
    assert(a.contains_key(id) == b.contains_key(id));
    lemma_resolve(a, id);
    lemma_resolve(b, id);
    if a.contains_key(id) {
        assert(same_but_structure(a[id], b[id]));
        if let Value::Reference(n) = a[id] {
            assert(a.contains_key(n) == b.contains_key(n));
            if a.contains_key(n) {
                lemma_shape_dereference(a, b, n, 1);
            }
        }
        if let Ok(at) = resolve_id(a, id) {
            assert(same_but_structure(a[at], b[at]));
        }
    }
}

/// In documents of one shape the elements have the same roles, and the same
/// children are object references.
pub proof fn lemma_shape_roles(a: Map<ObjectId, Value>, b: Map<ObjectId, Value>, id: ObjectId)
    requires
        same_shape(a, b),
    ensures
        node_role(b, id) == node_role(a, id),
        is_nonstruct_node(b, id) == is_nonstruct_node(a, id),
        get_dictionary(b, id) is Ok == get_dictionary(a, id) is Ok,
        is_objr_child(b, Value::Reference(id)) == is_objr_child(a, Value::Reference(id)),
{
    lemma_shape_reads(a, b, id);
    lemma_structure_keys_differ();
    if let Ok(at) = resolve_id(a, id) {
        assert(same_but_structure(a[at], b[at]));
        if let (Value::Dictionary(x), Value::Dictionary(y)) = (a[at], b[at]) {
            assert(!structure_key(name("S")));
            assert(!structure_key(name("Type")));
        }
    }
}

/// Whether a child is an object reference does not depend on which of two
/// documents of one shape it is asked of.
pub proof fn lemma_shape_objr(a: Map<ObjectId, Value>, b: Map<ObjectId, Value>, kid: Value)
    requires
        same_shape(a, b),
    ensures
        is_objr_child(b, kid) == is_objr_child(a, kid),
{
    if let Value::Reference(id) = kid {
        lemma_shape_roles(a, b, id);
    }
}

/// Giving an element a parent, or a page, keeps the shape of the document
/// and the children of every element.
pub proof fn lemma_parent_and_page_keep_kids(
    objects: Map<ObjectId, Value>,
    node: ObjectId,
    parent: ObjectId,
    pg: Option<Value>,
)
    ensures
        same_kids_but(objects, with_parent(objects, node, parent), None),
        same_kids_but(objects, with_page(objects, node, pg), None),
{
    lemma_resolve(objects, node);
    lemma_structure_keys_differ();
    let a = with_parent(objects, node, parent);
    assert forall|id: ObjectId| objects.contains_key(id) implies same_but_structure(
        #[trigger] objects[id],
        a[id],
    ) && same_kids(objects[id], a[id]) by {}
    let b = with_page(objects, node, pg);
    assert forall|id: ObjectId| objects.contains_key(id) implies same_but_structure(
        #[trigger] objects[id],
        b[id],
    ) && same_kids(objects[id], b[id]) by {}
}

/// In documents whose elements hold the same children, the same children
/// are read under an id.
pub proof fn lemma_same_kids_read(a: Map<ObjectId, Value>, b: Map<ObjectId, Value>, id: ObjectId)
    requires
        same_kids_but(a, b, None),
    ensures
        get_dictionary(b, id) is Ok == get_dictionary(a, id) is Ok,
        get_dictionary(a, id) matches Ok(d) ==> kids_of(get_dictionary(b, id)->Ok_0) == kids_of(d)
            && get_dictionary(b, id)->Ok_0.contains_key(name("K")) == d.contains_key(name("K")),
{
    lemma_shape_reads(a, b, id);
    if let Ok(at) = resolve_id(a, id) {
        assert(same_but_structure(a[at], b[at]));
        assert(same_kids(a[at], b[at]));
    }
}

/// What comes up when the children of a dissolved element are gone through:
/// the document keeps its shape and the children of its elements, and the
/// new children are the old ones and, for each child of the dissolved
/// element, that child or, in the place of a marked-content id, a reference
/// to marked content.
pub proof fn lemma_surface_all(
    st: Dissolving,
    parent: ObjectId,
    pg: Option<Value>,
    gcs: Seq<Value>,
    good: spec_fn(Value) -> bool,
)
    requires
        forall|t: int| 0 <= t < st.kids.len() ==> good(#[trigger] st.kids[t]),
        forall|u: int| 0 <= u < gcs.len() ==> good(#[trigger] gcs[u]),
        forall|p: Value, i: i64| good(#[trigger] mcr(p, i)),
    ensures
        same_kids_but(st.objects, surface_all(st, parent, pg, gcs).objects, None),
        surface_all(st, parent, pg, gcs).changed == st.changed,
        surface_all(st, parent, pg, gcs).kids.len() == st.kids.len() + gcs.len(),
        forall|t: int|
            0 <= t < surface_all(st, parent, pg, gcs).kids.len() ==> good(
                #[trigger] surface_all(st, parent, pg, gcs).kids[t],
            ),
    decreases gcs.len(),
{
    if gcs.len() == 0 {
        assert forall|id: ObjectId| st.objects.contains_key(id) implies same_but_structure(
            #[trigger] st.objects[id],
            st.objects[id],
        ) && same_kids(st.objects[id], st.objects[id]) by {}
    } else {
        let rest = gcs.drop_last();
        assert forall|u: int| 0 <= u < rest.len() implies good(#[trigger] rest[u]) by {
            assert(rest[u] == gcs[u]);
        }
        lemma_surface_all(st, parent, pg, rest, good);
        let before = surface_all(st, parent, pg, rest);
        let after = surface_one(before, parent, pg, gcs.last());
        assert(good(gcs[gcs.len() - 1]));
        match gcs.last() {
            Value::Reference(g) => {
                let one = with_parent(before.objects, g, parent);
                lemma_parent_and_page_keep_kids(before.objects, g, parent, pg);
                lemma_parent_and_page_keep_kids(one, g, parent, pg);
                lemma_kids_carry(before.objects, one, after.objects, None);
                lemma_kids_carry(st.objects, before.objects, after.objects, None);
            },
            _ => {},
        }
        assert forall|t: int| 0 <= t < after.kids.len() implies good(#[trigger] after.kids[t]) by {
            if t < before.kids.len() {
                assert(after.kids[t] == before.kids[t]);
            }
        }
    }
}

/// Whether what is read under a child that refers to a `NonStruct` element
/// holds only children that are good.
pub open spec fn dissolved_kids_good(objects: Map<ObjectId, Value>, kid: Value, good: spec_fn(Value) -> bool) -> bool {
    match kid {
        Value::Reference(c) => is_nonstruct_node(objects, c) ==> (get_dictionary(
            objects,
            c,
        ) matches Ok(d) ==> forall|u: int| 0 <= u < kids_of(d).len() ==> good(#[trigger] kids_of(d)[u])),
        _ => true,
    }
}

/// Whether a child stays where the children of an element are dissolved: it
/// refers to no `NonStruct` element.
pub open spec fn stays(objects: Map<ObjectId, Value>, kid: Value) -> bool {
    match kid {
        Value::Reference(c) => !is_nonstruct_node(objects, c),
        _ => true,
    }
}

/// What comes of going through the children of an element: the document
/// keeps its shape and the children of its elements, and the new children
/// are good where the old ones are, the children that stay are, and those of
/// the dissolved elements are.
pub proof fn lemma_dissolve_all(
    st: Dissolving,
    parent: ObjectId,
    kids: Seq<Value>,
    good: spec_fn(Value) -> bool,
)
    requires
        forall|t: int| 0 <= t < st.kids.len() ==> good(#[trigger] st.kids[t]),
        forall|t: int| 0 <= t < kids.len() && stays(st.objects, #[trigger] kids[t]) ==> good(kids[t]),
        forall|t: int| 0 <= t < kids.len() ==> dissolved_kids_good(st.objects, #[trigger] kids[t], good),
        forall|p: Value, i: i64| good(#[trigger] mcr(p, i)),
    ensures
        same_kids_but(st.objects, dissolve_all(st, parent, kids).objects, None),
        forall|t: int|
            0 <= t < dissolve_all(st, parent, kids).kids.len() ==> good(
                #[trigger] dissolve_all(st, parent, kids).kids[t],
            ),
        !dissolve_all(st, parent, kids).changed ==> forall|t: int|
            0 <= t < kids.len() ==> stays(st.objects, #[trigger] kids[t]),
    decreases kids.len(),
{
    if kids.len() == 0 {
        assert forall|id: ObjectId| st.objects.contains_key(id) implies same_but_structure(
            #[trigger] st.objects[id],
            st.objects[id],
        ) && same_kids(st.objects[id], st.objects[id]) by {}
    } else {
        let rest = kids.drop_last();
        assert forall|t: int| 0 <= t < rest.len() implies (stays(st.objects, #[trigger] rest[t]) ==> good(
            rest[t],
        )) && dissolved_kids_good(st.objects, rest[t], good) by {
            assert(rest[t] == kids[t]);
        }
        lemma_dissolve_all(st, parent, rest, good);
        let before = dissolve_all(st, parent, rest);
        let after = dissolve_one(before, parent, kids.last());
        let last = kids[kids.len() - 1];
        assert(dissolved_kids_good(st.objects, last, good));
        assert(stays(st.objects, last) ==> good(last));
        if !after.changed {
            assert forall|t: int| 0 <= t < kids.len() implies stays(st.objects, #[trigger] kids[t]) by {
                if t < rest.len() {
                    assert(rest[t] == kids[t]);
                } else if let Value::Reference(c) = last {
                    lemma_shape_roles(st.objects, before.objects, c);
                    lemma_shape_reads(st.objects, before.objects, c);
                }
            }
        }
        match last {
            Value::Reference(c) => {
                lemma_shape_roles(st.objects, before.objects, c);
                lemma_same_kids_read(st.objects, before.objects, c);
                match get_dictionary(before.objects, c) {
                    Ok(kd) => {
                        if is_nonstruct_node(before.objects, c) {
                            let pg = if kd.contains_key(name("Pg")) {
                                Some(kd[name("Pg")])
                            } else {
                                None
                            };
                            lemma_surface_all(before, parent, pg, kids_of(kd), good);
                            lemma_kids_carry(
                                st.objects,
                                before.objects,
                                surface_all(before, parent, pg, kids_of(kd)).objects,
                                None,
                            );
                        } else {
                            assert forall|t: int| 0 <= t < after.kids.len() implies good(
                                #[trigger] after.kids[t],
                            ) by {
                                if t < before.kids.len() {
                                    assert(after.kids[t] == before.kids[t]);
                                }
                            }
                        }
                    },
                    Err(_) => {
                        assert forall|t: int| 0 <= t < after.kids.len() implies good(
                            #[trigger] after.kids[t],
                        ) by {
                            if t < before.kids.len() {
                                assert(after.kids[t] == before.kids[t]);
                            }
                        }
                    },
                }
            },
            _ => {
                assert forall|t: int| 0 <= t < after.kids.len() implies good(#[trigger] after.kids[t]) by {
                    if t < before.kids.len() {
                        assert(after.kids[t] == before.kids[t]);
                    }
                }
            },
        }
    }
}

} // verus!
