//! Sanitizing settles a structure tree: in a tree in which every child comes
//! after its parent in the walk, one run leaves nothing to do for a second.

use crate::bytes::{lemma_structure_keys_differ, name};
use crate::clean::{
    clean, clean_node, lemma_kids_of_with_kids, lemma_sanitize_clean, lemma_without_objr,
    nothing_to_dissolve,
};
use crate::dissolve::{dissolve_all, dissolve_node, Dissolving, lemma_unchanged, with_kids};
use crate::document::{DocumentValue, get_dictionary, get_object, resolve_id};
use crate::frame::lemma_resolve;
use crate::helpers::{
    is_nonstruct_node, is_objr_child, kids_of, node_role, role_of, struct_tree_root,
};
use crate::object::{ObjectId, PdfError, Value};
use crate::sanitize::{link_with_text, sanitize, sanitize_node, without_objr};
use crate::shape::{
    dissolved_kids_good, lemma_dissolve_all, lemma_kids_carry, lemma_shape_objr, lemma_shape_reads,
    lemma_shape_roles, same_but_structure, same_kids, same_kids_but, same_shape, stays,
};
use crate::text::{has_text, has_text_within, is_objr_dict, kid_has_text};
use crate::walker::{child_refs, lemma_refs_in, lemma_walk_from, walk};
use vstd::prelude::*;

verus! {

/// Whether a child refers to an element that comes after place `i` in the
/// walk, if it refers to an object of the document at all.
pub open spec fn comes_after(objects: Map<ObjectId, Value>, walk: Seq<ObjectId>, i: int, kid: Value) -> bool {
    match kid {
        Value::Reference(c) => objects.contains_key(c) ==> exists|k: int|
            i < k < walk.len() && #[trigger] walk[k] == c,
        _ => true,
    }
}

/// Whether a child is as the children of a settled element are: no array, no
/// reference to a `NonStruct` element, and if a reference, then to an element
/// that comes after place `i` in the walk.
pub open spec fn settled_kid(objects: Map<ObjectId, Value>, walk: Seq<ObjectId>, i: int, kid: Value) -> bool {
    !(kid is Array) && stays(objects, kid) && comes_after(objects, walk, i, kid)
}

/// Whether the children of the element at place `i` of the walk are as the
/// children of a settled element are.
pub open spec fn settled_kids(objects: Map<ObjectId, Value>, walk: Seq<ObjectId>, i: int) -> bool {
    &&& objects.contains_key(walk[i])
    &&& objects[walk[i]] is Dictionary
    &&& forall|t: int|
        0 <= t < kids_of(objects[walk[i]]->Dictionary_0).len() ==> settled_kid(
            objects,
            walk,
            i,
            #[trigger] kids_of(objects[walk[i]]->Dictionary_0)[t],
        )
}

/// Whether an element holds text does not change where the elements that
/// come after place `i` in the walk keep their children: the search for text
/// below an element that comes after `i` meets only elements that come after
/// it.
pub proof fn lemma_text_stays(
    a: Map<ObjectId, Value>,
    b: Map<ObjectId, Value>,
    walk: Seq<ObjectId>,
    i: int,
    kid: Value,
    depth: nat,
)
    requires
        walk.no_duplicates(),
        0 <= i < walk.len(),
        same_kids_but(a, b, Some(walk[i])),
        forall|k: int| i < k < walk.len() ==> settled_kids(a, walk, k),
        comes_after(a, walk, i, kid),
    ensures
        kid_has_text(b, kid, depth) == kid_has_text(a, kid, depth),
    decreases depth,
{
    if let Value::Reference(c) = kid {
        lemma_shape_reads(a, b, c);
        lemma_resolve(a, c);
        if !a.contains_key(c) {
            return ;
        }
        let k = choose|k: int| i < k < walk.len() && #[trigger] walk[k] == c;
        assert(settled_kids(a, walk, k));
        assert(walk[k] != walk[i]);
        lemma_resolve(a, c);
        lemma_shape_reads(a, b, c);
        assert(same_but_structure(a[c], b[c]));
        assert(same_kids(a[c], b[c]));
        let da = a[c]->Dictionary_0;
        let db = b[c]->Dictionary_0;
        assert(get_dictionary(a, c) == Ok::<Map<Seq<u8>, Value>, PdfError>(da));
        assert(get_dictionary(b, c) == Ok::<Map<Seq<u8>, Value>, PdfError>(db));
        assert(kids_of(da) == kids_of(db));
        lemma_structure_keys_differ();
        assert(!crate::shape::structure_key(name("Type")));
        assert(is_objr_dict(da) == is_objr_dict(db));
        if depth > 0 && da.contains_key(name("K")) {
            let kids = kids_of(da);
            assert forall|t: int| 0 <= t < kids.len() implies kid_has_text(
                b,
                #[trigger] kids[t],
                (depth - 1) as nat,
            ) == kid_has_text(a, kids[t], (depth - 1) as nat) by {
                assert(settled_kid(a, walk, k, kids[t]));
                lemma_comes_after_earlier(a, walk, i, k, kids[t]);
                lemma_text_stays(a, b, walk, i, kids[t], (depth - 1) as nat);
            }
            assert(has_text_within(a, da, (depth - 1) as nat) == has_text_within(
                b,
                db,
                (depth - 1) as nat,
            ));
        }
    }
}

/// Whether an element holds text does not change where its children stay
/// and the elements that come after place `i` in the walk keep theirs.
pub proof fn lemma_text_of_element_stays(
    a: Map<ObjectId, Value>,
    b: Map<ObjectId, Value>,
    walk: Seq<ObjectId>,
    i: int,
    da: Map<Seq<u8>, Value>,
    db: Map<Seq<u8>, Value>,
)
    requires
        walk.no_duplicates(),
        0 <= i < walk.len(),
        same_kids_but(a, b, Some(walk[i])),
        forall|k: int| i < k < walk.len() ==> settled_kids(a, walk, k),
        kids_of(da) == kids_of(db),
        forall|t: int| 0 <= t < kids_of(da).len() ==> comes_after(a, walk, i, #[trigger] kids_of(da)[t]),
    ensures
        has_text(b, db) == has_text(a, da),
{
    assert(a.dom() =~= b.dom());
    let depth = a.dom().len();
    let kids = kids_of(da);
    assert forall|t: int| 0 <= t < kids.len() implies kid_has_text(b, #[trigger] kids[t], depth)
        == kid_has_text(a, kids[t], depth) by {
        lemma_text_stays(a, b, walk, i, kids[t], depth);
    }
}

/// Whether the element at place `i` of the walk is settled: its children are
/// as the children of a settled element are, and sanitizing has nothing to do
/// at it.
pub open spec fn settled(objects: Map<ObjectId, Value>, walk: Seq<ObjectId>, i: int) -> bool {
    settled_kids(objects, walk, i) && clean_node(objects, walk[i])
}

/// A child that comes after a place in the walk comes after every earlier
/// place.
proof fn lemma_comes_after_earlier(objects: Map<ObjectId, Value>, walk: Seq<ObjectId>, i: int, k: int, kid: Value)
    requires
        i <= k,
        comes_after(objects, walk, k, kid),
    ensures
        comes_after(objects, walk, i, kid),
{
    if let Value::Reference(c) = kid {
        if objects.contains_key(c) {
            let k2 = choose|k2: int| k < k2 < walk.len() && #[trigger] walk[k2] == c;
            assert(i < k2 < walk.len() && walk[k2] == c);
        }
    }
}

/// Whether a child stays does not depend on which of two documents of one
/// shape it is asked of.
proof fn lemma_stays_in_shape(a: Map<ObjectId, Value>, b: Map<ObjectId, Value>, kid: Value)
    requires
        same_shape(a, b),
    ensures
        stays(b, kid) == stays(a, kid),
{
    if let Value::Reference(c) = kid {
        lemma_shape_roles(a, b, c);
    }
}

/// Sanitizing the element at place `i` of the walk settles it, where the
/// elements after it are settled and its own children are no arrays and come
/// after it; and it keeps the shape of the document and the children of all
/// other elements.
pub proof fn lemma_sanitize_node_settles(objects: Map<ObjectId, Value>, walk: Seq<ObjectId>, i: int)
    requires
        walk.no_duplicates(),
        0 <= i < walk.len(),
        objects.contains_key(walk[i]),
        objects[walk[i]] is Dictionary,
        forall|t: int|
            0 <= t < kids_of(objects[walk[i]]->Dictionary_0).len() ==> !((
            #[trigger] kids_of(objects[walk[i]]->Dictionary_0)[t]) is Array) && comes_after(
                objects,
                walk,
                i,
                kids_of(objects[walk[i]]->Dictionary_0)[t],
            ),
        forall|k: int| i < k < walk.len() ==> settled_kids(objects, walk, k),
    ensures
        same_kids_but(objects, sanitize_node(objects, walk[i]), Some(walk[i])),
        settled(sanitize_node(objects, walk[i]), walk, i),
{
    let m = walk[i];
    let d = objects[m]->Dictionary_0;
    let kids = kids_of(d);
    lemma_resolve(objects, m);
    lemma_structure_keys_differ();
    assert(get_object(objects, m) == Ok::<Value, PdfError>(Value::Dictionary(d)));
    let good = |v: Value| !(v is Array) && stays(objects, v) && comes_after(objects, walk, i, v);
    let start = Dissolving { objects, kids: Seq::empty(), changed: false };
    assert forall|t: int| 0 <= t < kids.len() implies dissolved_kids_good(
        objects,
        #[trigger] kids[t],
        good,
    ) by {
        if let Value::Reference(c) = kids[t] {
            assert(comes_after(objects, walk, i, kids[t]));
            lemma_resolve(objects, c);
            if objects.contains_key(c) {
                let k = choose|k: int| i < k < walk.len() && #[trigger] walk[k] == c;
                assert(settled_kids(objects, walk, k));
                let dc = objects[c]->Dictionary_0;
                assert forall|u: int| 0 <= u < kids_of(dc).len() implies good(
                    #[trigger] kids_of(dc)[u],
                ) by {
                    assert(settled_kid(objects, walk, k, kids_of(dc)[u]));
                    lemma_comes_after_earlier(objects, walk, i, k, kids_of(dc)[u]);
                }
            }
        }
    }
    lemma_dissolve_all(start, m, kids, good);
    lemma_unchanged(start, m, kids);
    let res = dissolve_all(start, m, kids);
    let dissolved = dissolve_node(objects, m);
    // The document after the children were dissolved.
    let dd = if d.contains_key(name("K")) && res.changed {
        with_kids(d, res.kids)
    } else {
        d
    };
    assert(dissolved.contains_key(m) && dissolved[m] == Value::Dictionary(dd));
    assert(same_kids_but(objects, dissolved, Some(m))) by {
        assert forall|id: ObjectId| objects.contains_key(id) implies same_but_structure(
            #[trigger] objects[id],
            dissolved[id],
        ) && (id != m ==> same_kids(objects[id], dissolved[id])) by {
            assert(same_but_structure(objects[id], res.objects[id]));
            assert(same_kids(objects[id], res.objects[id]));
        }
    }
    assert forall|t: int| 0 <= t < res.kids.len() implies !((#[trigger] res.kids[t]) is Array) by {
        assert(good(res.kids[t]));
    }
    if d.contains_key(name("K")) && res.changed {
        lemma_kids_of_with_kids(d, res.kids);
    }
    let dkids = kids_of(dd);
    assert forall|t: int| 0 <= t < dkids.len() implies good(#[trigger] dkids[t]) by {
        if d.contains_key(name("K")) && res.changed {
            assert(good(res.kids[t]));
        } else {
            if d.contains_key(name("K")) {
                assert(stays(objects, kids[t]));
            }
        }
    }
    // The rule for links.
    let after = sanitize_node(objects, m);
    lemma_resolve(dissolved, m);
    assert(get_dictionary(dissolved, m) == Ok::<Map<Seq<u8>, Value>, PdfError>(dd));
    assert(role_of(dd) == role_of(d));
    let kept = without_objr(dissolved, dkids);
    lemma_without_objr(dissolved, dkids);
    let removes = node_role(objects, m) == Some(name("Link")) && link_with_text(dissolved, dd)
        && dd.contains_key(name("K")) && kept.len() < dkids.len();
    let da = if removes {
        with_kids(dd, kept)
    } else {
        dd
    };
    assert(after.contains_key(m) && after[m] == Value::Dictionary(da));
    assert(same_kids_but(dissolved, after, Some(m))) by {
        assert forall|id: ObjectId| dissolved.contains_key(id) implies same_but_structure(
            #[trigger] dissolved[id],
            after[id],
        ) && (id != m ==> same_kids(dissolved[id], after[id])) by {}
    }
    lemma_kids_carry(objects, dissolved, after, Some(m));
    if removes {
        assert forall|t: int| 0 <= t < kept.len() implies !((#[trigger] kept[t]) is Array) by {
            let u = choose|u: int| 0 <= u < dkids.len() && dkids[u] == kept[t];
            assert(good(dkids[u]));
        }
        lemma_kids_of_with_kids(dd, kept);
    }
    let akids = kids_of(da);
    assert forall|t: int| 0 <= t < akids.len() implies good(#[trigger] akids[t]) && (removes
        ==> !is_objr_child(dissolved, akids[t])) by {
        if removes {
            let u = choose|u: int| 0 <= u < dkids.len() && dkids[u] == kept[t];
            assert(good(dkids[u]));
        }
    }
    assert forall|t: int| 0 <= t < akids.len() implies settled_kid(after, walk, i, #[trigger] akids[t]) by {
        assert(good(akids[t]));
        lemma_stays_in_shape(objects, after, akids[t]);
        if let Value::Reference(c) = akids[t] {
            assert(objects.contains_key(c) == after.contains_key(c));
        }
    }
    lemma_resolve(after, m);
    assert(get_dictionary(after, m) == Ok::<Map<Seq<u8>, Value>, PdfError>(da));
    assert(nothing_to_dissolve(after, akids)) by {
        assert forall|t: int| 0 <= t < akids.len() implies !((
        #[trigger] akids[t]) matches Value::Reference(id) && is_nonstruct_node(after, id)) by {
            assert(settled_kid(after, walk, i, akids[t]));
        }
    }
    if link_with_text(after, da) {
        assert(role_of(da) == role_of(d));
        assert(node_role(objects, m) == role_of(d));
        // Whether the element holds text did not change with the removal.
        assert forall|t: int| 0 <= t < akids.len() implies !is_objr_child(after, #[trigger] akids[t]) by {
            lemma_shape_objr(dissolved, after, akids[t]);
            if removes {
            } else {
                // Nothing was removed: either the element held no text, or none
                // of its children was an object reference.
                assert(after == dissolved);
                assert(da == dd);
                if dd.contains_key(name("K")) {
                    assert(kept.len() == dkids.len());
                    assert(kept == dkids);
                    assert(!is_objr_child(dissolved, kept[t]));
                } else {
                    assert(dkids.len() == 0);
                }
            }
        }
    }
}

/// An element that is settled stays so when an element before it in the
/// walk is sanitized.
pub proof fn lemma_settled_stays(
    a: Map<ObjectId, Value>,
    b: Map<ObjectId, Value>,
    walk: Seq<ObjectId>,
    i: int,
    k: int,
)
    requires
        walk.no_duplicates(),
        0 <= i < k < walk.len(),
        same_kids_but(a, b, Some(walk[i])),
        forall|n: int| i < n < walk.len() ==> settled(a, walk, n),
    ensures
        settled(b, walk, k),
{
    let id = walk[k];
    assert(settled(a, walk, k));
    assert(walk[k] != walk[i]);
    assert(same_but_structure(a[id], b[id]));
    assert(same_kids(a[id], b[id]));
    lemma_structure_keys_differ();
    let da = a[id]->Dictionary_0;
    let db = b[id]->Dictionary_0;
    let kids = kids_of(da);
    assert(kids_of(db) == kids);
    lemma_resolve(a, id);
    lemma_resolve(b, id);
    assert forall|t: int| 0 <= t < kids.len() implies settled_kid(b, walk, k, #[trigger] kids[t])
        && comes_after(a, walk, i, kids[t]) && is_objr_child(b, kids[t]) == is_objr_child(a, kids[t]) by {
        assert(settled_kid(a, walk, k, kids[t]));
        lemma_stays_in_shape(a, b, kids[t]);
        lemma_shape_objr(a, b, kids[t]);
        lemma_comes_after_earlier(a, walk, i, k, kids[t]);
        if let Value::Reference(c) = kids[t] {
            assert(a.contains_key(c) == b.contains_key(c));
        }
    }
    assert forall|n: int| i < n < walk.len() implies settled_kids(a, walk, n) by {
        assert(settled(a, walk, n));
    }
    lemma_text_of_element_stays(a, b, walk, i, da, db);
    assert(!crate::shape::structure_key(name("S")));
    assert(da.contains_key(name("S")) == db.contains_key(name("S")));
    assert(role_of(da) == role_of(db));
    assert(nothing_to_dissolve(b, kids)) by {
        assert forall|t: int| 0 <= t < kids.len() implies !((
        #[trigger] kids[t]) matches Value::Reference(c) && is_nonstruct_node(b, c)) by {
            assert(settled_kid(b, walk, k, kids[t]));
        }
    }
    if link_with_text(b, db) {
        assert(link_with_text(a, da));
        assert forall|t: int| 0 <= t < kids.len() implies !is_objr_child(b, #[trigger] kids[t]) by {
            assert(!is_objr_child(a, kids[t]));
        }
    }
}

/// Whether the walk goes through a tree: every element of it stands under
/// its id as a dictionary, none of its children is an array, and every child
/// that refers to an object of the document refers to an element that comes
/// later in the walk.
pub open spec fn walks_tree(objects: Map<ObjectId, Value>, walk: Seq<ObjectId>) -> bool {
    forall|i: int|
        0 <= i < walk.len() ==> objects.contains_key(#[trigger] walk[i]) && objects[walk[i]] is Dictionary
            && forall|t: int|
            0 <= t < kids_of(objects[walk[i]]->Dictionary_0).len() ==> !((
            #[trigger] kids_of(objects[walk[i]]->Dictionary_0)[t]) is Array) && comes_after(
                objects,
                walk,
                i,
                kids_of(objects[walk[i]]->Dictionary_0)[t],
            )
}

/// Whether an id is none of the elements of the walk from place `from` on.
pub open spec fn not_yet(walk: Seq<ObjectId>, from: int, id: ObjectId) -> bool {
    forall|k: int| from <= k < walk.len() ==> #[trigger] walk[k] != id
}

/// After the last `j` elements of the walk were sanitized, the last first,
/// these are settled, and the others hold the children that they held.
pub proof fn lemma_sanitize_nodes_settle(objects: Map<ObjectId, Value>, walk: Seq<ObjectId>, j: int)
    requires
        walk.no_duplicates(),
        walks_tree(objects, walk),
        0 <= j <= walk.len(),
    ensures
        same_shape(objects, crate::sanitize::sanitize_nodes(objects, walk.reverse().take(j))),
        forall|id: ObjectId|
            objects.contains_key(id) && not_yet(walk, walk.len() - j, id) ==> same_kids(
                #[trigger] objects[id],
                crate::sanitize::sanitize_nodes(objects, walk.reverse().take(j))[id],
            ),
        forall|k: int|
            walk.len() - j <= k < walk.len() ==> settled(
                crate::sanitize::sanitize_nodes(objects, walk.reverse().take(j)),
                walk,
                k,
            ),
    decreases j,
{
    let order = walk.reverse();
    if j == 0 {
        assert(order.take(0) =~= Seq::<ObjectId>::empty());
        assert forall|id: ObjectId| objects.contains_key(id) implies same_but_structure(
            #[trigger] objects[id],
            objects[id],
        ) && same_kids(objects[id], objects[id]) by {}
    } else {
        lemma_sanitize_nodes_settle(objects, walk, j - 1);
        let before = crate::sanitize::sanitize_nodes(objects, order.take(j - 1));
        assert(order.take(j).drop_last() =~= order.take(j - 1));
        let i = walk.len() - j;
        let m = walk[i];
        assert(order.take(j).last() == m);
        let after = sanitize_node(before, m);
        assert(crate::sanitize::sanitize_nodes(objects, order.take(j)) == after);
        // The element holds the children that it held at the start.
        assert(not_yet(walk, i + 1, m)) by {
            assert forall|k: int| i + 1 <= k < walk.len() implies #[trigger] walk[k] != m by {
                assert(walk[k] != walk[i]);
            }
        }
        assert(objects.contains_key(m));
        assert(same_but_structure(objects[m], before[m]));
        assert(same_kids(objects[m], before[m]));
        let d0 = objects[m]->Dictionary_0;
        let d = before[m]->Dictionary_0;
        assert(kids_of(d) == kids_of(d0));
        assert forall|t: int| 0 <= t < kids_of(d).len() implies !((#[trigger] kids_of(d)[t]) is Array)
            && comes_after(before, walk, i, kids_of(d)[t]) by {
            assert(!(kids_of(d0)[t] is Array) && comes_after(objects, walk, i, kids_of(d0)[t]));
            if let Value::Reference(c) = kids_of(d)[t] {
                assert(objects.contains_key(c) == before.contains_key(c));
            }
        }
        assert forall|k: int| i < k < walk.len() implies settled_kids(before, walk, k) by {
            assert(settled(before, walk, k));
        }
        lemma_sanitize_node_settles(before, walk, i);
        crate::shape::lemma_shape_carries(objects, before, after);
        assert forall|k: int| walk.len() - j <= k < walk.len() implies settled(after, walk, k) by {
            if k > i {
                lemma_settled_stays(before, after, walk, i, k);
            }
        }
        assert forall|id: ObjectId| objects.contains_key(id) && not_yet(walk, i, id) implies same_kids(
            #[trigger] objects[id],
            after[id],
        ) by {
            assert(walk[i] != id);
            assert(not_yet(walk, i + 1, id));
            assert(same_kids(objects[id], before[id]));
            assert(before.contains_key(id));
            assert(same_kids(before[id], after[id]));
            assert(same_but_structure(objects[id], before[id]));
            assert(same_but_structure(before[id], after[id]));
        }
    }
}

/// Whether the structure tree of a document is a tree that the walk goes
/// through from the root down: every element that is reached stands under
/// its id as a dictionary, none of its children is an array, and the
/// children refer to elements that come later in the walk. This leaves out
/// an element that is the child of two, of which one is met before it and
/// one after it.
pub open spec fn tree_shaped(doc: DocumentValue) -> bool {
    match struct_tree_root(doc) {
        Some(root) => walks_tree(doc.objects, walk(doc.objects, root)),
        None => true,
    }
}

/// Sanitizing a document whose structure tree is a tree settles it: nothing
/// is left to do in the sanitized document, and sanitizing it a second time
/// gives the same as sanitizing it once.
pub proof fn lemma_sanitize_settles(doc: DocumentValue)
    requires
        tree_shaped(doc),
    ensures
        clean(sanitize(doc)),
        sanitize(sanitize(doc)) == sanitize(doc),
{
    match struct_tree_root(doc) {
        None => {
            lemma_sanitize_clean(doc);
        },
        Some(root) => {
            let objects = doc.objects;
            let nodes = walk(objects, root);
            let all = |id: ObjectId| true;
            if objects.contains_key(root) {
                assert(seq![root].no_duplicates());
                lemma_walk_from(objects, seq![root], 0, objects.dom().len(), all);
            }
            assert(nodes.no_duplicates());
            lemma_sanitize_nodes_settle(objects, nodes, nodes.len() as int);
            assert(nodes.reverse().take(nodes.len() as int) =~= nodes.reverse());
            let after = sanitize(doc);
            let settled_objects = after.objects;
            assert(same_shape(objects, settled_objects));
            // The sanitized document has the same root.
            lemma_structure_keys_differ();
            assert(struct_tree_root(after) == Some(root)) by {
                match doc.catalog_id() {
                    Ok(id) => {
                        lemma_shape_reads(objects, settled_objects, id);
                        if let Ok(at) = resolve_id(objects, id) {
                            assert(same_but_structure(objects[at], settled_objects[at]));
                            assert(!crate::shape::structure_key(name("StructTreeRoot")));
                        }
                    },
                    Err(_) => {},
                }
            }
            // Its walk meets only elements of the first walk.
            let inside = |id: ObjectId| nodes.contains(id);
            assert forall|n: ObjectId, t: int|
                inside(n) && 0 <= t < child_refs(settled_objects, n).len()
                    && settled_objects.contains_key(
                    #[trigger] child_refs(settled_objects, n)[t],
                ) implies inside(child_refs(settled_objects, n)[t]) by {
                let k = choose|k: int| 0 <= k < nodes.len() && nodes[k] == n;
                assert(settled(settled_objects, nodes, k));
                lemma_resolve(settled_objects, n);
                let d = settled_objects[n]->Dictionary_0;
                let c = child_refs(settled_objects, n)[t];
                lemma_refs_in(kids_of(d), t);
                let u = choose|u: int| 0 <= u < kids_of(d).len() && kids_of(d)[u] == Value::Reference(c);
                assert(settled_kid(settled_objects, nodes, k, kids_of(d)[u]));
                let k2 = choose|k2: int| k < k2 < nodes.len() && #[trigger] nodes[k2] == c;
                assert(nodes[k2] == c);
            }
            let again = walk(settled_objects, root);
            if settled_objects.contains_key(root) {
                assert(objects.contains_key(root));
                assert(nodes[0] == root);
                assert(seq![root].no_duplicates());
                lemma_walk_from(settled_objects, seq![root], 0, settled_objects.dom().len(), inside);
            }
            assert forall|i: int| 0 <= i < again.len() implies clean_node(
                settled_objects,
                #[trigger] again[i],
            ) by {
                assert(inside(again[i]));
                let k = choose|k: int| 0 <= k < nodes.len() && nodes[k] == again[i];
                assert(settled(settled_objects, nodes, k));
            }
            lemma_sanitize_clean(after);
        },
    }
}

/// In a sanitized document whose structure tree was a tree, no element
/// that is reached from the root has a `NonStruct` element among its
/// children, and no `Link` that holds text has an object reference among
/// its children, written out or behind a reference.
pub proof fn lemma_sanitized_elements(doc: DocumentValue, node: ObjectId, i: int)
    requires
        tree_shaped(doc),
        struct_tree_root(sanitize(doc)) matches Some(root) && walk(sanitize(doc).objects, root).contains(
            node,
        ),
        get_dictionary(sanitize(doc).objects, node) matches Ok(d) && 0 <= i < kids_of(d).len(),
    ensures
        ({
            let objects = sanitize(doc).objects;
            let d = get_dictionary(objects, node)->Ok_0;
            &&& !(kids_of(d)[i] matches Value::Reference(c) && is_nonstruct_node(objects, c))
            &&& link_with_text(objects, d) ==> !is_objr_child(objects, kids_of(d)[i])
        }),
{
    lemma_sanitize_settles(doc);
    let after = sanitize(doc);
    let root = struct_tree_root(after)->Some_0;
    let nodes = walk(after.objects, root);
    let k = choose|k: int| 0 <= k < nodes.len() && nodes[k] == node;
    assert(clean_node(after.objects, nodes[k]));
    let d = get_dictionary(after.objects, node)->Ok_0;
    assert(nothing_to_dissolve(after.objects, kids_of(d)));
}

} // verus!
