//! What the sanitizer leaves behind: a link that holds text has no object
//! reference among its children, and a structure tree with nothing to
//! dissolve and nothing to remove stays as it is.

use crate::bytes::{lemma_kids_key_differs, name};
use crate::dissolve::{dissolve_all, dissolve_node, Dissolving, with_kids};
use crate::document::{DocumentValue, get_dictionary, get_object};
use crate::frame::{lemma_overwrite, lemma_resolve};
use crate::helpers::{is_nonstruct_node, is_objr_child, kids_of, struct_tree_root};
use crate::object::{dict_has_name, ObjectId, Value};
use crate::sanitize::{
    link_with_text, sanitize, sanitize_link, sanitize_node, sanitize_nodes, without_objr,
};
use crate::walker::walk;
use vstd::prelude::*;

verus! {

/// What is left of the children is as many as they were or fewer, none of
/// it is an object reference, and where it is as many, it is the children.
pub proof fn lemma_without_objr(objects: Map<ObjectId, Value>, kids: Seq<Value>)
    ensures
        without_objr(objects, kids).len() <= kids.len(),
        forall|i: int|
            0 <= i < without_objr(objects, kids).len() ==> !is_objr_child(
                objects,
                #[trigger] without_objr(objects, kids)[i],
            ),
        forall|i: int|
            0 <= i < without_objr(objects, kids).len() ==> kids.contains(
                #[trigger] without_objr(objects, kids)[i],
            ),
        without_objr(objects, kids).len() == kids.len() ==> without_objr(objects, kids) == kids,
        (forall|i: int| 0 <= i < kids.len() ==> !is_objr_child(objects, #[trigger] kids[i]))
            ==> without_objr(objects, kids) == kids,
    decreases kids.len(),
{
    if kids.len() > 0 {
        let rest = kids.drop_last();
        lemma_without_objr(objects, rest);
        let kept = without_objr(objects, kids);
        assert forall|i: int| 0 <= i < kept.len() implies kids.contains(#[trigger] kept[i]) by {
            if i < without_objr(objects, rest).len() {
                let j = choose|j: int| 0 <= j < rest.len() && rest[j] == without_objr(objects, rest)[i];
                assert(kids[j] == rest[j]);
            } else {
                assert(kids[kids.len() - 1] == kept[i]);
            }
        }
        if kept.len() == kids.len() {
            assert(kept =~= kids);
        }
        if forall|i: int| 0 <= i < kids.len() ==> !is_objr_child(objects, #[trigger] kids[i]) {
            assert(!is_objr_child(objects, kids[kids.len() - 1]));
            assert forall|i: int| 0 <= i < rest.len() implies !is_objr_child(objects, #[trigger] rest[i]) by {
                assert(rest[i] == kids[i]);
            }
            assert(kept =~= kids);
        }
    }
}

/// The children that a dictionary has after the given children were put
/// into it, where none of them is an array.
pub proof fn lemma_kids_of_with_kids(d: Map<Seq<u8>, Value>, kids: Seq<Value>)
    requires
        forall|i: int| 0 <= i < kids.len() ==> !((#[trigger] kids[i]) is Array),
    ensures
        kids_of(with_kids(d, kids)) == kids,
{
    if kids.len() == 1 {
        assert(!(kids[0] is Array));
        assert(seq![kids[0]] =~= kids);
    } else if kids.len() == 0 {
        assert(kids =~= Seq::<Value>::empty());
    }
}

/// After the rule for links was applied to a `Link` that holds text, none of
/// its children is an object reference. This is stated of an element that
/// stands under its id, and whose children are no arrays.
pub proof fn lemma_link_has_no_objr(objects: Map<ObjectId, Value>, node: ObjectId, d: Map<Seq<u8>, Value>)
    requires
        objects.contains_key(node),
        objects[node] == Value::Dictionary(d),
        link_with_text(objects, d),
        forall|i: int| 0 <= i < kids_of(d).len() ==> !((#[trigger] kids_of(d)[i]) is Array),
    ensures
        get_dictionary(sanitize_link(objects, node, d), node) matches Ok(after) && (forall|i: int|
            0 <= i < kids_of(after).len() ==> !is_objr_child(
                sanitize_link(objects, node, d),
                #[trigger] kids_of(after)[i],
            )),
{
    lemma_resolve(objects, node);
    lemma_kids_key_differs();
    let kids = kids_of(d);
    let kept = without_objr(objects, kids);
    lemma_without_objr(objects, kids);
    let result = sanitize_link(objects, node, d);
    if d.contains_key(name("K")) && kept.len() < kids.len() {
        let new = with_kids(d, kept);
        assert(result == objects.insert(node, Value::Dictionary(new)));
        assert forall|i: int| 0 <= i < kept.len() implies !((#[trigger] kept[i]) is Array) by {
            let j = choose|j: int| 0 <= j < kids.len() && kids[j] == kept[i];
            assert(!(kids[j] is Array));
        }
        lemma_kids_of_with_kids(d, kept);
        lemma_overwrite(objects, node, Value::Dictionary(new), node);
        assert forall|i: int| 0 <= i < kept.len() implies !is_objr_child(result, #[trigger] kept[i]) by {
            assert(!is_objr_child(objects, kept[i]));
            if let Value::Reference(id) = kept[i] {
                lemma_overwrite(objects, node, Value::Dictionary(new), id);
                lemma_resolve(objects, id);
                assert(dict_has_name(new, name("Type"), name("OBJR")) == dict_has_name(
                    d,
                    name("Type"),
                    name("OBJR"),
                ));
            }
        }
    } else {
        assert(result == objects);
        if d.contains_key(name("K")) {
            assert(kept == kids);
        } else {
            assert(kids.len() == 0);
        }
    }
}

/// Whether none of the children refers to a `NonStruct` element.
pub open spec fn nothing_to_dissolve(objects: Map<ObjectId, Value>, kids: Seq<Value>) -> bool {
    forall|i: int|
        0 <= i < kids.len() ==> !((#[trigger] kids[i]) matches Value::Reference(id) && is_nonstruct_node(
            objects,
            id,
        ))
}

/// Going through children of which none refers to a `NonStruct` element
/// changes nothing.
pub proof fn lemma_nothing_dissolved(st: Dissolving, parent: ObjectId, kids: Seq<Value>)
    requires
        nothing_to_dissolve(st.objects, kids),
    ensures
        dissolve_all(st, parent, kids).objects == st.objects,
        dissolve_all(st, parent, kids).changed == st.changed,
        dissolve_all(st, parent, kids).kids == st.kids + kids,
    decreases kids.len(),
{
    if kids.len() > 0 {
        let rest = kids.drop_last();
        assert(nothing_to_dissolve(st.objects, rest)) by {
            assert forall|i: int| 0 <= i < rest.len() implies !((
            #[trigger] rest[i]) matches Value::Reference(id) && is_nonstruct_node(st.objects, id)) by {
                assert(rest[i] == kids[i]);
            }
        }
        lemma_nothing_dissolved(st, parent, rest);
        assert(!(kids[kids.len() - 1] matches Value::Reference(id) && is_nonstruct_node(st.objects, id)));
        assert(dissolve_all(st, parent, kids).kids =~= st.kids + kids);
    } else {
        assert(st.kids + kids =~= st.kids);
    }
}

/// Whether sanitizing has nothing to do at an element: none of its children
/// refers to a `NonStruct` element and, where it is a `Link` that holds
/// text, none is an object reference.
pub open spec fn clean_node(objects: Map<ObjectId, Value>, node: ObjectId) -> bool {
    match get_dictionary(objects, node) {
        Ok(d) => nothing_to_dissolve(objects, kids_of(d)) && (link_with_text(objects, d) ==> forall|
            i: int,
        |
            0 <= i < kids_of(d).len() ==> !is_objr_child(objects, #[trigger] kids_of(d)[i])),
        Err(_) => true,
    }
}

/// Sanitizing an element at which there is nothing to do changes nothing.
pub proof fn lemma_clean_node(objects: Map<ObjectId, Value>, node: ObjectId)
    requires
        clean_node(objects, node),
    ensures
        sanitize_node(objects, node) == objects,
{
    match get_object(objects, node) {
        Ok(Value::Dictionary(d)) => {
            lemma_nothing_dissolved(
                Dissolving { objects, kids: Seq::empty(), changed: false },
                node,
                kids_of(d),
            );
            assert(dissolve_node(objects, node) == objects);
            lemma_without_objr(objects, kids_of(d));
        },
        _ => {},
    }
}

/// Sanitizing elements at all of which there is nothing to do changes
/// nothing.
pub proof fn lemma_clean_nodes(objects: Map<ObjectId, Value>, nodes: Seq<ObjectId>)
    requires
        forall|i: int| 0 <= i < nodes.len() ==> clean_node(objects, #[trigger] nodes[i]),
    ensures
        sanitize_nodes(objects, nodes) == objects,
    decreases nodes.len(),
{
    if nodes.len() > 0 {
        let rest = nodes.drop_last();
        assert forall|i: int| 0 <= i < rest.len() implies clean_node(objects, #[trigger] rest[i]) by {
            assert(rest[i] == nodes[i]);
        }
        lemma_clean_nodes(objects, rest);
        assert(clean_node(objects, nodes[nodes.len() - 1]));
        lemma_clean_node(objects, nodes.last());
    }
}

/// Whether sanitizing has nothing to do in a document: at none of the
/// elements that are reached from the root of its structure tree.
pub open spec fn clean(doc: DocumentValue) -> bool {
    match struct_tree_root(doc) {
        Some(root) => forall|i: int|
            0 <= i < walk(doc.objects, root).len() ==> clean_node(
                doc.objects,
                #[trigger] walk(doc.objects, root)[i],
            ),
        None => true,
    }
}

/// Sanitizing a document in which there is nothing to do changes nothing: a
/// second run on such a document is the same as none.
pub proof fn lemma_sanitize_clean(doc: DocumentValue)
    requires
        clean(doc),
    ensures
        sanitize(doc) == doc,
{
    if let Some(root) = struct_tree_root(doc) {
        let nodes = walk(doc.objects, root);
        let order = nodes.reverse();
        assert forall|i: int| 0 <= i < order.len() implies clean_node(doc.objects, #[trigger] order[i]) by {
            assert(order[i] == nodes[nodes.len() - 1 - i]);
        }
        lemma_clean_nodes(doc.objects, order);
    }
}

} // verus!
