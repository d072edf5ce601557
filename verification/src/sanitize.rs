//! The structure tree sanitizer: the elements are gone through from the
//! deepest up; `NonStruct` children are dissolved, and a `Link` that holds
//! text loses its object references.

use crate::bytes::{is_name, name};
use crate::dissolve::{dissolve_node, dissolve_nonstruct_in_node, set_kids, with_kids};
use crate::document::{Document, DocumentValue, get_dictionary, get_object};
use crate::helpers::{
    find_struct_tree_root_id, get_node_role, is_link_struct, is_objr_child, is_objr_type, kids_of,
    node_role, role_of, struct_tree_root,
};
use crate::object::{
    array_value, copy_objects, Dictionary, Object, ObjectId, ObjectKind, PdfError, push_object,
    type_error, Value,
};
use crate::text::{has_text, link_has_textual_content};
use crate::walker::{collect_all_node_ids, walk};
use vstd::prelude::*;

verus! {

/// The children that are no object references, in their order.
pub open spec fn without_objr(objects: Map<ObjectId, Value>, kids: Seq<Value>) -> Seq<Value>
    decreases kids.len(),
{
    if kids.len() == 0 {
        Seq::empty()
    } else if is_objr_child(objects, kids.last()) {
        without_objr(objects, kids.drop_last())
    } else {
        without_objr(objects, kids.drop_last()).push(kids.last())
    }
}

/// The document after the element under `link` lost the object references
/// among its children. Nothing changes where no dictionary is read under
/// `link`, where it has no `K`, or where none of its children is an object
/// reference.
pub open spec fn remove_objr(objects: Map<ObjectId, Value>, link: ObjectId) -> Map<ObjectId, Value> {
    match get_object(objects, link) {
        Ok(Value::Dictionary(d)) => {
            let kept = without_objr(objects, kids_of(d));
            if d.contains_key(name("K")) && kept.len() < kids_of(d).len() {
                objects.insert(link, Value::Dictionary(with_kids(d, kept)))
            } else {
                objects
            }
        },
        _ => objects,
    }
}

/// Whether removing the object references succeeds on the element under
/// `link`: it fails where no dictionary is read there.
pub open spec fn remove_objr_outcome(objects: Map<ObjectId, Value>, link: ObjectId) -> Result<
    (),
    PdfError,
> {
    match get_object(objects, link) {
        Ok(Value::Dictionary(_)) => Ok(()),
        Ok(v) => Err(type_error(v, ObjectKind::Dictionary)),
        Err(e) => Err(e),
    }
}

/// Whether the rule for links asks for a change: the element is a `Link`
/// and holds text.
pub open spec fn link_with_text(objects: Map<ObjectId, Value>, d: Map<Seq<u8>, Value>) -> bool {
    role_of(d) == Some(name("Link")) && has_text(objects, d)
}

/// The document after the rule for links was applied to the element under
/// `node`, whose dictionary is `d`.
pub open spec fn sanitize_link(
    objects: Map<ObjectId, Value>,
    node: ObjectId,
    d: Map<Seq<u8>, Value>,
) -> Map<ObjectId, Value> {
    if link_with_text(objects, d) {
        remove_objr(objects, node)
    } else {
        objects
    }
}

/// Whether one of the children is an object reference.
pub open spec fn holds_objr(objects: Map<ObjectId, Value>, kids: Seq<Value>) -> bool {
    exists|i: int| 0 <= i < kids.len() && is_objr_child(objects, #[trigger] kids[i])
}

/// Whether an element is a link that holds object references and no text.
/// Such a link is left as it is, and a warning is due for it.
pub open spec fn objr_only_link(objects: Map<ObjectId, Value>, d: Map<Seq<u8>, Value>) -> bool {
    role_of(d) == Some(name("Link")) && !has_text(objects, d) && holds_objr(objects, kids_of(d))
}

/// Whether sanitizing the element under `node` meets a link that holds
/// object references and no text.
pub open spec fn warns(objects: Map<ObjectId, Value>, node: ObjectId) -> bool {
    node_role(objects, node) == Some(name("Link")) && match get_dictionary(
        dissolve_node(objects, node),
        node,
    ) {
        Ok(d) => objr_only_link(dissolve_node(objects, node), d),
        Err(_) => false,
    }
}

/// The elements for which a warning is due while the given elements are
/// sanitized, in order.
pub open spec fn warnings(objects: Map<ObjectId, Value>, nodes: Seq<ObjectId>) -> Seq<ObjectId>
    decreases nodes.len(),
{
    if nodes.len() == 0 {
        Seq::empty()
    } else if warns(sanitize_nodes(objects, nodes.drop_last()), nodes.last()) {
        warnings(objects, nodes.drop_last()).push(nodes.last())
    } else {
        warnings(objects, nodes.drop_last())
    }
}

/// The links for which a warning is due while the structure tree of a
/// document is sanitized: those that hold object references and no text when
/// their turn comes.
pub open spec fn sanitize_warnings(doc: DocumentValue) -> Seq<ObjectId> {
    match struct_tree_root(doc) {
        Some(root) => warnings(doc.objects, walk(doc.objects, root).reverse()),
        None => Seq::empty(),
    }
}

/// The document after one element was sanitized.
pub open spec fn sanitize_node(objects: Map<ObjectId, Value>, node: ObjectId) -> Map<ObjectId, Value> {
    let dissolved = dissolve_node(objects, node);
    if node_role(objects, node) == Some(name("Link")) {
        match get_dictionary(dissolved, node) {
            Ok(d) => sanitize_link(dissolved, node, d),
            Err(_) => dissolved,
        }
    } else {
        dissolved
    }
}

/// The document after the given elements were sanitized, in order.
pub open spec fn sanitize_nodes(objects: Map<ObjectId, Value>, nodes: Seq<ObjectId>) -> Map<
    ObjectId,
    Value,
>
    decreases nodes.len(),
{
    if nodes.len() == 0 {
        objects
    } else {
        sanitize_node(sanitize_nodes(objects, nodes.drop_last()), nodes.last())
    }
}

/// The document after its structure tree was sanitized: every element that
/// is reached from the root, the deepest first. A document without a
/// structure tree stays as it is.
pub open spec fn sanitize(doc: DocumentValue) -> DocumentValue {
    match struct_tree_root(doc) {
        Some(root) => DocumentValue {
            objects: sanitize_nodes(doc.objects, walk(doc.objects, root).reverse()),
            ..doc
        },
        None => doc,
    }
}

/// Takes the object references out of the children of the element under
/// `link_id`.
pub fn remove_objr_from_link(doc: &mut Document, link_id: ObjectId) -> (r: Result<(), PdfError>)
    ensures
        r == remove_objr_outcome(old(doc)@.objects, link_id),
        final(doc)@ == (DocumentValue {
            objects: remove_objr(old(doc)@.objects, link_id),
            ..old(doc)@
        }),
{
    let mut dict = match doc.get_object(link_id) {
        Ok(o) => match o.as_dict() {
            Ok(d) => d.clone(),
            Err(e) => {
                return Err(e);
            },
        },
        Err(e) => {
            return Err(e);
        },
    };
    let kids: Vec<Object> = match dict.get("K".as_bytes()) {
        Ok(Object::Array(a)) => copy_objects(a),
        Ok(o) => {
            let mut one: Vec<Object> = Vec::new();
            push_object(&mut one, o.clone());
            proof {
                assert(array_value(one@) =~= seq![o@]);
            }
            one
        },
        Err(_) => {
            proof {
                assert(without_objr(doc@.objects, kids_of(dict@)).len() == 0);
            }
            return Ok(());
        },
    };
    let ghost kidsv = array_value(kids@);
    let ghost objects = doc@.objects;
    let mut new_kids: Vec<Object> = Vec::new();
    let mut i: usize = 0;
    proof {
        assert(array_value(new_kids@) =~= Seq::<Value>::empty());
    }
    while i < kids.len()
        invariant
            i <= kids@.len(),
            kidsv == array_value(kids@),
            objects == doc@.objects,
            new_kids@.len() <= i,
            array_value(new_kids@) == without_objr(objects, kidsv.take(i as int)),
        decreases kids@.len() - i,
    {
        proof {
            assert(kidsv.take(i + 1).drop_last() =~= kidsv.take(i as int));
            assert(kidsv.take(i + 1).last() == kids@[i as int]@);
        }
        if !is_objr_type(&kids[i], doc) {
            push_object(&mut new_kids, kids[i].clone());
        }
        i += 1;
    }
    proof {
        assert(kidsv.take(kids@.len() as int) =~= kidsv);
        assert(array_value(new_kids@).len() == new_kids@.len());
        assert(kidsv.len() == kids@.len());
    }
    if new_kids.len() < kids.len() {
        set_kids(&mut dict, new_kids);
        doc.objects.insert(link_id, Object::Dictionary(dict));
    }
    Ok(())
}

/// Applies the rule for links to the element under `node_id`, whose
/// dictionary is `dict`: a `Link` that holds text loses the object
/// references among its children. A `Link` without text is left as it is;
/// `is_objr_only_link` says whether a warning is due for it.
pub fn sanitize_link_k(doc: &mut Document, node_id: ObjectId, dict: &Dictionary) -> (r: Result<
    (),
    PdfError,
>)
    ensures
        r == (if link_with_text(old(doc)@.objects, dict@) {
            remove_objr_outcome(old(doc)@.objects, node_id)
        } else {
            Ok(())
        }),
        final(doc)@ == (DocumentValue {
            objects: sanitize_link(old(doc)@.objects, node_id, dict@),
            ..old(doc)@
        }),
{
    if !is_link_struct(dict) {
        return Ok(());
    }
    let textual = match link_has_textual_content(doc, dict) {
        Ok(t) => t,
        Err(_) => false,
    };
    if textual {
        remove_objr_from_link(doc, node_id)
    } else {
        Ok(())
    }
}

/// Whether an element is a link that holds object references and no text:
/// the link for which a warning is due.
pub fn is_objr_only_link(doc: &Document, dict: &Dictionary) -> (r: bool)
    ensures
        r == objr_only_link(doc@.objects, dict@),
{
    if !is_link_struct(dict) {
        return false;
    }
    let textual = match link_has_textual_content(doc, dict) {
        Ok(t) => t,
        Err(_) => false,
    };
    if textual {
        return false;
    }
    let kids: Vec<Object> = match dict.get("K".as_bytes()) {
        Ok(Object::Array(a)) => copy_objects(a),
        Ok(o) => {
            let mut one: Vec<Object> = Vec::new();
            push_object(&mut one, o.clone());
            proof {
                assert(array_value(one@) =~= seq![o@]);
            }
            one
        },
        Err(_) => {
            return false;
        },
    };
    let ghost kidsv = array_value(kids@);
    let mut i: usize = 0;
    while i < kids.len()
        invariant
            i <= kids@.len(),
            kidsv == array_value(kids@),
            kidsv == kids_of(dict@),
            role_of(dict@) == Some(name("Link")),
            !has_text(doc@.objects, dict@),
            forall|j: int| 0 <= j < i ==> !is_objr_child(doc@.objects, #[trigger] kidsv[j]),
        decreases kids@.len() - i,
    {
        if is_objr_type(&kids[i], doc) {
            proof {
                assert(kidsv[i as int] == kids@[i as int]@);
                assert(holds_objr(doc@.objects, kidsv));
            }
            return true;
        }
        i += 1;
    }
    false
}

/// Sanitizes one element, and says whether a warning is due for it.
fn sanitize_one(doc: &mut Document, node_id: ObjectId) -> (warn: bool)
    ensures
        final(doc)@ == (DocumentValue {
            objects: sanitize_node(old(doc)@.objects, node_id),
            ..old(doc)@
        }),
        warn == warns(old(doc)@.objects, node_id),
{
    let is_link = match get_node_role(doc, node_id) {
        Some(role) => is_name(role.as_slice(), "Link"),
        None => false,
    };
    let _ = dissolve_nonstruct_in_node(doc, node_id);
    let mut warn = false;
    if is_link {
        let dict = match doc.get_dictionary(node_id) {
            Ok(d) => Some(d.clone()),
            Err(_) => None,
        };
        if let Some(d) = dict {
            warn = is_objr_only_link(doc, &d);
            let _ = sanitize_link_k(doc, node_id, &d);
        }
    }
    warn
}

/// Sanitizes the structure tree of a document, and gives the links for which
/// a warning is due: those that hold object references and no text. A
/// document without a structure tree is left as it is.
pub fn sanitize_with_warnings(doc: &mut Document) -> (r: Vec<ObjectId>)
    ensures
        final(doc)@ == sanitize(old(doc)@),
        r@ == sanitize_warnings(old(doc)@),
{
    let mut warned: Vec<ObjectId> = Vec::new();
    let root_id = match find_struct_tree_root_id(doc) {
        Some(id) => id,
        None => {
            return warned;
        },
    };
    let nodes = collect_all_node_ids(doc, root_id);
    let ghost start = doc@.objects;
    let mut i: usize = 0;
    while i < nodes.len()
        invariant
            i <= nodes@.len(),
            doc@.version == old(doc)@.version,
            doc@.trailer == old(doc)@.trailer,
            doc@.max_id == old(doc)@.max_id,
            doc@.objects == sanitize_nodes(start, nodes@.take(i as int)),
            warned@ == warnings(start, nodes@.take(i as int)),
        decreases nodes@.len() - i,
    {
        proof {
            assert(nodes@.take(i + 1).drop_last() =~= nodes@.take(i as int));
        }
        if sanitize_one(doc, nodes[i]) {
            warned.push(nodes[i]);
        }
        i += 1;
    }
    proof {
        assert(nodes@.take(nodes@.len() as int) =~= nodes@);
    }
    warned
}

/// Sanitizes the structure tree of a document. A document without a
/// structure tree is left as it is, which is no failure.
pub fn sanitize_pdf(doc: &mut Document) -> (r: Result<(), PdfError>)
    ensures
        r == Ok::<(), PdfError>(()),
        final(doc)@ == sanitize(old(doc)@),
{
    let _ = sanitize_with_warnings(doc);
    Ok(())
}

/// Sanitizes the structure tree of a document, where it has one.
pub fn sanitize_pdf_ua(doc: &mut Document) -> (r: Result<(), PdfError>)
    ensures
        r == Ok::<(), PdfError>(()),
        final(doc)@ == sanitize(old(doc)@),
{
    sanitize_pdf(doc)
}

} // verus!
