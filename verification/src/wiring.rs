//! The parents of the top-level structure in the assembled document.

use crate::assemble::{
    assemble, document_element, document_element_id, parent_tree, parent_tree_id, Parts,
    reparent_all, struct_tree_root_id, struct_tree_root_value, with_catalog, with_page_tree,
    with_pages,
};
use crate::bytes::{lemma_parent_key_differs, name};
use crate::document::{DocumentValue, get_dictionary, get_object, resolve_id};
use crate::frame::{lemma_add, lemma_overwrite, lemma_resolve};

use crate::object::{dict_get, ObjectId, PdfError, Value};
use vstd::prelude::*;

verus! {

/// Whether a child refers to the element that is read under `x`: to its
/// id, or to an id under which the same object is read.
pub open spec fn kid_refers_to(objects: Map<ObjectId, Value>, kid: Value, x: ObjectId) -> bool {
    match kid {
        Value::Reference(c) => resolve_id(objects, c) is Ok && resolve_id(objects, c) == resolve_id(
            objects,
            x,
        ),
        _ => false,
    }
}

/// Whether one of the children refers to the element that is read under `x`.
pub open spec fn refers_to(objects: Map<ObjectId, Value>, kids: Seq<Value>, x: ObjectId) -> bool {
    exists|j: int| 0 <= j < kids.len() && kid_refers_to(objects, #[trigger] kids[j], x)
}

/// A dictionary with the given parent.
pub open spec fn parented(v: Value, parent: ObjectId) -> Value {
    match v {
        Value::Dictionary(d) => Value::Dictionary(d.insert(name("P"), Value::Reference(parent))),
        other => other,
    }
}

/// Giving the elements that the children refer to their parent changes the
/// place of no object, and the objects so: a dictionary that one of the
/// children refers to has the parent, and every other object is as it was.
pub proof fn lemma_reparent_all(
    objects: Map<ObjectId, Value>,
    kids: Seq<Value>,
    parent: ObjectId,
    x: ObjectId,
)
    ensures
        reparent_all(objects, kids, parent).dom() =~= objects.dom(),
        resolve_id(reparent_all(objects, kids, parent), x) == resolve_id(objects, x),
        get_object(reparent_all(objects, kids, parent), x) == (match get_object(objects, x) {
            Ok(v) => Ok::<Value, PdfError>(
                if refers_to(objects, kids, x) {
                    parented(v, parent)
                } else {
                    v
                },
            ),
            Err(e) => Err::<Value, PdfError>(e),
        }),
    decreases kids.len(),
{
    if kids.len() == 0 {
        lemma_resolve(objects, x);
    } else {
        let rest = kids.drop_last();
        let before = reparent_all(objects, rest, parent);
        lemma_reparent_all(objects, rest, parent, x);
        lemma_resolve(objects, x);
        lemma_last_kid(objects, kids, x);
        match kids.last() {
            Value::Reference(c) => {
                lemma_reparent_all(objects, rest, parent, c);
                lemma_resolve(objects, c);
                lemma_resolve(before, c);
                lemma_resolve(before, x);
                match (resolve_id(before, c), get_object(before, c)) {
                    (Ok(at), Ok(Value::Dictionary(d))) => {
                        let new = Value::Dictionary(d.insert(name("P"), Value::Reference(parent)));
                        lemma_overwrite(before, at, new, x);
                        assert(before.insert(at, new).dom() =~= before.dom());
                        if resolve_id(objects, x) == Ok::<ObjectId, PdfError>(at) {
                            assert(kid_refers_to(objects, kids.last(), x));
                            assert(get_object(objects, x) == get_object(objects, c));
                            if let Ok(Value::Dictionary(dv)) = get_object(objects, x) {
                                assert(dv.insert(name("P"), Value::Reference(parent)).insert(
                                    name("P"),
                                    Value::Reference(parent),
                                ) =~= dv.insert(name("P"), Value::Reference(parent)));
                            }
                        } else {
                            assert(!kid_refers_to(objects, kids.last(), x));
                        }
                    },
                    _ => {
                        if kid_refers_to(objects, kids.last(), x) {
                            assert(get_object(objects, x) == get_object(objects, c));
                            assert(!(get_object(objects, x) matches Ok(Value::Dictionary(_))));
                        }
                    },
                }
            },
            _ => {},
        }
    }
}

/// The children refer to the element under `x` where those before the last
/// do, or the last does.
proof fn lemma_last_kid(objects: Map<ObjectId, Value>, kids: Seq<Value>, x: ObjectId)
    requires
        kids.len() > 0,
    ensures
        refers_to(objects, kids, x) == (refers_to(objects, kids.drop_last(), x) || kid_refers_to(
            objects,
            kids.last(),
            x,
        )),
{
    let rest = kids.drop_last();
    if refers_to(objects, kids, x) {
        let j = choose|j: int| 0 <= j < kids.len() && kid_refers_to(objects, #[trigger] kids[j], x);
        if j < kids.len() - 1 {
            assert(rest[j] == kids[j]);
        }
    }
    if refers_to(objects, rest, x) {
        let j = choose|j: int| 0 <= j < rest.len() && kid_refers_to(objects, #[trigger] rest[j], x);
        assert(kids[j] == rest[j]);
    }
    if kid_refers_to(objects, kids.last(), x) {
        assert(kid_refers_to(objects, kids[kids.len() - 1], x));
    }
}

/// Whether no object of the skeleton and no page has an object number above
/// the highest that was given out, so that the objects which assembling adds
/// take the place of none.
pub open spec fn numbers_given_out(doc: DocumentValue, parts: Parts) -> bool {
    &&& doc.max_id <= u32::MAX - 3
    &&& forall|id: ObjectId| doc.objects.contains_key(id) ==> id.0 <= doc.max_id
    &&& forall|id: ObjectId| parts.pages.contains_key(id) ==> id.0 <= doc.max_id
}

/// In the assembled document every element at the top of the structure has
/// the merged `Document` element as its parent: where a child of that
/// element refers to an id under which a dictionary was read before the
/// wiring, a dictionary is read under that id afterwards, and its `P` refers
/// to the `Document` element.
pub proof fn lemma_parent_back_reference(doc: DocumentValue, parts: Parts, c: ObjectId)
    requires
        numbers_given_out(doc, parts),
        parts.kids.contains(Value::Reference(c)),
        get_dictionary(with_pages(doc.objects, parts.pages, parts.pages_id), c) is Ok,
    ensures
        get_dictionary(assemble(doc, parts).objects, c) matches Ok(d) && dict_get(d, name("P")) == Ok::<
            Value,
            PdfError,
        >(Value::Reference(document_element_id(doc.max_id))),
{
    let pt_id = parent_tree_id(doc.max_id);
    let el_id = document_element_id(doc.max_id);
    let root_id = struct_tree_root_id(doc.max_id);
    let linked = with_pages(doc.objects, parts.pages, parts.pages_id);
    let one = linked.insert(pt_id, parent_tree(parts.nums));
    let added = one.insert(el_id, document_element(parts.kids));
    let wired = reparent_all(added, parts.kids, el_id);
    let rooted = wired.insert(
        root_id,
        struct_tree_root_value(el_id, pt_id, parts.final_offset, parts.role_map),
    );
    let catalogued = with_catalog(rooted, parts.catalog_id, parts.pages_id, root_id);
    let out = with_page_tree(catalogued, parts.pages_id, parts.page_ids);
    assert(assemble(doc, parts).objects == out);
    lemma_parent_key_differs();

    // The two objects that are added first take the place of none.
    lemma_add(linked, pt_id, parent_tree(parts.nums), c);
    lemma_add(one, el_id, document_element(parts.kids), c);
    lemma_resolve(added, c);
    // The wiring gives the element its parent.
    lemma_reparent_all(added, parts.kids, el_id, c);
    let j = choose|j: int| 0 <= j < parts.kids.len() && parts.kids[j] == Value::Reference(c);
    assert(kid_refers_to(added, parts.kids[j], c));
    assert(refers_to(added, parts.kids, c));
    let d0 = get_dictionary(added, c)->Ok_0;
    let d1 = d0.insert(name("P"), Value::Reference(el_id));
    assert(get_object(wired, c) == Ok::<Value, PdfError>(Value::Dictionary(d1)));
    // The structure tree root takes the place of none.
    assert(!wired.contains_key(root_id));
    lemma_add(
        wired,
        root_id,
        struct_tree_root_value(el_id, pt_id, parts.final_offset, parts.role_map),
        c,
    );
    lemma_resolve(rooted, c);
    // The catalog and the page tree root keep their `P`.
    if rooted.contains_key(parts.catalog_id) && rooted[parts.catalog_id] is Dictionary {
        let cat = rooted[parts.catalog_id]->Dictionary_0;
        let new = Value::Dictionary(
            cat.insert(name("Pages"), Value::Reference(parts.pages_id)).insert(
                name("StructTreeRoot"),
                Value::Reference(root_id),
            ).insert(name("MarkInfo"), crate::assemble::mark_info()),
        );
        lemma_overwrite(rooted, parts.catalog_id, new, c);
    }
    lemma_resolve(catalogued, c);
    if catalogued.contains_key(parts.pages_id) && catalogued[parts.pages_id] is Dictionary {
        let tree = catalogued[parts.pages_id]->Dictionary_0;
        let new = Value::Dictionary(
            tree.insert(
                name("Count"),
                Value::Integer(crate::assemble::count_value(parts.page_ids.len())),
            ).insert(name("Kids"), Value::Array(crate::assemble::references_to(parts.page_ids))),
        );
        lemma_overwrite(catalogued, parts.pages_id, new, c);
    }
}

/// In the assembled document the page tree root holds the pages in the
/// order in which they are handed in, and their number; and the catalog
/// names the page tree root and the one structure tree root, and is marked
/// as tagged. This is stated where the catalog and the page tree root stand
/// in the skeleton as two dictionaries.
pub proof fn lemma_roots_of_assembled(doc: DocumentValue, parts: Parts)
    requires
        numbers_given_out(doc, parts),
        parts.catalog_id != parts.pages_id,
        doc.objects.contains_key(parts.catalog_id),
        doc.objects[parts.catalog_id] is Dictionary,
        doc.objects.contains_key(parts.pages_id),
        doc.objects[parts.pages_id] is Dictionary,
    ensures
        assemble(doc, parts).objects.contains_key(parts.pages_id),
        assemble(doc, parts).objects[parts.pages_id] matches Value::Dictionary(tree) && dict_get(
            tree,
            name("Kids"),
        ) == Ok::<Value, PdfError>(Value::Array(crate::assemble::references_to(parts.page_ids)))
            && dict_get(tree, name("Count")) == Ok::<Value, PdfError>(
            Value::Integer(crate::assemble::count_value(parts.page_ids.len())),
        ),
        assemble(doc, parts).objects.contains_key(parts.catalog_id),
        assemble(doc, parts).objects[parts.catalog_id] matches Value::Dictionary(cat) && dict_get(
            cat,
            name("Pages"),
        ) == Ok::<Value, PdfError>(Value::Reference(parts.pages_id)) && dict_get(
            cat,
            name("StructTreeRoot"),
        ) == Ok::<Value, PdfError>(Value::Reference(struct_tree_root_id(doc.max_id))) && dict_get(
            cat,
            name("MarkInfo"),
        ) == Ok::<Value, PdfError>(crate::assemble::mark_info()),
        assemble(doc, parts).objects.contains_key(struct_tree_root_id(doc.max_id)),
        assemble(doc, parts).objects[struct_tree_root_id(doc.max_id)] == struct_tree_root_value(
            document_element_id(doc.max_id),
            parent_tree_id(doc.max_id),
            parts.final_offset,
            parts.role_map,
        ),
{
    let pt_id = parent_tree_id(doc.max_id);
    let el_id = document_element_id(doc.max_id);
    let root_id = struct_tree_root_id(doc.max_id);
    let linked = with_pages(doc.objects, parts.pages, parts.pages_id);
    let one = linked.insert(pt_id, parent_tree(parts.nums));
    let added = one.insert(el_id, document_element(parts.kids));
    let wired = reparent_all(added, parts.kids, el_id);
    crate::bytes::lemma_root_keys_differ();
    assert(linked.contains_key(parts.pages_id) && linked[parts.pages_id] is Dictionary);
    assert(linked.contains_key(parts.catalog_id) && linked[parts.catalog_id] is Dictionary);
    assert(added.contains_key(parts.pages_id) && added[parts.pages_id] is Dictionary);
    assert(added.contains_key(parts.catalog_id) && added[parts.catalog_id] is Dictionary);
    lemma_resolve(added, parts.pages_id);
    lemma_resolve(added, parts.catalog_id);
    lemma_reparent_all(added, parts.kids, el_id, parts.pages_id);
    lemma_reparent_all(added, parts.kids, el_id, parts.catalog_id);
    lemma_reparent_all(added, parts.kids, el_id, root_id);
    lemma_resolve(wired, parts.pages_id);
    lemma_resolve(wired, parts.catalog_id);
    assert(wired.contains_key(parts.pages_id) && wired[parts.pages_id] is Dictionary);
    assert(wired.contains_key(parts.catalog_id) && wired[parts.catalog_id] is Dictionary);
    assert(wired.dom().contains(root_id) == added.dom().contains(root_id));
    assert(!wired.contains_key(root_id));
}

/// The ids of the pages that are dictionaries: those that assembling puts
/// among the objects.
pub open spec fn linked_page_ids(pages: Map<ObjectId, Value>) -> Set<ObjectId> {
    Set::new(|id: ObjectId| pages.contains_key(id) && pages[id] is Dictionary)
}

/// Assembling loses no object and puts none in the place of another: the
/// three objects that it adds get three ids of their own, under which
/// neither an object of the skeleton nor a page stands, and the ids of the
/// assembled document are those of the skeleton, those of the pages that are
/// dictionaries, and these three. A page that is no dictionary is not put
/// among the objects.
pub proof fn lemma_assembled_ids(doc: DocumentValue, parts: Parts)
    requires
        numbers_given_out(doc, parts),
    ensures
        parent_tree_id(doc.max_id) != document_element_id(doc.max_id),
        parent_tree_id(doc.max_id) != struct_tree_root_id(doc.max_id),
        document_element_id(doc.max_id) != struct_tree_root_id(doc.max_id),
        !doc.objects.contains_key(parent_tree_id(doc.max_id)),
        !doc.objects.contains_key(document_element_id(doc.max_id)),
        !doc.objects.contains_key(struct_tree_root_id(doc.max_id)),
        !parts.pages.contains_key(parent_tree_id(doc.max_id)),
        !parts.pages.contains_key(document_element_id(doc.max_id)),
        !parts.pages.contains_key(struct_tree_root_id(doc.max_id)),
        assemble(doc, parts).objects.dom() =~= doc.objects.dom().union(
            linked_page_ids(parts.pages),
        ).insert(parent_tree_id(doc.max_id)).insert(document_element_id(doc.max_id)).insert(
            struct_tree_root_id(doc.max_id),
        ),
        (forall|id: ObjectId| parts.pages.contains_key(id) ==> parts.pages[id] is Dictionary) ==> assemble(
            doc,
            parts,
        ).objects.dom() =~= doc.objects.dom().union(parts.pages.dom()).insert(
            parent_tree_id(doc.max_id),
        ).insert(document_element_id(doc.max_id)).insert(struct_tree_root_id(doc.max_id)),
{
    if forall|id: ObjectId| parts.pages.contains_key(id) ==> parts.pages[id] is Dictionary {
        assert(linked_page_ids(parts.pages) =~= parts.pages.dom());
    }
    let pt_id = parent_tree_id(doc.max_id);
    let el_id = document_element_id(doc.max_id);
    let root_id = struct_tree_root_id(doc.max_id);
    let linked = with_pages(doc.objects, parts.pages, parts.pages_id);
    let added = linked.insert(pt_id, parent_tree(parts.nums)).insert(el_id, document_element(parts.kids));
    let wired = reparent_all(added, parts.kids, el_id);
    let rooted = wired.insert(
        root_id,
        struct_tree_root_value(el_id, pt_id, parts.final_offset, parts.role_map),
    );
    let catalogued = with_catalog(rooted, parts.catalog_id, parts.pages_id, root_id);
    let out = with_page_tree(catalogued, parts.pages_id, parts.page_ids);
    assert(assemble(doc, parts).objects == out);
    assert(linked.dom() =~= doc.objects.dom().union(linked_page_ids(parts.pages)));
    lemma_reparent_all(added, parts.kids, el_id, el_id);
    assert(catalogued.dom() =~= rooted.dom());
    assert(out.dom() =~= catalogued.dom());
}

/// In the assembled document the merged `Document` element holds the
/// top-level structure as it was handed in, in its order. This is stated
/// where the catalog and the page tree root stand in the skeleton.
pub proof fn lemma_document_element_of_assembled(doc: DocumentValue, parts: Parts)
    requires
        numbers_given_out(doc, parts),
        doc.objects.contains_key(parts.catalog_id),
        doc.objects.contains_key(parts.pages_id),
    ensures
        assemble(doc, parts).objects.contains_key(document_element_id(doc.max_id)),
        assemble(doc, parts).objects[document_element_id(doc.max_id)] matches Value::Dictionary(d)
            && dict_get(d, name("K")) == Ok::<Value, PdfError>(Value::Array(parts.kids)) && dict_get(
            d,
            name("S"),
        ) == Ok::<Value, PdfError>(Value::Name(name("Document"))),
{
    let pt_id = parent_tree_id(doc.max_id);
    let el_id = document_element_id(doc.max_id);
    let root_id = struct_tree_root_id(doc.max_id);
    let linked = with_pages(doc.objects, parts.pages, parts.pages_id);
    let added = linked.insert(pt_id, parent_tree(parts.nums)).insert(el_id, document_element(parts.kids));
    let wired = reparent_all(added, parts.kids, el_id);
    let rooted = wired.insert(
        root_id,
        struct_tree_root_value(el_id, pt_id, parts.final_offset, parts.role_map),
    );
    let catalogued = with_catalog(rooted, parts.catalog_id, parts.pages_id, root_id);
    let out = with_page_tree(catalogued, parts.pages_id, parts.page_ids);
    assert(assemble(doc, parts).objects == out);
    crate::bytes::lemma_structure_keys_differ();
    lemma_resolve(added, el_id);
    lemma_reparent_all(added, parts.kids, el_id, el_id);
    lemma_resolve(wired, el_id);
    assert(wired.contains_key(el_id));
    assert(rooted[el_id] == wired[el_id]);
    assert(parts.catalog_id != el_id && parts.pages_id != el_id);
    assert(catalogued[el_id] == wired[el_id]);
    assert(out[el_id] == wired[el_id]);
}

} // verus!
