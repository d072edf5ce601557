//! The assembled document gives the sanitizer nothing to do, where the
//! structure that was handed in gave it nothing to do.

use crate::assemble::{
    assemble, document_element, document_element_id, parent_tree, parent_tree_id, Parts,
    reparent_all, struct_tree_root_id, struct_tree_root_value, with_catalog, with_page_tree,
    with_pages,
};
use crate::bytes::{lemma_name_bytes, name};
use crate::clean::{clean, clean_node, lemma_sanitize_clean, nothing_to_dissolve};
use crate::document::{DocumentValue, get_dictionary};
use crate::frame::lemma_resolve;
use crate::helpers::{is_nonstruct_node, is_objr_child, kids_of, role_of, struct_tree_root};
use crate::merge::{is_first_of_type, MergerValue, trailer_value};
use crate::object::{ObjectId, PdfError, Value};
use crate::sanitize::{link_with_text, sanitize};
use crate::text::{has_text_within, is_objr_dict, kid_has_text, lemma_has_text};
use crate::walker::{child_refs, lemma_refs_in, lemma_walk_from, refs_in, walk};
use crate::wiring::{
    lemma_document_element_of_assembled, lemma_reparent_all, lemma_roots_of_assembled,
    numbers_given_out,
};
use vstd::prelude::*;

verus! {

/// Whether a key is one of those by which the sanitizer goes: the children,
/// the role and the type of an element.
pub open spec fn element_key(key: Seq<u8>) -> bool {
    key == name("K") || key == name("S") || key == name("Type")
}

/// Whether two objects are dictionaries that hold the same children, role
/// and type.
pub open spec fn same_element(a: Value, b: Value) -> bool {
    match (a, b) {
        (Value::Dictionary(x), Value::Dictionary(y)) => forall|key: Seq<u8>|
            element_key(key) ==> x.contains_key(key) == y.contains_key(key) && (x.contains_key(key)
                ==> x[key] == y[key]),
        _ => false,
    }
}

/// Whether the elements under the ids of `below` stand in `objects` as
/// dictionaries whose children refer only to ids of `below`.
pub open spec fn holds_structure(objects: Map<ObjectId, Value>, below: Set<ObjectId>) -> bool {
    forall|n: ObjectId|
        #[trigger] below.contains(n) ==> objects.contains_key(n) && objects[n] is Dictionary && forall|t: int|
            0 <= t < kids_of(objects[n]->Dictionary_0).len() ==> ((
            #[trigger] kids_of(objects[n]->Dictionary_0)[t]) matches Value::Reference(c) ==> below.contains(c))
}

/// Whether every reference among the children leads into `below`.
pub open spec fn lead_into(kids: Seq<Value>, below: Set<ObjectId>) -> bool {
    forall|t: int| 0 <= t < kids.len() ==> ((#[trigger] kids[t]) matches Value::Reference(c) ==> below.contains(c))
}

/// Whether the elements under the ids of `below` hold a structure in `a`
/// and stand in `b` with the same children, role and type.
pub open spec fn agree_below(a: Map<ObjectId, Value>, b: Map<ObjectId, Value>, below: Set<ObjectId>) -> bool {
    &&& holds_structure(a, below)
    &&& forall|n: ObjectId| #[trigger] below.contains(n) ==> b.contains_key(n) && same_element(a[n], b[n])
}

/// What is read under an id of `below` in two documents that agree there:
/// the dictionaries that stand under it.
proof fn lemma_reads_below(a: Map<ObjectId, Value>, b: Map<ObjectId, Value>, below: Set<ObjectId>, n: ObjectId)
    requires
        agree_below(a, b, below),
        below.contains(n),
    ensures
        a.contains_key(n),
        b.contains_key(n),
        a[n] is Dictionary,
        b[n] is Dictionary,
        same_element(a[n], b[n]),
        get_dictionary(a, n) == Ok::<Map<Seq<u8>, Value>, PdfError>(a[n]->Dictionary_0),
        get_dictionary(b, n) == Ok::<Map<Seq<u8>, Value>, PdfError>(b[n]->Dictionary_0),
        kids_of(a[n]->Dictionary_0) == kids_of(b[n]->Dictionary_0),
        a[n]->Dictionary_0.contains_key(name("K")) == b[n]->Dictionary_0.contains_key(name("K")),
        role_of(a[n]->Dictionary_0) == role_of(b[n]->Dictionary_0),
        is_objr_dict(a[n]->Dictionary_0) == is_objr_dict(b[n]->Dictionary_0),
        lead_into(kids_of(a[n]->Dictionary_0), below),
{
    assert(a.contains_key(n) && a[n] is Dictionary);
    assert(same_element(a[n], b[n]));
    lemma_resolve(a, n);
    lemma_resolve(b, n);
    assert(element_key(name("K")));
    assert(element_key(name("S")));
    assert(element_key(name("Type")));
}

/// Whether a child brings text is the same in two documents that agree on
/// the structure into which the child leads.
pub proof fn lemma_text_below(
    a: Map<ObjectId, Value>,
    b: Map<ObjectId, Value>,
    below: Set<ObjectId>,
    kid: Value,
    depth: nat,
)
    requires
        agree_below(a, b, below),
        kid matches Value::Reference(c) ==> below.contains(c),
    ensures
        kid_has_text(b, kid, depth) == kid_has_text(a, kid, depth),
    decreases depth,
{
    if let Value::Reference(c) = kid {
        lemma_reads_below(a, b, below, c);
        let da = a[c]->Dictionary_0;
        let db = b[c]->Dictionary_0;
        if depth > 0 {
            let kids = kids_of(da);
            assert forall|t: int| 0 <= t < kids.len() implies kid_has_text(
                b,
                #[trigger] kids[t],
                (depth - 1) as nat,
            ) == kid_has_text(a, kids[t], (depth - 1) as nat) by {
                lemma_text_below(a, b, below, kids[t], (depth - 1) as nat);
            }
            assert(has_text_within(a, da, (depth - 1) as nat) == has_text_within(b, db, (depth - 1) as nat));
        }
    }
}

/// An element at which the sanitizer has nothing to do in one document
/// gives it nothing to do in another that agrees with the first on the
/// structure below.
pub proof fn lemma_clean_below(a: Map<ObjectId, Value>, b: Map<ObjectId, Value>, below: Set<ObjectId>, n: ObjectId)
    requires
        a.dom().finite(),
        agree_below(a, b, below),
        below.contains(n),
        clean_node(a, n),
    ensures
        clean_node(b, n),
{
    lemma_reads_below(a, b, below, n);
    let da = a[n]->Dictionary_0;
    let db = b[n]->Dictionary_0;
    let kids = kids_of(da);
    assert forall|t: int| 0 <= t < kids.len() implies !((
    #[trigger] kids[t]) matches Value::Reference(c) && is_nonstruct_node(b, c)) && is_objr_child(b, kids[t])
        == is_objr_child(a, kids[t]) by {
        if let Value::Reference(c) = kids[t] {
            lemma_reads_below(a, b, below, c);
        }
    }
    assert(nothing_to_dissolve(b, kids));
    if link_with_text(b, db) {
        let depth = b.dom().len();
        assert forall|t: int| 0 <= t < kids.len() implies kid_has_text(b, #[trigger] kids[t], depth)
            == kid_has_text(a, kids[t], depth) by {
            lemma_text_below(a, b, below, kids[t], depth);
        }
        assert(has_text_within(a, da, depth));
        lemma_has_text(a, da, depth);
        assert(link_with_text(a, da));
    }
}

/// The names that assembling writes into the catalog, the page tree root and
/// the elements are none of those by which the sanitizer goes, and the names
/// that are told apart here differ.
proof fn lemma_names_apart()
    ensures
        !element_key(name("Pages")),
        !element_key(name("StructTreeRoot")),
        !element_key(name("MarkInfo")),
        !element_key(name("Count")),
        !element_key(name("Kids")),
        !element_key(name("P")),
        name("Document") != name("NonStruct"),
        name("Document") != name("Link"),
        name("K") != name("S"),
        name("K") != name("Type"),
        name("S") != name("Type"),
        name("K") != name("ParentTree"),
        name("K") != name("ParentTreeNextKey"),
        name("K") != name("RoleMap"),
        name("S") != name("ParentTree"),
        name("S") != name("ParentTreeNextKey"),
        name("S") != name("RoleMap"),
{
    reveal_strlit("ParentTree");
    reveal_strlit("ParentTreeNextKey");
    reveal_strlit("RoleMap");
    lemma_name_bytes("ParentTree");
    lemma_name_bytes("ParentTreeNextKey");
    lemma_name_bytes("RoleMap");
    reveal_strlit("Pages");
    reveal_strlit("StructTreeRoot");
    reveal_strlit("MarkInfo");
    reveal_strlit("Count");
    reveal_strlit("Kids");
    reveal_strlit("P");
    reveal_strlit("K");
    reveal_strlit("S");
    reveal_strlit("Type");
    reveal_strlit("Document");
    reveal_strlit("NonStruct");
    reveal_strlit("Link");
    lemma_name_bytes("Pages");
    lemma_name_bytes("StructTreeRoot");
    lemma_name_bytes("MarkInfo");
    lemma_name_bytes("Count");
    lemma_name_bytes("Kids");
    lemma_name_bytes("P");
    lemma_name_bytes("K");
    lemma_name_bytes("S");
    lemma_name_bytes("Type");
    lemma_name_bytes("Document");
    lemma_name_bytes("NonStruct");
    lemma_name_bytes("Link");
    assert(name("Kids")[0] == "Kids"@[0] as u8);
    assert(name("Type")[0] == "Type"@[0] as u8);
    assert("Kids"@[0] == 'K' && "Type"@[0] == 'T');
    assert(name("P")[0] == "P"@[0] as u8);
    assert(name("K")[0] == "K"@[0] as u8);
    assert(name("S")[0] == "S"@[0] as u8);
    assert("P"@[0] == 'P' && "K"@[0] == 'K' && "S"@[0] == 'S');
}

/// Assembling leaves the children, the role and the type of every
/// dictionary that stood among the objects or the pages as they were.
pub proof fn lemma_assembling_keeps_elements(doc: DocumentValue, parts: Parts, n: ObjectId)
    requires
        numbers_given_out(doc, parts),
        with_pages(doc.objects, parts.pages, parts.pages_id).contains_key(n),
        with_pages(doc.objects, parts.pages, parts.pages_id)[n] is Dictionary,
    ensures
        assemble(doc, parts).objects.contains_key(n),
        same_element(with_pages(doc.objects, parts.pages, parts.pages_id)[n], assemble(doc, parts).objects[n]),
{
    let pt_id = parent_tree_id(doc.max_id);
    let el_id = document_element_id(doc.max_id);
    let root_id = struct_tree_root_id(doc.max_id);
    let linked = with_pages(doc.objects, parts.pages, parts.pages_id);
    let added = linked.insert(pt_id, parent_tree(parts.nums)).insert(el_id, document_element(parts.kids));
    let wired = reparent_all(added, parts.kids, el_id);
    let rooted = wired.insert(
        root_id,
        struct_tree_root_value(el_id, pt_id, parts.final_offset, parts.role_map),
    );
    let catalogued = with_catalog(rooted, parts.catalog_id, parts.pages_id, root_id);
    let out = with_page_tree(catalogued, parts.pages_id, parts.page_ids);
    assert(assemble(doc, parts).objects == out);
    lemma_names_apart();
    assert(n != pt_id && n != el_id && n != root_id);
    assert(added[n] == linked[n]);
    lemma_resolve(added, n);
    lemma_reparent_all(added, parts.kids, el_id, n);
    lemma_resolve(wired, n);
    assert(wired.contains_key(n));
    assert(same_element(linked[n], wired[n]));
    assert(rooted[n] == wired[n]);
    assert(same_element(linked[n], catalogued[n]));
    assert(same_element(linked[n], out[n]));
}

/// Whether the structure that is handed to assembling gives the sanitizer
/// nothing to do: the elements under the ids of `below` stand among the
/// objects and the pages as dictionaries whose children refer only to ids
/// of `below`, at none of them is anything to do, and the top-level children
/// lead into `below` and to no `NonStruct` element.
pub open spec fn structure_is_clean(doc: DocumentValue, parts: Parts, below: Set<ObjectId>) -> bool {
    let base = with_pages(doc.objects, parts.pages, parts.pages_id);
    &&& base.dom().finite()
    &&& holds_structure(base, below)
    &&& lead_into(parts.kids, below)
    &&& nothing_to_dissolve(base, parts.kids)
    &&& forall|n: ObjectId| #[trigger] below.contains(n) ==> clean_node(base, n)
}

/// In the assembled document the structure tree root stands under its id:
/// its one child is the `Document` element, it has no role, and the
/// sanitizer has nothing to do at it.
proof fn lemma_root_is_clean(doc: DocumentValue, parts: Parts)
    requires
        numbers_given_out(doc, parts),
        doc.objects.contains_key(parts.catalog_id),
        doc.objects.contains_key(parts.pages_id),
    ensures
        assemble(doc, parts).objects.contains_key(struct_tree_root_id(doc.max_id)),
        child_refs(assemble(doc, parts).objects, struct_tree_root_id(doc.max_id)) == seq![
            document_element_id(doc.max_id),
        ],
        clean_node(assemble(doc, parts).objects, struct_tree_root_id(doc.max_id)),
{
    let pt_id = parent_tree_id(doc.max_id);
    let el_id = document_element_id(doc.max_id);
    let root_id = struct_tree_root_id(doc.max_id);
    let base = with_pages(doc.objects, parts.pages, parts.pages_id);
    let out = assemble(doc, parts).objects;
    lemma_names_apart();
    let root_value = struct_tree_root_value(el_id, pt_id, parts.final_offset, parts.role_map);
    assert(out.contains_key(root_id) && out[root_id] == root_value) by {
        let added = base.insert(pt_id, parent_tree(parts.nums)).insert(el_id, document_element(parts.kids));
        let wired = reparent_all(added, parts.kids, el_id);
        let rooted = wired.insert(root_id, root_value);
        let catalogued = with_catalog(rooted, parts.catalog_id, parts.pages_id, root_id);
        assert(out == with_page_tree(catalogued, parts.pages_id, parts.page_ids));
        assert(parts.catalog_id != root_id && parts.pages_id != root_id);
    }
    let root_dict = root_value->Dictionary_0;
    lemma_resolve(out, root_id);
    assert(get_dictionary(out, root_id) == Ok::<Map<Seq<u8>, Value>, PdfError>(root_dict));
    assert(root_dict.contains_key(name("K")) && root_dict[name("K")] == Value::Reference(el_id));
    assert(!root_dict.contains_key(name("S")));
    let kids = kids_of(root_dict);
    assert(kids =~= seq![Value::Reference(el_id)]);
    assert(kids.drop_last() =~= Seq::<Value>::empty());
    assert(refs_in(kids.drop_last()) =~= Seq::<ObjectId>::empty());
    assert(refs_in(kids) =~= seq![el_id]);
    lemma_document_element_of_assembled(doc, parts);
    lemma_resolve(out, el_id);
    assert(!is_nonstruct_node(out, el_id));
    assert(nothing_to_dissolve(out, kids));
}

/// In the assembled document the `Document` element holds the top-level
/// children, and the sanitizer has nothing to do at it where none of them
/// leads to a `NonStruct` element.
proof fn lemma_document_element_is_clean(doc: DocumentValue, parts: Parts, below: Set<ObjectId>)
    requires
        numbers_given_out(doc, parts),
        doc.objects.contains_key(parts.catalog_id),
        doc.objects.contains_key(parts.pages_id),
        agree_below(with_pages(doc.objects, parts.pages, parts.pages_id), assemble(doc, parts).objects, below),
        lead_into(parts.kids, below),
        nothing_to_dissolve(with_pages(doc.objects, parts.pages, parts.pages_id), parts.kids),
    ensures
        child_refs(assemble(doc, parts).objects, document_element_id(doc.max_id)) == refs_in(parts.kids),
        clean_node(assemble(doc, parts).objects, document_element_id(doc.max_id)),
{
    let el_id = document_element_id(doc.max_id);
    let base = with_pages(doc.objects, parts.pages, parts.pages_id);
    let out = assemble(doc, parts).objects;
    lemma_names_apart();
    lemma_document_element_of_assembled(doc, parts);
    let el_dict = out[el_id]->Dictionary_0;
    lemma_resolve(out, el_id);
    assert(get_dictionary(out, el_id) == Ok::<Map<Seq<u8>, Value>, PdfError>(el_dict));
    assert(kids_of(el_dict) == parts.kids);
    assert(role_of(el_dict) == Some(name("Document")));
    assert forall|t: int| 0 <= t < parts.kids.len() implies !((
    #[trigger] parts.kids[t]) matches Value::Reference(c) && is_nonstruct_node(out, c)) by {
        if let Value::Reference(c) = parts.kids[t] {
            lemma_reads_below(base, out, below, c);
        }
    }
}

/// The walk through the assembled document from its structure tree root
/// meets that root, the `Document` element, and elements of the structure
/// below.
proof fn lemma_walk_of_assembled(doc: DocumentValue, parts: Parts, below: Set<ObjectId>, i: int)
    requires
        numbers_given_out(doc, parts),
        doc.objects.contains_key(parts.catalog_id),
        doc.objects.contains_key(parts.pages_id),
        agree_below(with_pages(doc.objects, parts.pages, parts.pages_id), assemble(doc, parts).objects, below),
        lead_into(parts.kids, below),
        nothing_to_dissolve(with_pages(doc.objects, parts.pages, parts.pages_id), parts.kids),
        0 <= i < walk(assemble(doc, parts).objects, struct_tree_root_id(doc.max_id)).len(),
    ensures
        ({
            let n = walk(assemble(doc, parts).objects, struct_tree_root_id(doc.max_id))[i];
            n == struct_tree_root_id(doc.max_id) || n == document_element_id(doc.max_id) || below.contains(n)
        }),
{
    let el_id = document_element_id(doc.max_id);
    let root_id = struct_tree_root_id(doc.max_id);
    let base = with_pages(doc.objects, parts.pages, parts.pages_id);
    let out = assemble(doc, parts).objects;
    lemma_root_is_clean(doc, parts);
    lemma_document_element_is_clean(doc, parts, below);
    let inside = |id: ObjectId| id == root_id || id == el_id || below.contains(id);
    assert forall|n: ObjectId, t: int|
        inside(n) && 0 <= t < child_refs(out, n).len() && out.contains_key(
            #[trigger] child_refs(out, n)[t],
        ) implies inside(child_refs(out, n)[t]) by {
        let c = child_refs(out, n)[t];
        if below.contains(n) {
            lemma_reads_below(base, out, below, n);
            let kids = kids_of(out[n]->Dictionary_0);
            lemma_refs_in(kids, t);
            let u = choose|u: int| 0 <= u < kids.len() && kids[u] == Value::Reference(c);
            assert(kids[u] matches Value::Reference(x) ==> below.contains(x));
        } else if n == el_id {
            lemma_refs_in(parts.kids, t);
            let u = choose|u: int| 0 <= u < parts.kids.len() && parts.kids[u] == Value::Reference(c);
            assert(parts.kids[u] matches Value::Reference(x) ==> below.contains(x));
        } else {
            assert(c == el_id);
        }
    }
    assert(seq![root_id].no_duplicates());
    lemma_walk_from(out, seq![root_id], 0, out.dom().len(), inside);
    assert(inside(walk(out, root_id)[i]));
}

/// Sanitizing the merged document changes nothing, where the structure that
/// was handed to assembling gave the sanitizer nothing to do: assembling
/// adds a structure tree root and a `Document` element at which there is
/// nothing to do, and leaves the children, roles and types of the elements
/// below as they were. `merged` is a document with the assembled objects
/// whose catalog names the assembled structure tree root.
pub proof fn lemma_assembled_is_clean(doc: DocumentValue, parts: Parts, below: Set<ObjectId>, merged: DocumentValue)
    requires
        numbers_given_out(doc, parts),
        doc.objects.contains_key(parts.catalog_id),
        doc.objects.contains_key(parts.pages_id),
        structure_is_clean(doc, parts, below),
        merged.objects == assemble(doc, parts).objects,
        struct_tree_root(merged) == Some(struct_tree_root_id(doc.max_id)),
    ensures
        clean(merged),
        sanitize(merged) == merged,
{
    let el_id = document_element_id(doc.max_id);
    let root_id = struct_tree_root_id(doc.max_id);
    let base = with_pages(doc.objects, parts.pages, parts.pages_id);
    let out = merged.objects;
    // The elements below are as they were.
    assert forall|n: ObjectId| #[trigger] below.contains(n) implies out.contains_key(n) && same_element(
        base[n],
        out[n],
    ) by {
        lemma_assembling_keeps_elements(doc, parts, n);
    }
    lemma_root_is_clean(doc, parts);
    lemma_document_element_is_clean(doc, parts, below);
    let nodes = walk(out, root_id);
    assert forall|i: int| 0 <= i < nodes.len() implies clean_node(out, #[trigger] nodes[i]) by {
        lemma_walk_of_assembled(doc, parts, below, i);
        if below.contains(nodes[i]) {
            lemma_clean_below(base, out, below, nodes[i]);
        }
    }
    lemma_sanitize_clean(merged);
}

/// Sanitizing the document that finishing a merger gives changes nothing,
/// where the structure that the merger took in gives the sanitizer nothing
/// to do among the objects and pages of the merger. `catalog_id`,
/// `pages_id` and `page_ids` are what finishing chose, and `merged` is the
/// document that it gave: the assembled objects under the trailer that
/// names the catalog.
pub proof fn lemma_merged_is_clean(
    st: MergerValue,
    catalog_id: ObjectId,
    pages_id: ObjectId,
    page_ids: Seq<ObjectId>,
    below: Set<ObjectId>,
    merged: DocumentValue,
)
    requires
        numbers_given_out(st.skeleton(catalog_id, pages_id), st.parts(catalog_id, pages_id, page_ids)),
        is_first_of_type(st.objects, name("Catalog"), catalog_id),
        is_first_of_type(st.objects, name("Pages"), pages_id),
        st.objects[catalog_id] is Dictionary,
        st.objects[pages_id] is Dictionary,
        structure_is_clean(st.skeleton(catalog_id, pages_id), st.parts(catalog_id, pages_id, page_ids), below),
        merged.objects == assemble(
            st.skeleton(catalog_id, pages_id),
            st.parts(catalog_id, pages_id, page_ids),
        ).objects,
        merged.trailer == trailer_value(catalog_id, merged.objects.dom().len()),
    ensures
        clean(merged),
        sanitize(merged) == merged,
{
    let doc = st.skeleton(catalog_id, pages_id);
    let parts = st.parts(catalog_id, pages_id, page_ids);
    assert(name("Catalog") != name("Pages") && name("Root") != name("Size")) by {
        reveal_strlit("Catalog");
        reveal_strlit("Pages");
        reveal_strlit("Root");
        reveal_strlit("Size");
        lemma_name_bytes("Catalog");
        lemma_name_bytes("Pages");
        lemma_name_bytes("Root");
        lemma_name_bytes("Size");
        assert(name("Catalog")[0] == "Catalog"@[0] as u8);
        assert(name("Pages")[0] == "Pages"@[0] as u8);
        assert(name("Root")[0] == "Root"@[0] as u8);
        assert(name("Size")[0] == "Size"@[0] as u8);
        assert("Catalog"@[0] == 'C' && "Pages"@[0] == 'P' && "Root"@[0] == 'R' && "Size"@[0] == 'S');
    }
    assert(doc.objects.contains_key(catalog_id) && doc.objects[catalog_id] is Dictionary);
    assert(doc.objects.contains_key(pages_id) && doc.objects[pages_id] is Dictionary);
    lemma_roots_of_assembled(doc, parts);
    lemma_resolve(merged.objects, catalog_id);
    assert(merged.catalog_id() == Ok::<ObjectId, PdfError>(catalog_id));
    assert(struct_tree_root(merged) == Some(struct_tree_root_id(doc.max_id)));
    lemma_assembled_is_clean(doc, parts, below, merged);
}

} // verus!
