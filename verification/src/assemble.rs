//! Assembling the merged document: the pages under one page tree root, one
//! parent tree, one `Document` element over the top-level structure of the
//! inputs, and the structure tree root in the catalog.

use crate::bytes::{copy_bytes, name};

use crate::document::{Document, DocumentValue};
use crate::helpers::{set_parent_link, with_parent};
use crate::object::{
    array_value, Dictionary, Object, ObjectId, ObjectKind, PdfError, type_error, Value,
};
use crate::table::{lists_keys, ObjectTable};
use vstd::prelude::*;

verus! {

/// A page with the page tree root as its parent. An object that is no
/// dictionary is no page and is left out.
pub open spec fn linked_page(page: Value, pages_id: ObjectId) -> Option<Value> {
    match page {
        Value::Dictionary(d) => Some(
            Value::Dictionary(d.insert(name("Parent"), Value::Reference(pages_id))),
        ),
        _ => None,
    }
}

/// The objects after the pages were put among them, each with the page tree
/// root as its parent.
pub open spec fn with_pages(
    objects: Map<ObjectId, Value>,
    pages: Map<ObjectId, Value>,
    pages_id: ObjectId,
) -> Map<ObjectId, Value> {
    Map::new(
        |id: ObjectId| objects.contains_key(id) || (pages.contains_key(id) && pages[id] is Dictionary),
        |id: ObjectId|
            if pages.contains_key(id) && pages[id] is Dictionary {
                linked_page(pages[id], pages_id)->Some_0
            } else {
                objects[id]
            },
    )
}

/// The parent tree: a number tree with the given entries.
pub open spec fn parent_tree(nums: Seq<Value>) -> Value {
    Value::Dictionary(Map::<Seq<u8>, Value>::empty().insert(name("Nums"), Value::Array(nums)))
}

/// The `Document` element over the given children.
pub open spec fn document_element(kids: Seq<Value>) -> Value {
    Value::Dictionary(
        Map::<Seq<u8>, Value>::empty().insert(name("Type"), Value::Name(name("StructElem"))).insert(
            name("S"),
            Value::Name(name("Document")),
        ).insert(name("K"), Value::Array(kids)),
    )
}

/// The structure tree root.
pub open spec fn struct_tree_root_value(
    document_id: ObjectId,
    parent_tree_id: ObjectId,
    next_key: i64,
    role_map: Map<Seq<u8>, Value>,
) -> Value {
    Value::Dictionary(
        Map::<Seq<u8>, Value>::empty().insert(name("Type"), Value::Name(name("StructTreeRoot"))).insert(
            name("K"),
            Value::Reference(document_id),
        ).insert(name("ParentTree"), Value::Reference(parent_tree_id)).insert(
            name("ParentTreeNextKey"),
            Value::Integer(next_key),
        ).insert(name("RoleMap"), Value::Dictionary(role_map)),
    )
}

/// The mark of a tagged document.
pub open spec fn mark_info() -> Value {
    Value::Dictionary(Map::<Seq<u8>, Value>::empty().insert(name("Marked"), Value::Boolean(true)))
}

/// The objects after each element that `kids` refers to got `parent` as its
/// parent, in order.
pub open spec fn reparent_all(objects: Map<ObjectId, Value>, kids: Seq<Value>, parent: ObjectId) -> Map<
    ObjectId,
    Value,
>
    decreases kids.len(),
{
    if kids.len() == 0 {
        objects
    } else {
        let before = reparent_all(objects, kids.drop_last(), parent);
        match kids.last() {
            Value::Reference(id) => with_parent(before, id, parent),
            _ => before,
        }
    }
}

/// The objects after the catalog got the page tree root, the structure tree
/// root and the mark. Where no dictionary stands under `catalog_id`, nothing
/// changes.
pub open spec fn with_catalog(
    objects: Map<ObjectId, Value>,
    catalog_id: ObjectId,
    pages_id: ObjectId,
    struct_tree_root_id: ObjectId,
) -> Map<ObjectId, Value> {
    if objects.contains_key(catalog_id) && objects[catalog_id] is Dictionary {
        objects.insert(
            catalog_id,
            Value::Dictionary(
                objects[catalog_id]->Dictionary_0.insert(name("Pages"), Value::Reference(pages_id)).insert(
                    name("StructTreeRoot"),
                    Value::Reference(struct_tree_root_id),
                ).insert(name("MarkInfo"), mark_info()),
            ),
        )
    } else {
        objects
    }
}

/// References to the given ids, in their order.
pub open spec fn references_to(ids: Seq<ObjectId>) -> Seq<Value> {
    Seq::new(ids.len(), |i: int| Value::Reference(ids[i]))
}

/// The number of pages as an integer object holds it.
pub open spec fn count_value(n: nat) -> i64 {
    if n <= i64::MAX {
        n as i64
    } else {
        i64::MAX
    }
}

/// The objects after the page tree root got its pages and their number.
/// Where no dictionary stands under `pages_id`, nothing changes.
pub open spec fn with_page_tree(
    objects: Map<ObjectId, Value>,
    pages_id: ObjectId,
    page_ids: Seq<ObjectId>,
) -> Map<ObjectId, Value> {
    if objects.contains_key(pages_id) && objects[pages_id] is Dictionary {
        objects.insert(
            pages_id,
            Value::Dictionary(
                objects[pages_id]->Dictionary_0.insert(
                    name("Count"),
                    Value::Integer(count_value(page_ids.len())),
                ).insert(name("Kids"), Value::Array(references_to(page_ids))),
            ),
        )
    } else {
        objects
    }
}

/// The id of the parent tree, the first of the three objects that
/// assembling adds after the highest object number that was given out.
pub open spec fn parent_tree_id(max_id: u32) -> ObjectId {
    ((max_id + 1) as u32, 0u16)
}

/// The id of the `Document` element, the second of the three.
pub open spec fn document_element_id(max_id: u32) -> ObjectId {
    ((max_id + 2) as u32, 0u16)
}

/// The id of the structure tree root, the third of the three.
pub open spec fn struct_tree_root_id(max_id: u32) -> ObjectId {
    ((max_id + 3) as u32, 0u16)
}

/// What goes into the merged document besides its skeleton.
pub struct Parts {
    /// The id of the catalog.
    pub catalog_id: ObjectId,
    /// The id of the page tree root.
    pub pages_id: ObjectId,
    /// The pages.
    pub pages: Map<ObjectId, Value>,
    /// The ids of the pages, in the order of the ids.
    pub page_ids: Seq<ObjectId>,
    /// The top-level structure, in the order of the inputs.
    pub kids: Seq<Value>,
    /// The entries of the parent tree.
    pub nums: Seq<Value>,
    /// The role map.
    pub role_map: Map<Seq<u8>, Value>,
    /// The next free key of the parent tree.
    pub final_offset: i64,
}

/// The merged document, assembled from its skeleton and its parts.
pub open spec fn assemble(doc: DocumentValue, parts: Parts) -> DocumentValue {
    let parent_tree_id = parent_tree_id(doc.max_id);
    let document_id = document_element_id(doc.max_id);
    let root_id = struct_tree_root_id(doc.max_id);
    let linked = with_pages(doc.objects, parts.pages, parts.pages_id);
    let added = linked.insert(parent_tree_id, parent_tree(parts.nums)).insert(
        document_id,
        document_element(parts.kids),
    );
    let wired = reparent_all(added, parts.kids, document_id);
    let rooted = wired.insert(
        root_id,
        struct_tree_root_value(document_id, parent_tree_id, parts.final_offset, parts.role_map),
    );
    let catalogued = with_catalog(rooted, parts.catalog_id, parts.pages_id, root_id);
    DocumentValue {
        objects: with_page_tree(catalogued, parts.pages_id, parts.page_ids),
        max_id: root_id.0,
        ..doc
    }
}

/// What stands against taking the object under `id` for a dictionary:
/// nothing where a dictionary stands there.
pub open spec fn dictionary_at(objects: Map<ObjectId, Value>, id: ObjectId) -> Result<(), PdfError> {
    if !objects.contains_key(id) {
        Err(PdfError::ObjectNotFound { number: id.0, generation: id.1 })
    } else if objects[id] is Dictionary {
        Ok(())
    } else {
        Err(type_error(objects[id], ObjectKind::Dictionary))
    }
}

/// Whether the merged document can be assembled from a skeleton. It cannot
/// where the highest object number that was given out is one of the last
/// three, nor where the catalog or the page tree root is no dictionary of the
/// skeleton; the first of these that holds is the error.
pub open spec fn assemble_outcome(doc: DocumentValue, catalog_id: ObjectId, pages_id: ObjectId) -> Result<
    (),
    PdfError,
> {
    if doc.max_id > u32::MAX - 3 {
        Err(PdfError::ObjectIdOverflow)
    } else if dictionary_at(doc.objects, catalog_id) is Err {
        dictionary_at(doc.objects, catalog_id)
    } else {
        dictionary_at(doc.objects, pages_id)
    }
}

spec fn listed_page(ids: Seq<ObjectId>, pages: Map<ObjectId, Value>, i: int, id: ObjectId) -> bool {
    exists|j: int| 0 <= j < i && #[trigger] ids[j] == id && pages[id] is Dictionary
}

/// Puts the pages among the objects of the document, each with the page
/// tree root as its parent.
fn link_pages(document: &mut Document, pages: &ObjectTable, pages_id: ObjectId)
    ensures
        final(document)@ == (DocumentValue {
            objects: with_pages(old(document)@.objects, pages@, pages_id),
            ..old(document)@
        }),
{
    let n = pages.len();
    let ghost ids = pages.ids();
    let ghost start = document@.objects;
    let mut i: usize = 0;
    while i < n
        invariant
            i <= n,
            n == ids.len(),
            ids == pages.ids(),
            lists_keys(ids, pages@),
            document@.version == old(document)@.version,
            document@.trailer == old(document)@.trailer,
            document@.max_id == old(document)@.max_id,
            start == old(document)@.objects,
            forall|id: ObjectId|
                #[trigger] document@.objects.contains_key(id) <==> start.contains_key(id) || listed_page(
                    ids,
                    pages@,
                    i as int,
                    id,
                ),
            forall|id: ObjectId|
                document@.objects.contains_key(id) ==> #[trigger] document@.objects[id] == (
                if listed_page(ids, pages@, i as int, id) {
                    linked_page(pages@[id], pages_id)->Some_0
                } else {
                    start[id]
                }),
        decreases n - i,
    {
        let id = pages.id_at(i);
        let ghost before = document@.objects;
        if let Object::Dictionary(d) = pages.object_at(i) {
            let mut dict = d.clone();
            dict.set(copy_bytes("Parent".as_bytes()), Object::Reference(pages_id));
            document.objects.insert(id, Object::Dictionary(dict));
        }
        proof {
            assert forall|x: ObjectId|
                #[trigger] listed_page(ids, pages@, i + 1, x) == (listed_page(ids, pages@, i as int, x)
                    || (x == id && pages@[id] is Dictionary)) by {
                if x == id && pages@[id] is Dictionary {
                    assert(ids[i as int] == x);
                }
                if listed_page(ids, pages@, i + 1, x) {
                    let j = choose|j: int| 0 <= j < i + 1 && #[trigger] ids[j] == x && pages@[x] is Dictionary;
                    if j < i {
                        assert(listed_page(ids, pages@, i as int, x));
                    }
                }
            }
        }
        i += 1;
    }
    proof {
        assert forall|x: ObjectId|
            #[trigger] listed_page(ids, pages@, n as int, x) == (pages@.contains_key(x)
                && pages@[x] is Dictionary) by {
            if pages@.contains_key(x) && pages@[x] is Dictionary {
                let j = choose|j: int| 0 <= j < ids.len() && #[trigger] ids[j] == x;
                assert(ids[j] == x);
            }
            if listed_page(ids, pages@, n as int, x) {
                let j = choose|j: int| 0 <= j < n && #[trigger] ids[j] == x && pages@[x] is Dictionary;
                assert(pages@.contains_key(ids[j]));
            }
        }
        assert forall|x: ObjectId| document@.objects.contains_key(x) == with_pages(
            start,
            pages@,
            pages_id,
        ).contains_key(x) by {
            assert(listed_page(ids, pages@, n as int, x) == (pages@.contains_key(x)
                && pages@[x] is Dictionary));
        }
        assert forall|x: ObjectId| document@.objects.contains_key(x) implies document@.objects[x]
            == with_pages(start, pages@, pages_id)[x] by {
            assert(listed_page(ids, pages@, n as int, x) == (pages@.contains_key(x)
                && pages@[x] is Dictionary));
        }
        assert(document@.objects =~= with_pages(start, pages@, pages_id));
    }
}

/// Gives each element that `kids` refers to `parent` as its parent.
fn reparent(document: &mut Document, kids: &Vec<Object>, parent: ObjectId)
    ensures
        final(document)@ == (DocumentValue {
            objects: reparent_all(old(document)@.objects, array_value(kids@), parent),
            ..old(document)@
        }),
{
    let ghost kidsv = array_value(kids@);
    let ghost start = document@.objects;
    let mut i: usize = 0;
    while i < kids.len()
        invariant
            i <= kids@.len(),
            kidsv == array_value(kids@),
            document@.version == old(document)@.version,
            document@.trailer == old(document)@.trailer,
            document@.max_id == old(document)@.max_id,
            document@.objects == reparent_all(start, kidsv.take(i as int), parent),
        decreases kids@.len() - i,
    {
        proof {
            assert(kidsv.take(i + 1).drop_last() =~= kidsv.take(i as int));
            assert(kidsv.take(i + 1).last() == kids@[i as int]@);
        }
        if let Object::Reference(id) = &kids[i] {
            set_parent_link(document, *id, parent);
        }
        i += 1;
    }
    proof {
        assert(kidsv.take(kids@.len() as int) =~= kidsv);
    }
}

/// References to the ids of a table, in their order.
fn references_to_ids(pages: &ObjectTable) -> (r: Vec<Object>)
    ensures
        array_value(r@) == references_to(pages.ids()),
{
    let n = pages.len();
    let mut r: Vec<Object> = Vec::new();
    let mut i: usize = 0;
    while i < n
        invariant
            i <= n,
            n == pages.ids().len(),
            r@.len() == i,
            forall|j: int| 0 <= j < i ==> r@[j]@ == Value::Reference(pages.ids()[j]),
        decreases n - i,
    {
        let id = pages.id_at(i);
        r.push(Object::Reference(id));
        i += 1;
    }
    proof {
        assert(array_value(r@) =~= references_to(pages.ids()));
    }
    r
}

/// The number of pages as an integer object holds it.
fn count_of(n: usize) -> (r: i64)
    ensures
        r == count_value(n as nat),
{
    if n as u64 <= i64::MAX as u64 {
        n as i64
    } else {
        i64::MAX
    }
}

/// Whether a dictionary stands under `id`.
fn check_dictionary(document: &Document, id: ObjectId) -> (r: Result<(), PdfError>)
    ensures
        r == dictionary_at(document@.objects, id),
{
    match document.objects.get(id) {
        Some(o) => match o.as_dict() {
            Ok(_) => Ok(()),
            Err(e) => Err(e),
        },
        None => Err(PdfError::ObjectNotFound { number: id.0, generation: id.1 }),
    }
}

/// Assembles the merged document from its skeleton and its parts. Three
/// objects are added; there is no room for them where the highest object
/// number that was given out is one of the last three. A skeleton in which
/// the catalog or the page tree root is no dictionary is refused.
pub fn assemble_merged_document(
    mut document: Document,
    catalog_id: ObjectId,
    pages_id: ObjectId,
    documents_pages: ObjectTable,
    global_kids: Vec<Object>,
    global_nums: Vec<Object>,
    global_role_map: Dictionary,
    final_offset: i64,
) -> (r: Result<Document, PdfError>)
    ensures
        match r {
            Ok(out) => assemble_outcome(document@, catalog_id, pages_id) is Ok && out@ == assemble(
                document@,
                (Parts {
                    catalog_id,
                    pages_id,
                    pages: documents_pages@,
                    page_ids: documents_pages.ids(),
                    kids: array_value(global_kids@),
                    nums: array_value(global_nums@),
                    role_map: global_role_map@,
                    final_offset,
                }),
            ),
            Err(e) => assemble_outcome(document@, catalog_id, pages_id) == Err::<(), PdfError>(e),
        },
{
    if document.max_id > u32::MAX - 3 {
        return Err(PdfError::ObjectIdOverflow);
    }
    if let Err(e) = check_dictionary(&document, catalog_id) {
        return Err(e);
    }
    if let Err(e) = check_dictionary(&document, pages_id) {
        return Err(e);
    }
    let ghost skeleton = document@;
    link_pages(&mut document, &documents_pages, pages_id);

    let mut tree = Dictionary::new();
    tree.set(copy_bytes("Nums".as_bytes()), Object::Array(global_nums));
    let parent_tree_id = document.add_object(Object::Dictionary(tree));

    let kid_refs = crate::object::copy_objects(&global_kids);
    let mut element = Dictionary::new();
    element.set(copy_bytes("Type".as_bytes()), Object::name("StructElem"));
    element.set(copy_bytes("S".as_bytes()), Object::name("Document"));
    element.set(copy_bytes("K".as_bytes()), Object::Array(kid_refs));
    let document_id = document.add_object(Object::Dictionary(element));

    reparent(&mut document, &global_kids, document_id);

    let mut root = Dictionary::new();
    root.set(copy_bytes("Type".as_bytes()), Object::name("StructTreeRoot"));
    root.set(copy_bytes("K".as_bytes()), Object::Reference(document_id));
    root.set(copy_bytes("ParentTree".as_bytes()), Object::Reference(parent_tree_id));
    root.set(copy_bytes("ParentTreeNextKey".as_bytes()), Object::Integer(final_offset));
    root.set(copy_bytes("RoleMap".as_bytes()), Object::Dictionary(global_role_map));
    let root_id = document.add_object(Object::Dictionary(root));

    let catalog = match document.objects.get(catalog_id) {
        Some(Object::Dictionary(d)) => Some(d.clone()),
        _ => None,
    };
    if let Some(mut cat) = catalog {
        let mut mark = Dictionary::new();
        mark.set(copy_bytes("Marked".as_bytes()), Object::Boolean(true));
        cat.set(copy_bytes("Pages".as_bytes()), Object::Reference(pages_id));
        cat.set(copy_bytes("StructTreeRoot".as_bytes()), Object::Reference(root_id));
        cat.set(copy_bytes("MarkInfo".as_bytes()), Object::Dictionary(mark));
        document.objects.insert(catalog_id, Object::Dictionary(cat));
    }
    let page_tree = match document.objects.get(pages_id) {
        Some(Object::Dictionary(d)) => Some(d.clone()),
        _ => None,
    };
    if let Some(mut tree) = page_tree {
        let n = documents_pages.len();
        tree.set(copy_bytes("Count".as_bytes()), Object::Integer(count_of(n)));
        tree.set(copy_bytes("Kids".as_bytes()), Object::Array(references_to_ids(&documents_pages)));
        document.objects.insert(pages_id, Object::Dictionary(tree));
    }
    Ok(document)
}

} // verus!
