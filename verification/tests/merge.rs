use web2pdf::assemble::assemble_merged_document;
use web2pdf::document::Document;
use web2pdf::merge::{MergeError, Merger};
use web2pdf::object::{Dictionary, Object, ObjectId, ObjectKind, PdfError, Stream};
use web2pdf::table::ObjectTable;

fn name(s: &str) -> Object {
    Object::Name(s.as_bytes().to_vec())
}

fn dict(entries: Vec<(&str, Object)>) -> Dictionary {
    let mut d = Dictionary::new();
    for (k, v) in entries {
        d.set(k.as_bytes().to_vec(), v);
    }
    d
}

/// A document whose objects are numbered from `start`: catalog, page tree
/// root, then the pages, then, where it is tagged, the structure tree root,
/// the parent tree, a `Document` element and one paragraph for each page.
fn input(start: u32, pages: u32, is_tagged: bool) -> (Document, Vec<ObjectId>) {
    let r = |n: u32| Object::Reference((start + n, 0));
    let mut doc = Document::with_version("1.7".to_string());
    doc.trailer.set(b"Root".to_vec(), r(0));
    let ids: Vec<ObjectId> = (0..pages).map(|i| (start + 2 + i, 0)).collect();
    let mut cat = dict(vec![("Type", name("Catalog")), ("Pages", r(1))]);
    doc.set_object((start + 1, 0), Object::Dictionary(dict(vec![
        ("Type", name("Pages")),
        ("Kids", Object::Array(ids.iter().map(|i| Object::Reference(*i)).collect())),
        ("Count", Object::Integer(pages as i64)),
    ])));
    for (i, id) in ids.iter().enumerate() {
        let mut page = dict(vec![("Type", name("Page")), ("Parent", r(1))]);
        if is_tagged {
            page.set(b"StructParents".to_vec(), Object::Integer(i as i64));
        }
        doc.set_object(*id, Object::Dictionary(page));
    }
    let mut last = 1 + pages;
    if is_tagged {
        let root = 2 + pages;
        let tree = root + 1;
        let element = root + 2;
        cat.set(b"StructTreeRoot".to_vec(), r(root));
        let mut nums = Vec::new();
        let mut paragraphs = Vec::new();
        for i in 0..pages {
            let p = element + 1 + i;
            nums.push(Object::Integer(i as i64));
            nums.push(Object::Array(vec![r(p)]));
            paragraphs.push(r(p));
            doc.set_object((start + p, 0), Object::Dictionary(dict(vec![
                ("Type", name("StructElem")),
                ("S", name("P")),
                ("P", r(element)),
                ("Pg", Object::Reference(ids[i as usize])),
                ("K", Object::Integer(0)),
            ])));
        }
        doc.set_object((start + root, 0), Object::Dictionary(dict(vec![
            ("Type", name("StructTreeRoot")),
            ("K", r(element)),
            ("ParentTree", r(tree)),
            ("ParentTreeNextKey", Object::Integer(pages as i64)),
            ("RoleMap", Object::Dictionary(dict(vec![("Para", name("P"))]))),
        ])));
        doc.set_object((start + tree, 0), Object::Dictionary(dict(vec![("Nums", Object::Array(nums))])));
        doc.set_object((start + element, 0), Object::Dictionary(dict(vec![
            ("Type", name("StructElem")),
            ("S", name("Document")),
            ("P", r(root)),
            ("K", Object::Array(paragraphs)),
        ])));
        last = element + pages;
    }
    doc.set_object((start, 0), Object::Dictionary(cat));
    doc.max_id = start + last;
    (doc, ids)
}

fn d<'a>(doc: &'a Document, id: ObjectId) -> &'a Dictionary {
    doc.get_dictionary(id).expect("a dictionary")
}

#[test]
fn empty_table_of_contents_is_refused() {
    let merger = Merger::new();
    assert_eq!(merger.max_id(), 1);
    assert_eq!(merger.current_offset(), 0);
    assert_eq!(merger.finish().err(), Some(MergeError::CatalogNotFound));
}

#[test]
fn documents_without_a_page_tree_root_are_refused() {
    let mut doc = Document::with_version("1.7".to_string());
    doc.set_object((1, 0), Object::Dictionary(dict(vec![("Type", name("Catalog"))])));
    doc.max_id = 1;
    let mut merger = Merger::new();
    assert_eq!(merger.absorb(doc, vec![], "a".to_string(), 0), Ok(()));
    assert_eq!(merger.bookmark_count(), 0);
    assert_eq!(merger.finish().err(), Some(MergeError::PagesNotFound));
}

#[test]
fn single_untagged_page_gives_one_page_and_one_bookmark() {
    let (doc, pages) = input(1, 1, false);
    let mut merger = Merger::new();
    assert_eq!(merger.absorb(doc, pages, "Only".to_string(), 0), Ok(()));
    assert_eq!(merger.max_id(), 4);
    assert_eq!(merger.current_offset(), 1);
    assert_eq!(merger.page_count(), 1);
    assert_eq!(merger.bookmark_count(), 1);
    let merged = merger.finish().unwrap();
    assert_eq!(merged.catalog_id, (1, 0));
    assert_eq!(merged.pages_id, (2, 0));
    assert_eq!(merged.page_ids, vec![(3, 0)]);
    let tree = d(&merged.document, (2, 0));
    assert_eq!(tree.get(b"Count").unwrap().as_i64(), Ok(1));
    let kids = tree.get(b"Kids").unwrap().as_array().unwrap();
    assert_eq!(kids.len(), 1);
    assert_eq!(kids[0].as_reference(), Ok((3, 0)));
    assert_eq!(d(&merged.document, (3, 0)).get(b"Parent").unwrap().as_reference(), Ok((2, 0)));
    assert_eq!(merged.bookmarks.len(), 1);
    assert_eq!(merged.bookmarks[0].title, "Only");
    assert_eq!(merged.bookmarks[0].level, 0);
    assert_eq!(merged.bookmarks[0].parent, None);
    assert_eq!(merged.bookmarks[0].page, (3, 0));
    assert_eq!(merged.bookmarks[0].page_index, 0);
    // The merged document is tagged, with an empty `Document` element.
    let cat = d(&merged.document, (1, 0));
    let root = cat.get(b"StructTreeRoot").unwrap().as_reference().unwrap();
    let element = d(&merged.document, root).get(b"K").unwrap().as_reference().unwrap();
    assert!(d(&merged.document, element).get(b"K").unwrap().as_array().unwrap().is_empty());
    assert_eq!(d(&merged.document, root).get(b"ParentTreeNextKey").unwrap().as_i64(), Ok(1));
}

#[test]
fn two_tagged_documents_are_merged_under_one_document_element() {
    let mut merger = Merger::new();
    let (first, pages) = input(merger.max_id(), 3, true);
    assert_eq!(first.max_id, 11);
    assert_eq!(merger.absorb(first, pages, "First".to_string(), 0), Ok(()));
    assert_eq!(merger.max_id(), 12);
    assert_eq!(merger.current_offset(), 3);
    let (second, pages) = input(merger.max_id(), 2, true);
    assert_eq!(merger.absorb(second, pages, "Second".to_string(), 0), Ok(()));
    assert_eq!(merger.current_offset(), 5);
    assert_eq!(merger.page_count(), 5);
    let next = merger.max_id();
    assert_eq!(next, 21);
    let merged = merger.finish().unwrap();
    let doc = &merged.document;

    // Five pages, in the order of the table of contents.
    assert_eq!(merged.page_ids, vec![(3, 0), (4, 0), (5, 0), (14, 0), (15, 0)]);
    let tree = d(doc, merged.pages_id);
    assert_eq!(tree.get(b"Count").unwrap().as_i64(), Ok(5));
    let kids: Vec<ObjectId> = tree.get(b"Kids").unwrap().as_array().unwrap().iter()
        .map(|k| k.as_reference().unwrap()).collect();
    assert_eq!(kids, merged.page_ids);
    for id in &merged.page_ids {
        assert_eq!(d(doc, *id).get(b"Parent").unwrap().as_reference(), Ok(merged.pages_id));
    }
    // The keys of the pages into the parent tree differ.
    let keys: Vec<i64> = merged.page_ids.iter()
        .map(|id| d(doc, *id).get(b"StructParents").unwrap().as_i64().unwrap()).collect();
    assert_eq!(keys, vec![0, 1, 2, 3, 4]);

    // The three objects that are added.
    let parent_tree = (next + 1, 0);
    let element = (next + 2, 0);
    let root = (next + 3, 0);
    assert_eq!(doc.max_id, next + 3);
    let cat = d(doc, merged.catalog_id);
    assert_eq!(merged.catalog_id, (1, 0));
    assert_eq!(cat.get(b"StructTreeRoot").unwrap().as_reference(), Ok(root));
    assert_eq!(cat.get(b"Pages").unwrap().as_reference(), Ok(merged.pages_id));
    assert_eq!(cat.get(b"MarkInfo").unwrap().as_dict().unwrap().get(b"Marked").unwrap().as_bool(), Ok(true));
    let root_dict = d(doc, root);
    assert!(root_dict.has_name("Type", "StructTreeRoot"));
    assert_eq!(root_dict.get(b"K").unwrap().as_reference(), Ok(element));
    assert_eq!(root_dict.get(b"ParentTree").unwrap().as_reference(), Ok(parent_tree));
    assert_eq!(root_dict.get(b"ParentTreeNextKey").unwrap().as_i64(), Ok(5));
    assert_eq!(root_dict.get(b"RoleMap").unwrap().as_dict().unwrap().get(b"Para").unwrap().as_name().unwrap(), b"P");
    let nums = d(doc, parent_tree).get(b"Nums").unwrap().as_array().unwrap();
    let num_keys: Vec<i64> = nums.iter().step_by(2).map(|k| k.as_i64().unwrap()).collect();
    assert_eq!(num_keys, vec![0, 1, 2, 3, 4]);

    // The `Document` element holds the contents of the two, and is their parent.
    let el = d(doc, element);
    assert!(el.has_name("S", "Document"));
    assert!(el.has_name("Type", "StructElem"));
    let top: Vec<ObjectId> = el.get(b"K").unwrap().as_array().unwrap().iter()
        .map(|k| k.as_reference().unwrap()).collect();
    assert_eq!(top, vec![(9, 0), (10, 0), (11, 0), (19, 0), (20, 0)]);
    for id in &top {
        assert_eq!(d(doc, *id).get(b"P").unwrap().as_reference(), Ok(element));
    }
    // The structure tree roots of the inputs and the second catalog are gone.
    assert!(doc.objects.get((6, 0)).is_none());
    assert!(doc.objects.get((16, 0)).is_none());
    assert!(doc.objects.get((12, 0)).is_none());
    assert!(doc.objects.get((13, 0)).is_none());
    assert!(doc.objects.get((8, 0)).is_some());
    // No object took the place of another: what the two documents had, less
    // the second catalog and page tree root and the two structure tree roots,
    // and the three that were added.
    assert_eq!(doc.objects.len(), 11 + 9 - 4 + 3);
    let ids: Vec<ObjectId> = (0..doc.objects.len()).map(|i| doc.objects.id_at(i)).collect();
    assert!(ids.windows(2).all(|w| w[0] < w[1]));
    // The trailer.
    assert_eq!(doc.trailer.get(b"Root").unwrap().as_reference(), Ok((1, 0)));
    assert_eq!(doc.trailer.get(b"Size").unwrap().as_i64(), Ok(doc.objects.len() as i64 + 1));
    assert_eq!(doc.version, "1.7");
    // The bookmarks lead to the first page of each document.
    assert_eq!(merged.bookmarks.len(), 2);
    assert_eq!(merged.bookmarks[0].page, (3, 0));
    assert_eq!(merged.bookmarks[1].page, (14, 0));
    assert_eq!(merged.bookmarks[1].page_index, 3);
    assert_eq!(merged.bookmarks[1].title, "Second");
}

#[test]
fn nested_table_of_contents_shapes_the_outline() {
    let mut merger = Merger::new();
    for (title, level) in [("A", 0u8), ("B", 1), ("C", 1), ("D", 0)] {
        let (doc, pages) = input(merger.max_id(), 1, false);
        assert_eq!(merger.absorb(doc, pages, title.to_string(), level), Ok(()));
    }
    assert_eq!(merger.bookmark_count(), 4);
    let parents: Vec<Option<usize>> = (0..4).map(|i| merger.bookmark(i).parent).collect();
    assert_eq!(parents, vec![None, Some(0), Some(0), None]);
    let titles: Vec<String> = (0..4).map(|i| merger.bookmark(i).title.clone()).collect();
    assert_eq!(titles, vec!["A", "B", "C", "D"]);
    let pages: Vec<ObjectId> = (0..4).map(|i| merger.bookmark(i).page).collect();
    assert_eq!(pages, vec![(3, 0), (6, 0), (9, 0), (12, 0)]);
}

#[test]
fn parent_is_the_last_bookmark_one_level_up() {
    let mut merger = Merger::new();
    // A level without a bookmark one level up hangs at the top; a bookmark
    // at the top makes the deeper ones before it unknown.
    for level in [1u8, 2, 0, 1, 2, 1, 2, 0, 2, 3] {
        let (doc, pages) = input(merger.max_id(), 1, false);
        assert_eq!(merger.absorb(doc, pages, "t".to_string(), level), Ok(()));
    }
    let parents: Vec<Option<usize>> = (0..10).map(|i| merger.bookmark(i).parent).collect();
    assert_eq!(
        parents,
        vec![None, Some(0), None, Some(2), Some(3), Some(2), Some(5), None, None, Some(8)]
    );
}

#[test]
fn document_without_pages_gets_no_bookmark_but_is_taken_in() {
    let mut merger = Merger::new();
    let (doc, _) = input(1, 2, true);
    assert_eq!(merger.absorb(doc, vec![], "None".to_string(), 0), Ok(()));
    assert_eq!(merger.bookmark_count(), 0);
    assert_eq!(merger.page_count(), 0);
    // The offset advances by the next free key of the parent tree.
    assert_eq!(merger.current_offset(), 2);
    let merged = merger.finish().unwrap();
    assert!(merged.page_ids.is_empty());
    assert_eq!(d(&merged.document, (2, 0)).get(b"Count").unwrap().as_i64(), Ok(0));
}

#[test]
fn pages_that_cannot_be_read_are_not_collected() {
    let (doc, mut pages) = input(1, 2, false);
    pages.push((77, 0));
    pages.push((3, 0));
    let mut merger = Merger::new();
    assert_eq!(merger.absorb(doc, pages, "x".to_string(), 0), Ok(()));
    assert_eq!(merger.page_count(), 2);
    let merged = merger.finish().unwrap();
    assert_eq!(merged.page_ids, vec![(3, 0), (4, 0)]);
    assert_eq!(merged.bookmarks[0].page_index, 0);
}

#[test]
fn a_document_that_cannot_be_taken_in_leaves_the_merger_as_it_is() {
    let mut merger = Merger::new();
    let (doc, pages) = input(1, 1, true);
    assert_eq!(merger.absorb(doc, pages, "a".to_string(), 0), Ok(()));

    let (mut full, pages) = input(merger.max_id(), 1, true);
    full.max_id = u32::MAX;
    assert_eq!(merger.absorb(full, pages, "b".to_string(), 0), Err(MergeError::ObjectIdOverflow));

    let (mut far, pages) = input(merger.max_id(), 1, true);
    let page = far.get_dictionary(pages[0]).unwrap().clone();
    let mut page = page;
    page.set(b"StructParents".to_vec(), Object::Integer(i64::MAX));
    far.set_object(pages[0], Object::Dictionary(page));
    assert_eq!(merger.absorb(far, pages, "c".to_string(), 0), Err(MergeError::KeysOutOfRange));

    let (mut big, pages) = input(merger.max_id(), 1, true);
    let root_id = (merger.max_id() + 3, 0);
    let mut root = big.get_dictionary(root_id).unwrap().clone();
    root.set(b"ParentTreeNextKey".to_vec(), Object::Integer(i64::MAX));
    big.set_object(root_id, Object::Dictionary(root));
    assert_eq!(merger.absorb(big, pages, "d".to_string(), 0), Err(MergeError::KeysOutOfRange));

    assert_eq!(merger.max_id(), 8);
    assert_eq!(merger.current_offset(), 1);
    assert_eq!(merger.page_count(), 1);
    assert_eq!(merger.bookmark_count(), 1);
}

#[test]
fn no_room_for_the_added_objects_is_an_error() {
    let mut merger = Merger::new();
    let (mut doc, pages) = input(1, 1, false);
    doc.max_id = u32::MAX - 3;
    assert_eq!(merger.absorb(doc, pages, "a".to_string(), 0), Ok(()));
    assert_eq!(merger.max_id(), u32::MAX - 2);
    assert_eq!(merger.finish().err(), Some(MergeError::ObjectIdOverflow));

    let mut skeleton = Document::with_version("1.7".to_string());
    skeleton.max_id = u32::MAX - 2;
    let r = assemble_merged_document(
        skeleton, (1, 0), (2, 0), ObjectTable::new(), vec![], vec![], Dictionary::new(), 0,
    );
    assert_eq!(r.err(), Some(PdfError::ObjectIdOverflow));
}

#[test]
fn assembling_wires_what_it_is_given() {
    let mut skeleton = Document::with_version("1.7".to_string());
    skeleton.set_object((1, 0), Object::Dictionary(dict(vec![("Type", name("Catalog"))])));
    skeleton.set_object((2, 0), Object::Dictionary(dict(vec![("Type", name("Pages"))])));
    skeleton.set_object((5, 0), Object::Dictionary(dict(vec![("S", name("Sect"))])));
    skeleton.set_object((6, 0), Object::Integer(1));
    skeleton.max_id = 9;
    let mut pages = ObjectTable::new();
    pages.insert((4, 0), Object::Dictionary(dict(vec![("Type", name("Page"))])));
    pages.insert((3, 0), Object::Dictionary(dict(vec![("Type", name("Page"))])));
    pages.insert((7, 0), Object::Integer(0));
    let kids = vec![Object::Reference((5, 0)), Object::Integer(3), Object::Reference((6, 0)), Object::Reference((99, 0))];
    let nums = vec![Object::Integer(0), Object::Reference((5, 0))];
    let doc = assemble_merged_document(
        skeleton, (1, 0), (2, 0), pages, kids, nums, dict(vec![("A", name("B"))]), 17,
    ).unwrap();
    assert_eq!(doc.max_id, 12);
    assert_eq!(d(&doc, (5, 0)).get(b"P").unwrap().as_reference(), Ok((11, 0)));
    assert_eq!(doc.objects.get((6, 0)).unwrap().as_i64(), Ok(1));
    assert!(doc.objects.get((7, 0)).is_none());
    assert!(doc.objects.get((99, 0)).is_none());
    assert_eq!(d(&doc, (11, 0)).get(b"K").unwrap().as_array().unwrap().len(), 4);
    assert_eq!(d(&doc, (10, 0)).get(b"Nums").unwrap().as_array().unwrap().len(), 2);
    assert_eq!(d(&doc, (12, 0)).get(b"ParentTreeNextKey").unwrap().as_i64(), Ok(17));
    // Three entries stand under `Kids`: the count goes by the pages handed in.
    let tree = d(&doc, (2, 0));
    assert_eq!(tree.get(b"Count").unwrap().as_i64(), Ok(3));
    assert_eq!(tree.get(b"Kids").unwrap().as_array().unwrap().len(), 3);
    assert_eq!(d(&doc, (3, 0)).get(b"Parent").unwrap().as_reference(), Ok((2, 0)));
}

#[test]
fn skeleton_without_a_catalog_is_refused() {
    let mut skeleton = Document::with_version("1.7".to_string());
    skeleton.set_object((2, 0), Object::Dictionary(dict(vec![("Type", name("Pages"))])));
    skeleton.max_id = 2;
    let r = assemble_merged_document(
        skeleton, (1, 0), (2, 0), ObjectTable::new(), vec![], vec![], Dictionary::new(), 0,
    );
    assert_eq!(r.err(), Some(PdfError::ObjectNotFound { number: 1, generation: 0 }));

    let mut skeleton = Document::with_version("1.7".to_string());
    skeleton.set_object((1, 0), Object::Integer(7));
    skeleton.set_object((2, 0), Object::Dictionary(dict(vec![("Type", name("Pages"))])));
    skeleton.max_id = 2;
    let r = assemble_merged_document(
        skeleton, (1, 0), (2, 0), ObjectTable::new(), vec![], vec![], Dictionary::new(), 0,
    );
    assert_eq!(
        r.err(),
        Some(PdfError::ObjectType { expected: ObjectKind::Dictionary, found: ObjectKind::Integer })
    );
}

#[test]
fn skeleton_without_a_page_tree_root_is_refused() {
    let mut skeleton = Document::with_version("1.7".to_string());
    skeleton.set_object((1, 0), Object::Dictionary(dict(vec![("Type", name("Catalog"))])));
    skeleton.max_id = 2;
    let r = assemble_merged_document(
        skeleton, (1, 0), (2, 0), ObjectTable::new(), vec![], vec![], Dictionary::new(), 0,
    );
    assert_eq!(r.err(), Some(PdfError::ObjectNotFound { number: 2, generation: 0 }));

    let mut skeleton = Document::with_version("1.7".to_string());
    skeleton.set_object((1, 0), Object::Dictionary(dict(vec![("Type", name("Catalog"))])));
    skeleton.set_object((2, 0), Object::Array(vec![]));
    skeleton.max_id = 2;
    let r = assemble_merged_document(
        skeleton, (1, 0), (2, 0), ObjectTable::new(), vec![], vec![], Dictionary::new(), 0,
    );
    assert_eq!(
        r.err(),
        Some(PdfError::ObjectType { expected: ObjectKind::Dictionary, found: ObjectKind::Array })
    );
}

#[test]
fn roots_that_are_no_dictionaries_are_refused() {
    let stream = |t: &str| {
        Object::Stream(Stream {
            dict: dict(vec![("Type", name(t))]),
            content: vec![],
            allows_compression: true,
            start_position: None,
        })
    };
    let mut doc = Document::with_version("1.7".to_string());
    doc.set_object((1, 0), stream("Catalog"));
    doc.set_object((2, 0), Object::Dictionary(dict(vec![("Type", name("Pages"))])));
    doc.max_id = 2;
    let mut merger = Merger::new();
    assert_eq!(merger.absorb(doc, vec![], "a".to_string(), 0), Ok(()));
    assert_eq!(merger.finish().err(), Some(MergeError::CatalogNotFound));

    let mut doc = Document::with_version("1.7".to_string());
    doc.set_object((1, 0), Object::Dictionary(dict(vec![("Type", name("Catalog"))])));
    doc.set_object((2, 0), stream("Pages"));
    doc.max_id = 2;
    let mut merger = Merger::new();
    assert_eq!(merger.absorb(doc, vec![], "a".to_string(), 0), Ok(()));
    assert_eq!(merger.finish().err(), Some(MergeError::PagesNotFound));
}

use web2pdf::sanitize::sanitize_pdf;

#[test]
fn sanitizing_the_merged_document_changes_nothing() {
    let mut merger = Merger::new();
    let (mut first, pages) = input(merger.max_id(), 3, true);
    assert_eq!(sanitize_pdf(&mut first), Ok(()));
    assert_eq!(merger.absorb(first, pages, "a".to_string(), 0), Ok(()));
    let (mut second, pages) = input(merger.max_id(), 2, true);
    assert_eq!(sanitize_pdf(&mut second), Ok(()));
    assert_eq!(merger.absorb(second, pages, "b".to_string(), 0), Ok(()));
    let mut merged = merger.finish().unwrap().document;
    let before: Vec<(ObjectId, String)> = (0..merged.objects.len())
        .map(|i| (merged.objects.id_at(i), format!("{:?}", merged.objects.object_at(i))))
        .collect();
    assert_eq!(sanitize_pdf(&mut merged), Ok(()));
    let after: Vec<(ObjectId, String)> = (0..merged.objects.len())
        .map(|i| (merged.objects.id_at(i), format!("{:?}", merged.objects.object_at(i))))
        .collect();
    assert_eq!(before, after);
    assert_eq!(
        format!("{:?}", merged.trailer.get(b"Root").unwrap()),
        format!("{:?}", Object::Reference((1, 0)))
    );
}
