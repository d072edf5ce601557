use web2pdf::document::Document;
use web2pdf::extract::{extract_and_shift_structure, read_structure, shift_struct_parents, sum_in_range};
use web2pdf::fix_tagged::fix_tagged_pdf;
use web2pdf::object::{Dictionary, Object, ObjectId};

fn name(s: &str) -> Object {
    Object::Name(s.as_bytes().to_vec())
}

fn dict(entries: Vec<(&str, Object)>) -> Dictionary {
    let mut d = Dictionary::new();
    for (k, v) in entries {
        d.set(k.as_bytes().to_vec(), v);
    }
    d
}

fn r(n: u32) -> Object {
    Object::Reference((n, 0))
}

/// A tagged document: catalog 1, page tree 2, structure tree root 3, parent
/// tree 4, `Document` element 5, pages from 10 on.
fn tagged(pages: u32, next_key: Option<i64>, root_kids: Object) -> (Document, Vec<ObjectId>) {
    let mut doc = Document::with_version("1.7".to_string());
    doc.trailer.set(b"Root".to_vec(), r(1));
    doc.set_object((1, 0), Object::Dictionary(dict(vec![
        ("Type", name("Catalog")),
        ("Pages", r(2)),
        ("StructTreeRoot", r(3)),
    ])));
    let ids: Vec<ObjectId> = (0..pages).map(|i| (10 + i, 0)).collect();
    doc.set_object((2, 0), Object::Dictionary(dict(vec![
        ("Type", name("Pages")),
        ("Kids", Object::Array(ids.iter().map(|i| Object::Reference(*i)).collect())),
        ("Count", Object::Integer(pages as i64)),
    ])));
    let mut root = dict(vec![("Type", name("StructTreeRoot")), ("K", root_kids), ("ParentTree", r(4))]);
    if let Some(k) = next_key {
        root.set(b"ParentTreeNextKey".to_vec(), Object::Integer(k));
    }
    doc.set_object((3, 0), Object::Dictionary(root));
    let mut nums = Vec::new();
    for i in 0..pages {
        nums.push(Object::Integer(i as i64));
        nums.push(Object::Array(vec![r(5)]));
    }
    doc.set_object((4, 0), Object::Dictionary(dict(vec![("Nums", Object::Array(nums))])));
    doc.set_object((5, 0), Object::Dictionary(dict(vec![
        ("Type", name("StructElem")),
        ("S", name("Document")),
        ("K", Object::Array(vec![r(6), Object::Integer(0)])),
    ])));
    doc.set_object((6, 0), Object::Dictionary(dict(vec![("S", name("P"))])));
    for (i, id) in ids.iter().enumerate() {
        doc.set_object(*id, Object::Dictionary(dict(vec![
            ("Type", name("Page")),
            ("Parent", r(2)),
            ("StructParents", Object::Integer(i as i64)),
        ])));
    }
    doc.max_id = 10 + pages;
    (doc, ids)
}

fn key_of(doc: &Document, id: ObjectId) -> i64 {
    doc.get_dictionary(id).unwrap().get(b"StructParents").unwrap().as_i64().unwrap()
}

#[test]
fn keys_are_shifted_and_the_document_element_is_unwrapped() {
    let (mut doc, pages) = tagged(3, Some(3), r(5));
    let data = extract_and_shift_structure(&mut doc, &pages, 100);
    assert_eq!(data.shifted_nums.len(), 6);
    assert_eq!(data.shifted_nums[0].as_i64(), Ok(100));
    assert_eq!(data.shifted_nums[2].as_i64(), Ok(101));
    assert_eq!(data.shifted_nums[4].as_i64(), Ok(102));
    assert_eq!(data.shifted_nums[1].as_array().unwrap()[0].as_reference(), Ok((5, 0)));
    assert_eq!(data.root_kids.len(), 2);
    assert_eq!(data.root_kids[0].as_reference(), Ok((6, 0)));
    assert_eq!(data.root_kids[1].as_i64(), Ok(0));
    assert!(data.role_map.is_none());
    assert_eq!(data.next_offset_increment, 3);
    assert_eq!(key_of(&doc, (10, 0)), 100);
    assert_eq!(key_of(&doc, (11, 0)), 101);
    assert_eq!(key_of(&doc, (12, 0)), 102);
}

#[test]
fn increment_is_the_largest_of_next_key_page_count_and_one() {
    let (mut doc, pages) = tagged(2, Some(7), r(5));
    assert_eq!(extract_and_shift_structure(&mut doc, &pages, 0).next_offset_increment, 7);
    let (mut doc, pages) = tagged(4, Some(1), r(5));
    assert_eq!(extract_and_shift_structure(&mut doc, &pages, 0).next_offset_increment, 4);
    let (mut doc, pages) = tagged(3, None, r(5));
    assert_eq!(extract_and_shift_structure(&mut doc, &pages, 0).next_offset_increment, 3);
    let (mut doc, pages) = tagged(0, Some(-4), r(5));
    assert_eq!(extract_and_shift_structure(&mut doc, &pages, 0).next_offset_increment, 1);
}

#[test]
fn root_children_come_out_as_the_root_holds_them() {
    let (mut doc, pages) = tagged(1, Some(1), Object::Array(vec![r(5), r(6)]));
    let data = extract_and_shift_structure(&mut doc, &pages, 0);
    assert_eq!(data.root_kids.len(), 2);
    assert_eq!(data.root_kids[0].as_reference(), Ok((5, 0)));
    // A reference to an element that is no `Document` stays as it is.
    let (mut doc, pages) = tagged(1, Some(1), r(6));
    let data = extract_and_shift_structure(&mut doc, &pages, 0);
    assert_eq!(data.root_kids.len(), 1);
    assert_eq!(data.root_kids[0].as_reference(), Ok((6, 0)));
    // So does what is no reference.
    let (mut doc, pages) = tagged(1, Some(1), Object::Integer(4));
    let data = extract_and_shift_structure(&mut doc, &pages, 0);
    assert_eq!(data.root_kids.len(), 1);
    assert_eq!(data.root_kids[0].as_i64(), Ok(4));
}

#[test]
fn role_map_is_taken_along() {
    let (mut doc, pages) = tagged(1, Some(1), r(5));
    let mut root = doc.get_dictionary((3, 0)).unwrap().clone();
    root.set(b"RoleMap".to_vec(), Object::Dictionary(dict(vec![("Chapter", name("Sect"))])));
    doc.set_object((3, 0), Object::Dictionary(root));
    let data = extract_and_shift_structure(&mut doc, &pages, 0);
    let rm = data.role_map.unwrap();
    assert_eq!(rm.len(), 1);
    assert_eq!(rm.get(b"Chapter").unwrap().as_name().unwrap(), b"Sect");
}

#[test]
fn untagged_document_gives_nothing_but_advances_the_offset() {
    let mut doc = Document::with_version("1.7".to_string());
    doc.trailer.set(b"Root".to_vec(), r(1));
    doc.set_object((1, 0), Object::Dictionary(dict(vec![("Type", name("Catalog"))])));
    doc.set_object((10, 0), Object::Dictionary(dict(vec![("Type", name("Page")), ("StructParents", Object::Integer(5))])));
    doc.set_object((11, 0), Object::Dictionary(dict(vec![("Type", name("Page"))])));
    let pages = vec![(10, 0), (11, 0)];
    let data = extract_and_shift_structure(&mut doc, &pages, 40);
    assert!(data.shifted_nums.is_empty());
    assert!(data.root_kids.is_empty());
    assert!(data.role_map.is_none());
    assert_eq!(data.next_offset_increment, 2);
    assert_eq!(key_of(&doc, (10, 0)), 45);
    assert!(!doc.get_dictionary((11, 0)).unwrap().has(b"StructParents"));
    let none: Vec<ObjectId> = vec![];
    assert_eq!(extract_and_shift_structure(&mut doc, &none, 40).next_offset_increment, 1);
}

#[test]
fn pairs_without_an_integer_key_are_left_out() {
    let (mut doc, pages) = tagged(1, Some(1), r(5));
    doc.set_object((4, 0), Object::Dictionary(dict(vec![(
        "Nums",
        Object::Array(vec![
            Object::Integer(0), name("a"),
            name("k"), name("b"),
            Object::Integer(2), name("c"),
            Object::Integer(9),
        ]),
    )])));
    let data = extract_and_shift_structure(&mut doc, &pages, 10);
    assert_eq!(data.shifted_nums.len(), 4);
    assert_eq!(data.shifted_nums[0].as_i64(), Ok(10));
    assert_eq!(data.shifted_nums[1].as_name().unwrap(), b"a");
    assert_eq!(data.shifted_nums[2].as_i64(), Ok(12));
    assert_eq!(data.shifted_nums[3].as_name().unwrap(), b"c");
}

#[test]
fn keys_that_would_leave_the_range_are_told() {
    assert!(sum_in_range(i64::MAX - 1, 1));
    assert!(!sum_in_range(i64::MAX, 1));
    assert!(sum_in_range(i64::MIN, 0));
    assert!(!sum_in_range(i64::MIN, -1));
    let (doc, pages) = tagged(2, Some(2), r(5));
    assert!(read_structure(&doc, &pages, i64::MAX - 1).is_some());
    assert!(read_structure(&doc, &pages, i64::MAX).is_none());
    let (mut doc, pages) = tagged(2, Some(2), r(5));
    assert!(!shift_struct_parents(&mut doc, &pages, i64::MAX));
    let (mut doc, pages) = tagged(2, Some(2), r(5));
    assert!(shift_struct_parents(&mut doc, &pages, i64::MAX - 1));
    assert_eq!(key_of(&doc, (11, 0)), i64::MAX);
}

#[test]
fn a_page_that_is_listed_twice_is_shifted_twice() {
    let (mut doc, _) = tagged(1, Some(1), r(5));
    let pages = vec![(10, 0), (10, 0), (77, 0)];
    assert!(shift_struct_parents(&mut doc, &pages, 5));
    assert_eq!(key_of(&doc, (10, 0)), 10);
}

#[test]
fn tagged_document_gets_the_mark() {
    let (mut doc, _) = tagged(1, Some(1), r(5));
    assert_eq!(fix_tagged_pdf(&mut doc), Ok(()));
    assert_eq!(doc.trailer.get(b"Marked").unwrap().as_bool(), Ok(true));
    let info = doc.trailer.get(b"MarkInfo").unwrap().as_dict().unwrap();
    assert_eq!(info.get(b"Marked").unwrap().as_bool(), Ok(true));

    let mut plain = Document::with_version("1.7".to_string());
    plain.trailer.set(b"Root".to_vec(), r(1));
    plain.set_object((1, 0), Object::Dictionary(dict(vec![("StructTreeRoot", Object::Integer(1))])));
    assert_eq!(fix_tagged_pdf(&mut plain), Ok(()));
    assert!(!plain.trailer.has(b"Marked"));
    assert_eq!(web2pdf::pdf_utils::fix_tagged_pdf(&mut plain), Ok(()));
    assert_eq!(plain.trailer.get(b"Marked").unwrap().as_bool(), Ok(true));
}
