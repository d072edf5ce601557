use web2pdf::document::Document;
use web2pdf::object::{Dictionary, Object, ObjectId, PdfError};
use web2pdf::sanitize::{sanitize_pdf, sanitize_pdf_ua};

fn name(s: &str) -> Object {
    Object::Name(s.as_bytes().to_vec())
}

fn dict(entries: Vec<(&str, Object)>) -> Dictionary {
    let mut d = Dictionary::new();
    for (k, v) in entries {
        d.set(k.as_bytes().to_vec(), v);
    }
    d
}

fn elem(role: &str, rest: Vec<(&str, Object)>) -> Object {
    let mut d = dict(vec![("Type", name("StructElem")), ("S", name(role))]);
    for (k, v) in rest {
        d.set(k.as_bytes().to_vec(), v);
    }
    Object::Dictionary(d)
}

fn tagged(root_kids: Object) -> Document {
    let mut doc = Document::with_version("1.7".to_string());
    doc.set_object((1, 0), Object::Dictionary(dict(vec![
        ("Type", name("Catalog")),
        ("StructTreeRoot", Object::Reference((2, 0))),
    ])));
    doc.set_object((2, 0), Object::Dictionary(dict(vec![
        ("Type", name("StructTreeRoot")),
        ("K", root_kids),
    ])));
    doc.trailer.set(b"Root".to_vec(), Object::Reference((1, 0)));
    doc.max_id = 2;
    doc
}

fn get<'a>(doc: &'a Document, id: ObjectId) -> &'a Dictionary {
    doc.get_dictionary(id).expect("a dictionary")
}

#[test]
fn nonstruct_is_dissolved_into_its_parent() {
    let page = Object::Reference((9, 0));
    let mut doc = tagged(Object::Reference((3, 0)));
    doc.set_object((3, 0), elem("P", vec![("P", Object::Reference((2, 0))), ("K", Object::Reference((4, 0)))]));
    doc.set_object((4, 0), elem("NonStruct", vec![
        ("P", Object::Reference((3, 0))),
        ("Pg", page.clone()),
        ("K", Object::Array(vec![Object::Integer(3), Object::Reference((5, 0))])),
    ]));
    doc.set_object((5, 0), elem("Span", vec![("P", Object::Reference((4, 0)))]));

    assert_eq!(sanitize_pdf(&mut doc), Ok(()));

    let p = get(&doc, (3, 0));
    let kids = p.get(b"K").unwrap().as_array().unwrap();
    assert_eq!(kids.len(), 2);
    let mcr = kids[0].as_dict().unwrap();
    assert_eq!(mcr.get(b"Type").unwrap().as_name().unwrap(), b"MCR");
    assert_eq!(mcr.get(b"Pg").unwrap().as_reference(), Ok((9, 0)));
    assert_eq!(mcr.get(b"MCID").unwrap().as_i64(), Ok(3));
    assert_eq!(kids[1].as_reference(), Ok((5, 0)));
    let span = get(&doc, (5, 0));
    assert_eq!(span.get(b"P").unwrap().as_reference(), Ok((3, 0)));
    assert_eq!(span.get(b"Pg").unwrap().as_reference(), Ok((9, 0)));
}

#[test]
fn document_without_structure_tree_is_left_alone() {
    let mut doc = Document::with_version("1.7".to_string());
    doc.set_object((1, 0), Object::Dictionary(dict(vec![("Type", name("Catalog"))])));
    doc.trailer.set(b"Root".to_vec(), Object::Reference((1, 0)));
    assert_eq!(sanitize_pdf(&mut doc), Ok(()));
    assert_eq!(sanitize_pdf_ua(&mut doc), Ok(()));
    assert_eq!(doc.objects.len(), 1);
}

use web2pdf::dissolve::dissolve_nonstruct_in_node;
use web2pdf::flatten::{attach_mcid_to_link, find_adjacent_mcid_in_parent, flatten_nonstruct};
use web2pdf::object::ObjectKind;
use web2pdf::sanitize::{remove_objr_from_link, sanitize_link_k};

fn objr(target: u32) -> Object {
    Object::Dictionary(dict(vec![("Type", name("OBJR")), ("Obj", Object::Reference((target, 0)))]))
}

fn kids_of(doc: &Document, id: ObjectId) -> Vec<Object> {
    match get(doc, id).get(b"K") {
        Ok(Object::Array(a)) => a.clone(),
        Ok(o) => vec![o.clone()],
        Err(_) => vec![],
    }
}

#[test]
fn link_with_text_loses_its_object_references() {
    let mut doc = tagged(Object::Reference((3, 0)));
    doc.set_object((3, 0), elem("Link", vec![(
        "K",
        Object::Array(vec![objr(20), Object::Integer(4), Object::Reference((6, 0)), Object::Integer(5)]),
    )]));
    doc.set_object((6, 0), objr(21));
    assert_eq!(sanitize_pdf(&mut doc), Ok(()));
    let kids = kids_of(&doc, (3, 0));
    assert_eq!(kids.len(), 2);
    assert_eq!(kids[0].as_i64(), Ok(4));
    assert_eq!(kids[1].as_i64(), Ok(5));
    assert!(matches!(get(&doc, (3, 0)).get(b"K").unwrap(), Object::Array(_)));
}

#[test]
fn link_with_one_child_left_holds_it_alone() {
    let mut doc = tagged(Object::Reference((3, 0)));
    doc.set_object((3, 0), elem("Link", vec![("K", Object::Array(vec![Object::Integer(4), objr(20)]))]));
    assert_eq!(sanitize_pdf_ua(&mut doc), Ok(()));
    assert_eq!(get(&doc, (3, 0)).get(b"K").unwrap().as_i64(), Ok(4));
}

#[test]
fn link_without_text_keeps_its_object_reference() {
    let mut doc = tagged(Object::Reference((3, 0)));
    doc.set_object((3, 0), elem("Link", vec![("K", Object::Array(vec![objr(20), objr(21)]))]));
    assert_eq!(sanitize_pdf(&mut doc), Ok(()));
    let kids = kids_of(&doc, (3, 0));
    assert_eq!(kids.len(), 2);
    assert!(kids[0].as_dict().unwrap().has_name("Type", "OBJR"));
    assert!(kids[1].as_dict().unwrap().has_name("Type", "OBJR"));
}

#[test]
fn only_links_lose_object_references() {
    let mut doc = tagged(Object::Reference((3, 0)));
    doc.set_object((3, 0), elem("P", vec![("K", Object::Array(vec![Object::Integer(1), objr(20)]))]));
    assert_eq!(sanitize_pdf(&mut doc), Ok(()));
    assert_eq!(kids_of(&doc, (3, 0)).len(), 2);
}

#[test]
fn nested_nonstruct_collapses_in_one_pass() {
    let mut doc = tagged(Object::Reference((3, 0)));
    doc.set_object((3, 0), elem("P", vec![("K", Object::Array(vec![Object::Reference((4, 0)), Object::Integer(9)]))]));
    doc.set_object((4, 0), elem("NonStruct", vec![("K", Object::Reference((5, 0)))]));
    doc.set_object((5, 0), elem("NonStruct", vec![("K", Object::Array(vec![Object::Integer(1), Object::Reference((6, 0))]))]));
    doc.set_object((6, 0), elem("Span", vec![("K", Object::Integer(2))]));
    assert_eq!(sanitize_pdf(&mut doc), Ok(()));
    let kids = kids_of(&doc, (3, 0));
    assert_eq!(kids.len(), 3);
    assert_eq!(kids[0].as_i64(), Ok(1));
    assert_eq!(kids[1].as_reference(), Ok((6, 0)));
    assert_eq!(kids[2].as_i64(), Ok(9));
    assert_eq!(get(&doc, (6, 0)).get(b"P").unwrap().as_reference(), Ok((3, 0)));
    assert!(!get(&doc, (6, 0)).has(b"Pg"));
}

#[test]
fn sanitizing_twice_is_sanitizing_once() {
    let mut doc = tagged(Object::Array(vec![Object::Reference((3, 0)), Object::Reference((8, 0))]));
    doc.set_object((3, 0), elem("P", vec![("K", Object::Reference((4, 0)))]));
    doc.set_object((4, 0), elem("NonStruct", vec![
        ("Pg", Object::Reference((30, 0))),
        ("K", Object::Array(vec![Object::Integer(1), Object::Reference((5, 0))])),
    ]));
    doc.set_object((5, 0), elem("Link", vec![("K", Object::Array(vec![Object::Integer(2), objr(40)]))]));
    doc.set_object((8, 0), elem("NonStruct", vec![]));
    assert_eq!(sanitize_pdf(&mut doc), Ok(()));
    let once: Vec<(ObjectId, String)> = (0..doc.objects.len())
        .map(|i| (doc.objects.id_at(i), format!("{:?}", doc.objects.object_at(i))))
        .collect();
    assert_eq!(sanitize_pdf(&mut doc), Ok(()));
    let twice: Vec<(ObjectId, String)> = (0..doc.objects.len())
        .map(|i| (doc.objects.id_at(i), format!("{:?}", doc.objects.object_at(i))))
        .collect();
    assert_eq!(once, twice);
    // The root lost the empty element, the paragraph holds what was below.
    assert_eq!(get(&doc, (2, 0)).get(b"K").unwrap().as_reference(), Ok((3, 0)));
    assert_eq!(kids_of(&doc, (3, 0)).len(), 2);
    assert_eq!(get(&doc, (5, 0)).get(b"K").unwrap().as_i64(), Ok(2));
    assert_eq!(get(&doc, (5, 0)).get(b"Pg").unwrap().as_reference(), Ok((30, 0)));
}

#[test]
fn nonstruct_without_children_disappears() {
    let mut doc = tagged(Object::Reference((3, 0)));
    doc.set_object((3, 0), elem("P", vec![("K", Object::Reference((4, 0)))]));
    doc.set_object((4, 0), elem("NonStruct", vec![]));
    assert_eq!(dissolve_nonstruct_in_node(&mut doc, (3, 0)), Ok(()));
    assert!(!get(&doc, (3, 0)).has(b"K"));
}

#[test]
fn marked_content_without_a_page_stays_bare() {
    let mut doc = tagged(Object::Reference((3, 0)));
    doc.set_object((3, 0), elem("P", vec![("K", Object::Reference((4, 0)))]));
    doc.set_object((4, 0), elem("NonStruct", vec![("K", Object::Array(vec![Object::Integer(7), name("x")]))]));
    assert_eq!(dissolve_nonstruct_in_node(&mut doc, (3, 0)), Ok(()));
    let kids = kids_of(&doc, (3, 0));
    assert_eq!(kids.len(), 2);
    assert_eq!(kids[0].as_i64(), Ok(7));
    assert_eq!(kids[1].as_name().unwrap(), b"x");
}

#[test]
fn surfaced_element_keeps_its_own_page() {
    let mut doc = tagged(Object::Reference((3, 0)));
    doc.set_object((3, 0), elem("P", vec![("K", Object::Reference((4, 0)))]));
    doc.set_object((4, 0), elem("NonStruct", vec![("Pg", Object::Reference((30, 0))), ("K", Object::Reference((5, 0)))]));
    doc.set_object((5, 0), elem("Span", vec![("Pg", Object::Reference((31, 0)))]));
    assert_eq!(dissolve_nonstruct_in_node(&mut doc, (3, 0)), Ok(()));
    assert_eq!(get(&doc, (3, 0)).get(b"K").unwrap().as_reference(), Ok((5, 0)));
    assert_eq!(get(&doc, (5, 0)).get(b"Pg").unwrap().as_reference(), Ok((31, 0)));
    assert_eq!(get(&doc, (5, 0)).get(b"P").unwrap().as_reference(), Ok((3, 0)));
}

#[test]
fn dissolving_leaves_other_elements_alone() {
    let mut doc = tagged(Object::Reference((3, 0)));
    doc.set_object((3, 0), elem("P", vec![("K", Object::Array(vec![Object::Reference((5, 0)), Object::Integer(1)]))]));
    doc.set_object((5, 0), elem("Span", vec![]));
    doc.set_object((6, 0), Object::Integer(1));
    assert_eq!(dissolve_nonstruct_in_node(&mut doc, (3, 0)), Ok(()));
    assert_eq!(kids_of(&doc, (3, 0)).len(), 2);
    assert!(!get(&doc, (5, 0)).has(b"P"));
    assert_eq!(dissolve_nonstruct_in_node(&mut doc, (77, 0)), Ok(()));
    assert_eq!(
        dissolve_nonstruct_in_node(&mut doc, (6, 0)),
        Err(PdfError::ObjectType { expected: ObjectKind::Dictionary, found: ObjectKind::Integer })
    );
}

#[test]
fn removing_object_references_reports_what_is_no_element() {
    let mut doc = tagged(Object::Reference((3, 0)));
    doc.set_object((3, 0), elem("Link", vec![("K", objr(20))]));
    doc.set_object((4, 0), Object::Integer(1));
    assert_eq!(remove_objr_from_link(&mut doc, (3, 0)), Ok(()));
    assert!(!get(&doc, (3, 0)).has(b"K"));
    assert_eq!(
        remove_objr_from_link(&mut doc, (4, 0)),
        Err(PdfError::ObjectType { expected: ObjectKind::Dictionary, found: ObjectKind::Integer })
    );
    assert_eq!(
        remove_objr_from_link(&mut doc, (9, 0)),
        Err(PdfError::ObjectNotFound { number: 9, generation: 0 })
    );
}

#[test]
fn link_rule_goes_by_the_dictionary_it_is_given() {
    let mut doc = tagged(Object::Reference((3, 0)));
    doc.set_object((3, 0), elem("Link", vec![("K", Object::Array(vec![Object::Integer(1), objr(20)]))]));
    let no_link = dict(vec![("S", name("P")), ("K", Object::Integer(1))]);
    assert_eq!(sanitize_link_k(&mut doc, (3, 0), &no_link), Ok(()));
    assert_eq!(kids_of(&doc, (3, 0)).len(), 2);
    let no_text = dict(vec![("S", name("Link")), ("K", objr(20))]);
    assert_eq!(sanitize_link_k(&mut doc, (3, 0), &no_text), Ok(()));
    assert_eq!(kids_of(&doc, (3, 0)).len(), 2);
    let link = dict(vec![("S", name("Link")), ("K", Object::Integer(1))]);
    assert_eq!(
        sanitize_link_k(&mut doc, (9, 0), &link),
        Err(PdfError::ObjectNotFound { number: 9, generation: 0 })
    );
    assert_eq!(sanitize_link_k(&mut doc, (3, 0), &link), Ok(()));
    assert_eq!(get(&doc, (3, 0)).get(b"K").unwrap().as_i64(), Ok(1));
}

#[test]
fn flattening_binds_what_comes_up_to_page_and_parent() {
    let mut doc = tagged(Object::Reference((3, 0)));
    let p = dict(vec![
        ("S", name("P")),
        ("K", Object::Array(vec![Object::Reference((4, 0)), Object::Integer(9), Object::Reference((5, 0)), Object::Reference((6, 0))])),
    ]);
    doc.set_object((3, 0), Object::Dictionary(p.clone()));
    doc.set_object((4, 0), elem("NonStruct", vec![("Pg", Object::Reference((30, 0))), ("K", Object::Array(vec![Object::Integer(1), Object::Reference((7, 0))]))]));
    doc.set_object((5, 0), elem("NonStruct", vec![]));
    doc.set_object((6, 0), elem("NonStruct", vec![("K", Object::Integer(2))]));
    doc.set_object((7, 0), elem("Span", vec![("P", Object::Reference((4, 0)))]));
    assert_eq!(flatten_nonstruct(&mut doc, (3, 0), &p), Ok(()));
    let kids = kids_of(&doc, (3, 0));
    assert_eq!(kids.len(), 4);
    let mcr = kids[0].as_dict().unwrap();
    assert!(mcr.has_name("Type", "MCR"));
    assert_eq!(mcr.get(b"Pg").unwrap().as_reference(), Ok((30, 0)));
    assert_eq!(mcr.get(b"MCID").unwrap().as_i64(), Ok(1));
    assert_eq!(kids[1].as_reference(), Ok((7, 0)));
    assert_eq!(kids[2].as_i64(), Ok(9));
    assert_eq!(kids[3].as_i64(), Ok(2));
    let span = get(&doc, (7, 0));
    assert_eq!(span.get(b"P").unwrap().as_reference(), Ok((3, 0)));
    assert_eq!(span.get(b"Pg").unwrap().as_reference(), Ok((30, 0)));
}

#[test]
fn flattening_stores_one_child_alone_and_none_as_no_children() {
    let mut doc = tagged(Object::Reference((3, 0)));
    doc.set_object((5, 0), elem("NonStruct", vec![]));
    doc.set_object((6, 0), elem("NonStruct", vec![("K", Object::Integer(2))]));

    let single = dict(vec![("S", name("P")), ("K", Object::Reference((6, 0)))]);
    doc.set_object((3, 0), Object::Dictionary(single.clone()));
    assert_eq!(flatten_nonstruct(&mut doc, (3, 0), &single), Ok(()));
    assert_eq!(get(&doc, (3, 0)).get(b"K").unwrap().as_i64(), Ok(2));

    let empty = dict(vec![("S", name("P")), ("K", Object::Array(vec![Object::Reference((5, 0))]))]);
    doc.set_object((8, 0), Object::Dictionary(empty.clone()));
    assert_eq!(flatten_nonstruct(&mut doc, (8, 0), &empty), Ok(()));
    assert!(!get(&doc, (8, 0)).has(b"K"));

    // Without a `NonStruct` child nothing is written.
    let plain = dict(vec![("S", name("P")), ("K", Object::Array(vec![Object::Integer(7)]))]);
    assert_eq!(flatten_nonstruct(&mut doc, (9, 0), &plain), Ok(()));
    assert!(doc.get_object((9, 0)).is_err());
}

#[test]
fn flattening_goes_by_the_dictionary_at_hand() {
    let mut doc = tagged(Object::Reference((2, 0)));
    let p = dict(vec![("S", name("P")), ("K", Object::Array(vec![Object::Reference((3, 0))]))]);
    doc.set_object((2, 0), Object::Dictionary(p.clone()));
    doc.set_object((3, 0), elem("NonStruct", vec![
        ("Pg", Object::Reference((9, 0))),
        ("K", Object::Array(vec![Object::Integer(3), Object::Reference((4, 0))])),
    ]));
    doc.set_object((4, 0), elem("Span", vec![("P", Object::Reference((3, 0)))]));
    assert_eq!(flatten_nonstruct(&mut doc, (2, 0), &p), Ok(()));
    let kids = kids_of(&doc, (2, 0));
    assert_eq!(kids.len(), 2);
    let mcr = kids[0].as_dict().unwrap();
    assert!(mcr.has_name("Type", "MCR"));
    assert_eq!(mcr.get(b"Pg").unwrap().as_reference(), Ok((9, 0)));
    assert_eq!(mcr.get(b"MCID").unwrap().as_i64(), Ok(3));
    assert_eq!(kids[1].as_reference(), Ok((4, 0)));
    assert_eq!(get(&doc, (4, 0)).get(b"P").unwrap().as_reference(), Ok((2, 0)));
    assert_eq!(get(&doc, (4, 0)).get(b"Pg").unwrap().as_reference(), Ok((9, 0)));
}

#[test]
fn marked_content_next_to_a_link_is_found_and_attached() {
    let mut doc = tagged(Object::Reference((3, 0)));
    doc.set_object((3, 0), elem("P", vec![(
        "K",
        Object::Array(vec![Object::Integer(1), Object::Reference((4, 0)), name("x"), Object::Reference((5, 0)), Object::Integer(2), Object::Reference((6, 0))]),
    )]));
    doc.set_object((4, 0), elem("Link", vec![("K", objr(20))]));
    doc.set_object((5, 0), elem("Link", vec![]));
    doc.set_object((6, 0), elem("Link", vec![]));
    doc.set_object((7, 0), elem("P", vec![("K", Object::Reference((4, 0)))]));
    // The one before, where none comes after.
    assert_eq!(find_adjacent_mcid_in_parent(&doc, (3, 0), (4, 0)).unwrap().as_i64(), Ok(1));
    // The one after comes first.
    assert_eq!(find_adjacent_mcid_in_parent(&doc, (3, 0), (5, 0)).unwrap().as_i64(), Ok(2));
    assert_eq!(find_adjacent_mcid_in_parent(&doc, (3, 0), (6, 0)).unwrap().as_i64(), Ok(2));
    assert!(find_adjacent_mcid_in_parent(&doc, (3, 0), (9, 0)).is_none());
    assert!(find_adjacent_mcid_in_parent(&doc, (7, 0), (4, 0)).is_none());
    assert!(find_adjacent_mcid_in_parent(&doc, (77, 0), (4, 0)).is_none());

    assert_eq!(attach_mcid_to_link(&mut doc, (4, 0), Object::Integer(1)), Ok(()));
    let kids = kids_of(&doc, (4, 0));
    assert_eq!(kids.len(), 2);
    assert_eq!(kids[0].as_i64(), Ok(1));
    assert!(kids[1].as_dict().unwrap().has_name("Type", "OBJR"));
    assert_eq!(attach_mcid_to_link(&mut doc, (5, 0), Object::Integer(2)), Ok(()));
    assert_eq!(kids_of(&doc, (5, 0)).len(), 1);
    assert!(matches!(get(&doc, (5, 0)).get(b"K").unwrap(), Object::Array(_)));
    assert_eq!(
        attach_mcid_to_link(&mut doc, (99, 0), Object::Integer(2)),
        Err(PdfError::ObjectNotFound { number: 99, generation: 0 })
    );
}

fn snapshot(doc: &Document) -> Vec<(ObjectId, String)> {
    (0..doc.objects.len())
        .map(|i| (doc.objects.id_at(i), format!("{:?}", doc.objects.object_at(i))))
        .collect()
}

#[test]
fn a_tree_is_settled_by_one_run() {
    // Three levels of wrappers, a link with text below them, and a link
    // without.
    let mut doc = tagged(Object::Reference((3, 0)));
    doc.set_object((3, 0), elem("Document", vec![("K", Object::Array(vec![Object::Reference((4, 0)), Object::Reference((9, 0))]))]));
    doc.set_object((4, 0), elem("NonStruct", vec![("Pg", Object::Reference((30, 0))), ("K", Object::Reference((5, 0)))]));
    doc.set_object((5, 0), elem("NonStruct", vec![("K", Object::Array(vec![Object::Reference((6, 0)), Object::Integer(1)]))]));
    doc.set_object((6, 0), elem("NonStruct", vec![("K", Object::Array(vec![Object::Reference((7, 0)), Object::Reference((8, 0))]))]));
    doc.set_object((7, 0), elem("Link", vec![("K", Object::Array(vec![objr(40), Object::Reference((10, 0))]))]));
    doc.set_object((8, 0), elem("Link", vec![("K", objr(41))]));
    doc.set_object((9, 0), elem("P", vec![("K", Object::Integer(2))]));
    doc.set_object((10, 0), elem("Span", vec![]));
    assert_eq!(sanitize_pdf(&mut doc), Ok(()));
    let once = snapshot(&doc);
    assert_eq!(sanitize_pdf(&mut doc), Ok(()));
    assert_eq!(snapshot(&doc), once);

    let top = kids_of(&doc, (3, 0));
    assert_eq!(top.len(), 4);
    assert_eq!(top[0].as_reference(), Ok((7, 0)));
    assert_eq!(top[1].as_reference(), Ok((8, 0)));
    let mcr = top[2].as_dict().unwrap();
    assert_eq!(mcr.get(b"Type").unwrap().as_name().unwrap(), b"MCR");
    assert_eq!(mcr.get(b"MCID").unwrap().as_i64(), Ok(1));
    assert_eq!(mcr.get(b"Pg").unwrap().as_reference(), Ok((30, 0)));
    assert_eq!(top[3].as_reference(), Ok((9, 0)));
    // The link with text lost its object reference, the other kept it.
    assert_eq!(get(&doc, (7, 0)).get(b"K").unwrap().as_reference(), Ok((10, 0)));
    assert!(get(&doc, (8, 0)).get(b"K").unwrap().as_dict().unwrap().has_name("Type", "OBJR"));
    assert_eq!(get(&doc, (7, 0)).get(b"P").unwrap().as_reference(), Ok((3, 0)));
    // The page of the outermost wrapper reaches what came up through the
    // inner ones, which had none.
    assert_eq!(get(&doc, (7, 0)).get(b"Pg").unwrap().as_reference(), Ok((30, 0)));
    assert_eq!(get(&doc, (8, 0)).get(b"Pg").unwrap().as_reference(), Ok((30, 0)));
}

#[test]
fn an_element_with_two_parents_may_need_a_second_run() {
    // The wrapper 3 is a child of the root and of the paragraph 4, which is
    // met after it: the paragraph takes over the inner wrapper 5 before the
    // outer one was dissolved.
    let mut doc = tagged(Object::Array(vec![Object::Reference((3, 0)), Object::Reference((4, 0))]));
    doc.set_object((3, 0), elem("NonStruct", vec![("K", Object::Reference((5, 0)))]));
    doc.set_object((4, 0), elem("P", vec![("K", Object::Reference((3, 0)))]));
    doc.set_object((5, 0), elem("NonStruct", vec![("K", Object::Integer(7))]));
    assert_eq!(sanitize_pdf(&mut doc), Ok(()));
    assert_eq!(get(&doc, (4, 0)).get(b"K").unwrap().as_reference(), Ok((5, 0)));
    let once = snapshot(&doc);
    assert_eq!(sanitize_pdf(&mut doc), Ok(()));
    assert_eq!(get(&doc, (4, 0)).get(b"K").unwrap().as_i64(), Ok(7));
    assert_ne!(snapshot(&doc), once);
    let twice = snapshot(&doc);
    assert_eq!(sanitize_pdf(&mut doc), Ok(()));
    assert_eq!(snapshot(&doc), twice);
}

use web2pdf::sanitize::{is_objr_only_link, sanitize_with_warnings};
use web2pdf::text::link_has_textual_content;

#[test]
fn referenced_object_reference_is_no_text() {
    let mut doc = tagged(Object::Reference((5, 0)));
    let link = dict(vec![("S", name("Link")), ("K", Object::Array(vec![Object::Reference((6, 0))]))]);
    doc.set_object((5, 0), Object::Dictionary(link.clone()));
    doc.set_object((6, 0), objr(8));
    assert_eq!(link_has_textual_content(&doc, &link), Ok(false));
    assert!(is_objr_only_link(&doc, &link));

    assert_eq!(sanitize_pdf(&mut doc), Ok(()));
    let kids = kids_of(&doc, (5, 0));
    assert_eq!(kids.len(), 1);
    assert_eq!(kids[0].as_reference(), Ok((6, 0)));
    assert!(matches!(get(&doc, (5, 0)).get(b"K").unwrap(), Object::Array(_)));
}

#[test]
fn referenced_element_without_children_is_text() {
    let mut doc = tagged(Object::Reference((5, 0)));
    let link = dict(vec![
        ("S", name("Link")),
        ("K", Object::Array(vec![Object::Reference((6, 0)), Object::Reference((7, 0))])),
    ]);
    doc.set_object((5, 0), Object::Dictionary(link.clone()));
    doc.set_object((6, 0), objr(8));
    doc.set_object((7, 0), elem("Span", vec![]));
    assert_eq!(link_has_textual_content(&doc, &link), Ok(true));
    assert!(!is_objr_only_link(&doc, &link));
    assert_eq!(sanitize_with_warnings(&mut doc), vec![]);
    assert_eq!(get(&doc, (5, 0)).get(b"K").unwrap().as_reference(), Ok((7, 0)));
}

#[test]
fn text_is_found_below_a_child() {
    let mut doc = tagged(Object::Reference((5, 0)));
    let link = dict(vec![("S", name("Link")), ("K", Object::Reference((6, 0)))]);
    doc.set_object((6, 0), elem("Span", vec![("K", Object::Reference((7, 0)))]));
    doc.set_object((7, 0), elem("Span", vec![("K", Object::Integer(4))]));
    assert_eq!(link_has_textual_content(&doc, &link), Ok(true));
    let empty = dict(vec![("S", name("Link")), ("K", Object::Reference((9, 0)))]);
    assert_eq!(link_has_textual_content(&doc, &empty), Ok(false));
    let bare = dict(vec![("S", name("Link"))]);
    assert_eq!(link_has_textual_content(&doc, &bare), Ok(false));
    assert!(!is_objr_only_link(&doc, &bare));
}

#[test]
fn a_warning_is_due_for_a_link_with_object_references_only() {
    let mut doc = tagged(Object::Array(vec![Object::Reference((5, 0)), Object::Reference((6, 0)), Object::Reference((7, 0))]));
    let only = dict(vec![("S", name("Link")), ("K", Object::Array(vec![objr(8)]))]);
    doc.set_object((5, 0), Object::Dictionary(only.clone()));
    doc.set_object((6, 0), elem("Link", vec![("K", Object::Array(vec![Object::Integer(1), objr(9)]))]));
    doc.set_object((7, 0), elem("P", vec![("K", objr(10))]));
    assert!(is_objr_only_link(&doc, &only));
    assert_eq!(sanitize_link_k(&mut doc, (5, 0), &only), Ok(()));
    assert_eq!(kids_of(&doc, (5, 0)).len(), 1);

    let with_text = get(&doc, (6, 0)).clone();
    assert!(!is_objr_only_link(&doc, &with_text));
    let no_link = get(&doc, (7, 0)).clone();
    assert!(!is_objr_only_link(&doc, &no_link));

    assert_eq!(sanitize_with_warnings(&mut doc), vec![(5, 0)]);
    assert!(kids_of(&doc, (5, 0))[0].as_dict().unwrap().has_name("Type", "OBJR"));
    assert_eq!(get(&doc, (6, 0)).get(b"K").unwrap().as_i64(), Ok(1));
    assert_eq!(kids_of(&doc, (7, 0)).len(), 1);
}

#[test]
fn no_warning_without_a_structure_tree() {
    let mut doc = Document::with_version("1.7".to_string());
    doc.set_object((1, 0), Object::Dictionary(dict(vec![("Type", name("Catalog"))])));
    doc.set_object((5, 0), elem("Link", vec![("K", objr(8))]));
    doc.trailer.set(b"Root".to_vec(), Object::Reference((1, 0)));
    assert_eq!(sanitize_with_warnings(&mut doc), vec![]);
    assert_eq!(doc.objects.len(), 2);
}

#[test]
fn element_shared_by_two_parents_takes_a_second_run() {
    // The element under 3 is a child of the root and of the element under 5,
    // and the walk meets it before the latter.
    let mut doc = tagged(Object::Array(vec![Object::Reference((3, 0)), Object::Reference((5, 0))]));
    doc.set_object((3, 0), elem("NonStruct", vec![("K", Object::Reference((4, 0)))]));
    doc.set_object((4, 0), elem("NonStruct", vec![("K", Object::Integer(7))]));
    doc.set_object((5, 0), elem("P", vec![("K", Object::Reference((3, 0)))]));
    assert_eq!(sanitize_pdf(&mut doc), Ok(()));
    assert_eq!(get(&doc, (5, 0)).get(b"K").unwrap().as_reference(), Ok((4, 0)));
    let once = snapshot(&doc);
    assert_eq!(sanitize_pdf(&mut doc), Ok(()));
    assert_eq!(get(&doc, (5, 0)).get(b"K").unwrap().as_i64(), Ok(7));
    assert_ne!(once, snapshot(&doc));
    let twice = snapshot(&doc);
    assert_eq!(sanitize_pdf(&mut doc), Ok(()));
    assert_eq!(twice, snapshot(&doc));
}

#[test]
fn link_above_a_shared_element_sees_its_text_in_a_second_run() {
    // The element under 3 is a child of the root and of the link under 5; it
    // loses its children, and so becomes text, after the link had its turn.
    let mut doc = tagged(Object::Array(vec![Object::Reference((3, 0)), Object::Reference((5, 0))]));
    doc.set_object((3, 0), elem("Span", vec![("K", Object::Reference((4, 0)))]));
    doc.set_object((4, 0), elem("NonStruct", vec![("K", Object::Array(vec![]))]));
    doc.set_object((5, 0), elem("Link", vec![("K", Object::Array(vec![Object::Reference((3, 0)), objr(9)]))]));
    assert_eq!(sanitize_with_warnings(&mut doc), vec![(5, 0)]);
    assert!(!get(&doc, (3, 0)).has(b"K"));
    assert_eq!(kids_of(&doc, (5, 0)).len(), 2);
    assert_eq!(sanitize_with_warnings(&mut doc), vec![]);
    assert_eq!(get(&doc, (5, 0)).get(b"K").unwrap().as_reference(), Ok((3, 0)));
}
