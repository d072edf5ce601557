use web2pdf::document::Document;
use web2pdf::helpers::{
    find_struct_tree_root, find_struct_tree_root_id, get_kids_as_vec, get_node_role, is_link_obj,
    is_link_struct, is_mcid, is_nonstruct, is_objr, is_objr_type, is_text_container,
    node_is_nonstruct, set_parent_link,
};
use web2pdf::object::{Dictionary, Object};
use web2pdf::text::link_has_textual_content;
use web2pdf::walker::{child_references, collect_all_node_ids, references_in, traverse_struct_tree};

fn name(s: &str) -> Object {
    Object::Name(s.as_bytes().to_vec())
}

fn dict(entries: Vec<(&str, Object)>) -> Dictionary {
    let mut d = Dictionary::new();
    for (k, v) in entries {
        d.set(k.as_bytes().to_vec(), v);
    }
    d
}

fn refs(ids: &[u32]) -> Object {
    Object::Array(ids.iter().map(|i| Object::Reference((*i, 0))).collect())
}

fn elem(role: &str, kids: Option<Object>) -> Object {
    let mut d = dict(vec![("S", name(role))]);
    if let Some(k) = kids {
        d.set(b"K".to_vec(), k);
    }
    Object::Dictionary(d)
}

#[test]
fn walk_is_breadth_first_and_visits_each_element_once() {
    let mut doc = Document::with_version("1.7".to_string());
    doc.set_object((1, 0), elem("Root", Some(refs(&[2, 3]))));
    doc.set_object((2, 0), elem("Sect", Some(refs(&[4, 5]))));
    doc.set_object((3, 0), elem("Sect", Some(refs(&[5, 6, 99]))));
    doc.set_object((4, 0), elem("P", Some(Object::Integer(0))));
    doc.set_object((5, 0), elem("P", Some(Object::Reference((1, 0)))));
    doc.set_object((6, 0), elem("P", None));
    assert_eq!(
        traverse_struct_tree(&doc, (1, 0)),
        vec![(1, 0), (2, 0), (3, 0), (4, 0), (5, 0), (6, 0)]
    );
    assert_eq!(
        collect_all_node_ids(&doc, (1, 0)),
        vec![(6, 0), (5, 0), (4, 0), (3, 0), (2, 0), (1, 0)]
    );
    assert_eq!(traverse_struct_tree(&doc, (6, 0)), vec![(6, 0)]);
}

#[test]
fn walk_from_a_missing_root_is_empty() {
    let doc = Document::with_version("1.7".to_string());
    assert!(traverse_struct_tree(&doc, (1, 0)).is_empty());
    assert!(collect_all_node_ids(&doc, (1, 0)).is_empty());
}

#[test]
fn only_references_among_the_children_are_followed() {
    let kids = vec![Object::Integer(1), Object::Reference((4, 0)), name("x"), Object::Reference((2, 7))];
    assert_eq!(references_in(&kids), vec![(4, 0), (2, 7)]);
    let mut doc = Document::with_version("1.7".to_string());
    doc.set_object((1, 0), elem("P", Some(Object::Reference((8, 0)))));
    doc.set_object((2, 0), elem("P", Some(Object::Integer(8))));
    doc.set_object((3, 0), Object::Integer(8));
    assert_eq!(child_references(&doc, (1, 0)), vec![(8, 0)]);
    assert!(child_references(&doc, (2, 0)).is_empty());
    assert!(child_references(&doc, (3, 0)).is_empty());
    assert!(child_references(&doc, (4, 0)).is_empty());
}

#[test]
fn roles_and_kinds_of_children_are_told_apart() {
    let link = dict(vec![("S", name("Link"))]);
    assert!(is_link_struct(&link));
    assert!(!is_nonstruct(&link));
    assert!(is_nonstruct(&dict(vec![("S", name("NonStruct"))])));
    assert!(!is_link_struct(&dict(vec![("S", Object::Integer(1))])));
    assert!(!is_link_struct(&Dictionary::new()));
    assert!(is_link_obj(&name("Link")));
    assert!(!is_link_obj(&name("Links")));
    assert!(!is_link_obj(&Object::Integer(1)));
    assert!(is_mcid(&Object::Integer(3)));
    assert!(!is_mcid(&Object::Reference((3, 0))));
    let objr = Object::Dictionary(dict(vec![("Type", name("OBJR")), ("Obj", Object::Reference((9, 0)))]));
    let mcr = Object::Dictionary(dict(vec![("Type", name("MCR"))]));
    assert!(is_objr(&objr));
    assert!(!is_objr(&mcr));
    assert!(!is_objr(&Object::Reference((1, 0))));

    let mut doc = Document::with_version("1.7".to_string());
    doc.set_object((1, 0), objr.clone());
    doc.set_object((2, 0), mcr.clone());
    doc.set_object((3, 0), elem("NonStruct", None));
    assert!(is_objr_type(&objr, &doc));
    assert!(is_objr_type(&Object::Reference((1, 0)), &doc));
    assert!(!is_objr_type(&Object::Reference((2, 0)), &doc));
    assert!(!is_objr_type(&Object::Reference((7, 0)), &doc));
    assert!(!is_objr_type(&Object::Integer(1), &doc));
    assert!(node_is_nonstruct(&doc, (3, 0)));
    assert!(!node_is_nonstruct(&doc, (2, 0)));
    assert!(!node_is_nonstruct(&doc, (7, 0)));
    assert_eq!(get_node_role(&doc, (3, 0)), Some(b"NonStruct".to_vec()));
    assert_eq!(get_node_role(&doc, (2, 0)), None);
    assert_eq!(get_node_role(&doc, (7, 0)), None);
}

#[test]
fn text_container_roles() {
    for role in ["P", "H1", "H2", "H3", "H4", "H5", "H6", "LI", "Link"] {
        assert!(is_text_container(role.as_bytes()), "{}", role);
    }
    for role in ["", "H", "H7", "Span", "Document", "p", "NonStruct", "Links"] {
        assert!(!is_text_container(role.as_bytes()), "{}", role);
    }
}

#[test]
fn children_are_read_as_a_list() {
    let none = get_kids_as_vec(&Dictionary::new()).unwrap();
    assert!(none.is_empty());
    let one = get_kids_as_vec(&dict(vec![("K", Object::Integer(4))])).unwrap();
    assert_eq!(one.len(), 1);
    assert_eq!(one[0].as_i64(), Ok(4));
    let many = get_kids_as_vec(&dict(vec![("K", refs(&[1, 2, 3]))])).unwrap();
    assert_eq!(many.len(), 3);
    assert_eq!(many[2].as_reference(), Ok((3, 0)));
}

#[test]
fn parent_is_set_where_the_reference_ends() {
    let mut doc = Document::with_version("1.7".to_string());
    doc.set_object((1, 0), Object::Reference((2, 0)));
    doc.set_object((2, 0), elem("P", None));
    doc.set_object((3, 0), Object::Integer(1));
    set_parent_link(&mut doc, (1, 0), (9, 0));
    set_parent_link(&mut doc, (3, 0), (9, 0));
    set_parent_link(&mut doc, (4, 0), (9, 0));
    assert_eq!(doc.objects.get((1, 0)).unwrap().as_reference(), Ok((2, 0)));
    let p = doc.objects.get((2, 0)).unwrap().as_dict().unwrap();
    assert_eq!(p.get(b"P").unwrap().as_reference(), Ok((9, 0)));
    assert_eq!(doc.objects.get((3, 0)).unwrap().as_i64(), Ok(1));
    assert_eq!(doc.objects.len(), 3);
}

#[test]
fn structure_tree_root_is_named_by_the_catalog() {
    let mut doc = Document::with_version("1.7".to_string());
    assert_eq!(find_struct_tree_root(&doc), None);
    doc.trailer.set(b"Root".to_vec(), Object::Reference((1, 0)));
    doc.set_object((1, 0), Object::Dictionary(dict(vec![("StructTreeRoot", Object::Integer(2))])));
    assert_eq!(find_struct_tree_root_id(&doc), None);
    doc.set_object((1, 0), Object::Dictionary(dict(vec![("StructTreeRoot", Object::Reference((5, 0)))])));
    assert_eq!(find_struct_tree_root(&doc), Some((5, 0)));
    assert_eq!(find_struct_tree_root_id(&doc), Some((5, 0)));
}

#[test]
fn text_is_a_marked_content_id_or_an_element_without_children() {
    let mut doc = Document::with_version("1.7".to_string());
    doc.set_object((1, 0), elem("Span", None));
    doc.set_object((2, 0), elem("Span", Some(Object::Array(vec![]))));
    doc.set_object((3, 0), elem("Span", Some(refs(&[2]))));
    doc.set_object((4, 0), elem("Span", Some(refs(&[3, 1]))));
    doc.set_object((5, 0), elem("Span", Some(refs(&[5]))));
    doc.set_object((6, 0), Object::Integer(3));
    let direct = dict(vec![("K", Object::Array(vec![name("x"), Object::Integer(3)]))]);
    assert_eq!(link_has_textual_content(&doc, &direct), Ok(true));
    assert_eq!(link_has_textual_content(&doc, &dict(vec![("K", Object::Integer(0))])), Ok(true));
    assert_eq!(link_has_textual_content(&doc, &Dictionary::new()), Ok(false));
    assert_eq!(link_has_textual_content(&doc, &dict(vec![("K", refs(&[1]))])), Ok(true));
    assert_eq!(link_has_textual_content(&doc, &dict(vec![("K", refs(&[2]))])), Ok(false));
    assert_eq!(link_has_textual_content(&doc, &dict(vec![("K", refs(&[3]))])), Ok(false));
    assert_eq!(link_has_textual_content(&doc, &dict(vec![("K", refs(&[4]))])), Ok(true));
    // An element that is its own child holds no text, and the search ends.
    assert_eq!(link_has_textual_content(&doc, &dict(vec![("K", refs(&[5]))])), Ok(false));
    // What cannot be read as an element brings no text, but the search goes on.
    assert_eq!(link_has_textual_content(&doc, &dict(vec![("K", refs(&[6, 77, 1]))])), Ok(true));
    assert_eq!(link_has_textual_content(&doc, &dict(vec![("K", refs(&[6, 77]))])), Ok(false));
}
