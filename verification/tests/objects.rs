use web2pdf::document::Document;
use web2pdf::object::{Dictionary, Object, ObjectKind, PdfError, Stream, StringFormat};
use web2pdf::table::ObjectTable;

fn name(s: &str) -> Object {
    Object::Name(s.as_bytes().to_vec())
}

#[test]
fn dictionary_set_get_and_replace() {
    let mut d = Dictionary::new();
    assert!(d.get(b"A").is_err());
    assert_eq!(d.get(b"A").err(), Some(PdfError::DictKey));
    d.set(b"A".to_vec(), Object::Integer(1));
    d.set(b"B".to_vec(), Object::Integer(2));
    d.set(b"A".to_vec(), Object::Integer(3));
    assert_eq!(d.len(), 2);
    assert_eq!(d.get(b"A").unwrap().as_i64(), Ok(3));
    assert_eq!(d.get(b"B").unwrap().as_i64(), Ok(2));
    assert!(d.has(b"A"));
    assert!(!d.has(b"C"));
    assert_eq!(d.key(0), b"A");
    assert_eq!(d.key(1), b"B");
}

#[test]
fn dictionary_remove_returns_the_value() {
    let mut d = Dictionary::new();
    d.set(b"A".to_vec(), Object::Integer(1));
    d.set(b"B".to_vec(), Object::Integer(2));
    let gone = d.remove(b"A");
    assert_eq!(gone.unwrap().as_i64(), Ok(1));
    assert!(!d.has(b"A"));
    assert_eq!(d.get(b"B").unwrap().as_i64(), Ok(2));
    assert!(d.remove(b"A").is_none());
    assert_eq!(d.len(), 1);
}

#[test]
fn dictionary_merge_prefers_the_other() {
    let mut a = Dictionary::new();
    a.set(b"X".to_vec(), Object::Integer(1));
    a.set(b"Y".to_vec(), Object::Integer(2));
    let mut b = Dictionary::new();
    b.set(b"Y".to_vec(), Object::Integer(20));
    b.set(b"Z".to_vec(), Object::Integer(30));
    a.merge_from(&b);
    assert_eq!(a.len(), 3);
    assert_eq!(a.get(b"X").unwrap().as_i64(), Ok(1));
    assert_eq!(a.get(b"Y").unwrap().as_i64(), Ok(20));
    assert_eq!(a.get(b"Z").unwrap().as_i64(), Ok(30));
}

#[test]
fn clone_copies_nested_objects() {
    let mut inner = Dictionary::new();
    inner.set(b"K".to_vec(), Object::Array(vec![Object::Integer(7), Object::Reference((3, 1))]));
    let stream = Stream {
        dict: inner.clone(),
        content: vec![1, 2, 3],
        allows_compression: true,
        start_position: Some(9),
    };
    let o = Object::Array(vec![
        Object::Null,
        Object::Boolean(true),
        Object::Real(0x3f80_0000),
        Object::String(b"hi".to_vec(), StringFormat::Hexadecimal),
        Object::Dictionary(inner),
        Object::Stream(stream),
    ]);
    let c = o.clone();
    let items = c.as_array().unwrap();
    assert_eq!(items.len(), 6);
    assert_eq!(items[0].kind(), ObjectKind::Null);
    assert_eq!(items[1].as_bool(), Ok(true));
    assert!(matches!(items[2], Object::Real(0x3f80_0000)));
    assert!(matches!(&items[3], Object::String(s, StringFormat::Hexadecimal) if s == b"hi"));
    let d = items[4].as_dict().unwrap();
    let k = d.get(b"K").unwrap().as_array().unwrap();
    assert_eq!(k[0].as_i64(), Ok(7));
    assert_eq!(k[1].as_reference(), Ok((3, 1)));
    let s = items[5].as_stream().unwrap();
    assert_eq!(s.content, vec![1, 2, 3]);
    assert_eq!(s.start_position, Some(9));
    assert!(s.allows_compression);
}

#[test]
fn accessors_report_the_kind_found() {
    let o = Object::Integer(5);
    assert_eq!(
        o.as_reference(),
        Err(PdfError::ObjectType { expected: ObjectKind::Reference, found: ObjectKind::Integer })
    );
    assert_eq!(
        o.as_dict().err(),
        Some(PdfError::ObjectType { expected: ObjectKind::Dictionary, found: ObjectKind::Integer })
    );
    assert_eq!(
        name("X").as_i64(),
        Err(PdfError::ObjectType { expected: ObjectKind::Integer, found: ObjectKind::Name })
    );
    assert_eq!(name("X").as_name().unwrap(), b"X");
    assert_eq!(Object::name("Link").as_name().unwrap(), b"Link");
}

#[test]
fn declared_type_knows_linearized() {
    let mut d = Dictionary::new();
    assert_eq!(d.get_type().err(), Some(PdfError::DictKey));
    d.set(b"Linearized".to_vec(), Object::Integer(1));
    assert_eq!(d.get_type().unwrap(), b"Linearized");
    d.set(b"Type".to_vec(), Object::Integer(3));
    assert_eq!(d.get_type().unwrap(), b"Linearized");
    d.set(b"Type".to_vec(), name("Page"));
    assert_eq!(d.get_type().unwrap(), b"Page");
    assert!(d.has_name("Type", "Page"));
    assert!(!d.has_name("Type", "Pages"));
    assert_eq!(Object::Dictionary(d).declared_type().unwrap(), b"Page");
    assert!(Object::Integer(1).declared_type().is_err());
}

#[test]
fn table_keeps_the_order_of_the_ids() {
    let mut t = ObjectTable::new();
    t.insert((5, 0), Object::Integer(50));
    t.insert((2, 1), Object::Integer(21));
    t.insert((2, 0), Object::Integer(20));
    t.insert((9, 0), Object::Integer(90));
    t.insert((5, 0), Object::Integer(55));
    assert_eq!(t.len(), 4);
    assert_eq!(t.id_at(0), (2, 0));
    assert_eq!(t.id_at(1), (2, 1));
    assert_eq!(t.id_at(2), (5, 0));
    assert_eq!(t.id_at(3), (9, 0));
    assert_eq!(t.object_at(2).as_i64(), Ok(55));
    assert_eq!(t.get((2, 1)).unwrap().as_i64(), Ok(21));
    assert!(t.get((3, 0)).is_none());
    assert!(t.contains((9, 0)));
    assert!(!t.contains((9, 1)));
}

#[test]
fn references_are_followed_when_an_object_is_read() {
    let mut doc = Document::with_version("1.7".to_string());
    doc.set_object((1, 0), Object::Reference((2, 0)));
    doc.set_object((2, 0), Object::Reference((3, 0)));
    doc.set_object((3, 0), Object::Integer(42));
    doc.set_object((4, 0), Object::Reference((7, 0)));
    assert_eq!(doc.get_object((1, 0)).unwrap().as_i64(), Ok(42));
    assert_eq!(doc.resolve((1, 0)).unwrap().id, (3, 0));
    assert_eq!(doc.resolve((3, 0)).unwrap().id, (3, 0));
    assert_eq!(
        doc.get_object((4, 0)).err(),
        Some(PdfError::ObjectNotFound { number: 7, generation: 0 })
    );
    assert_eq!(
        doc.get_object((8, 0)).err(),
        Some(PdfError::ObjectNotFound { number: 8, generation: 0 })
    );
    assert_eq!(
        doc.get_dictionary((1, 0)).err(),
        Some(PdfError::ObjectType { expected: ObjectKind::Dictionary, found: ObjectKind::Integer })
    );
}

#[test]
fn a_chain_of_references_has_a_limit() {
    // 128 references in a row are followed, one more is not.
    let mut doc = Document::with_version("1.7".to_string());
    for i in 1..=129u32 {
        doc.set_object((i, 0), Object::Reference((i + 1, 0)));
    }
    doc.set_object((130, 0), Object::Integer(1));
    assert_eq!(doc.get_object((2, 0)).unwrap().as_i64(), Ok(1));
    assert_eq!(doc.get_object((1, 0)).err(), Some(PdfError::ReferenceLimit));
}

#[test]
fn catalog_is_found_through_the_trailer() {
    let mut doc = Document::with_version("1.7".to_string());
    assert_eq!(doc.catalog().err(), Some(PdfError::DictKey));
    doc.trailer.set(b"Root".to_vec(), Object::Integer(1));
    assert_eq!(
        doc.catalog_id(),
        Err(PdfError::ObjectType { expected: ObjectKind::Reference, found: ObjectKind::Integer })
    );
    doc.trailer.set(b"Root".to_vec(), Object::Reference((1, 0)));
    assert_eq!(doc.catalog().err(), Some(PdfError::ObjectNotFound { number: 1, generation: 0 }));
    let mut cat = Dictionary::new();
    cat.set(b"Type".to_vec(), name("Catalog"));
    doc.set_object((1, 0), Object::Dictionary(cat));
    assert!(doc.catalog().unwrap().has_name("Type", "Catalog"));
}

#[test]
fn add_object_takes_the_next_number() {
    let mut doc = Document::with_version("1.4".to_string());
    doc.max_id = 6;
    let id = doc.add_object(Object::Integer(1));
    assert_eq!(id, (7, 0));
    assert_eq!(doc.max_id, 7);
    assert_eq!(doc.get_object((7, 0)).unwrap().as_i64(), Ok(1));
    assert_eq!(doc.version, "1.4");
}
