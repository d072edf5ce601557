//! Reading structure elements: roles, children, and the root of the
//! structure tree.

use crate::bytes::{copy_bytes, is_name, name};
use crate::document::{Document, DocumentValue, get_dictionary, get_object, resolve_id};
use crate::object::{
    array_value, copy_objects, dict_get, dict_has_name, Dictionary, Object, ObjectId, PdfError,
    Value,
};
use vstd::prelude::*;

verus! {

/// The id of the structure tree root: what the catalog holds under
/// `StructTreeRoot`, where that is a reference.
pub open spec fn struct_tree_root(doc: DocumentValue) -> Option<ObjectId> {
    match doc.catalog() {
        Ok(cat) => match dict_get(cat, name("StructTreeRoot")) {
            Ok(Value::Reference(id)) => Some(id),
            _ => None,
        },
        Err(_) => None,
    }
}

/// The role of a structure element: the name under `S`.
pub open spec fn role_of(d: Map<Seq<u8>, Value>) -> Option<Seq<u8>> {
    match dict_get(d, name("S")) {
        Ok(Value::Name(n)) => Some(n),
        _ => None,
    }
}

/// The role of the structure element that is read under an id.
pub open spec fn node_role(objects: Map<ObjectId, Value>, id: ObjectId) -> Option<Seq<u8>> {
    match get_dictionary(objects, id) {
        Ok(d) => role_of(d),
        Err(_) => None,
    }
}

/// Whether the object that is read under an id is a `NonStruct` element.
pub open spec fn is_nonstruct_node(objects: Map<ObjectId, Value>, id: ObjectId) -> bool {
    node_role(objects, id) == Some(name("NonStruct"))
}

/// Whether an object is an object reference written out: a dictionary of
/// type `OBJR`.
pub open spec fn is_objr_value(v: Value) -> bool {
    v matches Value::Dictionary(d) && dict_has_name(d, name("Type"), name("OBJR"))
}

/// Whether a child is an object reference: a dictionary of type `OBJR`,
/// written out or behind a reference.
pub open spec fn is_objr_child(objects: Map<ObjectId, Value>, v: Value) -> bool {
    match v {
        Value::Reference(id) => match get_dictionary(objects, id) {
            Ok(d) => dict_has_name(d, name("Type"), name("OBJR")),
            Err(_) => false,
        },
        Value::Dictionary(d) => dict_has_name(d, name("Type"), name("OBJR")),
        _ => false,
    }
}

/// The children of a structure element: the members of the array under `K`,
/// or the one object under `K`.
pub open spec fn kids_of(d: Map<Seq<u8>, Value>) -> Seq<Value> {
    if !d.contains_key(name("K")) {
        Seq::empty()
    } else {
        match d[name("K")] {
            Value::Array(a) => a,
            other => seq![other],
        }
    }
}

/// The document after the element that is read under `node` got `parent` as
/// its parent. Where no dictionary is read under `node`, nothing changes.
pub open spec fn with_parent(
    objects: Map<ObjectId, Value>,
    node: ObjectId,
    parent: ObjectId,
) -> Map<ObjectId, Value> {
    match (resolve_id(objects, node), get_object(objects, node)) {
        (Ok(at), Ok(Value::Dictionary(d))) => objects.insert(
            at,
            Value::Dictionary(d.insert(name("P"), Value::Reference(parent))),
        ),
        _ => objects,
    }
}

/// The id of the structure tree root.
pub fn find_struct_tree_root(doc: &Document) -> (r: Option<ObjectId>)
    ensures
        r == struct_tree_root(doc@),
{
    match doc.catalog() {
        Ok(cat) => match cat.get("StructTreeRoot".as_bytes()) {
            Ok(Object::Reference(id)) => Some(*id),
            _ => None,
        },
        Err(_) => None,
    }
}

/// The id of the structure tree root.
pub fn find_struct_tree_root_id(doc: &Document) -> (r: Option<ObjectId>)
    ensures
        r == struct_tree_root(doc@),
{
    find_struct_tree_root(doc)
}

/// Whether a structure element has the role `Link`.
pub fn is_link_struct(dict: &Dictionary) -> (r: bool)
    ensures
        r == (role_of(dict@) == Some(name("Link"))),
{
    match dict.get("S".as_bytes()) {
        Ok(obj) => is_link_obj(obj),
        Err(_) => false,
    }
}

/// Whether an object is the name `Link`.
pub fn is_link_obj(obj: &Object) -> (r: bool)
    ensures
        r == (obj@ == Value::Name(name("Link"))),
{
    match obj {
        Object::Name(n) => is_name(n.as_slice(), "Link"),
        _ => false,
    }
}

/// Whether an object is a dictionary of type `OBJR`.
pub fn is_objr(obj: &Object) -> (r: bool)
    ensures
        r == is_objr_value(obj@),
{
    match obj {
        Object::Dictionary(d) => d.has_name("Type", "OBJR"),
        _ => false,
    }
}

/// Whether an object is a marked-content id: an integer.
pub fn is_mcid(obj: &Object) -> (r: bool)
    ensures
        r == (obj@ is Integer),
{
    match obj {
        Object::Integer(_) => true,
        _ => false,
    }
}

/// The children of a structure element, copied.
pub fn get_kids_as_vec(dict: &Dictionary) -> (r: Result<Vec<Object>, PdfError>)
    ensures
        r matches Ok(kids) && array_value(kids@) == kids_of(dict@),
{
    match dict.get("K".as_bytes()) {
        Ok(Object::Array(arr)) => Ok(copy_objects(arr)),
        Ok(obj) => {
            let mut kids: Vec<Object> = Vec::new();
            kids.push(obj.clone());
            proof {
                assert(array_value(kids@) =~= seq![obj@]);
            }
            Ok(kids)
        },
        Err(_) => {
            let kids: Vec<Object> = Vec::new();
            proof {
                assert(array_value(kids@) =~= Seq::<Value>::empty());
            }
            Ok(kids)
        },
    }
}

/// Whether the object that is read under an id is a `NonStruct` element.
pub fn node_is_nonstruct(doc: &Document, id: ObjectId) -> (r: bool)
    ensures
        r == is_nonstruct_node(doc@.objects, id),
{
    match doc.get_dictionary(id) {
        Ok(d) => is_nonstruct(d),
        Err(_) => false,
    }
}

/// Whether a structure element has the role `NonStruct`.
pub fn is_nonstruct(dict: &Dictionary) -> (r: bool)
    ensures
        r == (role_of(dict@) == Some(name("NonStruct"))),
{
    dict.has_name("S", "NonStruct")
}

/// Makes `parent_id` the parent of the element that is read under `node_id`.
pub fn set_parent_link(doc: &mut Document, node_id: ObjectId, parent_id: ObjectId)
    ensures
        final(doc)@ == (DocumentValue {
            objects: with_parent(old(doc)@.objects, node_id, parent_id),
            ..old(doc)@
        }),
{
    let found = match doc.resolve(node_id) {
        Ok(x) => match x.object {
            Object::Dictionary(d) => {
                let mut dict = d.clone();
                dict.set(copy_bytes("P".as_bytes()), Object::Reference(parent_id));
                Some((x.id, dict))
            },
            _ => None,
        },
        Err(_) => None,
    };
    if let Some((at, dict)) = found {
        doc.objects.insert(at, Object::Dictionary(dict));
    }
}

/// The role of the structure element that is read under an id.
pub fn get_node_role(doc: &Document, id: ObjectId) -> (r: Option<Vec<u8>>)
    ensures
        r matches Some(n) ==> node_role(doc@.objects, id) == Some(n@),
        r is None ==> node_role(doc@.objects, id) is None,
{
    match doc.get_dictionary(id) {
        Ok(d) => match d.get("S".as_bytes()) {
            Ok(Object::Name(n)) => Some(copy_bytes(n.as_slice())),
            _ => None,
        },
        Err(_) => None,
    }
}

/// The roles whose elements hold text.
pub open spec fn text_container_role(role: Seq<u8>) -> bool {
    ||| role == name("P")
    ||| role == name("H1")
    ||| role == name("H2")
    ||| role == name("H3")
    ||| role == name("H4")
    ||| role == name("H5")
    ||| role == name("H6")
    ||| role == name("LI")
    ||| role == name("Link")
}

/// Whether elements of the role hold text.
pub fn is_text_container(role: &[u8]) -> (r: bool)
    ensures
        r == text_container_role(role@),
{
    is_name(role, "P") || is_name(role, "H1") || is_name(role, "H2") || is_name(role, "H3")
        || is_name(role, "H4") || is_name(role, "H5") || is_name(role, "H6") || is_name(role, "LI")
        || is_name(role, "Link")
}

/// Whether a child is an object reference, written out or behind a reference.
pub fn is_objr_type(obj: &Object, doc: &Document) -> (r: bool)
    ensures
        r == is_objr_child(doc@.objects, obj@),
{
    match obj {
        Object::Reference(id) => match doc.get_dictionary(*id) {
            Ok(d) => d.has_name("Type", "OBJR"),
            Err(_) => false,
        },
        Object::Dictionary(d) => d.has_name("Type", "OBJR"),
        _ => false,
    }
}

} // verus!
