//! Dissolving `NonStruct` elements: a child that is one gives way to its own
//! children, which keep their page and get their new parent.

use crate::bytes::{copy_bytes, name};
use crate::document::{Document, DocumentValue, get_dictionary, get_object, resolve_id};
use crate::helpers::{is_nonstruct_node, kids_of, node_is_nonstruct, set_parent_link, with_parent};
use crate::object::{
    array_value, copy_objects, Dictionary, Object, ObjectId, ObjectKind, option_value, PdfError,
    push_object, type_error, Value,
};
use vstd::prelude::*;

verus! {

/// A reference to marked content on a given page.
pub open spec fn mcr(pg: Value, mcid: i64) -> Value {
    Value::Dictionary(
        Map::<Seq<u8>, Value>::empty().insert(name("Type"), Value::Name(name("MCR"))).insert(
            name("Pg"),
            pg,
        ).insert(name("MCID"), Value::Integer(mcid)),
    )
}

/// The document after the element that is read under `node` got the page
/// `pg`, where there is one and the element had none. Where no dictionary is
/// read under `node`, nothing changes.
pub open spec fn with_page(
    objects: Map<ObjectId, Value>,
    node: ObjectId,
    pg: Option<Value>,
) -> Map<ObjectId, Value> {
    match (pg, resolve_id(objects, node), get_object(objects, node)) {
        (Some(p), Ok(at), Ok(Value::Dictionary(d))) => if d.contains_key(name("Pg")) {
            objects
        } else {
            objects.insert(at, Value::Dictionary(d.insert(name("Pg"), p)))
        },
        _ => objects,
    }
}

/// A dictionary with the given children: under `K` the one child, or the
/// array of them, or nothing where there is none.
pub open spec fn with_kids(d: Map<Seq<u8>, Value>, kids: Seq<Value>) -> Map<Seq<u8>, Value> {
    if kids.len() == 0 {
        d.remove(name("K"))
    } else if kids.len() == 1 {
        d.insert(name("K"), kids[0])
    } else {
        d.insert(name("K"), Value::Array(kids))
    }
}

/// The objects of the document and the new children of the parent, while a
/// parent's children are gone through.
pub struct Dissolving {
    pub objects: Map<ObjectId, Value>,
    pub kids: Seq<Value>,
    pub changed: bool,
}

/// One child of a dissolved element comes up into the parent: a
/// marked-content id is bound to the page of the dissolved element, an
/// element gets the parent and, where it has none, that page.
pub open spec fn surface_one(st: Dissolving, parent: ObjectId, pg: Option<Value>, gc: Value) -> Dissolving {
    match gc {
        Value::Integer(m) => Dissolving {
            kids: st.kids.push(
                match pg {
                    Some(p) => mcr(p, m),
                    None => gc,
                },
            ),
            ..st
        },
        Value::Reference(g) => Dissolving {
            objects: with_page(with_parent(st.objects, g, parent), g, pg),
            kids: st.kids.push(gc),
            ..st
        },
        _ => Dissolving { kids: st.kids.push(gc), ..st },
    }
}

/// The children of a dissolved element come up into the parent, in order.
pub open spec fn surface_all(st: Dissolving, parent: ObjectId, pg: Option<Value>, gcs: Seq<Value>) -> Dissolving
    decreases gcs.len(),
{
    if gcs.len() == 0 {
        st
    } else {
        surface_one(surface_all(st, parent, pg, gcs.drop_last()), parent, pg, gcs.last())
    }
}

/// One child of the parent is gone through: a reference to a `NonStruct`
/// element gives way to that element's children, any other child stays.
pub open spec fn dissolve_one(st: Dissolving, parent: ObjectId, kid: Value) -> Dissolving {
    match kid {
        Value::Reference(id) => match get_dictionary(st.objects, id) {
            Ok(kd) => if is_nonstruct_node(st.objects, id) {
                let pg = if kd.contains_key(name("Pg")) {
                    Some(kd[name("Pg")])
                } else {
                    None
                };
                Dissolving { changed: true, ..surface_all(st, parent, pg, kids_of(kd)) }
            } else {
                Dissolving { kids: st.kids.push(kid), ..st }
            },
            Err(_) => Dissolving { kids: st.kids.push(kid), ..st },
        },
        _ => Dissolving { kids: st.kids.push(kid), ..st },
    }
}

/// The children of the parent are gone through, in order.
pub open spec fn dissolve_all(st: Dissolving, parent: ObjectId, kids: Seq<Value>) -> Dissolving
    decreases kids.len(),
{
    if kids.len() == 0 {
        st
    } else {
        dissolve_one(dissolve_all(st, parent, kids.drop_last()), parent, kids.last())
    }
}

/// The document after the `NonStruct` children of the element under
/// `parent`, whose dictionary is `d`, are dissolved: the children that come
/// up are bound to their page and get `parent` as their parent, and the
/// element holds one child as it is, several as an array, and no `K` where
/// none is left. Nothing changes where the element has no `K`, or where none
/// of its children is a `NonStruct` element.
pub open spec fn dissolve_in(
    objects: Map<ObjectId, Value>,
    parent: ObjectId,
    d: Map<Seq<u8>, Value>,
) -> Map<ObjectId, Value> {
    if d.contains_key(name("K")) {
        let st = dissolve_all(Dissolving { objects, kids: Seq::empty(), changed: false }, parent, kids_of(d));
        if st.changed {
            st.objects.insert(parent, Value::Dictionary(with_kids(d, st.kids)))
        } else {
            objects
        }
    } else {
        objects
    }
}

/// The document after the `NonStruct` children of the element under
/// `parent` are dissolved. Nothing changes where no dictionary is read under
/// `parent`, where it has no `K`, or where none of its children is a
/// `NonStruct` element.
pub open spec fn dissolve_node(objects: Map<ObjectId, Value>, parent: ObjectId) -> Map<ObjectId, Value> {
    match get_object(objects, parent) {
        Ok(Value::Dictionary(d)) => dissolve_in(objects, parent, d),
        _ => objects,
    }
}

/// Whether dissolving succeeds on the element under `parent`: it fails where
/// an object is read there that is no dictionary.
pub open spec fn dissolve_outcome(objects: Map<ObjectId, Value>, parent: ObjectId) -> Result<(), PdfError> {
    match get_object(objects, parent) {
        Ok(Value::Dictionary(_)) => Ok(()),
        Ok(v) => Err(type_error(v, ObjectKind::Dictionary)),
        Err(_) => Ok(()),
    }
}

/// Going through children that hold no `NonStruct` element changes no object.
pub proof fn lemma_unchanged(st: Dissolving, parent: ObjectId, kids: Seq<Value>)
    ensures
        !dissolve_all(st, parent, kids).changed ==> dissolve_all(st, parent, kids).objects
            == st.objects && !st.changed,
    decreases kids.len(),
{
    if kids.len() > 0 {
        lemma_unchanged(st, parent, kids.drop_last());
    }
}

/// Gives the element that is read under `node` the page `pg`, where the
/// element has none.
fn set_page(doc: &mut Document, node: ObjectId, pg: &Option<Object>)
    ensures
        final(doc)@ == (DocumentValue {
            objects: with_page(old(doc)@.objects, node, option_value(*pg)),
            ..old(doc)@
        }),
{
    let p = match pg {
        Some(p) => p,
        None => {
            return ;
        },
    };
    let found = match doc.resolve(node) {
        Ok(x) => match x.object {
            Object::Dictionary(d) => {
                if d.has("Pg".as_bytes()) {
                    None
                } else {
                    let mut dict = d.clone();
                    dict.set(copy_bytes("Pg".as_bytes()), p.clone());
                    Some((x.id, dict))
                }
            },
            _ => None,
        },
        Err(_) => None,
    };
    if let Some((at, dict)) = found {
        doc.objects.insert(at, Object::Dictionary(dict));
    }
}

/// A reference to marked content on a given page.
fn make_mcr(pg: &Object, mcid: i64) -> (r: Object)
    ensures
        r@ == mcr(pg@, mcid),
{
    let mut d = Dictionary::new();
    d.set(copy_bytes("Type".as_bytes()), Object::name("MCR"));
    d.set(copy_bytes("Pg".as_bytes()), pg.clone());
    d.set(copy_bytes("MCID".as_bytes()), Object::Integer(mcid));
    Object::Dictionary(d)
}

/// Puts the given children into a dictionary.
pub fn set_kids(dict: &mut Dictionary, mut kids: Vec<Object>)
    ensures
        final(dict)@ == with_kids(old(dict)@, array_value(kids@)),
{
    if kids.len() == 0 {
        dict.remove("K".as_bytes());
    } else if kids.len() == 1 {
        let only = kids.pop().unwrap();
        dict.set(copy_bytes("K".as_bytes()), only);
    } else {
        dict.set(copy_bytes("K".as_bytes()), Object::Array(kids));
    }
}

/// Dissolves the `NonStruct` children of the element under `parent_id`.
pub fn dissolve_nonstruct_in_node(doc: &mut Document, parent_id: ObjectId) -> (r: Result<(), PdfError>)
    ensures
        r == dissolve_outcome(old(doc)@.objects, parent_id),
        final(doc)@ == (DocumentValue {
            objects: dissolve_node(old(doc)@.objects, parent_id),
            ..old(doc)@
        }),
{
    let dict = match doc.get_object(parent_id) {
        Ok(o) => match o.as_dict() {
            Ok(d) => d.clone(),
            Err(e) => {
                return Err(e);
            },
        },
        Err(_) => {
            return Ok(());
        },
    };
    dissolve_children(doc, parent_id, dict);
    Ok(())
}

/// Dissolves the `NonStruct` children of the element under `parent_id`,
/// whose dictionary is `dict`.
pub(crate) fn dissolve_children(doc: &mut Document, parent_id: ObjectId, mut dict: Dictionary)
    ensures
        final(doc)@ == (DocumentValue {
            objects: dissolve_in(old(doc)@.objects, parent_id, dict@),
            ..old(doc)@
        }),
{
    let kids: Vec<Object> = match dict.get("K".as_bytes()) {
        Ok(Object::Array(a)) => copy_objects(a),
        Ok(o) => {
            let mut one: Vec<Object> = Vec::new();
            push_object(&mut one, o.clone());
            proof {
                assert(array_value(one@) =~= seq![o@]);
            }
            one
        },
        Err(_) => {
            return ;
        },
    };
    let ghost kidsv = array_value(kids@);
    let ghost start = Dissolving { objects: doc@.objects, kids: Seq::empty(), changed: false };
    let mut new_kids: Vec<Object> = Vec::new();
    let mut changed = false;
    let mut i: usize = 0;
    proof {
        assert(array_value(new_kids@) =~= Seq::<Value>::empty());
    }
    while i < kids.len()
        invariant
            i <= kids@.len(),
            kidsv == array_value(kids@),
            doc@.version == old(doc)@.version,
            doc@.trailer == old(doc)@.trailer,
            doc@.max_id == old(doc)@.max_id,
            doc@.objects == dissolve_all(start, parent_id, kidsv.take(i as int)).objects,
            array_value(new_kids@) == dissolve_all(start, parent_id, kidsv.take(i as int)).kids,
            changed == dissolve_all(start, parent_id, kidsv.take(i as int)).changed,
        decreases kids@.len() - i,
    {
        let ghost before = dissolve_all(start, parent_id, kidsv.take(i as int));
        proof {
            assert(kidsv.take(i + 1).drop_last() =~= kidsv.take(i as int));
            assert(kidsv.take(i + 1).last() == kids@[i as int]@);
        }
        let mut surfaced = false;
        if let Object::Reference(kid_id) = &kids[i] {
            if node_is_nonstruct(doc, *kid_id) {
                let mut pg: Option<Object> = None;
                let mut gcs: Vec<Object> = Vec::new();
                proof {
                    assert(array_value(gcs@) =~= Seq::<Value>::empty());
                }
                if let Ok(kd) = doc.get_dictionary(*kid_id) {
                    if let Ok(p) = kd.get("Pg".as_bytes()) {
                        pg = Some(p.clone());
                    }
                    match kd.get("K".as_bytes()) {
                        Ok(Object::Array(a)) => {
                            gcs = copy_objects(a);
                        },
                        Ok(o) => {
                            push_object(&mut gcs, o.clone());
                            proof {
                                assert(array_value(gcs@) =~= seq![o@]);
                            }
                        },
                        Err(_) => {},
                    }
                }
                let ghost pgv: Option<Value> = option_value(pg);
                let ghost gcsv = array_value(gcs@);
                let mut j: usize = 0;
                while j < gcs.len()
                    invariant
                        j <= gcs@.len(),
                        gcsv == array_value(gcs@),
                        pgv == option_value(pg),
                        doc@.version == old(doc)@.version,
                        doc@.trailer == old(doc)@.trailer,
                        doc@.max_id == old(doc)@.max_id,
                        doc@.objects == surface_all(before, parent_id, pgv, gcsv.take(j as int)).objects,
                        array_value(new_kids@) == surface_all(
                            before,
                            parent_id,
                            pgv,
                            gcsv.take(j as int),
                        ).kids,
                    decreases gcs@.len() - j,
                {
                    proof {
                        assert(gcsv.take(j + 1).drop_last() =~= gcsv.take(j as int));
                        assert(gcsv.take(j + 1).last() == gcs@[j as int]@);
                    }
                    match &gcs[j] {
                        Object::Integer(m) => {
                            match &pg {
                                Some(p) => {
                                    let wrapped = make_mcr(p, *m);
                                    push_object(&mut new_kids, wrapped);
                                },
                                None => {
                                    push_object(&mut new_kids, Object::Integer(*m));
                                },
                            }
                        },
                        Object::Reference(g) => {
                            set_parent_link(doc, *g, parent_id);
                            set_page(doc, *g, &pg);
                            push_object(&mut new_kids, Object::Reference(*g));
                        },
                        other => {
                            push_object(&mut new_kids, other.clone());
                        },
                    }
                    j += 1;
                }
                proof {
                    assert(gcsv.take(gcs@.len() as int) =~= gcsv);
                }
                changed = true;
                surfaced = true;
            }
        }
        if !surfaced {
            push_object(&mut new_kids, kids[i].clone());
        }
        i += 1;
    }
    proof {
        assert(kidsv.take(kids@.len() as int) =~= kidsv);
        lemma_unchanged(start, parent_id, kidsv);
    }
    if changed {
        set_kids(&mut dict, new_kids);
        doc.objects.insert(parent_id, Object::Dictionary(dict));
    }
}

} // verus!
