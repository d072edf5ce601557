//! Whether a structure element holds text.

use crate::bytes::name;
use crate::document::{Document, get_dictionary};
use crate::helpers::kids_of;
use crate::object::{array_value, dict_has_name, Dictionary, Object, ObjectId, PdfError, Value};
use vstd::prelude::*;

verus! {

/// Whether a dictionary is an object reference: one of type `OBJR`.
pub open spec fn is_objr_dict(d: Map<Seq<u8>, Value>) -> bool {
    dict_has_name(d, name("Type"), name("OBJR"))
}

/// Whether a child brings text: it is a marked-content id, or it refers to
/// an element without `K`, or to one that holds text within `depth` levels.
/// A reference to an object reference is no element and brings none.
pub open spec fn kid_has_text(objects: Map<ObjectId, Value>, kid: Value, depth: nat) -> bool
    decreases depth, 0nat,
{
    match kid {
        Value::Integer(_) => true,
        Value::Reference(id) => match get_dictionary(objects, id) {
            Ok(d) => !is_objr_dict(d) && (!d.contains_key(name("K")) || (depth > 0 && has_text_within(
                objects,
                d,
                (depth - 1) as nat,
            ))),
            Err(_) => false,
        },
        _ => false,
    }
}

/// Whether one of the children of an element brings text.
pub open spec fn has_text_within(
    objects: Map<ObjectId, Value>,
    d: Map<Seq<u8>, Value>,
    depth: nat,
) -> bool
    decreases depth, 1nat,
{
    exists|i: int| 0 <= i < kids_of(d).len() && kid_has_text(objects, #[trigger] kids_of(d)[i], depth)
}

/// Whether an element holds text: a marked-content id among its children,
/// or below it an element without `K`; an object reference is no such
/// element. Text is looked for as many levels down as the document has
/// objects; what is found within any depth is found within that one.
pub open spec fn has_text(objects: Map<ObjectId, Value>, d: Map<Seq<u8>, Value>) -> bool {
    has_text_within(objects, d, objects.dom().len())
}

fn child_brings_text(doc: &Document, kid: &Object, depth: usize) -> (r: bool)
    ensures
        r == kid_has_text(doc@.objects, kid@, depth as nat),
    decreases depth, 0nat,
{
    match kid {
        Object::Integer(_) => true,
        Object::Reference(id) => match doc.get_dictionary(*id) {
            Ok(d) => !d.has_name("Type", "OBJR") && (!d.has("K".as_bytes()) || (depth > 0
                && holds_text_within(doc, d, depth - 1))),
            Err(_) => false,
        },
        _ => false,
    }
}

fn holds_text_within(doc: &Document, dict: &Dictionary, depth: usize) -> (r: bool)
    ensures
        r == has_text_within(doc@.objects, dict@, depth as nat),
    decreases depth, 1nat,
{
    match dict.get("K".as_bytes()) {
        Ok(Object::Array(a)) => {
            let mut i: usize = 0;
            let ghost kids = array_value(a@);
            while i < a.len()
                invariant
                    i <= a@.len(),
                    kids == array_value(a@),
                    kids == kids_of(dict@),
                    forall|j: int| 0 <= j < i ==> !kid_has_text(doc@.objects, #[trigger] kids[j], depth as nat),
                decreases a@.len() - i,
            {
                if child_brings_text(doc, &a[i], depth) {
                    proof {
                        assert(kid_has_text(doc@.objects, kids[i as int], depth as nat));
                    }
                    return true;
                }
                i += 1;
            }
            false
        },
        Ok(k) => {
            let r = child_brings_text(doc, k, depth);
            proof {
                let kids = kids_of(dict@);
                assert(kids =~= seq![k@]);
                if r {
                    assert(kid_has_text(doc@.objects, kids[0], depth as nat));
                }
            }
            r
        },
        Err(_) => false,
    }
}

/// Whether an element holds text.
pub fn link_has_textual_content(doc: &Document, dict: &Dictionary) -> (r: Result<bool, PdfError>)
    ensures
        r == Ok::<bool, PdfError>(has_text(doc@.objects, dict@)),
{
    let depth = doc.objects.len();
    Ok(holds_text_within(doc, dict, depth))
}

/// Whether an element with the dictionary `d` brings text to the element
/// that refers to it, within `depth` levels.
pub open spec fn element_brings_text(objects: Map<ObjectId, Value>, d: Map<Seq<u8>, Value>, depth: nat) -> bool {
    !is_objr_dict(d) && (!d.contains_key(name("K")) || (depth > 0 && has_text_within(
        objects,
        d,
        (depth - 1) as nat,
    )))
}

/// Whether an element brings text within `depth` levels and not within
/// fewer.
pub open spec fn brings_text_at(objects: Map<ObjectId, Value>, d: Map<Seq<u8>, Value>, depth: nat) -> bool {
    element_brings_text(objects, d, depth) && (depth > 0 ==> !element_brings_text(
        objects,
        d,
        (depth - 1) as nat,
    ))
}

/// What brings text within some depth brings it within every larger one.
pub proof fn lemma_text_within_more(objects: Map<ObjectId, Value>, kid: Value, depth: nat, more: nat)
    requires
        depth <= more,
        kid_has_text(objects, kid, depth),
    ensures
        kid_has_text(objects, kid, more),
    decreases depth,
{
    if let Value::Reference(id) = kid {
        if let Ok(d) = get_dictionary(objects, id) {
            if d.contains_key(name("K")) {
                let i = choose|i: int|
                    0 <= i < kids_of(d).len() && kid_has_text(
                        objects,
                        #[trigger] kids_of(d)[i],
                        (depth - 1) as nat,
                    );
                lemma_text_within_more(objects, kids_of(d)[i], (depth - 1) as nat, (more - 1) as nat);
            }
        }
    }
}

/// An element that brings text within some depth brings it within every
/// larger one.
pub proof fn lemma_element_text_within_more(
    objects: Map<ObjectId, Value>,
    d: Map<Seq<u8>, Value>,
    depth: nat,
    more: nat,
)
    requires
        depth <= more,
        element_brings_text(objects, d, depth),
    ensures
        element_brings_text(objects, d, more),
{
    if d.contains_key(name("K")) {
        let i = choose|i: int|
            0 <= i < kids_of(d).len() && kid_has_text(objects, #[trigger] kids_of(d)[i], (depth - 1) as nat);
        lemma_text_within_more(objects, kids_of(d)[i], (depth - 1) as nat, (more - 1) as nat);
    }
}

/// The least depth within which an element brings text that brings it
/// within some depth.
pub proof fn lemma_least_depth(objects: Map<ObjectId, Value>, d: Map<Seq<u8>, Value>, depth: nat) -> (least:
    nat)
    requires
        element_brings_text(objects, d, depth),
    ensures
        least <= depth,
        brings_text_at(objects, d, least),
    decreases depth,
{
    if depth > 0 && element_brings_text(objects, d, (depth - 1) as nat) {
        lemma_least_depth(objects, d, (depth - 1) as nat)
    } else {
        depth
    }
}

/// Below an element that brings text within `depth` levels and not within
/// fewer, there are elements that bring it within each smaller number of
/// levels from 1 on, each at a place of its own: the places of a path down to
/// the text.
pub proof fn lemma_path_to_text(
    objects: Map<ObjectId, Value>,
    at: ObjectId,
    d: Map<Seq<u8>, Value>,
    depth: nat,
) -> (places: Seq<ObjectId>)
    requires
        objects.contains_key(at),
        objects[at] == Value::Dictionary(d),
        brings_text_at(objects, d, depth),
    ensures
        places.len() == depth,
        forall|t: int|
            0 <= t < depth ==> objects.contains_key(#[trigger] places[t]) && objects[places[t]] is Dictionary
                && brings_text_at(objects, objects[places[t]]->Dictionary_0, (depth - t) as nat),
    decreases depth,
{
    if depth == 0 {
        Seq::empty()
    } else if depth == 1 {
        seq![at]
    } else {
        let below = (depth - 1) as nat;
        let kids = kids_of(d);
        let i = choose|i: int| 0 <= i < kids.len() && kid_has_text(objects, #[trigger] kids[i], below);
        let kid = kids[i];
        // The child brings text within one level less, and not within two.
        if kid_has_text(objects, kid, (below - 1) as nat) {
            assert(has_text_within(objects, d, (below - 1) as nat));
            assert(element_brings_text(objects, d, below));
        }
        let c = kid->Reference_0;
        let dc = get_dictionary(objects, c)->Ok_0;
        crate::frame::lemma_resolve(objects, c);
        let place = crate::document::resolve_id(objects, c)->Ok_0;
        assert(objects[place] == Value::Dictionary(dc));
        let rest = lemma_path_to_text(objects, place, dc, below);
        let places = seq![at] + rest;
        assert forall|t: int| 0 <= t < depth implies objects.contains_key(#[trigger] places[t])
            && objects[places[t]] is Dictionary && brings_text_at(
            objects,
            objects[places[t]]->Dictionary_0,
            (depth - t) as nat,
        ) by {
            if t > 0 {
                assert(places[t] == rest[t - 1]);
            }
        }
        places
    }
}

/// An element that brings text within any depth brings it within as many
/// levels as the document has objects: the depth to which text is looked for
/// loses nothing.
pub proof fn lemma_depth_is_enough(objects: Map<ObjectId, Value>, kid: Value, depth: nat)
    requires
        objects.dom().finite(),
        kid_has_text(objects, kid, depth),
    ensures
        kid_has_text(objects, kid, objects.dom().len()),
{
    if let Value::Reference(c) = kid {
        let d = get_dictionary(objects, c)->Ok_0;
        crate::frame::lemma_resolve(objects, c);
        let at = crate::document::resolve_id(objects, c)->Ok_0;
        let least = lemma_least_depth(objects, d, depth);
        let places = lemma_path_to_text(objects, at, d, least);
        // The places are different objects of the document.
        assert forall|a: int, b: int| 0 <= a < places.len() && 0 <= b < places.len() && a != b implies places[a]
            != places[b] by {
            if places[a] == places[b] {
                let da = objects[places[a]]->Dictionary_0;
                if a < b {
                    lemma_element_text_within_more(objects, da, (least - b) as nat, (least - a - 1) as nat);
                } else {
                    lemma_element_text_within_more(objects, da, (least - a) as nat, (least - b - 1) as nat);
                }
            }
        }
        places.unique_seq_to_set();
        assert(places.to_set().subset_of(objects.dom())) by {
            assert forall|id: ObjectId| places.to_set().contains(id) implies objects.dom().contains(id) by {
                let t = choose|t: int| 0 <= t < places.len() && places[t] == id;
                assert(objects.contains_key(places[t]));
            }
        }
        vstd::set_lib::lemma_len_subset(places.to_set(), objects.dom());
        lemma_element_text_within_more(objects, d, least, objects.dom().len());
    } else {
    }
}

/// An element holds text if one of its children brings text within any
/// depth.
pub proof fn lemma_has_text(objects: Map<ObjectId, Value>, d: Map<Seq<u8>, Value>, depth: nat)
    requires
        objects.dom().finite(),
    ensures
        has_text_within(objects, d, depth) ==> has_text(objects, d),
{
    if has_text_within(objects, d, depth) {
        let i = choose|i: int|
            0 <= i < kids_of(d).len() && kid_has_text(objects, #[trigger] kids_of(d)[i], depth);
        lemma_depth_is_enough(objects, kids_of(d)[i], depth);
    }
}

} // verus!
