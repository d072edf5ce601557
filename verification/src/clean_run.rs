//! A run of the merger on documents in which the sanitizer has nothing to
//! do gives a document in which it has nothing to do.

use crate::assemble::{assemble, with_pages};
use crate::bytes::name;
use crate::clean::{clean, clean_node, nothing_to_dissolve};
use crate::document::DocumentValue;
use crate::extract::{root_kids_of, shift_pages, struct_root_dict};
use crate::frame::lemma_resolve;
use crate::helpers::{is_nonstruct_node, kids_of};
use crate::merge::{declared, is_first_of_type, MergerValue, trailer_value};
use crate::merged::{
    agree_below, holds_structure, lead_into, lemma_clean_below, lemma_merged_is_clean,
    same_element, structure_is_clean,
};
use crate::object::{ObjectId, Value};
use crate::pages::{
    lemma_absorb_keeps_objects, lemma_collect_pages, lemma_shift_pages_frame,
    lemma_shift_standing_pages, pages_stand,
};
use crate::run::{
    Input, lemma_numbered_before, lemma_run_keeps_pages, numbered_for, numbered_in_turn, taken_in,
};
use crate::sanitize::sanitize;
use crate::wiring::numbers_given_out;
use vstd::prelude::*;

verus! {

/// The top-level structure of a document: what it gives to the merged
/// `Document` element.
pub open spec fn top_kids(doc: DocumentValue) -> Seq<Value> {
    match struct_root_dict(doc) {
        Some(root) => root_kids_of(doc.objects, root),
        None => Seq::empty(),
    }
}

/// Whether an object names none of the types that the merger builds anew
/// or keeps only once.
pub open spec fn kept_type(v: Value) -> bool {
    let t = declared(v);
    t != name("Catalog") && t != name("Pages") && t != name("Page") && t != name("Outlines") && t != name(
        "Outline",
    ) && t != name("StructTreeRoot")
}

/// Whether the structure of a document gives the sanitizer nothing to do:
/// the pages of the document stand under their ids, the elements under the
/// ids of `below` are dictionaries whose children refer only to ids of
/// `below`, none of them is a page or names a type that the merger does not
/// keep, at none of them is anything to do, and the top-level children lead
/// into `below` and to no `NonStruct` element.
pub open spec fn input_is_clean(input: Input, below: Set<ObjectId>) -> bool {
    let objects = input.doc.objects;
    &&& objects.dom().finite()
    &&& pages_stand(objects, input.pages)
    &&& holds_structure(objects, below)
    &&& forall|n: ObjectId| #[trigger]
        below.contains(n) ==> clean_node(objects, n) && kept_type(objects[n]) && !input.pages.contains(n)
    &&& lead_into(top_kids(input.doc), below)
    &&& nothing_to_dissolve(objects, top_kids(input.doc))
}

/// The ids of all the given sets.
pub open spec fn all_below(belows: Seq<Set<ObjectId>>) -> Set<ObjectId> {
    Set::new(|n: ObjectId| exists|k: int| 0 <= k < belows.len() && (#[trigger] belows[k]).contains(n))
}

/// Whether the elements under the ids of `below` stand among the objects of
/// the merger as they stood in the document, and none of them among its
/// pages.
pub open spec fn stands_as_taken(st: MergerValue, input: Input, below: Set<ObjectId>) -> bool {
    forall|n: ObjectId| #[trigger]
        below.contains(n) ==> st.objects.contains_key(n) && st.objects[n] == input.doc.objects[n]
            && !st.pages.contains_key(n)
}

/// Whether a top-level child, if it is a reference, leads to an element of
/// one of the documents that is no `NonStruct` element.
pub open spec fn top_kid_fits(inputs: Seq<Input>, belows: Seq<Set<ObjectId>>, kid: Value) -> bool {
    kid matches Value::Reference(c) ==> exists|k: int|
        0 <= k < inputs.len() && (#[trigger] belows[k]).contains(c) && !is_nonstruct_node(
            inputs[k].doc.objects,
            c,
        )
}

/// What holds of the merger after it took in documents whose structure
/// gives the sanitizer nothing to do.
pub open spec fn holds_clean_structure(inputs: Seq<Input>, belows: Seq<Set<ObjectId>>) -> bool {
    let st = taken_in(inputs);
    &&& st.objects.dom().finite()
    &&& forall|k: int| 0 <= k < inputs.len() ==> stands_as_taken(st, #[trigger] inputs[k], belows[k])
    &&& forall|t: int| 0 <= t < st.kids.len() ==> top_kid_fits(inputs, belows, #[trigger] st.kids[t])
}

/// Whether each of the documents has a structure that gives the sanitizer
/// nothing to do, with the elements under the ids of the set at its place.
pub open spec fn inputs_are_clean(inputs: Seq<Input>, belows: Seq<Set<ObjectId>>) -> bool {
    &&& belows.len() == inputs.len()
    &&& forall|k: int| 0 <= k < inputs.len() ==> input_is_clean(#[trigger] inputs[k], belows[k])
}

/// After any run in which each document is numbered for the merger that
/// takes it in, and has a structure that gives the sanitizer nothing to do,
/// the elements of all documents stand among the objects of the merger as
/// they stood in their documents, and the top-level children lead to them.
pub proof fn lemma_run_holds_clean_structure(inputs: Seq<Input>, belows: Seq<Set<ObjectId>>)
    requires
        numbered_in_turn(inputs),
        inputs_are_clean(inputs, belows),
    ensures
        holds_clean_structure(inputs, belows),
    decreases inputs.len(),
{
    if inputs.len() == 0 {
        assert(taken_in(inputs).objects.dom() =~= Set::<ObjectId>::empty());
    } else {
        let rest = inputs.drop_last();
        let brest = belows.drop_last();
        let last = inputs.last();
        let below = belows.last();
        let m = inputs.len() - 1;
        lemma_numbered_before(inputs);
        assert(inputs_are_clean(rest, brest)) by {
            assert forall|k: int| 0 <= k < rest.len() implies input_is_clean(#[trigger] rest[k], brest[k]) by {
                assert(rest[k] == inputs[k] && brest[k] == belows[k]);
                assert(input_is_clean(inputs[k], belows[k]));
            }
        }
        lemma_run_holds_clean_structure(rest, brest);
        lemma_run_keeps_pages(rest);
        let st = taken_in(rest);
        let after = taken_in(inputs);
        assert(after == st.absorb(last.doc, last.pages, last.title, last.level));
        assert(numbered_for(st, last));
        assert(input_is_clean(inputs[m], belows[m]));
        assert(inputs[m] == last && belows[m] == below);
        let objects = last.doc.objects;
        let shifted = shift_pages(objects, last.pages, st.offset);
        lemma_absorb_keeps_objects(st, last.doc, last.pages, last.title, last.level);
        lemma_shift_pages_frame(objects, last.pages, st.offset, (0u32, 0u16));
        assert(after.objects.dom() =~= st.objects.dom().union(shifted.dom()));
        // The elements of the documents taken in before stay.
        assert forall|k: int| 0 <= k < inputs.len() implies stands_as_taken(
            after,
            #[trigger] inputs[k],
            belows[k],
        ) by {
            assert forall|n: ObjectId| #[trigger] belows[k].contains(n) implies after.objects.contains_key(n)
                && after.objects[n] == inputs[k].doc.objects[n] && !after.pages.contains_key(n) by {
                lemma_collect_pages(st.pages, shifted, last.pages, n);
                if k < m {
                    assert(rest[k] == inputs[k] && brest[k] == belows[k]);
                    assert(stands_as_taken(st, rest[k], brest[k]));
                    assert(brest[k].contains(n));
                    assert(st.objects.contains_key(n));
                    if last.pages.contains(n) {
                        let i = choose|i: int| 0 <= i < last.pages.len() && last.pages[i] == n;
                        assert(st.max_id <= last.pages[i].0);
                    }
                } else {
                    assert(below.contains(n));
                    assert(objects.contains_key(n));
                    lemma_shift_standing_pages(objects, last.pages, st.offset, n);
                    assert(shifted.contains_key(n));
                    assert(!st.pages.contains_key(n));
                }
            }
        }
        // The top-level children lead to elements of their documents.
        let top = top_kids(last.doc);
        assert(after.kids == st.kids + top);
        assert forall|t: int| 0 <= t < after.kids.len() implies top_kid_fits(
            inputs,
            belows,
            #[trigger] after.kids[t],
        ) by {
            if let Value::Reference(c) = after.kids[t] {
                if t < st.kids.len() {
                    assert(after.kids[t] == st.kids[t]);
                    assert(top_kid_fits(rest, brest, st.kids[t]));
                    let k = choose|k: int|
                        0 <= k < rest.len() && (#[trigger] brest[k]).contains(c) && !is_nonstruct_node(
                            rest[k].doc.objects,
                            c,
                        );
                    assert(rest[k] == inputs[k] && brest[k] == belows[k]);
                    assert(belows[k].contains(c));
                } else {
                    assert(after.kids[t] == top[t - st.kids.len()]);
                    assert(belows[m].contains(c));
                }
            }
        }
    }
}

/// Among the objects and the pages of a merger that took in documents
/// whose structure gives the sanitizer nothing to do, the structure gives it
/// nothing to do.
pub proof fn lemma_taken_structure_is_clean(
    inputs: Seq<Input>,
    belows: Seq<Set<ObjectId>>,
    catalog_id: ObjectId,
    pages_id: ObjectId,
    page_ids: Seq<ObjectId>,
)
    requires
        inputs_are_clean(inputs, belows),
        holds_clean_structure(inputs, belows),
        taken_in(inputs).pages.dom().finite(),
    ensures
        structure_is_clean(
            taken_in(inputs).skeleton(catalog_id, pages_id),
            taken_in(inputs).parts(catalog_id, pages_id, page_ids),
            all_below(belows),
        ),
{
    let st = taken_in(inputs);
    let doc = st.skeleton(catalog_id, pages_id);
    let parts = st.parts(catalog_id, pages_id, page_ids);
    let base = with_pages(doc.objects, parts.pages, parts.pages_id);
    let below = all_below(belows);
    // Every element stands among the objects as it stood in its document.
    assert forall|k: int, n: ObjectId| 0 <= k < inputs.len() && (#[trigger] belows[k]).contains(n) implies #[trigger] base.contains_key(n)
        && base[n] == inputs[k].doc.objects[n] by {
        assert(stands_as_taken(st, inputs[k], belows[k]));
        assert(input_is_clean(inputs[k], belows[k]));
        assert(belows[k].contains(n));
    }
    assert forall|k: int| 0 <= k < inputs.len() implies agree_below(
        inputs[k].doc.objects,
        base,
        #[trigger] belows[k],
    ) by {
        assert(input_is_clean(inputs[k], belows[k]));
        let objects = inputs[k].doc.objects;
        assert forall|n: ObjectId| #[trigger] belows[k].contains(n) implies base.contains_key(n) && same_element(
            objects[n],
            base[n],
        ) by {
            assert(base.contains_key(n) && base[n] == objects[n]);
            assert(objects[n] is Dictionary);
        }
    }
    assert(holds_structure(base, below)) by {
        assert forall|n: ObjectId| #[trigger] below.contains(n) implies base.contains_key(n) && base[n] is Dictionary
            && forall|t: int|
            0 <= t < kids_of(base[n]->Dictionary_0).len() ==> ((
            #[trigger] kids_of(base[n]->Dictionary_0)[t]) matches Value::Reference(c)
                ==> below.contains(c)) by {
            let k = choose|k: int| 0 <= k < belows.len() && (#[trigger] belows[k]).contains(n);
            assert(input_is_clean(inputs[k], belows[k]));
            assert(base.contains_key(n) && base[n] == inputs[k].doc.objects[n]);
            assert(belows[k].contains(n));
            let kids = kids_of(base[n]->Dictionary_0);
            assert forall|t: int| 0 <= t < kids.len() implies ((#[trigger] kids[t]) matches Value::Reference(c)
                ==> below.contains(c)) by {
                if let Value::Reference(c) = kids[t] {
                    assert(belows[k].contains(c));
                }
            }
        }
    }
    assert forall|n: ObjectId| #[trigger] below.contains(n) implies clean_node(base, n) by {
        let k = choose|k: int| 0 <= k < belows.len() && (#[trigger] belows[k]).contains(n);
        assert(input_is_clean(inputs[k], belows[k]));
        assert(belows[k].contains(n));
        assert(agree_below(inputs[k].doc.objects, base, belows[k]));
        lemma_clean_below(inputs[k].doc.objects, base, belows[k], n);
    }
    assert(lead_into(parts.kids, below) && nothing_to_dissolve(base, parts.kids)) by {
        assert forall|t: int| 0 <= t < parts.kids.len() implies ((
        #[trigger] parts.kids[t]) matches Value::Reference(c) ==> below.contains(c) && !is_nonstruct_node(
            base,
            c,
        )) by {
            assert(top_kid_fits(inputs, belows, st.kids[t]));
            if let Value::Reference(c) = parts.kids[t] {
                let k = choose|k: int|
                    0 <= k < inputs.len() && (#[trigger] belows[k]).contains(c) && !is_nonstruct_node(
                        inputs[k].doc.objects,
                        c,
                    );
                assert(input_is_clean(inputs[k], belows[k]));
                assert(belows[k].contains(c));
                assert(base.contains_key(c) && base[c] == inputs[k].doc.objects[c]);
                lemma_resolve(base, c);
                lemma_resolve(inputs[k].doc.objects, c);
            }
        }
    }
    assert(base.dom().finite()) by {
        assert(base.dom().subset_of(st.objects.dom().union(st.pages.dom())));
        vstd::set_lib::lemma_set_subset_finite(st.objects.dom().union(st.pages.dom()), base.dom());
    }
}

/// Sanitizing the merged document changes nothing, where each document
/// that went into it is numbered for the merger that takes it in and has a
/// structure that gives the sanitizer nothing to do. `catalog_id`,
/// `pages_id` and `page_ids` are what finishing the merger chose, and
/// `merged` is the document that it gave: the assembled objects under the
/// trailer that names the catalog.
pub proof fn lemma_run_is_clean(
    inputs: Seq<Input>,
    belows: Seq<Set<ObjectId>>,
    catalog_id: ObjectId,
    pages_id: ObjectId,
    page_ids: Seq<ObjectId>,
    merged: DocumentValue,
)
    requires
        numbered_in_turn(inputs),
        inputs_are_clean(inputs, belows),
        taken_in(inputs).finish_error() is None,
        is_first_of_type(taken_in(inputs).objects, name("Catalog"), catalog_id),
        is_first_of_type(taken_in(inputs).objects, name("Pages"), pages_id),
        taken_in(inputs).objects[catalog_id] is Dictionary,
        taken_in(inputs).objects[pages_id] is Dictionary,
        merged.objects == assemble(
            taken_in(inputs).skeleton(catalog_id, pages_id),
            taken_in(inputs).parts(catalog_id, pages_id, page_ids),
        ).objects,
        merged.trailer == trailer_value(catalog_id, merged.objects.dom().len()),
    ensures
        clean(merged),
        sanitize(merged) == merged,
{
    let st = taken_in(inputs);
    lemma_run_keeps_pages(inputs);
    lemma_run_holds_clean_structure(inputs, belows);
    lemma_taken_structure_is_clean(inputs, belows, catalog_id, pages_id, page_ids);
    assert(numbers_given_out(st.skeleton(catalog_id, pages_id), st.parts(catalog_id, pages_id, page_ids)));
    lemma_merged_is_clean(st, catalog_id, pages_id, page_ids, all_below(belows), merged);
}

} // verus!
