//! A whole run of the merger: what holds after any number of documents were
//! taken in, one after the other.

use crate::assemble::{
    assemble, count_value, document_element_id, parent_tree_id, references_to, struct_tree_root_id,
};
use crate::bytes::name;
use crate::document::{get_object, DocumentValue};
use crate::extract::offset_increment;
use crate::merge::{is_first_of_type, MergerValue};
use crate::object::{dict_get, ObjectId, PdfError, Value};
use crate::wiring::{
    lemma_assembled_ids, lemma_roots_of_assembled, linked_page_ids, numbers_given_out,
};
use crate::outline::{follows_levels, lemma_absorb_follows_levels, lemma_start_follows_levels};
use crate::pages::{
    keys_differ, keys_within, lemma_absorb_adds_pages, lemma_absorb_keeps_keys_apart,
    lemma_absorb_keeps_objects, lemma_absorb_keeps_page_order, numbered_below, numbered_within,
    page_key, pages_stand,
};
use crate::table::{ids_rise, lists_keys};
use vstd::prelude::*;

verus! {

/// A document that is taken in, with its pages in their order and the title
/// and the level of its entry in the table of contents.
pub struct Input {
    pub doc: DocumentValue,
    pub pages: Seq<ObjectId>,
    pub title: Seq<char>,
    pub level: u8,
}

/// The merger after the given documents were taken in, in order.
pub open spec fn taken_in(inputs: Seq<Input>) -> MergerValue
    decreases inputs.len(),
{
    if inputs.len() == 0 {
        MergerValue::start()
    } else {
        taken_in(inputs.drop_last()).absorb(
            inputs.last().doc,
            inputs.last().pages,
            inputs.last().title,
            inputs.last().level,
        )
    }
}

/// The pages of the given documents, in the order of the documents.
pub open spec fn all_pages(inputs: Seq<Input>) -> Seq<ObjectId>
    decreases inputs.len(),
{
    if inputs.len() == 0 {
        Seq::empty()
    } else {
        all_pages(inputs.drop_last()) + inputs.last().pages
    }
}

/// Whether a document is numbered for a merger: it can be taken in, its
/// objects have object numbers from the one that the merger asks for up to
/// the highest that the document gave out, and its pages are read in it and
/// come in the order of their ids.
pub open spec fn numbered_for(st: MergerValue, input: Input) -> bool {
    &&& st.absorb_error(input.doc, input.pages) is None
    &&& numbered_within(input.doc.objects, st.max_id, input.doc.max_id)
    &&& st.max_id <= input.doc.max_id + 1
    &&& ids_rise(input.pages)
    &&& forall|i: int|
        0 <= i < input.pages.len() ==> st.max_id <= (#[trigger] input.pages[i]).0 <= input.doc.max_id
    &&& forall|i: int|
        0 <= i < input.pages.len() ==> get_object(input.doc.objects, #[trigger] input.pages[i]) is Ok
}

/// Whether each of the documents is numbered for the merger that has taken
/// in those before it.
pub open spec fn numbered_in_turn(inputs: Seq<Input>) -> bool {
    forall|k: int| 0 <= k < inputs.len() ==> numbered_for(taken_in(inputs.take(k)), #[trigger] inputs[k])
}

/// Where each of the documents is numbered for the merger that has taken in
/// those before it, so is each but the last, and the last is numbered for
/// the merger that has taken in the others.
pub proof fn lemma_numbered_before(inputs: Seq<Input>)
    requires
        inputs.len() > 0,
        numbered_in_turn(inputs),
    ensures
        numbered_in_turn(inputs.drop_last()),
        numbered_for(taken_in(inputs.drop_last()), inputs.last()),
{
    let rest = inputs.drop_last();
    assert forall|k: int| 0 <= k < rest.len() implies numbered_for(
        taken_in(rest.take(k)),
        #[trigger] rest[k],
    ) by {
        assert(rest.take(k) =~= inputs.take(k));
        assert(rest[k] == inputs[k]);
    }
    assert(inputs.take(inputs.len() - 1) =~= rest);
    assert(inputs[inputs.len() - 1] == inputs.last());
}

/// After any run in which each document is numbered for the merger that
/// takes it in: no object took the place of another, all object numbers lie
/// below the one that the merger asks for next, and the pages are the pages
/// of the documents, each once, in the order of the table of contents. So
/// the merged document has as many pages as the documents together.
pub proof fn lemma_run_keeps_pages(inputs: Seq<Input>)
    requires
        numbered_in_turn(inputs),
    ensures
        numbered_below(taken_in(inputs).objects, taken_in(inputs).max_id),
        numbered_below(taken_in(inputs).pages, taken_in(inputs).max_id),
        lists_keys(all_pages(inputs), taken_in(inputs).pages),
        taken_in(inputs).pages.dom().finite(),
        taken_in(inputs).pages.dom().len() == all_pages(inputs).len(),
    decreases inputs.len(),
{
    if inputs.len() == 0 {
    } else {
        let rest = inputs.drop_last();
        let last = inputs.last();
        lemma_numbered_before(inputs);
        lemma_run_keeps_pages(rest);
        let st = taken_in(rest);
        lemma_absorb_keeps_objects(st, last.doc, last.pages, last.title, last.level);
        lemma_absorb_keeps_page_order(st, last.doc, last.pages, last.title, last.level, all_pages(rest));
        lemma_absorb_adds_pages(st, last.doc, last.pages, last.title, last.level, all_pages(rest));
    }
}

/// After any run in which each document is numbered for the merger that
/// takes it in, the page tree of the merged document, which lists the pages
/// in the order of their ids, lists them in the order of the table of
/// contents.
pub proof fn lemma_run_lists_pages_in_order(inputs: Seq<Input>, page_ids: Seq<ObjectId>)
    requires
        numbered_in_turn(inputs),
        lists_keys(page_ids, taken_in(inputs).pages),
    ensures
        page_ids == all_pages(inputs),
{
    lemma_run_keeps_pages(inputs);
    crate::table::lemma_lists_keys_unique(page_ids, all_pages(inputs), taken_in(inputs).pages);
}

/// After any run in which each document is numbered for the merger that
/// takes it in, the merged document that is assembled from what was taken in
/// holds under its page tree root the pages of the documents, each once, in
/// the order of the table of contents, and counts as many pages as the
/// documents have together. The catalog, the page tree root and the list of
/// the pages are those that finishing the merger gives.
pub proof fn lemma_run_merges_pages(
    inputs: Seq<Input>,
    catalog_id: ObjectId,
    pages_id: ObjectId,
    page_ids: Seq<ObjectId>,
)
    requires
        numbered_in_turn(inputs),
        taken_in(inputs).finish_error() is None,
        is_first_of_type(taken_in(inputs).objects, name("Catalog"), catalog_id),
        is_first_of_type(taken_in(inputs).objects, name("Pages"), pages_id),
        taken_in(inputs).objects[catalog_id] is Dictionary,
        taken_in(inputs).objects[pages_id] is Dictionary,
        lists_keys(page_ids, taken_in(inputs).pages),
    ensures
        ({
            let st = taken_in(inputs);
            let out = assemble(st.skeleton(catalog_id, pages_id), st.parts(catalog_id, pages_id, page_ids));
            &&& out.objects.contains_key(pages_id)
            &&& out.objects[pages_id] matches Value::Dictionary(tree) && dict_get(tree, name("Kids")) == Ok::<
                Value,
                PdfError,
            >(Value::Array(references_to(all_pages(inputs)))) && dict_get(tree, name("Count")) == Ok::<
                Value,
                PdfError,
            >(Value::Integer(count_value(all_pages(inputs).len())))
        }),
{
    let st = taken_in(inputs);
    lemma_run_keeps_pages(inputs);
    lemma_run_lists_pages_in_order(inputs, page_ids);
    let doc = st.skeleton(catalog_id, pages_id);
    let parts = st.parts(catalog_id, pages_id, page_ids);
    assert(name("Catalog") != name("Pages")) by {
        reveal_strlit("Catalog");
        reveal_strlit("Pages");
        crate::bytes::lemma_name_bytes("Catalog");
        crate::bytes::lemma_name_bytes("Pages");
        assert(name("Catalog")[0] == "Catalog"@[0] as u8);
        assert(name("Pages")[0] == "Pages"@[0] as u8);
        assert("Catalog"@[0] == 'C' && "Pages"@[0] == 'P');
    }
    assert(numbers_given_out(doc, parts));
    assert(doc.objects.contains_key(catalog_id));
    assert(doc.objects.contains_key(pages_id));
    lemma_roots_of_assembled(doc, parts);
}

/// After any run in which each document is numbered for the merger that
/// takes it in, assembling the merged document puts no object in the place
/// of another: the three objects that it adds stand under ids that no object
/// taken in has, and the ids of the merged document are those of the
/// skeleton, those of the pages that are dictionaries, and these three.
pub proof fn lemma_run_keeps_ids(inputs: Seq<Input>, catalog_id: ObjectId, pages_id: ObjectId, page_ids: Seq<ObjectId>)
    requires
        numbered_in_turn(inputs),
        taken_in(inputs).max_id <= u32::MAX - 3,
    ensures
        ({
            let st = taken_in(inputs);
            let doc = st.skeleton(catalog_id, pages_id);
            let out = assemble(doc, st.parts(catalog_id, pages_id, page_ids));
            &&& !st.objects.contains_key(parent_tree_id(st.max_id))
            &&& !st.objects.contains_key(document_element_id(st.max_id))
            &&& !st.objects.contains_key(struct_tree_root_id(st.max_id))
            &&& out.objects.dom() =~= doc.objects.dom().union(linked_page_ids(st.pages)).insert(
                parent_tree_id(st.max_id),
            ).insert(document_element_id(st.max_id)).insert(struct_tree_root_id(st.max_id))
        }),
{
    let st = taken_in(inputs);
    lemma_run_keeps_pages(inputs);
    let doc = st.skeleton(catalog_id, pages_id);
    let parts = st.parts(catalog_id, pages_id, page_ids);
    assert(numbers_given_out(doc, parts));
    lemma_assembled_ids(doc, parts);
}

/// After any run the bookmarks hang together as their levels say, and there
/// is one bookmark for each document that has pages, with its title and
/// level, which leads to its first page.
pub proof fn lemma_run_follows_levels(inputs: Seq<Input>)
    requires
        inputs.len() < usize::MAX,
    ensures
        follows_levels(taken_in(inputs)),
        taken_in(inputs).bookmarks.len() <= inputs.len(),
    decreases inputs.len(),
{
    if inputs.len() == 0 {
        lemma_start_follows_levels();
    } else {
        let rest = inputs.drop_last();
        let last = inputs.last();
        lemma_run_follows_levels(rest);
        lemma_absorb_follows_levels(taken_in(rest), last.doc, last.pages, last.title, last.level);
    }
}

/// Whether the pages of a document have keys into the parent tree that are
/// fit for a merger: the pages stand under their ids, which the merger has
/// not met, and their keys differ and lie from 0 to below the amount by
/// which the next free key is raised.
pub open spec fn keyed_for(st: MergerValue, input: Input) -> bool {
    &&& st.absorb_error(input.doc, input.pages) is None
    &&& pages_stand(input.doc.objects, input.pages)
    &&& forall|i: int| 0 <= i < input.pages.len() ==> !st.pages.contains_key(#[trigger] input.pages[i])
    &&& forall|i: int, j: int|
        0 <= i < input.pages.len() && 0 <= j < input.pages.len() && i != j && page_key(
            input.doc.objects[#[trigger] input.pages[i]],
        ) is Some ==> page_key(input.doc.objects[input.pages[i]]) != page_key(
            input.doc.objects[#[trigger] input.pages[j]],
        )
    &&& forall|i: int|
        0 <= i < input.pages.len() ==> (page_key(
            input.doc.objects[#[trigger] input.pages[i]],
        ) matches Some(k) ==> 0 <= k < offset_increment(input.doc, input.pages.len()))
}

/// Whether each of the documents is keyed for the merger that has taken in
/// those before it.
pub open spec fn keyed_in_turn(inputs: Seq<Input>) -> bool {
    forall|k: int| 0 <= k < inputs.len() ==> keyed_for(taken_in(inputs.take(k)), #[trigger] inputs[k])
}

/// After any run in which each document is keyed for the merger that takes
/// it in, no two pages have the same key into the parent tree, and every key
/// lies below the next free key.
pub proof fn lemma_run_keeps_keys_apart(inputs: Seq<Input>)
    requires
        keyed_in_turn(inputs),
    ensures
        keys_differ(taken_in(inputs).pages),
        keys_within(taken_in(inputs).pages, i64::MIN as int, taken_in(inputs).offset as int),
    decreases inputs.len(),
{
    if inputs.len() > 0 {
        let rest = inputs.drop_last();
        let last = inputs.last();
        assert forall|k: int| 0 <= k < rest.len() implies keyed_for(taken_in(rest.take(k)), #[trigger] rest[k]) by {
            assert(rest.take(k) =~= inputs.take(k));
            assert(rest[k] == inputs[k]);
        }
        assert(inputs.take(inputs.len() - 1) =~= rest);
        assert(keyed_for(taken_in(inputs.take(inputs.len() - 1)), inputs[inputs.len() - 1]));
        lemma_run_keeps_keys_apart(rest);
        lemma_absorb_keeps_keys_apart(taken_in(rest), last.doc, last.pages, last.title, last.level);
    }
}

} // verus!
