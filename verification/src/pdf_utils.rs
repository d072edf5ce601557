//! Marking a document as tagged by the key in its catalog.

use crate::bytes::name;
use crate::document::{Document, DocumentValue};
use crate::fix_tagged::{fix_tagged, mark};
use crate::object::PdfError;
use vstd::prelude::*;

verus! {

/// Whether the catalog of a document has the key `StructTreeRoot`.
pub open spec fn names_struct_tree(doc: DocumentValue) -> bool {
    match doc.catalog() {
        Ok(cat) => cat.contains_key(name("StructTreeRoot")),
        Err(_) => false,
    }
}

/// Gives the trailer of a document the mark of a tagged document, where the
/// catalog has the key `StructTreeRoot`, whatever stands under it.
pub fn fix_tagged_pdf(doc: &mut Document) -> (r: Result<(), PdfError>)
    ensures
        r is Ok,
        final(doc)@ == fix_tagged(old(doc)@, names_struct_tree(old(doc)@)),
{
    let has = match doc.catalog() {
        Ok(cat) => cat.has("StructTreeRoot".as_bytes()),
        Err(_) => false,
    };
    if has {
        mark(doc);
    }
    Ok(())
}

} // verus!
