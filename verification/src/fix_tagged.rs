//! Marking a document as tagged.

use crate::bytes::{copy_bytes, name};
use crate::document::{Document, DocumentValue};
use crate::helpers::{find_struct_tree_root, struct_tree_root};
use crate::object::{Dictionary, Object, PdfError, Value};
use vstd::prelude::*;

verus! {

/// A trailer with the mark of a tagged document.
pub open spec fn marked(trailer: Map<Seq<u8>, Value>) -> Map<Seq<u8>, Value> {
    trailer.insert(name("MarkInfo"), crate::assemble::mark_info()).insert(
        name("Marked"),
        Value::Boolean(true),
    )
}

/// The document after it got the mark, where `tagged` holds.
pub open spec fn fix_tagged(doc: DocumentValue, tagged: bool) -> DocumentValue {
    if tagged {
        DocumentValue { trailer: marked(doc.trailer), ..doc }
    } else {
        doc
    }
}

/// Gives the trailer of a document the mark of a tagged document.
pub fn mark(doc: &mut Document)
    ensures
        final(doc)@ == (DocumentValue { trailer: marked(old(doc)@.trailer), ..old(doc)@ }),
{
    let mut info = Dictionary::new();
    info.set(copy_bytes("Marked".as_bytes()), Object::Boolean(true));
    doc.trailer.set(copy_bytes("MarkInfo".as_bytes()), Object::Dictionary(info));
    doc.trailer.set(copy_bytes("Marked".as_bytes()), Object::Boolean(true));
}

/// Gives the trailer of a document the mark of a tagged document, where the
/// catalog refers to a structure tree root.
pub fn fix_tagged_pdf(doc: &mut Document) -> (r: Result<(), PdfError>)
    ensures
        r is Ok,
        final(doc)@ == fix_tagged(old(doc)@, struct_tree_root(old(doc)@) is Some),
{
    if find_struct_tree_root(doc).is_some() {
        mark(doc);
    }
    Ok(())
}

} // verus!
