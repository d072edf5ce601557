//! A document: its trailer and its object table.

use crate::bytes::name;
use crate::object::{dict_get, Dictionary, Object, ObjectId, PdfError, Value};
use crate::table::ObjectTable;
use vstd::prelude::*;

verus! {

/// How many references in a row are followed.
pub const DEREF_LIMIT: usize = 128;

/// A PDF document.
#[derive(Debug)]
pub struct Document {
    /// The version of the PDF specification to which the file conforms.
    pub version: String,
    /// The trailer, which names the catalog under `Root`.
    pub trailer: Dictionary,
    /// The objects of the document.
    pub objects: ObjectTable,
    /// The highest object number that was given out.
    pub max_id: u32,
}

/// What a document is, as a mathematical value.
pub struct DocumentValue {
    pub version: Seq<char>,
    pub trailer: Map<Seq<u8>, Value>,
    pub objects: Map<ObjectId, Value>,
    pub max_id: u32,
}

impl View for Document {
    type V = DocumentValue;

    open spec fn view(&self) -> DocumentValue {
        DocumentValue {
            version: self.version@,
            trailer: self.trailer@,
            objects: self.objects@,
            max_id: self.max_id,
        }
    }
}

/// The error for an id that the document does not have.
pub open spec fn not_found(id: ObjectId) -> PdfError {
    PdfError::ObjectNotFound { number: id.0, generation: id.1 }
}

/// Follows references from an object to one that is no reference. The result
/// holds the id under which the last object stands, where a reference was
/// followed. `steps` counts the references followed so far.
pub open spec fn dereference_from(
    objects: Map<ObjectId, Value>,
    last: Option<ObjectId>,
    v: Value,
    steps: nat,
) -> Result<(Option<ObjectId>, Value), PdfError>
    decreases DEREF_LIMIT + 1 - steps,
{
    match v {
        Value::Reference(id) => {
            if !objects.contains_key(id) {
                Err(not_found(id))
            } else if steps >= DEREF_LIMIT {
                Err(PdfError::ReferenceLimit)
            } else {
                dereference_from(objects, Some(id), objects[id], steps + 1)
            }
        },
        _ => Ok((last, v)),
    }
}

/// Follows references from an object to one that is no reference.
pub open spec fn dereference(objects: Map<ObjectId, Value>, v: Value) -> Result<
    (Option<ObjectId>, Value),
    PdfError,
> {
    dereference_from(objects, None, v, 0)
}

/// The id under which the object stands that is read under the given id:
/// references are followed.
pub open spec fn resolve_id(objects: Map<ObjectId, Value>, id: ObjectId) -> Result<
    ObjectId,
    PdfError,
> {
    if !objects.contains_key(id) {
        Err(not_found(id))
    } else {
        match dereference(objects, objects[id]) {
            Ok((Some(last), _)) => Ok(last),
            Ok((None, _)) => Ok(id),
            Err(e) => Err(e),
        }
    }
}

/// The object that is read under the given id: references are followed.
pub open spec fn get_object(objects: Map<ObjectId, Value>, id: ObjectId) -> Result<Value, PdfError> {
    if !objects.contains_key(id) {
        Err(not_found(id))
    } else {
        match dereference(objects, objects[id]) {
            Ok((_, v)) => Ok(v),
            Err(e) => Err(e),
        }
    }
}

/// The dictionary that is read under the given id.
pub open spec fn get_dictionary(objects: Map<ObjectId, Value>, id: ObjectId) -> Result<
    Map<Seq<u8>, Value>,
    PdfError,
> {
    match get_object(objects, id) {
        Ok(v) => v.as_dict(),
        Err(e) => Err(e),
    }
}

impl DocumentValue {
    /// The object that is read under the given id.
    pub open spec fn get_object(self, id: ObjectId) -> Result<Value, PdfError> {
        get_object(self.objects, id)
    }

    /// The dictionary that is read under the given id.
    pub open spec fn get_dictionary(self, id: ObjectId) -> Result<Map<Seq<u8>, Value>, PdfError> {
        get_dictionary(self.objects, id)
    }

    /// The id of the catalog: what the trailer holds under `Root`.
    pub open spec fn catalog_id(self) -> Result<ObjectId, PdfError> {
        match dict_get(self.trailer, name("Root")) {
            Ok(v) => v.as_reference(),
            Err(e) => Err(e),
        }
    }

    /// The catalog of the document.
    pub open spec fn catalog(self) -> Result<Map<Seq<u8>, Value>, PdfError> {
        match self.catalog_id() {
            Ok(id) => self.get_dictionary(id),
            Err(e) => Err(e),
        }
    }
}

/// The id under which an object was read, and the object.
pub struct Resolved<'a> {
    pub id: ObjectId,
    pub object: &'a Object,
}

impl Document {
    /// A document without objects, of the given version.
    pub fn with_version(version: String) -> (doc: Document)
        ensures
            doc@.version == version@,
            doc@.trailer == Map::<Seq<u8>, Value>::empty(),
            doc@.objects == Map::<ObjectId, Value>::empty(),
            doc@.max_id == 0,
    {
        Document { version, trailer: Dictionary::new(), objects: ObjectTable::new(), max_id: 0 }
    }

    /// The object under the given id, and the id under which it stands:
    /// references are followed.
    pub fn resolve(&self, id: ObjectId) -> (r: Result<Resolved<'_>, PdfError>)
        ensures
            r matches Ok(x) ==> resolve_id(self@.objects, id) == Ok::<ObjectId, PdfError>(x.id)
                && get_object(self@.objects, id) == Ok::<Value, PdfError>(x.object@)
                && self@.objects.contains_key(x.id) && self@.objects[x.id] == x.object@,
            r matches Err(e) ==> resolve_id(self@.objects, id) == Err::<ObjectId, PdfError>(e)
                && get_object(self@.objects, id) == Err::<Value, PdfError>(e),
    {
        let mut cur_id = id;
        let mut cur = match self.objects.get(id) {
            Some(o) => o,
            None => {
                return Err(PdfError::ObjectNotFound { number: id.0, generation: id.1 });
            },
        };
        let mut steps: usize = 0;
        let ghost mut last: Option<ObjectId> = None;
        loop
            invariant
                steps <= DEREF_LIMIT,
                self@.objects.contains_key(id),
                self@.objects.contains_key(cur_id),
                self@.objects[cur_id] == cur@,
                last matches Some(l) ==> l == cur_id,
                last is None ==> cur_id == id,
                dereference(self@.objects, self@.objects[id]) == dereference_from(
                    self@.objects,
                    last,
                    cur@,
                    steps as nat,
                ),
            decreases DEREF_LIMIT - steps,
        {
            match cur {
                Object::Reference(next) => {
                    match self.objects.get(*next) {
                        Some(o) => {
                            if steps >= DEREF_LIMIT {
                                return Err(PdfError::ReferenceLimit);
                            }
                            steps += 1;
                            cur_id = *next;
                            cur = o;
                            proof {
                                last = Some(cur_id);
                            }
                        },
                        None => {
                            return Err(
                                PdfError::ObjectNotFound { number: next.0, generation: next.1 },
                            );
                        },
                    }
                },
                _ => {
                    return Ok(Resolved { id: cur_id, object: cur });
                },
            }
        }
    }

    /// The object that is read under the given id: references are followed.
    pub fn get_object(&self, id: ObjectId) -> (r: Result<&Object, PdfError>)
        ensures
            r matches Ok(o) ==> self@.get_object(id) == Ok::<Value, PdfError>(o@),
            r matches Err(e) ==> self@.get_object(id) == Err::<Value, PdfError>(e),
    {
        match self.resolve(id) {
            Ok(x) => Ok(x.object),
            Err(e) => Err(e),
        }
    }

    /// The dictionary that is read under the given id.
    pub fn get_dictionary(&self, id: ObjectId) -> (r: Result<&Dictionary, PdfError>)
        ensures
            r matches Ok(d) ==> self@.get_dictionary(id) == Ok::<Map<Seq<u8>, Value>, PdfError>(d@),
            r matches Err(e) ==> self@.get_dictionary(id) == Err::<Map<Seq<u8>, Value>, PdfError>(e),
    {
        match self.get_object(id) {
            Ok(o) => o.as_dict(),
            Err(e) => Err(e),
        }
    }

    /// The id of the catalog.
    pub fn catalog_id(&self) -> (r: Result<ObjectId, PdfError>)
        ensures
            r == self@.catalog_id(),
    {
        match self.trailer.get("Root".as_bytes()) {
            Ok(o) => o.as_reference(),
            Err(e) => Err(e),
        }
    }

    /// The catalog of the document.
    pub fn catalog(&self) -> (r: Result<&Dictionary, PdfError>)
        ensures
            r matches Ok(d) ==> self@.catalog() == Ok::<Map<Seq<u8>, Value>, PdfError>(d@),
            r matches Err(e) ==> self@.catalog() == Err::<Map<Seq<u8>, Value>, PdfError>(e),
    {
        match self.catalog_id() {
            Ok(id) => self.get_dictionary(id),
            Err(e) => Err(e),
        }
    }

    /// Puts an object under an id, in place of the one that was there.
    pub fn set_object(&mut self, id: ObjectId, object: Object)
        ensures
            final(self)@ == (DocumentValue {
                objects: old(self)@.objects.insert(id, object@),
                ..old(self)@
            }),
    {
        self.objects.insert(id, object);
    }

    /// Adds an object under the next object number, and returns its id.
    pub fn add_object(&mut self, object: Object) -> (id: ObjectId)
        requires
            old(self).max_id < u32::MAX,
        ensures
            id.0 == old(self).max_id + 1,
            id.1 == 0,
            final(self)@ == (DocumentValue {
                objects: old(self)@.objects.insert(id, object@),
                max_id: id.0,
                ..old(self)@
            }),
    {
        self.max_id = self.max_id + 1;
        let id = (self.max_id, 0u16);
        self.objects.insert(id, object);
        id
    }
}

} // verus!
