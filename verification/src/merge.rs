//! The merger: documents are taken in one after the other, in the order of
//! the table of contents, and at the end the merged document is assembled.

use crate::assemble::{assemble, assemble_merged_document, Parts};
use crate::bytes::{copy_bytes, name};

use crate::document::{get_object, Document, DocumentValue};
use crate::extract::{
    extract, offset_increment, read_structure, shift_fits, shift_pages, shift_struct_parents,
    sum_fits, sum_in_range,
};
use crate::object::{array_value, Dictionary, Object, ObjectId, Value};
use crate::table::{id_lt, lists_keys, ObjectTable};
use vstd::prelude::*;
use vstd::string::*;

verus! {

/// How many levels a table of contents can have.
pub const LEVELS: usize = 256;

/// Why a document could not be taken in, or the merged document not be
/// assembled.
#[derive(Clone, Copy, Debug, PartialEq, Eq, Structural)]
pub enum MergeError {
    /// No object number is left.
    ObjectIdOverflow,
    /// The pages cannot be counted any more.
    TooManyPages,
    /// A key into the parent tree would leave the range of the integers.
    KeysOutOfRange,
    /// None of the documents has a catalog, or the first catalog is no
    /// dictionary.
    CatalogNotFound,
    /// None of the documents has a page tree root, or the first page tree
    /// root is no dictionary.
    PagesNotFound,
}

/// A bookmark of the outline.
#[derive(Debug)]
pub struct Bookmark {
    /// The title.
    pub title: String,
    /// The level in the table of contents; 0 is the top.
    pub level: u8,
    /// The place of the parent among the bookmarks, or none at the top.
    pub parent: Option<usize>,
    /// The page it leads to.
    pub page: ObjectId,
    /// How many pages come before that page.
    pub page_index: u32,
}

/// A bookmark as a mathematical value.
pub struct BookmarkValue {
    pub title: Seq<char>,
    pub level: u8,
    pub parent: Option<usize>,
    pub page: ObjectId,
    pub page_index: u32,
}

impl View for Bookmark {
    type V = BookmarkValue;

    open spec fn view(&self) -> BookmarkValue {
        BookmarkValue {
            title: self.title@,
            level: self.level,
            parent: self.parent,
            page: self.page,
            page_index: self.page_index,
        }
    }
}

/// The values of a list of bookmarks.
pub open spec fn bookmark_values(s: Seq<Bookmark>) -> Seq<BookmarkValue> {
    Seq::new(s.len(), |i: int| s[i]@)
}

/// The memory of the last bookmark at each level, with nothing in it.
pub open spec fn cleared() -> Seq<Option<usize>> {
    Seq::new(LEVELS as nat, |i: int| None)
}

/// The parent of a new bookmark: none at the top, else the last bookmark
/// that was recorded one level up.
pub open spec fn parent_for(recorded: Seq<Option<usize>>, level: u8) -> Option<usize> {
    if level == 0 {
        None
    } else {
        recorded[level - 1]
    }
}

/// The memory after a new bookmark was recorded at its level: a bookmark at
/// the top clears the memory first.
pub open spec fn record(recorded: Seq<Option<usize>>, level: u8, index: usize) -> Seq<Option<usize>> {
    (if level == 0 {
        cleared()
    } else {
        recorded
    }).update(level as int, Some(index))
}

/// The pages that are read in the document, by their ids, added to those
/// that were collected before.
pub open spec fn collect_pages(
    collected: Map<ObjectId, Value>,
    objects: Map<ObjectId, Value>,
    pages: Seq<ObjectId>,
) -> Map<ObjectId, Value>
    decreases pages.len(),
{
    if pages.len() == 0 {
        collected
    } else {
        let before = collect_pages(collected, objects, pages.drop_last());
        match get_object(objects, pages.last()) {
            Ok(v) => before.insert(pages.last(), v),
            Err(_) => before,
        }
    }
}

/// What the merger holds, as a mathematical value.
pub struct MergerValue {
    /// The object number from which the next document's objects are to be
    /// numbered.
    pub max_id: u32,
    /// How many pages were taken in.
    pub pages_before: u32,
    /// The pages of the documents taken in.
    pub pages: Map<ObjectId, Value>,
    /// The objects of the documents taken in.
    pub objects: Map<ObjectId, Value>,
    /// The bookmarks, in the order of the documents.
    pub bookmarks: Seq<BookmarkValue>,
    /// The last bookmark at each level.
    pub recorded: Seq<Option<usize>>,
    /// The entries of the merged parent tree.
    pub nums: Seq<Value>,
    /// The top-level structure of the documents, in their order.
    pub kids: Seq<Value>,
    /// The merged role map.
    pub role_map: Map<Seq<u8>, Value>,
    /// The next free key of the merged parent tree.
    pub offset: i64,
}

impl MergerValue {
    /// The merger before any document was taken in.
    pub open spec fn start() -> MergerValue {
        MergerValue {
            max_id: 1,
            pages_before: 0,
            pages: Map::empty(),
            objects: Map::empty(),
            bookmarks: Seq::empty(),
            recorded: cleared(),
            nums: Seq::empty(),
            kids: Seq::empty(),
            role_map: Map::empty(),
            offset: 0,
        }
    }

    /// Why the document cannot be taken in, if it cannot.
    pub open spec fn absorb_error(self, doc: DocumentValue, pages: Seq<ObjectId>) -> Option<MergeError> {
        if doc.max_id == u32::MAX {
            Some(MergeError::ObjectIdOverflow)
        } else if self.pages_before + pages.len() >= u32::MAX {
            Some(MergeError::TooManyPages)
        } else if !shift_fits(doc, pages, self.offset) || !sum_fits(
            self.offset,
            offset_increment(doc, pages.len()) as i64,
        ) {
            Some(MergeError::KeysOutOfRange)
        } else {
            None
        }
    }

    /// The merger after a document was taken in, whose pages are `pages`.
    pub open spec fn absorb(self, doc: DocumentValue, pages: Seq<ObjectId>, title: Seq<char>, level: u8) -> MergerValue {
        let data = extract(doc, pages, self.offset);
        let shifted = shift_pages(doc.objects, pages, self.offset);
        MergerValue {
            max_id: (doc.max_id + 1) as u32,
            pages_before: (self.pages_before + pages.len()) as u32,
            pages: collect_pages(self.pages, shifted, pages),
            objects: self.objects.union_prefer_right(shifted),
            bookmarks: if pages.len() > 0 {
                self.bookmarks.push(
                    BookmarkValue {
                        title,
                        level,
                        parent: parent_for(self.recorded, level),
                        page: pages[0],
                        page_index: self.pages_before,
                    },
                )
            } else {
                self.bookmarks
            },
            recorded: if pages.len() > 0 {
                record(self.recorded, level, self.bookmarks.len() as usize)
            } else {
                self.recorded
            },
            nums: self.nums + data.shifted_nums,
            kids: self.kids + data.root_kids,
            role_map: match data.role_map {
                Some(rm) => self.role_map.union_prefer_right(rm),
                None => self.role_map,
            },
            offset: (self.offset + data.next_offset_increment) as i64,
        }
    }
}

/// The merger.
#[derive(Debug)]
pub struct Merger {
    max_id: u32,
    pages_before: u32,
    pages: ObjectTable,
    objects: ObjectTable,
    bookmarks: Vec<Bookmark>,
    recorded: [Option<usize>; 256],
    nums: Vec<Object>,
    kids: Vec<Object>,
    role_map: Dictionary,
    offset: i64,
}

impl View for Merger {
    type V = MergerValue;

    closed spec fn view(&self) -> MergerValue {
        MergerValue {
            max_id: self.max_id,
            pages_before: self.pages_before,
            pages: self.pages@,
            objects: self.objects@,
            bookmarks: bookmark_values(self.bookmarks@),
            recorded: self.recorded@,
            nums: array_value(self.nums@),
            kids: array_value(self.kids@),
            role_map: self.role_map@,
            offset: self.offset,
        }
    }
}

/// Adds the pages that are read in the document to the collected ones.
fn collect_into(collected: &mut ObjectTable, doc: &Document, pages: &Vec<ObjectId>)
    ensures
        final(collected)@ == collect_pages(old(collected)@, doc@.objects, pages@),
{
    let mut i: usize = 0;
    while i < pages.len()
        invariant
            i <= pages@.len(),
            collected@ == collect_pages(old(collected)@, doc@.objects, pages@.take(i as int)),
        decreases pages@.len() - i,
    {
        proof {
            assert(pages@.take(i + 1).drop_last() =~= pages@.take(i as int));
        }
        if let Ok(o) = doc.get_object(pages[i]) {
            collected.insert(pages[i], o.clone());
        }
        i += 1;
    }
    proof {
        assert(pages@.take(pages@.len() as int) =~= pages@);
    }
}

/// Takes over every object of another table, in place of what was there
/// under the same id.
fn take_objects(objects: &mut ObjectTable, other: &ObjectTable)
    ensures
        final(objects)@ == old(objects)@.union_prefer_right(other@),
{
    let n = other.len();
    let ghost ids = other.ids();
    let mut i: usize = 0;
    while i < n
        invariant
            i <= n,
            n == ids.len(),
            ids == other.ids(),
            lists_keys(ids, other@),
            forall|id: ObjectId|
                #[trigger] objects@.contains_key(id) <==> old(objects)@.contains_key(id) || listed(
                    ids,
                    i as int,
                    id,
                ),
            forall|id: ObjectId|
                objects@.contains_key(id) ==> #[trigger] objects@[id] == (if listed(ids, i as int, id) {
                    other@[id]
                } else {
                    old(objects)@[id]
                }),
        decreases n - i,
    {
        let id = other.id_at(i);
        objects.insert(id, other.object_at(i).clone());
        proof {
            assert forall|x: ObjectId| #[trigger] listed(ids, i + 1, x) == (listed(ids, i as int, x) || x
                == id) by {
                if x == id {
                    assert(ids[i as int] == x);
                }
                if listed(ids, i + 1, x) {
                    let j = choose|j: int| 0 <= j < i + 1 && #[trigger] ids[j] == x;
                    if j < i {
                        assert(listed(ids, i as int, x));
                    }
                }
            }
        }
        i += 1;
    }
    proof {
        assert forall|x: ObjectId| #[trigger] listed(ids, n as int, x) == other@.contains_key(x) by {
            if other@.contains_key(x) {
                let j = choose|j: int| 0 <= j < ids.len() && #[trigger] ids[j] == x;
                assert(ids[j] == x);
            }
            if listed(ids, n as int, x) {
                let j = choose|j: int| 0 <= j < n && #[trigger] ids[j] == x;
                assert(other@.contains_key(ids[j]));
            }
        }
        assert forall|x: ObjectId| objects@.contains_key(x) == old(objects)@.union_prefer_right(
            other@,
        ).contains_key(x) by {
            assert(listed(ids, n as int, x) == other@.contains_key(x));
        }
        assert forall|x: ObjectId| objects@.contains_key(x) implies objects@[x] == old(
            objects,
        )@.union_prefer_right(other@)[x] by {
            assert(listed(ids, n as int, x) == other@.contains_key(x));
        }
        assert(objects@ =~= old(objects)@.union_prefer_right(other@));
    }
}

spec fn listed(ids: Seq<ObjectId>, i: int, id: ObjectId) -> bool {
    exists|j: int| 0 <= j < i && #[trigger] ids[j] == id
}

/// The type that an object names, or the empty name.
pub open spec fn declared(v: Value) -> Seq<u8> {
    match v.declared_type() {
        Ok(n) => n,
        Err(_) => Seq::empty(),
    }
}

/// Whether `id` is the first id, in the order of the ids, whose object names
/// the type `t`.
pub open spec fn is_first_of_type(objects: Map<ObjectId, Value>, t: Seq<u8>, id: ObjectId) -> bool {
    &&& objects.contains_key(id)
    &&& declared(objects[id]) == t
    &&& forall|o: ObjectId|
        objects.contains_key(o) && declared(#[trigger] objects[o]) == t ==> !id_lt(o, id)
}

/// Whether the objects lack a root of the type `t`: none names the type, or
/// the first that names it is no dictionary.
pub open spec fn lacks_root(objects: Map<ObjectId, Value>, t: Seq<u8>) -> bool {
    forall|id: ObjectId| #[trigger] is_first_of_type(objects, t, id) ==> !(objects[id] is Dictionary)
}

/// Only one id is the first whose object names a type.
pub proof fn lemma_first_is_one(objects: Map<ObjectId, Value>, t: Seq<u8>, a: ObjectId, b: ObjectId)
    requires
        is_first_of_type(objects, t, a),
        is_first_of_type(objects, t, b),
    ensures
        a == b,
{
    assert(!id_lt(a, b));
    assert(!id_lt(b, a));
}

/// Whether no object names the type `t`.
pub open spec fn none_of_type(objects: Map<ObjectId, Value>, t: Seq<u8>) -> bool {
    forall|o: ObjectId| objects.contains_key(o) ==> declared(#[trigger] objects[o]) != t
}

/// Whether an object goes into the skeleton of the merged document: the
/// chosen catalog and the chosen page tree root do, pages, outlines and
/// structure tree roots do not, and everything else does.
pub open spec fn keeps(v: Value, id: ObjectId, catalog_id: ObjectId, pages_id: ObjectId) -> bool {
    let t = declared(v);
    if t == name("Catalog") {
        id == catalog_id
    } else if t == name("Pages") {
        id == pages_id
    } else {
        t != name("Page") && t != name("Outlines") && t != name("Outline") && t != name(
            "StructTreeRoot",
        )
    }
}

/// The objects of the skeleton of the merged document.
pub open spec fn skeleton_objects(
    objects: Map<ObjectId, Value>,
    catalog_id: ObjectId,
    pages_id: ObjectId,
) -> Map<ObjectId, Value> {
    Map::new(
        |id: ObjectId| objects.contains_key(id) && keeps(objects[id], id, catalog_id, pages_id),
        |id: ObjectId| objects[id],
    )
}

/// The number of objects and one more, as an integer object holds it.
pub open spec fn size_value(n: nat) -> i64 {
    if n < i64::MAX {
        (n + 1) as i64
    } else {
        i64::MAX
    }
}

/// The trailer of the merged document.
pub open spec fn trailer_value(catalog_id: ObjectId, count: nat) -> Map<Seq<u8>, Value> {
    Map::<Seq<u8>, Value>::empty().insert(name("Root"), Value::Reference(catalog_id)).insert(
        name("Size"),
        Value::Integer(size_value(count)),
    )
}

/// Whether `n` is the highest object number among the ids.
pub open spec fn is_highest_number(objects: Map<ObjectId, Value>, n: u32) -> bool {
    &&& exists|id: ObjectId| objects.contains_key(id) && id.0 == n
    &&& forall|id: ObjectId| objects.contains_key(id) ==> id.0 <= n
}

/// The merged document, and what goes with it.
#[derive(Debug)]
pub struct Merged {
    /// The merged document.
    pub document: Document,
    /// The bookmarks for its outline, in the order of the documents.
    pub bookmarks: Vec<Bookmark>,
    /// The id of its catalog.
    pub catalog_id: ObjectId,
    /// The id of its page tree root.
    pub pages_id: ObjectId,
    /// The ids of its pages, in the order of the page tree.
    pub page_ids: Vec<ObjectId>,
}

impl MergerValue {
    /// Why the merged document cannot be assembled, if it cannot.
    pub open spec fn finish_error(self) -> Option<MergeError> {
        if lacks_root(self.objects, name("Catalog")) {
            Some(MergeError::CatalogNotFound)
        } else if lacks_root(self.objects, name("Pages")) {
            Some(MergeError::PagesNotFound)
        } else if self.max_id > u32::MAX - 3 {
            Some(MergeError::ObjectIdOverflow)
        } else {
            None
        }
    }

    /// The skeleton of the merged document.
    pub open spec fn skeleton(self, catalog_id: ObjectId, pages_id: ObjectId) -> DocumentValue {
        DocumentValue {
            version: "1.7"@,
            trailer: Map::empty(),
            objects: skeleton_objects(self.objects, catalog_id, pages_id),
            max_id: self.max_id,
        }
    }

    /// What goes into the merged document besides its skeleton.
    pub open spec fn parts(self, catalog_id: ObjectId, pages_id: ObjectId, page_ids: Seq<ObjectId>) -> Parts {
        Parts {
            catalog_id,
            pages_id,
            pages: self.pages,
            page_ids,
            kids: self.kids,
            nums: self.nums,
            role_map: self.role_map,
            final_offset: self.offset,
        }
    }
}

impl Merger {
    /// A merger that has taken in no document.
    pub fn new() -> (m: Merger)
        ensures
            m@ == MergerValue::start(),
    {
        let m = Merger {
            max_id: 1,
            pages_before: 0,
            pages: ObjectTable::new(),
            objects: ObjectTable::new(),
            bookmarks: Vec::new(),
            recorded: vstd::array::array_fill_for_copy_types(None),
            nums: Vec::new(),
            kids: Vec::new(),
            role_map: Dictionary::new(),
            offset: 0,
        };
        proof {
            assert(m@.bookmarks =~= Seq::<BookmarkValue>::empty());
            assert(m@.recorded =~= cleared());
            assert(m@.nums =~= Seq::<Value>::empty());
            assert(m@.kids =~= Seq::<Value>::empty());
        }
        m
    }

    /// The object number from which the next document's objects are to be
    /// numbered.
    pub fn max_id(&self) -> (r: u32)
        ensures
            r == self@.max_id,
    {
        self.max_id
    }

    /// The next free key of the merged parent tree.
    pub fn current_offset(&self) -> (r: i64)
        ensures
            r == self@.offset,
    {
        self.offset
    }

    /// How many pages were collected.
    pub fn page_count(&self) -> (r: usize)
        ensures
            r == self@.pages.dom().len(),
    {
        self.pages.len()
    }

    /// How many bookmarks were recorded.
    pub fn bookmark_count(&self) -> (r: usize)
        ensures
            r == self@.bookmarks.len(),
    {
        self.bookmarks.len()
    }

    /// The bookmark at the given place.
    pub fn bookmark(&self, i: usize) -> (r: &Bookmark)
        requires
            i < self@.bookmarks.len(),
        ensures
            r@ == self@.bookmarks[i as int],
    {
        &self.bookmarks[i]
    }

    /// Takes in a document whose pages are `pages`, in that order, under the
    /// given title and level of the table of contents. Where it cannot be
    /// taken in, the merger stays as it is.
    pub fn absorb(&mut self, doc: Document, pages: Vec<ObjectId>, title: String, level: u8) -> (r:
        Result<(), MergeError>)
        ensures
            match r {
                Ok(_) => old(self)@.absorb_error(doc@, pages@) is None && final(self)@ == old(
                    self,
                )@.absorb(doc@, pages@, title@, level),
                Err(e) => old(self)@.absorb_error(doc@, pages@) == Some(e) && final(self)@ == old(
                    self,
                )@,
            },
    {
        let mut doc = doc;
        let ghost input = doc@;
        if doc.max_id == u32::MAX {
            return Err(MergeError::ObjectIdOverflow);
        }
        if pages.len() as u64 >= (u32::MAX - self.pages_before) as u64 {
            return Err(MergeError::TooManyPages);
        }
        let data = match read_structure(&doc, &pages, self.offset) {
            Some(data) => data,
            None => {
                return Err(MergeError::KeysOutOfRange);
            },
        };
        if !sum_in_range(self.offset, data.next_offset_increment) {
            return Err(MergeError::KeysOutOfRange);
        }
        if !shift_struct_parents(&mut doc, &pages, self.offset) {
            return Err(MergeError::KeysOutOfRange);
        }
        let ghost before = self@;
        let mut data = data;
        proof {
            crate::object::lemma_array_value_add(self.nums@, data.shifted_nums@);
            crate::object::lemma_array_value_add(self.kids@, data.root_kids@);
        }
        self.nums.append(&mut data.shifted_nums);
        self.kids.append(&mut data.root_kids);
        if let Some(rm) = &data.role_map {
            self.role_map.merge_from(rm);
        }
        self.offset = self.offset + data.next_offset_increment;
        if pages.len() > 0 {
            let parent = if level == 0 {
                None
            } else {
                self.recorded[(level - 1) as usize]
            };
            if level == 0 {
                self.recorded = vstd::array::array_fill_for_copy_types(None);
            }
            self.recorded[level as usize] = Some(self.bookmarks.len());
            self.bookmarks.push(
                Bookmark { title, level, parent, page: pages[0], page_index: self.pages_before },
            );
            proof {
                assert(self@.recorded =~= record(before.recorded, level, before.bookmarks.len() as usize));
                assert(self@.bookmarks =~= before.bookmarks.push(
                    BookmarkValue {
                        title: title@,
                        level,
                        parent: parent_for(before.recorded, level),
                        page: pages@[0],
                        page_index: before.pages_before,
                    },
                ));
            }
        }
        self.pages_before = self.pages_before + pages.len() as u32;
        collect_into(&mut self.pages, &doc, &pages);
        take_objects(&mut self.objects, &doc.objects);
        self.max_id = doc.max_id + 1;
        Ok(())
    }
}

/// The type that an object names, or the empty name.
fn declared_type_of(o: &Object) -> (r: &[u8])
    ensures
        r@ == declared(o@),
{
    match o.declared_type() {
        Ok(n) => n,
        Err(_) => {
            let none: &[u8] = "".as_bytes();
            proof {
                reveal_strlit("");
                assert("".spec_bytes() =~= Seq::<u8>::empty()) by {
                    vstd::string::is_ascii_spec_bytes("");
                }
            }
            none
        },
    }
}

/// The ids of a table, in their order.
fn ids_of(table: &ObjectTable) -> (r: Vec<ObjectId>)
    ensures
        r@ == table.ids(),
        lists_keys(r@, table@),
{
    let n = table.len();
    let mut r: Vec<ObjectId> = Vec::new();
    let mut i: usize = 0;
    while i < n
        invariant
            i <= n,
            n == table.ids().len(),
            r@ == table.ids().take(i as int),
        decreases n - i,
    {
        r.push(table.id_at(i));
        proof {
            assert(table.ids().take(i as int).push(table.ids()[i as int]) =~= table.ids().take(i + 1));
        }
        i += 1;
    }
    proof {
        assert(table.ids().take(n as int) =~= table.ids());
    }
    r
}

/// What the choice among the objects found: the first catalog and the first
/// page tree root.
struct Chosen {
    catalog_id: Option<ObjectId>,
    pages_id: Option<ObjectId>,
}

/// The first catalog and the first page tree root among the objects, in the
/// order of the ids.
fn choose_roots(objects: &ObjectTable) -> (r: Chosen)
    ensures
        match r.catalog_id {
            Some(c) => is_first_of_type(objects@, name("Catalog"), c),
            None => none_of_type(objects@, name("Catalog")),
        },
        match r.pages_id {
            Some(p) => is_first_of_type(objects@, name("Pages"), p),
            None => none_of_type(objects@, name("Pages")),
        },
{
    let n = objects.len();
    let ghost ids = objects.ids();
    let mut catalog_id: Option<ObjectId> = None;
    let mut pages_id: Option<ObjectId> = None;
    let mut i: usize = 0;
    while i < n
        invariant
            i <= n,
            n == ids.len(),
            ids == objects.ids(),
            lists_keys(ids, objects@),
            first_among(objects@, ids, i as int, name("Catalog"), catalog_id),
            first_among(objects@, ids, i as int, name("Pages"), pages_id),
        decreases n - i,
    {
        let id = objects.id_at(i);
        let t = declared_type_of(objects.object_at(i));
        if catalog_id.is_none() && crate::bytes::is_name(t, "Catalog") {
            catalog_id = Some(id);
        }
        if pages_id.is_none() && crate::bytes::is_name(t, "Pages") {
            pages_id = Some(id);
        }
        i += 1;
    }
    proof {
        lemma_first_among(objects@, ids, name("Catalog"), catalog_id);
        lemma_first_among(objects@, ids, name("Pages"), pages_id);
    }
    Chosen { catalog_id, pages_id }
}

spec fn first_among(
    objects: Map<ObjectId, Value>,
    ids: Seq<ObjectId>,
    i: int,
    t: Seq<u8>,
    found: Option<ObjectId>,
) -> bool {
    match found {
        Some(c) => exists|k: int|
            0 <= k < i && #[trigger] ids[k] == c && declared(objects[c]) == t && forall|j: int|
                0 <= j < k ==> declared(objects[#[trigger] ids[j]]) != t,
        None => forall|j: int| 0 <= j < i ==> declared(objects[#[trigger] ids[j]]) != t,
    }
}

proof fn lemma_first_among(
    objects: Map<ObjectId, Value>,
    ids: Seq<ObjectId>,
    t: Seq<u8>,
    found: Option<ObjectId>,
)
    requires
        lists_keys(ids, objects),
        first_among(objects, ids, ids.len() as int, t, found),
    ensures
        match found {
            Some(c) => is_first_of_type(objects, t, c),
            None => none_of_type(objects, t),
        },
{
    match found {
        Some(c) => {
            let k = choose|k: int|
                0 <= k < ids.len() && #[trigger] ids[k] == c && declared(objects[c]) == t && forall|
                    j: int,
                |
                    0 <= j < k ==> declared(objects[#[trigger] ids[j]]) != t;
            assert(objects.contains_key(ids[k]));
            assert forall|o: ObjectId|
                objects.contains_key(o) && declared(#[trigger] objects[o]) == t implies !id_lt(o, c) by {
                let j = choose|j: int| 0 <= j < ids.len() && #[trigger] ids[j] == o;
                if j < k {
                    assert(declared(objects[ids[j]]) != t);
                } else if k < j {
                    assert(id_lt(ids[k], ids[j]));
                }
            }
        },
        None => {
            assert forall|o: ObjectId| objects.contains_key(o) implies declared(#[trigger] objects[o])
                != t by {
                let j = choose|j: int| 0 <= j < ids.len() && #[trigger] ids[j] == o;
                assert(declared(objects[ids[j]]) != t);
            }
        },
    }
}

/// Whether an object goes into the skeleton of the merged document.
fn goes_into_skeleton(o: &Object, id: ObjectId, catalog_id: ObjectId, pages_id: ObjectId) -> (r: bool)
    ensures
        r == keeps(o@, id, catalog_id, pages_id),
{
    let t = declared_type_of(o);
    if crate::bytes::is_name(t, "Catalog") {
        crate::table::id_eq(id, catalog_id)
    } else if crate::bytes::is_name(t, "Pages") {
        crate::table::id_eq(id, pages_id)
    } else {
        !crate::bytes::is_name(t, "Page") && !crate::bytes::is_name(t, "Outlines")
            && !crate::bytes::is_name(t, "Outline") && !crate::bytes::is_name(t, "StructTreeRoot")
    }
}

/// The objects of the skeleton of the merged document.
fn build_skeleton(objects: &ObjectTable, catalog_id: ObjectId, pages_id: ObjectId) -> (r: ObjectTable)
    ensures
        r@ == skeleton_objects(objects@, catalog_id, pages_id),
{
    let n = objects.len();
    let ghost ids = objects.ids();
    let mut r = ObjectTable::new();
    let mut i: usize = 0;
    while i < n
        invariant
            i <= n,
            n == ids.len(),
            ids == objects.ids(),
            lists_keys(ids, objects@),
            forall|id: ObjectId|
                #[trigger] r@.contains_key(id) <==> listed(ids, i as int, id) && keeps(
                    objects@[id],
                    id,
                    catalog_id,
                    pages_id,
                ),
            forall|id: ObjectId| r@.contains_key(id) ==> #[trigger] r@[id] == objects@[id],
        decreases n - i,
    {
        let id = objects.id_at(i);
        let o = objects.object_at(i);
        if goes_into_skeleton(o, id, catalog_id, pages_id) {
            r.insert(id, o.clone());
        }
        proof {
            assert forall|x: ObjectId| #[trigger] listed(ids, i + 1, x) == (listed(ids, i as int, x) || x
                == id) by {
                if x == id {
                    assert(ids[i as int] == x);
                }
                if listed(ids, i + 1, x) {
                    let j = choose|j: int| 0 <= j < i + 1 && #[trigger] ids[j] == x;
                    if j < i {
                        assert(listed(ids, i as int, x));
                    }
                }
            }
        }
        i += 1;
    }
    proof {
        assert forall|x: ObjectId| #[trigger] listed(ids, n as int, x) == objects@.contains_key(x) by {
            if objects@.contains_key(x) {
                let j = choose|j: int| 0 <= j < ids.len() && #[trigger] ids[j] == x;
                assert(ids[j] == x);
            }
            if listed(ids, n as int, x) {
                let j = choose|j: int| 0 <= j < n && #[trigger] ids[j] == x;
                assert(objects@.contains_key(ids[j]));
            }
        }
        assert forall|x: ObjectId| r@.contains_key(x) == skeleton_objects(
            objects@,
            catalog_id,
            pages_id,
        ).contains_key(x) by {
            assert(listed(ids, n as int, x) == objects@.contains_key(x));
        }
        assert(r@ =~= skeleton_objects(objects@, catalog_id, pages_id));
    }
    r
}

/// The number of objects and one more, as an integer object holds it.
fn size_of(n: usize) -> (r: i64)
    ensures
        r == size_value(n as nat),
{
    if (n as u64) < i64::MAX as u64 {
        n as i64 + 1
    } else {
        i64::MAX
    }
}

/// The highest object number among the ids of a table that is not empty.
fn highest_number(objects: &ObjectTable) -> (r: u32)
    requires
        objects@.dom().len() > 0,
    ensures
        is_highest_number(objects@, r),
{
    let n = objects.len();
    let id = objects.id_at(n - 1);
    proof {
        let ids = objects.ids();
        assert forall|o: ObjectId| objects@.contains_key(o) implies o.0 <= id.0 by {
            let j = choose|j: int| 0 <= j < ids.len() && #[trigger] ids[j] == o;
            if j < n - 1 {
                assert(id_lt(ids[j], ids[n - 1]));
            }
        }
    }
    id.0
}

/// Whether a dictionary stands under `id`.
fn holds_dictionary(objects: &ObjectTable, id: ObjectId) -> (r: bool)
    ensures
        r == (objects@.contains_key(id) && objects@[id] is Dictionary),
{
    match objects.get(id) {
        Some(Object::Dictionary(_)) => true,
        _ => false,
    }
}

impl Merger {
    /// Assembles the merged document from what was taken in: the first
    /// catalog and the first page tree root are kept, pages, outlines and
    /// structure tree roots are built anew. Without a catalog or a page tree
    /// root that is a dictionary there is no merged document.
    pub fn finish(self) -> (r: Result<Merged, MergeError>)
        ensures
            match r {
                Ok(m) => {
                    let st = self@;
                    let out = assemble(
                        st.skeleton(m.catalog_id, m.pages_id),
                        st.parts(m.catalog_id, m.pages_id, m.page_ids@),
                    );
                    &&& st.finish_error() is None
                    &&& is_first_of_type(st.objects, name("Catalog"), m.catalog_id)
                    &&& is_first_of_type(st.objects, name("Pages"), m.pages_id)
                    &&& st.objects[m.catalog_id] is Dictionary
                    &&& st.objects[m.pages_id] is Dictionary
                    &&& lists_keys(m.page_ids@, st.pages)
                    &&& m.document@.version == out.version
                    &&& m.document@.objects == out.objects
                    &&& m.document@.trailer == trailer_value(m.catalog_id, out.objects.dom().len())
                    &&& is_highest_number(m.document@.objects, m.document@.max_id)
                    &&& bookmark_values(m.bookmarks@) == st.bookmarks
                },
                Err(e) => self@.finish_error() == Some(e),
            },
    {
        let chosen = choose_roots(&self.objects);
        let ghost objects_before = self@.objects;
        let catalog_id = match chosen.catalog_id {
            Some(c) => c,
            None => {
                return Err(MergeError::CatalogNotFound);
            },
        };
        if !holds_dictionary(&self.objects, catalog_id) {
            proof {
                assert forall|id: ObjectId| #[trigger]
                    is_first_of_type(objects_before, name("Catalog"), id) implies !(
                objects_before[id] is Dictionary) by {
                    lemma_first_is_one(objects_before, name("Catalog"), id, catalog_id);
                }
            }
            return Err(MergeError::CatalogNotFound);
        }
        let pages_id = match chosen.pages_id {
            Some(p) => p,
            None => {
                return Err(MergeError::PagesNotFound);
            },
        };
        if !holds_dictionary(&self.objects, pages_id) {
            proof {
                assert forall|id: ObjectId| #[trigger]
                    is_first_of_type(objects_before, name("Pages"), id) implies !(
                objects_before[id] is Dictionary) by {
                    lemma_first_is_one(objects_before, name("Pages"), id, pages_id);
                }
            }
            return Err(MergeError::PagesNotFound);
        }
        if self.max_id > u32::MAX - 3 {
            return Err(MergeError::ObjectIdOverflow);
        }
        let mut document = Document::with_version("1.7".to_owned());
        document.max_id = self.max_id;
        document.objects = build_skeleton(&self.objects, catalog_id, pages_id);
        let page_ids = ids_of(&self.pages);
        proof {
            assert(document@.objects.contains_key(catalog_id));
            assert(document@.objects.contains_key(pages_id));
        }
        let mut document = match assemble_merged_document(
            document,
            catalog_id,
            pages_id,
            self.pages,
            self.kids,
            self.nums,
            self.role_map,
            self.offset,
        ) {
            Ok(d) => d,
            Err(_) => {
                // The roots and the room for the added objects were seen to.
                proof {
                    assert(false);
                }
                return Err(MergeError::ObjectIdOverflow);
            },
        };
        let count = document.objects.len();
        let mut trailer = Dictionary::new();
        trailer.set(copy_bytes("Root".as_bytes()), Object::Reference(catalog_id));
        trailer.set(copy_bytes("Size".as_bytes()), Object::Integer(size_of(count)));
        document.trailer = trailer;
        proof {
            let id = crate::assemble::struct_tree_root_id(self@.max_id);
            assert(document@.objects.contains_key(id));
            assert(document@.objects.dom().contains(id));
            assert(objects_before.contains_key(catalog_id));
            assert(objects_before.contains_key(pages_id));
        }
        document.max_id = highest_number(&document.objects);
        Ok(Merged { document, bookmarks: self.bookmarks, catalog_id, pages_id, page_ids })
    }
}

} // verus!
