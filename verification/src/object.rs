//! The PDF object model: objects, dictionaries and streams, and the
//! mathematical values that contracts speak of.

use crate::bytes::{bytes_eq, copy_bytes, name};
use vstd::prelude::*;

verus! {

/// Object identifier: object number and generation number.
pub type ObjectId = (u32, u16);

/// The two ways a string object can be written.
#[derive(Clone, Copy, Debug, PartialEq, Eq, Structural)]
pub enum StringFormat {
    Literal,
    Hexadecimal,
}

/// The kinds of object.
#[derive(Clone, Copy, Debug, PartialEq, Eq, Structural)]
pub enum ObjectKind {
    Null,
    Boolean,
    Integer,
    Real,
    Name,
    String,
    Array,
    Dictionary,
    Stream,
    Reference,
}

/// Why an object could not be read.
#[derive(Clone, Copy, Debug, PartialEq, Eq, Structural)]
pub enum PdfError {
    /// The dictionary has no such key.
    DictKey,
    /// The object is not of the kind that was asked for.
    ObjectType { expected: ObjectKind, found: ObjectKind },
    /// The document has no object with this id.
    ObjectNotFound { number: u32, generation: u16 },
    /// A chain of references is longer than a reader follows.
    ReferenceLimit,
    /// No object number is left for a new object.
    ObjectIdOverflow,
}

/// A PDF object.
#[derive(Debug)]
pub enum Object {
    Null,
    Boolean(bool),
    Integer(i64),
    /// A real number, held as the bit pattern of its single-precision value.
    Real(u32),
    Name(Vec<u8>),
    String(Vec<u8>, StringFormat),
    Array(Vec<Object>),
    Dictionary(Dictionary),
    Stream(Stream),
    Reference(ObjectId),
}

/// A dictionary object: name keys with their values, in insertion order.
#[derive(Debug)]
pub struct Dictionary {
    entries: Vec<(Vec<u8>, Object)>,
}

/// A stream object: its dictionary and its bytes.
#[derive(Debug)]
pub struct Stream {
    pub dict: Dictionary,
    pub content: Vec<u8>,
    pub allows_compression: bool,
    pub start_position: Option<usize>,
}

/// What an object is, as a mathematical value.
pub enum Value {
    Null,
    Boolean(bool),
    Integer(i64),
    Real(u32),
    Name(Seq<u8>),
    String(Seq<u8>, StringFormat),
    Array(Seq<Value>),
    Dictionary(Map<Seq<u8>, Value>),
    Stream(StreamValue),
    Reference(ObjectId),
}

/// What a stream is, as a mathematical value.
pub struct StreamValue {
    pub dict: Map<Seq<u8>, Value>,
    pub content: Seq<u8>,
    pub allows_compression: bool,
    pub start_position: Option<usize>,
}

/// The value of an object.
pub open spec fn object_value(o: Object) -> Value
    decreases o, 0nat,
{
    match o {
        Object::Null => Value::Null,
        Object::Boolean(b) => Value::Boolean(b),
        Object::Integer(i) => Value::Integer(i),
        Object::Real(r) => Value::Real(r),
        Object::Name(n) => Value::Name(n@),
        Object::String(s, f) => Value::String(s@, f),
        Object::Array(a) => Value::Array(array_value(a@)),
        Object::Dictionary(d) => Value::Dictionary(d.value()),
        Object::Stream(s) => Value::Stream(s.value()),
        Object::Reference(id) => Value::Reference(id),
    }
}

/// The values of a sequence of objects.
pub open spec fn array_value(a: Seq<Object>) -> Seq<Value>
    decreases a, 1nat,
{
    Seq::new(a.len(), |i: int| if 0 <= i < a.len() { object_value(a[i]) } else { Value::Null })
}

/// The value of an object that may be missing.
pub open spec fn option_value(o: Option<Object>) -> Option<Value> {
    match o {
        Some(x) => Some(x@),
        None => None,
    }
}

/// The index of the first entry with the given key, or -1.
pub closed spec fn first_index(es: Seq<(Vec<u8>, Object)>, k: Seq<u8>) -> int
    decreases es.len(),
{
    if es.len() == 0 {
        -1
    } else if es[0].0@ == k {
        0
    } else {
        let r = first_index(es.drop_first(), k);
        if r < 0 {
            -1
        } else {
            r + 1
        }
    }
}

impl Stream {
    /// The value of the stream.
    pub open spec fn value(self) -> StreamValue
        decreases self, 2nat,
    {
        StreamValue {
            dict: self.dict.value(),
            content: self.content@,
            allows_compression: self.allows_compression,
            start_position: self.start_position,
        }
    }
}

impl Dictionary {
    /// The mapping from keys to values that the dictionary stands for: of two
    /// entries with one key the earlier one counts.
    pub closed spec fn value(self) -> Map<Seq<u8>, Value>
        decreases self, 1nat,
    {
        entries_map(self.entries@)
    }
}

/// The mapping that a list of entries stands for.
pub closed spec fn entries_map(es: Seq<(Vec<u8>, Object)>) -> Map<Seq<u8>, Value>
    decreases es, 0nat,
{
    Map::new(
        |k: Seq<u8>| first_index(es, k) >= 0,
        |k: Seq<u8>|
            {
                let i = first_index(es, k);
                if 0 <= i < es.len() {
                    object_value(es[i].1)
                } else {
                    Value::Null
                }
            },
    )
}

impl View for Object {
    type V = Value;

    open spec fn view(&self) -> Value {
        object_value(*self)
    }
}

impl View for Dictionary {
    type V = Map<Seq<u8>, Value>;

    open spec fn view(&self) -> Map<Seq<u8>, Value> {
        self.value()
    }
}

impl View for Stream {
    type V = StreamValue;

    open spec fn view(&self) -> StreamValue {
        self.value()
    }
}

proof fn lemma_first_index(es: Seq<(Vec<u8>, Object)>, k: Seq<u8>)
    ensures
        -1 <= first_index(es, k) < es.len(),
        first_index(es, k) >= 0 ==> es[first_index(es, k)].0@ == k,
        forall|j: int| 0 <= j < es.len() && (j < first_index(es, k) || first_index(es, k) < 0)
            ==> (#[trigger] es[j]).0@ != k,
    decreases es.len(),
{
    if es.len() == 0 {
    } else if es[0].0@ == k {
    } else {
        let t = es.drop_first();
        lemma_first_index(t, k);
        let r = first_index(t, k);
        assert forall|j: int|
            0 <= j < es.len() && (j < first_index(es, k) || first_index(es, k) < 0) implies (
        #[trigger] es[j]).0@ != k by {
            if j > 0 {
                assert(t[j - 1] == es[j]);
            }
        }
    }
}

proof fn lemma_first_index_is(es: Seq<(Vec<u8>, Object)>, k: Seq<u8>, i: int)
    requires
        0 <= i < es.len(),
        es[i].0@ == k,
        forall|j: int| 0 <= j < i ==> (#[trigger] es[j]).0@ != k,
    ensures
        first_index(es, k) == i,
{
    lemma_first_index(es, k);
    let r = first_index(es, k);
    if r < 0 {
        assert(es[i].0@ != k);
    } else if r < i {
        assert(es[r].0@ != k);
    } else if i < r {
        assert(es[i].0@ != k);
    }
}

proof fn lemma_first_index_none(es: Seq<(Vec<u8>, Object)>, k: Seq<u8>)
    requires
        forall|j: int| 0 <= j < es.len() ==> (#[trigger] es[j]).0@ != k,
    ensures
        first_index(es, k) == -1,
{
    lemma_first_index(es, k);
    let r = first_index(es, k);
    if r >= 0 {
        assert(es[r].0@ != k);
    }
}

/// A copy of a list of objects.
pub fn copy_objects(a: &Vec<Object>) -> (r: Vec<Object>)
    ensures
        array_value(r@) == array_value(a@),
        r@.len() == a@.len(),
    decreases a, 0nat,
{
    let mut r: Vec<Object> = Vec::new();
    let mut i: usize = 0;
    while i < a.len()
        invariant
            i <= a.len(),
            r@.len() == i,
            forall|j: int| 0 <= j < i ==> r@[j]@ == a@[j]@,
        decreases a.len() - i,
    {
        let o = a[i].clone();
        r.push(o);
        i += 1;
    }
    proof {
        assert(array_value(r@) =~= array_value(a@));
    }
    r
}

fn copy_entries(es: &Vec<(Vec<u8>, Object)>) -> (r: Vec<(Vec<u8>, Object)>)
    ensures
        r@.len() == es@.len(),
        forall|j: int| 0 <= j < es@.len() ==> r@[j].0@ == es@[j].0@ && r@[j].1@ == es@[j].1@,
    decreases es, 0nat,
{
    let mut r: Vec<(Vec<u8>, Object)> = Vec::new();
    let mut i: usize = 0;
    while i < es.len()
        invariant
            i <= es.len(),
            r@.len() == i,
            forall|j: int| 0 <= j < i ==> r@[j].0@ == es@[j].0@ && r@[j].1@ == es@[j].1@,
        decreases es.len() - i,
    {
        let k = copy_bytes(es[i].0.as_slice());
        let v = es[i].1.clone();
        r.push((k, v));
        i += 1;
    }
    r
}

proof fn lemma_same_entries(a: Seq<(Vec<u8>, Object)>, b: Seq<(Vec<u8>, Object)>, k: Seq<u8>)
    requires
        a.len() == b.len(),
        forall|j: int| 0 <= j < a.len() ==> a[j].0@ == b[j].0@,
    ensures
        first_index(a, k) == first_index(b, k),
{
    lemma_first_index(a, k);
    let i = first_index(a, k);
    if i < 0 {
        assert forall|j: int| 0 <= j < b.len() implies (#[trigger] b[j]).0@ != k by {
            assert(a[j].0@ != k);
        }
        lemma_first_index_none(b, k);
    } else {
        assert forall|j: int| 0 <= j < i implies (#[trigger] b[j]).0@ != k by {
            assert(a[j].0@ != k);
        }
        lemma_first_index_is(b, k, i);
    }
}

impl Clone for Object {
    fn clone(&self) -> (r: Self)
        ensures
            r@ == self@,
        decreases self, 1nat,
    {
        match self {
            Object::Null => Object::Null,
            Object::Boolean(b) => Object::Boolean(*b),
            Object::Integer(i) => Object::Integer(*i),
            Object::Real(x) => Object::Real(*x),
            Object::Name(n) => Object::Name(copy_bytes(n.as_slice())),
            Object::String(s, f) => Object::String(copy_bytes(s.as_slice()), *f),
            Object::Array(a) => Object::Array(copy_objects(a)),
            Object::Dictionary(d) => Object::Dictionary(d.clone()),
            Object::Stream(s) => Object::Stream(s.clone()),
            Object::Reference(id) => Object::Reference((id.0, id.1)),
        }
    }
}

impl Clone for Dictionary {
    fn clone(&self) -> (r: Self)
        ensures
            r@ == self@,
        decreases self, 1nat,
    {
        let r = Dictionary { entries: copy_entries(&self.entries) };
        proof {
            assert forall|k: Seq<u8>| first_index(r.entries@, k) == first_index(self.entries@, k) by {
                lemma_same_entries(r.entries@, self.entries@, k);
            }
            assert forall|k: Seq<u8>| r@.contains_key(k) implies #[trigger] r@[k] == self@[k] by {
                lemma_first_index(self.entries@, k);
            }
            assert(r@ =~= self@);
        }
        r
    }
}

impl Clone for Stream {
    fn clone(&self) -> (r: Self)
        ensures
            r@ == self@,
        decreases self, 2nat,
    {
        Stream {
            dict: self.dict.clone(),
            content: copy_bytes(self.content.as_slice()),
            allows_compression: self.allows_compression,
            start_position: self.start_position,
        }
    }
}

proof fn lemma_entries_push(es: Seq<(Vec<u8>, Object)>, e: (Vec<u8>, Object))
    requires
        first_index(es, e.0@) < 0,
    ensures
        entries_map(es.push(e)) == entries_map(es).insert(e.0@, e.1@),
{
    let t = es.push(e);
    assert forall|k: Seq<u8>|
        first_index(t, k) == (if k == e.0@ {
            es.len() as int
        } else {
            first_index(es, k)
        }) by {
        lemma_first_index(es, k);
        lemma_first_index(es, e.0@);
        let r = first_index(es, k);
        if k == e.0@ {
            lemma_first_index_is(t, k, es.len() as int);
        } else if r >= 0 {
            lemma_first_index_is(t, k, r);
        } else {
            lemma_first_index_none(t, k);
        }
    }
    assert forall|k: Seq<u8>| 0 <= first_index(es, k) implies first_index(es, k) < es.len() by {
        lemma_first_index(es, k);
    }
    assert(entries_map(t) =~= entries_map(es).insert(e.0@, e.1@));
}

proof fn lemma_entries_update(es: Seq<(Vec<u8>, Object)>, i: int, e: (Vec<u8>, Object))
    requires
        0 <= i < es.len(),
        first_index(es, e.0@) == i,
    ensures
        entries_map(es.update(i, e)) == entries_map(es).insert(e.0@, e.1@),
{
    let t = es.update(i, e);
    lemma_first_index(es, e.0@);
    assert forall|k: Seq<u8>| first_index(t, k) == first_index(es, k) by {
        lemma_same_entries(t, es, k);
    }
    assert forall|k: Seq<u8>| 0 <= first_index(es, k) implies first_index(es, k) < es.len() by {
        lemma_first_index(es, k);
    }
    assert forall|k: Seq<u8>| k != e.0@ implies first_index(es, k) != i by {
        lemma_first_index(es, k);
    }
    assert(entries_map(t) =~= entries_map(es).insert(e.0@, e.1@));
}

proof fn lemma_entries_remove(es: Seq<(Vec<u8>, Object)>, i: int, k: Seq<u8>)
    requires
        0 <= i < es.len(),
        es[i].0@ != k,
    ensures
        entries_map(es.remove(i)).contains_key(k) == entries_map(es).contains_key(k),
        entries_map(es).contains_key(k) ==> entries_map(es.remove(i))[k] == entries_map(es)[k],
{
    let t = es.remove(i);
    lemma_first_index(es, k);
    let r = first_index(es, k);
    if r < 0 {
        assert forall|j: int| 0 <= j < t.len() implies (#[trigger] t[j]).0@ != k by {
            if j < i {
                assert(t[j] == es[j]);
            } else {
                assert(t[j] == es[j + 1]);
            }
        }
        lemma_first_index_none(t, k);
    } else {
        let q = if r < i {
            r
        } else {
            r - 1
        };
        assert(t[q] == es[r]);
        assert forall|j: int| 0 <= j < q implies (#[trigger] t[j]).0@ != k by {
            if j < i {
                assert(t[j] == es[j]);
            } else {
                assert(t[j] == es[j + 1]);
            }
        }
        lemma_first_index_is(t, k, q);
    }
}

impl Dictionary {
    /// A dictionary without entries.
    pub fn new() -> (d: Dictionary)
        ensures
            d@ == Map::<Seq<u8>, Value>::empty(),
    {
        let d = Dictionary { entries: Vec::new() };
        proof {
            assert(d@ =~= Map::<Seq<u8>, Value>::empty());
        }
        d
    }

    /// The number of entries.
    pub closed spec fn spec_len(&self) -> nat {
        self.entries@.len()
    }

    /// The key of the entry at the given place.
    pub closed spec fn spec_key(&self, i: int) -> Seq<u8> {
        self.entries@[i].0@
    }

    /// The number of entries.
    pub fn len(&self) -> (n: usize)
        ensures
            n == self.spec_len(),
    {
        self.entries.len()
    }

    /// The key of the entry at the given place. The value under it is had by
    /// [`Dictionary::get`].
    pub fn key(&self, i: usize) -> (k: &Vec<u8>)
        requires
            i < self.spec_len(),
        ensures
            k@ == self.spec_key(i as int),
            self@.contains_key(k@),
    {
        proof {
            lemma_first_index(self.entries@, self.entries@[i as int].0@);
        }
        &self.entries[i].0
    }

    /// Every key of the dictionary stands at some place, and every place holds
    /// a key of the dictionary.
    pub proof fn lemma_keys(&self)
        ensures
            forall|k: Seq<u8>|
                self@.contains_key(k) <==> exists|i: int|
                    0 <= i < self.spec_len() && #[trigger] self.spec_key(i) == k,
    {
        let es = self.entries@;
        assert forall|k: Seq<u8>|
            self@.contains_key(k) <==> exists|i: int|
                0 <= i < self.spec_len() && #[trigger] self.spec_key(i) == k by {
            lemma_first_index(es, k);
            if self@.contains_key(k) {
                assert(self.spec_key(first_index(es, k)) == k);
            }
            if exists|i: int| 0 <= i < self.spec_len() && #[trigger] self.spec_key(i) == k {
                let i = choose|i: int| 0 <= i < self.spec_len() && #[trigger] self.spec_key(i) == k;
                assert(es[i].0@ == k);
            }
        }
    }

    fn find(&self, key: &[u8]) -> (r: Option<usize>)
        ensures
            match r {
                Some(i) => first_index(self.entries@, key@) == i && i < self.entries@.len(),
                None => first_index(self.entries@, key@) == -1,
            },
    {
        let mut i: usize = 0;
        while i < self.entries.len()
            invariant
                i <= self.entries@.len(),
                forall|j: int| 0 <= j < i ==> (#[trigger] self.entries@[j]).0@ != key@,
            decreases self.entries@.len() - i,
        {
            if bytes_eq(self.entries[i].0.as_slice(), key) {
                proof {
                    lemma_first_index_is(self.entries@, key@, i as int);
                }
                return Some(i);
            }
            i += 1;
        }
        proof {
            lemma_first_index_none(self.entries@, key@);
        }
        None
    }

    /// Whether the dictionary has the key.
    pub fn has(&self, key: &[u8]) -> (r: bool)
        ensures
            r == self@.contains_key(key@),
    {
        self.find(key).is_some()
    }

    /// The value under a key.
    pub fn get(&self, key: &[u8]) -> (r: Result<&Object, PdfError>)
        ensures
            r matches Ok(o) ==> dict_get(self@, key@) == Ok::<Value, PdfError>(o@),
            r matches Err(e) ==> dict_get(self@, key@) == Err::<Value, PdfError>(e),
    {
        match self.find(key) {
            Some(i) => Ok(&self.entries[i].1),
            None => Err(PdfError::DictKey),
        }
    }

    /// Puts a value under a key, in place of the one that was there.
    pub fn set(&mut self, key: Vec<u8>, value: Object)
        ensures
            final(self)@ == old(self)@.insert(key@, value@),
    {
        match self.find(key.as_slice()) {
            Some(i) => {
                proof {
                    lemma_entries_update(self.entries@, i as int, (key, value));
                }
                self.entries[i] = (key, value);
            },
            None => {
                proof {
                    lemma_entries_push(self.entries@, (key, value));
                }
                self.entries.push((key, value));
            },
        }
    }

    /// Takes a key out, and returns the value that was under it.
    pub fn remove(&mut self, key: &[u8]) -> (r: Option<Object>)
        ensures
            final(self)@ == old(self)@.remove(key@),
            match r {
                Some(o) => old(self)@.contains_key(key@) && o@ == old(self)@[key@],
                None => !old(self)@.contains_key(key@),
            },
    {
        let mut r: Option<Object> = None;
        let mut i: usize = 0;
        proof {
            lemma_first_index(self.entries@, key@);
        }
        while i < self.entries.len()
            invariant
                i <= self.entries@.len(),
                forall|j: int| 0 <= j < i ==> (#[trigger] self.entries@[j]).0@ != key@,
                forall|k: Seq<u8>|
                    k != key@ ==> entries_map(self.entries@).contains_key(k) == old(self)@.contains_key(
                        k,
                    ),
                forall|k: Seq<u8>|
                    k != key@ && old(self)@.contains_key(k) ==> entries_map(self.entries@)[k] == old(
                        self,
                    )@[k],
                r is None ==> self.entries@ == old(self).entries@,
                r matches Some(o) ==> old(self)@.contains_key(key@) && o@ == old(self)@[key@],
            decreases self.entries@.len() - i,
        {
            if bytes_eq(self.entries[i].0.as_slice(), key) {
                proof {
                    let es = self.entries@;
                    lemma_first_index_is(es, key@, i as int);
                    let t = es.remove(i as int);
                    assert forall|k: Seq<u8>| k != key@ implies #[trigger] entries_map(t).contains_key(k)
                        == entries_map(es).contains_key(k) by {
                        lemma_entries_remove(es, i as int, k);
                    }
                    assert forall|k: Seq<u8>|
                        k != key@ && entries_map(es).contains_key(k) implies #[trigger] entries_map(t)[k]
                        == entries_map(es)[k] by {
                        lemma_entries_remove(es, i as int, k);
                    }
                }
                let e = self.entries.remove(i);
                if r.is_none() {
                    r = Some(e.1);
                }
            } else {
                i += 1;
            }
        }
        proof {
            lemma_first_index_none(self.entries@, key@);
            assert(final(self)@ =~= old(self)@.remove(key@));
        }
        r
    }

    /// Takes over every entry of another dictionary, in place of what was
    /// there under the same key.
    pub fn merge_from(&mut self, other: &Dictionary)
        ensures
            final(self)@ == old(self)@.union_prefer_right(other@),
    {
        let mut i: usize = 0;
        while i < other.entries.len()
            invariant
                i <= other.entries@.len(),
                forall|k: Seq<u8>|
                    self@.contains_key(k) <==> old(self)@.contains_key(k) || 0 <= first_index(
                        other.entries@,
                        k,
                    ) < i,
                forall|k: Seq<u8>|
                    self@.contains_key(k) ==> self@[k] == (if 0 <= first_index(other.entries@, k) < i {
                        other@[k]
                    } else {
                        old(self)@[k]
                    }),
            decreases other.entries@.len() - i,
        {
            let ghost before = self@;
            let ghost ki = other.entries@[i as int].0@;
            proof {
                lemma_first_index(other.entries@, ki);
            }
            match other.find(other.entries[i].0.as_slice()) {
                Some(j) => {
                    if j == i {
                        let k = copy_bytes(other.entries[i].0.as_slice());
                        let v = other.entries[i].1.clone();
                        self.set(k, v);
                    }
                },
                None => {},
            }
            proof {
                assert forall|k: Seq<u8>|
                    #![trigger first_index(other.entries@, k)]
                    (0 <= first_index(other.entries@, k) < i + 1) == (0 <= first_index(
                        other.entries@,
                        k,
                    ) < i || (k == ki && first_index(other.entries@, ki) == i)) by {
                    lemma_first_index(other.entries@, k);
                }
            }
            i += 1;
        }
        proof {
            assert forall|k: Seq<u8>|
                #![trigger first_index(other.entries@, k)]
                other@.contains_key(k) == (0 <= first_index(other.entries@, k)
                    < other.entries@.len()) by {
                lemma_first_index(other.entries@, k);
            }
            assert(final(self)@ =~= old(self)@.union_prefer_right(other@));
        }
    }
}

/// What a dictionary holds under a key.
pub open spec fn dict_get(d: Map<Seq<u8>, Value>, key: Seq<u8>) -> Result<Value, PdfError> {
    if d.contains_key(key) {
        Ok(d[key])
    } else {
        Err(PdfError::DictKey)
    }
}

/// The error of reading an object as a kind that it is not of.
pub open spec fn type_error(v: Value, expected: ObjectKind) -> PdfError {
    PdfError::ObjectType { expected, found: v.kind() }
}

/// The type that a dictionary names: its `Type` where that is a name, else
/// `Linearized` where it has that key.
pub open spec fn dict_type(d: Map<Seq<u8>, Value>) -> Result<Seq<u8>, PdfError> {
    if d.contains_key(name("Type")) && d[name("Type")] is Name {
        Ok(d[name("Type")]->Name_0)
    } else if d.contains_key(name("Linearized")) {
        Ok(name("Linearized"))
    } else {
        Err(PdfError::DictKey)
    }
}

/// Whether a dictionary holds the given name under a key.
pub open spec fn dict_has_name(d: Map<Seq<u8>, Value>, key: Seq<u8>, n: Seq<u8>) -> bool {
    d.contains_key(key) && d[key] == Value::Name(n)
}

impl Value {
    /// The kind of the object.
    pub open spec fn kind(self) -> ObjectKind {
        match self {
            Value::Null => ObjectKind::Null,
            Value::Boolean(_) => ObjectKind::Boolean,
            Value::Integer(_) => ObjectKind::Integer,
            Value::Real(_) => ObjectKind::Real,
            Value::Name(_) => ObjectKind::Name,
            Value::String(_, _) => ObjectKind::String,
            Value::Array(_) => ObjectKind::Array,
            Value::Dictionary(_) => ObjectKind::Dictionary,
            Value::Stream(_) => ObjectKind::Stream,
            Value::Reference(_) => ObjectKind::Reference,
        }
    }

    /// The truth value that the object is.
    pub open spec fn as_bool(self) -> Result<bool, PdfError> {
        match self {
            Value::Boolean(b) => Ok(b),
            _ => Err(type_error(self, ObjectKind::Boolean)),
        }
    }

    /// The integer that the object is.
    pub open spec fn as_i64(self) -> Result<i64, PdfError> {
        match self {
            Value::Integer(i) => Ok(i),
            _ => Err(type_error(self, ObjectKind::Integer)),
        }
    }

    /// The id that the object refers to.
    pub open spec fn as_reference(self) -> Result<ObjectId, PdfError> {
        match self {
            Value::Reference(id) => Ok(id),
            _ => Err(type_error(self, ObjectKind::Reference)),
        }
    }

    /// The name that the object is.
    pub open spec fn as_name(self) -> Result<Seq<u8>, PdfError> {
        match self {
            Value::Name(n) => Ok(n),
            _ => Err(type_error(self, ObjectKind::Name)),
        }
    }

    /// The members of the array that the object is.
    pub open spec fn as_array(self) -> Result<Seq<Value>, PdfError> {
        match self {
            Value::Array(a) => Ok(a),
            _ => Err(type_error(self, ObjectKind::Array)),
        }
    }

    /// The dictionary that the object is.
    pub open spec fn as_dict(self) -> Result<Map<Seq<u8>, Value>, PdfError> {
        match self {
            Value::Dictionary(d) => Ok(d),
            _ => Err(type_error(self, ObjectKind::Dictionary)),
        }
    }

    /// The stream that the object is.
    pub open spec fn as_stream(self) -> Result<StreamValue, PdfError> {
        match self {
            Value::Stream(s) => Ok(s),
            _ => Err(type_error(self, ObjectKind::Stream)),
        }
    }

    /// The type that a dictionary or a stream names.
    pub open spec fn declared_type(self) -> Result<Seq<u8>, PdfError> {
        match self {
            Value::Dictionary(d) => dict_type(d),
            Value::Stream(s) => dict_type(s.dict),
            _ => Err(type_error(self, ObjectKind::Dictionary)),
        }
    }
}

impl Dictionary {
    /// The type that the dictionary names.
    pub fn get_type(&self) -> (r: Result<&[u8], PdfError>)
        ensures
            r matches Ok(n) ==> dict_type(self@) == Ok::<Seq<u8>, PdfError>(n@),
            r matches Err(e) ==> dict_type(self@) == Err::<Seq<u8>, PdfError>(e),
    {
        if let Ok(t) = self.get("Type".as_bytes()) {
            if let Object::Name(n) = t {
                return Ok(n.as_slice());
            }
        }
        if self.has("Linearized".as_bytes()) {
            Ok("Linearized".as_bytes())
        } else {
            Err(PdfError::DictKey)
        }
    }

    /// Whether the dictionary holds the given name under the key.
    pub fn has_name(&self, key: &str, n: &str) -> (r: bool)
        ensures
            r == dict_has_name(self@, name(key), name(n)),
    {
        match self.get(key.as_bytes()) {
            Ok(Object::Name(v)) => bytes_eq(v.as_slice(), n.as_bytes()),
            _ => false,
        }
    }
}

impl Object {
    /// The object that is the given name.
    pub fn name(s: &str) -> (r: Object)
        ensures
            r@ == Value::Name(name(s)),
    {
        Object::Name(copy_bytes(s.as_bytes()))
    }

    /// The kind of the object.
    pub fn kind(&self) -> (r: ObjectKind)
        ensures
            r == self@.kind(),
    {
        match self {
            Object::Null => ObjectKind::Null,
            Object::Boolean(_) => ObjectKind::Boolean,
            Object::Integer(_) => ObjectKind::Integer,
            Object::Real(_) => ObjectKind::Real,
            Object::Name(_) => ObjectKind::Name,
            Object::String(_, _) => ObjectKind::String,
            Object::Array(_) => ObjectKind::Array,
            Object::Dictionary(_) => ObjectKind::Dictionary,
            Object::Stream(_) => ObjectKind::Stream,
            Object::Reference(_) => ObjectKind::Reference,
        }
    }

    /// The truth value that the object is.
    pub fn as_bool(&self) -> (r: Result<bool, PdfError>)
        ensures
            r == self@.as_bool(),
    {
        match self {
            Object::Boolean(b) => Ok(*b),
            _ => Err(PdfError::ObjectType { expected: ObjectKind::Boolean, found: self.kind() }),
        }
    }

    /// The integer that the object is.
    pub fn as_i64(&self) -> (r: Result<i64, PdfError>)
        ensures
            r == self@.as_i64(),
    {
        match self {
            Object::Integer(i) => Ok(*i),
            _ => Err(PdfError::ObjectType { expected: ObjectKind::Integer, found: self.kind() }),
        }
    }

    /// The id that the object refers to.
    pub fn as_reference(&self) -> (r: Result<ObjectId, PdfError>)
        ensures
            r == self@.as_reference(),
    {
        match self {
            Object::Reference(id) => Ok(*id),
            _ => Err(PdfError::ObjectType { expected: ObjectKind::Reference, found: self.kind() }),
        }
    }

    /// The name that the object is.
    pub fn as_name(&self) -> (r: Result<&[u8], PdfError>)
        ensures
            r matches Ok(n) ==> self@.as_name() == Ok::<Seq<u8>, PdfError>(n@),
            r matches Err(e) ==> self@.as_name() == Err::<Seq<u8>, PdfError>(e),
    {
        match self {
            Object::Name(n) => Ok(n.as_slice()),
            _ => Err(PdfError::ObjectType { expected: ObjectKind::Name, found: self.kind() }),
        }
    }

    /// The members of the array that the object is.
    pub fn as_array(&self) -> (r: Result<&Vec<Object>, PdfError>)
        ensures
            r matches Ok(a) ==> self@.as_array() == Ok::<Seq<Value>, PdfError>(array_value(a@)),
            r matches Err(e) ==> self@.as_array() == Err::<Seq<Value>, PdfError>(e),
    {
        match self {
            Object::Array(a) => Ok(a),
            _ => Err(PdfError::ObjectType { expected: ObjectKind::Array, found: self.kind() }),
        }
    }

    /// The dictionary that the object is.
    pub fn as_dict(&self) -> (r: Result<&Dictionary, PdfError>)
        ensures
            r matches Ok(d) ==> self@.as_dict() == Ok::<Map<Seq<u8>, Value>, PdfError>(d@),
            r matches Err(e) ==> self@.as_dict() == Err::<Map<Seq<u8>, Value>, PdfError>(e),
    {
        match self {
            Object::Dictionary(d) => Ok(d),
            _ => Err(PdfError::ObjectType { expected: ObjectKind::Dictionary, found: self.kind() }),
        }
    }

    /// The stream that the object is.
    pub fn as_stream(&self) -> (r: Result<&Stream, PdfError>)
        ensures
            r matches Ok(s) ==> self@.as_stream() == Ok::<StreamValue, PdfError>(s@),
            r matches Err(e) ==> self@.as_stream() == Err::<StreamValue, PdfError>(e),
    {
        match self {
            Object::Stream(s) => Ok(s),
            _ => Err(PdfError::ObjectType { expected: ObjectKind::Stream, found: self.kind() }),
        }
    }

    /// The type that a dictionary or a stream names.
    pub fn declared_type(&self) -> (r: Result<&[u8], PdfError>)
        ensures
            r matches Ok(n) ==> self@.declared_type() == Ok::<Seq<u8>, PdfError>(n@),
            r matches Err(e) ==> self@.declared_type() == Err::<Seq<u8>, PdfError>(e),
    {
        match self {
            Object::Dictionary(d) => d.get_type(),
            Object::Stream(s) => s.dict.get_type(),
            _ => Err(PdfError::ObjectType { expected: ObjectKind::Dictionary, found: self.kind() }),
        }
    }
}

/// Appends an object to a list.
pub fn push_object(list: &mut Vec<Object>, o: Object)
    ensures
        array_value(final(list)@) == array_value(old(list)@).push(o@),
        final(list)@.len() == old(list)@.len() + 1,
{
    list.push(o);
    proof {
        assert(array_value(list@) =~= array_value(old(list)@).push(o@));
    }
}

/// The values of two lists of objects, one after the other.
pub proof fn lemma_array_value_add(a: Seq<Object>, b: Seq<Object>)
    ensures
        array_value(a + b) == array_value(a) + array_value(b),
{
    assert(array_value(a + b) =~= array_value(a) + array_value(b));
}

} // verus!
