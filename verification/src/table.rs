//! The object table of a document: objects by their ids, in the order of the ids.

use crate::object::{Object, ObjectId};
use vstd::prelude::*;

verus! {

/// The order of object ids: by object number, then by generation.
pub open spec fn id_lt(a: ObjectId, b: ObjectId) -> bool {
    a.0 < b.0 || (a.0 == b.0 && a.1 < b.1)
}

/// Whether one object id comes before another.
pub fn id_before(a: ObjectId, b: ObjectId) -> (r: bool)
    ensures
        r == id_lt(a, b),
{
    a.0 < b.0 || (a.0 == b.0 && a.1 < b.1)
}

/// Whether two object ids are the same.
pub fn id_eq(a: ObjectId, b: ObjectId) -> (r: bool)
    ensures
        r == (a == b),
{
    a.0 == b.0 && a.1 == b.1
}

/// Whether a sequence of ids rises strictly.
pub open spec fn ids_rise(ids: Seq<ObjectId>) -> bool {
    forall|i: int, j: int| 0 <= i < j < ids.len() ==> id_lt(ids[i], ids[j])
}

/// Items by object ids.
#[derive(Debug)]
pub struct IdTable<T> {
    entries: Vec<(ObjectId, T)>,
}

/// Objects by their ids.
pub type ObjectTable = IdTable<Object>;

spec fn rises<T>(es: Seq<(ObjectId, T)>) -> bool {
    forall|i: int, j: int| 0 <= i < j < es.len() ==> id_lt((#[trigger] es[i]).0, (#[trigger] es[j]).0)
}

spec fn has_id<T>(es: Seq<(ObjectId, T)>, id: ObjectId) -> bool {
    exists|i: int| 0 <= i < es.len() && (#[trigger] es[i]).0 == id
}

spec fn place_of<T>(es: Seq<(ObjectId, T)>, id: ObjectId) -> int {
    choose|i: int| 0 <= i < es.len() && (#[trigger] es[i]).0 == id
}

spec fn table_map<T: View>(es: Seq<(ObjectId, T)>) -> Map<ObjectId, T::V> {
    Map::new(|id: ObjectId| has_id(es, id), |id: ObjectId| es[place_of(es, id)].1@)
}

proof fn lemma_entry<T: View>(es: Seq<(ObjectId, T)>, i: int)
    requires
        rises(es),
        0 <= i < es.len(),
    ensures
        has_id(es, es[i].0),
        place_of(es, es[i].0) == i,
        table_map(es).contains_key(es[i].0),
        table_map(es)[es[i].0] == es[i].1@,
{
    let id = es[i].0;
    let c = place_of(es, id);
    if c < i {
        assert(id_lt(es[c].0, es[i].0));
    } else if i < c {
        assert(id_lt(es[i].0, es[c].0));
    }
}

proof fn lemma_update<T: View>(es: Seq<(ObjectId, T)>, p: int, e: (ObjectId, T))
    requires
        rises(es),
        0 <= p < es.len(),
        es[p].0 == e.0,
    ensures
        rises(es.update(p, e)),
        table_map(es.update(p, e)) == table_map(es).insert(e.0, e.1@),
{
    let t = es.update(p, e);
    assert forall|i: int, j: int| 0 <= i < j < t.len() implies id_lt(
        (#[trigger] t[i]).0,
        (#[trigger] t[j]).0,
    ) by {
        assert(t[i].0 == es[i].0 && t[j].0 == es[j].0);
    }
    assert forall|id: ObjectId| has_id(t, id) == (has_id(es, id) || id == e.0) by {
        if has_id(t, id) {
            let c = place_of(t, id);
            assert(es[c].0 == id);
        }
        if has_id(es, id) {
            let c = place_of(es, id);
            assert(t[c].0 == id);
        }
        if id == e.0 {
            assert(t[p].0 == id);
        }
    }
    assert forall|id: ObjectId| has_id(t, id) implies #[trigger] table_map(t)[id] == table_map(
        es,
    ).insert(e.0, e.1@)[id] by {
        let c = place_of(t, id);
        lemma_entry(t, c);
        lemma_entry(es, c);
    }
    assert(table_map(t) =~= table_map(es).insert(e.0, e.1@));
}

proof fn lemma_insert<T: View>(es: Seq<(ObjectId, T)>, p: int, e: (ObjectId, T))
    requires
        rises(es),
        0 <= p <= es.len(),
        forall|j: int| 0 <= j < p ==> id_lt((#[trigger] es[j]).0, e.0),
        forall|j: int| p <= j < es.len() ==> id_lt(e.0, (#[trigger] es[j]).0),
    ensures
        rises(es.insert(p, e)),
        table_map(es.insert(p, e)) == table_map(es).insert(e.0, e.1@),
{
    let t = es.insert(p, e);
    assert forall|i: int, j: int| 0 <= i < j < t.len() implies id_lt(
        (#[trigger] t[i]).0,
        (#[trigger] t[j]).0,
    ) by {
        if i < p && j > p {
            assert(t[i] == es[i] && t[j] == es[j - 1]);
            if i < j - 1 {
                assert(id_lt(es[i].0, es[j - 1].0));
            }
        } else if j < p {
            assert(t[i] == es[i] && t[j] == es[j]);
        } else if j == p {
            assert(t[i] == es[i]);
        } else if i == p {
            assert(t[j] == es[j - 1]);
        } else {
            assert(t[i] == es[i - 1] && t[j] == es[j - 1]);
        }
    }
    assert forall|id: ObjectId| has_id(t, id) == (has_id(es, id) || id == e.0) by {
        if has_id(t, id) {
            let c = place_of(t, id);
            if c < p {
                assert(es[c].0 == id);
            } else if c > p {
                assert(es[c - 1].0 == id);
            }
        }
        if has_id(es, id) {
            let c = place_of(es, id);
            if c < p {
                assert(t[c].0 == id);
            } else {
                assert(t[c + 1].0 == id);
            }
        }
        if id == e.0 {
            assert(t[p].0 == id);
        }
    }
    assert forall|id: ObjectId| has_id(t, id) implies #[trigger] table_map(t)[id] == table_map(
        es,
    ).insert(e.0, e.1@)[id] by {
        let c = place_of(t, id);
        lemma_entry(t, c);
        if c < p {
            lemma_entry(es, c);
        } else if c > p {
            lemma_entry(es, c - 1);
        }
    }
    assert(table_map(t) =~= table_map(es).insert(e.0, e.1@));
}

impl<T> IdTable<T> {
    #[verifier::type_invariant]
    spec fn sorted(self) -> bool {
        rises(self.entries@)
    }
}

impl<T: View> IdTable<T> {
    /// The ids of the table, in their order.
    pub closed spec fn ids(self) -> Seq<ObjectId> {
        Seq::new(self.entries@.len(), |i: int| self.entries@[i].0)
    }

    /// The mapping from ids to objects that the table stands for.
    pub closed spec fn value(self) -> Map<ObjectId, T::V> {
        table_map(self.entries@)
    }
}

impl<T: View> View for IdTable<T> {
    type V = Map<ObjectId, T::V>;

    open spec fn view(&self) -> Map<ObjectId, T::V> {
        self.value()
    }
}

/// Whether a sequence of ids lists the keys of a mapping, each once, in the
/// order of the ids.
pub open spec fn lists_keys<V>(ids: Seq<ObjectId>, m: Map<ObjectId, V>) -> bool {
    &&& ids_rise(ids)
    &&& forall|i: int| 0 <= i < ids.len() ==> m.contains_key(#[trigger] ids[i])
    &&& forall|id: ObjectId|
        m.contains_key(id) ==> exists|i: int| 0 <= i < ids.len() && #[trigger] ids[i] == id
}

impl<T: View> IdTable<T> {
    proof fn lemma_lists_keys(self)
        requires
            self.sorted(),
        ensures
            lists_keys(self.ids(), self@),
            self@.dom().finite(),
            self@.dom().len() == self.entries@.len(),
    {
        let es = self.entries@;
        let ids = self.ids();
        assert forall|i: int| 0 <= i < ids.len() implies self@.contains_key(#[trigger] ids[i]) by {
            lemma_entry(es, i);
        }
        assert forall|id: ObjectId| self@.contains_key(id) implies exists|i: int|
            0 <= i < ids.len() && #[trigger] ids[i] == id by {
            let c = place_of(es, id);
            assert(ids[c] == id);
        }
        assert forall|i: int, j: int| 0 <= i < ids.len() && 0 <= j < ids.len() && i != j implies ids[i]
            != ids[j] by {
            if i < j {
                assert(id_lt(es[i].0, es[j].0));
            } else {
                assert(id_lt(es[j].0, es[i].0));
            }
        }
        ids.unique_seq_to_set();
        assert(ids.to_set() =~= self@.dom());
    }

    /// A table without objects.
    pub fn new() -> (t: Self)
        ensures
            t@ == Map::<ObjectId, T::V>::empty(),
    {
        let t = IdTable { entries: Vec::new() };
        proof {
            assert(t@ =~= Map::<ObjectId, T::V>::empty());
        }
        t
    }

    /// The number of objects.
    pub fn len(&self) -> (n: usize)
        ensures
            n == self.ids().len(),
            n == self@.dom().len(),
            self@.dom().finite(),
            lists_keys(self.ids(), self@),
    {
        proof {
            use_type_invariant(self);
            self.lemma_lists_keys();
        }
        self.entries.len()
    }

    /// The id at the given place in the order of the ids.
    pub fn id_at(&self, i: usize) -> (id: ObjectId)
        requires
            i < self.ids().len(),
        ensures
            id == self.ids()[i as int],
            self@.contains_key(id),
    {
        proof {
            use_type_invariant(self);
            lemma_entry(self.entries@, i as int);
        }
        self.entries[i].0
    }

    /// The object at the given place in the order of the ids.
    pub fn object_at(&self, i: usize) -> (o: &T)
        requires
            i < self.ids().len(),
        ensures
            o@ == self@[self.ids()[i as int]],
    {
        proof {
            use_type_invariant(self);
            lemma_entry(self.entries@, i as int);
        }
        &self.entries[i].1
    }

    /// The first place whose id does not come before the given one.
    fn lower_bound(&self, id: ObjectId) -> (p: usize)
        ensures
            p <= self.entries@.len(),
            forall|j: int| 0 <= j < p ==> id_lt((#[trigger] self.entries@[j]).0, id),
            forall|j: int| p <= j < self.entries@.len() ==> !id_lt((#[trigger] self.entries@[j]).0, id),
    {
        proof {
            use_type_invariant(self);
        }
        let mut lo: usize = 0;
        let mut hi: usize = self.entries.len();
        while lo < hi
            invariant
                rises(self.entries@),
                lo <= hi <= self.entries@.len(),
                forall|j: int| 0 <= j < lo ==> id_lt((#[trigger] self.entries@[j]).0, id),
                forall|j: int|
                    hi <= j < self.entries@.len() ==> !id_lt((#[trigger] self.entries@[j]).0, id),
            decreases hi - lo,
        {
            let mid = lo + (hi - lo) / 2;
            if id_before(self.entries[mid].0, id) {
                proof {
                    assert forall|j: int| 0 <= j < mid + 1 implies id_lt(
                        (#[trigger] self.entries@[j]).0,
                        id,
                    ) by {
                        if j < mid {
                            assert(id_lt(self.entries@[j].0, self.entries@[mid as int].0));
                        }
                    }
                }
                lo = mid + 1;
            } else {
                proof {
                    assert forall|j: int| mid <= j < self.entries@.len() implies !id_lt(
                        (#[trigger] self.entries@[j]).0,
                        id,
                    ) by {
                        if mid < j {
                            assert(id_lt(self.entries@[mid as int].0, self.entries@[j].0));
                        }
                    }
                }
                hi = mid;
            }
        }
        lo
    }

    /// Whether the table has an object with the id.
    pub fn contains(&self, id: ObjectId) -> (r: bool)
        ensures
            r == self@.contains_key(id),
    {
        self.get(id).is_some()
    }

    /// The object with the id.
    pub fn get(&self, id: ObjectId) -> (r: Option<&T>)
        ensures
            r matches Some(o) ==> self@.contains_key(id) && o@ == self@[id],
            r is None ==> !self@.contains_key(id),
    {
        let p = self.lower_bound(id);
        proof {
            use_type_invariant(self);
        }
        if p < self.entries.len() && id_eq(self.entries[p].0, id) {
            proof {
                lemma_entry(self.entries@, p as int);
            }
            Some(&self.entries[p].1)
        } else {
            proof {
                if self@.contains_key(id) {
                    let c = place_of(self.entries@, id);
                    if c < p {
                        assert(id_lt(self.entries@[c].0, id));
                    } else {
                        assert(!id_lt(self.entries@[c].0, id));
                        if p < c {
                            assert(id_lt(self.entries@[p as int].0, self.entries@[c].0));
                        }
                    }
                }
            }
            None
        }
    }

    /// Puts an object under an id, in place of the one that was there.
    pub fn insert(&mut self, id: ObjectId, object: T)
        ensures
            final(self)@ == old(self)@.insert(id, object@),
    {
        let p = self.lower_bound(id);
        proof {
            use_type_invariant(&*self);
        }
        let found = p < self.entries.len() && id_eq(self.entries[p].0, id);
        let mut es: Vec<(ObjectId, T)> = Vec::new();
        core::mem::swap(&mut self.entries, &mut es);
        if found {
            proof {
                lemma_update(es@, p as int, (id, object));
            }
            es[p] = (id, object);
        } else {
            proof {
                let s = es@;
                assert forall|j: int| p <= j < s.len() implies id_lt(id, (#[trigger] s[j]).0) by {
                    assert(!id_lt(s[j].0, id));
                    if j > p {
                        assert(id_lt(s[p as int].0, s[j].0));
                    }
                }
                lemma_insert(s, p as int, (id, object));
            }
            es.insert(p, (id, object));
        }
        self.entries = es;
    }
}

/// Two ids are the same, or one comes before the other, and not the other
/// way round.
pub proof fn lemma_id_order(a: ObjectId, b: ObjectId, c: ObjectId)
    ensures
        !id_lt(a, a),
        a == b || id_lt(a, b) || id_lt(b, a),
        id_lt(a, b) ==> !id_lt(b, a),
        id_lt(a, b) && id_lt(b, c) ==> id_lt(a, c),
{
}

/// Two lists that list the keys of one mapping agree up to place `n`.
proof fn lemma_lists_agree<V>(a: Seq<ObjectId>, b: Seq<ObjectId>, m: Map<ObjectId, V>, n: int)
    requires
        lists_keys(a, m),
        lists_keys(b, m),
        0 <= n <= a.len(),
        n <= b.len(),
    ensures
        forall|k: int| 0 <= k < n ==> a[k] == b[k],
    decreases n,
{
    if n > 0 {
        lemma_lists_agree(a, b, m, n - 1);
        let i = n - 1;
        assert(m.contains_key(a[i]));
        assert(m.contains_key(b[i]));
        let j = choose|j: int| 0 <= j < b.len() && #[trigger] b[j] == a[i];
        let l = choose|l: int| 0 <= l < a.len() && #[trigger] a[l] == b[i];
        lemma_id_order(a[i], b[i], a[i]);
        if j < i {
            assert(a[j] == b[j]);
            assert(id_lt(a[j], a[i]));
        } else if l < i {
            assert(a[l] == b[l]);
            assert(id_lt(b[l], b[i]));
        } else {
            if j > i {
                assert(id_lt(b[i], b[j]));
            }
            if l > i {
                assert(id_lt(a[i], a[l]));
            }
        }
    }
}

/// There is one list that lists the keys of a mapping in the order of the
/// ids.
pub proof fn lemma_lists_keys_unique<V>(a: Seq<ObjectId>, b: Seq<ObjectId>, m: Map<ObjectId, V>)
    requires
        lists_keys(a, m),
        lists_keys(b, m),
    ensures
        a == b,
{
    if a.len() <= b.len() {
        lemma_lists_agree(a, b, m, a.len() as int);
        if a.len() < b.len() {
            let extra = b[a.len() as int];
            assert(m.contains_key(extra));
            let l = choose|l: int| 0 <= l < a.len() && #[trigger] a[l] == extra;
            assert(b[l] == a[l]);
            assert(id_lt(b[l], b[a.len() as int]));
            lemma_id_order(extra, extra, extra);
        }
    } else {
        lemma_lists_agree(a, b, m, b.len() as int);
        let extra = a[b.len() as int];
        assert(m.contains_key(extra));
        let l = choose|l: int| 0 <= l < b.len() && #[trigger] b[l] == extra;
        assert(b[l] == a[l]);
        assert(id_lt(a[l], a[b.len() as int]));
        lemma_id_order(extra, extra, extra);
    }
    assert(a =~= b);
}

} // verus!
