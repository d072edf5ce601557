//! Walking the structure tree: every element that is reached from a root,
//! breadth first, each once.

use crate::document::{Document, get_dictionary};
use crate::helpers::kids_of;
use crate::object::{array_value, Object, ObjectId, Value};
use crate::table::IdTable;
use vstd::prelude::*;
use vstd::set_lib::lemma_len_subset;

verus! {

/// The ids that a list of children refers to, in their order.
pub open spec fn refs_in(kids: Seq<Value>) -> Seq<ObjectId>
    decreases kids.len(),
{
    if kids.len() == 0 {
        Seq::empty()
    } else {
        match kids.last() {
            Value::Reference(id) => refs_in(kids.drop_last()).push(id),
            _ => refs_in(kids.drop_last()),
        }
    }
}

/// The ids that the children of the element under `id` refer to.
pub open spec fn child_refs(objects: Map<ObjectId, Value>, id: ObjectId) -> Seq<ObjectId> {
    match get_dictionary(objects, id) {
        Ok(d) => refs_in(kids_of(d)),
        Err(_) => Seq::empty(),
    }
}

/// The list of nodes after those of `ids` were added that the document has
/// and the list did not have.
pub open spec fn enqueue(
    objects: Map<ObjectId, Value>,
    nodes: Seq<ObjectId>,
    ids: Seq<ObjectId>,
) -> Seq<ObjectId>
    decreases ids.len(),
{
    if ids.len() == 0 {
        nodes
    } else {
        let before = enqueue(objects, nodes, ids.drop_last());
        if objects.contains_key(ids.last()) && !before.contains(ids.last()) {
            before.push(ids.last())
        } else {
            before
        }
    }
}

/// The walk continued: the nodes from place `head` on are still to be
/// visited, in at most `fuel` steps.
pub open spec fn walk_from(
    objects: Map<ObjectId, Value>,
    nodes: Seq<ObjectId>,
    head: nat,
    fuel: nat,
) -> Seq<ObjectId>
    decreases fuel,
{
    if head >= nodes.len() || fuel == 0 {
        nodes
    } else {
        walk_from(
            objects,
            enqueue(objects, nodes, child_refs(objects, nodes[head as int])),
            head + 1,
            (fuel - 1) as nat,
        )
    }
}

/// The elements that are reached from a root, breadth first: the root, then
/// what its children refer to, and so on, each id once and only ids that the
/// document has. Each of the document's objects is visited at most once, so
/// as many steps as it has objects are enough.
pub open spec fn walk(objects: Map<ObjectId, Value>, root: ObjectId) -> Seq<ObjectId> {
    if objects.contains_key(root) {
        walk_from(objects, seq![root], 0, objects.dom().len())
    } else {
        Seq::empty()
    }
}

/// The ids that a list of children refers to.
pub fn references_in(kids: &Vec<Object>) -> (r: Vec<ObjectId>)
    ensures
        r@ == refs_in(array_value(kids@)),
{
    let mut r: Vec<ObjectId> = Vec::new();
    let mut i: usize = 0;
    let ghost vals = array_value(kids@);
    while i < kids.len()
        invariant
            i <= kids@.len(),
            vals == array_value(kids@),
            r@ == refs_in(vals.take(i as int)),
        decreases kids@.len() - i,
    {
        proof {
            assert(vals.take(i + 1).drop_last() =~= vals.take(i as int));
            assert(vals.take(i + 1).last() == kids@[i as int]@);
        }
        if let Object::Reference(id) = &kids[i] {
            r.push(*id);
        }
        i += 1;
    }
    proof {
        assert(vals.take(kids@.len() as int) =~= vals);
    }
    r
}

/// The ids that the children of the element under `id` refer to.
pub fn child_references(doc: &Document, id: ObjectId) -> (r: Vec<ObjectId>)
    ensures
        r@ == child_refs(doc@.objects, id),
{
    match doc.get_dictionary(id) {
        Ok(d) => match d.get("K".as_bytes()) {
            Ok(Object::Array(a)) => references_in(a),
            Ok(Object::Reference(id)) => {
                let mut r: Vec<ObjectId> = Vec::new();
                r.push(*id);
                proof {
                    reveal_with_fuel(refs_in, 2);
                    assert(seq![d@[crate::bytes::name("K")]].drop_last() =~= Seq::<Value>::empty());
                }
                r
            },
            Ok(_) => {
                proof {
                    reveal_with_fuel(refs_in, 2);
                    assert(seq![d@[crate::bytes::name("K")]].drop_last() =~= Seq::<Value>::empty());
                }
                Vec::new()
            },
            Err(_) => Vec::new(),
        },
        Err(_) => Vec::new(),
    }
}

spec fn walk_inv(objects: Map<ObjectId, Value>, nodes: Seq<ObjectId>, seen: Map<ObjectId, ()>) -> bool {
    &&& nodes.no_duplicates()
    &&& forall|i: int| 0 <= i < nodes.len() ==> objects.contains_key(#[trigger] nodes[i])
    &&& forall|id: ObjectId| seen.contains_key(id) <==> nodes.contains(id)
}

proof fn lemma_nodes_bound(objects: Map<ObjectId, Value>, nodes: Seq<ObjectId>)
    requires
        objects.dom().finite(),
        nodes.no_duplicates(),
        forall|i: int| 0 <= i < nodes.len() ==> objects.contains_key(#[trigger] nodes[i]),
    ensures
        nodes.len() <= objects.dom().len(),
{
    nodes.unique_seq_to_set();
    assert(nodes.to_set().subset_of(objects.dom())) by {
        assert forall|id: ObjectId| nodes.to_set().contains(id) implies objects.dom().contains(id) by {
            let i = choose|i: int| 0 <= i < nodes.len() && nodes[i] == id;
            assert(objects.contains_key(nodes[i]));
        }
    }
    lemma_len_subset(nodes.to_set(), objects.dom());
}

/// The elements that are reached from a root, breadth first: each once, and
/// with a node everything that its children refer to in the document.
pub fn traverse_struct_tree(doc: &Document, root_id: ObjectId) -> (nodes: Vec<ObjectId>)
    ensures
        nodes@ == walk(doc@.objects, root_id),
        nodes@.no_duplicates(),
        closed_up_to(doc@.objects, nodes@, nodes@.len() as int),
{
    let mut nodes: Vec<ObjectId> = Vec::new();
    let count = doc.objects.len();
    proof {
        lemma_walk_closed(doc@.objects, root_id);
    }
    if !doc.objects.contains(root_id) {
        return nodes;
    }
    let mut seen: IdTable<()> = IdTable::new();
    nodes.push(root_id);
    seen.insert(root_id, ());
    let mut head: usize = 0;
    let ghost objects = doc@.objects;
    proof {
        assert(nodes@ =~= seq![root_id]);
        assert(nodes@[0] == root_id);
        assert forall|id: ObjectId| seen@.contains_key(id) <==> nodes@.contains(id) by {
            if nodes@.contains(id) {
                let i = choose|i: int| 0 <= i < nodes@.len() && nodes@[i] == id;
                assert(i == 0);
            }
        }
    }
    while head < nodes.len()
        invariant
            objects == doc@.objects,
            objects.dom().finite(),
            count == objects.dom().len(),
            head <= nodes@.len(),
            walk_inv(objects, nodes@, seen@),
            head <= count,
            walk(objects, root_id) == walk_from(objects, nodes@, head as nat, (count - head) as nat),
        decreases count - head,
    {
        proof {
            lemma_nodes_bound(objects, nodes@);
        }
        let refs = child_references(doc, nodes[head]);
        let ghost start = nodes@;
        let mut j: usize = 0;
        while j < refs.len()
            invariant
                objects == doc@.objects,
                j <= refs@.len(),
                head < nodes@.len(),
                head < start.len(),
                nodes@[head as int] == start[head as int],
                walk_inv(objects, nodes@, seen@),
                nodes@ == enqueue(objects, start, refs@.take(j as int)),
            decreases refs@.len() - j,
        {
            let id = refs[j];
            proof {
                assert(refs@.take(j + 1).drop_last() =~= refs@.take(j as int));
                assert(refs@.take(j + 1).last() == id);
            }
            if doc.objects.contains(id) && !seen.contains(id) {
                let ghost before = nodes@;
                nodes.push(id);
                seen.insert(id, ());
                proof {
                    assert forall|x: ObjectId| seen@.contains_key(x) <==> nodes@.contains(x) by {
                        if x == id {
                            assert(nodes@[before.len() as int] == id);
                        } else {
                            if before.contains(x) {
                                let i = choose|i: int| 0 <= i < before.len() && before[i] == x;
                                assert(nodes@[i] == x);
                            }
                            if nodes@.contains(x) {
                                let i = choose|i: int| 0 <= i < nodes@.len() && nodes@[i] == x;
                                assert(before[i] == x);
                            }
                        }
                    }
                    assert forall|a: int, b: int|
                        0 <= a < nodes@.len() && 0 <= b < nodes@.len() && a != b implies nodes@[a]
                        != nodes@[b] by {
                        if a < before.len() && b < before.len() {
                            assert(before[a] != before[b]);
                        } else if a < before.len() {
                            assert(before.contains(before[a]));
                        } else if b < before.len() {
                            assert(before.contains(before[b]));
                        }
                    }
                }
            }
            j += 1;
        }
        proof {
            assert(refs@.take(refs@.len() as int) =~= refs@);
        }
        head += 1;
    }
    nodes
}

/// The elements that are reached from a root, the deepest first: the walk
/// in reverse.
pub fn collect_all_node_ids(doc: &Document, id: ObjectId) -> (nodes: Vec<ObjectId>)
    ensures
        nodes@ == walk(doc@.objects, id).reverse(),
{
    let forward = traverse_struct_tree(doc, id);
    let mut nodes: Vec<ObjectId> = Vec::new();
    let mut i: usize = forward.len();
    while i > 0
        invariant
            i <= forward@.len(),
            nodes@.len() == forward@.len() - i,
            forall|k: int| 0 <= k < nodes@.len() ==> nodes@[k] == forward@[forward@.len() - 1 - k],
        decreases i,
    {
        i -= 1;
        nodes.push(forward[i]);
    }
    proof {
        assert(nodes@ =~= forward@.reverse());
    }
    nodes
}

/// Every id that a list of children refers to stands in it as a reference.
pub proof fn lemma_refs_in(kids: Seq<Value>, t: int)
    requires
        0 <= t < refs_in(kids).len(),
    ensures
        kids.contains(Value::Reference(refs_in(kids)[t])),
    decreases kids.len(),
{
    if kids.len() > 0 {
        let rest = kids.drop_last();
        if t < refs_in(rest).len() {
            lemma_refs_in(rest, t);
            let u = choose|u: int| 0 <= u < rest.len() && rest[u] == Value::Reference(refs_in(rest)[t]);
            assert(kids[u] == rest[u]);
            assert(refs_in(kids)[t] == refs_in(rest)[t]);
        } else {
            assert(kids[kids.len() - 1] == Value::Reference(refs_in(kids)[t]));
        }
    }
}

/// Adding nodes to the list keeps the nodes that were in it at their places
/// and adds each id at most once, and only ids of the given ones that the
/// document has.
pub proof fn lemma_enqueue(
    objects: Map<ObjectId, Value>,
    nodes: Seq<ObjectId>,
    ids: Seq<ObjectId>,
    inside: spec_fn(ObjectId) -> bool,
)
    requires
        nodes.no_duplicates(),
        forall|i: int| 0 <= i < nodes.len() ==> inside(#[trigger] nodes[i]),
        forall|t: int| 0 <= t < ids.len() && objects.contains_key(#[trigger] ids[t]) ==> inside(ids[t]),
    ensures
        enqueue(objects, nodes, ids).no_duplicates(),
        enqueue(objects, nodes, ids).len() >= nodes.len(),
        forall|i: int| 0 <= i < nodes.len() ==> enqueue(objects, nodes, ids)[i] == nodes[i],
        forall|i: int|
            0 <= i < enqueue(objects, nodes, ids).len() ==> inside(#[trigger] enqueue(objects, nodes, ids)[i]),
    decreases ids.len(),
{
    if ids.len() > 0 {
        let rest = ids.drop_last();
        assert forall|t: int| 0 <= t < rest.len() && objects.contains_key(#[trigger] rest[t]) implies inside(
            rest[t],
        ) by {
            assert(rest[t] == ids[t]);
        }
        lemma_enqueue(objects, nodes, rest, inside);
        let before = enqueue(objects, nodes, rest);
        let last = ids[ids.len() - 1];
        if objects.contains_key(last) && !before.contains(last) {
            let after = before.push(last);
            assert forall|a: int, b: int| 0 <= a < after.len() && 0 <= b < after.len() && a != b implies after[a]
                != after[b] by {
                if a < before.len() && b < before.len() {
                    assert(before[a] != before[b]);
                } else if a < before.len() {
                    assert(before.contains(before[a]));
                } else if b < before.len() {
                    assert(before.contains(before[b]));
                }
            }
        }
    }
}

/// The walk meets each id once, it goes on from the nodes that it has, and
/// it stays inside what the root is in and what is closed under the
/// references of the children.
pub proof fn lemma_walk_from(
    objects: Map<ObjectId, Value>,
    nodes: Seq<ObjectId>,
    head: nat,
    fuel: nat,
    inside: spec_fn(ObjectId) -> bool,
)
    requires
        nodes.no_duplicates(),
        forall|i: int| 0 <= i < nodes.len() ==> inside(#[trigger] nodes[i]),
        forall|n: ObjectId, t: int|
            inside(n) && 0 <= t < child_refs(objects, n).len() && objects.contains_key(
                #[trigger] child_refs(objects, n)[t],
            ) ==> inside(child_refs(objects, n)[t]),
    ensures
        walk_from(objects, nodes, head, fuel).no_duplicates(),
        walk_from(objects, nodes, head, fuel).len() >= nodes.len(),
        forall|i: int| 0 <= i < nodes.len() ==> walk_from(objects, nodes, head, fuel)[i] == nodes[i],
        forall|i: int|
            0 <= i < walk_from(objects, nodes, head, fuel).len() ==> inside(
                #[trigger] walk_from(objects, nodes, head, fuel)[i],
            ),
    decreases fuel,
{
    if head < nodes.len() && fuel > 0 {
        let n = nodes[head as int];
        let refs = child_refs(objects, n);
        assert(inside(n));
        assert forall|t: int| 0 <= t < refs.len() && objects.contains_key(#[trigger] refs[t]) implies inside(
            refs[t],
        ) by {
            assert(inside(child_refs(objects, n)[t]));
        }
        lemma_enqueue(objects, nodes, refs, inside);
        lemma_walk_from(objects, enqueue(objects, nodes, refs), head + 1, (fuel - 1) as nat, inside);
    }
}

/// Adding nodes to the list adds every one of the given ids that the
/// document has.
pub proof fn lemma_enqueue_has(
    objects: Map<ObjectId, Value>,
    nodes: Seq<ObjectId>,
    ids: Seq<ObjectId>,
    t: int,
)
    requires
        0 <= t < ids.len(),
        objects.contains_key(ids[t]),
    ensures
        enqueue(objects, nodes, ids).contains(ids[t]),
    decreases ids.len(),
{
    let rest = ids.drop_last();
    let before = enqueue(objects, nodes, rest);
    let after = enqueue(objects, nodes, ids);
    if t < ids.len() - 1 {
        lemma_enqueue_has(objects, nodes, rest, t);
        assert(rest[t] == ids[t]);
        let i = choose|i: int| 0 <= i < before.len() && before[i] == ids[t];
        assert(after[i] == before[i]);
    } else {
        if before.contains(ids[t]) {
            let i = choose|i: int| 0 <= i < before.len() && before[i] == ids[t];
            assert(after[i] == before[i]);
        } else {
            assert(after[before.len() as int] == ids[t]);
        }
    }
}

/// Whether the children of the first `head` nodes refer only to nodes of
/// the list, as far as they refer to objects of the document.
pub open spec fn closed_up_to(objects: Map<ObjectId, Value>, nodes: Seq<ObjectId>, head: int) -> bool {
    forall|i: int, t: int|
        0 <= i < head && i < nodes.len() && 0 <= t < child_refs(objects, nodes[i]).len()
            && objects.contains_key(#[trigger] child_refs(objects, nodes[i])[t]) ==> nodes.contains(
            child_refs(objects, nodes[i])[t],
        )
}

/// The walk does not run out of steps: where it goes on with enough steps
/// for the nodes that are still to be visited, it ends with a list in which
/// the children of every node refer only to nodes of the list.
pub proof fn lemma_walk_from_closed(
    objects: Map<ObjectId, Value>,
    nodes: Seq<ObjectId>,
    head: nat,
    fuel: nat,
)
    requires
        objects.dom().finite(),
        nodes.no_duplicates(),
        forall|i: int| 0 <= i < nodes.len() ==> objects.contains_key(#[trigger] nodes[i]),
        head <= nodes.len(),
        fuel + head >= objects.dom().len(),
        closed_up_to(objects, nodes, head as int),
    ensures
        closed_up_to(
            objects,
            walk_from(objects, nodes, head, fuel),
            walk_from(objects, nodes, head, fuel).len() as int,
        ),
    decreases fuel,
{
    lemma_nodes_bound(objects, nodes);
    if head < nodes.len() && fuel > 0 {
        let n = nodes[head as int];
        let refs = child_refs(objects, n);
        let inside = |id: ObjectId| objects.contains_key(id);
        lemma_enqueue(objects, nodes, refs, inside);
        let next = enqueue(objects, nodes, refs);
        assert(closed_up_to(objects, next, (head + 1) as int)) by {
            assert forall|i: int, t: int|
                0 <= i < head + 1 && i < next.len() && 0 <= t < child_refs(objects, next[i]).len()
                    && objects.contains_key(
                    #[trigger] child_refs(objects, next[i])[t],
                ) implies next.contains(child_refs(objects, next[i])[t]) by {
                assert(next[i] == nodes[i]);
                let c = child_refs(objects, nodes[i])[t];
                if i < head {
                    assert(nodes.contains(c));
                    let k = choose|k: int| 0 <= k < nodes.len() && nodes[k] == c;
                    assert(next[k] == nodes[k]);
                } else {
                    lemma_enqueue_has(objects, nodes, refs, t);
                }
            }
        }
        lemma_walk_from_closed(objects, next, head + 1, (fuel - 1) as nat);
    }
}

/// The walk reaches every element: the children of every node of the walk
/// refer only to nodes of the walk, as far as they refer to objects of the
/// document; and the walk meets each id once.
pub proof fn lemma_walk_closed(objects: Map<ObjectId, Value>, root: ObjectId)
    requires
        objects.dom().finite(),
    ensures
        walk(objects, root).no_duplicates(),
        objects.contains_key(root) ==> walk(objects, root).len() > 0 && walk(objects, root)[0] == root,
        forall|i: int|
            0 <= i < walk(objects, root).len() ==> objects.contains_key(#[trigger] walk(objects, root)[i]),
        closed_up_to(objects, walk(objects, root), walk(objects, root).len() as int),
{
    if objects.contains_key(root) {
        let start = seq![root];
        assert(start.no_duplicates());
        let inside = |id: ObjectId| objects.contains_key(id);
        lemma_walk_from(objects, start, 0, objects.dom().len(), inside);
        lemma_walk_from_closed(objects, start, 0, objects.dom().len());
    }
}

} // verus!
