//! The ownership index: for every owner a doubly linked ring of ids, kept
//! in a key-value store under the keys `(owner, Option<id>)`.
//!
//! The entry under `(owner, None)` is the sentinel head of the owner's ring:
//! its `next` is the first id and its `prev` the last one. An id at either
//! end points back to the head with `None`. No entry holds a pointer, so the
//! whole index is plain data.

use crate::error::Error;
use std::collections::HashMap;
use vstd::prelude::*;

verus! {

/// One node of a ring: the ids before and after it, `None` standing for the
/// sentinel head.
#[derive(Clone, Copy, Debug, PartialEq, Eq)]
pub struct LinkedItem<Value> {
    pub prev: Option<Value>,
    pub next: Option<Value>,
}

/// The nodes of one owner, keyed by id, the head under `None`.
pub type Ring = Map<Option<u64>, LinkedItem<u64>>;

/// The node stored under `slot`; a missing node reads as an unlinked one.
pub open spec fn item_at(ring: Ring, slot: Option<u64>) -> LinkedItem<u64> {
    if ring.contains_key(slot) {
        ring[slot]
    } else {
        LinkedItem { prev: None, next: None }
    }
}

/// The id at position `i` of `ids`, or `None` past either end.
pub open spec fn slot_at(ids: Seq<u64>, i: int) -> Option<u64> {
    if 0 <= i < ids.len() {
        Some(ids[i])
    } else {
        None
    }
}

/// `ring` links exactly the ids of `ids`, each once, in that order.
pub open spec fn is_ring(ring: Ring, ids: Seq<u64>) -> bool {
    &&& ids.no_duplicates()
    &&& forall|id: u64| #[trigger] ring.contains_key(Some(id)) <==> ids.contains(id)
    &&& item_at(ring, None) == (LinkedItem {
        prev: slot_at(ids, ids.len() - 1),
        next: slot_at(ids, 0),
    })
    &&& forall|i: int|
        #![trigger ids[i]]
        0 <= i < ids.len() ==> ring[Some(ids[i])] == (LinkedItem {
            prev: slot_at(ids, i - 1),
            next: slot_at(ids, i + 1),
        })
}

/// Some sequence of ids is linked by `ring`.
pub open spec fn is_linked(ring: Ring) -> bool {
    exists|ids: Seq<u64>| is_ring(ring, ids)
}

/// The ids that `ring` links, first to last.
pub open spec fn ring_ids(ring: Ring) -> Seq<u64> {
    choose|ids: Seq<u64>| is_ring(ring, ids)
}

/// `ring` after `value` was linked in behind its last node.
///
/// The old last node (the head itself in an empty ring) gets `value` as its
/// `next`, the head gets it as its `prev`, and the new node points back to
/// the old last node and forward to the head.
pub open spec fn ring_append(ring: Ring, value: u64) -> Ring {
    let head = item_at(ring, None);
    let last = item_at(ring, head.prev);
    ring.insert(head.prev, LinkedItem { prev: last.prev, next: Some(value) }).insert(
        None,
        LinkedItem {
            prev: Some(value),
            next: if head.next is None {
                Some(value)
            } else {
                head.next
            },
        },
    ).insert(Some(value), LinkedItem { prev: head.prev, next: None })
}

/// `ring` after the node of `value` was unlinked: the node before it takes
/// over its `next`, the node after it its `prev`, and the node itself is gone.
pub open spec fn ring_remove(ring: Ring, value: u64) -> Ring {
    let item = item_at(ring, Some(value));
    let before = item_at(ring, item.prev);
    let bridged = ring.insert(item.prev, LinkedItem { prev: before.prev, next: item.next });
    let after = item_at(bridged, item.next);
    bridged.insert(item.next, LinkedItem { prev: item.prev, next: after.next }).remove(
        Some(value),
    )
}

/// `ids` without its element `value`.
pub open spec fn without(ids: Seq<u64>, value: u64) -> Seq<u64> {
    if ids.contains(value) {
        ids.remove(ids.index_of(value))
    } else {
        ids
    }
}

/// Taking `value` out of a list without repeats leaves the other ids, each
/// still once.
pub proof fn lemma_without(ids: Seq<u64>, value: u64)
    requires
        ids.no_duplicates(),
    ensures
        without(ids, value).no_duplicates(),
        forall|id: u64| #[trigger] without(ids, value).contains(id) <==> ids.contains(id) && id != value,
{
    if ids.contains(value) {
        let k = ids.index_of(value);
        let rest = ids.remove(k);
        assert(forall|i: int| 0 <= i < k ==> rest[i] == ids[i]);
        assert(forall|i: int| k <= i < rest.len() ==> rest[i] == ids[i + 1]);
        assert forall|i: int, j: int| 0 <= i < rest.len() && 0 <= j < rest.len() && i != j implies rest[i]
            != rest[j] by {
            let ii = if i < k {
                i
            } else {
                i + 1
            };
            let jj = if j < k {
                j
            } else {
                j + 1
            };
            assert(ids[ii] != ids[jj]);
        }
        assert forall|id: u64| #[trigger] rest.contains(id) <==> ids.contains(id) && id != value by {
            if rest.contains(id) {
                let i = rest.index_of(id);
                let ii = if i < k {
                    i
                } else {
                    i + 1
                };
                assert(ids[ii] == id);
            }
            if ids.contains(id) && id != value {
                let i = ids.index_of(id);
                if i < k {
                    assert(rest[i] == id);
                } else {
                    assert(rest[i - 1] == id);
                }
            }
        }
    }
}

/// Putting an id that a list without repeats lacks behind its last id leaves
/// a list without repeats, which holds the old ids and the new one.
pub proof fn lemma_push_fresh(ids: Seq<u64>, value: u64)
    requires
        ids.no_duplicates(),
        !ids.contains(value),
    ensures
        ids.push(value).no_duplicates(),
        forall|id: u64| #[trigger] ids.push(value).contains(id) <==> ids.contains(id) || id == value,
{
    let grown = ids.push(value);
    let n = ids.len() as int;
    assert forall|i: int, j: int| 0 <= i < grown.len() && 0 <= j < grown.len() && i != j implies grown[i]
        != grown[j] by {
        if i < n {
            assert(ids.contains(ids[i]));
        }
        if j < n {
            assert(ids.contains(ids[j]));
        }
    }
    assert forall|id: u64| #[trigger] grown.contains(id) <==> ids.contains(id) || id == value by {
        if ids.contains(id) {
            assert(grown[ids.index_of(id)] == id);
        }
        if id == value {
            assert(grown[n] == value);
        }
        if grown.contains(id) {
            let k = grown.index_of(id);
            if k < n {
                assert(ids[k] == id);
            }
        }
    }
}

proof fn lemma_ring_prefix(ring: Ring, a: Seq<u64>, b: Seq<u64>, n: int)
    requires
        is_ring(ring, a),
        is_ring(ring, b),
        0 <= n <= a.len(),
    ensures
        n <= b.len(),
        forall|i: int| 0 <= i < n ==> a[i] == b[i],
    decreases n,
{
    if n > 0 {
        lemma_ring_prefix(ring, a, b, n - 1);
        if n == 1 {
            assert(slot_at(a, 0) == slot_at(b, 0));
        } else {
            assert(a[n - 2] == b[n - 2]);
            assert(ring[Some(a[n - 2])].next == slot_at(a, n - 1));
            assert(ring[Some(b[n - 2])].next == slot_at(b, n - 1));
        }
    }
}

/// A ring links one sequence of ids only.
pub proof fn lemma_ring_unique(ring: Ring, a: Seq<u64>, b: Seq<u64>)
    requires
        is_ring(ring, a),
        is_ring(ring, b),
    ensures
        a == b,
{
    lemma_ring_prefix(ring, a, b, a.len() as int);
    lemma_ring_prefix(ring, b, a, b.len() as int);
    assert(a =~= b);
}

/// What [`ring_ids`] is, once one sequence is known to be linked.
pub proof fn lemma_ring_ids(ring: Ring, ids: Seq<u64>)
    requires
        is_ring(ring, ids),
    ensures
        is_linked(ring),
        ring_ids(ring) == ids,
{
    lemma_ring_unique(ring, ring_ids(ring), ids);
}

/// A store without nodes is the empty ring.
pub proof fn lemma_empty_ring()
    ensures
        is_ring(Map::empty(), Seq::empty()),
{
}

/// Appending an id that is not linked yet puts it behind all the others.
pub proof fn lemma_append_ring(ring: Ring, ids: Seq<u64>, value: u64)
    requires
        is_ring(ring, ids),
        !ids.contains(value),
    ensures
        is_ring(ring_append(ring, value), ids.push(value)),
{
    let after = ring_append(ring, value);
    let grown = ids.push(value);
    let n = ids.len() as int;
    lemma_push_fresh(ids, value);
    if n > 0 {
        assert(ids.contains(ids[n - 1]));
        assert(ids.contains(ids[0]));
    }
    assert forall|id: u64| #[trigger] after.contains_key(Some(id)) <==> grown.contains(id) by {
        assert(ring.contains_key(Some(id)) <==> ids.contains(id));
    }
    assert forall|i: int| 0 <= i < grown.len() implies #[trigger] after[Some(grown[i])] == (
    LinkedItem { prev: slot_at(grown, i - 1), next: slot_at(grown, i + 1) }) by {
        if i < n {
            assert(ids.contains(ids[i]));
            assert(ring[Some(ids[i])] == (LinkedItem {
                prev: slot_at(ids, i - 1),
                next: slot_at(ids, i + 1),
            }));
            if i < n - 1 {
                assert(ids[i] != ids[n - 1]);
            }
        }
    }
}

/// Removing a linked id closes the gap and keeps the order of the others.
pub proof fn lemma_remove_ring(ring: Ring, ids: Seq<u64>, value: u64)
    requires
        is_ring(ring, ids),
        ids.contains(value),
    ensures
        is_ring(ring_remove(ring, value), without(ids, value)),
{
    let k = ids.index_of(value);
    let n = ids.len() as int;
    let after = ring_remove(ring, value);
    let rest = ids.remove(k);
    assert(rest.len() == n - 1);
    assert(forall|i: int| 0 <= i < k ==> rest[i] == ids[i]);
    assert(forall|i: int| k <= i < n - 1 ==> rest[i] == ids[i + 1]);
    assert(ring.contains_key(Some(value)));
    assert(ring[Some(ids[k])] == (LinkedItem {
        prev: slot_at(ids, k - 1),
        next: slot_at(ids, k + 1),
    }));
    if k > 0 {
        assert(ids.contains(ids[k - 1]));
        assert(ring[Some(ids[k - 1])] == (LinkedItem {
            prev: slot_at(ids, k - 2),
            next: slot_at(ids, k),
        }));
    }
    if k < n - 1 {
        assert(ids.contains(ids[k + 1]));
        assert(ring[Some(ids[k + 1])] == (LinkedItem {
            prev: slot_at(ids, k),
            next: slot_at(ids, k + 2),
        }));
    }
    lemma_without(ids, value);
    assert forall|id: u64| #[trigger] after.contains_key(Some(id)) <==> rest.contains(id) by {
        assert(ring.contains_key(Some(id)) <==> ids.contains(id));
    }
    assert forall|i: int| 0 <= i < rest.len() implies #[trigger] after[Some(rest[i])] == (
    LinkedItem { prev: slot_at(rest, i - 1), next: slot_at(rest, i + 1) }) by {
        let ii = if i < k {
            i
        } else {
            i + 1
        };
        assert(rest[i] == ids[ii]);
        assert(ids.contains(ids[ii]));
        assert(ring[Some(ids[ii])] == (LinkedItem {
            prev: slot_at(ids, ii - 1),
            next: slot_at(ids, ii + 1),
        }));
        assert(ids[ii] != ids[k]);
        if k > 0 {
            assert(ii != k - 1 ==> ids[ii] != ids[k - 1]);
        }
        if k < n - 1 {
            assert(ii != k + 1 ==> ids[ii] != ids[k + 1]);
        }
    }
}

/// One change to a ring.
pub enum Step {
    /// An id is appended.
    Append(u64),
    /// An id is removed; nothing happens where it is not linked.
    Remove(u64),
}

/// The list that `steps` make of the empty list.
pub open spec fn ids_after(steps: Seq<Step>) -> Seq<u64>
    decreases steps.len(),
{
    if steps.len() == 0 {
        Seq::empty()
    } else {
        let before = ids_after(steps.drop_last());
        match steps.last() {
            Step::Append(value) => before.push(value),
            Step::Remove(value) => without(before, value),
        }
    }
}

/// The ring that `steps` make of a store without nodes.
pub open spec fn ring_after(steps: Seq<Step>) -> Ring
    decreases steps.len(),
{
    if steps.len() == 0 {
        Map::empty()
    } else {
        let before = ring_after(steps.drop_last());
        match steps.last() {
            Step::Append(value) => ring_append(before, value),
            Step::Remove(value) => if before.contains_key(Some(value)) {
                ring_remove(before, value)
            } else {
                before
            },
        }
    }
}

/// No step of `steps` appends an id that is linked at that time.
pub open spec fn appends_fresh(steps: Seq<Step>) -> bool {
    forall|i: int|
        0 <= i < steps.len() ==> match #[trigger] steps[i] {
            Step::Append(value) => !ids_after(steps.take(i)).contains(value),
            Step::Remove(_) => true,
        }
}

/// After any appends and removes, none of which appends an id that is
/// linked already, the ring links the ids that were appended and not removed
/// since, each once, in the order in which they were appended; and the walk
/// from the head finds exactly them.
pub proof fn lemma_round_trip(steps: Seq<Step>)
    requires
        appends_fresh(steps),
    ensures
        is_ring(ring_after(steps), ids_after(steps)),
        walk(
            ring_after(steps),
            item_at(ring_after(steps), None).next,
            ids_after(steps).len(),
        ) == ids_after(steps),
    decreases steps.len(),
{
    if steps.len() > 0 {
        let earlier = steps.drop_last();
        assert forall|i: int| 0 <= i < earlier.len() implies match #[trigger] earlier[i] {
            Step::Append(value) => !ids_after(earlier.take(i)).contains(value),
            Step::Remove(_) => true,
        } by {
            assert(earlier[i] == steps[i]);
            assert(earlier.take(i) =~= steps.take(i));
        }
        lemma_round_trip(earlier);
        let before = ring_after(earlier);
        let ids = ids_after(earlier);
        assert(steps.take(steps.len() - 1) =~= earlier);
        assert(steps[steps.len() - 1] == steps.last());
        match steps.last() {
            Step::Append(value) => {
                lemma_append_ring(before, ids, value);
            },
            Step::Remove(value) => {
                if before.contains_key(Some(value)) {
                    lemma_remove_ring(before, ids, value);
                }
            },
        }
    }
    let ids = ids_after(steps);
    lemma_walk_ring(ring_after(steps), ids, 0, ids.len());
    assert(ids.subrange(0, ids.len() as int) =~= ids);
}

/// The ids met on the way from `cursor` along the `next` links, as far as
/// the head, but no more than `limit` of them.
pub open spec fn walk(ring: Ring, cursor: Option<u64>, limit: nat) -> Seq<u64>
    decreases limit,
{
    if cursor is None || limit == 0 {
        Seq::empty()
    } else {
        seq![cursor->Some_0] + walk(ring, item_at(ring, cursor).next, (limit - 1) as nat)
    }
}

/// In a ring, the walk from any of its ids reaches all the ids behind it,
/// once the limit leaves room for them.
pub proof fn lemma_walk_ring(ring: Ring, ids: Seq<u64>, from: int, limit: nat)
    requires
        is_ring(ring, ids),
        0 <= from <= ids.len(),
        limit >= ids.len() - from,
    ensures
        walk(ring, slot_at(ids, from), limit) == ids.subrange(from, ids.len() as int),
    decreases ids.len() - from,
{
    if from == ids.len() {
        assert(walk(ring, slot_at(ids, from), limit) =~= ids.subrange(from, ids.len() as int));
    } else {
        assert(ring.contains_key(Some(ids[from]))) by {
            assert(ids.contains(ids[from]));
        }
        assert(ring[Some(ids[from])].next == slot_at(ids, from + 1));
        lemma_walk_ring(ring, ids, from + 1, (limit - 1) as nat);
        assert(seq![ids[from]] + ids.subrange(from + 1, ids.len() as int) =~= ids.subrange(
            from,
            ids.len() as int,
        ));
    }
}

/// The nodes that `store` holds for the owner `key`.
pub open spec fn ring_of(store: Map<(u64, Option<u64>), LinkedItem<u64>>, key: u64) -> Ring {
    Map::new(
        |slot: Option<u64>| store.contains_key((key, slot)),
        |slot: Option<u64>| store[(key, slot)],
    )
}

/// `store` with the nodes of the owner `key` replaced by those of `ring`.
pub open spec fn with_ring(
    store: Map<(u64, Option<u64>), LinkedItem<u64>>,
    key: u64,
    ring: Ring,
) -> Map<(u64, Option<u64>), LinkedItem<u64>> {
    Map::new(
        |k: (u64, Option<u64>)|
            if k.0 == key {
                ring.contains_key(k.1)
            } else {
                store.contains_key(k)
            },
        |k: (u64, Option<u64>)|
            if k.0 == key {
                ring[k.1]
            } else {
                store[k]
            },
    )
}

/// `store` after `value` was appended to the ring of `key`.
pub open spec fn appended(
    store: Map<(u64, Option<u64>), LinkedItem<u64>>,
    key: u64,
    value: u64,
) -> Map<(u64, Option<u64>), LinkedItem<u64>> {
    with_ring(store, key, ring_append(ring_of(store, key), value))
}

/// `store` after `value` was removed from the ring of `key`.
pub open spec fn removed(
    store: Map<(u64, Option<u64>), LinkedItem<u64>>,
    key: u64,
    value: u64,
) -> Map<(u64, Option<u64>), LinkedItem<u64>> {
    with_ring(store, key, ring_remove(ring_of(store, key), value))
}

/// Replacing the ring of one owner leaves the rings of the others alone.
pub proof fn lemma_with_ring(store: Map<(u64, Option<u64>), LinkedItem<u64>>, key: u64, ring: Ring)
    ensures
        ring_of(with_ring(store, key, ring), key) == ring,
        forall|other: u64|
            other != key ==> #[trigger] ring_of(with_ring(store, key, ring), other) == ring_of(
                store,
                other,
            ),
{
    assert(ring_of(with_ring(store, key, ring), key) =~= ring);
    assert forall|other: u64| other != key implies #[trigger] ring_of(
        with_ring(store, key, ring),
        other,
    ) == ring_of(store, other) by {
        assert(ring_of(with_ring(store, key, ring), other) =~= ring_of(store, other));
    }
}

/// Writing one node changes the ring of its owner at that node and no other
/// ring.
pub proof fn lemma_ring_of_insert(
    store: Map<(u64, Option<u64>), LinkedItem<u64>>,
    key: u64,
    slot: Option<u64>,
    item: LinkedItem<u64>,
)
    ensures
        ring_of(store.insert((key, slot), item), key) == ring_of(store, key).insert(slot, item),
        forall|other: u64|
            other != key ==> #[trigger] ring_of(store.insert((key, slot), item), other) == ring_of(
                store,
                other,
            ),
{
    assert(ring_of(store.insert((key, slot), item), key) =~= ring_of(store, key).insert(slot, item));
    assert forall|other: u64| other != key implies #[trigger] ring_of(
        store.insert((key, slot), item),
        other,
    ) == ring_of(store, other) by {
        assert(ring_of(store.insert((key, slot), item), other) =~= ring_of(store, other));
    }
}

/// Deleting one node changes the ring of its owner at that node and no other
/// ring.
pub proof fn lemma_ring_of_remove(
    store: Map<(u64, Option<u64>), LinkedItem<u64>>,
    key: u64,
    slot: Option<u64>,
)
    ensures
        ring_of(store.remove((key, slot)), key) == ring_of(store, key).remove(slot),
        forall|other: u64|
            other != key ==> #[trigger] ring_of(store.remove((key, slot)), other) == ring_of(
                store,
                other,
            ),
{
    assert(ring_of(store.remove((key, slot)), key) =~= ring_of(store, key).remove(slot));
    assert forall|other: u64| other != key implies #[trigger] ring_of(
        store.remove((key, slot)),
        other,
    ) == ring_of(store, other) by {
        assert(ring_of(store.remove((key, slot)), other) =~= ring_of(store, other));
    }
}

/// The key under which the node of `value` in the ring of `key` is stored.
pub open spec fn node_key(key: u64, value: u64) -> u128 {
    (key * 0x1_0000_0000_0000_0000 + value) as u128
}

/// The ownership index of all owners.
///
/// Its view maps `(owner, slot)` to the node stored there. The heads and the
/// other nodes live in two hash maps, the latter keyed by owner and id
/// packed into one number.
pub struct LinkedList {
    heads: HashMap<u64, LinkedItem<u64>>,
    nodes: HashMap<u128, LinkedItem<u64>>,
}

impl View for LinkedList {
    type V = Map<(u64, Option<u64>), LinkedItem<u64>>;

    closed spec fn view(&self) -> Map<(u64, Option<u64>), LinkedItem<u64>> {
        Map::new(
            |k: (u64, Option<u64>)|
                match k.1 {
                    None => self.heads@.contains_key(k.0),
                    Some(value) => self.nodes@.contains_key(node_key(k.0, value)),
                },
            |k: (u64, Option<u64>)|
                match k.1 {
                    None => self.heads@[k.0],
                    Some(value) => self.nodes@[node_key(k.0, value)],
                },
        )
    }
}

impl LinkedList {
    /// The nodes of the ring of `key`.
    pub open spec fn ring(&self, key: u64) -> Ring {
        ring_of(self@, key)
    }

    /// The ring of `key` is well linked.
    pub open spec fn is_linked(&self, key: u64) -> bool {
        is_linked(self.ring(key))
    }

    /// The ids linked under `key`, first to last.
    pub open spec fn ids(&self, key: u64) -> Seq<u64> {
        ring_ids(self.ring(key))
    }

    /// The number of nodes that are not heads.
    pub closed spec fn node_count(&self) -> nat {
        self.nodes@.len()
    }

    /// A ring cannot link more ids than the index holds nodes.
    pub proof fn lemma_ring_fits(&self, key: u64, ids: Seq<u64>)
        requires
            is_ring(self.ring(key), ids),
        ensures
            ids.len() <= self.node_count(),
    {
        let keys = ids.map_values(|id: u64| node_key(key, id));
        assert forall|i: int, j: int| 0 <= i < keys.len() && 0 <= j < keys.len() && i != j implies keys[i]
            != keys[j] by {
            assert(ids[i] != ids[j]);
        }
        keys.unique_seq_to_set();
        assert forall|packed: u128| keys.to_set().contains(packed) implies self.nodes@.dom().contains(
            packed,
        ) by {
            let i = keys.index_of(packed);
            assert(ids.contains(ids[i]));
            assert(self.ring(key).contains_key(Some(ids[i])));
        }
        vstd::set_lib::lemma_len_subset(keys.to_set(), self.nodes@.dom());
    }

    /// An index without any node.
    pub fn new() -> (r: Self)
        ensures
            r@ == Map::<(u64, Option<u64>), LinkedItem<u64>>::empty(),
            forall|key: u64|
                #![trigger r.is_linked(key)]
                #![trigger r.ids(key)]
                r.is_linked(key) && r.ids(key) == Seq::<u64>::empty(),
    {
        let r = LinkedList { heads: HashMap::new(), nodes: HashMap::new() };
        assert(r@ =~= Map::<(u64, Option<u64>), LinkedItem<u64>>::empty());
        assert forall|key: u64| #[trigger] r.is_linked(key) && r.ids(key) == Seq::<u64>::empty() by {
            assert(r.ring(key) =~= Map::<Option<u64>, LinkedItem<u64>>::empty());
            lemma_empty_ring();
            lemma_ring_ids(r.ring(key), Seq::empty());
        }
        r
    }

    fn pack(key: u64, value: u64) -> (r: u128)
        ensures
            r == node_key(key, value),
    {
        (key as u128) * 0x1_0000_0000_0000_0000u128 + (value as u128)
    }

    /// The node stored under `(key, value)`, if there is one.
    pub fn get(&self, key: u64, value: Option<u64>) -> (r: Option<LinkedItem<u64>>)
        ensures
            r == if self@.contains_key((key, value)) {
                Some(self@[(key, value)])
            } else {
                None
            },
    {
        match value {
            None => match self.heads.get(&key) {
                Some(item) => Some(*item),
                None => None,
            },
            Some(id) => {
                let packed: u128 = Self::pack(key, id);
                match self.nodes.get(&packed) {
                    Some(item) => Some(*item),
                    None => None,
                }
            },
        }
    }

    /// Whether `value` has a node in the ring of `key`.
    pub fn contains(&self, key: u64, value: u64) -> (r: bool)
        ensures
            r == self@.contains_key((key, Some(value))),
            self.is_linked(key) ==> r == self.ids(key).contains(value),
    {
        proof {
            if self.is_linked(key) {
                assert(self.ring(key).contains_key(Some(value)) == self@.contains_key(
                    (key, Some(value)),
                ));
            }
        }
        self.get(key, Some(value)).is_some()
    }

    fn read_head(&self, key: u64) -> (r: LinkedItem<u64>)
        ensures
            r == item_at(self.ring(key), None),
    {
        self.read(key, None)
    }

    fn write_head(&mut self, key: u64, item: LinkedItem<u64>)
        ensures
            final(self)@ == old(self)@.insert((key, None), item),
    {
        self.write(key, None, item);
    }

    fn read(&self, key: u64, value: Option<u64>) -> (r: LinkedItem<u64>)
        ensures
            r == item_at(self.ring(key), value),
    {
        match self.get(key, value) {
            Some(item) => item,
            None => LinkedItem { prev: None, next: None },
        }
    }

    fn write(&mut self, key: u64, value: Option<u64>, item: LinkedItem<u64>)
        ensures
            final(self)@ == old(self)@.insert((key, value), item),
    {
        match value {
            None => {
                self.heads.insert(key, item);
            },
            Some(id) => {
                let packed: u128 = Self::pack(key, id);
                self.nodes.insert(packed, item);
            },
        }
        assert(self@ =~= old(self)@.insert((key, value), item));
    }

    fn erase(&mut self, key: u64, value: u64)
        ensures
            final(self)@ == old(self)@.remove((key, Some(value))),
    {
        let packed: u128 = Self::pack(key, value);
        self.nodes.remove(&packed);
        assert(self@ =~= old(self)@.remove((key, Some(value))));
    }

    /// Links `value` in as the last id of the ring of `key`.
    ///
    /// The head of a new owner comes into being with the first append. Where
    /// the ring is well linked and does not hold `value` yet, it afterwards
    /// links the old ids followed by `value`.
    pub fn append(&mut self, key: u64, value: u64)
        ensures
            final(self)@ == appended(old(self)@, key, value),
            final(self).ring(key) == ring_append(old(self).ring(key), value),
            forall|other: u64| other != key ==> #[trigger] final(self).ring(other) == old(self).ring(other),
            old(self).is_linked(key) && !old(self).ids(key).contains(value) ==> final(self).is_linked(key)
                && final(self).ids(key) == old(self).ids(key).push(value),
    {
        let mut head = self.read_head(key);
        let mut last = self.read(key, head.prev);
        let new_item = LinkedItem { prev: head.prev, next: None };
        let old_prev = head.prev;
        head.prev = Some(value);
        if head.next.is_none() {
            head.next = Some(value);
        }
        last.next = Some(value);
        let ghost s0 = self@;
        self.write(key, old_prev, last);
        let ghost s1 = self@;
        self.write_head(key, head);
        let ghost s2 = self@;
        self.write(key, Some(value), new_item);
        proof {
            lemma_ring_of_insert(s0, key, old_prev, last);
            lemma_ring_of_insert(s1, key, None, head);
            lemma_ring_of_insert(s2, key, Some(value), new_item);
            assert(self@ =~= appended(old(self)@, key, value));
            if old(self).is_linked(key) && !old(self).ids(key).contains(value) {
                lemma_append_ring(old(self).ring(key), old(self).ids(key), value);
                lemma_ring_ids(self.ring(key), old(self).ids(key).push(value));
            }
        }
    }

    /// Unlinks `value` from the ring of `key`.
    ///
    /// Fails, and changes nothing, when `value` has no node there. The head
    /// stays, also when the last id leaves. Where the ring is well linked, it
    /// afterwards links the old ids without `value`, in their old order.
    pub fn remove(&mut self, key: u64, value: u64) -> (r: Result<(), Error>)
        ensures
            r is Ok <==> old(self)@.contains_key((key, Some(value))),
            r is Err ==> r == Err::<(), Error>(Error::FatalInconsistency) && final(self)@ == old(self)@,
            r is Ok ==> final(self)@ == removed(old(self)@, key, value),
            r is Ok ==> final(self).ring(key) == ring_remove(old(self).ring(key), value),
            forall|other: u64| other != key ==> #[trigger] final(self).ring(other) == old(self).ring(other),
            old(self).is_linked(key) ==> (r is Ok <==> old(self).ids(key).contains(value))
                && final(self).is_linked(key) && final(self).ids(key) == without(
                old(self).ids(key),
                value,
            ),
    {
        let item = match self.get(key, Some(value)) {
            Some(item) => item,
            None => {
                proof {
                    if self.is_linked(key) {
                        assert(!self.ring(key).contains_key(Some(value)));
                    }
                }
                return Err(Error::FatalInconsistency);
            },
        };
        let ghost s0 = self@;
        let mut prev_item = self.read(key, item.prev);
        prev_item.next = item.next;
        self.write(key, item.prev, prev_item);
        let ghost s1 = self@;
        let mut next_item = self.read(key, item.next);
        next_item.prev = item.prev;
        self.write(key, item.next, next_item);
        let ghost s2 = self@;
        self.erase(key, value);
        proof {
            lemma_ring_of_insert(s0, key, item.prev, prev_item);
            lemma_ring_of_insert(s1, key, item.next, next_item);
            lemma_ring_of_remove(s2, key, Some(value));
            assert(self@ =~= removed(old(self)@, key, value));
            if old(self).is_linked(key) {
                assert(old(self).ring(key).contains_key(Some(value)));
                lemma_remove_ring(old(self).ring(key), old(self).ids(key), value);
                lemma_ring_ids(self.ring(key), without(old(self).ids(key), value));
            }
        }
        Ok(())
    }

    /// The ids linked under `key`, in the order in which they were appended.
    ///
    /// Walks the `next` links from the head until it is back at the head,
    /// and gives up after as many ids as the index holds nodes, which no
    /// well linked ring exceeds.
    pub fn iterate(&self, key: u64) -> (r: Vec<u64>)
        ensures
            r@ == walk(self.ring(key), item_at(self.ring(key), None).next, self.node_count()),
            self.is_linked(key) ==> r@ == self.ids(key),
    {
        let limit: usize = self.nodes.len();
        let ghost ring = self.ring(key);
        let ghost start = item_at(ring, None).next;
        let mut out: Vec<u64> = Vec::new();
        let mut cursor: Option<u64> = self.read_head(key).next;
        assert(out@ + walk(ring, cursor, limit as nat) =~= walk(ring, start, limit as nat));
        while cursor.is_some() && out.len() < limit
            invariant
                ring == self.ring(key),
                out.len() <= limit,
                walk(ring, start, limit as nat) == out@ + walk(
                    ring,
                    cursor,
                    (limit - out.len()) as nat,
                ),
            decreases limit - out.len(),
        {
            let id: u64 = cursor.unwrap();
            let ghost before = out@;
            let ghost room = (limit - out.len()) as nat;
            out.push(id);
            cursor = self.read(key, Some(id)).next;
            assert(walk(ring, Some(id), room) == seq![id] + walk(ring, cursor, (room - 1) as nat));
            assert(out@ + walk(ring, cursor, (room - 1) as nat) =~= before + walk(
                ring,
                Some(id),
                room,
            ));
        }
        proof {
            assert(walk(ring, cursor, (limit - out.len()) as nat) =~= Seq::<u64>::empty());
            assert(out@ =~= walk(ring, start, limit as nat));
            if self.is_linked(key) {
                let ids = self.ids(key);
                self.lemma_ring_fits(key, ids);
                lemma_walk_ring(ring, ids, 0, limit as nat);
                assert(ids.subrange(0, ids.len() as int) =~= ids);
            }
        }
        out
    }
}

} // verus!
