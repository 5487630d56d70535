//! The node arena: unique values in indexed slots, with reuse of freed slots.
use crate::types::MatrixGraphNode;
use std::collections::HashMap;
use std::collections::VecDeque;
use vstd::prelude::*;

verus! {

/// The mathematical content of an arena: its slots by index, each holding a
/// live value or nothing, and the freed indices, the most recently freed last.
pub struct ArenaModel<N> {
    pub slots: Seq<Option<N>>,
    pub free: Seq<int>,
}

impl<N> ArenaModel<N> {
    /// The arena with no slot at all.
    pub open spec fn empty() -> Self {
        ArenaModel { slots: Seq::empty(), free: Seq::empty() }
    }

    /// Index `i` names a slot that holds a value.
    pub open spec fn is_live(self, i: int) -> bool {
        0 <= i < self.slots.len() && self.slots[i] is Some
    }

    /// The free list names exactly the empty slots, each once, and no value
    /// is held by two slots.
    pub open spec fn wf(self) -> bool {
        &&& self.free.no_duplicates()
        &&& forall|k: int|
            0 <= k < self.free.len() ==> 0 <= #[trigger] self.free[k] < self.slots.len()
                && self.slots[self.free[k]] is None
        &&& forall|i: int|
            0 <= i < self.slots.len() && (#[trigger] self.slots[i]) is None
                ==> self.free.contains(i)
        &&& forall|i: int, j: int|
            self.is_live(i) && self.is_live(j) && #[trigger] self.slots[i]
                == #[trigger] self.slots[j] ==> i == j
    }

    /// Some live slot holds `x`.
    pub open spec fn contains(self, x: N) -> bool {
        exists|i: int| self.is_live(i) && #[trigger] self.slots[i] == Some(x)
    }

    /// The index of the slot that holds `x`, if there is one.
    pub open spec fn index_of(self, x: N) -> Option<int> {
        if self.contains(x) {
            Some(choose|i: int| self.is_live(i) && #[trigger] self.slots[i] == Some(x))
        } else {
            None
        }
    }

    /// The indices of the live slots.
    pub open spec fn live(self) -> Set<int> {
        Set::new(|i: int| self.is_live(i))
    }

    /// The number of live values.
    pub open spec fn len(self) -> nat {
        self.live().len()
    }

    /// The index that the next insertion will take: the most recently freed
    /// one, or a new slot at the end when nothing is free.
    pub open spec fn next_index(self) -> int {
        if self.free.len() > 0 {
            self.free.last()
        } else {
            self.slots.len() as int
        }
    }

    /// The arena after `x` was stored in the slot `next_index()`.
    pub open spec fn add(self, x: N) -> Self {
        if self.free.len() > 0 {
            ArenaModel {
                slots: self.slots.update(self.free.last(), Some(x)),
                free: self.free.drop_last(),
            }
        } else {
            ArenaModel { slots: self.slots.push(Some(x)), free: self.free }
        }
    }

    /// The arena after slot `i` was emptied; unchanged when `i` is not live.
    pub open spec fn remove(self, i: int) -> Self {
        if self.is_live(i) {
            ArenaModel { slots: self.slots.update(i, None), free: self.free.push(i) }
        } else {
            self
        }
    }

    /// The live values, in ascending order of their indices.
    pub open spec fn values(self) -> Seq<N> {
        live_values(self.slots)
    }

    /// The value in slot `i`, or nothing when `i` is not live.
    pub open spec fn get(self, i: int) -> Option<N> {
        if self.is_live(i) {
            self.slots[i]
        } else {
            None
        }
    }
}

/// The values that `slots` hold, in ascending order of their indices.
pub open spec fn live_values<N>(slots: Seq<Option<N>>) -> Seq<N>
    decreases slots.len(),
{
    if slots.len() == 0 {
        Seq::empty()
    } else if slots[0] is Some {
        seq![slots[0]->0] + live_values(slots.drop_first())
    } else {
        live_values(slots.drop_first())
    }
}

/// The values of slots with one more slot at the end are the values before
/// and what that slot holds.
pub proof fn lemma_live_values_push<N>(slots: Seq<Option<N>>, last: Option<N>)
    ensures
        live_values(slots.push(last)) == (match last {
            Some(x) => live_values(slots).push(x),
            None => live_values(slots),
        }),
    decreases slots.len(),
{
    let longer = slots.push(last);
    if slots.len() == 0 {
        assert(longer.drop_first() =~= Seq::<Option<N>>::empty());
        assert(live_values(longer.drop_first()) =~= Seq::<N>::empty());
        match last {
            Some(x) => {
                assert(live_values(longer) =~= live_values(slots).push(x));
            },
            None => {},
        }
    } else {
        assert(longer.drop_first() =~= slots.drop_first().push(last));
        lemma_live_values_push(slots.drop_first(), last);
        match last {
            Some(x) => {
                assert(live_values(longer) =~= live_values(slots).push(x));
            },
            None => {},
        }
    }
}

/// The indices at which `slots` hold a value.
pub open spec fn live_indices<N>(slots: Seq<Option<N>>) -> Set<int> {
    Set::new(|i: int| 0 <= i < slots.len() && slots[i] is Some)
}

/// There are as many values as there are slots that hold one.
pub proof fn lemma_live_values_len<N>(slots: Seq<Option<N>>)
    ensures
        live_indices(slots).finite(),
        live_values(slots).len() == live_indices(slots).len(),
    decreases slots.len(),
{
    if slots.len() == 0 {
        assert(live_indices(slots) =~= Set::<int>::empty());
    } else {
        let shorter = slots.drop_last();
        let n = shorter.len() as int;
        lemma_live_values_len(shorter);
        lemma_live_values_push(shorter, slots.last());
        assert(shorter.push(slots.last()) =~= slots);
        if slots.last() is Some {
            assert(live_indices(slots) =~= live_indices(shorter).insert(n));
        } else {
            assert(live_indices(slots) =~= live_indices(shorter));
        }
    }
}

impl<N> ArenaModel<N> {
    /// The live slots and the free slots together are all the slots.
    pub proof fn lemma_live_count(self)
        requires
            self.wf(),
        ensures
            self.live().finite(),
            self.len() + self.free.len() == self.slots.len(),
    {
        let all = vstd::set_lib::set_int_range(0, self.slots.len() as int);
        let freed = self.free.to_set();
        vstd::set_lib::lemma_int_range(0, self.slots.len() as int);
        vstd::seq_lib::seq_to_set_is_finite(self.free);
        self.free.unique_seq_to_set();
        assert(all.intersect(freed) =~= freed);
        assert(all.difference(freed) =~= self.live()) by {
            assert forall|i: int| all.difference(freed).contains(i) implies self.live().contains(
                i,
            ) by {
                if self.slots[i] is None {
                    assert(self.free.contains(i));
                }
            }
        }
        vstd::set_lib::lemma_set_difference_len(all, freed);
    }

    /// The arena lists as many values as it has live slots.
    pub proof fn lemma_values_len(self)
        ensures
            self.values().len() == self.len(),
    {
        lemma_live_values_len(self.slots);
        assert(self.live() =~= live_indices(self.slots));
    }

    /// Storing a value that the arena does not hold keeps the arena valid.
    pub proof fn lemma_add_wf(self, x: N)
        requires
            self.wf(),
            !self.contains(x),
        ensures
            self.add(x).wf(),
            self.add(x).is_live(self.next_index()),
            self.add(x).slots[self.next_index()] == Some(x),
            forall|i: int| i != self.next_index() ==> self.add(x).get(i) == self.get(i),
    {
        let after = self.add(x);
        let idx = self.next_index();
        if self.free.len() > 0 {
            assert(self.free[self.free.len() - 1] == idx);
            assert forall|i: int|
                0 <= i < after.slots.len() && (#[trigger] after.slots[i]) is None
                implies after.free.contains(i) by {
                assert(self.slots[i] is None);
                let k = choose|k: int| 0 <= k < self.free.len() && self.free[k] == i;
                assert(after.free[k] == i);
            }
        }
        assert forall|i: int, j: int|
            after.is_live(i) && after.is_live(j) && #[trigger] after.slots[i]
                == #[trigger] after.slots[j] implies i == j by {
            if i != j {
                if i == idx {
                    assert(self.is_live(j) && self.slots[j] == Some(x));
                } else if j == idx {
                    assert(self.is_live(i) && self.slots[i] == Some(x));
                } else {
                    assert(self.slots[i] == self.slots[j]);
                }
            }
        }
    }

    /// In a valid arena a value is found at the one index that holds it.
    pub proof fn lemma_index_of(self, x: N, i: int)
        requires
            self.wf(),
            self.is_live(i),
            self.slots[i] == Some(x),
        ensures
            self.contains(x),
            self.index_of(x) == Some(i),
    {
        let c = choose|c: int| self.is_live(c) && #[trigger] self.slots[c] == Some(x);
        assert(self.slots[c] == self.slots[i]);
    }

    /// Storing a new value moves no other value: what was found before is
    /// found at the same index, and the new value at the index it was given.
    pub proof fn lemma_add_keeps_indices(self, x: N)
        requires
            self.wf(),
            !self.contains(x),
        ensures
            self.add(x).wf(),
            self.add(x).index_of(x) == Some(self.next_index()),
            forall|y: N| self.add(x).contains(y) <==> self.contains(y) || y == x,
            forall|y: N| self.contains(y) ==> self.add(x).index_of(y) == self.index_of(y),
    {
        let after = self.add(x);
        let idx = self.next_index();
        self.lemma_add_wf(x);
        after.lemma_index_of(x, idx);
        assert forall|y: N| after.contains(y) implies self.contains(y) || y == x by {
            let i = choose|i: int| after.is_live(i) && #[trigger] after.slots[i] == Some(y);
            if i != idx {
                assert(self.get(i) == after.get(i));
                assert(self.is_live(i) && self.slots[i] == Some(y));
            }
        }
        assert forall|y: N| self.contains(y) implies after.contains(y) && after.index_of(y)
            == self.index_of(y) by {
            let i = choose|i: int| self.is_live(i) && #[trigger] self.slots[i] == Some(y);
            assert(i != idx) by {
                if self.free.len() > 0 {
                    assert(self.slots[self.free[self.free.len() - 1]] is None);
                }
            }
            assert(after.get(i) == self.get(i));
            after.lemma_index_of(y, i);
        }
    }

    /// Emptying a slot keeps the arena valid.
    pub proof fn lemma_remove_wf(self, i: int)
        requires
            self.wf(),
        ensures
            self.remove(i).wf(),
            !self.remove(i).is_live(i),
            forall|j: int| j != i ==> self.remove(i).get(j) == self.get(j),
    {
        let after = self.remove(i);
        if self.is_live(i) {
            assert forall|a: int, b: int|
                0 <= a < after.free.len() && 0 <= b < after.free.len() && a
                    != b implies after.free[a] != after.free[b] by {
                if a < self.free.len() && b < self.free.len() {
                } else if a < self.free.len() {
                    assert(self.slots[self.free[a]] is None);
                } else {
                    assert(self.slots[self.free[b]] is None);
                }
            }
            assert forall|j: int|
                0 <= j < after.slots.len() && (#[trigger] after.slots[j]) is None
                implies after.free.contains(j) by {
                if j == i {
                    assert(after.free[self.free.len() as int] == i);
                } else {
                    let k = choose|k: int| 0 <= k < self.free.len() && self.free[k] == j;
                    assert(after.free[k] == j);
                }
            }
            assert forall|a: int, b: int|
                after.is_live(a) && after.is_live(b) && #[trigger] after.slots[a]
                    == #[trigger] after.slots[b] implies a == b by {
                assert(self.slots[a] == self.slots[b]);
            }
        }
    }
}

/// A freed index is the first to be reused: when `x` is stored, then
/// removed, and another value `y` is stored next, `y` takes the index that
/// `x` had, and `x` is no longer found.
pub proof fn lemma_freed_index_is_reused<N>(arena: ArenaModel<N>, x: N, y: N)
    requires
        arena.wf(),
        !arena.contains(x),
        x != y,
    ensures
        ({
            let i = arena.next_index();
            let stored = arena.add(x);
            let freed = stored.remove(i);
            let again = freed.add(y);
            &&& stored.index_of(x) == Some(i)
            &&& freed.index_of(x) is None
            &&& freed.next_index() == i
            &&& again.slots[i] == Some(y)
            &&& again.index_of(x) is None
        }),
{
    let i = arena.next_index();
    let stored = arena.add(x);
    let freed = stored.remove(i);
    let again = freed.add(y);
    arena.lemma_add_wf(x);
    stored.lemma_remove_wf(i);
    assert(stored.contains(x));
    let c = choose|c: int| stored.is_live(c) && #[trigger] stored.slots[c] == Some(x);
    assert(stored.slots[c] == stored.slots[i]);
    assert(freed.free.last() == i);
    if freed.contains(x) {
        let j = choose|j: int| freed.is_live(j) && #[trigger] freed.slots[j] == Some(x);
        assert(stored.is_live(j) && stored.slots[j] == stored.slots[i]);
    }
    if again.contains(x) {
        let j = choose|j: int| again.is_live(j) && #[trigger] again.slots[j] == Some(x);
        assert(freed.is_live(j) && freed.slots[j] == Some(x));
    }
}

/// A hash index: for each hash, the indices of the live slots whose value has
/// that hash.
pub(crate) struct HashIndex {
    buckets: HashMap<u64, Vec<usize>>,
}

impl HashIndex {
    /// The bucket of `hash`: empty when the index has no entry for it.
    pub(crate) closed spec fn bucket(&self, hash: u64) -> Seq<usize> {
        if self.buckets@.contains_key(hash) {
            self.buckets@[hash]@
        } else {
            Seq::empty()
        }
    }

    /// No bucket lists an index twice, and no bucket is kept empty.
    pub(crate) closed spec fn wf(&self) -> bool {
        &&& forall|h: u64| #[trigger]
            self.buckets@.contains_key(h) ==> self.buckets@[h]@.no_duplicates()
                && self.buckets@[h]@.len() > 0
    }

    /// An index without entries.
    pub(crate) fn new() -> (index: Self)
        ensures
            index.wf(),
            forall|h: u64| index.bucket(h) == Seq::<usize>::empty(),
    {
        HashIndex { buckets: HashMap::new() }
    }

    /// Enters `idx` under `hash`.
    pub(crate) fn link(&mut self, hash: u64, idx: usize)
        requires
            old(self).wf(),
            !old(self).bucket(hash).contains(idx),
        ensures
            final(self).wf(),
            final(self).bucket(hash) == old(self).bucket(hash).push(idx),
            forall|h: u64| h != hash ==> final(self).bucket(h) == old(self).bucket(h),
    {
        let mut bucket = match self.buckets.remove(&hash) {
            Some(b) => b,
            None => Vec::new(),
        };
        let ghost before = bucket@;
        bucket.push(idx);
        proof {
            assert forall|i: int, j: int|
                0 <= i < bucket@.len() && 0 <= j < bucket@.len() && i != j implies bucket@[i]
                != bucket@[j] by {
                if i < before.len() && j < before.len() {
                } else if i < before.len() {
                    assert(before.contains(before[i]));
                } else {
                    assert(before.contains(before[j]));
                }
            }
        }
        self.buckets.insert(hash, bucket);
    }

    /// Takes `idx` out of the bucket of `hash`.
    pub(crate) fn unlink(&mut self, hash: u64, idx: usize)
        requires
            old(self).wf(),
        ensures
            final(self).wf(),
            forall|i: usize|
                final(self).bucket(hash).contains(i) <==> old(self).bucket(hash).contains(i) && i
                    != idx,
            forall|h: u64| h != hash ==> final(self).bucket(h) == old(self).bucket(h),
    {
        let ghost before = self.bucket(hash);
        match self.buckets.remove(&hash) {
            None => {
                assert(self.bucket(hash) == before);
            },
            Some(mut bucket) => {
                assert(bucket@ == before);
                let mut pos: usize = 0;
                while pos < bucket.len() && bucket[pos] != idx
                    invariant
                        pos <= bucket.len(),
                        forall|k: int| 0 <= k < pos ==> bucket@[k] != idx,
                    decreases bucket.len() - pos,
                {
                    pos += 1;
                }
                if pos < bucket.len() {
                    bucket.remove(pos);
                    proof {
                        assert(bucket@ == before.remove(pos as int));
                        assert forall|i: usize| bucket@.contains(i) <==> before.contains(i) && i
                            != idx by {
                            if bucket@.contains(i) {
                                let k = choose|k: int| 0 <= k < bucket@.len() && bucket@[k] == i;
                                if k < pos {
                                    assert(before[k] == i);
                                } else {
                                    assert(before[k + 1] == i);
                                }
                            }
                            if before.contains(i) && i != idx {
                                let k = choose|k: int| 0 <= k < before.len() && before[k] == i;
                                if k < pos {
                                    assert(bucket@[k] == i);
                                } else {
                                    assert(bucket@[k - 1] == i);
                                }
                            }
                        }
                        assert forall|i: int, j: int|
                            0 <= i < bucket@.len() && 0 <= j < bucket@.len() && i
                                != j implies bucket@[i] != bucket@[j] by {
                            let bi = if i < pos { i } else { i + 1 };
                            let bj = if j < pos { j } else { j + 1 };
                            assert(bucket@[i] == before[bi]);
                            assert(bucket@[j] == before[bj]);
                        }
                    }
                } else {
                    proof {
                        assert forall|i: usize| before.contains(i) implies i != idx by {
                            let k = choose|k: int| 0 <= k < before.len() && before[k] == i;
                        }
                    }
                }
                if bucket.len() > 0 {
                    self.buckets.insert(hash, bucket);
                } else {
                    proof {
                        assert forall|i: usize| !(before.contains(i) && i != idx) by {
                            if before.contains(i) && i != idx {
                                assert(bucket@.contains(i));
                            }
                        }
                    }
                }
            },
        }
    }

    /// The indices entered under `hash`.
    pub(crate) fn candidates(&self, hash: u64) -> (found: Option<&Vec<usize>>)
        requires
            self.wf(),
        ensures
            match found {
                Some(b) => b@ == self.bucket(hash),
                None => self.bucket(hash) == Seq::<usize>::empty(),
            },
    {
        self.buckets.get(&hash)
    }
}

/// Collection for storing nodes: an indexed set of unique values. An index
/// stays with its value until the value is removed, and a freed index is the
/// first to be handed out again.
pub struct NodeStorage<N: MatrixGraphNode> {
    nodes: Vec<Option<N>>,
    hashes: HashIndex,
    removed: VecDeque<usize>,
}

impl<N: MatrixGraphNode> View for NodeStorage<N> {
    type V = ArenaModel<N>;

    closed spec fn view(&self) -> ArenaModel<N> {
        ArenaModel { slots: self.nodes@, free: self.removed@.map_values(|i: usize| i as int) }
    }
}

impl<N: MatrixGraphNode> NodeStorage<N> {
    /// The hash index lists exactly the live slots, each under the hash of
    /// its value.
    pub closed spec fn index_wf(&self) -> bool {
        &&& self.hashes.wf()
        &&& forall|h: u64, k: int|
            0 <= k < self.hashes.bucket(h).len() ==> {
                let i = #[trigger] self.hashes.bucket(h)[k];
                &&& i < self.nodes@.len()
                &&& self.nodes@[i as int] is Some
                &&& self.nodes@[i as int]->0.hash_spec() == h
            }
        &&& forall|i: int|
            0 <= i < self.nodes@.len() && (#[trigger] self.nodes@[i]) is Some
                ==> self.hashes.bucket(self.nodes@[i]->0.hash_spec()).contains(i as usize)
    }

    /// The arena is valid: its content is, and its hash index agrees with it.
    pub open spec fn wf(&self) -> bool {
        &&& self@.wf()
        &&& self.index_wf()
    }

    /// The indices of the slots are numbers that the machine can hold.
    pub proof fn lemma_slots_fit(&self)
        ensures
            self@.slots.len() <= usize::MAX,
    {
        assert(self.nodes.len() == self.nodes@.len());
    }

    /// An arena without slots.
    pub fn new() -> (storage: Self)
        ensures
            storage.wf(),
            storage@ == ArenaModel::<N>::empty(),
    {
        let storage = NodeStorage {
            nodes: Vec::new(),
            hashes: HashIndex::new(),
            removed: VecDeque::new(),
        };
        assert(storage@.free =~= Seq::<int>::empty());
        storage
    }

    /// The hash under which `node` is entered in the hash index.
    fn calculate_hash(node: &N) -> (hash: u64)
        ensures
            hash == node.hash_spec(),
    {
        node.hash_code()
    }

    /// The index of the slot that holds `node`, if a live slot does.
    pub fn get_index_of(&self, node: &N) -> (found: Option<usize>)
        requires
            self.wf(),
        ensures
            match found {
                Some(i) => self@.index_of(*node) == Some(i as int),
                None => self@.index_of(*node) is None,
            },
            found is Some ==> self@.is_live(found->0 as int) && self@.slots[found->0 as int]
                == Some(*node),
    {
        let hash = Self::calculate_hash(node);
        match self.hashes.candidates(hash) {
            None => {
                proof {
                    if self@.contains(*node) {
                        let i = choose|i: int| self@.is_live(i) && self@.slots[i] == Some(*node);
                        assert(self.nodes@[i] is Some);
                        assert(self.hashes.bucket(hash).contains(i as usize));
                    }
                }
                None
            },
            Some(bucket) => {
                let mut k: usize = 0;
                while k < bucket.len()
                    invariant
                        self.wf(),
                        hash == node.hash_spec(),
                        bucket@ == self.hashes.bucket(hash),
                        k <= bucket.len(),
                        forall|j: int| 0 <= j < k ==> self.nodes@[bucket@[j] as int] != Some(*node),
                    decreases bucket.len() - k,
                {
                    let i = bucket[k];
                    assert(i == self.hashes.bucket(hash)[k as int]);
                    match &self.nodes[i] {
                        Some(held) => {
                            if held.same_as(node) {
                                proof {
                                    assert(self@.is_live(i as int) && self@.slots[i as int] == Some(
                                        *node,
                                    ));
                                    let c = choose|c: int|
                                        self@.is_live(c) && #[trigger] self@.slots[c] == Some(
                                            *node,
                                        );
                                    assert(self@.slots[c] == self@.slots[i as int]);
                                }
                                return Some(i);
                            }
                        },
                        None => {},
                    }
                    k += 1;
                }
                proof {
                    if self@.contains(*node) {
                        let i = choose|i: int| self@.is_live(i) && self@.slots[i] == Some(*node);
                        assert(self.nodes@[i] is Some);
                        assert(self.hashes.bucket(hash).contains(i as usize));
                        let j = choose|j: int| 0 <= j < bucket@.len() && bucket@[j] == i as usize;
                        assert(self.nodes.len() == self.nodes@.len());
                        assert(bucket@[j] as int == i);
                        assert(self.nodes@[bucket@[j] as int] == Some(*node));
                        assert(false);
                    }
                }
                None
            },
        }
    }

    /// Whether a live slot holds `node`.
    pub fn contains(&self, node: &N) -> (held: bool)
        requires
            self.wf(),
        ensures
            held == self@.contains(*node),
    {
        self.get_index_of(node).is_some()
    }

    /// Stores `node` and returns its index: the most recently freed index,
    /// or that of a new slot when none is free. The arena must not hold an
    /// equal value already.
    pub fn add(&mut self, node: N) -> (idx: usize)
        requires
            old(self).wf(),
            !old(self)@.contains(node),
        ensures
            final(self).wf(),
            final(self)@ == old(self)@.add(node),
            idx == old(self)@.next_index(),
    {
        let hash = Self::calculate_hash(&node);
        let ghost value = node;
        let ghost before = self@;
        proof {
            before.lemma_add_wf(value);
        }
        let idx = match self.removed.pop_back() {
            Some(idx) => {
                assert(idx as int == before.free.last());
                self.nodes[idx] = Some(node);
                idx
            },
            None => {
                assert(before.free.len() == 0);
                self.nodes.push(Some(node));
                self.nodes.len() - 1
            },
        };
        assert(self@.slots =~= before.add(value).slots);
        assert(self@.free =~= before.add(value).free);
        assert(!before.is_live(idx as int));
        proof {
            if self.hashes.bucket(hash).contains(idx) {
                let k = choose|k: int|
                    0 <= k < self.hashes.bucket(hash).len() && self.hashes.bucket(hash)[k] == idx;
                assert(before.is_live(self.hashes.bucket(hash)[k] as int));
            }
        }
        let ghost index_before = self.hashes;
        self.hashes.link(hash, idx);
        proof {
            assert forall|h: u64, k: int| 0 <= k < self.hashes.bucket(h).len() implies ({
                let i = #[trigger] self.hashes.bucket(h)[k];
                &&& i < self.nodes@.len()
                &&& self.nodes@[i as int] is Some
                &&& self.nodes@[i as int]->0.hash_spec() == h
            }) by {
                let i = self.hashes.bucket(h)[k];
                if h == hash && k == index_before.bucket(h).len() {
                } else {
                    assert(i == index_before.bucket(h)[k]);
                    assert(before.is_live(i as int));
                }
            }
            assert forall|i: int|
                0 <= i < self.nodes@.len() && (#[trigger] self.nodes@[i]) is Some
                implies self.hashes.bucket(self.nodes@[i]->0.hash_spec()).contains(
                i as usize,
            ) by {
                let h = self.nodes@[i]->0.hash_spec();
                if i == idx {
                    assert(self.hashes.bucket(h)[index_before.bucket(h).len() as int] == idx);
                } else {
                    assert(before.slots[i] == self.nodes@[i]);
                    assert(index_before.bucket(h).contains(i as usize));
                    let k = choose|k: int|
                        0 <= k < index_before.bucket(h).len() && index_before.bucket(h)[k]
                            == i as usize;
                    assert(self.hashes.bucket(h)[k] == i as usize);
                }
            }
        }
        idx
    }

    /// Empties slot `idx` and returns what it held; its index is the next to
    /// be handed out. Nothing happens when `idx` names no live slot.
    pub fn remove(&mut self, idx: usize) -> (node: Option<N>)
        requires
            old(self).wf(),
        ensures
            final(self).wf(),
            final(self)@ == old(self)@.remove(idx as int),
            node == old(self)@.get(idx as int),
    {
        if idx >= self.nodes.len() {
            return None;
        }
        let ghost before = self@;
        let ghost index_before = self.hashes;
        let mut node: Option<N> = None;
        std::mem::swap(&mut self.nodes[idx], &mut node);
        match &node {
            None => {
                assert(self.nodes@ =~= before.slots);
            },
            Some(held) => {
                proof {
                    before.lemma_remove_wf(idx as int);
                }
                let hash = Self::calculate_hash(held);
                self.hashes.unlink(hash, idx);
                self.removed.push_back(idx);
                assert(self@.slots =~= before.remove(idx as int).slots);
                assert(self@.free =~= before.remove(idx as int).free);
                proof {
                    assert forall|h: u64, k: int| 0 <= k < self.hashes.bucket(h).len() implies ({
                        let i = #[trigger] self.hashes.bucket(h)[k];
                        &&& i < self.nodes@.len()
                        &&& self.nodes@[i as int] is Some
                        &&& self.nodes@[i as int]->0.hash_spec() == h
                    }) by {
                        let i = self.hashes.bucket(h)[k];
                        assert(self.hashes.bucket(h).contains(i));
                        assert(index_before.bucket(h).contains(i));
                        let k0 = choose|k0: int|
                            0 <= k0 < index_before.bucket(h).len() && index_before.bucket(h)[k0]
                                == i;
                        if i == idx {
                            assert(before.slots[idx as int]->0.hash_spec() == h);
                        }
                    }
                    assert forall|i: int|
                        0 <= i < self.nodes@.len() && (#[trigger] self.nodes@[i]) is Some
                        implies self.hashes.bucket(self.nodes@[i]->0.hash_spec()).contains(
                        i as usize,
                    ) by {
                        let h = self.nodes@[i]->0.hash_spec();
                        assert(before.slots[i] == self.nodes@[i]);
                        assert(index_before.bucket(h).contains(i as usize));
                    }
                }
            },
        }
        node
    }

    /// The number of live values.
    pub fn len(&self) -> (count: usize)
        requires
            self.wf(),
        ensures
            count == self@.len(),
    {
        proof {
            self@.lemma_live_count();
        }
        self.nodes.len() - self.removed.len()
    }

    /// Whether the arena holds no value.
    pub fn is_empty(&self) -> (empty: bool)
        requires
            self.wf(),
        ensures
            empty == (self@.len() == 0),
    {
        self.len() == 0
    }

    /// The value in slot `idx`, which must be live.
    pub fn get(&self, idx: usize) -> (node: &N)
        requires
            self@.is_live(idx as int),
        ensures
            Some(*node) == self@.slots[idx as int],
    {
        self.nodes[idx].as_ref().unwrap()
    }

    /// The value in slot `idx`, or nothing when `idx` names no live slot.
    pub fn get_checked(&self, idx: usize) -> (node: Option<&N>)
        ensures
            match node {
                Some(held) => self@.get(idx as int) == Some(*held),
                None => self@.get(idx as int) is None,
            },
    {
        if idx >= self.nodes.len() {
            return None;
        }
        self.nodes[idx].as_ref()
    }

    /// The value in slot `node_idx`, or nothing when it names no live slot.
    pub fn get_node_by_index(&self, node_idx: usize) -> (node: Option<&N>)
        ensures
            match node {
                Some(held) => self@.get(node_idx as int) == Some(*held),
                None => self@.get(node_idx as int) is None,
            },
    {
        self.get_checked(node_idx)
    }

    /// The number of slots, live or empty: every index is below it.
    pub fn slot_count(&self) -> (count: usize)
        ensures
            count == self@.slots.len(),
    {
        self.nodes.len()
    }

    /// A cursor over the live values, in ascending order of their indices.
    pub fn iter(&self) -> (cursor: NodeStorageIterator<'_, N>)
        ensures
            cursor.remaining() == self@.values(),
    {
        NodeStorageIterator::new(&self.nodes)
    }
}

impl<N: MatrixGraphNode> Default for NodeStorage<N> {
    fn default() -> (storage: Self)
        ensures
            storage.wf(),
            storage@ == ArenaModel::<N>::empty(),
    {
        Self::new()
    }
}

/// A cursor over the values that a sequence of slots holds, in ascending
/// order of their indices; empty slots are passed over.
pub struct NodeStorageIterator<'a, N> {
    nodes: &'a Vec<Option<N>>,
    idx: usize,
}

impl<'a, N> NodeStorageIterator<'a, N> {
    /// The values that the cursor has yet to yield, in order.
    pub closed spec fn remaining(&self) -> Seq<N> {
        if self.idx <= self.nodes@.len() {
            live_values(self.nodes@.skip(self.idx as int))
        } else {
            Seq::empty()
        }
    }

    /// A cursor in front of the first slot of `nodes`.
    pub fn new(nodes: &'a Vec<Option<N>>) -> (cursor: Self)
        ensures
            cursor.remaining() == live_values(nodes@),
    {
        assert(nodes@.skip(0) =~= nodes@);
        Self { nodes, idx: 0 }
    }

    /// Yields the next live value, or nothing when none is left.
    pub fn next(&mut self) -> (node: Option<&'a N>)
        ensures
            match node {
                Some(held) => old(self).remaining().len() > 0 && *held == old(self).remaining()[0]
                    && final(self).remaining() == old(self).remaining().drop_first(),
                None => old(self).remaining().len() == 0 && final(self).remaining().len() == 0,
            },
    {
        let nodes = self.nodes;
        while self.idx < nodes.len()
            invariant
                self.nodes == nodes,
                self.nodes == old(self).nodes,
                self.remaining() == old(self).remaining(),
            decreases nodes.len() - self.idx,
        {
            let ghost rest = nodes@.skip(self.idx as int);
            assert(rest.drop_first() =~= nodes@.skip(self.idx + 1));
            assert(rest[0] == nodes@[self.idx as int]);
            self.idx += 1;
            if let Some(node) = &nodes[self.idx - 1] {
                assert(old(self).remaining().drop_first() =~= self.remaining());
                return Some(node);
            }
        }
        None
    }
}

} // verus!
