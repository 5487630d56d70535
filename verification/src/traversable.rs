//! Breadth-first traversal of anything that can list the neighbors of an
//! index and find a node by its index.
use crate::types::{GraphEntry, Neighbors};
use std::collections::HashSet;
use std::collections::VecDeque;
use std::marker::PhantomData;
use vstd::prelude::*;

verus! {

/// The state of a breadth-first traversal: the indices that were seen, and
/// those that wait for their turn, the next one first.
pub struct BfsModel {
    pub visited: Set<int>,
    pub queue: Seq<int>,
}

impl BfsModel {
    /// The state before the first step of a traversal that starts at `from`.
    pub open spec fn start(from: int) -> Self {
        BfsModel { visited: Set::empty(), queue: seq![from] }
    }

    /// The state after the indices in `found` were looked at, one after
    /// another: each one not seen before is marked as seen and put at the
    /// end of the queue.
    pub open spec fn discover(self, found: Seq<int>) -> Self
        decreases found.len(),
    {
        if found.len() == 0 {
            self
        } else {
            let seen = if self.visited.contains(found[0]) {
                self
            } else {
                BfsModel {
                    visited: self.visited.insert(found[0]),
                    queue: self.queue.push(found[0]),
                }
            };
            seen.discover(found.drop_first())
        }
    }

    /// The state after one step: the first index of the queue leaves it and
    /// is marked as seen, then its `neighbors` are looked at.
    pub open spec fn step(self, neighbors: Seq<int>) -> Self {
        BfsModel {
            visited: self.visited.insert(self.queue[0]),
            queue: self.queue.drop_first(),
        }.discover(neighbors)
    }

    /// Looking at one index marks it and queues it, unless it was seen.
    pub proof fn lemma_discover_one(self, n: int)
        ensures
            self.discover(seq![n]) == (if self.visited.contains(n) {
                self
            } else {
                BfsModel { visited: self.visited.insert(n), queue: self.queue.push(n) }
            }),
    {
        let one = seq![n];
        let seen = if self.visited.contains(n) {
            self
        } else {
            BfsModel { visited: self.visited.insert(n), queue: self.queue.push(n) }
        };
        assert(one[0] == n);
        assert(one.drop_first().len() == 0);
        assert(seen.discover(one.drop_first()) == seen);
    }

    /// Looking at `found` and then at one more index is looking at the
    /// longer list.
    pub proof fn lemma_discover_push(self, found: Seq<int>, last: int)
        ensures
            self.discover(found.push(last)) == self.discover(found).discover(seq![last]),
        decreases found.len(),
    {
        if found.len() == 0 {
            assert(found.push(last) =~= seq![last]);
            assert(self.discover(found) == self);
        } else {
            let seen = if self.visited.contains(found[0]) {
                self
            } else {
                BfsModel {
                    visited: self.visited.insert(found[0]),
                    queue: self.queue.push(found[0]),
                }
            };
            assert(found.push(last)[0] == found[0]);
            assert(found.push(last).drop_first() =~= found.drop_first().push(last));
            seen.lemma_discover_push(found.drop_first(), last);
        }
    }
}

impl BfsModel {
    /// No index waits twice, and every waiting index but the next one was
    /// seen.
    pub open spec fn settled(self) -> bool {
        &&& self.queue.no_duplicates()
        &&& forall|k: int| 1 <= k < self.queue.len() ==> self.visited.contains(self.queue[k])
    }

    /// The state after `steps` steps, or after the last step where the
    /// traversal ends before; `neighbors` gives the neighbors of each index.
    pub open spec fn run(self, neighbors: spec_fn(int) -> Seq<int>, steps: nat) -> Self
        decreases steps,
    {
        if steps == 0 || self.queue.len() == 0 {
            self
        } else {
            self.step(neighbors(self.queue[0])).run(neighbors, (steps - 1) as nat)
        }
    }

    /// The indices that the first `steps` steps yield, in their order.
    pub open spec fn order(self, neighbors: spec_fn(int) -> Seq<int>, steps: nat) -> Seq<int>
        decreases steps,
    {
        if steps == 0 || self.queue.len() == 0 {
            Seq::empty()
        } else {
            seq![self.queue[0]] + self.step(neighbors(self.queue[0])).order(
                neighbors,
                (steps - 1) as nat,
            )
        }
    }

    /// What looking at `found` does: every index in it is seen afterwards;
    /// the queue keeps what it held, and what it gains are indices of
    /// `found` that were not seen before, each once.
    pub proof fn lemma_discover(self, found: Seq<int>)
        ensures
            forall|n: int| #[trigger]
                self.discover(found).visited.contains(n) <==> self.visited.contains(n)
                    || found.contains(n),
            self.discover(found).queue.len() >= self.queue.len(),
            forall|k: int|
                0 <= k < self.queue.len() ==> #[trigger] self.discover(found).queue[k]
                    == self.queue[k],
            forall|k: int|
                self.queue.len() <= k < self.discover(found).queue.len() ==> found.contains(
                    #[trigger] self.discover(found).queue[k],
                ) && !self.visited.contains(self.discover(found).queue[k]),
            forall|j: int, k: int|
                self.queue.len() <= j < k < self.discover(found).queue.len()
                    ==> #[trigger] self.discover(found).queue[j] != #[trigger] self.discover(
                    found,
                ).queue[k],
            forall|n: int|
                found.contains(n) && !self.visited.contains(n) ==> #[trigger] self.discover(
                    found,
                ).queue.contains(n),
        decreases found.len(),
    {
        let after = self.discover(found);
        if found.len() == 0 {
            assert(after == self);
            assert forall|n: int| !found.contains(n) by {}
        } else {
            let seen = if self.visited.contains(found[0]) {
                self
            } else {
                BfsModel {
                    visited: self.visited.insert(found[0]),
                    queue: self.queue.push(found[0]),
                }
            };
            let rest = found.drop_first();
            seen.lemma_discover(rest);
            assert(after == seen.discover(rest));
            assert(found.contains(found[0]));
            assert forall|n: int| rest.contains(n) implies found.contains(n) by {
                let k = choose|k: int| 0 <= k < rest.len() && rest[k] == n;
                assert(found[k + 1] == n);
            }
            assert forall|n: int| found.contains(n) implies n == found[0] || rest.contains(n) by {
                let k = choose|k: int| 0 <= k < found.len() && found[k] == n;
                if k > 0 {
                    assert(rest[k - 1] == n);
                }
            }
            assert forall|n: int| #[trigger]
                after.visited.contains(n) <==> self.visited.contains(n) || found.contains(n) by {
                assert(after.visited.contains(n) <==> seen.visited.contains(n) || rest.contains(
                    n,
                ));
            }
            assert forall|k: int| 0 <= k < self.queue.len() implies #[trigger] after.queue[k]
                == self.queue[k] by {
                assert(after.queue[k] == seen.queue[k]);
            }
            assert forall|k: int| self.queue.len() <= k < after.queue.len() implies found.contains(
                #[trigger] after.queue[k],
            ) && !self.visited.contains(after.queue[k]) by {
                if k < seen.queue.len() {
                    assert(after.queue[k] == seen.queue[k]);
                } else {
                    assert(rest.contains(after.queue[k]));
                    assert(!seen.visited.contains(after.queue[k]));
                }
            }
            assert forall|j: int, k: int|
                self.queue.len() <= j < k < after.queue.len() implies #[trigger] after.queue[j]
                != #[trigger] after.queue[k] by {
                if j < seen.queue.len() {
                    assert(after.queue[j] == seen.queue[j]);
                    assert(!seen.visited.contains(after.queue[k]));
                }
            }
            assert forall|n: int|
                found.contains(n) && !self.visited.contains(n)
                implies #[trigger] after.queue.contains(n) by {
                if seen.visited.contains(n) {
                    assert(n == found[0]);
                    assert(seen.queue[self.queue.len() as int] == n);
                    assert(after.queue[self.queue.len() as int] == n);
                } else {
                    assert(rest.contains(n));
                    assert(after.queue.contains(n));
                }
            }
        }
    }

    /// A step keeps the state settled; the index that it yields is seen
    /// afterwards and waits no more, and what waits afterwards either waited
    /// before or was not seen before.
    pub proof fn lemma_step(self, neighbors: Seq<int>)
        requires
            self.settled(),
            self.queue.len() > 0,
        ensures
            self.step(neighbors).settled(),
            self.step(neighbors).visited.contains(self.queue[0]),
            !self.step(neighbors).queue.contains(self.queue[0]),
            forall|n: int|
                self.visited.contains(n) ==> #[trigger] self.step(neighbors).visited.contains(n),
            forall|n: int| #[trigger]
                self.step(neighbors).queue.contains(n) ==> self.queue.contains(n)
                    || !self.visited.contains(n),
    {
        let cur = self.queue[0];
        let popped = BfsModel {
            visited: self.visited.insert(cur),
            queue: self.queue.drop_first(),
        };
        let after = self.step(neighbors);
        assert(after == popped.discover(neighbors));
        popped.lemma_discover(neighbors);
        assert(after.visited.contains(cur) <==> popped.visited.contains(cur) || neighbors.contains(
            cur,
        ));
        assert forall|n: int| self.visited.contains(n) implies #[trigger] after.visited.contains(
            n,
        ) by {
            assert(popped.visited.contains(n));
        }
        assert forall|k: int| 0 <= k < after.queue.len() implies (#[trigger] after.queue[k]) != cur
            && (self.queue.contains(after.queue[k]) || !self.visited.contains(after.queue[k]))
            && after.visited.contains(after.queue[k]) by {
            let n = after.queue[k];
            assert(after.visited.contains(n) <==> popped.visited.contains(n) || neighbors.contains(
                n,
            ));
            if k < popped.queue.len() {
                assert(n == popped.queue[k]);
                assert(popped.queue[k] == self.queue[k + 1]);
                assert(self.queue.contains(n));
                assert(self.visited.contains(n));
            } else {
                assert(neighbors.contains(n) && !popped.visited.contains(n));
            }
        }
        assert forall|j: int, k: int| 0 <= j < k < after.queue.len() implies after.queue[j]
            != after.queue[k] by {
            if k < popped.queue.len() {
                assert(after.queue[j] == popped.queue[j]);
                assert(after.queue[k] == popped.queue[k]);
                assert(popped.queue[j] == self.queue[j + 1]);
                assert(popped.queue[k] == self.queue[k + 1]);
            } else if j < popped.queue.len() {
                assert(after.queue[j] == popped.queue[j]);
                assert(popped.queue[j] == self.queue[j + 1]);
                assert(self.visited.contains(after.queue[j]));
                assert(!popped.visited.contains(after.queue[k]));
            }
        }
        assert forall|n: int| #[trigger] after.queue.contains(n) implies self.queue.contains(n)
            || !self.visited.contains(n) by {
            let k = choose|k: int| 0 <= k < after.queue.len() && after.queue[k] == n;
            assert(after.queue[k] != cur);
        }
        assert(!after.queue.contains(cur)) by {
            if after.queue.contains(cur) {
                let k = choose|k: int| 0 <= k < after.queue.len() && after.queue[k] == cur;
                assert(after.queue[k] != cur);
            }
        }
    }

    /// From a settled state on, no index is yielded twice, and every index
    /// that is yielded waits now or was not seen yet.
    pub proof fn lemma_order(self, neighbors: spec_fn(int) -> Seq<int>, steps: nat)
        requires
            self.settled(),
        ensures
            self.order(neighbors, steps).no_duplicates(),
            forall|n: int|
                self.order(neighbors, steps).contains(n) ==> self.queue.contains(n)
                    || !self.visited.contains(n),
        decreases steps,
    {
        if steps > 0 && self.queue.len() > 0 {
            let cur = self.queue[0];
            let after = self.step(neighbors(cur));
            let rest = after.order(neighbors, (steps - 1) as nat);
            let all = self.order(neighbors, steps);
            self.lemma_step(neighbors(cur));
            after.lemma_order(neighbors, (steps - 1) as nat);
            assert(all[0] == cur);
            assert forall|k: int| 1 <= k < all.len() implies all[k] == rest[k - 1] by {}
            assert forall|n: int| all.contains(n) implies self.queue.contains(n)
                || !self.visited.contains(n) by {
                let k = choose|k: int| 0 <= k < all.len() && all[k] == n;
                if k > 0 {
                    assert(rest.contains(rest[k - 1]));
                    assert(after.queue.contains(n) || !after.visited.contains(n));
                } else {
                    assert(self.queue[0] == n);
                }
            }
            assert forall|j: int, k: int| 0 <= j < k < all.len() implies all[j] != all[k] by {
                assert(rest.contains(rest[k - 1]));
                let n = all[k];
                assert(after.queue.contains(n) || !after.visited.contains(n));
            }
        }
    }
}

impl BfsModel {
    /// The indices below `bound` that were not seen.
    pub open spec fn unseen(self, bound: nat) -> Set<int> {
        Set::new(|i: int| 0 <= i < bound && !self.visited.contains(i))
    }

    /// A bound on the steps that are left, where every index is below
    /// `bound`: an index that was not seen may yet be queued, and a queued
    /// one be yielded.
    pub open spec fn work_left(self, bound: nat) -> nat {
        2 * self.unseen(bound).len() + self.queue.len()
    }

    /// Only finitely many indices below a bound were not seen.
    pub proof fn lemma_unseen_finite(self, bound: nat)
        ensures
            self.unseen(bound).finite(),
    {
        vstd::set_lib::lemma_int_range(0, bound as int);
        assert(self.unseen(bound).subset_of(vstd::set_lib::set_int_range(0, bound as int)));
        vstd::set_lib::lemma_set_subset_finite(
            vstd::set_lib::set_int_range(0, bound as int),
            self.unseen(bound),
        );
    }

    /// Looking at indices below `bound` leaves no more work than before.
    pub proof fn lemma_discover_work(self, found: Seq<int>, bound: nat)
        requires
            forall|k: int| 0 <= k < found.len() ==> 0 <= #[trigger] found[k] < bound,
        ensures
            self.discover(found).work_left(bound) <= self.work_left(bound),
        decreases found.len(),
    {
        if found.len() > 0 {
            let n = found[0];
            let seen = if self.visited.contains(n) {
                self
            } else {
                BfsModel { visited: self.visited.insert(n), queue: self.queue.push(n) }
            };
            let rest = found.drop_first();
            assert forall|k: int| 0 <= k < rest.len() implies 0 <= #[trigger] rest[k] < bound by {
                assert(rest[k] == found[k + 1]);
            }
            seen.lemma_discover_work(rest, bound);
            if !self.visited.contains(n) {
                self.lemma_unseen_finite(bound);
                assert(self.unseen(bound).contains(n));
                assert(seen.unseen(bound) =~= self.unseen(bound).remove(n));
            }
        }
    }

    /// Every step leaves less work than there was, where the index that it
    /// yields and its neighbors are below `bound`.
    pub proof fn lemma_step_work(self, neighbors: Seq<int>, bound: nat)
        requires
            self.queue.len() > 0,
            forall|k: int| 0 <= k < neighbors.len() ==> 0 <= #[trigger] neighbors[k] < bound,
        ensures
            self.step(neighbors).work_left(bound) < self.work_left(bound),
    {
        let cur = self.queue[0];
        let popped = BfsModel {
            visited: self.visited.insert(cur),
            queue: self.queue.drop_first(),
        };
        self.lemma_unseen_finite(bound);
        assert(popped.unseen(bound) =~= self.unseen(bound).remove(cur));
        popped.lemma_discover_work(neighbors, bound);
    }

    /// One more step after `steps` steps: it goes on from the state that
    /// they led to, and yields the index that waits there first.
    pub proof fn lemma_run_one_more(self, neighbors: spec_fn(int) -> Seq<int>, steps: nat)
        requires
            self.run(neighbors, steps).queue.len() > 0,
        ensures
            self.run(neighbors, steps + 1) == self.run(neighbors, steps).step(
                neighbors(self.run(neighbors, steps).queue[0]),
            ),
            self.order(neighbors, steps + 1) == self.order(neighbors, steps).push(
                self.run(neighbors, steps).queue[0],
            ),
            self.order(neighbors, steps).len() == steps,
        decreases steps,
    {
        if steps == 0 {
            assert(self.run(neighbors, 0) == self);
            let after = self.step(neighbors(self.queue[0]));
            assert(after.run(neighbors, 0) == after);
            assert(after.order(neighbors, 0) =~= Seq::<int>::empty());
            assert(self.order(neighbors, 1) =~= self.order(neighbors, 0).push(self.queue[0]));
        } else {
            assert(self.queue.len() > 0);
            let after = self.step(neighbors(self.queue[0]));
            after.lemma_run_one_more(neighbors, (steps - 1) as nat);
            assert(self.run(neighbors, steps) == after.run(neighbors, (steps - 1) as nat));
            assert(self.run(neighbors, steps + 1) == after.run(neighbors, steps));
            assert(self.order(neighbors, steps + 1) =~= self.order(neighbors, steps).push(
                self.run(neighbors, steps).queue[0],
            ));
        }
    }
}

/// A breadth-first traversal yields no index twice.
pub proof fn lemma_each_node_at_most_once(
    from: int,
    neighbors: spec_fn(int) -> Seq<int>,
    steps: nat,
)
    ensures
        BfsModel::start(from).order(neighbors, steps).no_duplicates(),
{
    BfsModel::start(from).lemma_order(neighbors, steps);
}

/// Each index of `path` but the first is a neighbor of the one before it.
pub open spec fn is_path(neighbors: spec_fn(int) -> Seq<int>, path: Seq<int>) -> bool {
    &&& path.len() > 0
    &&& forall|k: int|
        0 <= k < path.len() - 1 ==> neighbors(#[trigger] path[k]).contains(path[k + 1])
}

/// A path leads from `from` to `to`.
pub open spec fn reachable(neighbors: spec_fn(int) -> Seq<int>, from: int, to: int) -> bool {
    exists|path: Seq<int>|
        is_path(neighbors, path) && path[0] == from && #[trigger] path.last() == to
}

/// A path that is made one neighbor longer is a path.
pub proof fn lemma_reachable_step(neighbors: spec_fn(int) -> Seq<int>, from: int, via: int, to: int)
    requires
        reachable(neighbors, from, via),
        neighbors(via).contains(to),
    ensures
        reachable(neighbors, from, to),
{
    let path = choose|path: Seq<int>|
        is_path(neighbors, path) && path[0] == from && #[trigger] path.last() == via;
    let longer = path.push(to);
    assert forall|k: int| 0 <= k < longer.len() - 1 implies neighbors(
        #[trigger] longer[k],
    ).contains(longer[k + 1]) by {
        if k < path.len() - 1 {
            assert(longer[k] == path[k]);
            assert(longer[k + 1] == path[k + 1]);
        }
    }
    assert(longer[0] == from && longer.last() == to);
}

impl BfsModel {
    /// Where everything that waits can be reached from `from`, so can
    /// everything that is yielded.
    pub proof fn lemma_order_reachable(
        self,
        neighbors: spec_fn(int) -> Seq<int>,
        from: int,
        steps: nat,
    )
        requires
            forall|k: int| 0 <= k < self.queue.len() ==> reachable(neighbors, from, self.queue[k]),
        ensures
            forall|k: int|
                0 <= k < self.order(neighbors, steps).len() ==> reachable(
                    neighbors,
                    from,
                    #[trigger] self.order(neighbors, steps)[k],
                ),
        decreases steps,
    {
        if steps > 0 && self.queue.len() > 0 {
            let cur = self.queue[0];
            let popped = BfsModel {
                visited: self.visited.insert(cur),
                queue: self.queue.drop_first(),
            };
            let after = self.step(neighbors(cur));
            popped.lemma_discover(neighbors(cur));
            assert forall|k: int| 0 <= k < after.queue.len() implies reachable(
                neighbors,
                from,
                after.queue[k],
            ) by {
                if k < popped.queue.len() {
                    assert(after.queue[k] == popped.queue[k]);
                    assert(popped.queue[k] == self.queue[k + 1]);
                } else {
                    assert(neighbors(cur).contains(after.queue[k]));
                    lemma_reachable_step(neighbors, from, cur, after.queue[k]);
                }
            }
            after.lemma_order_reachable(neighbors, from, (steps - 1) as nat);
            let all = self.order(neighbors, steps);
            let rest = after.order(neighbors, (steps - 1) as nat);
            assert forall|k: int| 0 <= k < all.len() implies reachable(
                neighbors,
                from,
                #[trigger] all[k],
            ) by {
                if k > 0 {
                    assert(all[k] == rest[k - 1]);
                }
            }
        }
    }

    /// Once the queue is empty, further steps change nothing.
    pub proof fn lemma_run_ended(self, neighbors: spec_fn(int) -> Seq<int>, steps: nat)
        requires
            self.run(neighbors, steps).queue.len() == 0,
        ensures
            self.run(neighbors, steps + 1) == self.run(neighbors, steps),
            self.order(neighbors, steps + 1) == self.order(neighbors, steps),
        decreases steps,
    {
        if steps == 0 {
            assert(self.run(neighbors, 0) == self);
        } else if self.queue.len() > 0 {
            self.step(neighbors(self.queue[0])).lemma_run_ended(neighbors, (steps - 1) as nat);
        }
    }
}

/// What holds after each number of steps of a traversal from `from`: what
/// was seen, with `from`, is what was yielded and what waits; and the
/// neighbors of what was yielded were seen.
pub open spec fn covers(from: int, neighbors: spec_fn(int) -> Seq<int>, steps: nat) -> bool {
    let state = BfsModel::start(from).run(neighbors, steps);
    let yielded = BfsModel::start(from).order(neighbors, steps);
    &&& forall|n: int|
        (state.visited.contains(n) || n == from) <==> (#[trigger] yielded.contains(n)
            || state.queue.contains(n))
    &&& forall|v: int, n: int|
        #[trigger] yielded.contains(v) && neighbors(v).contains(n)
            ==> #[trigger] state.visited.contains(n)
}

/// `covers` holds after every number of steps.
pub proof fn lemma_covers(from: int, neighbors: spec_fn(int) -> Seq<int>, steps: nat)
    ensures
        covers(from, neighbors, steps),
    decreases steps,
{
    let start = BfsModel::start(from);
    if steps == 0 {
        assert(start.run(neighbors, 0) == start);
        assert(start.order(neighbors, 0) =~= Seq::<int>::empty());
        assert(start.queue[0] == from);
        assert forall|n: int|
            (start.visited.contains(n) || n == from) <==> (#[trigger] start.order(
                neighbors,
                0,
            ).contains(n) || start.queue.contains(n)) by {
            if start.queue.contains(n) {
                let k = choose|k: int| 0 <= k < start.queue.len() && start.queue[k] == n;
            }
        }
    } else {
        let s = (steps - 1) as nat;
        lemma_covers(from, neighbors, s);
        let state = start.run(neighbors, s);
        let yielded = start.order(neighbors, s);
        if state.queue.len() == 0 {
            start.lemma_run_ended(neighbors, s);
        } else {
            let cur = state.queue[0];
            let found = neighbors(cur);
            let popped = BfsModel {
                visited: state.visited.insert(cur),
                queue: state.queue.drop_first(),
            };
            let after = state.step(found);
            let longer = yielded.push(cur);
            start.lemma_run_one_more(neighbors, s);
            popped.lemma_discover(found);
            assert(after == start.run(neighbors, steps));
            assert(longer == start.order(neighbors, steps));
            assert forall|n: int| #[trigger]
                longer.contains(n) <==> yielded.contains(n) || n == cur by {
                if longer.contains(n) {
                    let k = choose|k: int| 0 <= k < longer.len() && longer[k] == n;
                    if k < yielded.len() {
                        assert(yielded[k] == n);
                    }
                }
                if yielded.contains(n) {
                    let k = choose|k: int| 0 <= k < yielded.len() && yielded[k] == n;
                    assert(longer[k] == n);
                }
                assert(longer[yielded.len() as int] == cur);
            }
            assert forall|n: int| popped.queue.contains(n) implies after.queue.contains(n) by {
                let k = choose|k: int| 0 <= k < popped.queue.len() && popped.queue[k] == n;
                assert(after.queue[k] == n);
            }
            assert forall|n: int|
                state.queue.contains(n) implies n == cur || popped.queue.contains(n) by {
                let k = choose|k: int| 0 <= k < state.queue.len() && state.queue[k] == n;
                if k > 0 {
                    assert(popped.queue[k - 1] == n);
                }
            }
            assert forall|n: int| after.queue.contains(n) implies state.queue.contains(n)
                || found.contains(n) by {
                let k = choose|k: int| 0 <= k < after.queue.len() && after.queue[k] == n;
                if k < popped.queue.len() {
                    assert(after.queue[k] == popped.queue[k]);
                    assert(popped.queue[k] == state.queue[k + 1]);
                }
            }
            assert forall|n: int|
                (after.visited.contains(n) || n == from) <==> (#[trigger] longer.contains(n)
                    || after.queue.contains(n)) by {
                assert(after.visited.contains(n) <==> popped.visited.contains(n) || found.contains(
                    n,
                ));
                assert((state.visited.contains(n) || n == from) <==> (yielded.contains(n)
                    || state.queue.contains(n)));
                if found.contains(n) && !popped.visited.contains(n) {
                    assert(after.queue.contains(n));
                }
            }
            assert forall|v: int, n: int|
                #[trigger] longer.contains(v) && neighbors(v).contains(
                    n,
                ) implies #[trigger] after.visited.contains(n) by {
                assert(after.visited.contains(n) <==> popped.visited.contains(n) || found.contains(
                    n,
                ));
                if v != cur {
                    assert(yielded.contains(v));
                    assert(state.visited.contains(n));
                }
            }
        }
    }
}

/// A traversal that has come to its end has yielded the indices that can
/// be reached from its start, and no others.
pub proof fn lemma_traversal_yields_the_reachable(
    from: int,
    neighbors: spec_fn(int) -> Seq<int>,
    steps: nat,
)
    requires
        BfsModel::start(from).run(neighbors, steps).queue.len() == 0,
    ensures
        forall|n: int|
            reachable(neighbors, from, n) <==> #[trigger] BfsModel::start(from).order(
                neighbors,
                steps,
            ).contains(n),
{
    let start = BfsModel::start(from);
    let state = start.run(neighbors, steps);
    let yielded = start.order(neighbors, steps);
    assert(start.queue[0] == from);
    let alone = seq![from];
    assert(is_path(neighbors, alone) && alone[0] == from && alone.last() == from);
    start.lemma_order_reachable(neighbors, from, steps);
    lemma_covers(from, neighbors, steps);
    assert forall|n: int| !state.queue.contains(n) by {}
    assert forall|n: int| reachable(neighbors, from, n) implies yielded.contains(n) by {
        let path = choose|path: Seq<int>|
            is_path(neighbors, path) && path[0] == from && #[trigger] path.last() == n;
        lemma_path_is_yielded(from, neighbors, steps, path, path.len() - 1);
    }
}

/// Where a traversal has come to its end, every index on a path from its
/// start was yielded.
proof fn lemma_path_is_yielded(
    from: int,
    neighbors: spec_fn(int) -> Seq<int>,
    steps: nat,
    path: Seq<int>,
    upto: int,
)
    requires
        BfsModel::start(from).run(neighbors, steps).queue.len() == 0,
        covers(from, neighbors, steps),
        is_path(neighbors, path),
        path[0] == from,
        0 <= upto < path.len(),
    ensures
        BfsModel::start(from).order(neighbors, steps).contains(path[upto]),
    decreases upto,
{
    let state = BfsModel::start(from).run(neighbors, steps);
    let yielded = BfsModel::start(from).order(neighbors, steps);
    assert forall|n: int| !state.queue.contains(n) by {}
    if upto == 0 {
        assert(yielded.contains(from) || state.queue.contains(from));
    } else {
        lemma_path_is_yielded(from, neighbors, steps, path, upto - 1);
        let v = path[upto - 1];
        let n = path[upto];
        assert(neighbors(v).contains(n));
        assert(yielded.contains(v));
        assert(state.visited.contains(n));
        assert(yielded.contains(n) || state.queue.contains(n));
    }
}

/// Iterates over breadth first traverse of graph: it yields the start node
/// first, then the nodes that its edges lead to, then theirs, and each node
/// once.
pub struct BreadthFirstTraverseIterator<'a, N, T, G: Neighbors<N, T>> {
    graph: &'a G,
    visited: HashSet<usize>,
    queue: VecDeque<usize>,
    phantom1: PhantomData<N>,
    phantom2: PhantomData<T>,
}

impl<'a, N, T, G: Neighbors<N, T>> View for BreadthFirstTraverseIterator<'a, N, T, G> {
    type V = BfsModel;

    closed spec fn view(&self) -> BfsModel {
        BfsModel {
            visited: Set::new(|i: int| 0 <= i <= usize::MAX && self.visited@.contains(i as usize)),
            queue: self.queue@.map_values(|i: usize| i as int),
        }
    }
}

impl<'a, N, T, G: Neighbors<N, T>> BreadthFirstTraverseIterator<'a, N, T, G> {
    /// The graph that is traversed.
    pub closed spec fn graph(&self) -> &'a G {
        self.graph
    }

    /// The graph may be asked, and every index in the queue is a node of it.
    pub open spec fn wf(&self) -> bool {
        &&& self.graph().is_valid()
        &&& forall|k: int|
            0 <= k < self@.queue.len() ==> self.graph().node_at(#[trigger] self@.queue[k]) is Some
    }

    /// The neighbors of each index in the graph that is traversed.
    pub open spec fn neighbor_map(&self) -> spec_fn(int) -> Seq<int> {
        |i: int| self.graph().neighbor_indices(i)
    }

    /// `entry` is what the traversal yields for the node with `index`: the
    /// node, and the nodes that its edges lead to.
    pub open spec fn is_entry_of(&self, entry: GraphEntry<'a, N>, index: int) -> bool {
        let targets = self.graph().neighbor_indices(index);
        &&& self.graph().node_at(index) == Some(*entry.node)
        &&& entry.edges@.len() == targets.len()
        &&& forall|k: int|
            0 <= k < targets.len() ==> self.graph().node_at(targets[k]) == Some(
                *#[trigger] entry.edges@[k],
            )
    }

    /// `entries` are what the traversal yields for `indices`, in order.
    pub open spec fn are_entries_of(
        &self,
        entries: Seq<GraphEntry<'a, N>>,
        indices: Seq<int>,
    ) -> bool {
        &&& entries.len() == indices.len()
        &&& forall|k: int|
            0 <= k < indices.len() ==> self.is_entry_of(#[trigger] entries[k], indices[k])
    }

    /// A traversal of `graph` that starts at the node with index `from`.
    pub fn new(graph: &'a G, from: usize) -> (traversal: Self)
        requires
            graph.is_valid(),
            graph.node_at(from as int) is Some,
        ensures
            traversal.wf(),
            traversal.graph() == graph,
            traversal@ == BfsModel::start(from as int),
    {
        let mut queue: VecDeque<usize> = VecDeque::new();
        queue.push_back(from);
        let traversal = Self {
            graph,
            visited: HashSet::new(),
            queue,
            phantom1: PhantomData,
            phantom2: PhantomData,
        };
        assert(traversal@.visited =~= Set::<int>::empty());
        assert(traversal@.queue =~= seq![from as int]);
        traversal
    }

    /// Takes one step: yields the node that is first in the queue with the
    /// nodes that its edges lead to, or nothing when the queue is empty.
    pub fn next(&mut self) -> (entry: Option<GraphEntry<'a, N>>)
        requires
            old(self).wf(),
        ensures
            final(self).wf(),
            final(self).graph() == old(self).graph(),
            match entry {
                None => old(self)@.queue.len() == 0 && final(self)@ == old(self)@,
                Some(found) => {
                    let cur = old(self)@.queue[0];
                    &&& old(self)@.queue.len() > 0
                    &&& old(self).is_entry_of(found, cur)
                    &&& final(self)@ == old(self)@.step(old(self).graph().neighbor_indices(cur))
                },
            },
    {
        let graph = self.graph;
        let cur = match self.queue.pop_front() {
            Some(cur) => cur,
            None => {
                assert(self@.queue =~= old(self)@.queue);
                return None;
            },
        };
        assert(cur as int == old(self)@.queue[0]);
        proof {
            graph.lemma_nodes_in_range(cur as int);
        }
        self.visited.insert(cur);
        let ghost popped = BfsModel {
            visited: old(self)@.visited.insert(cur as int),
            queue: old(self)@.queue.drop_first(),
        };
        assert(self@.visited =~= popped.visited);
        assert(self@.queue =~= popped.queue);
        let found = graph.neighbors(cur);
        let ghost targets = graph.neighbor_indices(cur as int);
        let node = graph.get_node_by_index(cur).unwrap();
        let mut edges: Vec<&'a N> = Vec::new();
        let mut k: usize = 0;
        while k < found.len()
            invariant
                k <= found@.len(),
                self.graph == graph,
                graph.is_valid(),
                graph.in_range(cur as int),
                targets == graph.neighbor_indices(cur as int),
                found@.len() == targets.len(),
                forall|j: int|
                    0 <= j < found@.len() ==> (#[trigger] found@[j]).0 == targets[j]
                        && graph.node_at(found@[j].0 as int) == Some(*found@[j].1),
                edges@.len() == k,
                forall|j: int|
                    0 <= j < k ==> graph.node_at(targets[j]) == Some(*#[trigger] edges@[j]),
                forall|j: int|
                    0 <= j < self@.queue.len() ==> graph.node_at(#[trigger] self@.queue[j]) is Some,
                self@ == popped.discover(targets.take(k as int)),
            decreases found@.len() - k,
        {
            let (idx, target) = found[k];
            let ghost before = self@;
            proof {
                graph.lemma_neighbors_are_nodes(cur as int, k as int);
                assert(targets.take(k + 1) =~= targets.take(k as int).push(targets[k as int]));
                popped.lemma_discover_push(targets.take(k as int), targets[k as int]);
                before.lemma_discover_one(idx as int);
            }
            if !self.visited.contains(&idx) {
                self.visited.insert(idx);
                self.queue.push_back(idx);
                assert(self@.visited =~= before.visited.insert(idx as int));
                assert(self@.queue =~= before.queue.push(idx as int));
            }
            edges.push(target);
            k += 1;
        }
        assert(targets.take(targets.len() as int) =~= targets);
        Some(GraphEntry { node, edges })
    }
}

impl<'a, N, T, G: Neighbors<N, T>> BreadthFirstTraverseIterator<'a, N, T, G> {
    /// Runs the traversal to its end and returns what it yields, in order.
    pub fn collect(self) -> (entries: Vec<GraphEntry<'a, N>>)
        requires
            self.wf(),
        ensures
            exists|steps: nat|
                self@.run(self.neighbor_map(), steps).queue.len() == 0 && self.are_entries_of(
                    entries@,
                    #[trigger] self@.order(self.neighbor_map(), steps),
                ),
    {
        let mut traversal = self;
        let mut entries: Vec<GraphEntry<'a, N>> = Vec::new();
        let ghost start = self@;
        let ghost neighbors = self.neighbor_map();
        let ghost bound = (usize::MAX + 1) as nat;
        let ghost mut steps: nat = 0;
        proof {
            assert(start.order(neighbors, 0) =~= Seq::<int>::empty());
        }
        loop
            invariant
                traversal.wf(),
                traversal.graph() == self.graph(),
                neighbors == self.neighbor_map(),
                bound == usize::MAX + 1,
                start == self@,
                traversal@ == start.run(neighbors, steps),
                self.are_entries_of(entries@, start.order(neighbors, steps)),
            ensures
                traversal@.queue.len() == 0,
                traversal@ == start.run(neighbors, steps),
                self.are_entries_of(entries@, start.order(neighbors, steps)),
            decreases traversal@.work_left(bound),
        {
            let ghost before = traversal@;
            let ghost listed = start.order(neighbors, steps);
            match traversal.next() {
                None => {
                    break ;
                },
                Some(entry) => {
                    proof {
                        let cur = before.queue[0];
                        let targets = self.graph().neighbor_indices(cur);
                        assert(neighbors(cur) == targets);
                        self.graph().lemma_nodes_in_range(cur);
                        assert forall|k: int| 0 <= k < targets.len() implies 0
                            <= #[trigger] targets[k] < bound by {
                            self.graph().lemma_neighbors_are_nodes(cur, k);
                            self.graph().lemma_nodes_in_range(targets[k]);
                        }
                        before.lemma_step_work(targets, bound);
                        start.lemma_run_one_more(neighbors, steps);
                        steps = steps + 1;
                    }
                    let ghost held = entries@;
                    entries.push(entry);
                    proof {
                        assert forall|k: int|
                            0 <= k < start.order(neighbors, steps).len() implies self.is_entry_of(
                            #[trigger] entries@[k],
                            start.order(neighbors, steps)[k],
                        ) by {
                            if k < listed.len() {
                                assert(start.order(neighbors, steps)[k] == listed[k]);
                                assert(entries@[k] == held[k]);
                            }
                        }
                    }
                },
            }
        }
        entries
    }
}

/// Boundary for getting iterator over breadth first traverse of graph.
pub trait BfsIterable<N, T, G: Neighbors<N, T>> {
    /// The graph that a traversal of this value walks.
    spec fn traversed(&self) -> &G;

    fn get_graph(&self) -> (graph: &G)
        ensures
            graph == self.traversed(),
    ;

    /// A breadth-first traversal that starts at the node with index `from`.
    fn bfs_iter(&self, from: usize) -> (traversal: BreadthFirstTraverseIterator<'_, N, T, G>)
        requires
            self.traversed().is_valid(),
            self.traversed().node_at(from as int) is Some,
        ensures
            traversal.wf(),
            traversal.graph() == self.traversed(),
            traversal@ == BfsModel::start(from as int),
    {
        BreadthFirstTraverseIterator::new(self.get_graph(), from)
    }
}

} // verus!
