//! Manage and evolve the dependency graph at runtime.
//!
//! The graph performs a topological release of the configured processes:
//! each node counts its unresolved predecessors and becomes runnable when
//! the count reaches zero.

use vstd::prelude::*;

use crate::config::ProcessConfig;
use crate::config::is_cronjob_type;
use crate::config::unique_names;
use crate::text::str_eq;

verus! {

/// Largest accepted number of processes and of references per process;
/// keeps the predecessor counters inside `u64` and the total edge count
/// inside the graph library's 32-bit indices.
pub const SIZE_LIMIT: usize = 1024;

/// Process information relevant for dependency resolution.
///
/// Values found in `after_self` are process ids.
#[derive(Debug)]
pub struct ProcessNode {
    pub after_self: Vec<usize>,
    pub predecessor_count: u64,
    pub finished: bool,
}

/// Errors occurring during dependency graph construction.
#[derive(Debug, PartialEq, Eq, Clone, Copy)]
pub enum Error {
    /// The dependency graph contains a cycle involving the contained
    /// process id.
    Cycle(usize),
    /// The first process id references an unknown program in its `after`
    /// section at the second id's position.
    UnknownAfterReference(usize, usize),
    /// The first process id references an unknown program in its `before`
    /// section at the second id's position.
    UnknownBeforeReference(usize, usize),
    /// The process id references a cronjob in its `after` section.
    CronjobDependency(usize),
}

/// Occurrences of `v` in `s`.
pub open spec fn occ(s: Seq<usize>, v: int) -> nat
    decreases s.len(),
{
    if s.len() == 0 {
        0
    } else {
        (if s[0] == v {
            1nat
        } else {
            0nat
        }) + occ(s.drop_first(), v)
    }
}

/// Whether `j` stands somewhere in the queue.
pub open spec fn in_queue(queue: Seq<usize>, j: int) -> bool {
    exists|q: int| 0 <= q < queue.len() && queue[q] == j
}

/// A value occurs iff the sequence contains it.
pub proof fn lemma_occ_contains(s: Seq<usize>, v: int)
    ensures
        occ(s, v) > 0 <==> (exists|k: int| 0 <= k < s.len() && s[k] == v),
    decreases s.len(),
{
    if s.len() > 0 {
        lemma_occ_contains(s.drop_first(), v);
        if s[0] == v {
        } else if exists|k: int| 0 <= k < s.len() && s[k] == v {
            let k = choose|k: int| 0 <= k < s.len() && s[k] == v;
            assert(s.drop_first()[k - 1] == v);
        } else if occ(s.drop_first(), v) > 0 {
            let k = choose|k: int| 0 <= k < s.drop_first().len() && s.drop_first()[k] == v;
            assert(s[k + 1] == v);
        }
    }
}

/// Occurrences in a suffix never exceed those in the whole.
proof fn lemma_occ_skip_le(s: Seq<usize>, k: int, v: int)
    requires
        0 <= k <= s.len(),
    ensures
        occ(s.skip(k), v) <= occ(s, v),
    decreases k,
{
    if k > 0 {
        lemma_occ_skip_le(s, k - 1, v);
        assert(s.skip(k - 1).len() > 0);
        assert(s.skip(k - 1).drop_first() =~= s.skip(k));
        assert(occ(s.skip(k - 1), v) == (if s.skip(k - 1)[0] == v {
            1nat
        } else {
            0nat
        }) + occ(s.skip(k), v));
    } else {
        assert(s.skip(0) =~= s);
    }
}

/// Predecessors of `j` contributed by the first `upto` adjacency lists.
pub open spec fn preds_upto(lists: Seq<Seq<usize>>, j: int, upto: int) -> nat
    decreases upto,
{
    if upto <= 0 {
        0
    } else {
        preds_upto(lists, j, upto - 1) + occ(lists[upto - 1], j)
    }
}

/// The adjacency lists of the unfinished nodes; a finished node no longer
/// contributes predecessors.
pub open spec fn active_lists(nodes: Seq<ProcessNode>) -> Seq<Seq<usize>> {
    nodes.map_values(
        |n: ProcessNode|
            if n.finished {
                Seq::<usize>::empty()
            } else {
                n.after_self@
            },
    )
}

/// Total predecessors of `j` over the unfinished nodes.
pub open spec fn pred_total(nodes: Seq<ProcessNode>, j: int) -> nat {
    preds_upto(active_lists(nodes), j, nodes.len() as int)
}

/// Emptying one list removes exactly its occurrences from the sums.
proof fn lemma_preds_empty_one(l1: Seq<Seq<usize>>, l2: Seq<Seq<usize>>, i: int, j: int, upto: int)
    requires
        l1.len() == l2.len(),
        0 <= i < l1.len(),
        forall|k: int| 0 <= k < l1.len() && k != i ==> l1[k] == l2[k],
        l2[i] == Seq::<usize>::empty(),
        0 <= upto <= l1.len(),
    ensures
        preds_upto(l1, j, upto) == preds_upto(l2, j, upto) + if i < upto {
            occ(l1[i], j)
        } else {
            0
        },
    decreases upto,
{
    if upto > 0 {
        lemma_preds_empty_one(l1, l2, i, j, upto - 1);
    }
}

/// Removing the head of one list removes one occurrence from the sums.
proof fn lemma_preds_drop_head(l1: Seq<Seq<usize>>, l2: Seq<Seq<usize>>, i: int, j: int, upto: int)
    requires
        l1.len() == l2.len(),
        0 <= i < l1.len(),
        forall|k: int| 0 <= k < l1.len() && k != i ==> l1[k] == l2[k],
        l1[i].len() > 0,
        l2[i] == l1[i].drop_first(),
        0 <= upto <= l1.len(),
    ensures
        preds_upto(l1, j, upto) == preds_upto(l2, j, upto) + if i < upto && l1[i][0] == j {
            1nat
        } else {
            0nat
        },
    decreases upto,
{
    if upto > 0 {
        lemma_preds_drop_head(l1, l2, i, j, upto - 1);
    }
}

/// A single list's occurrences never exceed the total.
proof fn lemma_preds_at_least_one(lists: Seq<Seq<usize>>, i: int, j: int, upto: int)
    requires
        0 <= i < upto <= lists.len(),
    ensures
        preds_upto(lists, j, upto) >= occ(lists[i], j),
    decreases upto,
{
    if i < upto - 1 {
        lemma_preds_at_least_one(lists, i, j, upto - 1);
    }
}

/// All data structures needed for dependency management.
pub struct DependencyManager {
    nodes: Vec<ProcessNode>,
    runnable: Vec<usize>,
    runnable_archive: Vec<bool>,
    popped: Ghost<Set<usize>>,
}

impl DependencyManager {
    /// Number of processes under management.
    pub closed spec fn n(self) -> int {
        self.nodes@.len() as int
    }

    /// Whether `id` was ever offered as runnable.
    pub closed spec fn spec_is_runnable(self, id: int) -> bool {
        0 <= id < self.runnable_archive@.len() && self.runnable_archive@[id]
    }

    /// The number of unresolved predecessors of `id`.
    pub closed spec fn spec_count(self, id: int) -> nat {
        self.nodes@[id].predecessor_count as nat
    }

    /// Whether `id` has triggered its dependants.
    pub closed spec fn spec_finished(self, id: int) -> bool {
        0 <= id < self.n() && self.nodes@[id].finished
    }

    /// The adjacency list of `id`.
    pub closed spec fn spec_after_self(self, id: int) -> Seq<usize> {
        self.nodes@[id].after_self@
    }

    /// The ids already yielded by `pop_runnable`.
    pub closed spec fn spec_popped(self) -> Set<usize> {
        self.popped@
    }

    /// The queue of ids waiting to be yielded.
    pub closed spec fn spec_queue(self) -> Seq<usize> {
        self.runnable@
    }

    /// Whether two managers hold the same nodes and the same archive.
    pub closed spec fn same_graph(self, other: Self) -> bool {
        self.nodes == other.nodes && self.runnable_archive == other.runnable_archive
    }

    /// Structural soundness of the manager.
    ///
    /// The predecessor counters agree with the adjacency lists of the
    /// unfinished nodes; an archived id has no unresolved predecessors;
    /// the queue holds archived, never-yielded ids without duplicates.
    pub closed spec fn wf(self) -> bool {
        &&& self.runnable_archive@.len() == self.n()
        &&& self.nodes@.len() <= SIZE_LIMIT
        &&& forall|i: int|
            0 <= i < self.n() ==> (#[trigger] self.nodes@[i].after_self@).len() <= SIZE_LIMIT * SIZE_LIMIT + SIZE_LIMIT
        &&& forall|i: int, k: int|
            0 <= i < self.n() && 0 <= k < self.nodes@[i].after_self@.len()
                ==> (#[trigger] self.nodes@[i].after_self@[k]) < self.n()
        &&& forall|j: int|
            0 <= j < self.n() ==> (#[trigger] self.nodes@[j].predecessor_count) as nat
                == pred_total(self.nodes@, j)
        &&& forall|j: int|
            0 <= j < self.n() && #[trigger] self.runnable_archive@[j]
                ==> self.nodes@[j].predecessor_count == 0
        &&& forall|k: int|
            0 <= k < self.runnable@.len() ==> (#[trigger] self.runnable@[k]) < self.n()
        &&& forall|k: int|
            0 <= k < self.runnable@.len() ==> self.runnable_archive@[(
            #[trigger] self.runnable@[k]) as int]
        &&& forall|k1: int, k2: int|
            0 <= k1 < k2 < self.runnable@.len() ==> #[trigger] self.runnable@[k1]
                != #[trigger] self.runnable@[k2]
        &&& forall|k: int|
            0 <= k < self.runnable@.len() ==> !self.popped@.contains(
                #[trigger] self.runnable@[k],
            )
        &&& forall|x: usize| #[trigger] self.popped@.contains(x) ==> x < self.n()
            && self.runnable_archive@[x as int]
    }

    /// An id that was ever runnable has only finished predecessors:
    /// everything that had to run before it has triggered its dependants.
    pub proof fn lemma_runnable_preds_finished(self, id: int)
        requires
            self.wf(),
            self.spec_is_runnable(id),
        ensures
            forall|i: int, k: int|
                0 <= i < self.n() && 0 <= k < self.spec_after_self(i).len()
                    && self.spec_after_self(i)[k] == id ==> self.spec_finished(i),
    {
        assert forall|i: int, k: int|
            0 <= i < self.n() && 0 <= k < self.spec_after_self(i).len() && self.spec_after_self(
                i,
            )[k] == id implies self.spec_finished(i) by {
            if !self.nodes@[i].finished {
                lemma_occ_contains(self.nodes@[i].after_self@, id);
                assert(active_lists(self.nodes@)[i] == self.nodes@[i].after_self@);
                lemma_preds_at_least_one(active_lists(self.nodes@), i, id, self.n());
            }
        }
    }

    /// Check if any process can be run now.
    pub fn has_runnables(&self) -> (r: bool)
        ensures
            r == (self.spec_queue().len() != 0),
    {
        self.runnable.len() != 0
    }

    /// Get the next runnable process.
    ///
    /// Every id is yielded at most once over the manager's lifetime.
    pub fn pop_runnable(&mut self) -> (r: Option<usize>)
        requires
            old(self).wf(),
        ensures
            final(self).wf(),
            match r {
                None => final(self).same_graph(*old(self)) && final(self).spec_queue() == old(
                    self,
                ).spec_queue() && final(self).spec_popped() == old(self).spec_popped() && old(
                    self,
                ).spec_queue().len() == 0,
                Some(id) => {
                    &&& old(self).spec_queue().len() > 0
                    &&& id == old(self).spec_queue().last()
                    &&& final(self).spec_queue() == old(self).spec_queue().drop_last()
                    &&& !old(self).spec_popped().contains(id)
                    &&& final(self).spec_popped() == old(self).spec_popped().insert(id)
                    &&& final(self).spec_is_runnable(id as int)
                    &&& final(self).same_graph(*old(self))
                },
            },
            forall|j: int|
                old(self).spec_is_runnable(j) ==> final(self).spec_is_runnable(j),
            final(self).n() == old(self).n(),
            forall|j: int| final(self).spec_finished(j) == old(self).spec_finished(j),
            forall|j: int| final(self).spec_is_runnable(j) == old(self).spec_is_runnable(j),
            forall|j: int| final(self).spec_after_self(j) == old(self).spec_after_self(j),
    {
        let r = self.runnable.pop();
        match r {
            None => None,
            Some(id) => {
                proof {
                    self.popped@ = self.popped@.insert(id);
                }
                Some(id)
            },
        }
    }

    /// Check if the given process id has ever reached runnable state.
    pub fn is_runnable(&self, process_id: usize) -> (r: bool)
        ensures
            r == self.spec_is_runnable(process_id as int),
    {
        process_id < self.runnable_archive.len() && self.runnable_archive[process_id]
    }

    /// Mark the process as finished and compute new runnables from this
    /// event.
    ///
    /// Each member of the process's `after_self` list loses one
    /// unresolved predecessor; members reaching zero become runnable.
    /// Calling this twice for the same id changes nothing the second
    /// time.
    #[verifier::loop_isolation(false)]
    pub fn notify_process_finished(&mut self, process_id: usize)
        requires
            old(self).wf(),
            0 <= process_id < old(self).n(),
        ensures
            final(self).wf(),
            final(self).n() == old(self).n(),
            final(self).spec_finished(process_id as int),
            old(self).spec_finished(process_id as int) ==> final(self).same_graph(*old(self))
                && final(self).spec_queue() == old(self).spec_queue() && final(self).spec_popped()
                == old(self).spec_popped(),
            forall|i: int|
                0 <= i < old(self).n() ==> final(self).spec_after_self(i) == old(
                    self,
                ).spec_after_self(i),
            forall|i: int|
                0 <= i < old(self).n() && i != process_id ==> (final(self).spec_finished(i) == old(
                    self,
                ).spec_finished(i)),
            final(self).spec_popped() == old(self).spec_popped(),
            forall|j: int| old(self).spec_is_runnable(j) ==> final(self).spec_is_runnable(j),
            forall|j: int|
                0 <= j < old(self).n() ==> (final(self).spec_is_runnable(j) ==> old(
                    self,
                ).spec_is_runnable(j) || occ(old(self).spec_after_self(process_id as int), j)
                    > 0),
            old(self).spec_queue().len() <= final(self).spec_queue().len(),
            forall|k: int|
                0 <= k < old(self).spec_queue().len() ==> final(self).spec_queue()[k] == old(
                    self,
                ).spec_queue()[k],
            !old(self).spec_finished(process_id as int) ==> forall|j: int|
                0 <= j < old(self).n() ==> #[trigger] final(self).spec_count(j) + occ(
                    old(self).spec_after_self(process_id as int),
                    j,
                ) == old(self).spec_count(j),
            !old(self).spec_finished(process_id as int) ==> forall|j: int|
                0 <= j < old(self).n() ==> (#[trigger] final(self).spec_is_runnable(j) <==> (old(
                    self,
                ).spec_is_runnable(j) || (occ(old(self).spec_after_self(process_id as int), j) > 0
                    && final(self).spec_count(j) == 0))),
            forall|j: int|
                0 <= j < old(self).n() && #[trigger] final(self).spec_is_runnable(j) && !old(
                    self,
                ).spec_is_runnable(j) ==> in_queue(final(self).spec_queue(), j),
            forall|q: int|
                old(self).spec_queue().len() <= q < final(self).spec_queue().len() ==> !old(
                    self,
                ).spec_is_runnable((#[trigger] final(self).spec_queue()[q]) as int),
    {
        if self.nodes[process_id].finished {
            return ;
        }
        let ghost orig = *self;
        let ghost pre_lists = active_lists(self.nodes@);
        let node = &mut self.nodes[process_id];
        node.finished = true;
        proof {
            let mid_lists = active_lists(self.nodes@);
            assert forall|j: int|
                preds_upto(pre_lists, j, orig.n()) == preds_upto(mid_lists, j, orig.n()) + occ(
                    orig.spec_after_self(process_id as int),
                    j,
                ) by {
                lemma_preds_empty_one(pre_lists, mid_lists, process_id as int, j, orig.n());
            }
            assert forall|j: int|
                0 <= j < orig.n() && #[trigger] orig.runnable_archive@[j] implies occ(
                orig.spec_after_self(process_id as int),
                j,
            ) == 0 by {
                lemma_preds_at_least_one(pre_lists, process_id as int, j, orig.n());
            }
        }
        let list = self.nodes[process_id].after_self.clone();
        let len = list.len();
        let ghost full = orig.spec_after_self(process_id as int);
        proof {
            assert(full.skip(0) =~= full);
        }
        let mut k: usize = 0;
        proof {
            assert(full.take(0) =~= Seq::<usize>::empty());
        }
        while k < len
            invariant
                list@ == full,
                len == full.len(),
                0 <= k <= len,
                forall|j: int|
                    0 <= j < orig.n() ==> (#[trigger] self.nodes@[j].predecessor_count) as nat
                        + occ(full.take(k as int), j) == orig.nodes@[j].predecessor_count as nat,
                forall|j: int|
                    0 <= j < orig.n() ==> ((#[trigger] self.runnable_archive@[j])
                        <==> (orig.runnable_archive@[j] || (occ(full.take(k as int), j) > 0
                        && self.nodes@[j].predecessor_count == 0))),
                forall|j: int|
                    0 <= j < orig.n() && #[trigger] self.runnable_archive@[j]
                        && !orig.runnable_archive@[j] ==> in_queue(self.runnable@, j),
                forall|q: int|
                    orig.spec_queue().len() <= q < self.runnable@.len()
                        ==> !orig.runnable_archive@[(#[trigger] self.runnable@[q]) as int],
                self.nodes@.len() == orig.n(),
                self.runnable_archive@.len() == orig.n(),
                forall|i: int|
                    0 <= i < orig.n() ==> (#[trigger] self.nodes@[i].after_self@) == orig.nodes@[i].after_self@,
                forall|i: int|
                    0 <= i < orig.n() ==> ((#[trigger] self.nodes@[i].finished) == (orig.nodes@[i].finished || i == process_id)),
                forall|j: int|
                    0 <= j < orig.n() ==> (#[trigger] self.nodes@[j].predecessor_count) as nat
                        == pred_total(self.nodes@, j) + occ(full.skip(k as int), j),
                forall|j: int|
                    0 <= j < orig.n() && #[trigger] self.runnable_archive@[j] ==> self.nodes@[j].predecessor_count == 0 && occ(full.skip(k as int), j) == 0,
                forall|q: int|
                    0 <= q < self.runnable@.len() ==> (#[trigger] self.runnable@[q]) < orig.n(),
                forall|q: int|
                    0 <= q < self.runnable@.len() ==> self.runnable_archive@[(
                    #[trigger] self.runnable@[q]) as int],
                forall|q1: int, q2: int|
                    0 <= q1 < q2 < self.runnable@.len() ==> #[trigger] self.runnable@[q1]
                        != #[trigger] self.runnable@[q2],
                forall|q: int|
                    0 <= q < self.runnable@.len() ==> !self.popped@.contains(
                        #[trigger] self.runnable@[q],
                    ),
                forall|x: usize| #[trigger] self.popped@.contains(x) ==> x < orig.n()
                    && self.runnable_archive@[x as int],
                self.popped@ == orig.popped@,
                forall|j: int| orig.spec_is_runnable(j) ==> self.runnable_archive@[j],
                forall|j: int|
                    0 <= j < orig.n() && #[trigger] self.runnable_archive@[j]
                        ==> orig.runnable_archive@[j] || occ(full, j) > 0,
                orig.spec_queue().len() <= self.runnable@.len(),
                forall|q: int|
                    0 <= q < orig.spec_queue().len() ==> self.runnable@[q] == orig.spec_queue()[q],
            decreases len - k,
        {
            let successor = list[k];
            proof {
                assert(full.skip(k as int)[0] == full[k as int]);
                assert(full.skip(k as int).drop_first() =~= full.skip(k + 1));
                assert(occ(full.skip(k as int), successor as int) >= 1);
                assert forall|j: int|
                    occ(full.take(k + 1), j) == occ(full.take(k as int), j) + (if full[k as int]
                        == j {
                        1nat
                    } else {
                        0nat
                    }) by {
                    lemma_occ_push(full.take(k as int), full[k as int], j);
                    assert(full.take(k as int).push(full[k as int]) =~= full.take(k + 1));
                }
            }
            let ghost before_nodes = self.nodes@;
            let snode = &mut self.nodes[successor];
            let new_count = snode.predecessor_count - 1;
            snode.predecessor_count = new_count;
            proof {
                assert(active_lists(before_nodes) =~= active_lists(self.nodes@));
                assert forall|j: int|
                    0 <= j < orig.n() implies pred_total(before_nodes, j) == pred_total(
                    self.nodes@,
                    j,
                ) by {
                    assert(preds_upto(active_lists(before_nodes), j, orig.n()) == preds_upto(
                        active_lists(self.nodes@),
                        j,
                        orig.n(),
                    ));
                }
            }
            if new_count == 0 {
                proof {
                    assert(!self.runnable_archive@[successor as int]);
                    lemma_occ_skip_le(full, k as int, successor as int);
                }
                let ghost pre_queue = self.runnable@;
                self.runnable.push(successor);
                self.runnable_archive.set(successor, true);
                proof {
                    assert forall|j: int|
                        0 <= j < orig.n() && #[trigger] self.runnable_archive@[j]
                            && !orig.runnable_archive@[j] implies in_queue(
                        self.runnable@,
                        j,
                    ) by {
                        if j == successor {
                            assert(self.runnable@[self.runnable@.len() - 1] == successor);
                        } else {
                            let q = choose|q: int|
                                0 <= q < pre_queue.len() && pre_queue[q] == j;
                            assert(self.runnable@[q] == j as usize);
                        }
                    }
                }
            }
            k += 1;
        }
        proof {
            assert(full.skip(len as int) =~= Seq::<usize>::empty());
            assert(full.take(len as int) =~= full);
        }
    }
}

/// First configuration index carrying the given program name.
pub open spec fn find_from(cfg: Seq<(usize, ProcessConfig)>, name: Seq<char>, k: int) -> Option<
    int,
>
    decreases cfg.len() - k,
{
    if k < 0 || k >= cfg.len() {
        None
    } else if cfg[k].1.name@ == name {
        Some(k)
    } else {
        find_from(cfg, name, k + 1)
    }
}

/// Resolve a program name to its configuration index.
pub open spec fn spec_find_name(cfg: Seq<(usize, ProcessConfig)>, name: Seq<char>) -> Option<int> {
    find_from(cfg, name, 0)
}

/// Find the configuration index carrying the given name.
#[verifier::loop_isolation(false)]
fn find_name(config: &Vec<(usize, ProcessConfig)>, name: &str) -> (r: Option<usize>)
    ensures
        match r {
            Some(i) => i < config@.len() && spec_find_name(config@, name@) == Some(i as int),
            None => spec_find_name(config@, name@) is None,
        },
{
    let n = config.len();
    let mut i: usize = 0;
    while i < n
        invariant
            0 <= i <= n,
            spec_find_name(config@, name@) == find_from(config@, name@, i as int),
        decreases n - i,
    {
        if str_eq(config[i].1.name.as_str(), name) {
            return Some(i);
        }
        i += 1;
    }
    None
}

/// The first error among the `after` references of program `i`, from
/// position `k` on.
pub open spec fn after_err_from(cfg: Seq<(usize, ProcessConfig)>, i: int, k: int) -> Option<Error>
    decreases cfg[i].1.after@.len() - k,
{
    if k < 0 || k >= cfg[i].1.after@.len() {
        None
    } else {
        match spec_find_name(cfg, cfg[i].1.after@[k]@) {
            None => Some(Error::UnknownAfterReference(i as usize, k as usize)),
            Some(t) => if is_cronjob_type(cfg[t].1.process_type) {
                Some(Error::CronjobDependency(i as usize))
            } else {
                after_err_from(cfg, i, k + 1)
            },
        }
    }
}

/// The first error among the `before` references of program `i`, from
/// position `k` on.
pub open spec fn before_err_from(cfg: Seq<(usize, ProcessConfig)>, i: int, k: int) -> Option<Error>
    decreases cfg[i].1.before@.len() - k,
{
    if k < 0 || k >= cfg[i].1.before@.len() {
        None
    } else {
        match spec_find_name(cfg, cfg[i].1.before@[k]@) {
            None => Some(Error::UnknownBeforeReference(i as usize, k as usize)),
            Some(_) => before_err_from(cfg, i, k + 1),
        }
    }
}

/// The first reference error from program `i` on.
pub open spec fn validate_from(cfg: Seq<(usize, ProcessConfig)>, i: int) -> Option<Error>
    decreases cfg.len() - i,
{
    if i < 0 || i >= cfg.len() {
        None
    } else {
        match after_err_from(cfg, i, 0) {
            Some(e) => Some(e),
            None => match before_err_from(cfg, i, 0) {
                Some(e) => Some(e),
                None => validate_from(cfg, i + 1),
            },
        }
    }
}

/// The first reference error of the whole configuration.
pub open spec fn spec_validate(cfg: Seq<(usize, ProcessConfig)>) -> Option<Error> {
    validate_from(cfg, 0)
}

/// Check that the name references of all programs resolve and that no
/// `after` reference names a cronjob.
#[verifier::loop_isolation(false)]
fn validate_references(config: &Vec<(usize, ProcessConfig)>) -> (r: Option<Error>)
    ensures
        r == spec_validate(config@),
{
    let n = config.len();
    let mut i: usize = 0;
    while i < n
        invariant
            0 <= i <= n,
            spec_validate(config@) == validate_from(config@, i as int),
        decreases n - i,
    {
        let after_len = config[i].1.after.len();
        let mut k: usize = 0;
        while k < after_len
            invariant
                0 <= k <= after_len,
                after_len == config@[i as int].1.after@.len(),
                after_err_from(config@, i as int, 0) == after_err_from(config@, i as int, k as int),
            decreases after_len - k,
        {
            match find_name(config, config[i].1.after[k].as_str()) {
                None => {
                    return Some(Error::UnknownAfterReference(i, k));
                },
                Some(t) => {
                    if matches!(config[t].1.process_type, crate::config::ProcessType::CronJob { .. }) {
                        return Some(Error::CronjobDependency(i));
                    }
                },
            }
            k += 1;
        }
        let before_len = config[i].1.before.len();
        let mut k2: usize = 0;
        while k2 < before_len
            invariant
                0 <= k2 <= before_len,
                before_len == config@[i as int].1.before@.len(),
                after_err_from(config@, i as int, 0) is None,
                before_err_from(config@, i as int, 0) == before_err_from(
                    config@,
                    i as int,
                    k2 as int,
                ),
            decreases before_len - k2,
        {
            match find_name(config, config[i].1.before[k2].as_str()) {
                None => {
                    return Some(Error::UnknownBeforeReference(i, k2));
                },
                Some(_) => {},
            }
            k2 += 1;
        }
        i += 1;
    }
    None
}

/// The resolved `before` targets of program `i`, first `k` of them.
pub open spec fn rb_upto(cfg: Seq<(usize, ProcessConfig)>, i: int, k: int) -> Seq<usize>
    decreases k,
{
    if k <= 0 {
        Seq::empty()
    } else {
        rb_upto(cfg, i, k - 1).push(spec_find_name(cfg, cfg[i].1.before@[k - 1]@).unwrap() as usize)
    }
}

/// Copies of `j` for each of the first `k` entries of `j`'s `after` list
/// that resolve to `i`.
pub open spec fn refs_in_upto(cfg: Seq<(usize, ProcessConfig)>, i: int, j: int, k: int) -> Seq<
    usize,
>
    decreases k,
{
    if k <= 0 {
        Seq::empty()
    } else {
        refs_in_upto(cfg, i, j, k - 1) + (if spec_find_name(cfg, cfg[j].1.after@[k - 1]@) == Some(
            i,
        ) {
            seq![j as usize]
        } else {
            Seq::<usize>::empty()
        })
    }
}

/// The programs that list `i` in their `after` section, among the first
/// `j` programs, one copy per listing.
pub open spec fn referrers_upto(cfg: Seq<(usize, ProcessConfig)>, i: int, j: int) -> Seq<usize>
    decreases j,
{
    if j <= 0 {
        Seq::empty()
    } else {
        referrers_upto(cfg, i, j - 1) + refs_in_upto(cfg, i, j - 1, cfg[j - 1].1.after@.len() as int)
    }
}

/// The successors of program `i`: its own `before` targets, then the
/// programs that list it in their `after` section.
pub open spec fn spec_adjacency(cfg: Seq<(usize, ProcessConfig)>, i: int) -> Seq<usize> {
    rb_upto(cfg, i, cfg[i].1.before@.len() as int) + referrers_upto(cfg, i, cfg.len() as int)
}

/// The adjacency lists induced by the configuration.
pub open spec fn config_lists(cfg: Seq<(usize, ProcessConfig)>) -> Seq<Seq<usize>> {
    Seq::new(cfg.len(), |i: int| spec_adjacency(cfg, i))
}

/// An edge from `a` to `b` in the adjacency lists.
pub open spec fn edge_in(lists: Seq<Seq<usize>>, a: int, b: int) -> bool {
    0 <= a < lists.len() && exists|k: int| 0 <= k < lists[a].len() && lists[a][k] == b
}

/// A closed walk along edges: at least one step, ending where it began.
pub open spec fn is_cycle(lists: Seq<Seq<usize>>, p: Seq<usize>) -> bool {
    &&& p.len() >= 2
    &&& p[0] == p.last()
    &&& forall|k: int| 0 <= k < p.len() - 1 ==> edge_in(lists, (#[trigger] p[k]) as int, p[k + 1] as int)
}

/// Whether the graph has a cycle.
pub open spec fn has_cycle(lists: Seq<Seq<usize>>) -> bool {
    exists|p: Seq<usize>| is_cycle(lists, p)
}

/// A closed walk along an edge list.
pub open spec fn is_pair_cycle(edges: Seq<(usize, usize)>, p: Seq<usize>) -> bool {
    &&& p.len() >= 2
    &&& p[0] == p.last()
    &&& forall|k: int| 0 <= k < p.len() - 1 ==> edges.contains(((#[trigger] p[k]), p[k + 1]))
}

/// Whether the edge list has a cycle.
pub open spec fn has_pair_cycle(edges: Seq<(usize, usize)>) -> bool {
    exists|p: Seq<usize>| is_pair_cycle(edges, p)
}

/// Relies on petgraph's toposort: it reports an error exactly when the
/// directed graph with nodes `0 .. n` and the given edges has a cycle,
/// and then names a node that participates in one. The bounds keep the
/// node and edge counts below the library's 32-bit indices, past which
/// it would panic.
#[verifier::external_body]
fn toposort_cycle(n: usize, edges: &Vec<(usize, usize)>) -> (r: Option<usize>)
    requires
        n <= SIZE_LIMIT,
        edges@.len() <= SIZE_LIMIT * (SIZE_LIMIT * SIZE_LIMIT + SIZE_LIMIT),
        forall|k: int| 0 <= k < edges@.len() ==> (#[trigger] edges@[k]).0 < n && edges@[k].1 < n,
    ensures
        match r {
            Some(id) => id < n && exists|p: Seq<usize>| is_pair_cycle(edges@, p) && p.contains(id),
            None => !has_pair_cycle(edges@),
        },
{
    let mut g = petgraph::graph::Graph::<usize, ()>::new();
    let mut idx = Vec::with_capacity(n);
    for i in 0..n {
        idx.push(g.add_node(i));
    }
    for e in edges.iter() {
        g.add_edge(idx[e.0], idx[e.1], ());
    }
    match petgraph::algo::toposort(&g, None) {
        Ok(_) => None,
        Err(c) => Some(*g.node_weight(c.node_id()).unwrap()),
    }
}

impl DependencyManager {
    /// The full adjacency lists, finished or not.
    pub closed spec fn spec_lists(self) -> Seq<Seq<usize>> {
        self.nodes@.map_values(|n: ProcessNode| n.after_self@)
    }

    /// Check if the dependency graph allows for a topological order.
    #[verifier::loop_isolation(false)]
    #[verifier::rlimit(50)]
    fn check_for_cycles(&self) -> (r: Option<usize>)
        requires
            self.wf(),
        ensures
            match r {
                Some(id) => id < self.n() && has_cycle(self.spec_lists()),
                None => !has_cycle(self.spec_lists()),
            },
    {
        let n = self.nodes.len();
        let mut edges: Vec<(usize, usize)> = Vec::new();
        let mut a: usize = 0;
        while a < n
            invariant
                0 <= a <= n,
                edges@.len() <= a * (SIZE_LIMIT * SIZE_LIMIT + SIZE_LIMIT),
                forall|q: int|
                    0 <= q < edges@.len() ==> (#[trigger] edges@[q]).0 < n && edges@[q].1 < n,
                forall|q: int|
                    0 <= q < edges@.len() ==> edge_in(
                        self.spec_lists(),
                        (#[trigger] edges@[q]).0 as int,
                        edges@[q].1 as int,
                    ),
                forall|x: int, y: int|
                    edge_in(self.spec_lists(), x, y) && 0 <= x < a && 0 <= y ==> edges@.contains(
                        (x as usize, y as usize),
                    ),
            decreases n - a,
        {
            let list_len = self.nodes[a].after_self.len();
            let mut k: usize = 0;
            while k < list_len
                invariant
                    0 <= k <= list_len,
                    list_len == self.nodes@[a as int].after_self@.len(),
                    list_len <= SIZE_LIMIT * SIZE_LIMIT + SIZE_LIMIT,
                    edges@.len() <= a * (SIZE_LIMIT * SIZE_LIMIT + SIZE_LIMIT) + k,
                    forall|q: int|
                        0 <= q < edges@.len() ==> (#[trigger] edges@[q]).0 < n && edges@[q].1 < n,
                    forall|q: int|
                        0 <= q < edges@.len() ==> edge_in(
                            self.spec_lists(),
                            (#[trigger] edges@[q]).0 as int,
                            edges@[q].1 as int,
                        ),
                    forall|x: int, y: int|
                        edge_in(self.spec_lists(), x, y) && 0 <= x < a && 0 <= y
                            ==> edges@.contains((x as usize, y as usize)),
                    forall|e: int|
                        0 <= e < k ==> edges@.contains(
                            (a, #[trigger] self.nodes@[a as int].after_self@[e]),
                        ),
                decreases list_len - k,
            {
                let b = self.nodes[a].after_self[k];
                let ghost pre_edges = edges@;
                edges.push((a, b));
                proof {
                    assert(self.spec_lists()[a as int] == self.nodes@[a as int].after_self@);
                    assert(edges@[edges@.len() - 1] == (a, b));
                    assert(edge_in(self.spec_lists(), a as int, b as int));
                    assert forall|q: int|
                        0 <= q < edges@.len() implies edge_in(
                        self.spec_lists(),
                        (#[trigger] edges@[q]).0 as int,
                        edges@[q].1 as int,
                    ) by {
                        if q < pre_edges.len() {
                            assert(edges@[q] == pre_edges[q]);
                        }
                    }
                    assert forall|x: int, y: int|
                        edge_in(self.spec_lists(), x, y) && 0 <= x < a && 0 <= y implies edges@.contains(
                        (x as usize, y as usize),
                    ) by {
                        assert(pre_edges.contains((x as usize, y as usize)));
                        let q = choose|q: int|
                            0 <= q < pre_edges.len() && pre_edges[q] == (x as usize, y as usize);
                        assert(edges@[q] == (x as usize, y as usize));
                    }
                    assert forall|e: int|
                        0 <= e < k + 1 implies edges@.contains(
                        (a, #[trigger] self.nodes@[a as int].after_self@[e]),
                    ) by {
                        if e < k {
                            assert(pre_edges.contains((a, self.nodes@[a as int].after_self@[e])));
                            let q = choose|q: int|
                                0 <= q < pre_edges.len() && pre_edges[q] == (
                                a,
                                self.nodes@[a as int].after_self@[e],
                                );
                            assert(edges@[q] == (a, self.nodes@[a as int].after_self@[e]));
                        }
                    }
                }
                k += 1;
            }
            proof {
                assert(a * (SIZE_LIMIT * SIZE_LIMIT + SIZE_LIMIT) + (SIZE_LIMIT * SIZE_LIMIT
                    + SIZE_LIMIT) == (a + 1) * (SIZE_LIMIT * SIZE_LIMIT + SIZE_LIMIT))
                    by (nonlinear_arith);
                assert forall|x: int, y: int|
                    edge_in(self.spec_lists(), x, y) && 0 <= x < a + 1 && 0 <= y implies edges@.contains(
                    (x as usize, y as usize),
                ) by {
                    if x == a {
                        let e = choose|e: int|
                            0 <= e < self.spec_lists()[x].len() && self.spec_lists()[x][e] == y;
                        assert(self.spec_lists()[x] == self.nodes@[x].after_self@);
                        assert(self.nodes@[a as int].after_self@[e] == y as usize);
                        assert(edges@.contains((a, self.nodes@[a as int].after_self@[e])));
                    }
                }
            }
            a += 1;
        }
        proof {
            assert(n * (SIZE_LIMIT * SIZE_LIMIT + SIZE_LIMIT) <= SIZE_LIMIT * (SIZE_LIMIT
                * SIZE_LIMIT + SIZE_LIMIT)) by (nonlinear_arith)
                requires
                    0 <= n <= SIZE_LIMIT,
            ;
        }
        let r = toposort_cycle(n, &edges);
        proof {
            match r {
                Some(id) => {
                    let p = choose|p: Seq<usize>| is_pair_cycle(edges@, p) && p.contains(id);
                    assert forall|k: int|
                        0 <= k < p.len() - 1 implies edge_in(
                        self.spec_lists(),
                        (#[trigger] p[k]) as int,
                        p[k + 1] as int,
                    ) by {
                        assert(edges@.contains((p[k], p[k + 1])));
                        let q = choose|q: int|
                            0 <= q < edges@.len() && edges@[q] == (p[k], p[k + 1]);
                        assert(edge_in(
                            self.spec_lists(),
                            edges@[q].0 as int,
                            edges@[q].1 as int,
                        ));
                    }
                    assert(is_cycle(self.spec_lists(), p));
                },
                None => {
                    if has_cycle(self.spec_lists()) {
                        let p = choose|p: Seq<usize>| is_cycle(self.spec_lists(), p);
                        assert forall|k: int|
                            0 <= k < p.len() - 1 implies edges@.contains(
                            ((#[trigger] p[k]), p[k + 1]),
                        ) by {
                            assert(edge_in(self.spec_lists(), p[k] as int, p[k + 1] as int));
                        }
                        assert(is_pair_cycle(edges@, p));
                    }
                },
            }
        }
        r
    }
}

/// Appending an element adds its occurrence.
proof fn lemma_occ_push(s: Seq<usize>, x: usize, v: int)
    ensures
        occ(s.push(x), v) == occ(s, v) + if x == v {
            1nat
        } else {
            0nat
        },
    decreases s.len(),
{
    reveal_with_fuel(occ, 2);
    if s.len() == 0 {
        assert(s.push(x)[0] == x);
        assert(s.push(x).drop_first() =~= Seq::<usize>::empty());
        assert(occ(s.push(x), v) == (if x == v {
            1nat
        } else {
            0nat
        }) + occ(Seq::<usize>::empty(), v));
    } else {
        lemma_occ_push(s.drop_first(), x, v);
        assert(s.push(x)[0] == s[0]);
        assert(s.push(x).drop_first() =~= s.drop_first().push(x));
        assert(occ(s.push(x), v) == (if s[0] == v {
            1nat
        } else {
            0nat
        }) + occ(s.drop_first().push(x), v));
    }
}

/// No value occurs more often than the sequence is long.
proof fn lemma_occ_le_len(s: Seq<usize>, v: int)
    ensures
        occ(s, v) <= s.len(),
    decreases s.len(),
{
    if s.len() > 0 {
        lemma_occ_le_len(s.drop_first(), v);
    }
}

/// The predecessor sums are bounded by the number of lists times the
/// longest list.
proof fn lemma_preds_upto_bound(lists: Seq<Seq<usize>>, j: int, upto: int, m: nat)
    requires
        0 <= upto <= lists.len(),
        forall|i: int| 0 <= i < lists.len() ==> (#[trigger] lists[i]).len() <= m,
    ensures
        preds_upto(lists, j, upto) <= upto * m,
    decreases upto,
{
    if upto > 0 {
        lemma_preds_upto_bound(lists, j, upto - 1, m);
        lemma_occ_le_len(lists[upto - 1], j);
        assert((upto - 1) * m + m == upto * m) by (nonlinear_arith);
    }
}

/// The resolved prefix has as many entries as were resolved.
proof fn lemma_rb_upto_len(cfg: Seq<(usize, ProcessConfig)>, i: int, k: int)
    requires
        k >= 0,
    ensures
        rb_upto(cfg, i, k).len() == k,
    decreases k,
{
    if k > 0 {
        lemma_rb_upto_len(cfg, i, k - 1);
    }
}

/// Validation from an early start covers every later program.
proof fn lemma_validate_from_none(cfg: Seq<(usize, ProcessConfig)>, s: int, i: int)
    requires
        validate_from(cfg, s) is None,
        0 <= s <= i < cfg.len(),
    ensures
        after_err_from(cfg, i, 0) is None,
        before_err_from(cfg, i, 0) is None,
    decreases i - s,
{
    if s < i {
        lemma_validate_from_none(cfg, s + 1, i);
    }
}

/// A clean `after` scan from the start stays clean at every position.
proof fn lemma_after_err_step(cfg: Seq<(usize, ProcessConfig)>, i: int, s: int, k: int)
    requires
        after_err_from(cfg, i, s) is None,
        0 <= s <= k < cfg[i].1.after@.len(),
    ensures
        after_err_from(cfg, i, k) is None,
        spec_find_name(cfg, cfg[i].1.after@[k]@) is Some,
    decreases k - s,
{
    if s < k {
        lemma_after_err_step(cfg, i, s + 1, k);
    }
}

/// A clean `before` scan from the start stays clean at every position.
proof fn lemma_before_err_step(cfg: Seq<(usize, ProcessConfig)>, i: int, s: int, k: int)
    requires
        before_err_from(cfg, i, s) is None,
        0 <= s <= k < cfg[i].1.before@.len(),
    ensures
        before_err_from(cfg, i, k) is None,
        spec_find_name(cfg, cfg[i].1.before@[k]@) is Some,
    decreases k - s,
{
    if s < k {
        lemma_before_err_step(cfg, i, s + 1, k);
    }
}

/// A clean validation leaves every reference resolvable.
proof fn lemma_validate_resolves(cfg: Seq<(usize, ProcessConfig)>)
    requires
        spec_validate(cfg) is None,
    ensures
        forall|i: int, k: int|
            0 <= i < cfg.len() && 0 <= k < cfg[i].1.before@.len() ==> spec_find_name(
                cfg,
                (#[trigger] cfg[i].1.before@[k])@,
            ) is Some,
        forall|i: int, k: int|
            0 <= i < cfg.len() && 0 <= k < cfg[i].1.after@.len() ==> spec_find_name(
                cfg,
                (#[trigger] cfg[i].1.after@[k])@,
            ) is Some,
{
    assert forall|i: int, k: int|
        0 <= i < cfg.len() && 0 <= k < cfg[i].1.before@.len() implies spec_find_name(
        cfg,
        (#[trigger] cfg[i].1.before@[k])@,
    ) is Some by {
        lemma_validate_from_none(cfg, 0, i);
        lemma_before_err_step(cfg, i, 0, k);
    }
    assert forall|i: int, k: int|
        0 <= i < cfg.len() && 0 <= k < cfg[i].1.after@.len() implies spec_find_name(
        cfg,
        (#[trigger] cfg[i].1.after@[k])@,
    ) is Some by {
        lemma_validate_from_none(cfg, 0, i);
        lemma_after_err_step(cfg, i, 0, k);
    }
}

impl DependencyManager {
    /// Build the dependency relations between the programs.
    ///
    /// Each node's successor list holds its own resolved `before` targets
    /// followed by every program that lists it in its `after` section;
    /// the predecessor counters count the incoming edges.
    #[verifier::loop_isolation(false)]
    fn build_dependencies(config: &Vec<(usize, ProcessConfig)>) -> (r: Vec<ProcessNode>)
        requires
            spec_validate(config@) is None,
            config@.len() <= SIZE_LIMIT,
            forall|i: int|
                0 <= i < config@.len() ==> (#[trigger] config@[i]).1.before@.len() <= SIZE_LIMIT
                    && config@[i].1.after@.len() <= SIZE_LIMIT,
        ensures
            r@.len() == config@.len(),
            forall|i: int| 0 <= i < r@.len() ==> !(#[trigger] r@[i]).finished,
            forall|i: int|
                0 <= i < r@.len() ==> (#[trigger] r@[i]).after_self@ == spec_adjacency(config@, i),
            forall|i: int|
                0 <= i < r@.len() ==> (#[trigger] r@[i]).after_self@.len() <= SIZE_LIMIT * SIZE_LIMIT + SIZE_LIMIT,
            forall|i: int, k: int|
                0 <= i < r@.len() && 0 <= k < r@[i].after_self@.len()
                    ==> (#[trigger] r@[i].after_self@[k]) < config@.len(),
            forall|j: int|
                0 <= j < r@.len() ==> (#[trigger] r@[j]).predecessor_count as nat == pred_total(
                    r@,
                    j,
                ),
    {
        let n = config.len();
        proof {
            lemma_validate_resolves(config@);
        }
        let mut lists: Vec<Vec<usize>> = Vec::new();
        let mut i: usize = 0;
        while i < n
            invariant
                0 <= i <= n,
                lists@.len() == i,
                forall|t: int| 0 <= t < i ==> (#[trigger] lists@[t])@ == spec_adjacency(config@, t),
                forall|t: int|
                    0 <= t < i ==> (#[trigger] lists@[t])@.len() <= SIZE_LIMIT * SIZE_LIMIT + SIZE_LIMIT,
                forall|t: int, k: int|
                    0 <= t < i && 0 <= k < lists@[t]@.len() ==> (#[trigger] lists@[t]@[k]) < n,
            decreases n - i,
        {
            let mut list: Vec<usize> = Vec::new();
            let before_len = config[i].1.before.len();
            let mut k: usize = 0;
            while k < before_len
                invariant
                    0 <= k <= before_len,
                    before_len == config@[i as int].1.before@.len(),
                    0 <= i < n,
                    list@ == rb_upto(config@, i as int, k as int),
                    forall|e: int| 0 <= e < list@.len() ==> (#[trigger] list@[e]) < n,
                decreases before_len - k,
            {
                match find_name(config, config[i].1.before[k].as_str()) {
                    Some(t) => {
                        list.push(t);
                    },
                    None => {
                        proof {
                            assert(false);
                        }
                    },
                }
                k += 1;
            }
            let mut j: usize = 0;
            proof {
                assert(list@ =~= rb_upto(
                    config@,
                    i as int,
                    config@[i as int].1.before@.len() as int,
                ) + referrers_upto(config@, i as int, 0));
                assert(list@.len() == before_len) by {
                    lemma_rb_upto_len(config@, i as int, before_len as int);
                }
            }
            while j < n
                invariant
                    0 <= j <= n,
                    0 <= i < n,
                    list@ == rb_upto(config@, i as int, config@[i as int].1.before@.len() as int)
                        + referrers_upto(config@, i as int, j as int),
                    forall|e: int| 0 <= e < list@.len() ==> (#[trigger] list@[e]) < n,
                    list@.len() <= config@[i as int].1.before@.len() + j * SIZE_LIMIT,
                decreases n - j,
            {
                let after_len = config[j].1.after.len();
                let mut k2: usize = 0;
                while k2 < after_len
                    invariant
                        0 <= k2 <= after_len,
                        after_len == config@[j as int].1.after@.len(),
                        0 <= i < n,
                        0 <= j < n,
                        list@ == rb_upto(
                            config@,
                            i as int,
                            config@[i as int].1.before@.len() as int,
                        ) + referrers_upto(config@, i as int, j as int) + refs_in_upto(
                            config@,
                            i as int,
                            j as int,
                            k2 as int,
                        ),
                        forall|e: int| 0 <= e < list@.len() ==> (#[trigger] list@[e]) < n,
                        list@.len() <= config@[i as int].1.before@.len() + j * SIZE_LIMIT + k2,
                    decreases after_len - k2,
                {
                    let ghost pre_list = list@;
                    match find_name(config, config[j].1.after[k2].as_str()) {
                        Some(t) => {
                            if t == i {
                                list.push(j);
                            }
                        },
                        None => {
                            proof {
                                assert(false);
                            }
                        },
                    }
                    proof {
                        assert(refs_in_upto(config@, i as int, j as int, k2 + 1)
                            == refs_in_upto(config@, i as int, j as int, k2 as int) + (
                        if spec_find_name(config@, config@[j as int].1.after@[k2 as int]@) == Some(
                            i as int,
                        ) {
                            seq![j as usize]
                        } else {
                            Seq::<usize>::empty()
                        }));
                        if spec_find_name(config@, config@[j as int].1.after@[k2 as int]@) == Some(
                            i as int,
                        ) {
                            assert(list@ =~= pre_list + seq![j as usize]);
                            assert(list@ =~= rb_upto(
                                config@,
                                i as int,
                                config@[i as int].1.before@.len() as int,
                            ) + referrers_upto(config@, i as int, j as int) + refs_in_upto(
                                config@,
                                i as int,
                                j as int,
                                k2 + 1,
                            ));
                        } else {
                            assert(list@ =~= rb_upto(
                                config@,
                                i as int,
                                config@[i as int].1.before@.len() as int,
                            ) + referrers_upto(config@, i as int, j as int) + refs_in_upto(
                                config@,
                                i as int,
                                j as int,
                                k2 + 1,
                            ));
                        }
                    }
                    k2 += 1;
                }
                proof {
                    assert(list@ =~= rb_upto(
                        config@,
                        i as int,
                        config@[i as int].1.before@.len() as int,
                    ) + referrers_upto(config@, i as int, j + 1));
                    assert(j * SIZE_LIMIT + after_len <= (j + 1) * SIZE_LIMIT) by (nonlinear_arith)
                        requires
                            after_len <= SIZE_LIMIT,
                            j >= 0,
                    ;
                }
                j += 1;
            }
            proof {
                assert(n * SIZE_LIMIT <= SIZE_LIMIT * SIZE_LIMIT) by (nonlinear_arith)
                    requires
                        n <= SIZE_LIMIT,
                        n >= 0,
                ;
            }
            lists.push(list);
            i += 1;
        }
        let ghost lseq = Seq::new(n as nat, |t: int| lists@[t]@);
        proof {
            assert forall|t: int|
                0 <= t < n implies (#[trigger] lseq[t]).len() <= SIZE_LIMIT * SIZE_LIMIT
                + SIZE_LIMIT by {
                assert(lseq[t] == lists@[t]@);
            }
            assert forall|t: int, k: int|
                0 <= t < n && 0 <= k < lseq[t].len() implies (#[trigger] lseq[t][k]) < n by {
                assert(lseq[t] == lists@[t]@);
            }
            assert forall|t: int|
                0 <= t < n implies #[trigger] lseq[t] == spec_adjacency(config@, t) by {
                assert(lseq[t] == lists@[t]@);
            }
        }
        let mut counts: Vec<u64> = Vec::new();
        let mut z: usize = 0;
        while z < n
            invariant
                0 <= z <= n,
                counts@.len() == z,
                forall|j: int| 0 <= j < z ==> (#[trigger] counts@[j]) == 0,
            decreases n - z,
        {
            counts.push(0);
            z += 1;
        }
        let mut a: usize = 0;
        proof {
            assert forall|j: int|
                0 <= j < n implies (#[trigger] counts@[j]) as nat == preds_upto(
                lseq,
                j,
                0,
            ) by {}
        }
        while a < n
            invariant
                0 <= a <= n,
                counts@.len() == n,
                lists@.len() == n,
                forall|j: int|
                    0 <= j < n ==> (#[trigger] counts@[j]) as nat == preds_upto(lseq, j, a as int),
                forall|t: int| 0 <= t < n ==> (#[trigger] lists@[t])@ == lseq[t],
            decreases n - a,
        {
            let llen = lists[a].len();
            let mut k: usize = 0;
            proof {
                assert(lseq[a as int].take(0) =~= Seq::<usize>::empty());
            }
            while k < llen
                invariant
                    0 <= k <= llen,
                    0 <= a < n,
                    llen == lseq[a as int].len(),
                    counts@.len() == n,
                    forall|j: int|
                        0 <= j < n ==> (#[trigger] counts@[j]) as nat == preds_upto(
                            lseq,
                            j,
                            a as int,
                        ) + occ(lseq[a as int].take(k as int), j),
                decreases llen - k,
            {
                let e = lists[a][k];
                proof {
                    assert(lseq[a as int][k as int] == lists@[a as int]@[k as int]);
                    lemma_preds_upto_bound(lseq, e as int, a as int, (SIZE_LIMIT * SIZE_LIMIT
                        + SIZE_LIMIT) as nat);
                    lemma_occ_le_len(lseq[a as int].take(k as int), e as int);
                    assert((a as int) * ((SIZE_LIMIT * SIZE_LIMIT + SIZE_LIMIT) as nat)
                        <= SIZE_LIMIT * (SIZE_LIMIT * SIZE_LIMIT + SIZE_LIMIT)) by (nonlinear_arith)
                        requires
                            0 <= a as int <= SIZE_LIMIT,
                    ;
                }
                let c = counts[e];
                counts.set(e, c + 1);
                proof {
                    assert forall|j: int|
                        0 <= j < n implies (#[trigger] counts@[j]) as nat == preds_upto(
                        lseq,
                        j,
                        a as int,
                    ) + occ(lseq[a as int].take(k + 1), j) by {
                        lemma_occ_push(lseq[a as int].take(k as int), lseq[a as int][k as int], j);
                        assert(lseq[a as int].take(k as int).push(lseq[a as int][k as int])
                            =~= lseq[a as int].take(k + 1));
                    }
                }
                k += 1;
            }
            proof {
                assert(lseq[a as int].take(llen as int) =~= lseq[a as int]);
            }
            a += 1;
        }
        let mut nodes: Vec<ProcessNode> = Vec::new();
        let mut b: usize = 0;
        while b < n
            invariant
                0 <= b <= n,
                nodes@.len() == b,
                lists@.len() == n - b,
                counts@.len() == n,
                forall|j: int|
                    0 <= j < n ==> (#[trigger] counts@[j]) as nat == preds_upto(lseq, j, n as int),
                forall|t: int| 0 <= t < n - b ==> (#[trigger] lists@[t])@ == lseq[t + b],
                forall|t: int| 0 <= t < b ==> !(#[trigger] nodes@[t]).finished,
                forall|t: int| 0 <= t < b ==> (#[trigger] nodes@[t]).after_self@ == lseq[t],
                forall|t: int|
                    0 <= t < b ==> (#[trigger] nodes@[t]).predecessor_count == counts@[t],
            decreases n - b,
        {
            let head = lists.remove(0);
            nodes.push(
                ProcessNode { after_self: head, predecessor_count: counts[b], finished: false },
            );
            b += 1;
        }
        proof {
            assert forall|j: int|
                0 <= j < n implies (#[trigger] nodes@[j]).predecessor_count as nat == pred_total(
                nodes@,
                j,
            ) by {
                assert(active_lists(nodes@) =~= lseq);
                assert(preds_upto(active_lists(nodes@), j, n as int) == preds_upto(
                    lseq,
                    j,
                    n as int,
                ));
            }
            assert forall|i2: int|
                0 <= i2 < n implies (#[trigger] nodes@[i2]).after_self@ == spec_adjacency(
                config@,
                i2,
            ) by {
                assert(nodes@[i2].after_self@ == lseq[i2]);
            }
        }
        nodes
    }

    /// Compute the initially runnable processes: those without
    /// predecessors.
    #[verifier::loop_isolation(false)]
    fn find_initial_runnables(nodes: &Vec<ProcessNode>) -> (r: (Vec<usize>, Vec<bool>))
        ensures
            r.1@.len() == nodes@.len(),
            forall|j: int|
                0 <= j < nodes@.len() ==> (r.1@[j] <==> (#[trigger] nodes@[j]).predecessor_count
                    == 0),
            forall|q: int| 0 <= q < r.0@.len() ==> (#[trigger] r.0@[q]) < nodes@.len(),
            forall|q: int| 0 <= q < r.0@.len() ==> r.1@[(#[trigger] r.0@[q]) as int],
            forall|q1: int, q2: int|
                0 <= q1 < q2 < r.0@.len() ==> (#[trigger] r.0@[q1]) < (#[trigger] r.0@[q2]),
            forall|j: int|
                0 <= j < nodes@.len() && (#[trigger] nodes@[j]).predecessor_count == 0
                    ==> in_queue(r.0@, j),
    {
        let n = nodes.len();
        let mut runnable: Vec<usize> = Vec::new();
        let mut archive: Vec<bool> = Vec::new();
        let mut i: usize = 0;
        while i < n
            invariant
                0 <= i <= n,
                archive@.len() == i,
                forall|j: int|
                    0 <= j < i ==> (archive@[j] <==> (#[trigger] nodes@[j]).predecessor_count
                        == 0),
                forall|q: int| 0 <= q < runnable@.len() ==> (#[trigger] runnable@[q]) < i,
                forall|q: int|
                    0 <= q < runnable@.len() ==> archive@[(#[trigger] runnable@[q]) as int],
                forall|q1: int, q2: int|
                    0 <= q1 < q2 < runnable@.len() ==> (#[trigger] runnable@[q1]) < (
                    #[trigger] runnable@[q2]),
                forall|j: int|
                    0 <= j < i && (#[trigger] nodes@[j]).predecessor_count == 0 ==> in_queue(
                        runnable@,
                        j,
                    ),
            decreases n - i,
        {
            if nodes[i].predecessor_count == 0 {
                let ghost pre = runnable@;
                runnable.push(i);
                proof {
                    assert forall|j: int|
                        0 <= j < i + 1 && (#[trigger] nodes@[j]).predecessor_count
                            == 0 implies in_queue(runnable@, j) by {
                        if j < i {
                            let q = choose|q: int| 0 <= q < pre.len() && pre[q] == j;
                            assert(runnable@[q] == j);
                        } else {
                            assert(runnable@[runnable@.len() - 1] == i);
                        }
                    }
                }
                archive.push(true);
            } else {
                archive.push(false);
            }
            i += 1;
        }
        (runnable, archive)
    }

    /// Build a new dependency manager for the configured programs.
    ///
    /// The programs' `before` and `after` references are checked, the
    /// graph is built, and a cyclic graph is rejected.
    #[verifier::loop_isolation(false)]
    pub fn with_nodes(config: &Vec<(usize, ProcessConfig)>) -> (r: Result<Self, Error>)
        requires
            config@.len() <= SIZE_LIMIT,
            forall|k: int| 0 <= k < config@.len() ==> (#[trigger] config@[k]).0 == k,
            forall|i: int, j: int|
                0 <= i < j < config@.len() ==> (#[trigger] config@[i]).1.name@ != (
                #[trigger] config@[j]).1.name@,
            forall|i: int|
                0 <= i < config@.len() ==> (#[trigger] config@[i]).1.before@.len() <= SIZE_LIMIT
                    && config@[i].1.after@.len() <= SIZE_LIMIT,
        ensures
            match r {
                Err(e) => {
                    ||| spec_validate(config@) == Some(e)
                    ||| (e matches Error::Cycle(id) && spec_validate(config@) is None && has_cycle(
                        config_lists(config@),
                    ) && id < config@.len())
                },
                Ok(m) => {
                    &&& spec_validate(config@) is None
                    &&& !has_cycle(config_lists(config@))
                    &&& m.wf()
                    &&& m.n() == config@.len()
                    &&& m.spec_popped() == Set::<usize>::empty()
                    &&& forall|i: int| 0 <= i < m.n() ==> !m.spec_finished(i)
                    &&& forall|i: int|
                        0 <= i < m.n() ==> m.spec_after_self(i) == spec_adjacency(config@, i)
                    &&& forall|i: int|
                        0 <= i < m.n() ==> (m.spec_is_runnable(i) <==> preds_upto(
                            config_lists(config@),
                            i,
                            config@.len() as int,
                        ) == 0)
                    &&& forall|i: int|
                        0 <= i < m.n() ==> (in_queue(m.spec_queue(), i) <==> m.spec_is_runnable(
                            i,
                        ))
                },
            },
    {
        match validate_references(config) {
            Some(e) => {
                return Err(e);
            },
            None => {},
        }
        let nodes = Self::build_dependencies(config);
        let (runnable, archive) = Self::find_initial_runnables(&nodes);
        let result = DependencyManager {
            nodes,
            runnable,
            runnable_archive: archive,
            popped: Ghost(Set::empty()),
        };
        proof {
            assert forall|j: int|
                0 <= j < result.n() implies (#[trigger] result.nodes@[j]).predecessor_count as nat
                == pred_total(result.nodes@, j) by {}
            assert(result.spec_lists() =~= config_lists(config@));
            assert forall|j: int|
                0 <= j < result.n() implies pred_total(result.nodes@, j) == preds_upto(
                config_lists(config@),
                j,
                config@.len() as int,
            ) by {
                assert(active_lists(result.nodes@) =~= config_lists(config@));
            }
            assert(result.wf());
            assert forall|i: int|
                0 <= i < result.n() implies (result.spec_is_runnable(i) <==> preds_upto(
                config_lists(config@),
                i,
                config@.len() as int,
            ) == 0) by {
                assert(result.runnable_archive@[i] == (result.nodes@[i].predecessor_count == 0));
                assert(result.nodes@[i].predecessor_count as nat == pred_total(result.nodes@, i));
            }
        }
        match result.check_for_cycles() {
            Some(id) => Err(Error::Cycle(id)),
            None => Ok(result),
        }
    }
}

} // verus!
