//! Index over process ids: owner of all process records at runtime.

use vstd::prelude::*;

use crate::process::Process;

verus! {

/// A small association list from an integer key to a process id.
pub open spec fn assoc_has(s: Seq<(i32, usize)>, key: i32) -> bool {
    exists|k: int| 0 <= k < s.len() && (#[trigger] s[k]).0 == key
}

/// Whether the list maps `key` to `id`.
pub open spec fn assoc_entry(s: Seq<(i32, usize)>, key: i32, id: usize) -> bool {
    exists|k: int| 0 <= k < s.len() && (#[trigger] s[k]) == (key, id)
}

/// Keys appear at most once.
pub open spec fn assoc_unique(s: Seq<(i32, usize)>) -> bool {
    forall|k1: int, k2: int| 0 <= k1 < k2 < s.len() ==> (#[trigger] s[k1]).0 != (#[trigger] s[k2]).0
}

/// Look a key up in an association list.
fn assoc_find(s: &Vec<(i32, usize)>, key: i32) -> (r: Option<usize>)
    ensures
        match r {
            Some(id) => assoc_has(s@, key) && assoc_entry(s@, key, id),
            None => !assoc_has(s@, key),
        },
{
    let n = s.len();
    let mut k: usize = 0;
    while k < n
        invariant
            0 <= k <= n,
            n == s@.len(),
            forall|b: int| 0 <= b < k ==> (#[trigger] s@[b]).0 != key,
        decreases n - k,
    {
        if s[k].0 == key {
            proof {
                assert(s@[k as int] == (key, s@[k as int].1));
            }
            return Some(s[k].1);
        }
        k += 1;
    }
    None
}

/// Insert or replace a key in an association list.
#[verifier::loop_isolation(false)]
fn assoc_put(s: &mut Vec<(i32, usize)>, key: i32, id: usize)
    requires
        assoc_unique(old(s)@),
    ensures
        assoc_unique(final(s)@),
        forall|x: i32| assoc_has(final(s)@, x) <==> (assoc_has(old(s)@, x) || x == key),
        forall|k: int|
            0 <= k < final(s)@.len() && (#[trigger] final(s)@[k]).0 == key ==> final(s)@[k].1 == id,
        forall|k: int|
            0 <= k < old(s)@.len() && (#[trigger] old(s)@[k]).0 != key ==> final(s)@.contains(
                old(s)@[k],
            ),
        forall|k: int|
            0 <= k < final(s)@.len() ==> (#[trigger] final(s)@[k]) == (key, id)
                || old(s)@.contains(final(s)@[k]),
{
    let n = s.len();
    let mut k: usize = 0;
    while k < n
        invariant
            0 <= k <= n,
            n == s@.len(),
            s@ == old(s)@,
            forall|b: int| 0 <= b < k ==> (#[trigger] s@[b]).0 != key,
        decreases n - k,
    {
        if s[k].0 == key {
            let ghost pre = s@;
            s.set(k, (key, id));
            proof {
                assert forall|x: i32|
                    assoc_has(s@, x) <==> (assoc_has(pre, x) || x == key) by {
                    if assoc_has(s@, x) {
                        let b = choose|b: int| 0 <= b < s@.len() && (#[trigger] s@[b]).0 == x;
                        if b != k {
                            assert(pre[b].0 == x);
                        }
                    }
                    if assoc_has(pre, x) {
                        let b = choose|b: int| 0 <= b < pre.len() && (#[trigger] pre[b]).0 == x;
                        if b != k {
                            assert(s@[b].0 == x);
                        } else {
                            assert(s@[k as int].0 == key);
                        }
                    }
                    if x == key {
                        assert(s@[k as int].0 == key);
                    }
                }
                assert forall|b: int|
                    0 <= b < pre.len() && (#[trigger] pre[b]).0 != key implies s@.contains(
                    pre[b],
                ) by {
                    assert(s@[b] == pre[b]);
                }
                assert forall|k1: int, k2: int|
                    0 <= k1 < k2 < s@.len() implies (#[trigger] s@[k1]).0 != (
                #[trigger] s@[k2]).0 by {
                    assert(pre[k1].0 != pre[k2].0);
                    if k1 != k {
                        assert(s@[k1] == pre[k1]);
                    } else {
                        assert(s@[k1].0 == pre[k as int].0);
                    }
                    if k2 != k {
                        assert(s@[k2] == pre[k2]);
                    } else {
                        assert(s@[k2].0 == pre[k as int].0);
                    }
                }
                assert forall|b: int|
                    0 <= b < s@.len() && (#[trigger] s@[b]).0 == key implies s@[b].1 == id by {
                    if b != k {
                        assert(s@[b] == pre[b]);
                        assert(pre[b].0 != pre[k as int].0);
                        assert(false);
                    }
                }
                assert forall|b: int|
                    0 <= b < s@.len() implies (#[trigger] s@[b]) == (key, id) || pre.contains(
                    s@[b],
                ) by {
                    if b != k {
                        assert(s@[b] == pre[b]);
                    }
                }
            }
            return ;
        }
        k += 1;
    }
    let ghost pre = s@;
    s.push((key, id));
    proof {
        assert forall|x: i32| assoc_has(s@, x) <==> (assoc_has(pre, x) || x == key) by {
            if assoc_has(s@, x) {
                let b = choose|b: int| 0 <= b < s@.len() && (#[trigger] s@[b]).0 == x;
                if b < pre.len() {
                    assert(pre[b].0 == x);
                }
            }
            if assoc_has(pre, x) {
                let b = choose|b: int| 0 <= b < pre.len() && (#[trigger] pre[b]).0 == x;
                assert(s@[b].0 == x);
            }
            if x == key {
                assert(s@[s@.len() - 1].0 == key);
            }
        }
        assert forall|b: int|
            0 <= b < pre.len() && (#[trigger] pre[b]).0 != key implies s@.contains(pre[b]) by {
            assert(s@[b] == pre[b]);
        }
        assert forall|k1: int, k2: int|
            0 <= k1 < k2 < s@.len() implies (#[trigger] s@[k1]).0 != (#[trigger] s@[k2]).0 by {
            if k2 < s@.len() - 1 {
                assert(s@[k1] == pre[k1] && s@[k2] == pre[k2]);
            } else {
                assert(s@[k1] == pre[k1]);
                assert(s@[k2].0 == key);
            }
        }
        assert forall|b: int|
            0 <= b < s@.len() && (#[trigger] s@[b]).0 == key implies s@[b].1 == id by {
            if b < s@.len() - 1 {
                assert(pre[b].0 == key);
            }
        }
        assert forall|b: int|
            0 <= b < s@.len() implies (#[trigger] s@[b]) == (key, id) || pre.contains(s@[b]) by {
            if b < s@.len() - 1 {
                assert(s@[b] == pre[b]);
            }
        }
    }
}

/// Remove a key from an association list; a missing key changes nothing.
#[verifier::loop_isolation(false)]
fn assoc_remove(s: &mut Vec<(i32, usize)>, key: i32)
    requires
        assoc_unique(old(s)@),
    ensures
        assoc_unique(final(s)@),
        forall|x: i32| assoc_has(final(s)@, x) <==> (assoc_has(old(s)@, x) && x != key),
        !assoc_has(old(s)@, key) ==> *final(s) == *old(s),
        forall|k: int|
            0 <= k < old(s)@.len() && (#[trigger] old(s)@[k]).0 != key ==> final(s)@.contains(
                old(s)@[k],
            ),
        forall|k: int|
            0 <= k < final(s)@.len() ==> old(s)@.contains(#[trigger] final(s)@[k]),
{
    let n = s.len();
    let mut k: usize = 0;
    while k < n
        invariant
            0 <= k <= n,
            n == s@.len(),
            *s == *old(s),
            forall|b: int| 0 <= b < k ==> (#[trigger] s@[b]).0 != key,
        decreases n - k,
    {
        if s[k].0 == key {
            let ghost pre = s@;
            proof {
                assert(assoc_has(pre, key));
            }
            let _ = s.remove(k);
            proof {
                assert(s@ =~= pre.subrange(0, k as int) + pre.subrange(
                    k + 1,
                    pre.len() as int,
                ));
                assert forall|b: int|
                    0 <= b < s@.len() implies (#[trigger] s@[b]) == (if b < k {
                    pre[b]
                } else {
                    pre[b + 1]
                }) by {
                    assert(pre.subrange(0, k as int).len() == k);
                    if b < k {
                        assert(s@[b] == pre.subrange(0, k as int)[b]);
                    } else {
                        assert(s@[b] == pre.subrange(k + 1, pre.len() as int)[b - k]);
                    }
                }
                assert forall|x: i32|
                    assoc_has(s@, x) <==> (assoc_has(pre, x) && x != key) by {
                    if assoc_has(s@, x) {
                        let b = choose|b: int| 0 <= b < s@.len() && (#[trigger] s@[b]).0 == x;
                        if b < k {
                            assert(pre[b].0 == x);
                        } else {
                            assert(pre[b + 1].0 == x);
                        }
                    }
                    if assoc_has(pre, x) && x != key {
                        let b = choose|b: int| 0 <= b < pre.len() && (#[trigger] pre[b]).0 == x;
                        if b < k {
                            assert(s@[b].0 == x);
                        } else {
                            assert(s@[b - 1].0 == x);
                        }
                    }
                }
                assert forall|b: int|
                    0 <= b < pre.len() && (#[trigger] pre[b]).0 != key implies s@.contains(
                    pre[b],
                ) by {
                    if b < k {
                        assert(s@[b] == pre[b]);
                    } else {
                        assert(s@[b - 1] == pre[b]);
                    }
                }
                assert forall|b: int|
                    0 <= b < s@.len() implies pre.contains(#[trigger] s@[b]) by {
                    if b < k {
                        assert(pre[b] == s@[b]);
                    } else {
                        assert(pre[b + 1] == s@[b]);
                    }
                }
                assert forall|k1: int, k2: int|
                    0 <= k1 < k2 < s@.len() implies (#[trigger] s@[k1]).0 != (
                #[trigger] s@[k2]).0 by {
                    let p1: int = if k1 < k {
                        k1
                    } else {
                        k1 + 1
                    };
                    let p2: int = if k2 < k {
                        k2
                    } else {
                        k2 + 1
                    };
                    assert(s@[k1] == pre[p1]);
                    assert(s@[k2] == pre[p2]);
                }
            }
            return ;
        }
        k += 1;
    }
}

/// Index over process ids.
///
/// Owner of all process records at runtime; a process's id is its
/// position in the record list. Maps OS pids and stdio file descriptor
/// numbers to ids while their processes are active.
#[verifier::ext_equal]
pub struct ProcessMap {
    processes: Vec<Process>,
    stdout_dict: Vec<(i32, usize)>,
    stderr_dict: Vec<(i32, usize)>,
    pid_dict: Vec<(i32, usize)>,
}

impl ProcessMap {
    /// The records, by process id.
    pub closed spec fn spec_processes(self) -> Seq<Process> {
        self.processes@
    }

    /// The stdout descriptor index.
    pub closed spec fn spec_stdout(self) -> Seq<(i32, usize)> {
        self.stdout_dict@
    }

    /// The stderr descriptor index.
    pub closed spec fn spec_stderr(self) -> Seq<(i32, usize)> {
        self.stderr_dict@
    }

    /// The pid index.
    pub closed spec fn spec_pids(self) -> Seq<(i32, usize)> {
        self.pid_dict@
    }

    /// Each index maps its keys at most once.
    pub open spec fn wf(self) -> bool {
        &&& assoc_unique(self.spec_stdout())
        &&& assoc_unique(self.spec_stderr())
        &&& assoc_unique(self.spec_pids())
    }

    /// Build from the given records; no pid or descriptor is indexed yet.
    pub fn from(processes: Vec<Process>) -> (r: ProcessMap)
        ensures
            r.wf(),
            r.spec_processes() == processes@,
            r.spec_stdout().len() == 0,
            r.spec_stderr().len() == 0,
            r.spec_pids().len() == 0,
    {
        ProcessMap {
            processes,
            stdout_dict: Vec::new(),
            stderr_dict: Vec::new(),
            pid_dict: Vec::new(),
        }
    }

    /// Number of records.
    pub fn len(&self) -> (r: usize)
        ensures
            r == self.spec_processes().len(),
    {
        self.processes.len()
    }

    /// Borrow the record with the given id.
    pub fn process(&self, id: usize) -> (r: &Process)
        requires
            id < self.spec_processes().len(),
        ensures
            *r == self.spec_processes()[id as int],
    {
        &self.processes[id]
    }

    /// Borrow the record with the given id for update.
    pub fn process_mut(&mut self, id: usize) -> (r: &mut Process)
        requires
            id < old(self).spec_processes().len(),
        ensures
            *r == old(self).spec_processes()[id as int],
            final(self).spec_processes() == old(self).spec_processes().update(
                id as int,
                *final(r),
            ),
            final(self).spec_stdout() == old(self).spec_stdout(),
            final(self).spec_stderr() == old(self).spec_stderr(),
            final(self).spec_pids() == old(self).spec_pids(),
            final(self).wf() == old(self).wf(),
    {
        &mut self.processes[id]
    }

    /// Check if any process's runtime information is still indexed.
    pub fn has_running_processes(&self) -> (r: bool)
        ensures
            r == (self.spec_stdout().len() != 0 || self.spec_stderr().len() != 0
                || self.spec_pids().len() != 0),
    {
        self.stdout_dict.len() != 0 || self.stderr_dict.len() != 0 || self.pid_dict.len() != 0
    }

    /// Check whether the descriptor is known to the index as stdout.
    pub fn is_stdout(&self, fd: i32) -> (r: bool)
        ensures
            r == assoc_has(self.spec_stdout(), fd),
    {
        match assoc_find(&self.stdout_dict, fd) {
            Some(_) => true,
            None => false,
        }
    }

    /// Index a new stdout descriptor for the given process id.
    pub fn register_stdout(&mut self, process_id: usize, fd: i32)
        requires
            old(self).wf(),
        ensures
            final(self).wf(),
            final(self).spec_processes() == old(self).spec_processes(),
            final(self).spec_stderr() == old(self).spec_stderr(),
            final(self).spec_pids() == old(self).spec_pids(),
            forall|x: i32|
                assoc_has(final(self).spec_stdout(), x) <==> (assoc_has(
                    old(self).spec_stdout(),
                    x,
                ) || x == fd),
            forall|k: int|
                0 <= k < final(self).spec_stdout().len() && (#[trigger] final(self).spec_stdout()[k]).0 == fd ==> final(self).spec_stdout()[k].1 == process_id,
    {
        assoc_put(&mut self.stdout_dict, fd, process_id);
    }

    /// Index a new stderr descriptor for the given process id.
    pub fn register_stderr(&mut self, process_id: usize, fd: i32)
        requires
            old(self).wf(),
        ensures
            final(self).wf(),
            final(self).spec_processes() == old(self).spec_processes(),
            final(self).spec_stdout() == old(self).spec_stdout(),
            final(self).spec_pids() == old(self).spec_pids(),
            forall|x: i32|
                assoc_has(final(self).spec_stderr(), x) <==> (assoc_has(
                    old(self).spec_stderr(),
                    x,
                ) || x == fd),
    {
        assoc_put(&mut self.stderr_dict, fd, process_id);
    }

    /// Remove a descriptor from whichever of the two stdio indices holds
    /// it; an unknown descriptor changes nothing.
    pub fn deregister_fd(&mut self, fd: i32)
        requires
            old(self).wf(),
        ensures
            final(self).wf(),
            final(self).spec_processes() == old(self).spec_processes(),
            final(self).spec_pids() == old(self).spec_pids(),
            forall|x: i32|
                assoc_has(final(self).spec_stdout(), x) <==> (assoc_has(
                    old(self).spec_stdout(),
                    x,
                ) && x != fd),
            forall|x: i32|
                assoc_has(final(self).spec_stderr(), x) <==> (assoc_has(
                    old(self).spec_stderr(),
                    x,
                ) && x != fd),
            !assoc_has(old(self).spec_stdout(), fd) && !assoc_has(old(self).spec_stderr(), fd)
                ==> *final(self) == *old(self),
    {
        assoc_remove(&mut self.stderr_dict, fd);
        assoc_remove(&mut self.stdout_dict, fd);
        proof {
            if !assoc_has(old(self).spec_stdout(), fd) && !assoc_has(
                old(self).spec_stderr(),
                fd,
            ) {
                assert(self.stdout_dict == old(self).stdout_dict);
                assert(self.stderr_dict == old(self).stderr_dict);
                assert(self.processes == old(self).processes);
                assert(self.pid_dict == old(self).pid_dict);
                assert(*self =~= *old(self));
            }
        }
    }

    /// Look up the process id owning a stdio descriptor, stdout first.
    pub fn process_for_fd(&self, fd: i32) -> (r: Option<usize>)
        ensures
            match r {
                Some(id) => assoc_entry(self.spec_stdout(), fd, id) || (!assoc_has(
                    self.spec_stdout(),
                    fd,
                ) && assoc_entry(self.spec_stderr(), fd, id)),
                None => !assoc_has(self.spec_stdout(), fd) && !assoc_has(self.spec_stderr(), fd),
            },
    {
        match assoc_find(&self.stdout_dict, fd) {
            Some(id) => Some(id),
            None => assoc_find(&self.stderr_dict, fd),
        }
    }

    /// Register a pid in the index for a process.
    pub fn register_pid(&mut self, process_id: usize, pid: i32)
        requires
            old(self).wf(),
        ensures
            final(self).wf(),
            final(self).spec_processes() == old(self).spec_processes(),
            final(self).spec_stdout() == old(self).spec_stdout(),
            final(self).spec_stderr() == old(self).spec_stderr(),
            forall|x: i32|
                assoc_has(final(self).spec_pids(), x) <==> (assoc_has(old(self).spec_pids(), x)
                    || x == pid),
            forall|k: int|
                0 <= k < final(self).spec_pids().len() && (#[trigger] final(self).spec_pids()[k]).0 == pid ==> final(self).spec_pids()[k].1 == process_id,
            forall|k: int|
                0 <= k < final(self).spec_pids().len() ==> (#[trigger] final(self).spec_pids()[k])
                    == (pid, process_id) || old(self).spec_pids().contains(
                    final(self).spec_pids()[k],
                ),
            forall|k: int|
                0 <= k < old(self).spec_pids().len() && (#[trigger] old(self).spec_pids()[k]).0
                    != pid ==> final(self).spec_pids().contains(old(self).spec_pids()[k]),
    {
        assoc_put(&mut self.pid_dict, pid, process_id);
    }

    /// Deregister a pid from the index; an unknown pid changes nothing.
    pub fn deregister_pid(&mut self, pid: i32)
        requires
            old(self).wf(),
        ensures
            final(self).wf(),
            final(self).spec_processes() == old(self).spec_processes(),
            final(self).spec_stdout() == old(self).spec_stdout(),
            final(self).spec_stderr() == old(self).spec_stderr(),
            forall|x: i32|
                assoc_has(final(self).spec_pids(), x) <==> (assoc_has(old(self).spec_pids(), x)
                    && x != pid),
            !assoc_has(old(self).spec_pids(), pid) ==> *final(self) == *old(self),
            forall|k: int|
                0 <= k < final(self).spec_pids().len() ==> old(self).spec_pids().contains(
                    #[trigger] final(self).spec_pids()[k],
                ),
            forall|k: int|
                0 <= k < old(self).spec_pids().len() && (#[trigger] old(self).spec_pids()[k]).0
                    != pid ==> final(self).spec_pids().contains(old(self).spec_pids()[k]),
    {
        assoc_remove(&mut self.pid_dict, pid);
    }

    /// Map a pid into a process id; an unknown pid is an orphan adopted
    /// from a descendant.
    pub fn process_id_for_pid(&self, pid: i32) -> (r: Option<usize>)
        ensures
            match r {
                Some(id) => assoc_entry(self.spec_pids(), pid, id),
                None => !assoc_has(self.spec_pids(), pid),
            },
    {
        assoc_find(&self.pid_dict, pid)
    }
}

} // verus!
