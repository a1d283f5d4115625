//! The supervisor's decision core: one shared process table, the
//! dependency graph, and the cron timeline, advanced by the events the
//! event loop hands in.

use vstd::prelude::*;

use crate::cron::Cron;
use crate::datetime::DateTime;
use crate::datetime::YEAR_MAX;
use crate::dependency_graph::DependencyManager;
use crate::process::Process;
use crate::process::ProcessState;
use crate::process::ProcessType;
use crate::process_map::ProcessMap;
use crate::process_map::assoc_entry;
use crate::process_map::assoc_has;
use crate::text::str_eq;
use crate::text::spec_split;
use crate::text::split_on;

verus! {

/// Exit code reported when a supervised child crashed.
pub const CHILD_CRASH_EXIT_CODE: i32 = 6;

/// Signal numbers the supervisor distinguishes.
pub const SIGNAL_INT: i32 = 2;

pub const SIGNAL_QUIT: i32 = 3;

pub const SIGNAL_TERM: i32 = 15;

pub const SIGNAL_CHLD: i32 = 17;

/// Whether process `j` of the table has left its waiting state.
pub open spec fn started_of(pm: ProcessMap, j: int) -> bool {
    &&& !(pm.spec_processes()[j].state is Blocked)
    &&& !(pm.spec_processes()[j].state is Sleeping)
}

/// Whether the pid list holds the value.
pub open spec fn lists_pid(s: Seq<i32>, x: i32) -> bool {
    exists|q: int| 0 <= q < s.len() && s[q] == x
}

/// Whether some running process of the table carries this OS pid.
pub open spec fn running_pid_of(pm: ProcessMap, x: i32) -> bool {
    exists|j: int|
        0 <= j < pm.spec_processes().len() && (#[trigger] pm.spec_processes()[j]).state is Running
            && pm.spec_processes()[j].pid == x
}

/// Structural soundness of the runtime parts, and the ordering
/// guarantee: a process only leaves its waiting state once the graph
/// offered it; the graph marks a process finished only once it is done,
/// crashed, or a notify process past its startup; an indexed pid belongs
/// to exactly one process, and that process has started.
pub open spec fn parts_wf(pm: ProcessMap, dm: DependencyManager, cron: Cron) -> bool {
    &&& pm.wf()
    &&& dm.wf()
    &&& cron.wf()
    &&& dm.n() == pm.spec_processes().len()
    &&& forall|j: int|
        0 <= j < pm.spec_processes().len() && started_of(pm, j) ==> dm.spec_is_runnable(j)
    &&& forall|i: int|
        0 <= i < pm.spec_processes().len() && dm.spec_finished(i) ==> (((
        #[trigger] pm.spec_processes()[i]).state is Done || pm.spec_processes()[i].state
            is Crashed) || (pm.spec_processes()[i].process_type is Notify && (
        pm.spec_processes()[i].state is Running || pm.spec_processes()[i].state is Stopping)))
    &&& forall|i: int|
        0 <= i < pm.spec_processes().len() && dm.spec_finished(i) ==> !((
        #[trigger] pm.spec_processes()[i]).process_type is Cronjob)
    &&& forall|k: int|
        0 <= k < pm.spec_pids().len() ==> ((#[trigger] pm.spec_pids()[k]).1
            < pm.spec_processes().len() && started_of(pm, pm.spec_pids()[k].1 as int))
    &&& forall|k1: int, k2: int|
        0 <= k1 < k2 < pm.spec_pids().len() ==> (#[trigger] pm.spec_pids()[k1]).1 != (
        #[trigger] pm.spec_pids()[k2]).1
}

/// Overall runtime state: every decision the event loop takes runs
/// through these data structures.
pub struct Supervisor {
    pub process_map: ProcessMap,
    pub keep_running: bool,
    pub dependency_manager: DependencyManager,
    pub cron: Cron,
    pub exit_code: i32,
}

impl Supervisor {
    /// Number of supervised processes.
    pub open spec fn n(self) -> int {
        self.process_map.spec_processes().len() as int
    }

    /// The record of process `j`.
    pub open spec fn proc(self, j: int) -> Process {
        self.process_map.spec_processes()[j]
    }

    /// Whether process `j` has left its waiting state.
    pub open spec fn started(self, j: int) -> bool {
        started_of(self.process_map, j)
    }

    /// Whether some running process carries this OS pid.
    pub open spec fn running_pid(self, x: i32) -> bool {
        running_pid_of(self.process_map, x)
    }

    /// Structural soundness, and the ordering guarantee: a process only
    /// leaves its waiting state once the graph offered it, and the graph
    /// only marks a process finished once it is done, crashed, or a
    /// notify process past its startup.
    pub open spec fn wf(self) -> bool {
        parts_wf(self.process_map, self.dependency_manager, self.cron)
    }

    /// Assemble the runtime state from its parts.
    pub fn new(process_map: ProcessMap, dependency_manager: DependencyManager, cron: Cron) -> (r:
        Supervisor)
        requires
            process_map.wf(),
            dependency_manager.wf(),
            cron.wf(),
            dependency_manager.n() == process_map.spec_processes().len(),
            forall|j: int|
                0 <= j < process_map.spec_processes().len() ==> ((
                #[trigger] process_map.spec_processes()[j]).state is Blocked
                    || process_map.spec_processes()[j].state is Sleeping),
            forall|i: int|
                0 <= i < dependency_manager.n() ==> !dependency_manager.spec_finished(i),
            process_map.spec_pids().len() == 0,
        ensures
            r.wf(),
            r.process_map == process_map,
            r.dependency_manager == dependency_manager,
            r.cron == cron,
            r.keep_running,
            r.exit_code == 0,
    {
        Supervisor { process_map, keep_running: true, dependency_manager, cron, exit_code: 0 }
    }

    /// Whether the event loop should keep turning: a shutdown was not
    /// requested and something still runs or waits.
    pub fn should_run(&self) -> (r: bool)
        ensures
            r == (self.keep_running && (self.process_map.spec_stdout().len() != 0
                || self.process_map.spec_stderr().len() != 0 || self.process_map.spec_pids().len()
                != 0 || self.dependency_manager.spec_queue().len() != 0)),
    {
        self.keep_running && (self.process_map.has_running_processes()
            || self.dependency_manager.has_runnables())
    }

    /// Whether the shutdown drain still has children to wait for.
    pub fn has_running_processes(&self) -> (r: bool)
        ensures
            r == (self.process_map.spec_stdout().len() != 0 || self.process_map.spec_stderr().len()
                != 0 || self.process_map.spec_pids().len() != 0),
    {
        self.process_map.has_running_processes()
    }

    /// The pids of all currently running children, for signalling:
    /// sound and complete for the running states.
    pub fn running_pids(&self) -> (r: Vec<i32>)
        ensures
            forall|q: int| 0 <= q < r@.len() ==> self.running_pid(#[trigger] r@[q]),
            forall|j: int|
                0 <= j < self.n() && (#[trigger] self.proc(j)).state is Running ==> lists_pid(
                    r@,
                    self.proc(j).pid,
                ),
    {
        let n = self.process_map.len();
        let mut pids: Vec<i32> = Vec::new();
        let mut j: usize = 0;
        while j < n
            invariant
                0 <= j <= n,
                n == self.n(),
                forall|q: int| 0 <= q < pids@.len() ==> self.running_pid(#[trigger] pids@[q]),
                forall|i: int|
                    0 <= i < j && (#[trigger] self.proc(i)).state is Running ==> lists_pid(
                        pids@,
                        self.proc(i).pid,
                    ),
            decreases n - j,
        {
            let p = self.process_map.process(j);
            if matches!(p.state, ProcessState::Running) {
                let ghost pre = pids@;
                pids.push(p.pid);
                proof {
                    assert forall|q: int|
                        0 <= q < pids@.len() implies self.running_pid(#[trigger] pids@[q]) by {
                        if q < pre.len() {
                            assert(pids@[q] == pre[q]);
                        } else {
                            assert(self.proc(j as int).state is Running && self.proc(j as int).pid
                                == pids@[q]);
                        }
                    }
                    assert forall|i: int|
                        0 <= i < j + 1 && (#[trigger] self.proc(i)).state is Running implies lists_pid(
                        pids@,
                        self.proc(i).pid,
                    ) by {
                        if i < j {
                            let q = choose|q: int|
                                0 <= q < pre.len() && pre[q] == self.proc(i).pid;
                            assert(pids@[q] == self.proc(i).pid);
                        } else {
                            assert(pids@[pids@.len() - 1] == self.proc(i).pid);
                        }
                    }
                }
            }
            j += 1;
        }
        pids
    }

    /// Request a graceful shutdown: the loop stops spawning and every
    /// running child is to receive the given signal.
    pub fn initiate_shutdown(&mut self) -> (kill: Vec<i32>)
        ensures
            !final(self).keep_running,
            final(self).process_map == old(self).process_map,
            final(self).dependency_manager == old(self).dependency_manager,
            final(self).cron == old(self).cron,
            final(self).exit_code == old(self).exit_code,
            forall|q: int|
                0 <= q < kill@.len() ==> final(self).running_pid(#[trigger] kill@[q]),
            forall|j: int|
                0 <= j < final(self).n() && (#[trigger] final(self).proc(j)).state is Running
                    ==> lists_pid(kill@, final(self).proc(j).pid),
            old(self).wf() ==> final(self).wf(),
    {
        let kill = self.running_pids();
        let ghost pre = *self;
        self.keep_running = false;
        proof {
            assert forall|j: int|
                0 <= j < self.n() && (#[trigger] self.proc(j)).state is Running implies lists_pid(
                kill@,
                self.proc(j).pid,
            ) by {
                assert(self.proc(j) == pre.proc(j));
            }
        }
        kill
    }

    /// Decide what a received signal means.
    ///
    /// An interrupt or quit request starts the shutdown and the children
    /// receive that same signal; a terminate request starts the shutdown
    /// with an interrupt instead, because children with no terminal
    /// mishandle it; a child-exited signal changes nothing, since reaping
    /// is driven from the loop.
    pub fn handle_signal(&mut self, signo: i32) -> (r: (i32, Vec<i32>))
        requires
            old(self).wf(),
        ensures
            final(self).wf(),
            signo == SIGNAL_INT || signo == SIGNAL_QUIT ==> !final(self).keep_running && r.0
                == signo,
            signo == SIGNAL_TERM ==> !final(self).keep_running && r.0 == SIGNAL_INT,
            signo != SIGNAL_INT && signo != SIGNAL_QUIT && signo != SIGNAL_TERM ==> *final(self)
                == *old(self) && r.0 == 0,
            forall|q: int|
                0 <= q < r.1@.len() ==> final(self).running_pid(#[trigger] r.1@[q]),
            signo == SIGNAL_INT || signo == SIGNAL_QUIT || signo == SIGNAL_TERM ==> forall|j: int|
                0 <= j < final(self).n() && (#[trigger] final(self).proc(j)).state is Running
                    ==> lists_pid(r.1@, final(self).proc(j).pid),
    {
        if signo == SIGNAL_INT || signo == SIGNAL_QUIT {
            let kill = self.initiate_shutdown();
            (signo, kill)
        } else if signo == SIGNAL_TERM {
            let kill = self.initiate_shutdown();
            (SIGNAL_INT, kill)
        } else {
            (0, Vec::new())
        }
    }

    /// Mark a reaped child as terminated.
    ///
    /// An unknown pid is an adopted orphan and changes nothing. A zero
    /// exit re-arms a cronjob and completes anything else; a non-zero
    /// exit crashes the record, sets the crash exit code, and starts the
    /// shutdown, handing back the pids to signal. The pid index forgets
    /// the child, and for non-cronjobs the dependency graph releases the
    /// dependants.
    pub fn handle_finished_child(&mut self, pid: i32, rc: i32) -> (kill: Vec<i32>)
        requires
            old(self).wf(),
        ensures
            final(self).wf(),
            final(self).n() == old(self).n(),
            !assoc_has(old(self).process_map.spec_pids(), pid) ==> *final(self) == *old(self)
                && kill@.len() == 0,
            forall|x: i32|
                assoc_has(final(self).process_map.spec_pids(), x) <==> (assoc_has(
                    old(self).process_map.spec_pids(),
                    x,
                ) && x != pid),
            forall|id: int|
                0 <= id < old(self).n() && assoc_entry(
                    old(self).process_map.spec_pids(),
                    pid,
                    id as usize,
                ) ==> {
                    &&& final(self).proc(id).state == (if rc == 0 {
                        if old(self).proc(id).process_type is Cronjob {
                            ProcessState::Sleeping
                        } else {
                            ProcessState::Done
                        }
                    } else {
                        ProcessState::Crashed(rc)
                    })
                    &&& (rc != 0 ==> final(self).exit_code == CHILD_CRASH_EXIT_CODE && !final(self).keep_running)
                    &&& (rc == 0 ==> final(self).exit_code == old(self).exit_code && final(self).keep_running == old(self).keep_running)
                    &&& (!(old(self).proc(id).process_type is Cronjob) ==> final(self).dependency_manager.spec_finished(id))
                    &&& forall|j: int|
                        0 <= j < old(self).n() && j != id ==> final(self).proc(j) == old(self).proc(j)
                },
    {
        let child_index = match self.process_map.process_id_for_pid(pid) {
            None => {
                return Vec::new();
            },
            Some(id) => id,
        };
        if child_index >= self.process_map.len() {
            proof {
                assert(assoc_has(self.process_map.spec_pids(), pid));
            }
            return Vec::new();
        }
        proof {
            let k1 = choose|k: int|
                0 <= k < self.process_map.spec_pids().len()
                    && (#[trigger] self.process_map.spec_pids()[k]) == (pid, child_index);
            assert forall|id2: usize|
                assoc_entry(self.process_map.spec_pids(), pid, id2) implies id2
                == child_index by {
                let k2 = choose|k: int|
                    0 <= k < self.process_map.spec_pids().len()
                        && (#[trigger] self.process_map.spec_pids()[k]) == (pid, id2);
                if k1 != k2 {
                    assert(self.process_map.spec_pids()[k1].0
                        == self.process_map.spec_pids()[k2].0);
                }
            }
        }
        let is_cronjob = matches!(
            self.process_map.process(child_index).process_type,
            ProcessType::Cronjob
        );
        let child_crashed = rc != 0;
        let child = self.process_map.process_mut(child_index);
        child.state = if rc == 0 {
            if is_cronjob {
                ProcessState::Sleeping
            } else {
                ProcessState::Done
            }
        } else {
            ProcessState::Crashed(rc)
        };
        let mut kill: Vec<i32> = Vec::new();
        if child_crashed {
            self.exit_code = CHILD_CRASH_EXIT_CODE;
            kill = self.initiate_shutdown();
        }
        let ghost mid = *self;
        self.process_map.deregister_pid(pid);
        proof {
            let pm = self.process_map;
            let old_pm = mid.process_map;
            assert forall|k: int|
                0 <= k < pm.spec_pids().len() implies ((#[trigger] pm.spec_pids()[k]).1
                < pm.spec_processes().len() && started_of(pm, pm.spec_pids()[k].1 as int)) by {
                assert(old_pm.spec_pids().contains(pm.spec_pids()[k]));
                let p = choose|p: int|
                    0 <= p < old_pm.spec_pids().len() && old_pm.spec_pids()[p] == pm.spec_pids()[k];
                assert(old_pm.spec_pids()[p].1 < old_pm.spec_processes().len());
            }
        }
        if !is_cronjob {
            self.dependency_manager.notify_process_finished(child_index);
        }
        kill
    }
}

/// First position of `=` in a line, from `k` on.
pub open spec fn find_eq(s: Seq<char>, k: int) -> Option<int>
    decreases s.len() - k,
{
    if k < 0 || k >= s.len() {
        None
    } else if s[k] == '=' {
        Some(k)
    } else {
        find_eq(s, k + 1)
    }
}

/// A line as the line iterator yields it: any trailing carriage return
/// is dropped.
pub open spec fn line_of(piece: Seq<char>) -> Seq<char> {
    if piece.len() > 0 && piece.last() == '\r' {
        piece.drop_last()
    } else {
        piece
    }
}

/// The notification keys the supervisor understands.
pub open spec fn allowed_key(k: Seq<char>) -> bool {
    k == "READY"@ || k == "STOPPING"@ || k == "STATUS"@ || k == "MAINPID"@
}

/// The key/value pairs of the newline-separated pieces from `k` on:
/// lines without `=` or with an unknown key are dropped.
pub open spec fn spec_parse_lines(pieces: Seq<Seq<char>>, k: int) -> Seq<(Seq<char>, Seq<char>)>
    decreases pieces.len() - k,
{
    if k < 0 || k >= pieces.len() {
        Seq::empty()
    } else {
        let line = line_of(pieces[k]);
        let rest = spec_parse_lines(pieces, k + 1);
        match find_eq(line, 0) {
            None => rest,
            Some(i) => if allowed_key(line.take(i)) {
                seq![(line.take(i), line.skip(i + 1))] + rest
            } else {
                rest
            },
        }
    }
}

/// What parsing a notify datagram yields: for each line carrying a known
/// key, the key and everything after the first `=`.
pub open spec fn spec_parse_notify(msg: Seq<char>) -> Seq<(Seq<char>, Seq<char>)> {
    let pieces = spec_split(msg, '\n');
    let trimmed = if pieces.len() > 0 && pieces.last().len() == 0 {
        pieces.drop_last()
    } else {
        pieces
    };
    spec_parse_lines(trimmed, 0)
}

/// Find the first `=` of a line.
#[verifier::loop_isolation(false)]
fn find_eq_exec(line: &str) -> (r: Option<usize>)
    ensures
        match r {
            Some(i) => find_eq(line@, 0) == Some(i as int) && i < line@.len(),
            None => find_eq(line@, 0) is None,
        },
{
    let n = line.unicode_len();
    let mut i: usize = 0;
    while i < n
        invariant
            0 <= i <= n,
            find_eq(line@, 0) == find_eq(line@, i as int),
        decreases n - i,
    {
        if line.get_char(i) == '=' {
            return Some(i);
        }
        i += 1;
    }
    None
}

/// Parse the raw notification message: one `KEY=VALUE` pair per line,
/// unknown keys and plain lines dropped.
#[verifier::loop_isolation(false)]
pub fn parse(state: &str) -> (r: Vec<(String, String)>)
    ensures
        r.deep_view() == spec_parse_notify(state@),
{
    broadcast use vstd::string::group_string_axioms;

    proof {
        reveal_strlit("READY");
        reveal_strlit("STOPPING");
        reveal_strlit("STATUS");
        reveal_strlit("MAINPID");
    }
    let pieces = split_on(state, '\n');
    let ghost all = spec_split(state@, '\n');
    let mut upto = pieces.len();
    proof {
        assert(pieces.deep_view().len() == pieces@.len());
        assert forall|k: int| 0 <= k < pieces@.len() implies pieces@[k]@ == all[k] by {
            assert(pieces.deep_view()[k] == pieces@[k]@);
        }
    }
    if pieces[upto - 1].as_str().unicode_len() == 0 {
        upto = upto - 1;
    }
    let ghost trimmed = if all.len() > 0 && all.last().len() == 0 {
        all.drop_last()
    } else {
        all
    };
    proof {
        assert(upto == trimmed.len());
        assert forall|k: int| 0 <= k < trimmed.len() implies pieces@[k]@ == trimmed[k] by {
            assert(trimmed[k] == all[k]);
        }
    }
    let mut out: Vec<(String, String)> = Vec::new();
    let mut k: usize = 0;
    proof {
        assert(out.deep_view() =~= Seq::<(Seq<char>, Seq<char>)>::empty());
    }
    while k < upto
        invariant
            0 <= k <= upto,
            upto <= pieces@.len(),
            spec_parse_notify(state@) =~= out.deep_view() + spec_parse_lines(trimmed, k as int),
        decreases upto - k,
    {
        let piece = pieces[k].as_str();
        let piece_len = piece.unicode_len();
        let line;
        if piece_len > 0 && piece.get_char(piece_len - 1) == '\r' {
            line = piece.substring_char(0, piece_len - 1);
            proof {
                assert(line@ =~= line_of(trimmed[k as int]));
            }
        } else {
            line = piece.substring_char(0, piece_len);
            proof {
                assert(line@ =~= trimmed[k as int]);
                assert(line@ =~= line_of(trimmed[k as int]));
            }
        }
        match find_eq_exec(line) {
            None => {},
            Some(i) => {
                let line_len = line.unicode_len();
                let key = line.substring_char(0, i).to_owned();
                let value = line.substring_char(i + 1, line_len).to_owned();
                proof {
                    assert(key@ =~= line_of(trimmed[k as int]).take(i as int));
                    assert(value@ =~= line_of(trimmed[k as int]).skip(i + 1));
                }
                let is_allowed = str_eq(key.as_str(), "READY") || str_eq(key.as_str(), "STOPPING")
                    || str_eq(key.as_str(), "STATUS") || str_eq(key.as_str(), "MAINPID");
                if is_allowed {
                    let ghost pre = out.deep_view();
                    out.push((key, value));
                    proof {
                        assert(out.deep_view() =~= pre.push((key@, value@)));
                        assert(pre.push((key@, value@)) =~= pre + seq![(key@, value@)]);
                    }
                }
            },
        }
        k += 1;
    }
    proof {
        assert(spec_parse_lines(trimmed, upto as int) =~= Seq::<(Seq<char>, Seq<char>)>::empty());
    }
    out
}

impl Supervisor {
    /// Pop graph-runnable processes until a startable one appears: a
    /// cronjob offered by the graph only marks it ever-runnable and is
    /// skipped here.
    pub fn next_startable(&mut self) -> (r: Option<usize>)
        requires
            old(self).wf(),
        ensures
            final(self).wf(),
            final(self).process_map == old(self).process_map,
            final(self).cron == old(self).cron,
            final(self).keep_running == old(self).keep_running,
            final(self).exit_code == old(self).exit_code,
            match r {
                Some(id) => id < final(self).n() && final(self).dependency_manager.spec_is_runnable(
                    id as int,
                ) && !(final(self).proc(id as int).process_type is Cronjob)
                    && crate::dependency_graph::in_queue(
                    old(self).dependency_manager.spec_queue(),
                    id as int,
                ),
                None => final(self).dependency_manager.spec_queue().len() == 0,
            },
    {
        loop
            invariant
                self.wf(),
                self.process_map == old(self).process_map,
                self.cron == old(self).cron,
                self.keep_running == old(self).keep_running,
                self.exit_code == old(self).exit_code,
                self.dependency_manager.spec_queue().len() <= old(self).dependency_manager.spec_queue().len(),
                forall|q: int|
                    0 <= q < self.dependency_manager.spec_queue().len()
                        ==> #[trigger] self.dependency_manager.spec_queue()[q] == old(self).dependency_manager.spec_queue()[q],
            decreases self.dependency_manager.spec_queue().len(),
        {
            match self.dependency_manager.pop_runnable() {
                None => {
                    return None;
                },
                Some(id) => {
                    if id < self.process_map.len() {
                        let is_cron = matches!(
                            self.process_map.process(id).process_type,
                            ProcessType::Cronjob
                        );
                        if !is_cron {
                            return Some(id);
                        }
                    }
                },
            }
        }
    }

    /// Whether the record may be spawned now: only a process still in
    /// its waiting state may start.
    pub fn can_spawn(&self, id: usize) -> (r: bool)
        requires
            id < self.n(),
        ensures
            r == (self.proc(id as int).state is Blocked || self.proc(id as int).state is Sleeping),
    {
        let state = &self.process_map.process(id).state;
        matches!(state, ProcessState::Blocked) || matches!(state, ProcessState::Sleeping)
    }

    /// Record a successful fork: the child's pid and stdio descriptors
    /// are indexed and the record enters its started state.
    pub fn record_spawn(&mut self, id: usize, pid: i32, stdout_fd: i32, stderr_fd: i32)
        requires
            old(self).wf(),
            id < old(self).n(),
            old(self).dependency_manager.spec_is_runnable(id as int),
            old(self).proc(id as int).state is Blocked || old(self).proc(id as int).state
                is Sleeping,
        ensures
            final(self).wf(),
            final(self).n() == old(self).n(),
            final(self).dependency_manager == old(self).dependency_manager,
            final(self).cron == old(self).cron,
            final(self).keep_running == old(self).keep_running,
            final(self).exit_code == old(self).exit_code,
            final(self).proc(id as int).state == crate::process::Process::spawned_state(
                old(self).proc(id as int).process_type,
            ),
            final(self).proc(id as int).pid == pid,
            forall|j: int| 0 <= j < old(self).n() && j != id ==> final(self).proc(j) == old(self).proc(j),
            crate::process_map::assoc_entry(final(self).process_map.spec_pids(), pid, id),
    {
        let ghost orig = *self;
        proof {
            assert forall|k: int|
                0 <= k < self.process_map.spec_pids().len() implies (
            #[trigger] self.process_map.spec_pids()[k]).1 != id by {
                if self.process_map.spec_pids()[k].1 == id {
                    assert(started_of(self.process_map, id as int));
                }
            }
        }
        let record = self.process_map.process_mut(id);
        record.mark_spawned(pid);
        self.process_map.register_pid(id, pid);
        proof {
            let pm = self.process_map;
            assert(assoc_entry(pm.spec_pids(), pid, id)) by {
                assert(assoc_has(pm.spec_pids(), pid));
                let k = choose|k: int|
                    0 <= k < pm.spec_pids().len() && (#[trigger] pm.spec_pids()[k]).0 == pid;
                assert(pm.spec_pids()[k].1 == id);
            }
            assert forall|k: int|
                0 <= k < pm.spec_pids().len() implies ((#[trigger] pm.spec_pids()[k]).1 < pm.spec_processes().len()
                && started_of(pm, pm.spec_pids()[k].1 as int)) by {
                if pm.spec_pids()[k] != (pid, id) {
                    assert(orig.process_map.spec_pids().contains(pm.spec_pids()[k]));
                    let p = choose|p: int|
                        0 <= p < orig.process_map.spec_pids().len()
                            && orig.process_map.spec_pids()[p] == pm.spec_pids()[k];
                    assert(pm.spec_pids()[k].1 != id);
                }
            }
            assert forall|k1: int, k2: int|
                0 <= k1 < k2 < pm.spec_pids().len() implies (#[trigger] pm.spec_pids()[k1]).1 != (
            #[trigger] pm.spec_pids()[k2]).1 by {
                if pm.spec_pids()[k1] != (pid, id) && pm.spec_pids()[k2] != (pid, id) {
                    let p1 = choose|p: int|
                        0 <= p < orig.process_map.spec_pids().len()
                            && orig.process_map.spec_pids()[p] == pm.spec_pids()[k1];
                    let p2 = choose|p: int|
                        0 <= p < orig.process_map.spec_pids().len()
                            && orig.process_map.spec_pids()[p] == pm.spec_pids()[k2];
                    if p1 == p2 {
                        assert(pm.spec_pids()[k1] == pm.spec_pids()[k2]);
                        assert(pm.spec_pids()[k1].0 != pm.spec_pids()[k2].0);
                    } else {
                        assert(orig.process_map.spec_pids()[p1].1
                            != orig.process_map.spec_pids()[p2].1);
                    }
                } else if pm.spec_pids()[k1] == (pid, id) {
                    assert(pm.spec_pids()[k2].1 != id);
                } else {
                    assert(pm.spec_pids()[k1].1 != id);
                }
            }
        }
        self.process_map.register_stdout(id, stdout_fd);
        self.process_map.register_stderr(id, stderr_fd);
    }

    /// Offer the next due cronjob: the id whose scheduled instant has
    /// passed, and whether the dependency graph lets it start. A gated-off
    /// job stays re-armed for its next instant.
    pub fn pop_due_cronjob(&mut self, now: DateTime) -> (r: Option<(usize, bool)>)
        requires
            old(self).wf(),
            now.valid(),
            now.year + 16 <= YEAR_MAX,
        ensures
            final(self).wf(),
            final(self).process_map == old(self).process_map,
            final(self).dependency_manager == old(self).dependency_manager,
            final(self).keep_running == old(self).keep_running,
            final(self).exit_code == old(self).exit_code,
            match r {
                Some((id, gate)) => {
                    &&& gate == (id < final(self).n()
                        && final(self).dependency_manager.spec_is_runnable(id as int))
                    &&& old(self).cron.spec_timeline().len() > 0
                    &&& id == old(self).cron.spec_timeline()[0].1
                    &&& !now.spec_lt(old(self).cron.spec_timeline()[0].0)
                    &&& final(self).cron.spec_timers() == old(self).cron.spec_timers()
                    &&& final(self).cron.spec_timeline().len() == old(self).cron.spec_timeline().len()
                    &&& forall|a: int|
                        1 <= a < old(self).cron.spec_timeline().len()
                            ==> final(self).cron.spec_timeline().contains(
                            #[trigger] old(self).cron.spec_timeline()[a],
                        )
                    &&& exists|t: int|
                        0 <= t < old(self).cron.spec_timers().len() && (
                        #[trigger] old(self).cron.spec_timers()[t]).0 == id && (exists|
                            base: crate::datetime::DateTime,
                        |
                            #[trigger] crate::cronjob::next_fire_ok(
                                old(self).cron.spec_timers()[t].1,
                                now,
                                base,
                            ) && (exists|slot: crate::datetime::DateTime|
                                Cron::entry_scheduled(final(self).cron.spec_timeline(), slot, id)
                                    && (base.spec_lt(slot) || base.same_instant(slot))))
                },
                None => *final(self) == *old(self) && (old(self).cron.spec_timeline().len() == 0
                    || now.spec_lt(old(self).cron.spec_timeline()[0].0)),
            },
    {
        match self.cron.pop_runnable(now) {
            None => None,
            Some(id) => {
                let gate = id < self.process_map.len() && self.dependency_manager.is_runnable(id);
                Some((id, gate))
            },
        }
    }

    /// Dispatch one key/value pair at supervisor level: readiness
    /// releases the sender's dependants; a main-pid change re-indexes the
    /// sender.
    #[verifier::rlimit(100)]
    fn handle_notification(&mut self, process_id: usize, pid: i32, key: &str, value: &str)
        requires
            old(self).wf(),
            process_id < old(self).n(),
            crate::process_map::assoc_entry(old(self).process_map.spec_pids(), pid, process_id),
            old(self).proc(process_id as int).process_type is Notify,
            !(old(self).proc(process_id as int).state is Blocked),
            !(old(self).proc(process_id as int).state is Sleeping),
            !(old(self).proc(process_id as int).state is Starting),
        ensures
            final(self).wf(),
            final(self).n() == old(self).n(),
            final(self).process_map.spec_processes() == old(self).process_map.spec_processes(),
            final(self).cron == old(self).cron,
            final(self).keep_running == old(self).keep_running,
            final(self).exit_code == old(self).exit_code,
            key@ == "READY"@ && value@ == "1"@ ==> final(self).dependency_manager.spec_finished(
                process_id as int,
            ),
            key@ != "MAINPID"@ ==> final(self).process_map == old(self).process_map,
            key@ != "READY"@ && key@ != "MAINPID"@ ==> *final(self) == *old(self),
            key@ == "READY"@ && value@ != "1"@ ==> *final(self) == *old(self),
            final(self).dependency_manager.spec_finished(process_id as int) == (old(self).dependency_manager.spec_finished(process_id as int) || (key@ == "READY"@ && value@
                == "1"@)),
            key@ == "MAINPID"@ ==> final(self).dependency_manager == old(self).dependency_manager,
            key@ == "MAINPID"@ && crate::text::parse_i32(value@) is None ==> *final(self) == *old(self),
            key@ == "MAINPID"@ ==> (crate::text::parse_i32(value@) matches Some(v) ==> (
            crate::process_map::assoc_entry(final(self).process_map.spec_pids(), v, process_id)
                && (forall|x: i32|
                assoc_has(final(self).process_map.spec_pids(), x) <==> ((assoc_has(
                    old(self).process_map.spec_pids(),
                    x,
                ) && x != pid) || x == v)))),
            forall|j: int|
                old(self).dependency_manager.spec_is_runnable(j) ==> final(self).dependency_manager.spec_is_runnable(j),
    {
        proof {
            reveal_strlit("READY");
            reveal_strlit("MAINPID");
            reveal_strlit("1");
            assert("READY"@.len() == 5);
            assert("MAINPID"@.len() == 7);
        }
        if str_eq(key, "READY") {
            if !str_eq(value, "1") {
                return ;
            }
            self.dependency_manager.notify_process_finished(process_id);
        } else if str_eq(key, "MAINPID") {
            let new_pid = match crate::text::parse_i32_exec(value) {
                Some(p) => p,
                None => {
                    return ;
                },
            };
            let ghost orig = *self;
            self.process_map.deregister_pid(pid);
            proof {
                let pm = self.process_map;
                assert forall|k: int|
                    0 <= k < pm.spec_pids().len() implies ((#[trigger] pm.spec_pids()[k]).1
                    < pm.spec_processes().len() && started_of(pm, pm.spec_pids()[k].1 as int)
                    && pm.spec_pids()[k].1 != process_id) by {
                    assert(orig.process_map.spec_pids().contains(pm.spec_pids()[k]));
                    let p = choose|p: int|
                        0 <= p < orig.process_map.spec_pids().len()
                            && orig.process_map.spec_pids()[p] == pm.spec_pids()[k];
                    if pm.spec_pids()[k].1 == process_id {
                        let q = choose|q: int|
                            0 <= q < orig.process_map.spec_pids().len() && (
                            #[trigger] orig.process_map.spec_pids()[q]) == (pid, process_id);
                        if p != q {
                            assert(orig.process_map.spec_pids()[p].1
                                != orig.process_map.spec_pids()[q].1);
                        }
                    }
                }
            }
            let ghost mid = *self;
            self.process_map.register_pid(process_id, new_pid);
            proof {
                let pm = self.process_map;
                assert(assoc_has(pm.spec_pids(), new_pid));
                let ke = choose|ke: int|
                    0 <= ke < pm.spec_pids().len() && (#[trigger] pm.spec_pids()[ke]).0
                        == new_pid;
                assert(pm.spec_pids()[ke].1 == process_id);
                assert(crate::process_map::assoc_entry(pm.spec_pids(), new_pid, process_id));
                assert forall|k: int|
                    0 <= k < pm.spec_pids().len() implies ((#[trigger] pm.spec_pids()[k]).1
                    < pm.spec_processes().len() && started_of(pm, pm.spec_pids()[k].1 as int)) by {
                    if pm.spec_pids()[k] != (new_pid, process_id) {
                        assert(mid.process_map.spec_pids().contains(pm.spec_pids()[k]));
                        let p = choose|p: int|
                            0 <= p < mid.process_map.spec_pids().len()
                                && mid.process_map.spec_pids()[p] == pm.spec_pids()[k];
                    }
                }
                assert forall|k1: int, k2: int|
                    0 <= k1 < k2 < pm.spec_pids().len() implies (#[trigger] pm.spec_pids()[k1]).1
                    != (#[trigger] pm.spec_pids()[k2]).1 by {
                    if pm.spec_pids()[k1] != (new_pid, process_id) && pm.spec_pids()[k2] != (
                    new_pid,
                    process_id,
                    ) {
                        let p1 = choose|p: int|
                            0 <= p < mid.process_map.spec_pids().len()
                                && mid.process_map.spec_pids()[p] == pm.spec_pids()[k1];
                        let p2 = choose|p: int|
                            0 <= p < mid.process_map.spec_pids().len()
                                && mid.process_map.spec_pids()[p] == pm.spec_pids()[k2];
                        if p1 == p2 {
                            assert(pm.spec_pids()[k1].0 != pm.spec_pids()[k2].0);
                        } else {
                            assert(mid.process_map.spec_pids()[p1].1
                                != mid.process_map.spec_pids()[p2].1);
                        }
                    } else if pm.spec_pids()[k1] == (new_pid, process_id) {
                        assert(mid.process_map.spec_pids().contains(pm.spec_pids()[k2])
                            || pm.spec_pids()[k2] == (new_pid, process_id));
                        if pm.spec_pids()[k2] != (new_pid, process_id) {
                            let p = choose|p: int|
                                0 <= p < mid.process_map.spec_pids().len()
                                    && mid.process_map.spec_pids()[p] == pm.spec_pids()[k2];
                            assert(pm.spec_pids()[k2].1 != process_id);
                        } else {
                            assert(pm.spec_pids()[k1].0 != pm.spec_pids()[k2].0);
                            assert(false);
                        }
                    } else {
                        let p = choose|p: int|
                            0 <= p < mid.process_map.spec_pids().len()
                                && mid.process_map.spec_pids()[p] == pm.spec_pids()[k1];
                        assert(pm.spec_pids()[k1].1 != process_id);
                    }
                }
            }
        }
    }
}

/// Whether the parsed pairs hold the given key and value.
pub open spec fn has_pair(pairs: Seq<(Seq<char>, Seq<char>)>, key: Seq<char>, value: Seq<char>) -> bool {
    exists|q: int| 0 <= q < pairs.len() && (#[trigger] pairs[q]).0 == key && pairs[q].1 == value
}

/// How many pairs carry the given key.
pub open spec fn count_key(pairs: Seq<(Seq<char>, Seq<char>)>, key: Seq<char>) -> nat
    decreases pairs.len(),
{
    if pairs.len() == 0 {
        0
    } else {
        (if pairs[0].0 == key {
            1nat
        } else {
            0nat
        }) + count_key(pairs.drop_first(), key)
    }
}

/// The value of the first pair carrying the key.
pub open spec fn first_value(pairs: Seq<(Seq<char>, Seq<char>)>, key: Seq<char>) -> Seq<char>
    decreases pairs.len(),
{
    if pairs.len() == 0 {
        Seq::empty()
    } else if pairs[0].0 == key {
        pairs[0].1
    } else {
        first_value(pairs.drop_first(), key)
    }
}

/// A positive count names a position carrying the key.
proof fn lemma_count_key_pos(pairs: Seq<(Seq<char>, Seq<char>)>, key: Seq<char>)
    requires
        count_key(pairs, key) >= 1,
    ensures
        exists|q: int| 0 <= q < pairs.len() && (#[trigger] pairs[q]).0 == key,
    decreases pairs.len(),
{
    if pairs.len() > 0 {
        if pairs[0].0 == key {
        } else {
            lemma_count_key_pos(pairs.drop_first(), key);
            let q = choose|q: int|
                0 <= q < pairs.drop_first().len() && (#[trigger] pairs.drop_first()[q]).0 == key;
            assert(pairs[q + 1].0 == key);
        }
    }
}

/// A pair at some position raises the key's count.
proof fn lemma_count_key_at(pairs: Seq<(Seq<char>, Seq<char>)>, key: Seq<char>, q: int)
    requires
        0 <= q < pairs.len(),
        pairs[q].0 == key,
    ensures
        count_key(pairs, key) >= 1,
    decreases pairs.len(),
{
    if q > 0 {
        assert(pairs.drop_first()[q - 1] == pairs[q]);
        lemma_count_key_at(pairs.drop_first(), key, q - 1);
    }
}

/// With the key counted once, the pair at any matching position carries
/// the first value.
proof fn lemma_first_value_at(pairs: Seq<(Seq<char>, Seq<char>)>, key: Seq<char>, q: int)
    requires
        0 <= q < pairs.len(),
        pairs[q].0 == key,
        count_key(pairs, key) <= 1,
    ensures
        first_value(pairs, key) == pairs[q].1,
    decreases pairs.len(),
{
    if pairs[0].0 == key {
        if q > 0 {
            assert(pairs.drop_first()[q - 1] == pairs[q]);
            lemma_count_key_at(pairs.drop_first(), key, q - 1);
        }
    } else {
        assert(pairs.drop_first()[q - 1] == pairs[q]);
        lemma_first_value_at(pairs.drop_first(), key, q - 1);
    }
}

impl Supervisor {
    /// Handle one authenticated notify datagram.
    ///
    /// The sender is located by its OS pid; datagrams from unknown pids
    /// or from processes not of the notify type change nothing. The
    /// message's key/value pairs reach the sender's record first and the
    /// supervisor second, so a plain readiness datagram moves the record
    /// to running and releases the dependants, and a plain main-pid
    /// change re-points the pid index.
    #[verifier::loop_isolation(false)]
    #[verifier::rlimit(60)]
    pub fn process_notification(&mut self, sender_pid: i32, message: &str)
        requires
            old(self).wf(),
        ensures
            final(self).wf(),
            final(self).n() == old(self).n(),
            final(self).cron == old(self).cron,
            final(self).keep_running == old(self).keep_running,
            final(self).exit_code == old(self).exit_code,
            !assoc_has(old(self).process_map.spec_pids(), sender_pid) ==> *final(self) == *old(self),
            forall|j: int|
                old(self).dependency_manager.spec_is_runnable(j) ==> final(self).dependency_manager.spec_is_runnable(j),
            forall|id: usize|
                id < old(self).n()
                    && #[trigger] crate::process_map::assoc_entry(
                    old(self).process_map.spec_pids(),
                    sender_pid,
                    id,
                ) && old(self).proc(id as int).process_type is Notify
                    && crate::process_map::assoc_entry(
                    old(self).process_map.spec_pids(),
                    old(self).proc(id as int).pid,
                    id,
                ) ==> ({
                    let pairs = spec_parse_notify(message@);
                    &&& (has_pair(pairs, "READY"@, "1"@) && count_key(pairs, "MAINPID"@) == 0
                        ==> final(self).dependency_manager.spec_finished(id as int))
                    &&& (has_pair(pairs, "READY"@, "1"@) && count_key(pairs, "MAINPID"@) == 0
                        && count_key(pairs, "STOPPING"@) == 0 ==> final(self).proc(id as int).state
                        == (if old(self).proc(id as int).state is Starting {
                        ProcessState::Running
                    } else {
                        old(self).proc(id as int).state
                    }))
                    &&& (count_key(pairs, "MAINPID"@) == 1 && !(old(self).proc(id as int).state
                        is Starting) ==> (crate::text::parse_i32(
                        first_value(pairs, "MAINPID"@),
                    ) matches Some(v) ==> crate::process_map::assoc_entry(
                        final(self).process_map.spec_pids(),
                        v,
                        id,
                    )))
                }),
    {
        proof {
            reveal_strlit("READY");
            reveal_strlit("STOPPING");
            reveal_strlit("MAINPID");
            reveal_strlit("1");
            assert("READY"@.len() == 5);
            assert("STOPPING"@.len() == 8);
            assert("MAINPID"@.len() == 7);
        }
        let process_id = match self.process_map.process_id_for_pid(sender_pid) {
            None => {
                proof {
                    assert forall|id: usize|
                        id < self.n() && #[trigger] crate::process_map::assoc_entry(
                            self.process_map.spec_pids(),
                            sender_pid,
                            id,
                        ) implies false by {
                        assert(assoc_has(self.process_map.spec_pids(), sender_pid));
                    }
                }
                return ;
            },
            Some(id) => id,
        };
        proof {
            assert(assoc_has(self.process_map.spec_pids(), sender_pid));
            let k = choose|k: int|
                0 <= k < self.process_map.spec_pids().len()
                    && (#[trigger] self.process_map.spec_pids()[k]) == (sender_pid, process_id);
            assert forall|id2: usize|
                crate::process_map::assoc_entry(
                    self.process_map.spec_pids(),
                    sender_pid,
                    id2,
                ) implies id2 == process_id by {
                let k2 = choose|k2: int|
                    0 <= k2 < self.process_map.spec_pids().len()
                        && (#[trigger] self.process_map.spec_pids()[k2]) == (sender_pid, id2);
                if k != k2 {
                    assert(self.process_map.spec_pids()[k].0
                        == self.process_map.spec_pids()[k2].0);
                }
            }
        }
        if !matches!(self.process_map.process(process_id).process_type, ProcessType::Notify) {
            proof {
                assert forall|id: usize|
                    id < self.n() && #[trigger] crate::process_map::assoc_entry(
                        self.process_map.spec_pids(),
                        sender_pid,
                        id,
                    ) implies id == process_id by {
                    let ka = choose|ka: int|
                        0 <= ka < self.process_map.spec_pids().len() && (
                        #[trigger] self.process_map.spec_pids()[ka]) == (sender_pid, id);
                    let kb = choose|kb: int|
                        0 <= kb < self.process_map.spec_pids().len() && (
                        #[trigger] self.process_map.spec_pids()[kb]) == (sender_pid, process_id);
                    if ka != kb {
                        assert(self.process_map.spec_pids()[ka].0
                            == self.process_map.spec_pids()[kb].0);
                        assert(false);
                    }
                    assert(self.process_map.spec_pids()[ka]
                        == self.process_map.spec_pids()[kb]);
                }
            }
            return ;
        }
        let pid = self.process_map.process(process_id).pid;
        let ghost orig = *self;
        let ghost pairs = spec_parse_notify(message@);
        let ghost rec0 = orig.proc(process_id as int);
        let variables = parse(message);
        proof {
            assert(variables.deep_view() =~= pairs);
            assert forall|q: int| 0 <= q < variables@.len() implies (#[trigger] variables@[q].0)@
                == pairs[q].0 && variables@[q].1@ == pairs[q].1 by {
                assert(variables.deep_view()[q] == (variables@[q].0@, variables@[q].1@));
            }
        }
        let n_pairs = variables.len();
        let mut k: usize = 0;
        while k < n_pairs
            invariant
                0 <= k <= n_pairs,
                n_pairs == variables@.len(),
                variables@.len() == pairs.len(),
                forall|q: int|
                    0 <= q < variables@.len() ==> (#[trigger] variables@[q].0)@ == pairs[q].0
                        && variables@[q].1@ == pairs[q].1,
                self.wf(),
                self.n() == orig.n(),
                self.cron == orig.cron,
                self.keep_running == orig.keep_running,
                self.exit_code == orig.exit_code,
                self.process_map.spec_pids() == orig.process_map.spec_pids(),
                self.dependency_manager == orig.dependency_manager,
                process_id < self.n(),
                self.proc(process_id as int).process_type is Notify,
                forall|j: int|
                    0 <= j < orig.n() && j != process_id ==> self.proc(j) == orig.proc(j),
                !(rec0.state is Starting) ==> !(self.proc(process_id as int).state is Starting),
                count_key(pairs, "MAINPID"@) == 0 ==> self.proc(process_id as int).pid
                    == rec0.pid,
                count_key(pairs, "MAINPID"@) == 0 && count_key(pairs, "STOPPING"@) == 0
                    ==> (self.proc(process_id as int).state == rec0.state || (rec0.state
                    is Starting && self.proc(process_id as int).state is Running)),
                (exists|q: int|
                    0 <= q < k && (#[trigger] pairs[q]).0 == "READY"@ && pairs[q].1 == "1"@)
                    ==> !(self.proc(process_id as int).state is Starting),
            decreases n_pairs - k,
        {
            let ghost pre = *self;
            proof {
                let ke = choose|ke: int|
                    0 <= ke < pre.process_map.spec_pids().len() && (
                    #[trigger] pre.process_map.spec_pids()[ke]) == (sender_pid, process_id);
                assert(started_of(pre.process_map, process_id as int));
                if pairs[k as int].0 == "STOPPING"@ {
                    lemma_count_key_at(pairs, "STOPPING"@, k as int);
                }
                if pairs[k as int].0 == "MAINPID"@ {
                    lemma_count_key_at(pairs, "MAINPID"@, k as int);
                }
            }
            let record = self.process_map.process_mut(process_id);
            record.handle_notification(variables[k].0.as_str(), variables[k].1.as_str());
            proof {
                let oldr = pre.proc(process_id as int);
                let newr = self.proc(process_id as int);
                assert(newr.state == oldr.state || newr.state is Running || newr.state
                    is Stopping);
                assert(newr.process_type == oldr.process_type);
                let pm = self.process_map;
                assert forall|q: int|
                    0 <= q < pm.spec_pids().len() implies ((#[trigger] pm.spec_pids()[q]).1
                    < pm.spec_processes().len() && started_of(pm, pm.spec_pids()[q].1 as int)) by {
                    assert(pre.process_map.spec_pids()[q] == pm.spec_pids()[q]);
                    if pm.spec_pids()[q].1 != process_id {
                        assert(pm.spec_processes()[pm.spec_pids()[q].1 as int]
                            == pre.process_map.spec_processes()[pm.spec_pids()[q].1 as int]);
                    }
                }
            }
            k += 1;
        }
        let ghost mid = *self;
        let mut k2: usize = 0;
        while k2 < n_pairs
            invariant
                0 <= k2 <= n_pairs,
                n_pairs == variables@.len(),
                variables@.len() == pairs.len(),
                forall|q: int|
                    0 <= q < variables@.len() ==> (#[trigger] variables@[q].0)@ == pairs[q].0
                        && variables@[q].1@ == pairs[q].1,
                self.wf(),
                self.n() == orig.n(),
                self.cron == orig.cron,
                self.keep_running == orig.keep_running,
                self.exit_code == orig.exit_code,
                self.process_map.spec_processes() == mid.process_map.spec_processes(),
                process_id < self.n(),
                self.proc(process_id as int).process_type is Notify,
                forall|j: int|
                    orig.dependency_manager.spec_is_runnable(j)
                        ==> self.dependency_manager.spec_is_runnable(j),
                count_key(pairs, "MAINPID"@) == 0 ==> self.process_map.spec_pids()
                    == orig.process_map.spec_pids(),
                (exists|q: int|
                    0 <= q < pairs.len() && (#[trigger] pairs[q]).0 == "READY"@ && pairs[q].1
                        == "1"@) ==> !(self.proc(process_id as int).state is Starting),
                !(rec0.state is Starting) ==> !(self.proc(process_id as int).state is Starting),
                crate::process_map::assoc_entry(
                    orig.process_map.spec_pids(),
                    pid,
                    process_id,
                ) && count_key(pairs, "MAINPID"@) == 0 && (exists|q: int|
                    0 <= q < k2 && (#[trigger] pairs[q]).0 == "READY"@ && pairs[q].1 == "1"@)
                    ==> self.dependency_manager.spec_finished(process_id as int),
                crate::process_map::assoc_entry(
                    orig.process_map.spec_pids(),
                    pid,
                    process_id,
                ) && count_key(pairs, "MAINPID"@) == 1 && !(rec0.state is Starting) ==> ({
                    ||| ((forall|q: int|
                        0 <= q < k2 ==> (#[trigger] pairs[q]).0 != "MAINPID"@)
                        && self.process_map.spec_pids() == orig.process_map.spec_pids())
                    ||| (crate::text::parse_i32(first_value(pairs, "MAINPID"@)) matches Some(v)
                        ==> crate::process_map::assoc_entry(
                        self.process_map.spec_pids(),
                        v,
                        process_id,
                    ))
                }),
            decreases n_pairs - k2,
        {
            let ghost pre2 = *self;
            proof {
                // Under the contract's antecedents the guards below hold,
                // so a relevant pair is never skipped.
                if crate::process_map::assoc_entry(orig.process_map.spec_pids(), pid, process_id)
                    && ((pairs[k2 as int].0 == "READY"@ && pairs[k2 as int].1 == "1"@
                    && count_key(pairs, "MAINPID"@) == 0) || (pairs[k2 as int].0 == "MAINPID"@
                    && count_key(pairs, "MAINPID"@) == 1 && !(rec0.state is Starting) && (forall|
                        q: int,
                    |
                        0 <= q < k2 ==> (#[trigger] pairs[q]).0 != "MAINPID"@)
                    && self.process_map.spec_pids() == orig.process_map.spec_pids())) {
                    assert(crate::process_map::assoc_entry(
                        self.process_map.spec_pids(),
                        pid,
                        process_id,
                    ));
                    if pairs[k2 as int].0 == "READY"@ {
                        lemma_count_key_at(pairs, "READY"@, k2 as int);
                    }
                }
            }
            if self.process_map.process_id_for_pid(pid).is_some() {
                let still = match self.process_map.process_id_for_pid(pid) {
                    Some(id2) => id2 == process_id,
                    None => false,
                };
                if still && !matches!(
                    self.process_map.process(process_id).state,
                    ProcessState::Blocked,
                ) && !matches!(self.process_map.process(process_id).state, ProcessState::Sleeping)
                    && !matches!(
                    self.process_map.process(process_id).state,
                    ProcessState::Starting,
                ) {
                    proof {
                        let pm = self.process_map;
                        let k3 = choose|k3: int|
                            0 <= k3 < pm.spec_pids().len() && (#[trigger] pm.spec_pids()[k3]) == (
                            pid,
                            process_id,
                            );
                        if pairs[k2 as int].0 == "MAINPID"@ {
                            lemma_count_key_at(pairs, "MAINPID"@, k2 as int);
                        }
                    }
                    self.handle_notification(
                        process_id,
                        pid,
                        variables[k2].0.as_str(),
                        variables[k2].1.as_str(),
                    );
                    proof {
                        if pairs[k2 as int].0 == "MAINPID"@ && count_key(pairs, "MAINPID"@)
                            == 1 {
                            lemma_first_value_at(pairs, "MAINPID"@, k2 as int);
                        }
                    }
                } else {
                    proof {
                        if pairs[k2 as int].0 == "MAINPID"@ {
                            lemma_count_key_at(pairs, "MAINPID"@, k2 as int);
                        }
                        if crate::process_map::assoc_entry(
                            orig.process_map.spec_pids(),
                            pid,
                            process_id,
                        ) {
                            let relevant_ready = pairs[k2 as int].0 == "READY"@
                                && pairs[k2 as int].1 == "1"@ && count_key(pairs, "MAINPID"@)
                                == 0;
                            let relevant_main = pairs[k2 as int].0 == "MAINPID"@ && count_key(
                                pairs,
                                "MAINPID"@,
                            ) == 1 && !(rec0.state is Starting) && (forall|q: int|
                                0 <= q < k2 ==> (#[trigger] pairs[q]).0 != "MAINPID"@)
                                && self.process_map.spec_pids()
                                == orig.process_map.spec_pids();
                            if relevant_ready || relevant_main {
                                assert(self.process_map.spec_pids()
                                    == orig.process_map.spec_pids());
                                assert(crate::process_map::assoc_entry(
                                    self.process_map.spec_pids(),
                                    pid,
                                    process_id,
                                ));
                                let pm = self.process_map;
                                let kc = choose|kc: int|
                                    0 <= kc < pm.spec_pids().len() && (
                                    #[trigger] pm.spec_pids()[kc]) == (pid, process_id);
                                assert(started_of(pm, process_id as int));
                                if relevant_ready {
                                    lemma_count_key_at(pairs, "READY"@, k2 as int);
                                    assert(!(self.proc(process_id as int).state is Starting));
                                }
                                assert(false);
                            }
                        }
                    }
                }
            } else {
                proof {
                    if pairs[k2 as int].0 == "MAINPID"@ {
                        lemma_count_key_at(pairs, "MAINPID"@, k2 as int);
                    }
                    if crate::process_map::assoc_entry(
                        orig.process_map.spec_pids(),
                        pid,
                        process_id,
                    ) {
                        let relevant_ready = pairs[k2 as int].0 == "READY"@
                            && pairs[k2 as int].1 == "1"@ && count_key(pairs, "MAINPID"@)
                            == 0;
                        let relevant_main = pairs[k2 as int].0 == "MAINPID"@ && count_key(
                            pairs,
                            "MAINPID"@,
                        ) == 1 && !(rec0.state is Starting) && (forall|q: int|
                            0 <= q < k2 ==> (#[trigger] pairs[q]).0 != "MAINPID"@)
                            && self.process_map.spec_pids()
                            == orig.process_map.spec_pids();
                        if relevant_ready || relevant_main {
                            assert(self.process_map.spec_pids()
                                == orig.process_map.spec_pids());
                            assert(crate::process_map::assoc_entry(
                                self.process_map.spec_pids(),
                                pid,
                                process_id,
                            ));
                            let pm = self.process_map;
                            let kc = choose|kc: int|
                                0 <= kc < pm.spec_pids().len() && (
                                #[trigger] pm.spec_pids()[kc]) == (pid, process_id);
                            assert(started_of(pm, process_id as int));
                            if relevant_ready {
                                lemma_count_key_at(pairs, "READY"@, k2 as int);
                                assert(!(self.proc(process_id as int).state is Starting));
                            }
                            assert(false);
                        }
                    }
                }
            }
            k2 += 1;
        }
        proof {
            assert(orig.process_map == old(self).process_map);
            assert forall|id: usize|
                id < orig.n() && #[trigger] crate::process_map::assoc_entry(
                    orig.process_map.spec_pids(),
                    sender_pid,
                    id,
                ) implies id == process_id by {
                let pids0 = orig.process_map.spec_pids();
                assert(crate::process_map::assoc_unique(pids0));
                assert(crate::process_map::assoc_entry(pids0, sender_pid, process_id));
                let ka = choose|ka: int|
                    0 <= ka < pids0.len() && (#[trigger] pids0[ka]) == (sender_pid, id);
                let kb = choose|kb: int|
                    0 <= kb < pids0.len() && (#[trigger] pids0[kb]) == (sender_pid, process_id);
                if ka != kb {
                    assert(pids0[ka].0 != pids0[kb].0);
                    assert(false);
                }
            }
            if crate::process_map::assoc_entry(orig.process_map.spec_pids(), pid, process_id) {
                if has_pair(pairs, "READY"@, "1"@) && count_key(pairs, "MAINPID"@) == 0
                    && count_key(pairs, "STOPPING"@) == 0 {
                    assert(self.proc(process_id as int).state == mid.proc(
                        process_id as int,
                    ).state);
                    assert(self.proc(process_id as int).state == (if rec0.state is Starting {
                        ProcessState::Running
                    } else {
                        rec0.state
                    }));
                }
                if count_key(pairs, "MAINPID"@) == 1 && !(rec0.state is Starting) {
                    match crate::text::parse_i32(first_value(pairs, "MAINPID"@)) {
                        Some(v) => {
                            if forall|q: int|
                                0 <= q < pairs.len() ==> (#[trigger] pairs[q]).0 != "MAINPID"@ {
                                lemma_count_key_pos(pairs, "MAINPID"@);
                                assert(false);
                            }
                            assert(crate::process_map::assoc_entry(
                                self.process_map.spec_pids(),
                                v,
                                process_id,
                            ));
                        },
                        None => {},
                    }
                }
            }
        }
    }
}

/// Ordering law: once a process has left its waiting state, everything
/// that had to run before it has finished, and each such predecessor is
/// done, crashed, or a notify process past its startup.
///
/// `i` is a predecessor of `j` here through the graph's successor lists;
/// chaining the law along a path extends it to the whole closure.
pub proof fn lemma_started_after_predecessors(s: Supervisor, i: int, k: int, j: int)
    requires
        s.wf(),
        0 <= j < s.n(),
        s.started(j),
        0 <= i < s.n(),
        0 <= k < s.dependency_manager.spec_after_self(i).len(),
        s.dependency_manager.spec_after_self(i)[k] == j,
    ensures
        s.dependency_manager.spec_finished(i),
        s.proc(i).state is Done || s.proc(i).state is Crashed || (s.proc(i).process_type is Notify
            && (s.proc(i).state is Running || s.proc(i).state is Stopping)),
{
    s.dependency_manager.lemma_runnable_preds_finished(j as int);
}

} // verus!
