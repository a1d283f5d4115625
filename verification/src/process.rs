//! Data and behaviour of a single supervised process.

use vstd::prelude::*;

use crate::text::parse_i32;
use crate::text::str_eq;

verus! {

/// Runtime process type.
///
/// Runtime pendant of the configuration process type, without the
/// configuration-only payload.
#[derive(Debug, PartialEq, Eq, Structural, Clone, Copy)]
pub enum ProcessType {
    Oneshot,
    Notify,
    Cronjob,
}

/// States a process can take on.
#[derive(Debug, PartialEq, Eq, Structural, Clone, Copy)]
pub enum ProcessState {
    /// The process cannot be started because of dependencies not having
    /// finished yet.
    Blocked,
    /// The process is a cronjob and waits for its timer to be triggered.
    Sleeping,
    /// The process is a notify, has been started and has not reported
    /// readiness yet.
    Starting,
    /// The process is running.
    Running,
    /// The process is a notify and has announced it is stopping.
    Stopping,
    /// The process has finished successfully.
    Done,
    /// The process has finished unsuccessfully, with the contained code.
    Crashed(i32),
}

impl ProcessState {
    /// The lower-case word naming this state in the status report.
    pub open spec fn spec_name(self) -> Seq<char> {
        match self {
            ProcessState::Blocked => "blocked"@,
            ProcessState::Sleeping => "sleeping"@,
            ProcessState::Starting => "starting"@,
            ProcessState::Running => "running"@,
            ProcessState::Stopping => "stopping"@,
            ProcessState::Done => "done"@,
            ProcessState::Crashed(_) => "crashed"@,
        }
    }

    /// Name the state for the user.
    pub fn name(&self) -> (r: &'static str)
        ensures
            r@ == self.spec_name(),
    {
        match self {
            ProcessState::Blocked => "blocked",
            ProcessState::Sleeping => "sleeping",
            ProcessState::Starting => "starting",
            ProcessState::Running => "running",
            ProcessState::Stopping => "stopping",
            ProcessState::Done => "done",
            ProcessState::Crashed(_) => "crashed",
        }
    }
}

/// Runtime information of a single process.
///
/// All cross-process relations are id-based; a record never refers to
/// another record.
#[derive(Debug, Clone)]
pub struct Process {
    pub name: String,
    pub path: String,
    /// The argument vector handed to the child; the first entry equals `path`.
    pub args: Vec<String>,
    pub workdir: String,
    pub uid: u32,
    pub gid: u32,
    pub emulate_pty: bool,
    pub capabilities: Vec<String>,
    /// Resolved environment, one `KEY=VALUE` entry per variable.
    pub env: Vec<String>,
    pub state: ProcessState,
    pub process_type: ProcessType,
    /// OS process id; zero until the process was spawned.
    pub pid: i32,
    /// Status text supplied by a notify process.
    pub status: String,
}

impl Process {
    /// A freshly built record is well formed: its first argument is its
    /// binary path and its state is the initial state of its type.
    pub open spec fn wf(self) -> bool {
        &&& self.args.len() >= 1
        &&& self.args[0]@ == self.path@
    }

    /// The state a record of the given type starts in.
    pub open spec fn initial_state(t: ProcessType) -> ProcessState {
        if t is Cronjob {
            ProcessState::Sleeping
        } else {
            ProcessState::Blocked
        }
    }

    /// The state a record enters when its child was just forked off.
    pub open spec fn spawned_state(t: ProcessType) -> ProcessState {
        if t is Notify {
            ProcessState::Starting
        } else {
            ProcessState::Running
        }
    }

    /// Record that the child process was forked off.
    ///
    /// A notify child first has to announce readiness, every other child
    /// counts as running right away.
    pub fn mark_spawned(&mut self, pid: i32)
        ensures
            final(self).state == Process::spawned_state(old(self).process_type),
            final(self).pid == pid,
            *final(self) == (Process {
                state: final(self).state,
                pid: final(self).pid,
                ..*old(self)
            }),
    {
        self.state = if self.process_type == ProcessType::Notify {
            ProcessState::Starting
        } else {
            ProcessState::Running
        };
        self.pid = pid;
    }

    /// Handle one key/value pair received over the notify socket.
    ///
    /// * `READY=1` moves a starting process to running and is ignored in
    ///   any other state.
    /// * `STOPPING=1` moves the process to stopping.
    /// * `STATUS=<text>` overwrites the status text.
    /// * `MAINPID=<integer>` replaces the recorded OS pid.
    /// * Anything else is ignored.
    pub fn handle_notification(&mut self, key: &str, value: &str)
        ensures
            key@ == "READY"@ && value@ == "1"@ && old(self).state is Starting ==> *final(self)
                == (Process { state: ProcessState::Running, ..*old(self) }),
            key@ == "READY"@ && !(value@ == "1"@ && old(self).state is Starting) ==> *final(self)
                == *old(self),
            key@ == "STOPPING"@ && value@ == "1"@ ==> *final(self) == (Process {
                state: ProcessState::Stopping,
                ..*old(self)
            }),
            key@ == "STOPPING"@ && value@ != "1"@ ==> *final(self) == *old(self),
            key@ == "STATUS"@ ==> *final(self) == (Process {
                status: final(self).status,
                ..*old(self)
            }) && final(self).status@ == value@,
            key@ == "MAINPID"@ ==> *final(self) == (Process {
                pid: final(self).pid,
                ..*old(self)
            }) && final(self).pid == match parse_i32(value@) {
                Some(p) => p,
                None => old(self).pid,
            },
            key@ != "READY"@ && key@ != "STOPPING"@ && key@ != "STATUS"@ && key@ != "MAINPID"@
                ==> *final(self) == *old(self),
    {
        proof {
            reveal_strlit("READY");
            reveal_strlit("STOPPING");
            reveal_strlit("STATUS");
            reveal_strlit("MAINPID");
            assert("READY"@.len() == 5);
            assert("STOPPING"@.len() == 8);
            assert("STATUS"@.len() == 6);
            assert("MAINPID"@.len() == 7);
        }
        if str_eq(key, "READY") {
            if str_eq(value, "1") && self.state == ProcessState::Starting {
                self.state = ProcessState::Running;
            }
        } else if str_eq(key, "STOPPING") {
            if str_eq(value, "1") {
                self.state = ProcessState::Stopping;
            }
        } else if str_eq(key, "STATUS") {
            self.status = value.to_owned();
        } else if str_eq(key, "MAINPID") {
            match crate::text::parse_i32_exec(value) {
                Some(p) => {
                    self.pid = p;
                },
                None => {},
            }
        }
    }
}

} // verus!
