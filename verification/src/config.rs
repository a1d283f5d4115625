//! The configuration for the analysis phase: per-process settings and
//! the merging of drop-in fragments.

use vstd::prelude::*;

use crate::text::str_eq;
use crate::text::str_lt;
use crate::text::str_lt_exec;
use crate::text::lemma_str_lt_total;
use crate::text::lemma_str_lt_transitive;

verus! {

/// Error occurring while merging process configurations.
#[derive(Debug, PartialEq, Eq, Clone)]
pub enum MergeError {
    /// A path is specified more than once for a program.
    PathSpecified(String),
    /// A field which is not allowed in a drop-in, with the program and
    /// field names.
    InvalidFieldSpecified(String, String),
    /// The drop-in was specified to be a cronjob.
    CronjobSpecified(String),
}

impl MergeError {
    /// Format the error for the user.
    pub fn message(&self) -> (r: String)
        ensures
            match self {
                MergeError::PathSpecified(s) => r@ == "Duplicate program found for name "@ + s@,
                MergeError::InvalidFieldSpecified(name, field) => r@
                    == "Configuration drop-in for "@ + name@ + " contains duplicate field "@
                    + field@,
                MergeError::CronjobSpecified(s) => r@ == "Configuration drop-in for "@ + s@
                    + " changes type to cronjob"@,
            },
    {
        match self {
            MergeError::PathSpecified(s) => {
                let mut out = String::from_str("Duplicate program found for name ");
                out.append(s.as_str());
                out
            },
            MergeError::InvalidFieldSpecified(name, field) => {
                let mut out = String::from_str("Configuration drop-in for ");
                out.append(name.as_str());
                out.append(" contains duplicate field ");
                out.append(field.as_str());
                out
            },
            MergeError::CronjobSpecified(s) => {
                let mut out = String::from_str("Configuration drop-in for ");
                out.append(s.as_str());
                out.append(" changes type to cronjob");
                out
            },
        }
    }
}

/// The type of a configured process.
#[derive(Debug, PartialEq, Eq, Clone)]
pub enum ProcessType {
    /// Default process type, running once.
    Oneshot,
    /// Process type running once and notifying the supervisor of events.
    Notify,
    /// Cronjob; the contained string is the cron expression.
    CronJob { timer: String },
}

/// A cron expression as it stands in the configuration.
#[derive(Debug, PartialEq, Eq, Clone)]
pub struct CronJob {
    pub timer: String,
}

/// One environment layer: variable names with optional values, in file
/// order. An absent value means the variable is forwarded from the
/// supervisor's own environment.
pub type EnvLayer = Vec<(String, Option<String>)>;

/// (Partial) configuration of a single process.
#[derive(Debug, Clone, PartialEq, Eq)]
pub struct ProcessConfig {
    pub name: String,
    pub path: Option<String>,
    pub args: Vec<String>,
    pub workdir: Option<String>,
    pub process_type: ProcessType,
    pub uid: Option<u32>,
    pub gid: Option<u32>,
    pub user: Option<String>,
    pub group: Option<String>,
    pub before: Vec<String>,
    pub after: Vec<String>,
    pub emulate_pty: bool,
    pub capabilities: Vec<String>,
    pub env: Vec<EnvLayer>,
}

/// A list of strings in strictly ascending code-point order.
pub open spec fn sorted_strings(s: Seq<String>) -> bool {
    forall|i: int, j: int| 0 <= i < j < s.len() ==> str_lt(#[trigger] s[i]@, #[trigger] s[j]@)
}

/// The set of string values a list holds.
pub open spec fn views_of(s: Seq<String>) -> Set<Seq<char>> {
    Set::new(|v: Seq<char>| exists|i: int| 0 <= i < s.len() && #[trigger] s[i]@ == v)
}

/// Insert a string into an ascending list, keeping it ascending; a value
/// already present is left alone.
fn insert_string_sorted(vec: &mut Vec<String>, v: String)
    requires
        sorted_strings(old(vec)@),
    ensures
        sorted_strings(final(vec)@),
        views_of(final(vec)@) =~= views_of(old(vec)@).insert(v@),
{
    let mut idx: usize = 0;
    while idx < vec.len() && str_lt_exec(vec[idx].as_str(), v.as_str())
        invariant
            0 <= idx <= vec@.len(),
            sorted_strings(vec@),
            forall|j: int| 0 <= j < idx ==> str_lt(#[trigger] vec@[j]@, v@),
        decreases vec@.len() - idx,
    {
        idx += 1;
    }
    if idx < vec.len() && str_eq(vec[idx].as_str(), v.as_str()) {
        proof {
            assert(vec@[idx as int]@ == v@);
            assert(views_of(vec@).contains(v@));
            assert(views_of(vec@) =~= views_of(vec@).insert(v@));
        }
        return ;
    }
    let ghost old_view = vec@;
    proof {
        if idx < vec@.len() {
            lemma_str_lt_total(vec@[idx as int]@, v@);
        }
    }
    vec.insert(idx, v);
    proof {
        assert(vec@ =~= old_view.subrange(0, idx as int) + seq![v] + old_view.subrange(
            idx as int,
            old_view.len() as int,
        ));
        assert forall|i: int, j: int| 0 <= i < j < vec@.len() implies str_lt(
            #[trigger] vec@[i]@,
            #[trigger] vec@[j]@,
        ) by {
            if i < idx && j < idx {
            } else if i < idx && j == idx {
            } else if i < idx && j > idx {
                assert(vec@[j] == old_view[j - 1]);
            } else if i == idx {
                assert(vec@[j] == old_view[j - 1]);
                if j - 1 > idx {
                    assert(str_lt(old_view[idx as int]@, old_view[j - 1]@));
                    lemma_str_lt_transitive(v@, old_view[idx as int]@, old_view[j - 1]@);
                }
            } else {
                assert(vec@[i] == old_view[i - 1]);
                assert(vec@[j] == old_view[j - 1]);
            }
        }
        assert forall|x: Seq<char>|
            views_of(vec@).contains(x) <==> views_of(old_view).insert(v@).contains(x) by {
            if views_of(vec@).contains(x) {
                let i = choose|i: int| 0 <= i < vec@.len() && vec@[i]@ == x;
                if i < idx {
                    assert(old_view[i]@ == x);
                } else if i == idx {
                } else {
                    assert(old_view[i - 1]@ == x);
                }
            }
            if views_of(old_view).contains(x) {
                let i = choose|i: int| 0 <= i < old_view.len() && old_view[i]@ == x;
                if i < idx {
                    assert(vec@[i]@ == x);
                } else {
                    assert(vec@[i + 1]@ == x);
                }
            }
            if x == v@ {
                assert(vec@[idx as int]@ == x);
            }
        }
        assert(views_of(vec@) =~= views_of(old_view).insert(v@));
    }
}

/// Sort a list of strings and drop duplicate values.
fn prune_duplicates(list: &mut Vec<String>)
    ensures
        sorted_strings(final(list)@),
        views_of(final(list)@) =~= views_of(old(list)@),
{
    let mut out: Vec<String> = Vec::new();
    let mut i: usize = 0;
    proof {
        assert(views_of(out@) =~= views_of(old(list)@.subrange(0, 0)));
    }
    while i < list.len()
        invariant
            0 <= i <= list@.len(),
            list@ == old(list)@,
            sorted_strings(out@),
            views_of(out@) == views_of(list@.subrange(0, i as int)),
        decreases list@.len() - i,
    {
        let v = list[i].clone();
        proof {
            assert(v@ == list@[i as int]@);
        }
        insert_string_sorted(&mut out, v);
        proof {
            let prefix = list@.subrange(0, i as int);
            let prefix1 = list@.subrange(0, i + 1);
            assert forall|x: Seq<char>|
                views_of(prefix1).contains(x) <==> views_of(prefix).insert(
                    list@[i as int]@,
                ).contains(x) by {
                if views_of(prefix1).contains(x) {
                    let j = choose|j: int| 0 <= j < prefix1.len() && prefix1[j]@ == x;
                    if j < i {
                        assert(prefix[j]@ == x);
                    } else {
                        assert(prefix1[i as int]@ == x);
                    }
                }
                if views_of(prefix).contains(x) {
                    let j = choose|j: int| 0 <= j < prefix.len() && prefix[j]@ == x;
                    assert(prefix1[j]@ == x);
                }
                if x == list@[i as int]@ {
                    assert(prefix1[i as int]@ == x);
                }
            }
            assert(views_of(prefix1) =~= views_of(prefix).insert(list@[i as int]@));
        }
        i += 1;
    }
    proof {
        assert(list@.subrange(0, list@.len() as int) =~= list@);
    }
    *list = out;
}

/// Whether the type is the cronjob variant.
pub open spec fn is_cronjob_type(t: ProcessType) -> bool {
    t matches ProcessType::CronJob { .. }
}

/// Pick the primary configuration (the one carrying `path`, if any) and
/// the drop-in.
pub open spec fn merge_roles(a: ProcessConfig, b: ProcessConfig) -> (ProcessConfig, ProcessConfig) {
    if a.path is None {
        (b, a)
    } else {
        (a, b)
    }
}

/// The optional field the merged configuration carries: the primary's,
/// or the drop-in's where the primary has none.
pub open spec fn merged_opt<T>(p: Option<T>, d: Option<T>) -> Option<T> {
    if p is Some {
        p
    } else {
        d
    }
}

impl ProcessConfig {
    /// Merge a drop-in configuration into this one.
    ///
    /// The configuration carrying `path` is the primary one; list fields
    /// concatenate, primary first, and the reference and capability lists
    /// are sorted with duplicates dropped; scalar fields may come from
    /// only one of the two.
    pub fn merge(self, other: Self) -> (r: Result<Self, MergeError>)
        requires
            self.name@ == other.name@,
        ensures
            ({
                let (primary, dropin) = merge_roles(self, other);
                match r {
                    Err(e) => {
                        ||| (e matches MergeError::PathSpecified(n) && self.path is Some
                            && other.path is Some && n@ == primary.name@)
                        ||| (e matches MergeError::InvalidFieldSpecified(n, f) && !(self.path
                            is Some && other.path is Some) && n@ == primary.name@ && (
                        (f@ == "workdir"@ && primary.workdir is Some && dropin.workdir is Some)
                            || (f@ == "uid"@ && !(primary.workdir is Some && dropin.workdir
                            is Some) && primary.uid is Some && dropin.uid is Some) || (f@ == "gid"@
                            && !(primary.workdir is Some && dropin.workdir is Some) && !(primary.uid
                            is Some && dropin.uid is Some) && primary.gid is Some && dropin.gid
                            is Some) || (f@ == "user"@ && !(primary.workdir is Some
                            && dropin.workdir is Some) && !(primary.uid is Some && dropin.uid
                            is Some) && !(primary.gid is Some && dropin.gid is Some) && primary.user
                            is Some && dropin.user is Some) || (f@ == "group"@ && !(primary.workdir
                            is Some && dropin.workdir is Some) && !(primary.uid is Some
                            && dropin.uid is Some) && !(primary.gid is Some && dropin.gid is Some)
                            && !(primary.user is Some && dropin.user is Some) && primary.group
                            is Some && dropin.group is Some)))
                        ||| (e matches MergeError::CronjobSpecified(n) && !(self.path is Some
                            && other.path is Some) && !(primary.workdir is Some && dropin.workdir
                            is Some) && !(primary.uid is Some && dropin.uid is Some) && !(
                        primary.gid is Some && dropin.gid is Some) && !(primary.user is Some
                            && dropin.user is Some) && !(primary.group is Some && dropin.group
                            is Some) && is_cronjob_type(dropin.process_type)
                            && n@ == primary.name@)
                    },
                    Ok(m) => {
                        &&& !(self.path is Some && other.path is Some)
                        &&& !(primary.workdir is Some && dropin.workdir is Some)
                        &&& !(primary.uid is Some && dropin.uid is Some)
                        &&& !(primary.gid is Some && dropin.gid is Some)
                        &&& !(primary.user is Some && dropin.user is Some)
                        &&& !(primary.group is Some && dropin.group is Some)
                        &&& !is_cronjob_type(dropin.process_type)
                        &&& m.name == primary.name
                        &&& m.path == primary.path
                        &&& m.process_type == primary.process_type
                        &&& m.args@ == primary.args@ + dropin.args@
                        &&& m.env@ == primary.env@ + dropin.env@
                        &&& m.emulate_pty == (primary.emulate_pty || dropin.emulate_pty)
                        &&& m.workdir == merged_opt(primary.workdir, dropin.workdir)
                        &&& m.uid == merged_opt(primary.uid, dropin.uid)
                        &&& m.gid == merged_opt(primary.gid, dropin.gid)
                        &&& m.user == merged_opt(primary.user, dropin.user)
                        &&& m.group == merged_opt(primary.group, dropin.group)
                        &&& sorted_strings(m.before@)
                        &&& views_of(m.before@) == views_of(primary.before@ + dropin.before@)
                        &&& sorted_strings(m.after@)
                        &&& views_of(m.after@) == views_of(primary.after@ + dropin.after@)
                        &&& sorted_strings(m.capabilities@)
                        &&& views_of(m.capabilities@) == views_of(
                            primary.capabilities@ + dropin.capabilities@,
                        )
                    },
                }
            }),
    {
        let both_paths = self.path.is_some() && other.path.is_some();
        let (mut primary, mut dropin) = if self.path.is_none() {
            (other, self)
        } else {
            (self, other)
        };
        if both_paths {
            return Err(MergeError::PathSpecified(primary.name));
        }
        if dropin.workdir.is_some() && primary.workdir.is_some() {
            return Err(
                MergeError::InvalidFieldSpecified(primary.name, String::from_str("workdir")),
            );
        }
        if dropin.uid.is_some() && primary.uid.is_some() {
            return Err(MergeError::InvalidFieldSpecified(primary.name, String::from_str("uid")));
        }
        if dropin.gid.is_some() && primary.gid.is_some() {
            return Err(MergeError::InvalidFieldSpecified(primary.name, String::from_str("gid")));
        }
        if dropin.user.is_some() && primary.user.is_some() {
            return Err(MergeError::InvalidFieldSpecified(primary.name, String::from_str("user")));
        }
        if dropin.group.is_some() && primary.group.is_some() {
            return Err(MergeError::InvalidFieldSpecified(primary.name, String::from_str("group")));
        }
        if matches!(dropin.process_type, ProcessType::CronJob { .. }) {
            return Err(MergeError::CronjobSpecified(primary.name));
        }
        let mut env = primary.env;
        let mut dropin_env = dropin.env;
        env.append(&mut dropin_env);
        let mut before = primary.before;
        let mut dropin_before = dropin.before;
        before.append(&mut dropin_before);
        let mut after = primary.after;
        let mut dropin_after = dropin.after;
        after.append(&mut dropin_after);
        let mut capabilities = primary.capabilities;
        let mut dropin_capabilities = dropin.capabilities;
        capabilities.append(&mut dropin_capabilities);
        let mut args = primary.args;
        let mut dropin_args = dropin.args;
        args.append(&mut dropin_args);
        prune_duplicates(&mut before);
        prune_duplicates(&mut after);
        prune_duplicates(&mut capabilities);
        Ok(
            ProcessConfig {
                name: primary.name,
                path: primary.path,
                args,
                workdir: if primary.workdir.is_some() {
                    primary.workdir
                } else {
                    dropin.workdir
                },
                process_type: primary.process_type,
                uid: if primary.uid.is_some() {
                    primary.uid
                } else {
                    dropin.uid
                },
                gid: if primary.gid.is_some() {
                    primary.gid
                } else {
                    dropin.gid
                },
                user: if primary.user.is_some() {
                    primary.user
                } else {
                    dropin.user
                },
                group: if primary.group.is_some() {
                    primary.group
                } else {
                    dropin.group
                },
                before,
                after,
                emulate_pty: primary.emulate_pty || dropin.emulate_pty,
                capabilities,
                env,
            },
        )
    }
}

/// Top-level configuration: all programs that are known.
#[derive(Debug, Default)]
pub struct Config {
    pub programs: Vec<ProcessConfig>,
}

impl Config {
    /// An empty configuration.
    pub fn new() -> (r: Config)
        ensures
            r.programs@.len() == 0,
    {
        Config { programs: Vec::new() }
    }

    /// Merge two configurations into one, keeping the order.
    pub fn merge(self, other: Self) -> (r: Self)
        ensures
            r.programs@ == self.programs@ + other.programs@,
    {
        let mut programs = self.programs;
        let mut incoming = other.programs;
        programs.append(&mut incoming);
        Config { programs }
    }
}

/// No two programs share a name.
pub open spec fn unique_names(programs: Seq<ProcessConfig>) -> bool {
    forall|i: int, j: int|
        0 <= i < j < programs.len() ==> #[trigger] programs[i].name@ != #[trigger] programs[j].name@
}

/// Duplicate a program entry; the copy answers to the same name.
fn clone_program(p: &ProcessConfig) -> (r: ProcessConfig)
    ensures
        r.name@ == p.name@,
{
    let mut r = p.clone();
    r.name = p.name.clone();
    r
}

/// Find the program with the given name.
fn find_program(programs: &Vec<ProcessConfig>, name: &str) -> (r: Option<usize>)
    ensures
        match r {
            Some(i) => i < programs@.len() && programs@[i as int].name@ == name@,
            None => forall|i: int| 0 <= i < programs@.len() ==> programs@[i].name@ != name@,
        },
{
    let n = programs.len();
    let mut i: usize = 0;
    while i < n
        invariant
            n == programs@.len(),
            0 <= i <= n,
            forall|j: int| 0 <= j < i ==> programs@[j].name@ != name@,
        decreases n - i,
    {
        if str_eq(programs[i].name.as_str(), name) {
            return Some(i);
        }
        i += 1;
    }
    None
}

/// Merge configurations of the same program into a single one.
///
/// Programs are the same when they share a name. The first occurrence
/// keeps its place; later ones are folded into it. A failed merge is
/// reported as the configuration exit code.
#[verifier::rlimit(100)]
#[verifier::spinoff_prover]
pub fn merge_dropins(config: Config) -> (r: Result<Config, i32>)
    ensures
        match r {
            Ok(c) => {
                &&& unique_names(c.programs@)
                &&& forall|i: int|
                    0 <= i < config.programs@.len() ==> exists|j: int|
                        0 <= j < c.programs@.len() && (#[trigger] c.programs@[j]).name@ == (
                        #[trigger] config.programs@[i]).name@
            },
            Err(code) => code == 1,
        },
{
    let mut done: Vec<ProcessConfig> = Vec::new();
    let rest = config.programs;
    let n = rest.len();
    let mut i: usize = 0;
    while i < n
        invariant
            n == rest@.len(),
            0 <= i <= n,
            unique_names(done@),
            forall|idx: int|
                0 <= idx < i ==> exists|j: int|
                    0 <= j < done@.len() && (#[trigger] done@[j]).name@ == (
                    #[trigger] rest@[idx]).name@,
        decreases n - i,
    {
        let ghost pre_done = done@;
        let incoming = clone_program(&rest[i]);
        match find_program(&done, incoming.name.as_str()) {
            Some(at) => {
                let ghost pre = done@;
                let existing = done.remove(at);
                let merged = match existing.merge(incoming) {
                    Ok(m) => m,
                    Err(_) => {
                        return Err(1);
                    },
                };
                proof {
                    let (primary, dropin) = merge_roles(existing, incoming);
                    assert(merged.name@ == pre[at as int].name@);
                }
                done.insert(at, merged);
                proof {
                    assert forall|x: int| 0 <= x < done@.len() implies #[trigger] done@[x].name@
                        == pre[x].name@ by {
                        if x < at {
                            assert(done@[x] == pre[x]);
                        } else if x == at {
                        } else {
                            assert(done@[x] == pre.remove(at as int)[x - 1]);
                            assert(pre.remove(at as int)[x - 1] == pre[x]);
                        }
                    }
                    assert forall|p: int, q: int|
                        0 <= p < q < done@.len() implies #[trigger] done@[p].name@
                        != #[trigger] done@[q].name@ by {
                        assert(done@[p].name@ == pre[p].name@);
                        assert(done@[q].name@ == pre[q].name@);
                    }
                    assert forall|idx: int|
                        0 <= idx < i + 1 implies exists|j: int|
                        0 <= j < done@.len() && (#[trigger] done@[j]).name@ == (
                        #[trigger] rest@[idx]).name@ by {
                        if idx < i {
                            let j0 = choose|j0: int|
                                0 <= j0 < pre.len() && (#[trigger] pre[j0]).name@
                                    == rest@[idx].name@;
                            assert(done@[j0].name@ == pre[j0].name@);
                        } else {
                            assert(done@[at as int].name@ == rest@[idx].name@);
                        }
                    }
                }
            },
            None => {
                let ghost pre = done@;
                let ghost inc_name = incoming.name@;
                proof {
                    assert(forall|x: int|
                        0 <= x < done@.len() ==> (#[trigger] done@[x]).name@ != inc_name);
                }
                done.push(incoming);
                proof {
                    assert(done@[done@.len() - 1].name@ == inc_name);
                    assert forall|p: int, q: int|
                        0 <= p < q < done@.len() implies #[trigger] done@[p].name@
                        != #[trigger] done@[q].name@ by {
                        if q == done@.len() - 1 {
                            assert(done@[p] == pre[p]);
                            assert(done@[p].name@ == pre[p].name@);
                            assert(done@[q].name@ == inc_name);
                            assert(pre[p].name@ != inc_name);
                        } else {
                            assert(done@[p] == pre[p] && done@[q] == pre[q]);
                            assert(done@[p].name@ == pre[p].name@);
                            assert(done@[q].name@ == pre[q].name@);
                            assert(pre[p].name@ != pre[q].name@);
                        }
                    }
                    assert forall|idx: int|
                        0 <= idx < i + 1 implies exists|j: int|
                        0 <= j < done@.len() && (#[trigger] done@[j]).name@ == (
                        #[trigger] rest@[idx]).name@ by {
                        if idx < i {
                            let j0 = choose|j0: int|
                                0 <= j0 < pre.len() && (#[trigger] pre[j0]).name@
                                    == rest@[idx].name@;
                            assert(done@[j0].name@ == pre[j0].name@);
                        } else {
                            assert(done@[done@.len() - 1].name@ == rest@[idx].name@);
                        }
                    }
                }
            },
        }
        i += 1;
    }
    Ok(Config { programs: done })
}

impl ProcessConfig {
    /// A oneshot configuration with the given name and ordering lists;
    /// everything else takes its plain default.
    pub fn new(name: &str, before: Vec<&str>, after: Vec<&str>) -> (r: ProcessConfig)
        ensures
            r.name@ == name@,
            r.path matches Some(p) && p@ == Seq::<char>::empty(),
            r.before@.len() == before@.len(),
            forall|k: int| 0 <= k < before@.len() ==> (#[trigger] r.before@[k])@ == before@[k]@,
            r.after@.len() == after@.len(),
            forall|k: int| 0 <= k < after@.len() ==> (#[trigger] r.after@[k])@ == after@[k]@,
            r.process_type == ProcessType::Oneshot,
            r.args@.len() == 0,
            r.workdir is None,
            r.uid is None,
            r.gid is None,
            r.user is None,
            r.group is None,
            !r.emulate_pty,
            r.capabilities@.len() == 0,
            r.env@.len() == 0,
    {
        let mut before_owned: Vec<String> = Vec::new();
        let mut k: usize = 0;
        while k < before.len()
            invariant
                0 <= k <= before@.len(),
                before_owned@.len() == k,
                forall|b: int|
                    0 <= b < k ==> (#[trigger] before_owned@[b])@ == before@[b]@,
            decreases before@.len() - k,
        {
            before_owned.push(before[k].to_owned());
            k += 1;
        }
        let mut after_owned: Vec<String> = Vec::new();
        let mut k2: usize = 0;
        while k2 < after.len()
            invariant
                0 <= k2 <= after@.len(),
                after_owned@.len() == k2,
                forall|b: int| 0 <= b < k2 ==> (#[trigger] after_owned@[b])@ == after@[b]@,
            decreases after@.len() - k2,
        {
            after_owned.push(after[k2].to_owned());
            k2 += 1;
        }
        ProcessConfig {
            name: name.to_owned(),
            path: Some(String::new()),
            args: Vec::new(),
            workdir: None,
            process_type: ProcessType::Oneshot,
            uid: None,
            gid: None,
            user: None,
            group: None,
            before: before_owned,
            after: after_owned,
            emulate_pty: false,
            capabilities: Vec::new(),
            env: Vec::new(),
        }
    }
}

} // verus!
