//! Transform a process configuration into a runnable process record.
//!
//! User and group names are resolved to numeric ids, the environment is
//! assembled layer by layer with templates rendered against it, and the
//! record starts in the state its type prescribes.

use vstd::prelude::*;

use crate::config::EnvLayer;
use crate::config::ProcessConfig;
use crate::config::ProcessType;
use crate::config::is_cronjob_type;
use crate::process::Process;
use crate::process::ProcessState;
use crate::template::render_template;
use crate::text::str_eq;

verus! {

/// Path of the notify socket for children.
pub const NOTIFY_SOCKET_PATH: &'static str = "/run/cinit-notify.socket";

/// Errors occurring during analysis.
#[derive(Debug, PartialEq, Eq, Clone, Copy)]
pub enum Error {
    /// A cronjob with a dependency.
    CronjobDependency,
    /// User or group could not be resolved.
    UserGroupInvalid,
    /// The process has no binary path.
    PathMissing,
}

impl Error {
    /// Format the error for the user.
    pub fn message(&self) -> (r: String)
        ensures
            match self {
                Error::CronjobDependency => r@ == "Cronjobs may not have dependencies"@,
                Error::UserGroupInvalid => r@ == "User/Group config invalid"@,
                Error::PathMissing => r@ == "Missing 'path' attribute"@,
            },
    {
        match self {
            Error::CronjobDependency => String::from_str("Cronjobs may not have dependencies"),
            Error::UserGroupInvalid => String::from_str("User/Group config invalid"),
            Error::PathMissing => String::from_str("Missing 'path' attribute"),
        }
    }
}

/// A user database entry reduced to what the analysis reads.
pub struct UserInfo {
    pub uid: u32,
    pub name: String,
    pub home: String,
}

/// A group database entry reduced to what the analysis reads.
pub struct GroupInfo {
    pub gid: u32,
    pub name: String,
}

/// Relies on nix's `User::from_uid`: the host's user database entry for
/// the given uid, whose uid field is the one looked up.
#[verifier::external_body]
fn lookup_user_by_uid(uid: u32) -> (r: Option<UserInfo>)
    ensures
        r matches Some(u) ==> u.uid == uid,
{
    match nix::unistd::User::from_uid(nix::unistd::Uid::from_raw(uid)) {
        Ok(Some(u)) => Some(
            UserInfo {
                uid: u.uid.as_raw(),
                name: u.name,
                home: u.dir.to_string_lossy().to_string(),
            },
        ),
        _ => None,
    }
}

/// Relies on nix's `User::from_name`: the host's user database entry for
/// the given name, whose name field is the one looked up.
#[verifier::external_body]
fn lookup_user_by_name(name: &str) -> (r: Option<UserInfo>)
    ensures
        r matches Some(u) ==> u.name@ == name@,
{
    match nix::unistd::User::from_name(name) {
        Ok(Some(u)) => Some(
            UserInfo {
                uid: u.uid.as_raw(),
                name: u.name,
                home: u.dir.to_string_lossy().to_string(),
            },
        ),
        _ => None,
    }
}

/// Relies on nix's `Group::from_gid`: the host's group database entry
/// for the given gid, whose gid field is the one looked up.
#[verifier::external_body]
fn lookup_group_by_gid(gid: u32) -> (r: Option<GroupInfo>)
    ensures
        r matches Some(g) ==> g.gid == gid,
{
    match nix::unistd::Group::from_gid(nix::unistd::Gid::from_raw(gid)) {
        Ok(Some(g)) => Some(GroupInfo { gid: g.gid.as_raw(), name: g.name }),
        _ => None,
    }
}

/// Relies on nix's `Group::from_name`: the host's group database entry
/// for the given name, whose name field is the one looked up.
#[verifier::external_body]
fn lookup_group_by_name(name: &str) -> (r: Option<GroupInfo>)
    ensures
        r matches Some(g) ==> g.name@ == name@,
{
    match nix::unistd::Group::from_name(name) {
        Ok(Some(g)) => Some(GroupInfo { gid: g.gid.as_raw(), name: g.name }),
        _ => None,
    }
}

/// Pick the rendered value, falling back to the raw value when the
/// template failed to render.
pub fn treat_template_error_in_argument(raw_value: &str, render_result: Result<
    String,
    String,
>) -> (r: String)
    ensures
        match render_result {
            Ok(v) => r == v,
            Err(_) => r@ == raw_value@,
        },
{
    match render_result {
        Ok(value) => value,
        Err(_) => raw_value.to_owned(),
    }
}

/// Whether `c` occurs in `s`.
pub open spec fn contains_char(s: Seq<char>, c: char) -> bool {
    exists|i: int| 0 <= i < s.len() && s[i] == c
}

/// Check if the string contains `{` or `}`: a value that still looks
/// like a template after rendering was most likely mis-written.
pub fn looks_like_tera_template(value: &str) -> (r: bool)
    ensures
        r == (contains_char(value@, '{') || contains_char(value@, '}')),
{
    let n = value.unicode_len();
    let mut i: usize = 0;
    while i < n
        invariant
            0 <= i <= n,
            n == value@.len(),
            forall|j: int| 0 <= j < i ==> value@[j] != '{' && value@[j] != '}',
        decreases n - i,
    {
        let c = value.get_char(i);
        if c == '{' || c == '}' {
            return true;
        }
        i += 1;
    }
    false
}

/// Whether the environment lists the key.
pub open spec fn env_has(env: Seq<(String, String)>, key: Seq<char>) -> bool {
    exists|k: int| 0 <= k < env.len() && (#[trigger] env[k]).0@ == key
}

/// Whether the environment maps the key to the value.
pub open spec fn env_maps(env: Seq<(String, String)>, key: Seq<char>, value: Seq<char>) -> bool {
    exists|k: int|
        0 <= k < env.len() && (#[trigger] env[k]).0@ == key && env[k].1@ == value
}

/// Environment keys are unique.
pub open spec fn env_unique(env: Seq<(String, String)>) -> bool {
    forall|k1: int, k2: int|
        0 <= k1 < k2 < env.len() ==> (#[trigger] env[k1]).0@ != (#[trigger] env[k2]).0@
}

/// The value of the first entry carrying the key, scanning from `k`.
pub open spec fn env_lookup_from(env: Seq<(String, String)>, key: Seq<char>, k: int) -> Option<
    Seq<char>,
>
    decreases env.len() - k,
{
    if k < 0 || k >= env.len() {
        None
    } else if env[k].0@ == key {
        Some(env[k].1@)
    } else {
        env_lookup_from(env, key, k + 1)
    }
}

/// The value the environment gives the key, if any.
pub open spec fn spec_env_lookup(env: Seq<(String, String)>, key: Seq<char>) -> Option<Seq<char>> {
    env_lookup_from(env, key, 0)
}

/// Replacing the value at one position, key kept, leaves every other
/// key's lookup alone.
proof fn lemma_lookup_update(
    o: Seq<(String, String)>,
    n: Seq<(String, String)>,
    at: int,
    x: Seq<char>,
    s: int,
)
    requires
        o.len() == n.len(),
        0 <= at < o.len(),
        forall|j: int| 0 <= j < o.len() && j != at ==> o[j] == n[j],
        n[at].0@ == o[at].0@,
        x != n[at].0@,
        0 <= s,
    ensures
        env_lookup_from(n, x, s) == env_lookup_from(o, x, s),
    decreases o.len() - s,
{
    if s < o.len() {
        lemma_lookup_update(o, n, at, x, s + 1);
    }
}

/// Scanning past positions without the key finds the entry at `at`.
proof fn lemma_lookup_hits(env: Seq<(String, String)>, key: Seq<char>, at: int, s: int)
    requires
        0 <= s <= at < env.len(),
        forall|j: int| s <= j < at ==> (#[trigger] env[j]).0@ != key,
        env[at].0@ == key,
    ensures
        env_lookup_from(env, key, s) == Some(env[at].1@),
    decreases at - s,
{
    if s < at {
        lemma_lookup_hits(env, key, at, s + 1);
    }
}

/// Appending an entry leaves every earlier lookup alone until the scan
/// falls off the old end.
proof fn lemma_lookup_push(
    o: Seq<(String, String)>,
    n: Seq<(String, String)>,
    x: Seq<char>,
    s: int,
)
    requires
        n.len() == o.len() + 1,
        forall|j: int| 0 <= j < o.len() ==> o[j] == n[j],
        x != n[o.len() as int].0@,
        0 <= s,
    ensures
        env_lookup_from(n, x, s) == env_lookup_from(o, x, s),
    decreases n.len() - s,
{
    if s < n.len() {
        lemma_lookup_push(o, n, x, s + 1);
    }
}

/// Insert or replace a variable, keeping keys unique.
#[verifier::loop_isolation(false)]
fn env_put(env: &mut Vec<(String, String)>, key: String, value: String)
    requires
        env_unique(old(env)@),
    ensures
        env_unique(final(env)@),
        forall|x: Seq<char>| env_has(final(env)@, x) <==> (env_has(old(env)@, x) || x == key@),
        env_maps(final(env)@, key@, value@),
        spec_env_lookup(final(env)@, key@) == Some(value@),
        forall|x: Seq<char>|
            x != key@ ==> #[trigger] spec_env_lookup(final(env)@, x) == spec_env_lookup(
                old(env)@,
                x,
            ),
        forall|k: int|
            0 <= k < old(env)@.len() && (#[trigger] old(env)@[k]).0@ != key@
                ==> final(env)@.contains(old(env)@[k]),
{
    let n = env.len();
    let mut k: usize = 0;
    while k < n
        invariant
            0 <= k <= n,
            n == env@.len(),
            env@ == old(env)@,
            forall|b: int| 0 <= b < k ==> (#[trigger] env@[b]).0@ != key@,
        decreases n - k,
    {
        if str_eq(env[k].0.as_str(), key.as_str()) {
            let ghost pre = env@;
            env.set(k, (key, value));
            proof {
                assert(env@[k as int].0@ == pre[k as int].0@);
                assert forall|x: Seq<char>|
                    env_has(env@, x) <==> (env_has(pre, x) || x == env@[k as int].0@) by {
                    if env_has(env@, x) {
                        let b = choose|b: int| 0 <= b < env@.len() && (#[trigger] env@[b]).0@ == x;
                        if b != k {
                            assert(pre[b].0@ == x);
                        }
                    }
                    if env_has(pre, x) {
                        let b = choose|b: int| 0 <= b < pre.len() && (#[trigger] pre[b]).0@ == x;
                        if b != k {
                            assert(env@[b].0@ == x);
                        }
                    }
                }
                assert(env_maps(env@, env@[k as int].0@, env@[k as int].1@));
                assert forall|k1: int, k2: int|
                    0 <= k1 < k2 < env@.len() implies (#[trigger] env@[k1]).0@ != (
                #[trigger] env@[k2]).0@ by {
                    assert(pre[k1].0@ != pre[k2].0@);
                    if k1 != k {
                        assert(env@[k1] == pre[k1]);
                    }
                    if k2 != k {
                        assert(env@[k2] == pre[k2]);
                    }
                }
                assert forall|b: int|
                    0 <= b < pre.len() && (#[trigger] pre[b]).0@ != env@[k as int].0@ implies env@.contains(
                    pre[b],
                ) by {
                    assert(env@[b] == pre[b]);
                }
                lemma_lookup_hits(env@, env@[k as int].0@, k as int, 0);
                assert forall|x: Seq<char>|
                    x != env@[k as int].0@ implies #[trigger] spec_env_lookup(env@, x)
                    == spec_env_lookup(pre, x) by {
                    lemma_lookup_update(pre, env@, k as int, x, 0);
                }
            }
            return ;
        }
        k += 1;
    }
    let ghost pre = env@;
    env.push((key, value));
    proof {
        assert(env@[env@.len() - 1].0@ == key@);
        assert forall|x: Seq<char>|
            env_has(env@, x) <==> (env_has(pre, x) || x == key@) by {
            if env_has(env@, x) {
                let b = choose|b: int| 0 <= b < env@.len() && (#[trigger] env@[b]).0@ == x;
                if b < pre.len() {
                    assert(pre[b].0@ == x);
                }
            }
            if env_has(pre, x) {
                let b = choose|b: int| 0 <= b < pre.len() && (#[trigger] pre[b]).0@ == x;
                assert(env@[b].0@ == x);
            }
        }
        assert(env_maps(env@, key@, value@));
        assert forall|k1: int, k2: int|
            0 <= k1 < k2 < env@.len() implies (#[trigger] env@[k1]).0@ != (
        #[trigger] env@[k2]).0@ by {
            if k2 < env@.len() - 1 {
                assert(env@[k1] == pre[k1] && env@[k2] == pre[k2]);
            } else {
                assert(env@[k1] == pre[k1]);
            }
        }
        assert forall|b: int|
            0 <= b < pre.len() && (#[trigger] pre[b]).0@ != key@ implies env@.contains(pre[b]) by {
            assert(env@[b] == pre[b]);
        }
        lemma_lookup_hits(env@, key@, pre.len() as int, 0);
        assert forall|x: Seq<char>|
            x != key@ implies #[trigger] spec_env_lookup(env@, x) == spec_env_lookup(pre, x) by {
            lemma_lookup_push(pre, env@, x, 0);
        }
    }
}

/// Look a variable up: the first entry carrying the key decides.
fn env_get(env: &Vec<(String, String)>, key: &str) -> (r: Option<String>)
    ensures
        match r {
            Some(v) => spec_env_lookup(env@, key@) == Some(v@) && env_maps(env@, key@, v@),
            None => spec_env_lookup(env@, key@) is None && !env_has(env@, key@),
        },
{
    let n = env.len();
    let mut k: usize = 0;
    while k < n
        invariant
            0 <= k <= n,
            n == env@.len(),
            forall|b: int| 0 <= b < k ==> (#[trigger] env@[b]).0@ != key@,
        decreases n - k,
    {
        if str_eq(env[k].0.as_str(), key) {
            let v = env[k].1.clone();
            proof {
                assert(env@[k as int].1@ == v@);
                lemma_lookup_hits(env@, key@, k as int, 0);
            }
            return Some(v);
        }
        k += 1;
    }
    proof {
        lemma_lookup_misses(env@, key@, 0);
    }
    None
}

/// A key no entry carries is never found.
proof fn lemma_lookup_misses(env: Seq<(String, String)>, key: Seq<char>, s: int)
    requires
        forall|j: int| 0 <= j < env.len() ==> (#[trigger] env[j]).0@ != key,
        0 <= s,
    ensures
        env_lookup_from(env, key, s) is None,
    decreases env.len() - s,
{
    if s < env.len() {
        lemma_lookup_misses(env, key, s + 1);
    }
}

/// The value a seeded variable gets: the supervisor's own, or the empty
/// string where the supervisor lacks it.
pub open spec fn forwarded_value(sup: Seq<(String, String)>, key: Seq<char>) -> Seq<char> {
    match spec_env_lookup(sup, key) {
        Some(v) => v,
        None => Seq::empty(),
    }
}

/// Get the environment seeded by forwarding allowed variables from the
/// supervisor's own environment; a variable the supervisor lacks becomes
/// the empty string, and nothing else is seeded.
#[verifier::loop_isolation(false)]
pub fn get_default_env(supervisor_env: &Vec<(String, String)>) -> (r: Vec<(String, String)>)
    ensures
        env_unique(r@),
        forall|x: Seq<char>|
            #[trigger] env_has(r@, x) <==> (x == "HOME"@ || x == "LANG"@ || x == "LANGUAGE"@ || x
                == "LOGNAME"@ || x == "PATH"@ || x == "PWD"@ || x == "SHELL"@ || x == "TERM"@ || x
                == "USER"@),
        spec_env_lookup(r@, "HOME"@) == Some(forwarded_value(supervisor_env@, "HOME"@)),
        spec_env_lookup(r@, "LANG"@) == Some(forwarded_value(supervisor_env@, "LANG"@)),
        spec_env_lookup(r@, "LANGUAGE"@) == Some(forwarded_value(supervisor_env@, "LANGUAGE"@)),
        spec_env_lookup(r@, "LOGNAME"@) == Some(forwarded_value(supervisor_env@, "LOGNAME"@)),
        spec_env_lookup(r@, "PATH"@) == Some(forwarded_value(supervisor_env@, "PATH"@)),
        spec_env_lookup(r@, "PWD"@) == Some(forwarded_value(supervisor_env@, "PWD"@)),
        spec_env_lookup(r@, "SHELL"@) == Some(forwarded_value(supervisor_env@, "SHELL"@)),
        spec_env_lookup(r@, "TERM"@) == Some(forwarded_value(supervisor_env@, "TERM"@)),
        spec_env_lookup(r@, "USER"@) == Some(forwarded_value(supervisor_env@, "USER"@)),
{
    proof {
        lemma_default_keys_distinct();
    }
    let mut result: Vec<(String, String)> = Vec::new();
    let keys = ["HOME", "LANG", "LANGUAGE", "LOGNAME", "PATH", "PWD", "SHELL", "TERM", "USER"];
    let mut i: usize = 0;
    proof {
        assert(keys@.len() == 9);
        assert(keys@[0]@ == "HOME"@ && keys@[1]@ == "LANG"@ && keys@[2]@ == "LANGUAGE"@
            && keys@[3]@ == "LOGNAME"@ && keys@[4]@ == "PATH"@ && keys@[5]@ == "PWD"@ && keys@[6]@
            == "SHELL"@ && keys@[7]@ == "TERM"@ && keys@[8]@ == "USER"@);
        assert forall|j1: int, j2: int|
            0 <= j1 < j2 < 9 implies (#[trigger] keys@[j1])@ != (#[trigger] keys@[j2])@ by {}
        assert forall|x: Seq<char>| !env_has(result@, x) by {}
    }
    while i < 9
        invariant
            0 <= i <= 9,
            keys@.len() == 9,
            env_unique(result@),
            forall|x: Seq<char>|
                #[trigger] env_has(result@, x) <==> exists|j: int|
                    0 <= j < i && x == (#[trigger] keys@[j])@,
            forall|j: int|
                0 <= j < i ==> spec_env_lookup(result@, (#[trigger] keys@[j])@) == Some(
                    forwarded_value(supervisor_env@, keys@[j]@),
                ),
        decreases 9 - i,
    {
        let key = keys[i];
        let value = match env_get(supervisor_env, key) {
            Some(v) => v,
            None => String::new(),
        };
        let ghost pre = result@;
        env_put(&mut result, key.to_owned(), value);
        proof {
            assert forall|x: Seq<char>|
                #[trigger] env_has(result@, x) <==> exists|j: int|
                    0 <= j < i + 1 && x == (#[trigger] keys@[j])@ by {
                if env_has(result@, x) {
                    if env_has(pre, x) {
                        let j = choose|j: int| 0 <= j < i && x == (#[trigger] keys@[j])@;
                        assert(x == keys@[j]@);
                    } else {
                        assert(x == keys@[i as int]@);
                    }
                }
                if exists|j: int| 0 <= j < i + 1 && x == (#[trigger] keys@[j])@ {
                    let j = choose|j: int| 0 <= j < i + 1 && x == (#[trigger] keys@[j])@;
                    if j < i {
                        assert(env_has(pre, keys@[j]@));
                    }
                }
            }
            assert forall|j: int|
                0 <= j < i + 1 implies spec_env_lookup(result@, (#[trigger] keys@[j])@) == Some(
                forwarded_value(supervisor_env@, keys@[j]@),
            ) by {
                if j < i {
                    assert(keys@[j]@ != keys@[i as int]@);
                }
            }
        }
        i += 1;
    }
    result
}

/// The nine forwarded variable names are pairwise distinct.
proof fn lemma_default_keys_distinct()
    ensures
        "HOME"@ != "LANG"@ && "HOME"@ != "LANGUAGE"@ && "HOME"@ != "LOGNAME"@ && "HOME"@
            != "PATH"@ && "HOME"@ != "PWD"@ && "HOME"@ != "SHELL"@ && "HOME"@ != "TERM"@ && "HOME"@
            != "USER"@,
        "LANG"@ != "LANGUAGE"@ && "LANG"@ != "LOGNAME"@ && "LANG"@ != "PATH"@ && "LANG"@ != "PWD"@
            && "LANG"@ != "SHELL"@ && "LANG"@ != "TERM"@ && "LANG"@ != "USER"@,
        "LANGUAGE"@ != "LOGNAME"@ && "LANGUAGE"@ != "PATH"@ && "LANGUAGE"@ != "PWD"@ && "LANGUAGE"@
            != "SHELL"@ && "LANGUAGE"@ != "TERM"@ && "LANGUAGE"@ != "USER"@,
        "LOGNAME"@ != "PATH"@ && "LOGNAME"@ != "PWD"@ && "LOGNAME"@ != "SHELL"@ && "LOGNAME"@
            != "TERM"@ && "LOGNAME"@ != "USER"@,
        "PATH"@ != "PWD"@ && "PATH"@ != "SHELL"@ && "PATH"@ != "TERM"@ && "PATH"@ != "USER"@,
        "PWD"@ != "SHELL"@ && "PWD"@ != "TERM"@ && "PWD"@ != "USER"@,
        "SHELL"@ != "TERM"@ && "SHELL"@ != "USER"@,
        "TERM"@ != "USER"@,
        "NOTIFY_SOCKET"@ != "HOME"@ && "NOTIFY_SOCKET"@ != "PWD"@ && "NOTIFY_SOCKET"@ != "USER"@
            && "NOTIFY_SOCKET"@ != "LOGNAME"@ && "NOTIFY_SOCKET"@ != "SHELL"@,
{
    reveal_strlit("HOME");
    reveal_strlit("LANG");
    reveal_strlit("LANGUAGE");
    reveal_strlit("LOGNAME");
    reveal_strlit("PATH");
    reveal_strlit("PWD");
    reveal_strlit("SHELL");
    reveal_strlit("TERM");
    reveal_strlit("USER");
    reveal_strlit("NOTIFY_SOCKET");
    assert("HOME"@.len() == 4);
    assert("LANG"@.len() == 4);
    assert("LANGUAGE"@.len() == 8);
    assert("LOGNAME"@.len() == 7);
    assert("PATH"@.len() == 4);
    assert("PWD"@.len() == 3);
    assert("SHELL"@.len() == 5);
    assert("TERM"@.len() == 4);
    assert("USER"@.len() == 4);
    assert("NOTIFY_SOCKET"@.len() == 13);
    assert("HOME"@[0] == 'H');
    assert("LANG"@[0] == 'L');
    assert("PATH"@[0] == 'P');
    assert("TERM"@[0] == 'T');
    assert("USER"@[0] == 'U');
}

/// Set well-known variables to the resolved user's values: the home
/// directory, the user name, and a standard shell.
pub fn sanitise_env(env: &mut Vec<(String, String)>, user: &UserInfo)
    requires
        env_unique(old(env)@),
    ensures
        env_unique(final(env)@),
        spec_env_lookup(final(env)@, "HOME"@) == Some(user.home@),
        spec_env_lookup(final(env)@, "PWD"@) == Some(user.home@),
        spec_env_lookup(final(env)@, "USER"@) == Some(user.name@),
        spec_env_lookup(final(env)@, "LOGNAME"@) == Some(user.name@),
        spec_env_lookup(final(env)@, "SHELL"@) == Some("/bin/sh"@),
        forall|x: Seq<char>|
            x != "HOME"@ && x != "PWD"@ && x != "USER"@ && x != "LOGNAME"@ && x != "SHELL"@
                ==> #[trigger] spec_env_lookup(final(env)@, x) == spec_env_lookup(old(env)@, x),
        forall|x: Seq<char>|
            #[trigger] env_has(final(env)@, x) <==> (env_has(old(env)@, x) || x == "HOME"@ || x
                == "PWD"@ || x == "USER"@ || x == "LOGNAME"@ || x == "SHELL"@),
{
    proof {
        lemma_default_keys_distinct();
    }
    env_put(env, String::from_str("HOME"), user.home.clone());
    env_put(env, String::from_str("PWD"), user.home.clone());
    env_put(env, String::from_str("USER"), user.name.clone());
    env_put(env, String::from_str("LOGNAME"), user.name.clone());
    env_put(env, String::from_str("SHELL"), String::from_str("/bin/sh"));
}

/// Transform a numeric or symbolic user into a database entry.
///
/// Giving both forms is invalid; giving neither means the superuser.
pub fn map_uid(id: Option<u32>, name: &Option<String>) -> (r: Result<UserInfo, Error>)
    ensures
        r is Err ==> r == Err::<UserInfo, Error>(Error::UserGroupInvalid),
        id is Some && name is Some ==> r is Err,
        r matches Ok(u) ==> (id matches Some(v) ==> u.uid == v) && (id is None && name is None
            ==> u.uid == 0) && (id is None ==> (name matches Some(nm) ==> u.name@ == nm@)),
{
    if id.is_some() && name.is_some() {
        return Err(Error::UserGroupInvalid);
    }
    let lookup_id = match id {
        Some(v) => Some(v),
        None => {
            if name.is_none() {
                Some(0)
            } else {
                None
            }
        },
    };
    match lookup_id {
        Some(v) => match lookup_user_by_uid(v) {
            Some(u) => Ok(u),
            None => Err(Error::UserGroupInvalid),
        },
        None => match name {
            Some(nm) => match lookup_user_by_name(nm.as_str()) {
                Some(u) => Ok(u),
                None => Err(Error::UserGroupInvalid),
            },
            None => Err(Error::UserGroupInvalid),
        },
    }
}

/// Transform a numeric or symbolic group into a database entry.
pub fn map_gid(id: Option<u32>, name: &Option<String>) -> (r: Result<GroupInfo, Error>)
    ensures
        r is Err ==> r == Err::<GroupInfo, Error>(Error::UserGroupInvalid),
        id is Some && name is Some ==> r is Err,
        r matches Ok(g) ==> (id matches Some(v) ==> g.gid == v) && (id is None && name is None
            ==> g.gid == 0) && (id is None ==> (name matches Some(nm) ==> g.name@ == nm@)),
{
    if id.is_some() && name.is_some() {
        return Err(Error::UserGroupInvalid);
    }
    let lookup_id = match id {
        Some(v) => Some(v),
        None => {
            if name.is_none() {
                Some(0)
            } else {
                None
            }
        },
    };
    match lookup_id {
        Some(v) => match lookup_group_by_gid(v) {
            Some(g) => Ok(g),
            None => Err(Error::UserGroupInvalid),
        },
        None => match name {
            Some(nm) => match lookup_group_by_name(nm.as_str()) {
                Some(g) => Ok(g),
                None => Err(Error::UserGroupInvalid),
            },
            None => Err(Error::UserGroupInvalid),
        },
    }
}

/// What applying one configured layer entry does to the environment.
///
/// An absent value forwards the supervisor's own where it has one and
/// does nothing otherwise; a given value puts the key, rendered or raw —
/// the template engine decides which, so only presence is pinned; other
/// keys keep their values either way.
pub open spec fn env_entry_ok(
    entry: (String, Option<String>),
    pre: Seq<(String, String)>,
    post: Seq<(String, String)>,
    sup: Seq<(String, String)>,
) -> bool {
    match entry.1 {
        None => match spec_env_lookup(sup, entry.0@) {
            None => post == pre,
            Some(v) => {
                &&& spec_env_lookup(post, entry.0@) == Some(v)
                &&& forall|x: Seq<char>|
                    x != entry.0@ ==> #[trigger] spec_env_lookup(post, x) == spec_env_lookup(
                        pre,
                        x,
                    )
                &&& forall|x: Seq<char>|
                    #[trigger] env_has(post, x) <==> (env_has(pre, x) || x == entry.0@)
            },
        },
        Some(_) => {
            &&& spec_env_lookup(post, entry.0@) is Some
            &&& forall|x: Seq<char>|
                x != entry.0@ ==> #[trigger] spec_env_lookup(post, x) == spec_env_lookup(pre, x)
            &&& forall|x: Seq<char>|
                #[trigger] env_has(post, x) <==> (env_has(pre, x) || x == entry.0@)
        },
    }
}

/// The environments a run of layer entries can take `pre` to, in order.
pub open spec fn env_after_entries(
    entries: Seq<(String, Option<String>)>,
    pre: Seq<(String, String)>,
    post: Seq<(String, String)>,
    sup: Seq<(String, String)>,
) -> bool
    decreases entries.len(),
{
    if entries.len() == 0 {
        post == pre
    } else {
        exists|mid: Seq<(String, String)>|
            #[trigger] env_entry_ok(entries[0], pre, mid, sup) && env_after_entries(
                entries.drop_first(),
                mid,
                post,
                sup,
            )
    }
}

/// The environments a run of layers can take `pre` to, in order.
pub open spec fn env_after_layers(
    layers: Seq<Seq<(String, Option<String>)>>,
    pre: Seq<(String, String)>,
    post: Seq<(String, String)>,
    sup: Seq<(String, String)>,
) -> bool
    decreases layers.len(),
{
    if layers.len() == 0 {
        post == pre
    } else {
        exists|mid: Seq<(String, String)>|
            #[trigger] env_after_entries(layers[0], pre, mid, sup) && env_after_layers(
                layers.drop_first(),
                mid,
                post,
                sup,
            )
    }
}

/// Extending a run of entries by one more step.
proof fn lemma_entries_snoc(
    entries: Seq<(String, Option<String>)>,
    e: (String, Option<String>),
    pre: Seq<(String, String)>,
    mid: Seq<(String, String)>,
    post: Seq<(String, String)>,
    sup: Seq<(String, String)>,
)
    requires
        env_after_entries(entries, pre, mid, sup),
        env_entry_ok(e, mid, post, sup),
    ensures
        env_after_entries(entries.push(e), pre, post, sup),
    decreases entries.len(),
{
    if entries.len() == 0 {
        assert(entries.push(e)[0] == e);
        assert(entries.push(e).drop_first() =~= Seq::<(String, Option<String>)>::empty());
        assert(env_entry_ok(entries.push(e)[0], pre, post, sup) && env_after_entries(
            entries.push(e).drop_first(),
            post,
            post,
            sup,
        ));
    } else {
        let m1 = choose|m1: Seq<(String, String)>|
            #[trigger] env_entry_ok(entries[0], pre, m1, sup) && env_after_entries(
                entries.drop_first(),
                m1,
                mid,
                sup,
            );
        lemma_entries_snoc(entries.drop_first(), e, m1, mid, post, sup);
        assert(entries.push(e)[0] == entries[0]);
        assert(entries.push(e).drop_first() =~= entries.drop_first().push(e));
        assert(env_entry_ok(entries.push(e)[0], pre, m1, sup) && env_after_entries(
            entries.push(e).drop_first(),
            m1,
            post,
            sup,
        ));
    }
}

/// Extending a run of layers by one more layer.
proof fn lemma_layers_snoc(
    layers: Seq<Seq<(String, Option<String>)>>,
    l: Seq<(String, Option<String>)>,
    pre: Seq<(String, String)>,
    mid: Seq<(String, String)>,
    post: Seq<(String, String)>,
    sup: Seq<(String, String)>,
)
    requires
        env_after_layers(layers, pre, mid, sup),
        env_after_entries(l, mid, post, sup),
    ensures
        env_after_layers(layers.push(l), pre, post, sup),
    decreases layers.len(),
{
    if layers.len() == 0 {
        assert(layers.push(l)[0] == l);
        assert(layers.push(l).drop_first() =~= Seq::<Seq<(String, Option<String>)>>::empty());
        assert(env_after_entries(layers.push(l)[0], pre, post, sup) && env_after_layers(
            layers.push(l).drop_first(),
            post,
            post,
            sup,
        ));
    } else {
        let m1 = choose|m1: Seq<(String, String)>|
            #[trigger] env_after_entries(layers[0], pre, m1, sup) && env_after_layers(
                layers.drop_first(),
                m1,
                mid,
                sup,
            );
        lemma_layers_snoc(layers.drop_first(), l, m1, mid, post, sup);
        assert(layers.push(l)[0] == layers[0]);
        assert(layers.push(l).drop_first() =~= layers.drop_first().push(l));
        assert(env_after_entries(layers.push(l)[0], pre, m1, sup) && env_after_layers(
            layers.push(l).drop_first(),
            m1,
            post,
            sup,
        ));
    }
}

/// The layers of a configuration as plain sequences.
pub open spec fn layer_views(layers: Seq<EnvLayer>) -> Seq<Seq<(String, Option<String>)>> {
    Seq::new(layers.len(), |i: int| layers[i]@)
}

/// Copy the configured environment layers in, rendering each given
/// value as a template against the variables gathered so far; a value
/// that fails to render is used raw, and an absent value forwards the
/// supervisor's own.
#[verifier::loop_isolation(false)]
pub fn copy_from_config(
    layers: &Vec<EnvLayer>,
    result: Vec<(String, String)>,
    supervisor_env: &Vec<(String, String)>,
) -> (r: Vec<(String, String)>)
    requires
        env_unique(result@),
    ensures
        env_unique(r@),
        env_after_layers(layer_views(layers@), result@, r@, supervisor_env@),
{
    let ghost seed = result@;
    let ghost lv = layer_views(layers@);
    let mut result = result;
    let n = layers.len();
    let mut i: usize = 0;
    proof {
        assert(lv.take(0) =~= Seq::<Seq<(String, Option<String>)>>::empty());
    }
    while i < n
        invariant
            0 <= i <= n,
            n == layers@.len(),
            env_unique(result@),
            env_after_layers(lv.take(i as int), seed, result@, supervisor_env@),
        decreases n - i,
    {
        let ghost layer_start = result@;
        let ghost entries = layers@[i as int]@;
        let layer_len = layers[i].len();
        let mut k: usize = 0;
        proof {
            assert(entries.take(0) =~= Seq::<(String, Option<String>)>::empty());
        }
        while k < layer_len
            invariant
                0 <= k <= layer_len,
                0 <= i < n,
                layer_len == layers@[i as int]@.len(),
                entries == layers@[i as int]@,
                env_unique(result@),
                env_after_entries(entries.take(k as int), layer_start, result@, supervisor_env@),
            decreases layer_len - k,
        {
            let ghost step_pre = result@;
            let key = layers[i][k].0.clone();
            let has_value = layers[i][k].1.is_some();
            proof {
                assert(key@ == entries[k as int].0@);
            }
            if !has_value {
                match env_get(supervisor_env, key.as_str()) {
                    None => {},
                    Some(real_value) => {
                        env_put(&mut result, key, real_value);
                    },
                }
            } else {
                let raw_value = match &layers[i][k].1 {
                    Some(v) => v.clone(),
                    None => String::new(),
                };
                let rendered = render_template(key.as_str(), &result, raw_value.as_str());
                let value = treat_template_error_in_argument(raw_value.as_str(), rendered);
                env_put(&mut result, key, value);
            }
            proof {
                assert(env_entry_ok(entries[k as int], step_pre, result@, supervisor_env@));
                lemma_entries_snoc(
                    entries.take(k as int),
                    entries[k as int],
                    layer_start,
                    step_pre,
                    result@,
                    supervisor_env@,
                );
                assert(entries.take(k as int).push(entries[k as int]) =~= entries.take(k + 1));
            }
            k += 1;
        }
        proof {
            assert(entries.take(layer_len as int) =~= entries);
            lemma_layers_snoc(
                lv.take(i as int),
                lv[i as int],
                seed,
                layer_start,
                result@,
                supervisor_env@,
            );
            assert(lv.take(i as int).push(lv[i as int]) =~= lv.take(i + 1));
        }
        i += 1;
    }
    proof {
        assert(lv.take(n as int) =~= lv);
    }
    result
}

/// Whether the flat `KEY=VALUE` strings spell out exactly these pairs.
pub open spec fn flat_env(env: Seq<String>, pairs: Seq<(String, String)>) -> bool {
    &&& env.len() == pairs.len()
    &&& forall|i: int| 0 <= i < env.len() ==> (#[trigger] env[i])@ == pairs[i].0@ + "="@ + pairs[i].1@
}

/// Whether the flat environment spells out a duplicate-free variable
/// map which, for a notify process, forces the notify socket path.
pub open spec fn env_spelled(env: Seq<String>, is_notify: bool) -> bool {
    exists|pairs: Seq<(String, String)>|
        #[trigger] flat_env(env, pairs) && env_unique(pairs) && (is_notify ==> spec_env_lookup(
            pairs,
            "NOTIFY_SOCKET"@,
        ) == Some("/run/cinit-notify.socket"@))
}

/// Flatten the environment into `KEY=VALUE` form.
pub fn flatten_to_strings(result: &Vec<(String, String)>) -> (r: Vec<String>)
    ensures
        r@.len() == result@.len(),
        forall|k: int|
            0 <= k < r@.len() ==> (#[trigger] r@[k])@ == result@[k].0@ + "="@ + result@[k].1@,
{
    let n = result.len();
    let mut ret: Vec<String> = Vec::new();
    let mut k: usize = 0;
    while k < n
        invariant
            0 <= k <= n,
            n == result@.len(),
            ret@.len() == k,
            forall|b: int|
                0 <= b < k ==> (#[trigger] ret@[b])@ == result@[b].0@ + "="@ + result@[b].1@,
        decreases n - k,
    {
        let mut entry = result[k].0.clone();
        entry.append("=");
        entry.append(result[k].1.as_str());
        ret.push(entry);
        k += 1;
    }
    ret
}

/// Copy an optional string, value for value.
fn clone_opt_string(s: &Option<String>) -> (r: Option<String>)
    ensures
        r == *s,
{
    match s {
        Some(v) => {
            let c = v.clone();
            proof {
                assert(c == *v);
            }
            Some(c)
        },
        None => None,
    }
}

/// Copy a list of strings, value for value.
fn clone_string_vec(v: &Vec<String>) -> (r: Vec<String>)
    ensures
        r@ == v@,
{
    let n = v.len();
    let mut out: Vec<String> = Vec::new();
    let mut k: usize = 0;
    while k < n
        invariant
            0 <= k <= n,
            n == v@.len(),
            out@ =~= v@.subrange(0, k as int),
        decreases n - k,
    {
        out.push(v[k].clone());
        proof {
            assert(out@ =~= v@.subrange(0, k + 1));
        }
        k += 1;
    }
    proof {
        assert(out@ =~= v@);
    }
    out
}

/// Copy the environment layers, value for value.
fn clone_env(env: &Vec<EnvLayer>) -> (r: Vec<EnvLayer>)
    ensures
        r@.len() == env@.len(),
        forall|i: int| 0 <= i < env@.len() ==> (#[trigger] r@[i])@ == env@[i]@,
{
    let n = env.len();
    let mut out: Vec<EnvLayer> = Vec::new();
    let mut i: usize = 0;
    while i < n
        invariant
            0 <= i <= n,
            n == env@.len(),
            out@.len() == i,
            forall|t: int| 0 <= t < i ==> (#[trigger] out@[t])@ == env@[t]@,
        decreases n - i,
    {
        let layer_len = env[i].len();
        let mut layer: EnvLayer = Vec::new();
        let mut k: usize = 0;
        while k < layer_len
            invariant
                0 <= k <= layer_len,
                0 <= i < n,
                n == env@.len(),
                layer_len == env@[i as int]@.len(),
                layer@ =~= env@[i as int]@.subrange(0, k as int),
            decreases layer_len - k,
        {
            let key = env[i][k].0.clone();
            let value = clone_opt_string(&env[i][k].1);
            layer.push((key, value));
            proof {
                assert(layer@ =~= env@[i as int]@.subrange(0, k + 1));
            }
            k += 1;
        }
        proof {
            assert(layer@ =~= env@[i as int]@);
        }
        out.push(layer);
        i += 1;
    }
    out
}

/// Copy a process type, value for value.
fn clone_process_type(t: &ProcessType) -> (r: ProcessType)
    ensures
        r == *t,
{
    match t {
        ProcessType::Oneshot => ProcessType::Oneshot,
        ProcessType::Notify => ProcessType::Notify,
        ProcessType::CronJob { timer } => {
            let timer2 = timer.clone();
            proof {
                assert(timer2 == *timer);
            }
            ProcessType::CronJob { timer: timer2 }
        },
    }
}

/// Copy a process configuration; every field the analysis reads comes
/// out equal.
fn clone_config(p: &ProcessConfig) -> (r: ProcessConfig)
    ensures
        r.name == p.name,
        r.path == p.path,
        r.args@ == p.args@,
        r.workdir == p.workdir,
        r.process_type == p.process_type,
        r.uid == p.uid,
        r.gid == p.gid,
        r.user == p.user,
        r.group == p.group,
        r.before@ == p.before@,
        r.after@ == p.after@,
        r.emulate_pty == p.emulate_pty,
        r.capabilities@ == p.capabilities@,
{
    let r = ProcessConfig {
        name: p.name.clone(),
        path: clone_opt_string(&p.path),
        args: clone_string_vec(&p.args),
        workdir: clone_opt_string(&p.workdir),
        process_type: clone_process_type(&p.process_type),
        uid: p.uid,
        gid: p.gid,
        user: clone_opt_string(&p.user),
        group: clone_opt_string(&p.group),
        before: clone_string_vec(&p.before),
        after: clone_string_vec(&p.after),
        emulate_pty: p.emulate_pty,
        capabilities: clone_string_vec(&p.capabilities),
        env: clone_env(&p.env),
    };
    r
}

impl Process {
    /// Build a runnable process record from its configuration.
    ///
    /// A cronjob may not order itself before others; the user and group
    /// must resolve; the binary path must be present. The argument vector
    /// starts with the path, followed by the configured arguments
    /// rendered as templates against the assembled environment; a notify
    /// process has the notify socket path forced into its environment.
    pub fn from(config: &ProcessConfig, supervisor_env: &Vec<(String, String)>) -> (r: Result<
        Process,
        Error,
    >)
        ensures
            is_cronjob_type(config.process_type) && config.before@.len() > 0 <==> r == Err::<
                Process,
                Error,
            >(Error::CronjobDependency),
            (config.uid is Some && config.user is Some) || (config.gid is Some && config.group
                is Some) ==> r is Err,
            !(r == Err::<Process, Error>(Error::CronjobDependency)) && !(r == Err::<
                Process,
                Error,
            >(Error::UserGroupInvalid)) && config.path is None <==> r == Err::<Process, Error>(
                Error::PathMissing,
            ),
            r matches Ok(p) ==> {
                &&& p.name@ == config.name@
                &&& config.path matches Some(cp) && p.path@ == cp@
                &&& p.args@.len() == 1 + config.args@.len()
                &&& p.args@[0]@ == p.path@
                &&& p.state == crate::process::Process::initial_state(runtime_type_of(config.process_type))
                &&& p.process_type == runtime_type_of(config.process_type)
                &&& p.pid == 0
                &&& p.status@ == Seq::<char>::empty()
                &&& p.emulate_pty == config.emulate_pty
                &&& p.capabilities@ == config.capabilities@
                &&& (config.uid matches Some(v) ==> p.uid == v)
                &&& (config.gid matches Some(v) ==> p.gid == v)
                &&& (config.uid is None && config.user is None ==> p.uid == 0)
                &&& (config.gid is None && config.group is None ==> p.gid == 0)
                &&& p.workdir@ == (match config.workdir {
                    Some(w) => w@,
                    None => "."@,
                })
                &&& env_spelled(p.env@, config.process_type is Notify)
            },
    {
        if matches!(config.process_type, ProcessType::CronJob { .. }) && config.before.len() > 0 {
            return Err(Error::CronjobDependency);
        }
        let user = match map_uid(config.uid, &config.user) {
            Ok(u) => u,
            Err(e) => {
                return Err(e);
            },
        };
        let group = match map_gid(config.gid, &config.group) {
            Ok(g) => g,
            Err(e) => {
                return Err(e);
            },
        };
        let default_env = get_default_env(supervisor_env);
        let mut env = default_env;
        sanitise_env(&mut env, &user);
        let mut env = copy_from_config(&config.env, env, supervisor_env);
        if matches!(config.process_type, ProcessType::Notify) {
            env_put(
                &mut env,
                String::from_str("NOTIFY_SOCKET"),
                String::from_str(NOTIFY_SOCKET_PATH),
            );
        }
        let path = match &config.path {
            None => {
                return Err(Error::PathMissing);
            },
            Some(p) => p.clone(),
        };
        let mut args: Vec<String> = Vec::new();
        args.push(path.clone());
        let argn = config.args.len();
        let mut k: usize = 0;
        while k < argn
            invariant
                0 <= k <= argn,
                argn == config.args@.len(),
                args@.len() == 1 + k,
                args@[0]@ == path@,
            decreases argn - k,
        {
            let raw = config.args[k].clone();
            let rendered = render_template("argument", &env, raw.as_str());
            let value = treat_template_error_in_argument(raw.as_str(), rendered);
            args.push(value);
            k += 1;
        }
        let workdir = match &config.workdir {
            None => String::from_str("."),
            Some(w) => w.clone(),
        };
        let flat = flatten_to_strings(&env);
        proof {
            assert(flat_env(flat@, env@));
            assert(env_unique(env@));
            if matches!(config.process_type, ProcessType::Notify) {
                assert(spec_env_lookup(env@, "NOTIFY_SOCKET"@) == Some(
                    "/run/cinit-notify.socket"@,
                ));
            }
            assert(env_spelled(flat@, matches!(config.process_type, ProcessType::Notify)));
        }
        Ok(
            Process {
                name: config.name.clone(),
                path,
                args,
                workdir,
                uid: user.uid,
                gid: group.gid,
                emulate_pty: config.emulate_pty,
                capabilities: clone_string_vec(&config.capabilities),
                env: flat,
                state: match config.process_type {
                    ProcessType::Oneshot => ProcessState::Blocked,
                    ProcessType::Notify => ProcessState::Blocked,
                    ProcessType::CronJob { .. } => ProcessState::Sleeping,
                },
                process_type: match config.process_type {
                    ProcessType::Oneshot => crate::process::ProcessType::Oneshot,
                    ProcessType::Notify => crate::process::ProcessType::Notify,
                    ProcessType::CronJob { .. } => crate::process::ProcessType::Cronjob,
                },
                pid: 0,
                status: String::new(),
            },
        )
    }
}

/// The runtime pendant of a configured process type.
pub open spec fn runtime_type_of(t: ProcessType) -> crate::process::ProcessType {
    match t {
        ProcessType::Oneshot => crate::process::ProcessType::Oneshot,
        ProcessType::Notify => crate::process::ProcessType::Notify,
        ProcessType::CronJob { .. } => crate::process::ProcessType::Cronjob,
    }
}

/// Build the dependency manager, with every program's id its position in
/// the configuration.
#[verifier::loop_isolation(false)]
pub fn build_dependency_manager(config: &crate::config::Config) -> (r: Result<
    crate::dependency_graph::DependencyManager,
    i32,
>)
    requires
        crate::config::unique_names(config.programs@),
        config.programs@.len() <= crate::dependency_graph::SIZE_LIMIT,
        forall|i: int|
            0 <= i < config.programs@.len() ==> (#[trigger] config.programs@[i]).before@.len()
                <= crate::dependency_graph::SIZE_LIMIT && config.programs@[i].after@.len()
                <= crate::dependency_graph::SIZE_LIMIT,
    ensures
        match r {
            Ok(dm) => {
                &&& dm.wf()
                &&& dm.n() == config.programs@.len()
                &&& forall|i: int| 0 <= i < dm.n() ==> !dm.spec_finished(i)
                &&& dm.spec_popped() == Set::<usize>::empty()
            },
            Err(code) => code == 2,
        },
{
    let n = config.programs.len();
    let mut input: Vec<(usize, ProcessConfig)> = Vec::new();
    let mut k: usize = 0;
    while k < n
        invariant
            0 <= k <= n,
            input@.len() == k,
            forall|t: int|
                0 <= t < k ==> ((#[trigger] input@[t]).0 == t && input@[t].1.name@
                    == config.programs@[t].name@ && input@[t].1.before@
                    == config.programs@[t].before@ && input@[t].1.after@
                    == config.programs@[t].after@),
        decreases n - k,
    {
        let cloned = clone_config(&config.programs[k]);
        input.push((k, cloned));
        k += 1;
    }
    proof {
        assert forall|i: int, j: int|
            0 <= i < j < input@.len() implies (#[trigger] input@[i]).1.name@ != (
        #[trigger] input@[j]).1.name@ by {
            assert(input@[i].1.name@ == config.programs@[i].name@);
            assert(input@[j].1.name@ == config.programs@[j].name@);
        }
    }
    match crate::dependency_graph::DependencyManager::with_nodes(&input) {
        Ok(dm) => Ok(dm),
        Err(_) => Err(2),
    }
}

/// Build the cron scheduler for the cronjob-typed programs, with the same
/// id assignment as the dependency manager, starting from `now`.
#[verifier::loop_isolation(false)]
pub fn build_cron(config: &crate::config::Config, now: crate::datetime::DateTime) -> (r: Result<
    crate::cron::Cron,
    i32,
>)
    requires
        now.valid(),
        now.year + 16 <= crate::datetime::YEAR_MAX,
        config.programs@.len() + 1 < 0x1000_0000,
    ensures
        match r {
            Ok(c) => c.wf() && forall|j: int|
                0 <= j < config.programs@.len() && is_cronjob_type(
                    (#[trigger] config.programs@[j]).process_type,
                ) ==> crate::cron::Cron::id_scheduled(c.spec_timeline(), j as usize),
            Err(code) => code == 2,
        },
{
    let n = config.programs.len();
    let mut input: Vec<(usize, ProcessConfig)> = Vec::new();
    let mut k: usize = 0;
    while k < n
        invariant
            0 <= k <= n,
            n == config.programs@.len(),
            input@.len() <= k,
            forall|t: int|
                0 <= t < input@.len() ==> (is_cronjob_type((#[trigger] input@[t]).1.process_type)
                    && input@[t].0 < k && input@[t].1.process_type
                    == config.programs@[input@[t].0 as int].process_type),
            forall|t1: int, t2: int|
                0 <= t1 < t2 < input@.len() ==> (#[trigger] input@[t1]).0 < (
                #[trigger] input@[t2]).0,
            forall|j: int|
                0 <= j < k && is_cronjob_type((#[trigger] config.programs@[j]).process_type)
                    ==> exists|t: int| 0 <= t < input@.len() && (#[trigger] input@[t]).0 == j,
        decreases n - k,
    {
        if matches!(config.programs[k].process_type, ProcessType::CronJob { .. }) {
            let ghost pre_input = input@;
            let cloned = clone_config(&config.programs[k]);
            input.push((k, cloned));
            proof {
                assert forall|j: int|
                    0 <= j < k + 1 && is_cronjob_type(
                        (#[trigger] config.programs@[j]).process_type,
                    ) implies exists|t: int|
                    0 <= t < input@.len() && (#[trigger] input@[t]).0 == j by {
                    if j < k {
                        let t = choose|t: int|
                            0 <= t < pre_input.len() && (#[trigger] pre_input[t]).0 == j;
                        assert(input@[t].0 == j);
                    } else {
                        assert(input@[input@.len() - 1].0 == j);
                    }
                }
            }
        }
        k += 1;
    }
    proof {
        assert forall|t1: int, t2: int|
            0 <= t1 < t2 < input@.len() implies (#[trigger] input@[t1]).0 != (
        #[trigger] input@[t2]).0 by {}
    }
    match crate::cron::Cron::with_jobs_at(&input, now) {
        Ok(c) => {
            proof {
                assert forall|j: int|
                    0 <= j < config.programs@.len() && is_cronjob_type(
                        (#[trigger] config.programs@[j]).process_type,
                    ) implies crate::cron::Cron::id_scheduled(
                    c.spec_timeline(),
                    j as usize,
                ) by {
                    let t = choose|t: int|
                        0 <= t < input@.len() && (#[trigger] input@[t]).0 == j;
                    assert(crate::cron::Cron::id_scheduled(c.spec_timeline(), input@[t].0));
                }
            }
            Ok(c)
        },
        Err(_) => Err(2),
    }
}

} // verus!
