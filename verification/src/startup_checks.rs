//! Check if the supervisor can run on this platform: the kernel must
//! offer ambient capabilities and the process must run as the superuser.

use vstd::prelude::*;

use crate::text::parse_u32_s;
use crate::text::parse_u32_exec;
use crate::text::spec_split;
use crate::text::split_on;

verus! {

/// Exit code raised when the platform refuses the supervisor.
pub const PREFLIGHT_EXIT_CODE: i32 = 5;

/// Relies on nix's `uname`: the running kernel's release string, empty
/// when the system refuses to tell.
#[verifier::external_body]
fn kernel_release() -> (r: String)
{
    match nix::sys::utsname::uname() {
        Ok(info) => info.release().to_string_lossy().to_string(),
        Err(_) => String::new(),
    }
}

/// Relies on nix's `getuid`: whether the process runs as the superuser.
#[verifier::external_body]
fn current_user_is_root() -> (r: bool)
{
    nix::unistd::getuid().is_root()
}

/// Whether a release string names a kernel too old for ambient
/// capabilities: its major and minor numbers parse and lie below the
/// first version carrying them.
pub open spec fn spec_kernel_too_old(release: Seq<char>) -> bool {
    let parts = spec_split(release, '.');
    parts.len() >= 2 && parse_u32_s(parts[0]) is Some && parse_u32_s(parts[1]) is Some && {
        let major = parse_u32_s(parts[0]).unwrap();
        let minor = parse_u32_s(parts[1]).unwrap();
        major < 4 || (major == 4 && minor < 3)
    }
}

/// Decide whether the release string names a kernel too old to run on.
///
/// A string whose version cannot be read is accepted with a shrug, as
/// the kernel may still be fine.
pub fn kernel_release_too_old(release: &str) -> (r: bool)
    ensures
        r == spec_kernel_too_old(release@),
{
    let ghost parts_spec = spec_split(release@, '.');
    let parts = split_on(release, '.');
    proof {
        assert(parts.deep_view().len() == parts@.len());
        assert(parts.deep_view()[0] == parts@[0]@);
    }
    if parts.len() < 2 {
        return false;
    }
    proof {
        assert(parts.deep_view()[1] == parts@[1]@);
    }
    let major = match parse_u32_exec(parts[0].as_str()) {
        Some(v) => v,
        None => {
            return false;
        },
    };
    let minor = match parse_u32_exec(parts[1].as_str()) {
        Some(v) => v,
        None => {
            return false;
        },
    };
    major < 4 || (major == 4 && minor < 3)
}

/// Terminate if the platform requirements are not met: the kernel must
/// support ambient capabilities and the user must be the superuser.
///
/// The decision reads the machine, so only the shape of the verdict is
/// promised: the preflight exit code or success.
pub fn do_startup_checks() -> (r: Result<(), i32>)
    ensures
        r matches Err(code) ==> code == PREFLIGHT_EXIT_CODE,
{
    let release = kernel_release();
    if kernel_release_too_old(release.as_str()) {
        return Err(PREFLIGHT_EXIT_CODE);
    }
    if !current_user_is_root() {
        return Err(PREFLIGHT_EXIT_CODE);
    }
    Ok(())
}

} // verus!
