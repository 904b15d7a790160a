//! The search path that the program takes over from the user's login shell.

use crate::bytes::{lossy, lossy_text};
use crate::text::{copy, opt_text, texts, trim, trimmed, trimming_takes_the_white_ends, white};
use vstd::prelude::*;

verus! {

/// How the login shell ended.
pub struct ShellRun {
    pub success: bool,
    pub stdout: Vec<u8>,
}

/// The shell that is asked: the user's, or the system's where none is set.
pub fn login_shell(shell: &Option<String>) -> (r: String)
    ensures
        r@ == match opt_text(*shell) {
            Some(s) => s,
            None => "/bin/sh"@,
        },
{
    match shell {
        Some(s) => copy(s.as_str()),
        None => copy("/bin/sh"),
    }
}

/// The arguments that make a shell print its search path, as a login shell and an interactive
/// one, since set-ups of both kinds add to it.
pub fn path_args() -> (r: Vec<String>)
    ensures
        texts(r@) == seq!["-l"@, "-i"@, "-c"@, "printf %s \"$PATH\""@],
{
    let r: Vec<String> = vec![copy("-l"), copy("-i"), copy("-c"), copy("printf %s \"$PATH\"")];
    assert(texts(r@) =~= seq!["-l"@, "-i"@, "-c"@, "printf %s \"$PATH\""@]);
    r
}

/// The search path that a shell's run gives.
pub open spec fn shell_path(run: Option<ShellRun>) -> Option<Seq<char>> {
    match run {
        Some(s) => if s.success && trimmed(lossy(s.stdout@)).len() > 0 {
            Some(trimmed(lossy(s.stdout@)))
        } else {
            None
        },
        None => None,
    }
}

/// The search path to take over; the present one stays where the shell cannot be run, fails or
/// prints nothing.
pub fn inherit_login_shell_path(run: &Option<ShellRun>) -> (r: Option<String>)
    ensures
        opt_text(r) == shell_path(*run),
        r matches Some(p) ==> p@.len() > 0,
{
    match run {
        Some(s) => {
            if !s.success {
                return None;
            }
            let path: String = trim(lossy_text(s.stdout.as_slice()).as_str());
            if path.as_str().is_empty() {
                None
            } else {
                Some(path)
            }
        },
        None => None,
    }
}

/// The path that a shell printed is taken without the white space around it; a shell that failed or
/// printed nothing else gives none.
pub proof fn printed_path_is_taken(before: Seq<char>, path: Seq<char>, after: Seq<char>, run: ShellRun)
    requires
        forall|k: int| 0 <= k < before.len() ==> white(#[trigger] before[k]),
        forall|k: int| 0 <= k < after.len() ==> white(#[trigger] after[k]),
        path.len() > 0,
        !white(path[0]),
        !white(path.last()),
    ensures
        run.success && lossy(run.stdout@) == before + path + after ==> shell_path(Some(run)) == Some(path),
        !run.success ==> shell_path(Some(run)) is None,
        lossy(run.stdout@) == before ==> shell_path(Some(run)) is None,
        shell_path(None) is None,
{
    trimming_takes_the_white_ends(before, path, after);
}

/// The shell asked is the user's own, or the system's where none is set.
pub proof fn shell_is_the_users(shell: &Option<String>, r: String)
    requires
        call_ensures(login_shell, (shell,), r),
    ensures
        shell matches Some(s) ==> r@ == s@,
        shell is None ==> r@ == "/bin/sh"@,
{
}

/// The shell is asked as a login shell at a terminal, and prints nothing but its path.
pub proof fn shell_prints_its_path(r: Vec<String>)
    requires
        call_ensures(path_args, (), r),
    ensures
        r@.len() == 4,
        r@[0]@ == "-l"@ && r@[1]@ == "-i"@ && r@[2]@ == "-c"@,
        r@[3]@ == "printf %s \"$PATH\""@,
{
    let t = texts(r@);
    assert(t.len() == 4);
    assert(t[0] == r@[0]@ && t[1] == r@[1]@ && t[2] == r@[2]@ && t[3] == r@[3]@);
}

} // verus!
