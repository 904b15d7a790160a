//! Setting up the hooks: the entries in the settings, and the binary they call.

pub mod binary;
pub mod settings_json;

use crate::pathname::{join_path, path_join};
use crate::sshkit::paths::{ccc_root, root_of, NoHome};
use vstd::prelude::*;

verus! {

/// The command that the settings call. The same settings are read on several machines, so it
/// begins with the home directory of each. It names the wrapper, which calls the binary.
pub const HOOK_BINARY_COMMAND: &'static str = "~/.ccc/bin/ccc-hook.sh";

/// The name of the wrapper.
pub const WRAPPER_SCRIPT_NAME: &'static str = "ccc-hook.sh";

/// The directory of the wrapper and the binary: `bin` below the root.
pub fn hook_bin_dir(home: &Option<String>) -> (r: Result<String, NoHome>)
    ensures
        match *home {
            Some(h) => r is Ok && r->Ok_0@ == path_join(root_of(h@), "bin"@),
            None => r == Err::<String, NoHome>(NoHome),
        },
{
    match ccc_root(home) {
        Ok(p) => Ok(join_path(p.as_str(), "bin")),
        Err(e) => Err(e),
    }
}

/// The command that the settings call is the script in the directory of the binaries.
pub proof fn settings_call_the_script(home: &Option<String>, dir: Result<String, NoHome>)
    requires
        call_ensures(hook_bin_dir, (home,), dir),
    ensures
        HOOK_BINARY_COMMAND@ == "~/.ccc/bin/"@ + WRAPPER_SCRIPT_NAME@,
        home matches Some(h) ==> (dir matches Ok(d) && d@ == path_join(path_join(h@, ".ccc"@), "bin"@)),
        home is None ==> dir is Err,
{
    reveal_strlit("~/.ccc/bin/ccc-hook.sh");
    reveal_strlit("~/.ccc/bin/");
    reveal_strlit("ccc-hook.sh");
    assert(HOOK_BINARY_COMMAND@ =~= "~/.ccc/bin/"@ + WRAPPER_SCRIPT_NAME@);
}

} // verus!
