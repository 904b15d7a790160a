//! Where data is kept below the home directory.

use crate::pathname::{join_path, path_join};
use crate::text::{opt_text, same};
use vstd::prelude::*;

verus! {

/// The home directory is not known.
#[derive(Clone, Copy, PartialEq, Eq, Debug, Structural)]
pub struct NoHome;

/// `~/.ccc`.
pub open spec fn root_of(home: Seq<char>) -> Seq<char> {
    path_join(home, ".ccc"@)
}

/// Whether the value of `CCC_DEV` asks for the data of the development build: anything but the
/// empty value and `0`.
pub open spec fn dev_value(v: Option<Seq<char>>) -> bool {
    v is Some && v->0.len() > 0 && v->0 != "0"@
}

/// The directory for data that changes: `~/.ccc`, or `~/.ccc/dev` for the development build.
pub open spec fn data_of(home: Seq<char>, dev: bool) -> Seq<char> {
    if dev {
        path_join(root_of(home), "dev"@)
    } else {
        root_of(home)
    }
}

/// Whether the value of `CCC_DEV` asks for the data of the development build.
pub fn is_dev_mode(value: &Option<String>) -> (r: bool)
    ensures
        r == dev_value(opt_text(*value)),
{
    match value {
        Some(v) => !v.as_str().is_empty() && !same(v.as_str(), "0"),
        None => false,
    }
}

/// The root, `~/.ccc`, which the development build shares.
pub fn ccc_root(home: &Option<String>) -> (r: Result<String, NoHome>)
    ensures
        match *home {
            Some(h) => r is Ok && r->Ok_0@ == root_of(h@),
            None => r == Err::<String, NoHome>(NoHome),
        },
{
    match home {
        Some(h) => Ok(join_path(h.as_str(), ".ccc")),
        None => Err(NoHome),
    }
}

/// The directory for data that changes.
pub fn data_root(home: &Option<String>, dev: &Option<String>) -> (r: Result<String, NoHome>)
    ensures
        match *home {
            Some(h) => r is Ok && r->Ok_0@ == data_of(h@, dev_value(opt_text(*dev))),
            None => r == Err::<String, NoHome>(NoHome),
        },
{
    let root: String = match ccc_root(home) {
        Ok(p) => p,
        Err(e) => {
            return Err(e);
        },
    };
    if is_dev_mode(dev) {
        Ok(join_path(root.as_str(), "dev"))
    } else {
        Ok(root)
    }
}

/// The directory of the ledgers of forwards.
pub fn forwards_dir(home: &Option<String>, dev: &Option<String>) -> (r: Result<String, NoHome>)
    ensures
        match *home {
            Some(h) => r is Ok && r->Ok_0@ == path_join(
                data_of(h@, dev_value(opt_text(*dev))),
                "forwards"@,
            ),
            None => r == Err::<String, NoHome>(NoHome),
        },
{
    match data_root(home, dev) {
        Ok(p) => Ok(join_path(p.as_str(), "forwards")),
        Err(e) => Err(e),
    }
}

/// Everything lies below `.ccc` in the home directory, the data of a second copy in a directory of its
/// own there; the variable asks for one by any value but none, nothing and `0`.
pub proof fn data_lies_below_the_root(home: Seq<char>, v: Seq<char>)
    ensures
        root_of(home) == path_join(home, ".ccc"@),
        data_of(home, false) == path_join(home, ".ccc"@),
        data_of(home, true) == path_join(path_join(home, ".ccc"@), "dev"@),
        !dev_value(None),
        dev_value(Some(v)) <==> v.len() > 0 && v != "0"@,
{
}

} // verus!
