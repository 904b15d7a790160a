//! Linking the command-line tools into the user's own directory of programs.

use crate::pathname::{
    begins_at_root, begins_here, components, is_absolute, join_path, path_components, path_join,
    starts_here,
};
use crate::split::{join, joined};
use crate::sshkit::paths::NoHome;
use crate::text::{copy, copy_opt, opt_text, same, texts};
use vstd::prelude::*;

verus! {

/// The tools that come with the program.
pub fn tools() -> (r: Vec<String>)
    ensures
        texts(r@) == seq!["ccc-sessions"@, "ccc-ssh"@],
{
    let r: Vec<String> = vec![copy("ccc-sessions"), copy("ccc-ssh")];
    assert(texts(r@) =~= seq!["ccc-sessions"@, "ccc-ssh"@]);
    r
}

/// The directory of the links.
pub open spec fn links_dir(home: Seq<char>) -> Seq<char> {
    path_join(path_join(home, ".local"@), "bin"@)
}

/// The directory of the links: `.local/bin` in the home directory.
pub fn install_dir(home: &Option<String>) -> (r: Result<String, NoHome>)
    ensures
        match *home {
            Some(h) => r is Ok && r->Ok_0@ == links_dir(h@),
            None => r == Err::<String, NoHome>(NoHome),
        },
{
    match home {
        Some(h) => Ok(join_path(join_path(h.as_str(), ".local").as_str(), "bin")),
        None => Err(NoHome),
    }
}

/// Whether two paths are made of the same components.
pub open spec fn same_path(a: Seq<char>, b: Seq<char>) -> bool {
    is_absolute(a) == is_absolute(b) && begins_here(a) == begins_here(b) && components(a)
        == components(b)
}

fn same_texts(a: &Vec<String>, b: &Vec<String>) -> (r: bool)
    ensures
        r == (texts(a@) == texts(b@)),
{
    if a.len() != b.len() {
        assert(texts(a@).len() != texts(b@).len());
        return false;
    }
    let mut i: usize = 0;
    while i < a.len()
        invariant
            i <= a@.len(),
            a@.len() == b@.len(),
            forall|k: int| 0 <= k < i ==> #[trigger] texts(a@)[k] == texts(b@)[k],
        decreases a@.len() - i,
    {
        if !same(a[i].as_str(), b[i].as_str()) {
            assert(texts(a@)[i as int] != texts(b@)[i as int]);
            return false;
        }
        i += 1;
    }
    assert(texts(a@) =~= texts(b@));
    true
}

/// Whether two paths are made of the same components.
pub fn is_same_path(a: &str, b: &str) -> (r: bool)
    ensures
        r == same_path(a@, b@),
{
    begins_at_root(a) == begins_at_root(b) && starts_here(a) == starts_here(b) && same_texts(
        &path_components(a),
        &path_components(b),
    )
}

/// Whether programs are looked for in a directory.
pub fn is_in_path(dir: &str, path_dirs: &Vec<String>) -> (r: bool)
    ensures
        r == exists|i: int| 0 <= i < path_dirs@.len() && same_path(#[trigger] path_dirs@[i]@, dir@),
{
    let mut i: usize = 0;
    while i < path_dirs.len()
        invariant
            i <= path_dirs@.len(),
            forall|k: int| 0 <= k < i ==> !same_path(#[trigger] path_dirs@[k]@, dir@),
        decreases path_dirs@.len() - i,
    {
        if is_same_path(path_dirs[i].as_str(), dir) {
            return true;
        }
        i += 1;
    }
    false
}

/// What was found of a tool.
pub struct ToolFound {
    /// The binary that comes with the program, where it exists.
    pub bundled: Option<String>,
    /// Whether something stands where the link belongs.
    pub taken: bool,
    /// Where the link leads in the end.
    pub link_real: Option<String>,
    /// Where the binary lies in the end.
    pub bundled_real: Option<String>,
}

/// How a tool is installed.
pub struct ToolStatus {
    pub bundled: Option<String>,
    pub link: Option<String>,
    pub installed: bool,
    pub up_to_date: bool,
}

/// Whether a link leads to the binary that comes with the program.
pub open spec fn leads_there(f: ToolFound) -> bool {
    match (opt_text(f.link_real), opt_text(f.bundled_real)) {
        (Some(a), Some(b)) => same_path(a, b),
        _ => false,
    }
}

/// How a tool is installed.
pub fn tool_status(name: &str, home: &Option<String>, found: &ToolFound) -> (r: ToolStatus)
    ensures
        opt_text(r.bundled) == opt_text(found.bundled),
        opt_text(r.link) == match opt_text(*home) {
            Some(h) => Some(path_join(links_dir(h), name@)),
            None => None,
        },
        r.installed == (home is Some && found.taken),
        r.up_to_date == (home is Some && found.taken && found.bundled is Some && leads_there(
            *found,
        )),
{
    let link: Option<String> = match install_dir(home) {
        Ok(d) => Some(join_path(d.as_str(), name)),
        Err(_) => None,
    };
    let installed: bool = link.is_some() && found.taken;
    let leads: bool = match (&found.link_real, &found.bundled_real) {
        (Some(a), Some(b)) => is_same_path(a.as_str(), b.as_str()),
        _ => false,
    };
    ToolStatus {
        bundled: copy_opt(&found.bundled),
        link,
        installed,
        up_to_date: installed && found.bundled.is_some() && leads,
    }
}

/// How the tools are installed, taken together.
pub struct CliToolStatus {
    /// Whether every tool comes with the program.
    pub bundled_found: bool,
    /// Where the links are or belong.
    pub link_path: String,
    /// Whether every tool has something where its link belongs.
    pub installed: bool,
    /// Whether every link leads to the tool that comes with the program.
    pub up_to_date: bool,
    /// Whether programs are looked for in the links' directory.
    pub in_path: bool,
}

/// The links of the first `n` tools, where they are known.
pub open spec fn links(v: Seq<ToolStatus>, n: int) -> Seq<Seq<char>>
    decreases n,
{
    if n <= 0 {
        seq![]
    } else {
        match opt_text(v[n - 1].link) {
            Some(l) => links(v, n - 1).push(l),
            None => links(v, n - 1),
        }
    }
}

/// How the tools are installed, taken together.
pub fn cli_tool_status(statuses: &Vec<ToolStatus>, in_path: bool) -> (r: CliToolStatus)
    ensures
        r.bundled_found == forall|i: int|
            0 <= i < statuses@.len() ==> (#[trigger] statuses@[i]).bundled is Some,
        r.installed == forall|i: int|
            0 <= i < statuses@.len() ==> (#[trigger] statuses@[i]).installed,
        r.up_to_date == forall|i: int|
            0 <= i < statuses@.len() ==> (#[trigger] statuses@[i]).up_to_date,
        r.in_path == in_path,
        ({
            let all = joined(links(statuses@, statuses@.len() as int), ", "@);
            r.link_path@ == if all.len() == 0 {
                "~/.local/bin/ccc-sessions, ccc-ssh"@
            } else {
                all
            }
        }),
{
    let mut bundled_found: bool = true;
    let mut installed: bool = true;
    let mut up_to_date: bool = true;
    let mut out: Vec<String> = Vec::new();
    let mut i: usize = 0;
    assert(texts(out@) =~= links(statuses@, 0));
    while i < statuses.len()
        invariant
            i <= statuses@.len(),
            bundled_found == forall|k: int| 0 <= k < i ==> (#[trigger] statuses@[k]).bundled is Some,
            installed == forall|k: int| 0 <= k < i ==> (#[trigger] statuses@[k]).installed,
            up_to_date == forall|k: int| 0 <= k < i ==> (#[trigger] statuses@[k]).up_to_date,
            texts(out@) == links(statuses@, i as int),
        decreases statuses@.len() - i,
    {
        let s: &ToolStatus = &statuses[i];
        bundled_found = bundled_found && s.bundled.is_some();
        installed = installed && s.installed;
        up_to_date = up_to_date && s.up_to_date;
        if let Some(l) = &s.link {
            let ghost before = out@;
            out.push(copy(l.as_str()));
            assert(texts(out@) =~= texts(before).push(l@));
        }
        i += 1;
    }
    let all: String = join(&out, ", ");
    let link_path: String = if all.as_str().is_empty() {
        copy("~/.local/bin/ccc-sessions, ccc-ssh")
    } else {
        all
    };
    CliToolStatus { bundled_found, link_path, installed, up_to_date, in_path }
}

/// What installing a tool does.
#[derive(Clone, Copy, PartialEq, Eq, Debug, Structural)]
pub enum InstallMove {
    /// The program came without the tool: stop.
    Missing,
    /// Remove what stands where the link belongs, then link.
    Replace,
    /// Link.
    Link,
}

/// What installing a tool does.
pub fn install_move(bundled_exists: bool, taken: bool) -> (r: InstallMove)
    ensures
        r == if !bundled_exists {
            InstallMove::Missing
        } else if taken {
            InstallMove::Replace
        } else {
            InstallMove::Link
        },
{
    if !bundled_exists {
        InstallMove::Missing
    } else if taken {
        InstallMove::Replace
    } else {
        InstallMove::Link
    }
}

/// What was installed.
pub struct InstallResult {
    pub link_path: String,
    /// Whether programs are looked for in the links' directory; where not, the user is told how
    /// to add it.
    pub in_path: bool,
}

/// The links of tools in a directory.
pub open spec fn links_in(dir: Seq<char>, names: Seq<Seq<char>>) -> Seq<Seq<char>> {
    Seq::new(names.len(), |i: int| path_join(dir, names[i]))
}

/// What was installed, once every tool is linked.
pub fn install_cli_tool(dir: &str, names: &Vec<String>, path_dirs: &Vec<String>) -> (r: InstallResult)
    ensures
        r.link_path@ == joined(links_in(dir@, texts(names@)), ", "@),
        r.in_path == exists|i: int|
            0 <= i < path_dirs@.len() && same_path(#[trigger] path_dirs@[i]@, dir@),
{
    let mut out: Vec<String> = Vec::new();
    let mut i: usize = 0;
    while i < names.len()
        invariant
            i <= names@.len(),
            texts(out@) == links_in(dir@, texts(names@)).take(i as int),
        decreases names@.len() - i,
    {
        let ghost before = out@;
        out.push(join_path(dir, names[i].as_str()));
        assert(texts(out@) =~= texts(before).push(path_join(dir@, texts(names@)[i as int])));
        assert(texts(out@) =~= links_in(dir@, texts(names@)).take(i + 1));
        i += 1;
    }
    assert(texts(out@) =~= links_in(dir@, texts(names@)));
    InstallResult { link_path: join(&out, ", "), in_path: is_in_path(dir, path_dirs) }
}

// ---------------------------------------------------------------- what the links promise

/// The links shown are those of the tools that have one, in the order of the tools.
pub proof fn links_stand_in_order(v: Seq<ToolStatus>, t: ToolStatus)
    ensures
        opt_text(t.link) matches Some(l) ==> links(v.push(t), v.len() as int + 1) == links(
            v,
            v.len() as int,
        ).push(l),
        t.link is None ==> links(v.push(t), v.len() as int + 1) == links(v, v.len() as int),
        links(v, 0).len() == 0,
{
    lemma_links_front(v, t, v.len() as int);
    assert(v.push(t)[v.len() as int] == t);
}

proof fn lemma_links_front(v: Seq<ToolStatus>, t: ToolStatus, n: int)
    requires
        0 <= n <= v.len(),
    ensures
        links(v.push(t), n) == links(v, n),
    decreases n,
{
    if n > 0 {
        lemma_links_front(v, t, n - 1);
        assert(v.push(t)[n - 1] == v[n - 1]);
    }
}

/// A tool is up to date only where its link is there and leads in the end to the binary that comes with
/// the program; the link belongs into the user's own directory of programs, under the tool's name.
pub proof fn current_link_leads_to_the_tool(
    name: &str,
    home: &Option<String>,
    found: &ToolFound,
    r: ToolStatus,
)
    requires
        call_ensures(tool_status, (name, home, found), r),
    ensures
        r.up_to_date ==> r.installed && found.bundled is Some && found.link_real is Some
            && found.bundled_real is Some,
        r.up_to_date ==> components(found.link_real->0@) == components(found.bundled_real->0@),
        home matches Some(h) ==> (r.link matches Some(l) && l@ == path_join(
            path_join(path_join(h@, ".local"@), "bin"@),
            name@,
        )),
        home is None ==> r.link is None && !r.installed && !r.up_to_date,
        home is Some ==> r.installed == found.taken,
        home is Some && found.taken && found.bundled is Some ==> (opt_text(found.link_real) is Some
            && opt_text(found.link_real) == opt_text(found.bundled_real) ==> r.up_to_date),
{
}

/// Two paths are the same place where they have the same steps from the same start; so every path is the
/// same as itself, whichever is asked first, and a third that is the same as one is the same as both.
pub proof fn same_place_is_an_equality(a: Seq<char>, b: Seq<char>, c: Seq<char>)
    ensures
        same_path(a, a),
        same_path(a, b) == same_path(b, a),
        same_path(a, b) && same_path(b, c) ==> same_path(a, c),
        same_path(a, b) ==> components(a) == components(b) && is_absolute(a) == is_absolute(b),
{
}

/// What stands where a link belongs is replaced, nothing is linked to a tool that is not there.
pub proof fn missing_tool_is_not_linked(bundled_exists: bool, taken: bool, r: InstallMove)
    requires
        call_ensures(install_move, (bundled_exists, taken), r),
    ensures
        r is Missing <==> !bundled_exists,
        r is Replace <==> bundled_exists && taken,
        r is Link <==> bundled_exists && !taken,
{
}

/// Each tool is linked under its name in the directory, in order.
pub proof fn links_are_named_after_the_tools(dir: Seq<char>, names: Seq<Seq<char>>, i: int, t: Vec<String>)
    requires
        0 <= i < names.len(),
        call_ensures(tools, (), t),
    ensures
        links_in(dir, names).len() == names.len(),
        links_in(dir, names)[i] == path_join(dir, names[i]),
        t@.len() == 2,
        t@[0]@ == "ccc-sessions"@,
        t@[1]@ == "ccc-ssh"@,
{
    assert(texts(t@).len() == 2);
    assert(texts(t@)[0] == t@[0]@);
    assert(texts(t@)[1] == t@[1]@);
}

/// The state of the tools together is what holds of each of them.
pub proof fn tools_count_together(statuses: &Vec<ToolStatus>, in_path: bool, r: CliToolStatus, i: int)
    requires
        call_ensures(cli_tool_status, (statuses, in_path), r),
        0 <= i < statuses@.len(),
    ensures
        r.installed ==> statuses@[i].installed,
        r.up_to_date ==> statuses@[i].up_to_date,
        r.bundled_found ==> statuses@[i].bundled is Some,
        r.in_path == in_path,
{
}

} // verus!
