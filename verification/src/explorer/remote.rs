//! Files on a remote machine, reached through the shared connection.
//!
//! Every command line is put together from words that the shell reads as they are. Bytes are sent
//! in base64, which the connection cannot damage.

use crate::bytes::{lossy, lossy_text, utf8_text};
use crate::explorer::base64::{base64_decode, decoded};
use crate::explorer::listing::{
    found_nodes, node_views, parse_find_output, shown_order,
};
use crate::explorer::local::SearchError;
use crate::explorer::path_guard::{guarded, join_within_root_remote, remote_path, GuardError};
use crate::explorer::preview::{next_remote, preview_remote, step_view, PreviewError, PreviewStep, StepView};
use crate::explorer::ripgrep::{all_hits, first_hits, hit_views, is_binary_head, parse_rg_json};
use crate::explorer::source::{given_glob, CommandLine, CommandView, FileSource, SourceError};
use crate::explorer::types::{FileMeta, FileNode, PreviewOpts, SearchHit, SearchOpts};
use crate::number::{decimal, parse_u64, push_u64, unsigned};
use crate::shell::{quote, quoted};
use crate::split::{contains, has, join, joined, lines, lines_of};
use crate::sshkit::ssh_config::{control_path_option, own_control_path, CCC_CONTROL_PATH};
use crate::text::{
    blank, copy, is_blank, only, opt_text, strip_back, texts, trim, trim_end_char, trimmed,
};
use vstd::prelude::*;

verus! {

/// Files on a remote machine, below a root.
#[derive(Debug)]
pub struct RemoteFileSource {
    pub alias: String,
    /// The root on that machine.
    pub root: String,
    /// Whether the user's configuration keeps the shared connection, so that ours is not asked
    /// for.
    pub uses_user_master: bool,
}

/// `s` as one word of a shell.
pub fn shq(s: &str) -> (r: String)
    ensures
        r@ == quoted(s@),
{
    quote(s)
}

/// The arguments that lead to the shared connection.
pub open spec fn control_args(user: bool) -> Seq<Seq<char>> {
    if user {
        seq![]
    } else {
        seq!["-o"@, control_path_option()]
    }
}

/// The arguments that run a command on the remote machine.
pub open spec fn exec_args(user: bool, alias: Seq<char>, cmd: Seq<char>) -> Seq<Seq<char>> {
    seq!["-T"@, "-o"@, "BatchMode=yes"@] + control_args(user) + seq![alias, cmd]
}

/// The arguments that ask for the shared connection.
pub open spec fn check_args(user: bool, alias: Seq<char>) -> Seq<Seq<char>> {
    seq!["-O"@, "check"@] + control_args(user) + seq![alias]
}

/// The ssh that rsync is to use.
pub open spec fn inner_ssh(user: bool) -> Seq<char> {
    if user {
        "ssh -T -o BatchMode=yes"@
    } else {
        "ssh -T -o BatchMode=yes"@ + " -o ControlPath="@ + CCC_CONTROL_PATH@
    }
}

/// The command that lists a directory: type, size and name of each entry.
pub open spec fn find_command(abs: Seq<char>) -> Seq<char> {
    "cd "@ + quoted(abs)
        + " && find . -maxdepth 1 -mindepth 1 -printf '%y\\t%s\\t%P\\n' 2>/dev/null | LC_ALL=C sort"@
}

/// The command that tells a file's size and its head.
pub open spec fn stat_command(abs: Seq<char>) -> Seq<char> {
    "stat -c '%s' -- "@ + quoted(abs) + " 2>/dev/null && head -c 8192 -- "@ + quoted(abs)
        + " | base64"@
}

/// The command that sends the first `n` bytes of a file.
pub open spec fn head_command(abs: Seq<char>, n: u64) -> Seq<char> {
    "head -c "@ + decimal(n as nat) + " -- "@ + quoted(abs) + " | base64"@
}

/// The command that a step of a preview needs.
pub open spec fn step_command(abs: Seq<char>, opts: PreviewOpts, at: StepView) -> Option<Seq<char>> {
    match at {
        StepView::Size => Some("stat -c '%s' -- "@ + quoted(abs)),
        StepView::Whole { .. } => Some("base64 -- "@ + quoted(abs)),
        StepView::Head { .. } => Some(head_command(abs, 8192)),
        StepView::Body { .. } => Some(head_command(abs, opts.text_limit)),
        StepView::Done(_) => None,
    }
}

/// The command that searches below `root`.
pub open spec fn search_command(query: Seq<char>, glob: Option<Seq<char>>, root: Seq<char>) -> Seq<char> {
    let names = match given_glob(glob) {
        Some(g) => " --glob "@ + quoted(g),
        None => seq![],
    };
    "cd "@ + quoted(root) + " && rg --json --max-count 20 --max-columns 300 -S"@ + names + " -- "@
        + quoted(query) + " ."@
}

/// How a remote command ended.
#[derive(Debug)]
pub enum RemoteRun {
    /// It did not start.
    NotStarted,
    Ended { success: bool, stdout: Vec<u8>, stderr: Vec<u8> },
}

/// Why a remote command gave nothing.
#[derive(Debug)]
pub enum RemoteError {
    NotStarted,
    /// It failed with this on its error stream.
    Failed(String),
    /// There is no shared connection.
    NotConnected,
}

/// Why a file's size and head could not be read.
#[derive(Clone, Copy, PartialEq, Eq, Debug, Structural)]
pub enum StatError {
    Empty,
    BadSize,
}

impl RemoteFileSource {
    /// The files of a machine below a root; `user_cm` tells whether the user's configuration keeps
    /// the shared connection, where that could be found out.
    pub fn new(alias: String, root: String, user_cm: Option<bool>) -> (r: Result<
        RemoteFileSource,
        SourceError,
    >)
        ensures
            r == if blank(root@) {
                Err::<RemoteFileSource, SourceError>(SourceError::BlankDirectory)
            } else {
                Ok(RemoteFileSource { alias, root, uses_user_master: user_cm == Some(true) })
            },
    {
        if is_blank(root.as_str()) {
            return Err(SourceError::BlankDirectory);
        }
        let uses_user_master: bool = match user_cm {
            Some(b) => b,
            None => false,
        };
        Ok(RemoteFileSource { alias, root, uses_user_master })
    }

    /// The file that a path from the root leads to.
    pub fn abs(&self, rel: &str) -> (r: Result<String, GuardError>)
        ensures
            guarded(r) == remote_path(self.root@, rel@),
    {
        join_within_root_remote(self.root.as_str(), rel)
    }

    /// The arguments that lead to the shared connection.
    pub fn control_path_args(&self) -> (r: Vec<String>)
        ensures
            texts(r@) == control_args(self.uses_user_master),
    {
        let mut args: Vec<String> = Vec::new();
        if !self.uses_user_master {
            args.push(copy("-o"));
            args.push(own_control_path());
        }
        assert(texts(args@) =~= control_args(self.uses_user_master));
        args
    }

    /// The arguments that ask for the shared connection.
    pub fn master_check(&self) -> (r: Vec<String>)
        ensures
            texts(r@) == check_args(self.uses_user_master, self.alias@),
    {
        let mut args: Vec<String> = vec![copy("-O"), copy("check")];
        let mut more: Vec<String> = self.control_path_args();
        let ghost m = more@;
        args.append(&mut more);
        args.push(copy(self.alias.as_str()));
        assert(texts(args@) =~= check_args(self.uses_user_master, self.alias@)) by {
            assert(texts(m) == control_args(self.uses_user_master));
            assert(m.len() == control_args(self.uses_user_master).len());
            assert(forall|i: int| 0 <= i < m.len() ==> (#[trigger] m[i])@ == texts(m)[i]);
        }
        args
    }

    /// Whether there is a shared connection. What is printed counts for more than the exit code,
    /// which other commands of the configuration may change.
    pub fn ensure_master(&self, run: &RemoteRun) -> (r: Result<(), RemoteError>)
        ensures
            match *run {
                RemoteRun::NotStarted => r == Err::<(), RemoteError>(RemoteError::NotStarted),
                RemoteRun::Ended { success, stdout, stderr } => if success || has(
                    lossy(stdout@),
                    "Master running"@,
                ) || has(lossy(stderr@), "Master running"@) {
                    r is Ok
                } else {
                    r == Err::<(), RemoteError>(RemoteError::NotConnected)
                },
            },
    {
        match run {
            RemoteRun::NotStarted => Err(RemoteError::NotStarted),
            RemoteRun::Ended { success, stdout, stderr } => {
                if *success || contains(lossy_text(stdout.as_slice()).as_str(), "Master running")
                    || contains(lossy_text(stderr.as_slice()).as_str(), "Master running") {
                    Ok(())
                } else {
                    Err(RemoteError::NotConnected)
                }
            },
        }
    }

    /// The arguments that run a command on the remote machine.
    pub fn ssh_exec(&self, cmd: &str) -> (r: Vec<String>)
        ensures
            texts(r@) == exec_args(self.uses_user_master, self.alias@, cmd@),
    {
        let mut args: Vec<String> = vec![copy("-T"), copy("-o"), copy("BatchMode=yes")];
        if !self.uses_user_master {
            args.push(copy("-o"));
            args.push(own_control_path());
        }
        args.push(copy(self.alias.as_str()));
        args.push(copy(cmd));
        assert(texts(args@) =~= exec_args(self.uses_user_master, self.alias@, cmd@));
        args
    }

    /// What a remote command printed, where it ended well.
    pub fn output(run: RemoteRun) -> (r: Result<Vec<u8>, RemoteError>)
        ensures
            match run {
                RemoteRun::NotStarted => r == Err::<Vec<u8>, RemoteError>(RemoteError::NotStarted),
                RemoteRun::Ended { success, stdout, stderr } => if success {
                    r == Ok::<Vec<u8>, RemoteError>(stdout)
                } else {
                    r is Err && r->Err_0 is Failed && r->Err_0->Failed_0@ == trimmed(
                        lossy(stderr@),
                    )
                },
            },
    {
        match run {
            RemoteRun::NotStarted => Err(RemoteError::NotStarted),
            RemoteRun::Ended { success, stdout, stderr } => {
                if success {
                    Ok(stdout)
                } else {
                    Err(RemoteError::Failed(trim(lossy_text(stderr.as_slice()).as_str())))
                }
            },
        }
    }

    /// The command that lists a directory.
    pub fn list_command(&self, rel: &str) -> (r: Result<String, GuardError>)
        ensures
            guarded(r) == match remote_path(self.root@, rel@) {
                Ok(p) => Ok::<Seq<char>, GuardError>(find_command(p)),
                Err(e) => Err(e),
            },
    {
        let abs: String = match self.abs(rel) {
            Ok(p) => p,
            Err(e) => {
                return Err(e);
            },
        };
        let mut s: String = copy("cd ");
        s.append(shq(abs.as_str()).as_str());
        s.append(
            " && find . -maxdepth 1 -mindepth 1 -printf '%y\\t%s\\t%P\\n' 2>/dev/null | LC_ALL=C sort",
        );
        Ok(s)
    }

    /// The entries of a directory, from what the command printed.
    pub fn list_directory(&self, rel: &str, out: &[u8]) -> (r: Vec<FileNode>)
        ensures
            shown_order(node_views(r@), found_nodes(rel@, lines_of(lossy(out@)))),
    {
        parse_find_output(lossy_text(out).as_str(), rel)
    }

    /// The command that tells a file's size and its head.
    pub fn stat_command_for(&self, rel: &str) -> (r: Result<String, GuardError>)
        ensures
            guarded(r) == match remote_path(self.root@, rel@) {
                Ok(p) => Ok::<Seq<char>, GuardError>(stat_command(p)),
                Err(e) => Err(e),
            },
    {
        let abs: String = match self.abs(rel) {
            Ok(p) => p,
            Err(e) => {
                return Err(e);
            },
        };
        let q: String = shq(abs.as_str());
        let mut s: String = copy("stat -c '%s' -- ");
        s.append(q.as_str());
        s.append(" 2>/dev/null && head -c 8192 -- ");
        s.append(q.as_str());
        s.append(" | base64");
        Ok(s)
    }

    /// What is known of a file, from what the command printed: the size on the first line, and
    /// behind it the head.
    pub fn stat(out: &[u8]) -> (r: Result<FileMeta, StatError>)
        ensures
            ({
                let rows = lines_of(lossy(out@));
                if rows.len() == 0 {
                    r == Err::<FileMeta, StatError>(StatError::Empty)
                } else {
                    match unsigned(trimmed(rows[0]), u64::MAX as nat) {
                        None => r == Err::<FileMeta, StatError>(StatError::BadSize),
                        Some(n) => {
                            &&& r is Ok
                            &&& r->Ok_0.size == n
                            &&& r->Ok_0.mime is None
                            &&& r->Ok_0.is_binary == decoded(joined(rows.skip(1), ""@)).contains(
                                0u8,
                            )
                        },
                    }
                }
            }),
    {
        let text: String = lossy_text(out);
        let mut rows: Vec<String> = lines(text.as_str());
        let ghost all = texts(rows@);
        assert(all.len() == rows@.len());
        if rows.len() == 0 {
            return Err(StatError::Empty);
        }
        let ghost before = rows@;
        let first: String = rows.remove(0);
        assert(all[0] == first@);
        assert(texts(rows@) =~= all.skip(1));
        let size: u64 = match parse_u64(trim(first.as_str()).as_str()) {
            Some(n) => n,
            None => {
                return Err(StatError::BadSize);
            },
        };
        let head: Vec<u8> = base64_decode(join(&rows, "").as_str());
        Ok(FileMeta { size, mime: None, is_binary: is_binary_head(head.as_slice()) })
    }

    /// The command that a step of showing a file needs; none where the step is the last.
    pub fn preview_command(&self, rel: &str, opts: &PreviewOpts, at: &PreviewStep) -> (r: Result<
        Option<String>,
        GuardError,
    >)
        ensures
            match remote_path(self.root@, rel@) {
                Err(e) => r == Err::<Option<String>, GuardError>(e),
                Ok(p) => r is Ok && opt_text(r->Ok_0) == step_command(p, *opts, at@),
            },
    {
        let abs: String = match self.abs(rel) {
            Ok(p) => p,
            Err(e) => {
                return Err(e);
            },
        };
        let q: String = shq(abs.as_str());
        match at {
            PreviewStep::Size => {
                let mut s: String = copy("stat -c '%s' -- ");
                s.append(q.as_str());
                Ok(Some(s))
            },
            PreviewStep::Whole { .. } => {
                let mut s: String = copy("base64 -- ");
                s.append(q.as_str());
                Ok(Some(s))
            },
            PreviewStep::Head { .. } => Ok(Some(head_of(q.as_str(), 8192, Ghost(abs@)))),
            PreviewStep::Body { .. } => Ok(
                Some(head_of(q.as_str(), opts.text_limit, Ghost(abs@))),
            ),
            PreviewStep::Done(_) => Ok(None),
        }
    }

    /// What follows in showing a file, given what the step's command printed.
    pub fn read_preview(&self, rel: &str, opts: &PreviewOpts, at: PreviewStep, out: &[u8]) -> (r: Result<
        PreviewStep,
        PreviewError,
    >)
        ensures
            step_view(r) == next_remote(rel@, *opts, at@, out@),
    {
        preview_remote(rel, opts, at, out)
    }

    /// The hits of a search, by how its command ended.
    pub fn search_result(&self, run: RemoteRun, opts: &SearchOpts) -> (r: Result<
        Vec<SearchHit>,
        SearchError,
    >)
        ensures
            match run {
                RemoteRun::NotStarted => r == Err::<Vec<SearchHit>, SearchError>(
                    SearchError::NotStarted,
                ),
                RemoteRun::Ended { success, stdout, stderr } => if success {
                    match utf8_text(stdout@) {
                        None => r == Err::<Vec<SearchHit>, SearchError>(SearchError::NotText),
                        Some(t) => r is Ok && hit_views(r->Ok_0@) == first_hits(
                            all_hits(lines_of(t), self.root@),
                            opts.max_results as nat,
                        ),
                    }
                } else {
                    let said = trimmed(lossy(stderr@));
                    if has(said, "rg: command not found"@) || has(said, "rg: not found"@) {
                        r == Err::<Vec<SearchHit>, SearchError>(SearchError::NoRipgrep)
                    } else {
                        r is Err && r->Err_0 is NotRun && r->Err_0->NotRun_0@ == said
                    }
                },
            },
    {
        match RemoteFileSource::output(run) {
            Ok(out) => match parse_rg_json(out.as_slice(), self.root.as_str(), opts.max_results) {
                Ok(h) => Ok(h),
                Err(_) => Err(SearchError::NotText),
            },
            Err(RemoteError::Failed(said)) => {
                if contains(said.as_str(), "rg: command not found") || contains(
                    said.as_str(),
                    "rg: not found",
                ) {
                    Err(SearchError::NoRipgrep)
                } else {
                    Err(SearchError::NotRun(said))
                }
            },
            Err(_) => Err(SearchError::NotStarted),
        }
    }

    /// The ssh that rsync is to use.
    fn rsync_ssh(&self) -> (r: String)
        ensures
            r@ == inner_ssh(self.uses_user_master),
    {
        let mut s: String = copy("ssh -T -o BatchMode=yes");
        if !self.uses_user_master {
            s.append(" -o ControlPath=");
            s.append(CCC_CONTROL_PATH);
        }
        s
    }
}

fn head_of(q: &str, n: u64, Ghost(abs): Ghost<Seq<char>>) -> (r: String)
    requires
        q@ == quoted(abs),
    ensures
        r@ == head_command(abs, n),
{
    let mut s: String = copy("head -c ");
    push_u64(&mut s, n);
    s.append(" -- ");
    s.append(q);
    s.append(" | base64");
    s
}

/// The arguments of rsync between two places.
pub open spec fn rsync_args(user: bool, from: Seq<char>, to: Seq<char>) -> Seq<Seq<char>> {
    seq!["-az"@, "--safe-links"@, "-e"@, inner_ssh(user), "--"@, from, to]
}

fn rsync(ssh: String, from: &str, to: &str) -> (r: Vec<String>)
    ensures
        texts(r@) == seq!["-az"@, "--safe-links"@, "-e"@, ssh@, "--"@, from@, to@],
{
    let ghost inner = ssh@;
    let args: Vec<String> = vec![
        copy("-az"),
        copy("--safe-links"),
        copy("-e"),
        ssh,
        copy("--"),
        copy(from),
        copy(to),
    ];
    assert(texts(args@) =~= seq!["-az"@, "--safe-links"@, "-e"@, inner, "--"@, from@, to@]);
    args
}

impl FileSource for RemoteFileSource {
    open spec fn copying(&self, source: Seq<char>, dest: Seq<char>) -> CommandView {
        (
            "rsync"@,
            rsync_args(
                self.uses_user_master,
                source,
                self.alias@ + ":"@ + strip_back(dest, only('/')) + "/"@,
            ),
        )
    }

    open spec fn fetching(&self, path: Seq<char>, dest: Seq<char>) -> CommandView {
        ("rsync"@, rsync_args(self.uses_user_master, self.alias@ + ":"@ + path, dest))
    }

    open spec fn searching(&self, query: Seq<char>, glob: Option<Seq<char>>) -> Option<CommandView> {
        if blank(query) {
            None
        } else {
            Some(
                (
                    "ssh"@,
                    exec_args(
                        self.uses_user_master,
                        self.alias@,
                        search_command(query, glob, self.root@),
                    ),
                ),
            )
        }
    }

    fn copy_into(&self, source: &str, dest: &str) -> (r: CommandLine) {
        let mut to: String = copy(self.alias.as_str());
        to.append(":");
        to.append(trim_end_char(dest, '/').as_str());
        to.append("/");
        CommandLine {
            program: copy("rsync"),
            args: rsync(self.rsync_ssh(), source, to.as_str()),
        }
    }

    fn download_to(&self, path: &str, dest: &str) -> (r: CommandLine) {
        let mut from: String = copy(self.alias.as_str());
        from.append(":");
        from.append(path);
        CommandLine {
            program: copy("rsync"),
            args: rsync(self.rsync_ssh(), from.as_str(), dest),
        }
    }

    fn search(&self, query: &str, glob: &Option<String>) -> (r: Option<CommandLine>) {
        if is_blank(query) {
            return None;
        }
        let mut s: String = copy("cd ");
        s.append(shq(self.root.as_str()).as_str());
        s.append(" && rg --json --max-count 20 --max-columns 300 -S");
        if let Some(g) = glob {
            if !is_blank(g.as_str()) {
                s.append(" --glob ");
                s.append(shq(g.as_str()).as_str());
            }
        }
        s.append(" -- ");
        s.append(shq(query).as_str());
        s.append(" .");
        assert(s@ =~= search_command(query@, opt_text(*glob), self.root@));
        Some(CommandLine { program: copy("ssh"), args: self.ssh_exec(s.as_str()) })
    }
}

/// Every command goes to the instance's own machine as one word behind its alias, without a terminal and
/// without asking, through our own connection unless the user keeps one.
pub proof fn command_goes_to_the_machine(user: bool, alias: Seq<char>, cmd: Seq<char>)
    ensures
        ({
            let a = exec_args(user, alias, cmd);
            let n = a.len() as int;
            &&& n >= 5
            &&& a[n - 2] == alias
            &&& a[n - 1] == cmd
            &&& a[0] == "-T"@ && a[1] == "-o"@ && a[2] == "BatchMode=yes"@
            &&& user ==> n == 5
            &&& !user ==> n == 7 && a[3] == "-o"@ && a[4] == control_path_option()
        }),
        ({
            let a = check_args(user, alias);
            let n = a.len() as int;
            &&& a[0] == "-O"@ && a[1] == "check"@ && a[n - 1] == alias
            &&& user ==> n == 3
            &&& !user ==> n == 5 && a[2] == "-o"@ && a[3] == control_path_option()
        }),
{
}

/// Each step of a preview asks for what it needs of the file itself: its size, all of it, its first 8192
/// bytes, or as much text as may be shown.
pub proof fn preview_asks_for_the_file(abs: Seq<char>, opts: PreviewOpts, size: u64)
    ensures
        step_command(abs, opts, StepView::Size) == Some("stat -c '%s' -- "@ + quoted(abs)),
        step_command(abs, opts, StepView::Whole { size }) == Some("base64 -- "@ + quoted(abs)),
        step_command(abs, opts, StepView::Head { size }) == Some(
            "head -c "@ + decimal(8192) + " -- "@ + quoted(abs) + " | base64"@,
        ),
        step_command(abs, opts, StepView::Body { size }) == Some(
            "head -c "@ + decimal(opts.text_limit as nat) + " -- "@ + quoted(abs) + " | base64"@,
        ),
{
}

/// A directory is listed in itself, one level deep, each entry by its type, its size and its name with
/// tabs between; a search goes on in the root, for the text as one word.
pub proof fn commands_name_their_place(
    abs: Seq<char>,
    query: Seq<char>,
    glob: Seq<char>,
    root: Seq<char>,
)
    ensures
        find_command(abs) == "cd "@ + quoted(abs)
            + " && find . -maxdepth 1 -mindepth 1 -printf '%y\\t%s\\t%P\\n' 2>/dev/null | LC_ALL=C sort"@,
        search_command(query, None, root) == "cd "@ + quoted(root)
            + " && rg --json --max-count 20 --max-columns 300 -S"@ + Seq::<char>::empty() + " -- "@
            + quoted(query) + " ."@,
        !blank(glob) ==> search_command(query, Some(glob), root) == "cd "@ + quoted(root)
            + " && rg --json --max-count 20 --max-columns 300 -S"@ + (" --glob "@ + quoted(glob))
            + " -- "@ + quoted(query) + " ."@,
        stat_command(abs) == "stat -c '%s' -- "@ + quoted(abs) + " 2>/dev/null && head -c 8192 -- "@
            + quoted(abs) + " | base64"@,
{
}

/// A copy goes into the directory on the machine, a download comes from the machine; both through the
/// connection that commands use.
pub proof fn remote_copy_goes_between_the_machines(
    s: RemoteFileSource,
    x: Seq<char>,
    slashes: Seq<char>,
    source: Seq<char>,
    dest: Seq<char>,
)
    requires
        forall|k: int| 0 <= k < slashes.len() ==> #[trigger] slashes[k] == '/',
        x.len() > 0 ==> x.last() != '/',
    ensures
        ({
            let c = s.copying(source, x + slashes);
            let f = s.fetching(source, dest);
            &&& c.0 == "rsync"@ && f.0 == "rsync"@
            &&& c.1.len() == 7 && f.1.len() == 7
            &&& c.1[4] == "--"@ && f.1[4] == "--"@
            &&& c.1[5] == source
            &&& c.1[6] == s.alias@ + ":"@ + x + "/"@
            &&& f.1[5] == s.alias@ + ":"@ + source
            &&& f.1[6] == dest
            &&& c.1[2] == "-e"@ && c.1[1] == "--safe-links"@
            &&& s.uses_user_master ==> c.1[3] == "ssh -T -o BatchMode=yes"@
            &&& !s.uses_user_master ==> c.1[3] == "ssh -T -o BatchMode=yes"@ + " -o ControlPath="@
                + "~/.ssh/ccc-cm-%C"@
            &&& f.1[3] == c.1[3]
        }),
{
    let d = x + slashes;
    if x.len() > 0 {
        assert(d[d.len() - slashes.len() - 1] == x.last());
    }
    crate::text::lemma_trail_is(d, only('/'), slashes.len());
    assert(strip_back(d, only('/')) =~= x);
}

/// Files go over in archive mode and packed, either way.
pub proof fn copies_keep_what_files_are(s: RemoteFileSource, source: Seq<char>, dest: Seq<char>)
    ensures
        s.copying(source, dest).1[0] == "-az"@,
        s.fetching(source, dest).1[0] == "-az"@,
        s.fetching(source, dest).1[1] == "--safe-links"@,
        s.fetching(source, dest).1[2] == "-e"@,
        control_path_option() == "ControlPath="@ + "~/.ssh/ccc-cm-%C"@,
{
}

} // verus!
