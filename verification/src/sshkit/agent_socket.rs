//! The gpg agent's socket on a remote machine: whether the forward to it works, and its repair.
//!
//! A master that ends badly leaves its socket behind; the next master then cannot bind it, or an
//! agent without keys starts on the remote machine and takes it. Before a connection the agent is
//! asked for its name, and where the answer shows that the forward is broken, what was left is
//! removed and the forward asked for again. A master that was found healthy is remembered by its
//! process id, so that it is not asked again and again.

use crate::number::{
    decimal, decimal_round_trip, is_digit, parse_u32, parse_u64, unsigned, unsigned_round_trip,
};
use crate::pathname::{join_path, path_join};
use crate::shell::{quote, quoted};
use crate::split::{
    contains, cut, has, join, joined, lemma_index_is, lines, lines_of, split_once, strip_prefix,
};
use crate::sshkit::exec::ExecOutcome;
use crate::sshkit::forwards::{host_file, pid_nat, sanitized};
use crate::text::{
    chars_of, copy, copy_all, opt_text, same, texts, trim, trimmed, trimming_takes_the_white_ends,
    white,
};
use vstd::prelude::*;

verus! {

/// A forward of a socket on the remote machine to one here.
#[derive(Debug)]
pub struct SocketForward {
    /// Where the remote machine listens.
    pub remote_path: String,
    /// Where it leads here.
    pub local_path: String,
}

/// The two paths of a forward, the remote one first.
pub type SocketView = (Seq<char>, Seq<char>);

impl SocketForward {
    pub open spec fn view(&self) -> SocketView {
        (self.remote_path@, self.local_path@)
    }

    /// The argument of `-R`.
    pub fn to_r_arg(&self) -> (r: String)
        ensures
            r@ == r_arg(self@),
    {
        let mut s: String = copy(self.remote_path.as_str());
        s.append(":");
        s.append(self.local_path.as_str());
        s
    }
}

/// `remote:local`.
pub open spec fn r_arg(f: SocketView) -> Seq<char> {
    f.0 + ":"@ + f.1
}

/// The forwards as text.
pub open spec fn socket_views(v: Seq<SocketForward>) -> Seq<SocketView> {
    Seq::new(v.len(), |i: int| v[i]@)
}

/// The socket forward that a `remoteforward` line names: two paths that begin at the root. A
/// forward of a port is none.
pub open spec fn socket_forward(row: Seq<char>) -> Option<SocketView> {
    if "remoteforward "@.is_prefix_of(row) {
        match cut(trimmed(row.skip("remoteforward "@.len() as int)), ' ') {
            Some((remote, local)) => if remote.len() > 0 && remote[0] == '/' && local.len() > 0
                && local[0] == '/' {
                Some((remote, local))
            } else {
                None
            },
            None => None,
        }
    } else {
        None
    }
}

/// The socket forwards that lines name.
pub open spec fn socket_forwards(rows: Seq<Seq<char>>) -> Seq<SocketView>
    decreases rows.len(),
{
    if rows.len() == 0 {
        seq![]
    } else {
        match socket_forward(rows.last()) {
            Some(f) => socket_forwards(rows.drop_last()).push(f),
            None => socket_forwards(rows.drop_last()),
        }
    }
}

fn at_root(s: &str) -> (r: bool)
    ensures
        r == (s@.len() > 0 && s@[0] == '/'),
{
    let cs: Vec<char> = chars_of(s);
    cs.len() > 0 && cs[0] == '/'
}

/// The socket forwards that the output of `ssh -G` names.
pub fn parse_socket_remote_forwards(ssh_g_output: &str) -> (r: Vec<SocketForward>)
    ensures
        socket_views(r@) == socket_forwards(lines_of(ssh_g_output@)),
{
    let rows: Vec<String> = lines(ssh_g_output);
    let mut out: Vec<SocketForward> = Vec::new();
    let mut i: usize = 0;
    while i < rows.len()
        invariant
            i <= rows@.len(),
            socket_views(out@) == socket_forwards(texts(rows@).take(i as int)),
        decreases rows@.len() - i,
    {
        proof {
            assert(texts(rows@).take(i + 1).drop_last() =~= texts(rows@).take(i as int));
            assert(texts(rows@).take(i + 1).last() == rows@[i as int]@);
        }
        if let Some(rest) = strip_prefix(rows[i].as_str(), "remoteforward ") {
            let t: String = trim(rest.as_str());
            if let Some((remote, local)) = split_once(t.as_str(), ' ') {
                if at_root(remote.as_str()) && at_root(local.as_str()) {
                    let f: SocketForward = SocketForward {
                        remote_path: remote,
                        local_path: local,
                    };
                    let ghost before = out@;
                    out.push(f);
                    assert(socket_views(out@) =~= socket_views(before).push(f@));
                }
            }
        }
        i += 1;
    }
    assert(texts(rows@).take(rows@.len() as int) =~= texts(rows@));
    out
}

/// `s` as one word of a shell.
pub fn shell_single_quote(s: &str) -> (r: String)
    ensures
        r@ == quoted(s@),
{
    quote(s)
}

/// The remote paths, each as one word of a shell.
pub open spec fn remote_words(f: Seq<SocketView>) -> Seq<Seq<char>> {
    Seq::new(f.len(), |i: int| quoted(f[i].0))
}

/// The remote paths as words of a shell, with a space between.
pub fn quoted_remote_paths(forwards: &Vec<SocketForward>) -> (r: String)
    ensures
        r@ == joined(remote_words(socket_views(forwards@)), " "@),
{
    let mut words: Vec<String> = Vec::new();
    let mut i: usize = 0;
    while i < forwards.len()
        invariant
            i <= forwards@.len(),
            words@.len() == i,
            forall|k: int| 0 <= k < i ==> (#[trigger] words@[k])@ == quoted(forwards@[k].remote_path@),
        decreases forwards@.len() - i,
    {
        words.push(shell_single_quote(forwards[i].remote_path.as_str()));
        i += 1;
    }
    assert(texts(words@) =~= remote_words(socket_views(forwards@)));
    join(&words, " ")
}

// ---------------------------------------------------------------- the check

/// What asking the agent showed.
#[derive(Clone, Copy, PartialEq, Eq, Debug, Structural)]
pub enum CheckResult {
    Healthy,
    /// The remote machine has no `gpg-connect-agent`: nothing can be told or repaired.
    NoGpg,
    Broken,
    /// No command could be run there.
    Unreachable,
}

/// The command that asks the agent for its socket. It must start no agent of its own, which would
/// take the socket.
pub const CHECK_COMMAND: &'static str =
    "command -v gpg-connect-agent >/dev/null 2>&1 || exit 9; gpg-connect-agent --no-autostart 'getinfo socket_name' /bye 2>&1";

/// The rest of the first line that begins with `D `, from position `i` on.
pub open spec fn data_line(rows: Seq<Seq<char>>, i: int) -> Option<Seq<char>>
    decreases rows.len() - i,
{
    if i < 0 || i >= rows.len() {
        None
    } else if "D "@.is_prefix_of(rows[i]) {
        Some(rows[i].skip("D "@.len() as int))
    } else {
        data_line(rows, i + 1)
    }
}

/// Whether one of the forwards listens at `path` on the remote machine.
pub open spec fn listens_at(f: Seq<SocketView>, path: Seq<char>) -> bool {
    exists|i: int| 0 <= i < f.len() && (#[trigger] f[i]).0 == path
}

/// What the agent's answer shows. An agent behind a restricted socket forbids the question: the
/// forward works. One that names a path at which the remote machine listens runs there and holds
/// no keys: the forward is broken. Any other answer counts as healthy, since a repair would kill
/// an agent that works.
pub open spec fn agent_reply(reply: Seq<char>, f: Seq<SocketView>) -> CheckResult {
    if has(reply, "Forbidden"@) {
        CheckResult::Healthy
    } else {
        match data_line(lines_of(reply), 0) {
            Some(path) => if listens_at(f, trimmed(path)) {
                CheckResult::Broken
            } else {
                CheckResult::Healthy
            },
            None => CheckResult::Healthy,
        }
    }
}

fn find_data(rows: &Vec<String>) -> (r: Option<String>)
    ensures
        opt_text(r) == data_line(texts(rows@), 0),
{
    let mut i: usize = 0;
    while i < rows.len()
        invariant
            i <= rows@.len(),
            data_line(texts(rows@), i as int) == data_line(texts(rows@), 0),
        decreases rows@.len() - i,
    {
        assert(texts(rows@)[i as int] == rows@[i as int]@);
        if let Some(d) = strip_prefix(rows[i].as_str(), "D ") {
            return Some(d);
        }
        i += 1;
    }
    None
}

fn is_remote_path(forwards: &Vec<SocketForward>, path: &str) -> (r: bool)
    ensures
        r == listens_at(socket_views(forwards@), path@),
{
    let mut i: usize = 0;
    while i < forwards.len()
        invariant
            i <= forwards@.len(),
            forall|k: int|
                0 <= k < i ==> (#[trigger] socket_views(forwards@)[k]).0 != path@,
        decreases forwards@.len() - i,
    {
        assert(socket_views(forwards@)[i as int].0 == forwards@[i as int].remote_path@);
        if same(forwards[i].remote_path.as_str(), path) {
            return true;
        }
        i += 1;
    }
    false
}

/// What the agent's answer shows.
pub fn classify_agent_reply(reply: &str, forwards: &Vec<SocketForward>) -> (r: CheckResult)
    ensures
        r == agent_reply(reply@, socket_views(forwards@)),
{
    if contains(reply, "Forbidden") {
        return CheckResult::Healthy;
    }
    let rows: Vec<String> = lines(reply);
    let path: String = match find_data(&rows) {
        Some(d) => trim(d.as_str()),
        None => {
            return CheckResult::Healthy;
        },
    };
    if is_remote_path(forwards, path.as_str()) {
        CheckResult::Broken
    } else {
        CheckResult::Healthy
    }
}

/// The exit code of a remote command; none where it could not be run, ran over its limit or was
/// ended by a signal.
pub open spec fn remote_code(run: Option<ExecOutcome>) -> Option<i32> {
    match run {
        Some(o) => if o.timed_out {
            None
        } else {
            o.code
        },
        None => None,
    }
}

/// What the run of the check command shows.
pub open spec fn checked(run: Option<ExecOutcome>, f: Seq<SocketView>) -> CheckResult {
    match remote_code(run) {
        None => CheckResult::Unreachable,
        Some(c) => if c == 0 {
            agent_reply(run->0.stdout@, f)
        } else if c == 9 {
            CheckResult::NoGpg
        } else {
            CheckResult::Broken
        },
    }
}

/// What the run of the check command shows.
pub fn check(run: &Option<ExecOutcome>, forwards: &Vec<SocketForward>) -> (r: CheckResult)
    ensures
        r == checked(*run, socket_views(forwards@)),
{
    match run {
        None => CheckResult::Unreachable,
        Some(o) => {
            if o.timed_out {
                return CheckResult::Unreachable;
            }
            match o.code {
                None => CheckResult::Unreachable,
                Some(c) => if c == 0 {
                    classify_agent_reply(o.stdout.as_str(), forwards)
                } else if c == 9 {
                    CheckResult::NoGpg
                } else {
                    CheckResult::Broken
                },
            }
        },
    }
}

/// The arguments that run a command on the remote machine through the master.
pub open spec fn remote_args(base: Seq<Seq<char>>, alias: Seq<char>, cmd: Seq<char>) -> Seq<Seq<char>> {
    base + seq!["-o"@, "BatchMode=yes"@, alias, cmd]
}

/// The arguments that run a command on the remote machine through the master.
pub fn remote_exec_args(base: Vec<String>, host_alias: &str, cmd: &str) -> (r: Vec<String>)
    ensures
        texts(r@) == remote_args(texts(base@), host_alias@, cmd@),
{
    let ghost before = base@;
    let mut args: Vec<String> = base;
    args.push(copy("-o"));
    args.push(copy("BatchMode=yes"));
    args.push(copy(host_alias));
    args.push(copy(cmd));
    assert(texts(args@) =~= remote_args(texts(before), host_alias@, cmd@));
    args
}

/// How the forward to an agent fares.
#[derive(Clone, Copy, PartialEq, Eq, Debug, Structural)]
pub enum ForwardHealth {
    /// The configuration names no forward of a socket.
    NoForward,
    /// The remote machine has no `gpg-connect-agent`.
    NoGpg,
    Healthy,
    Broken,
    /// No command could be run there.
    Unreachable,
}

impl ForwardHealth {
    /// The word for it.
    pub open spec fn slug(self) -> Seq<char> {
        match self {
            ForwardHealth::NoForward => "no_forward"@,
            ForwardHealth::NoGpg => "no_gpg"@,
            ForwardHealth::Healthy => "healthy"@,
            ForwardHealth::Broken => "broken"@,
            ForwardHealth::Unreachable => "unreachable"@,
        }
    }

    /// The word for it.
    pub fn as_slug(self) -> (r: &'static str)
        ensures
            r@ == self.slug(),
    {
        match self {
            ForwardHealth::NoForward => "no_forward",
            ForwardHealth::NoGpg => "no_gpg",
            ForwardHealth::Healthy => "healthy",
            ForwardHealth::Broken => "broken",
            ForwardHealth::Unreachable => "unreachable",
        }
    }
}

/// How a forward fares by what the check showed.
pub open spec fn health_of(c: CheckResult) -> ForwardHealth {
    match c {
        CheckResult::Healthy => ForwardHealth::Healthy,
        CheckResult::NoGpg => ForwardHealth::NoGpg,
        CheckResult::Broken => ForwardHealth::Broken,
        CheckResult::Unreachable => ForwardHealth::Unreachable,
    }
}

/// How the forwards of a host fare. `forwards` is what its configuration names, if that could be
/// had; `base` tells whether the way to the master is known; `run` is the check command's run.
pub fn probe_agent_forward(
    forwards: &Option<Vec<SocketForward>>,
    base: bool,
    run: &Option<ExecOutcome>,
) -> (r: ForwardHealth)
    ensures
        r == match *forwards {
            None => ForwardHealth::Unreachable,
            Some(f) => if f@.len() == 0 {
                ForwardHealth::NoForward
            } else if !base {
                ForwardHealth::Unreachable
            } else {
                health_of(checked(*run, socket_views(f@)))
            },
        },
{
    match forwards {
        None => ForwardHealth::Unreachable,
        Some(f) => {
            if f.len() == 0 {
                return ForwardHealth::NoForward;
            }
            if !base {
                return ForwardHealth::Unreachable;
            }
            match check(run, f) {
                CheckResult::Healthy => ForwardHealth::Healthy,
                CheckResult::NoGpg => ForwardHealth::NoGpg,
                CheckResult::Broken => ForwardHealth::Broken,
                CheckResult::Unreachable => ForwardHealth::Unreachable,
            }
        },
    }
}

/// The word to show for a host: none where nothing was found out or no socket is forwarded.
pub fn get_gpg_forward_status(known: Option<ForwardHealth>) -> (r: Option<String>)
    ensures
        opt_text(r) == match known {
            None => None::<Seq<char>>,
            Some(h) => if h == ForwardHealth::NoForward {
                None
            } else {
                Some(h.slug())
            },
        },
{
    match known {
        None => None,
        Some(ForwardHealth::NoForward) => None,
        Some(h) => Some(copy(h.as_slug())),
    }
}

// ---------------------------------------------------------------- the healthy master

/// For how many seconds a healthy master is trusted, unless set otherwise; 0 trusts none.
pub const DEFAULT_GATE_TTL_SECS: u64 = 300;

/// For how many seconds a remote command may run, unless set otherwise.
pub const DEFAULT_REMOTE_EXEC_TIMEOUT_SECS: u64 = 15;

/// The number that a variable gives, or else a default.
pub open spec fn secs_of(var: Option<Seq<char>>, default: u64) -> u64 {
    match var {
        Some(v) => match unsigned(v, u64::MAX as nat) {
            Some(n) => n as u64,
            None => default,
        },
        None => default,
    }
}

fn read_secs(var: &Option<String>, default: u64) -> (r: u64)
    ensures
        r == secs_of(opt_text(*var), default),
{
    match var {
        Some(v) => match parse_u64(v.as_str()) {
            Some(n) => n,
            None => default,
        },
        None => default,
    }
}

/// For how many seconds a healthy master is trusted, by the value of `CCC_GPG_GATE_TTL`.
pub fn gate_ttl_secs(var: &Option<String>) -> (r: u64)
    ensures
        r == secs_of(opt_text(*var), DEFAULT_GATE_TTL_SECS),
{
    read_secs(var, DEFAULT_GATE_TTL_SECS)
}

/// For how many seconds a remote command may run, by the value of `CCC_SSH_EXEC_TIMEOUT`.
pub fn remote_exec_timeout(var: &Option<String>) -> (r: u64)
    ensures
        r == secs_of(opt_text(*var), DEFAULT_REMOTE_EXEC_TIMEOUT_SECS),
{
    read_secs(var, DEFAULT_REMOTE_EXEC_TIMEOUT_SECS)
}

/// The file that holds the record of a host's healthy master.
pub fn gate_path_in(dir: &str, host_alias: &str) -> (r: String)
    ensures
        r@ == path_join(dir@, sanitized(host_alias@) + ".gpg-ok-pid"@),
{
    join_path(dir, host_file(host_alias, ".gpg-ok-pid").as_str())
}

/// The process id that the record of the healthy master holds.
pub open spec fn gate_pid(content: Option<Seq<char>>) -> Option<nat> {
    match content {
        Some(t) => unsigned(trimmed(t), u32::MAX as nat),
        None => None,
    }
}

/// The master that was last found healthy, however long ago, from what its record holds.
pub fn last_healthy_pid(content: &Option<String>) -> (r: Option<u32>)
    ensures
        pid_nat(r) == gate_pid(opt_text(*content)),
{
    match content {
        Some(t) => parse_u32(trim(t.as_str()).as_str()),
        None => None,
    }
}

/// Whether a record counts: its age must be known and no more than the limit. With a limit of 0
/// none counts.
pub open spec fn gate_counts(age: Option<u64>, ttl: u64) -> bool {
    ttl > 0 && age is Some && age->0 <= ttl
}

/// The master that was found healthy, from what its record holds and the record's age in seconds;
/// none where the record is too old, its age cannot be told or the limit is 0.
pub fn read_gate(content: &Option<String>, age: Option<u64>, ttl: u64) -> (r: Option<u32>)
    ensures
        pid_nat(r) == if gate_counts(age, ttl) {
            gate_pid(opt_text(*content))
        } else {
            None
        },
{
    match age {
        Some(a) => if ttl > 0 && a <= ttl {
            last_healthy_pid(content)
        } else {
            None
        },
        None => None,
    }
}

// ---------------------------------------------------------------- cleaning up

/// The command that removes the sockets that were left behind.
pub open spec fn cleanup_command(f: Seq<SocketView>) -> Seq<char> {
    "rm -f "@ + joined(remote_words(f), " "@)
}

/// The arguments of the connection that removes the sockets that were left behind. It joins no
/// master, starts none and asks for no forward.
pub open spec fn cleanup_args(alias: Seq<char>, f: Seq<SocketView>) -> Seq<Seq<char>> {
    seq![
        "-o"@,
        "BatchMode=yes"@,
        "-o"@,
        "ConnectTimeout=10"@,
        "-o"@,
        "ControlMaster=no"@,
        "-o"@,
        "ControlPath=none"@,
        "-o"@,
        "ClearAllForwardings=yes"@,
        "-o"@,
        "ExitOnForwardFailure=no"@,
        "-o"@,
        "StrictHostKeyChecking=accept-new"@,
        alias,
        cleanup_command(f),
    ]
}

/// The arguments of the connection that removes the sockets that were left behind, before a new
/// master binds them; none where the configuration could not be had or names no socket.
pub fn cleanup_stale_remote_sockets(host_alias: &str, forwards: &Option<Vec<SocketForward>>) -> (r:
    Option<Vec<String>>)
    ensures
        match *forwards {
            None => r is None,
            Some(f) => if f@.len() == 0 {
                r is None
            } else {
                r is Some && texts(r->0@) == cleanup_args(host_alias@, socket_views(f@))
            },
        },
{
    let f: &Vec<SocketForward> = match forwards {
        None => {
            return None;
        },
        Some(f) => f,
    };
    if f.len() == 0 {
        return None;
    }
    let mut cmd: String = copy("rm -f ");
    cmd.append(quoted_remote_paths(f).as_str());
    let args: Vec<String> = vec![
        copy("-o"),
        copy("BatchMode=yes"),
        copy("-o"),
        copy("ConnectTimeout=10"),
        copy("-o"),
        copy("ControlMaster=no"),
        copy("-o"),
        copy("ControlPath=none"),
        copy("-o"),
        copy("ClearAllForwardings=yes"),
        copy("-o"),
        copy("ExitOnForwardFailure=no"),
        copy("-o"),
        copy("StrictHostKeyChecking=accept-new"),
        copy(host_alias),
        cmd,
    ];
    assert(texts(args@) =~= cleanup_args(host_alias@, socket_views(f@)));
    Some(args)
}

/// The command that begins a repair: it ends an agent that runs on the remote machine and removes
/// the sockets.
pub fn repair_command(forwards: &Vec<SocketForward>) -> (r: String)
    ensures
        r@ == "gpgconf --kill gpg-agent 2>/dev/null; rm -f "@ + joined(
            remote_words(socket_views(forwards@)),
            " "@,
        ),
{
    let mut s: String = copy("gpgconf --kill gpg-agent 2>/dev/null; rm -f ");
    s.append(quoted_remote_paths(forwards).as_str());
    s
}

/// The arguments that ask a master to begin (`forward`) or end (`cancel`) the forward of a socket.
pub open spec fn socket_args(
    base: Seq<Seq<char>>,
    op: Seq<char>,
    f: SocketView,
    alias: Seq<char>,
) -> Seq<Seq<char>> {
    base + seq!["-O"@, op, "-R"@, r_arg(f), alias]
}

fn socket_request(base: &Vec<String>, op: &str, f: &SocketForward, host_alias: &str) -> (r: Vec<
    String,
>)
    ensures
        texts(r@) == socket_args(texts(base@), op@, f@, host_alias@),
{
    let mut args: Vec<String> = copy_all(base);
    args.push(copy("-O"));
    args.push(copy(op));
    args.push(copy("-R"));
    args.push(f.to_r_arg());
    args.push(copy(host_alias));
    assert(texts(args@) =~= socket_args(texts(base@), op@, f@, host_alias@));
    args
}

/// The requests of a repair: for each forward first its end, then its beginning.
pub open spec fn repair_requests(base: Seq<Seq<char>>, f: Seq<SocketView>, alias: Seq<char>) -> Seq<
    Seq<Seq<char>>,
>
    decreases f.len(),
{
    if f.len() == 0 {
        seq![]
    } else {
        repair_requests(base, f.drop_last(), alias).push(
            socket_args(base, "cancel"@, f.last(), alias),
        ).push(socket_args(base, "forward"@, f.last(), alias))
    }
}

/// Lists of arguments as text.
pub open spec fn arg_lists(v: Seq<Vec<String>>) -> Seq<Seq<Seq<char>>> {
    Seq::new(v.len(), |i: int| texts(v[i]@))
}

/// The requests that make a master ask for the forwards again. The master itself stays, since
/// terminals share it.
pub fn repair(host_alias: &str, base: &Vec<String>, forwards: &Vec<SocketForward>) -> (r: Vec<
    Vec<String>,
>)
    ensures
        arg_lists(r@) == repair_requests(texts(base@), socket_views(forwards@), host_alias@),
{
    let ghost all = socket_views(forwards@);
    let mut out: Vec<Vec<String>> = Vec::new();
    let mut i: usize = 0;
    while i < forwards.len()
        invariant
            i <= forwards@.len(),
            all == socket_views(forwards@),
            arg_lists(out@) == repair_requests(texts(base@), all.take(i as int), host_alias@),
        decreases forwards@.len() - i,
    {
        proof {
            assert(all.take(i + 1).drop_last() =~= all.take(i as int));
            assert(all.take(i + 1).last() == forwards@[i as int]@);
        }
        let ghost before = out@;
        let cancel: Vec<String> = socket_request(base, "cancel", &forwards[i], host_alias);
        let begin: Vec<String> = socket_request(base, "forward", &forwards[i], host_alias);
        out.push(cancel);
        out.push(begin);
        assert(arg_lists(out@) =~= arg_lists(before).push(texts(cancel@)).push(texts(begin@)));
        i += 1;
    }
    assert(all.take(forwards@.len() as int) =~= all);
    out
}

// ---------------------------------------------------------------- check and repair

/// What is to be done next to see that a host's forward works.
#[derive(Clone, Copy, PartialEq, Eq, Debug, Structural)]
pub enum Step {
    /// Read which sockets the configuration forwards.
    ReadForwards,
    /// Find the way to the master.
    ReadBase,
    /// Ask which master runs.
    ReadPid,
    /// Read which master was found healthy.
    ReadGate { pid: u32 },
    /// Run the check command.
    Check,
    /// Remove what was left behind and ask for the forwards again.
    Repair,
    /// Run the check command once more.
    CheckAgain,
    /// Ask which master was found healthy just now.
    ReadHealthyPid,
    /// Remember the master that was found healthy.
    WriteGate { pid: u32 },
    /// Done; whether the connection can go on as healthy.
    Done { healthy: bool },
}

/// What came of a step.
#[derive(Clone, Copy, PartialEq, Eq, Debug, Structural)]
pub enum Reply {
    /// How many sockets are forwarded; none where the configuration could not be had.
    Forwards(Option<usize>),
    /// Whether the way to the master is known.
    Base(bool),
    /// The master that runs or was found healthy.
    Pid(Option<u32>),
    Checked(CheckResult),
    /// The step was carried out.
    Carried,
}

/// Whether a reply is one to this step.
pub open spec fn answers(at: Step, reply: Reply) -> bool {
    match at {
        Step::ReadForwards => reply is Forwards,
        Step::ReadBase => reply is Base,
        Step::ReadPid => reply is Pid,
        Step::ReadGate { .. } => reply is Pid,
        Step::Check => reply is Checked,
        Step::Repair => reply is Carried,
        Step::CheckAgain => reply is Checked,
        Step::ReadHealthyPid => reply is Pid,
        Step::WriteGate { .. } => reply is Carried,
        Step::Done { .. } => false,
    }
}

/// The step that follows. What cannot be told counts as healthy, so that no connection is held up
/// for it.
pub open spec fn next_step(at: Step, force: bool, reply: Reply) -> Step {
    match (at, reply) {
        (Step::ReadForwards, Reply::Forwards(Some(n))) => if n > 0 {
            Step::ReadBase
        } else {
            Step::Done { healthy: true }
        },
        (Step::ReadBase, Reply::Base(true)) => if force {
            Step::Check
        } else {
            Step::ReadPid
        },
        (Step::ReadPid, Reply::Pid(Some(pid))) => Step::ReadGate { pid },
        (Step::ReadPid, _) => Step::Check,
        (Step::ReadGate { pid }, Reply::Pid(known)) => if known == Some(pid) {
            Step::Done { healthy: true }
        } else {
            Step::Check
        },
        (Step::Check, Reply::Checked(CheckResult::Healthy)) => Step::ReadHealthyPid,
        (Step::Check, Reply::Checked(CheckResult::Broken)) => Step::Repair,
        (Step::Repair, _) => Step::CheckAgain,
        (Step::CheckAgain, Reply::Checked(c)) => if c == CheckResult::Healthy {
            Step::ReadHealthyPid
        } else {
            Step::Done { healthy: false }
        },
        (Step::ReadHealthyPid, Reply::Pid(Some(pid))) => Step::WriteGate { pid },
        _ => Step::Done { healthy: true },
    }
}

/// The step that follows, given what came of this one. With `force` the record is not
/// asked.
pub fn ensure_agent_forward(at: Step, force: bool, reply: Reply) -> (r: Step)
    requires
        answers(at, reply),
    ensures
        r == next_step(at, force, reply),
{
    match (at, reply) {
        (Step::ReadForwards, Reply::Forwards(Some(n))) => if n > 0 {
            Step::ReadBase
        } else {
            Step::Done { healthy: true }
        },
        (Step::ReadBase, Reply::Base(true)) => if force {
            Step::Check
        } else {
            Step::ReadPid
        },
        (Step::ReadPid, Reply::Pid(Some(pid))) => Step::ReadGate { pid },
        (Step::ReadPid, _) => Step::Check,
        (Step::ReadGate { pid }, Reply::Pid(Some(known))) => if known == pid {
            Step::Done { healthy: true }
        } else {
            Step::Check
        },
        (Step::ReadGate { .. }, _) => Step::Check,
        (Step::Check, Reply::Checked(CheckResult::Healthy)) => Step::ReadHealthyPid,
        (Step::Check, Reply::Checked(CheckResult::Broken)) => Step::Repair,
        (Step::Repair, _) => Step::CheckAgain,
        (Step::CheckAgain, Reply::Checked(CheckResult::Healthy)) => Step::ReadHealthyPid,
        (Step::CheckAgain, _) => Step::Done { healthy: false },
        (Step::ReadHealthyPid, Reply::Pid(Some(pid))) => Step::WriteGate { pid },
        _ => Step::Done { healthy: true },
    }
}

/// All that a run can come upon.
pub struct Surroundings {
    /// How many sockets are forwarded; none where the configuration cannot be had.
    pub forwards: Option<usize>,
    /// Whether the way to the master is known.
    pub base: bool,
    /// The master that runs at the start.
    pub pid: Option<u32>,
    /// The master that was found healthy.
    pub known: Option<u32>,
    /// What the check shows.
    pub first: CheckResult,
    /// What the check shows after a repair.
    pub second: CheckResult,
    /// The master that runs at the end.
    pub last_pid: Option<u32>,
}

/// What comes of a step in these surroundings.
pub open spec fn reply_in(w: Surroundings, at: Step) -> Reply {
    match at {
        Step::ReadForwards => Reply::Forwards(w.forwards),
        Step::ReadBase => Reply::Base(w.base),
        Step::ReadPid => Reply::Pid(w.pid),
        Step::ReadGate { .. } => Reply::Pid(w.known),
        Step::Check => Reply::Checked(w.first),
        Step::CheckAgain => Reply::Checked(w.second),
        Step::ReadHealthyPid => Reply::Pid(w.last_pid),
        _ => Reply::Carried,
    }
}

/// How many steps can still follow.
pub open spec fn steps_left(at: Step) -> nat {
    match at {
        Step::ReadForwards => 9,
        Step::ReadBase => 8,
        Step::ReadPid => 7,
        Step::ReadGate { .. } => 6,
        Step::Check => 5,
        Step::Repair => 4,
        Step::CheckAgain => 3,
        Step::ReadHealthyPid => 2,
        Step::WriteGate { .. } => 1,
        Step::Done { .. } => 0,
    }
}

/// Whether a run from `at` on takes the step `goal`.
pub open spec fn visits(at: Step, goal: Step, force: bool, w: Surroundings) -> bool
    decreases steps_left(at),
{
    at == goal || (!(at is Done) && visits(
        next_step(at, force, reply_in(w, at)),
        goal,
        force,
        w,
    ))
}

/// Whether a run from its start takes the step `goal`.
pub open spec fn run_visits(goal: Step, force: bool, w: Surroundings) -> bool {
    visits(Step::ReadForwards, goal, force, w)
}

/// Whether a run comes to ask the agent: a socket is forwarded, the way to the master is known,
/// and no healthy record of the master that runs stops it.
pub open spec fn comes_to_check(force: bool, w: Surroundings) -> bool {
    &&& w.forwards is Some
    &&& w.forwards->0 > 0
    &&& w.base
    &&& force || w.pid is None || w.known != w.pid
}

/// Whether a run ends with a healthy forward that was seen to work.
pub open spec fn seen_healthy(force: bool, w: Surroundings) -> bool {
    comes_to_check(force, w) && (w.first == CheckResult::Healthy || (w.first == CheckResult::Broken
        && w.second == CheckResult::Healthy))
}

/// A run ends, and in one way only: unhealthy exactly where the agent was asked, its answer showed
/// a broken forward, and the check after the repair did not show a healthy one.
pub proof fn run_tells_health(force: bool, w: Surroundings, healthy: bool)
    ensures
        run_visits(Step::Done { healthy }, force, w) <==> healthy != (comes_to_check(force, w)
            && w.first == CheckResult::Broken && w.second != CheckResult::Healthy),
{
    reveal_with_fuel(visits, 11);
}

/// The agent is asked exactly where the run comes to it; a master that was found healthy spares
/// it every remote command, unless that is forced.
pub proof fn gate_spares_the_check(force: bool, w: Surroundings)
    ensures
        run_visits(Step::Check, force, w) <==> comes_to_check(force, w),
{
    reveal_with_fuel(visits, 11);
}

/// With a limit of 0 no record counts, whatever its age, and without a record every run asks the
/// agent, as long as a socket is forwarded and the way to the master is known.
pub proof fn limit_of_zero_checks_always(age: Option<u64>, force: bool, w: Surroundings)
    requires
        w.forwards is Some,
        w.forwards->0 > 0,
        w.base,
        w.known is None,
    ensures
        !gate_counts(age, 0),
        run_visits(Step::Check, force, w),
{
    gate_spares_the_check(force, w);
}

/// A repair takes place exactly where the agent's answer showed a broken forward, since it would
/// end an agent that works.
pub proof fn repair_only_of_the_broken(force: bool, w: Surroundings)
    ensures
        run_visits(Step::Repair, force, w) <==> comes_to_check(force, w) && w.first
            == CheckResult::Broken,
{
    reveal_with_fuel(visits, 11);
}

/// A master is put on record exactly where the check showed a healthy forward and that master
/// runs then.
pub proof fn gate_remembers_the_healthy(force: bool, w: Surroundings, pid: u32)
    ensures
        run_visits(Step::WriteGate { pid }, force, w) <==> seen_healthy(force, w) && w.last_pid
            == Some(pid),
{
    reveal_with_fuel(visits, 11);
}

// ---------------------------------------------------------------- what the check promises

/// A line that forwards a socket to a socket is one such forward: where the remote machine listens, and
/// where it leads; a line with anything else than two paths is none.
pub proof fn socket_line_is_read(remote: Seq<char>, local: Seq<char>)
    requires
        remote.len() > 0,
        local.len() > 0,
        !remote.contains(' '),
        !white(remote[0]),
        !white(local.last()),
    ensures
        remote[0] == '/' && local[0] == '/' ==> socket_forward(
            "remoteforward "@ + (remote + " "@ + local),
        ) == Some((remote, local)),
        remote[0] != '/' || local[0] != '/' ==> socket_forward(
            "remoteforward "@ + (remote + " "@ + local),
        ) is None,
{
    reveal_strlit(" ");
    let v = remote + " "@ + local;
    let row = "remoteforward "@ + v;
    let n = "remoteforward "@.len() as int;
    assert(row.subrange(0, n) =~= "remoteforward "@);
    assert(row.skip(n) =~= v);
    let e = Seq::<char>::empty();
    assert(e + v + e =~= v);
    assert(v[0] == remote[0] && v.last() == local.last());
    trimming_takes_the_white_ends(e, v, e);
    assert forall|k: int| 0 <= k < remote.len() implies #[trigger] v[k] != ' ' by {
        assert(v[k] == remote[k]);
        assert(remote.contains(remote[k]));
    }
    lemma_index_is(v, ' ', remote.len() as int);
    assert(v.take(remote.len() as int) =~= remote);
    assert(v.skip(remote.len() as int + 1) =~= local);
}

/// The forwards of sockets stand in the order of the lines, none lost.
pub proof fn socket_forwards_go_line_by_line(rows: Seq<Seq<char>>, row: Seq<char>)
    ensures
        socket_forward(row) matches Some(f) ==> socket_forwards(rows.push(row)) == socket_forwards(
            rows,
        ).push(f),
        socket_forward(row) is None ==> socket_forwards(rows.push(row)) == socket_forwards(rows),
        socket_forwards(Seq::empty()).len() == 0,
        !"remoteforward "@.is_prefix_of(row) ==> socket_forward(row) is None,
{
    assert(rows.push(row).drop_last() =~= rows);
}

/// An agent that answers from a socket of the remote machine which a forward should listen on has taken
/// its place: the forward is broken. One that refuses to tell, or answers from elsewhere, is ours.
pub proof fn agent_in_the_forwards_place_is_broken(
    reply: Seq<char>,
    f: Seq<SocketView>,
    i: int,
    path: Seq<char>,
    k: int,
)
    requires
        0 <= i < lines_of(reply).len(),
        lines_of(reply)[i] == "D "@ + path,
        forall|q: int| 0 <= q < i ==> !"D "@.is_prefix_of(#[trigger] lines_of(reply)[q]),
    ensures
        !crate::split::has(reply, "Forbidden"@) && (exists|q: int|
            0 <= q < f.len() && (#[trigger] f[q]).0 == trimmed(path)) ==> agent_reply(reply, f)
            == CheckResult::Broken,
        !crate::split::has(reply, "Forbidden"@) && !(exists|q: int|
            0 <= q < f.len() && (#[trigger] f[q]).0 == trimmed(path)) ==> agent_reply(reply, f)
            == CheckResult::Healthy,
        has(reply, "Forbidden"@) ==> agent_reply(reply, f) == CheckResult::Healthy,
{
    lemma_data_line(lines_of(reply), 0, i);
    let row = lines_of(reply)[i];
    let n = "D "@.len() as int;
    assert(row.subrange(0, n) =~= "D "@);
    assert(row.skip(n) =~= path);
}

proof fn lemma_data_line(rows: Seq<Seq<char>>, from: int, i: int)
    requires
        0 <= from <= i < rows.len(),
        "D "@.is_prefix_of(rows[i]) || rows[i] == "D "@ + rows[i].skip("D "@.len() as int),
        forall|q: int| from <= q < i ==> !"D "@.is_prefix_of(#[trigger] rows[q]),
    ensures
        data_line(rows, from) == Some(rows[i].skip("D "@.len() as int)),
    decreases i - from,
{
    if from < i {
        lemma_data_line(rows, from + 1, i);
    } else {
        let n = "D "@.len() as int;
        assert(rows[i].subrange(0, n) =~= "D "@);
    }
}

/// The check tells by how the command ended: no agent program there, no command there, the agent's own
/// answer, or a forward that does not lead to any agent.
pub proof fn check_tells_by_the_code(o: ExecOutcome, f: Seq<SocketView>)
    ensures
        checked(None, f) == CheckResult::Unreachable,
        o.timed_out || o.code is None ==> checked(Some(o), f) == CheckResult::Unreachable,
        !o.timed_out && o.code == Some(0i32) ==> checked(Some(o), f) == agent_reply(o.stdout@, f),
        !o.timed_out && o.code == Some(9i32) ==> checked(Some(o), f) == CheckResult::NoGpg,
        !o.timed_out ==> (o.code matches Some(c) ==> c != 0 && c != 9 ==> checked(Some(o), f)
            == CheckResult::Broken),
{
}

/// What is told of a forward is what the check showed, each by its own word.
pub proof fn health_is_what_the_check_showed(c: CheckResult)
    ensures
        c == CheckResult::Healthy ==> health_of(c).slug() == "healthy"@,
        c == CheckResult::NoGpg ==> health_of(c).slug() == "no_gpg"@,
        c == CheckResult::Broken ==> health_of(c).slug() == "broken"@,
        c == CheckResult::Unreachable ==> health_of(c).slug() == "unreachable"@,
        ForwardHealth::NoForward.slug() == "no_forward"@,
{
}

/// A record of a healthy master is read back as that master, and counts for as long as it may: not at all
/// without a limit, and no longer than it.
pub proof fn record_of_a_master_is_read_back(pid: u32, age: u64, ttl: u64)
    ensures
        gate_pid(Some(decimal(pid as nat))) == Some(pid as nat),
        gate_pid(None) is None,
        gate_counts(Some(age), ttl) <==> 0 < ttl && age <= ttl,
        !gate_counts(None, ttl),
        DEFAULT_GATE_TTL_SECS == 300,
        DEFAULT_REMOTE_EXEC_TIMEOUT_SECS == 15,
        secs_of(Some(decimal(ttl as nat)), age) == ttl,
        secs_of(None, age) == age,
{
    decimal_round_trip(pid as nat);
    unsigned_round_trip(pid as nat, u32::MAX as nat);
    unsigned_round_trip(ttl as nat, u64::MAX as nat);
    let d = decimal(pid as nat);
    let e = Seq::<char>::empty();
    assert(e + d + e =~= d);
    assert(is_digit(d[0]) && is_digit(d[d.len() - 1]));
    trimming_takes_the_white_ends(e, d, e);
}

/// What is removed on the remote machine is every socket that a forward listens on there, each as one
/// word; the connection for it shares nothing and forwards nothing.
pub proof fn every_left_socket_is_removed(alias: Seq<char>, f: Seq<SocketView>, i: int)
    requires
        0 <= i < f.len(),
    ensures
        exists|a: Seq<char>, b: Seq<char>|
            cleanup_command(f) == #[trigger] ("rm -f "@ + (a + quoted(f[i].0) + b)),
        cleanup_args(alias, f).last() == cleanup_command(f),
        cleanup_args(alias, f)[cleanup_args(alias, f).len() - 2] == alias,
        cleanup_args(alias, f).contains("ControlMaster=no"@),
        cleanup_args(alias, f).contains("ControlPath=none"@),
        cleanup_args(alias, f).contains("ClearAllForwardings=yes"@),
        cleanup_args(alias, f).contains("BatchMode=yes"@),
{
    crate::split::joined_holds_each(remote_words(f), " "@, i);
    let (a, b) = choose|a: Seq<char>, b: Seq<char>|
        joined(remote_words(f), " "@) == #[trigger] (a + remote_words(f)[i] + b);
    assert(cleanup_command(f) == "rm -f "@ + (a + quoted(f[i].0) + b));
    let c = cleanup_args(alias, f);
    assert(c[1] == "BatchMode=yes"@);
    assert(c[5] == "ControlMaster=no"@);
    assert(c[7] == "ControlPath=none"@);
    assert(c[9] == "ClearAllForwardings=yes"@);
}

/// A repair ends each forward and asks for it again, one after the other, on the host given.
pub proof fn repair_asks_for_each_forward_again(
    base: Seq<Seq<char>>,
    f: Seq<SocketView>,
    alias: Seq<char>,
    i: int,
)
    requires
        0 <= i < f.len(),
    ensures
        ({
            let r = repair_requests(base, f, alias);
            let arg = f[i].0 + ":"@ + f[i].1;
            &&& r.len() == 2 * f.len()
            &&& r[2 * i] == base + seq!["-O"@, "cancel"@, "-R"@, arg, alias]
            &&& r[2 * i + 1] == base + seq!["-O"@, "forward"@, "-R"@, arg, alias]
        }),
    decreases f.len(),
{
    let d = f.drop_last();
    lemma_repair_len(base, d, alias);
    if i < d.len() {
        repair_asks_for_each_forward_again(base, d, alias, i);
        assert(d[i] == f[i]);
    } else {
        assert(f.last() == f[i]);
    }
}

proof fn lemma_repair_len(base: Seq<Seq<char>>, f: Seq<SocketView>, alias: Seq<char>)
    ensures
        repair_requests(base, f, alias).len() == 2 * f.len(),
    decreases f.len(),
{
    if f.len() > 0 {
        lemma_repair_len(base, f.drop_last(), alias);
    }
}

/// How a run ends: unhealthy only where a socket is forwarded, the way to the master is known, no record
/// spares the check, the check showed a broken forward, and the repair did not help. A repair follows
/// only a broken forward, and a master is put on record only where the forward was seen to work.
pub proof fn run_ends_unhealthy_where_repair_fails(force: bool, w: Surroundings, pid: u32)
    ensures
        ({
            let asks = (w.forwards matches Some(n) && n > 0) && w.base && (force || w.pid is None || w.known
                != w.pid);
            let broken = asks && w.first == CheckResult::Broken;
            let works = asks && (w.first == CheckResult::Healthy || (broken && w.second
                == CheckResult::Healthy));
            &&& run_visits(Step::Done { healthy: false }, force, w) <==> broken && w.second
                != CheckResult::Healthy
            &&& run_visits(Step::Done { healthy: true }, force, w) <==> !(broken && w.second
                != CheckResult::Healthy)
            &&& run_visits(Step::Check, force, w) <==> asks
            &&& run_visits(Step::Repair, force, w) <==> broken
            &&& run_visits(Step::CheckAgain, force, w) <==> broken
            &&& run_visits(Step::WriteGate { pid }, force, w) <==> works && w.last_pid == Some(pid)
        }),
{
    reveal_with_fuel(visits, 11);
}

/// A command on the remote machine goes through the master to the host, without asking; the one of the
/// repair ends the agent there and removes every socket that a forward listens on.
pub proof fn remote_command_goes_to_the_host(
    base: Seq<Seq<char>>,
    alias: Seq<char>,
    cmd: Seq<char>,
    f: &Vec<SocketForward>,
    r: String,
    i: int,
)
    requires
        0 <= i < f@.len(),
        call_ensures(repair_command, (f,), r),
    ensures
        remote_args(base, alias, cmd) == base + seq!["-o"@, "BatchMode=yes"@, alias, cmd],
        "gpgconf --kill gpg-agent 2>/dev/null; rm -f "@.is_prefix_of(r@),
        exists|a: Seq<char>, b: Seq<char>|
            r@ == #[trigger] ("gpgconf --kill gpg-agent 2>/dev/null; rm -f "@ + (a + quoted(
                f@[i].view().0,
            ) + b)),
{
    let words = remote_words(socket_views(f@));
    crate::split::joined_holds_each(words, " "@, i);
    let (a, b) = choose|a: Seq<char>, b: Seq<char>| joined(words, " "@) == #[trigger] (a + words[i] + b);
    let p = "gpgconf --kill gpg-agent 2>/dev/null; rm -f "@;
    assert(r@ == p + (a + quoted(f@[i].view().0) + b));
    assert(r@.subrange(0, p.len() as int) =~= p);
}

/// The master on record is the number there, while the record counts; the one last found healthy is it
/// for good.
pub proof fn record_counts_for_its_time(content: &Option<String>, age: Option<u64>, ttl: u64, r: Option<u32>, last: Option<u32>, pid: u32)
    requires
        call_ensures(read_gate, (content, age, ttl), r),
        call_ensures(last_healthy_pid, (content,), last),
        opt_text(*content) == Some(decimal(pid as nat)),
    ensures
        last == Some(pid),
        age matches Some(s) ==> (0 < ttl && s <= ttl ==> r == Some(pid)),
        age is None || age->0 > ttl || ttl == 0 ==> r is None,
{
    record_of_a_master_is_read_back(pid, 0, ttl);
    if let Some(s) = age {
        record_of_a_master_is_read_back(pid, s, ttl);
    }
}

/// The connection that removes what was left is given every option by its letter: it asks nothing, does
/// not wait long, is no part of a shared one, forwards nothing, and takes a new host's key.
pub proof fn removal_gives_every_option(alias: Seq<char>, f: Seq<SocketView>, i: int)
    requires
        0 <= i < 7,
    ensures
        ({
            let a = cleanup_args(alias, f);
            &&& a.len() == 16
            &&& a[2 * i] == "-o"@
            &&& a[3] == "ConnectTimeout=10"@
            &&& a[11] == "ExitOnForwardFailure=no"@
            &&& a[13] == "StrictHostKeyChecking=accept-new"@
        }),
{
    assert(i == 0 || i == 1 || i == 2 || i == 3 || i == 4 || i == 5 || i == 6);
}

} // verus!
