//! Whether a master is alive, and the way back from one whose connection is dead.
//!
//! A master whose network is gone still answers questions about itself, since those never leave
//! the machine. Only a remote command that comes back shows that it is alive. One that does not
//! is ended and, where the user's configuration keeps the master, started anew.

use crate::number::{
    decimal, decimal_round_trip, is_digit, parse_u64, show_u64, unsigned, unsigned_round_trip,
};
use crate::pathname::{join_path, path_join};
use crate::split::{
    contains, cut, ends_with, has, index_of, lemma_index_is, lemma_index_of, split_once,
    starts_with,
};
use crate::sshkit::agent_socket::secs_of;
use crate::sshkit::exec::ExecOutcome;
use crate::sshkit::forwards::{err_text, host_file, sanitized};
use crate::text::{
    copy, copy_all, lemma_lead_is, lemma_trail_is, opt_text, same, strip_front, texts, trim,
    trimmed, trimming_takes_the_white_ends, white, whites,
};
use vstd::prelude::*;

verus! {

/// What asking a master about itself gave.
#[derive(Clone, Copy, PartialEq, Eq, Debug, Structural)]
pub enum MasterCheck {
    /// There is none.
    NotRunning,
    /// It does not answer.
    Wedged,
    /// It runs.
    Running { pid: Option<u32> },
}

/// Whether a master is alive.
#[derive(Clone, Copy, PartialEq, Eq, Debug, Structural)]
pub enum MasterLiveness {
    /// There is none.
    NoMaster,
    /// A remote command came back.
    Alive { pid: Option<u32> },
    /// It answers, but a remote command does not come back: its connection is dead.
    HalfOpen { pid: Option<u32> },
    /// ssh ended at once with a failure: the server answers, and sessions may be alive.
    SessionRefused { pid: Option<u32> },
    /// It does not answer.
    Wedged,
}

/// What a probe shows. Only one that ran over its limit shows a dead connection: any exit shows
/// that something answered.
pub open spec fn probed(pid: Option<u32>, timed_out: bool, code: Option<i32>) -> MasterLiveness {
    if timed_out {
        MasterLiveness::HalfOpen { pid }
    } else if code == Some(255i32) {
        MasterLiveness::SessionRefused { pid }
    } else {
        MasterLiveness::Alive { pid }
    }
}

/// What a probe shows.
pub fn classify_probe(pid: Option<u32>, timed_out: bool, code: Option<i32>) -> (r: MasterLiveness)
    ensures
        r == probed(pid, timed_out, code),
{
    if timed_out {
        return MasterLiveness::HalfOpen { pid };
    }
    match code {
        Some(c) => if c == 255 {
            MasterLiveness::SessionRefused { pid }
        } else {
            MasterLiveness::Alive { pid }
        },
        None => MasterLiveness::Alive { pid },
    }
}

/// Whether a remote command is to be run: only where a master runs, so that a probe never starts
/// a connection.
pub fn wants_probe(check: Option<MasterCheck>) -> (r: bool)
    ensures
        r == (check is Some && check->0 is Running),
{
    match check {
        Some(MasterCheck::Running { .. }) => true,
        _ => false,
    }
}

/// Whether a master is alive, by its own answer and the run of the probe. Where the probe could
/// not be run nothing is known, and the master is left alone.
pub fn probe_master(check: Option<MasterCheck>, run: &Option<ExecOutcome>) -> (r: MasterLiveness)
    ensures
        r == match check {
            None => MasterLiveness::NoMaster,
            Some(MasterCheck::NotRunning) => MasterLiveness::NoMaster,
            Some(MasterCheck::Wedged) => MasterLiveness::Wedged,
            Some(MasterCheck::Running { pid }) => match *run {
                Some(o) => probed(pid, o.timed_out, o.code),
                None => MasterLiveness::SessionRefused { pid },
            },
        },
{
    match check {
        None => MasterLiveness::NoMaster,
        Some(MasterCheck::NotRunning) => MasterLiveness::NoMaster,
        Some(MasterCheck::Wedged) => MasterLiveness::Wedged,
        Some(MasterCheck::Running { pid }) => match run {
            Some(o) => classify_probe(pid, o.timed_out, o.code),
            None => MasterLiveness::SessionRefused { pid },
        },
    }
}

/// The arguments of a probe. It starts no master of its own.
pub open spec fn probe_args(base: Seq<Seq<char>>, alias: Seq<char>) -> Seq<Seq<char>> {
    base + seq![
        "-o"@,
        "BatchMode=yes"@,
        "-o"@,
        "ControlMaster=no"@,
        "-o"@,
        "ConnectTimeout=10"@,
        alias,
        "true"@,
    ]
}

/// The arguments of a probe.
pub fn probe_command(base: &Vec<String>, host_alias: &str) -> (r: Vec<String>)
    ensures
        texts(r@) == probe_args(texts(base@), host_alias@),
{
    let mut args: Vec<String> = copy_all(base);
    args.push(copy("-o"));
    args.push(copy("BatchMode=yes"));
    args.push(copy("-o"));
    args.push(copy("ControlMaster=no"));
    args.push(copy("-o"));
    args.push(copy("ConnectTimeout=10"));
    args.push(copy(host_alias));
    args.push(copy("true"));
    assert(texts(args@) =~= probe_args(texts(base@), host_alias@));
    args
}

// ---------------------------------------------------------------- ending a master

/// Whether the command line of a process is that of ssh.
pub open spec fn ssh_command(ps: Seq<char>) -> bool {
    let cmd = trimmed(ps);
    ||| cmd == "ssh"@
    ||| "ssh "@.is_prefix_of(cmd)
    ||| "/ssh"@.is_suffix_of(cmd)
    ||| has(cmd, "/ssh "@)
}

/// Whether a process is ssh, by what `ps` printed of its command line.
pub fn pid_is_ssh(ps: &Option<String>) -> (r: bool)
    ensures
        r == match *ps {
            Some(t) => ssh_command(t@),
            None => false,
        },
{
    match ps {
        Some(t) => {
            let cmd: String = trim(t.as_str());
            let c: &str = cmd.as_str();
            same(c, "ssh") || starts_with(c, "ssh ") || ends_with(c, "/ssh") || contains(c, "/ssh ")
        },
        None => false,
    }
}

/// What is to be done next to end a master.
#[derive(Clone, Copy, PartialEq, Eq, Debug, Structural)]
pub enum EndStep {
    /// Ask it to exit.
    AskExit,
    /// Wait for it to be gone after it was asked.
    AwaitExit,
    /// See whether the known process is ssh.
    LookBeforeTerm { pid: u32 },
    /// Send the process the signal to end.
    Term { pid: u32 },
    /// Wait for it to be gone after that signal.
    AwaitTerm { pid: u32 },
    /// See whether the process still is ssh.
    LookBeforeKill { pid: u32 },
    /// Kill it.
    Kill { pid: u32 },
    /// Wait for it to be gone at last.
    AwaitKill,
    /// Done; whether it is gone.
    Done { gone: bool },
}

/// The step that follows. `yes` is what came of this one: that the master is gone, or that the
/// process is ssh. A signal goes to a process only right after it was seen to be ssh.
pub open spec fn next_end(at: EndStep, known: Option<u32>, yes: bool) -> EndStep {
    match at {
        EndStep::AskExit => EndStep::AwaitExit,
        EndStep::AwaitExit => if yes {
            EndStep::Done { gone: true }
        } else {
            match known {
                Some(pid) => EndStep::LookBeforeTerm { pid },
                None => EndStep::Done { gone: false },
            }
        },
        EndStep::LookBeforeTerm { pid } => if yes {
            EndStep::Term { pid }
        } else {
            EndStep::Done { gone: false }
        },
        EndStep::Term { pid } => EndStep::AwaitTerm { pid },
        EndStep::AwaitTerm { pid } => if yes {
            EndStep::Done { gone: true }
        } else {
            EndStep::LookBeforeKill { pid }
        },
        EndStep::LookBeforeKill { pid } => if yes {
            EndStep::Kill { pid }
        } else {
            EndStep::AwaitKill
        },
        EndStep::Kill { .. } => EndStep::AwaitKill,
        EndStep::AwaitKill => EndStep::Done { gone: yes },
        EndStep::Done { .. } => at,
    }
}

/// The step that follows in ending a master whose process id may be known.
pub fn teardown_master(at: EndStep, known_pid: Option<u32>, yes: bool) -> (r: EndStep)
    ensures
        r == next_end(at, known_pid, yes),
{
    match at {
        EndStep::AskExit => EndStep::AwaitExit,
        EndStep::AwaitExit => if yes {
            EndStep::Done { gone: true }
        } else {
            match known_pid {
                Some(pid) => EndStep::LookBeforeTerm { pid },
                None => EndStep::Done { gone: false },
            }
        },
        EndStep::LookBeforeTerm { pid } => if yes {
            EndStep::Term { pid }
        } else {
            EndStep::Done { gone: false }
        },
        EndStep::Term { pid } => EndStep::AwaitTerm { pid },
        EndStep::AwaitTerm { pid } => if yes {
            EndStep::Done { gone: true }
        } else {
            EndStep::LookBeforeKill { pid }
        },
        EndStep::LookBeforeKill { pid } => if yes {
            EndStep::Kill { pid }
        } else {
            EndStep::AwaitKill
        },
        EndStep::Kill { .. } => EndStep::AwaitKill,
        EndStep::AwaitKill => EndStep::Done { gone: yes },
        EndStep::Done { .. } => at,
    }
}

/// A signal goes only to a process that the step before saw to be ssh.
pub proof fn signals_go_to_ssh_only(at: EndStep, known: Option<u32>, yes: bool, pid: u32)
    requires
        !(at is Done),
    ensures
        next_end(at, known, yes) == (EndStep::Term { pid }) ==> yes && at
            == (EndStep::LookBeforeTerm { pid }),
        next_end(at, known, yes) == (EndStep::Kill { pid }) ==> yes && at
            == (EndStep::LookBeforeKill { pid }),
{
}

/// A master counts as gone only where the last step saw that it is, and no signal is sent to a
/// process other than the known one.
pub proof fn gone_is_seen(at: EndStep, known: Option<u32>, yes: bool)
    requires
        !(at is Done),
    ensures
        next_end(at, known, yes) == (EndStep::Done { gone: true }) ==> yes && (at is AwaitExit
            || at is AwaitTerm || at is AwaitKill),
        next_end(at, known, yes) matches EndStep::LookBeforeTerm { pid } ==> known == Some(pid),
{
}

// ---------------------------------------------------------------- starting a master anew

/// The arguments that start a master by the user's configuration, in the background. It never
/// asks for a password, ends where a forward cannot be had, and keeps itself alive where the
/// configuration does not say how.
pub open spec fn restart_args(alias: Seq<char>, alive_interval: Option<u64>) -> Seq<Seq<char>> {
    let first = seq![
        "-N"@,
        "-f"@,
        "-o"@,
        "BatchMode=yes"@,
        "-o"@,
        "ConnectTimeout=10"@,
        "-o"@,
        "ExitOnForwardFailure=yes"@,
        "-o"@,
        "StrictHostKeyChecking=accept-new"@,
    ];
    let keep = if alive_interval is Some && alive_interval->0 != 0 {
        seq![]
    } else {
        seq!["-o"@, "ServerAliveInterval=15"@, "-o"@, "ServerAliveCountMax=3"@]
    };
    (first + keep).push(alias)
}

/// The arguments that start a master by the user's configuration.
pub fn restart_command(host_alias: &str, alive_interval: Option<u64>) -> (r: Vec<String>)
    ensures
        texts(r@) == restart_args(host_alias@, alive_interval),
{
    let mut args: Vec<String> = vec![
        copy("-N"),
        copy("-f"),
        copy("-o"),
        copy("BatchMode=yes"),
        copy("-o"),
        copy("ConnectTimeout=10"),
        copy("-o"),
        copy("ExitOnForwardFailure=yes"),
        copy("-o"),
        copy("StrictHostKeyChecking=accept-new"),
    ];
    let set: bool = match alive_interval {
        Some(n) => n != 0,
        None => false,
    };
    if !set {
        args.push(copy("-o"));
        args.push(copy("ServerAliveInterval=15"));
        args.push(copy("-o"));
        args.push(copy("ServerAliveCountMax=3"));
    }
    args.push(copy(host_alias));
    assert(texts(args@) =~= restart_args(host_alias@, alive_interval));
    args
}

/// What came of starting a master.
pub open spec fn restarted(run: Result<ExecOutcome, String>) -> Result<(), Seq<char>> {
    match run {
        Err(e) => Err("ssh の起動に失敗: "@ + e@),
        Ok(o) => if o.succeeded() {
            Ok(())
        } else if o.timed_out {
            Err(
                "ssh -N -f が 30 秒以内に完了しませんでした（ネットワーク未復旧の可能性）"@,
            )
        } else {
            Err(
                "ssh -N -f が失敗しました（対話認証が必要な構成では BatchMode により失敗します）: "@
                    + trimmed(o.stderr@),
            )
        },
    }
}

/// What came of starting a master by the user's configuration.
pub fn reestablish_user_cm_master(run: Result<ExecOutcome, String>) -> (r: Result<(), String>)
    ensures
        err_text(r) == restarted(run),
{
    match run {
        Err(e) => {
            let mut s: String = copy("ssh の起動に失敗: ");
            s.append(e.as_str());
            Err(s)
        },
        Ok(o) => {
            if o.success() {
                return Ok(());
            }
            if o.timed_out {
                return Err(
                    copy(
                        "ssh -N -f が 30 秒以内に完了しませんでした（ネットワーク未復旧の可能性）",
                    ),
                );
            }
            let mut s: String = copy(
                "ssh -N -f が失敗しました（対話認証が必要な構成では BatchMode により失敗します）: ",
            );
            s.append(trim(o.stderr.as_str()).as_str());
            Err(s)
        },
    }
}

// ---------------------------------------------------------------- the lock

/// The lock that one process holds while it ends a master and starts it anew: a file that is
/// there.
#[derive(Debug)]
pub struct RebuildLock {
    /// The file.
    pub path: String,
}

/// After how many seconds a lock counts as left behind.
pub const LOCK_STALE_SECS: u64 = 120;

/// The lock of a host.
pub fn rebuild_lock_in(dir: &str, host_alias: &str) -> (r: RebuildLock)
    ensures
        r.path@ == path_join(dir@, sanitized(host_alias@) + ".rebuild-lock"@),
{
    RebuildLock { path: join_path(dir, host_file(host_alias, ".rebuild-lock").as_str()) }
}

/// What came of an attempt to make a lock's file.
#[derive(Clone, Copy, PartialEq, Eq, Debug, Structural)]
pub enum LockTry {
    /// It was made.
    Made,
    /// It is there already; its age in seconds, if that can be told.
    There { age: Option<u64> },
    /// It could not be made.
    Failed,
}

/// What is to be done after an attempt.
#[derive(Clone, Copy, PartialEq, Eq, Debug, Structural)]
pub enum LockMove {
    /// The lock is held.
    Held,
    /// Another process holds it.
    GiveUp,
    /// Remove the file that was left behind, and try again.
    TakeOver,
    /// Remove the file that was left behind, and give up.
    RemoveAndGiveUp,
}

/// Whether a lock's file was left behind.
pub open spec fn left_behind(age: Option<u64>) -> bool {
    age is Some && age->0 > LOCK_STALE_SECS
}

/// What is to be done after an attempt; there are two at most.
pub fn acquire_rebuild_lock(last: bool, tried: LockTry) -> (r: LockMove)
    ensures
        r == match tried {
            LockTry::Made => LockMove::Held,
            LockTry::Failed => LockMove::GiveUp,
            LockTry::There { age } => if !left_behind(age) {
                LockMove::GiveUp
            } else if last {
                LockMove::RemoveAndGiveUp
            } else {
                LockMove::TakeOver
            },
        },
{
    match tried {
        LockTry::Made => LockMove::Held,
        LockTry::Failed => LockMove::GiveUp,
        LockTry::There { age } => {
            let stale: bool = match age {
                Some(a) => a > LOCK_STALE_SECS,
                None => false,
            };
            if !stale {
                LockMove::GiveUp
            } else if last {
                LockMove::RemoveAndGiveUp
            } else {
                LockMove::TakeOver
            }
        },
    }
}

// ---------------------------------------------------------------- the cooldown

/// For how many seconds no master is started after a failure, unless set otherwise.
pub const DEFAULT_FAIL_COOLDOWN_SECS: u64 = 600;

/// For how many seconds no master is started after a success.
pub const SUCCESS_COOLDOWN_SECS: u64 = 120;

/// For how many seconds no master is started after a failure, by the value of
/// `CCC_REBUILD_COOLDOWN`.
pub fn fail_cooldown_secs(var: &Option<String>) -> (r: u64)
    ensures
        r == secs_of(opt_text(*var), DEFAULT_FAIL_COOLDOWN_SECS),
{
    match var {
        Some(v) => match parse_u64(v.as_str()) {
            Some(n) => n,
            None => DEFAULT_FAIL_COOLDOWN_SECS,
        },
        None => DEFAULT_FAIL_COOLDOWN_SECS,
    }
}

/// The file that tells of the last start of a host's master.
pub fn cooldown_path_in(dir: &str, host_alias: &str) -> (r: String)
    ensures
        r@ == path_join(dir@, sanitized(host_alias@) + ".rebuild-cooldown"@),
{
    join_path(dir, host_file(host_alias, ".rebuild-cooldown").as_str())
}

/// The seconds in which no master is started, as the file's content tells: `<time> ok` or
/// `<time> fail`.
pub open spec fn cooling(content: Seq<char>, fail_window: u64, now: u64) -> Option<nat> {
    match cut(trimmed(content), ' ') {
        Some((ts, result)) => match unsigned(ts, u64::MAX as nat) {
            Some(t) => {
                let until = t + if result == "ok"@ {
                    SUCCESS_COOLDOWN_SECS
                } else {
                    fail_window
                };
                if until <= u64::MAX && until > now {
                    Some((until - now) as nat)
                } else {
                    None
                }
            },
            None => None,
        },
        None => None,
    }
}

/// The seconds in which no master is started yet.
pub fn cooldown_remaining_in(content: &Option<String>, fail_window: u64, now_epoch: u64) -> (r: Option<
    u64,
>)
    ensures
        match r {
            Some(n) => *content is Some && cooling(content->0@, fail_window, now_epoch) == Some(
                n as nat,
            ),
            None => *content is Some ==> cooling(content->0@, fail_window, now_epoch) is None,
        },
{
    let text: String = match content {
        Some(t) => trim(t.as_str()),
        None => {
            return None;
        },
    };
    let (ts, result): (String, String) = match split_once(text.as_str(), ' ') {
        Some(p) => p,
        None => {
            return None;
        },
    };
    let t: u64 = match parse_u64(ts.as_str()) {
        Some(n) => n,
        None => {
            return None;
        },
    };
    let window: u64 = if same(result.as_str(), "ok") {
        SUCCESS_COOLDOWN_SECS
    } else {
        fail_window
    };
    match t.checked_add(window) {
        Some(until) => if until > now_epoch {
            Some(until - now_epoch)
        } else {
            None
        },
        None => None,
    }
}

/// What is written down of a start.
pub open spec fn attempt_text(now: u64, success: bool) -> Seq<char> {
    decimal(now as nat) + if success {
        " ok"@
    } else {
        " fail"@
    }
}

/// What is written down of a start.
pub fn record_rebuild_attempt(now: u64, success: bool) -> (r: String)
    ensures
        r@ == attempt_text(now, success),
{
    let mut s: String = show_u64(now);
    if success {
        s.append(" ok");
    } else {
        s.append(" fail");
    }
    s
}

proof fn lemma_untrimmed(s: Seq<char>)
    requires
        s.len() > 0,
        !white(s[0]),
        !white(s.last()),
    ensures
        trimmed(s) == s,
{
    lemma_lead_is(s, whites(), 0);
    assert(s.skip(0) =~= s);
    lemma_trail_is(s, whites(), 0);
    assert(s.take(s.len() as int) =~= s);
}

/// After a start no other is made for as long as its outcome demands: the whole window long, and
/// no longer.
pub proof fn recorded_attempt_is_waited_for(
    started: u64,
    success: bool,
    fail_window: u64,
    now: u64,
)
    ensures
        ({
            let until = started + if success {
                SUCCESS_COOLDOWN_SECS
            } else {
                fail_window
            };
            cooling(attempt_text(started, success), fail_window, now) == if until <= u64::MAX
                && until > now {
                Some((until - now) as nat)
            } else {
                None::<nat>
            }
        }),
{
    reveal_strlit(" ok");
    reveal_strlit(" fail");
    reveal_strlit("ok");
    let d = decimal(started as nat);
    let t = attempt_text(started, success);
    decimal_round_trip(started as nat);
    unsigned_round_trip(started as nat, u64::MAX as nat);
    assert(is_digit(d[0]));
    assert(t[0] == d[0]);
    lemma_untrimmed(t);
    assert forall|k: int| 0 <= k < d.len() implies #[trigger] t[k] != ' ' by {
        assert(is_digit(d[k]));
        assert(t[k] == d[k]);
    }
    lemma_index_is(t, ' ', d.len() as int);
    assert(t.take(d.len() as int) =~= d);
    if success {
        assert(t.skip(d.len() as int + 1) =~= "ok"@);
    } else {
        assert(t.skip(d.len() as int + 1)[0] == 'f');
    }
}

// ---------------------------------------------------------------- recovery

/// What is to be done next to recover from a dead connection.
#[derive(Clone, Copy, PartialEq, Eq, Debug, Structural)]
pub enum RecoverStep {
    /// Take the lock.
    Lock,
    /// See again whether the master is alive.
    Probe,
    /// Read which master was last found healthy.
    ReadHealthyPid,
    /// End the master.
    End { pid: Option<u32> },
    /// Read how long no master is to be started yet.
    ReadCooldown,
    /// Start a master.
    Start,
    /// Write down how that went.
    Record { success: bool },
    /// Done; whether the recovery went through.
    Done { recovered: bool },
}

/// What came of a step.
#[derive(Clone, Copy, PartialEq, Eq, Debug, Structural)]
pub enum RecoverReply {
    /// Whether it went well: the lock is held, the master is gone, or a master was started.
    Went(bool),
    Liveness(MasterLiveness),
    Pid(Option<u32>),
    /// The seconds to wait yet, if any.
    Wait(Option<u64>),
}

/// Whether a reply is one to this step.
pub open spec fn recover_answers(at: RecoverStep, reply: RecoverReply) -> bool {
    match at {
        RecoverStep::Lock => reply is Went,
        RecoverStep::Probe => reply is Liveness,
        RecoverStep::ReadHealthyPid => reply is Pid,
        RecoverStep::End { .. } => reply is Went,
        RecoverStep::ReadCooldown => reply is Wait,
        RecoverStep::Start => reply is Went,
        RecoverStep::Record { .. } => reply is Went,
        RecoverStep::Done { .. } => false,
    }
}

/// What follows once there is no master.
pub open spec fn after_end(reestablish: bool) -> RecoverStep {
    if reestablish {
        RecoverStep::ReadCooldown
    } else {
        RecoverStep::Done { recovered: true }
    }
}

/// The step that follows.
pub open spec fn next_recover(at: RecoverStep, reestablish: bool, reply: RecoverReply) -> RecoverStep {
    match (at, reply) {
        (RecoverStep::Lock, RecoverReply::Went(true)) => RecoverStep::Probe,
        (RecoverStep::Probe, RecoverReply::Liveness(l)) => match l {
            MasterLiveness::Alive { .. } => RecoverStep::Done { recovered: true },
            MasterLiveness::NoMaster => after_end(reestablish),
            MasterLiveness::SessionRefused { .. } => RecoverStep::Done { recovered: false },
            MasterLiveness::HalfOpen { pid } => RecoverStep::End { pid },
            MasterLiveness::Wedged => RecoverStep::ReadHealthyPid,
        },
        (RecoverStep::ReadHealthyPid, RecoverReply::Pid(pid)) => RecoverStep::End { pid },
        (RecoverStep::End { .. }, RecoverReply::Went(true)) => after_end(reestablish),
        (RecoverStep::ReadCooldown, RecoverReply::Wait(None)) => RecoverStep::Start,
        (RecoverStep::Start, RecoverReply::Went(success)) => RecoverStep::Record { success },
        (RecoverStep::Record { success }, _) => RecoverStep::Done { recovered: success },
        _ => RecoverStep::Done { recovered: false },
    }
}

/// The step that follows, given what came of this one. Without `reestablish` the recovery ends
/// once the dead master is gone.
pub fn recover_half_open(at: RecoverStep, reestablish: bool, reply: RecoverReply) -> (r: RecoverStep)
    requires
        recover_answers(at, reply),
    ensures
        r == next_recover(at, reestablish, reply),
{
    let rest: RecoverStep = if reestablish {
        RecoverStep::ReadCooldown
    } else {
        RecoverStep::Done { recovered: true }
    };
    match (at, reply) {
        (RecoverStep::Lock, RecoverReply::Went(true)) => RecoverStep::Probe,
        (RecoverStep::Probe, RecoverReply::Liveness(l)) => match l {
            MasterLiveness::Alive { .. } => RecoverStep::Done { recovered: true },
            MasterLiveness::NoMaster => rest,
            MasterLiveness::SessionRefused { .. } => RecoverStep::Done { recovered: false },
            MasterLiveness::HalfOpen { pid } => RecoverStep::End { pid },
            MasterLiveness::Wedged => RecoverStep::ReadHealthyPid,
        },
        (RecoverStep::ReadHealthyPid, RecoverReply::Pid(pid)) => RecoverStep::End { pid },
        (RecoverStep::End { .. }, RecoverReply::Went(true)) => rest,
        (RecoverStep::ReadCooldown, RecoverReply::Wait(None)) => RecoverStep::Start,
        (RecoverStep::Start, RecoverReply::Went(success)) => RecoverStep::Record { success },
        (RecoverStep::Record { success }, _) => RecoverStep::Done { recovered: success },
        _ => RecoverStep::Done { recovered: false },
    }
}

/// All that a recovery can come upon.
pub struct Circumstances {
    /// Whether the lock can be had.
    pub lock: bool,
    /// Whether the master is alive.
    pub liveness: MasterLiveness,
    /// The master that was last found healthy.
    pub healthy: Option<u32>,
    /// Whether the master can be ended.
    pub ends: bool,
    /// The seconds to wait yet, if any.
    pub wait: Option<u64>,
    /// Whether a master can be started.
    pub starts: bool,
}

/// What comes of a step in these circumstances.
pub open spec fn recover_reply(c: Circumstances, at: RecoverStep) -> RecoverReply {
    match at {
        RecoverStep::Lock => RecoverReply::Went(c.lock),
        RecoverStep::Probe => RecoverReply::Liveness(c.liveness),
        RecoverStep::ReadHealthyPid => RecoverReply::Pid(c.healthy),
        RecoverStep::End { .. } => RecoverReply::Went(c.ends),
        RecoverStep::ReadCooldown => RecoverReply::Wait(c.wait),
        RecoverStep::Start => RecoverReply::Went(c.starts),
        _ => RecoverReply::Went(true),
    }
}

/// How many steps can still follow.
pub open spec fn recover_left(at: RecoverStep) -> nat {
    match at {
        RecoverStep::Lock => 7,
        RecoverStep::Probe => 6,
        RecoverStep::ReadHealthyPid => 5,
        RecoverStep::End { .. } => 4,
        RecoverStep::ReadCooldown => 3,
        RecoverStep::Start => 2,
        RecoverStep::Record { .. } => 1,
        RecoverStep::Done { .. } => 0,
    }
}

/// Whether a recovery from `at` on takes the step `goal`.
pub open spec fn recovers_by(
    at: RecoverStep,
    goal: RecoverStep,
    reestablish: bool,
    c: Circumstances,
) -> bool
    decreases recover_left(at),
{
    at == goal || (!(at is Done) && recovers_by(
        next_recover(at, reestablish, recover_reply(c, at)),
        goal,
        reestablish,
        c,
    ))
}

/// Whether a recovery from its start takes the step `goal`.
pub open spec fn recovery_takes(goal: RecoverStep, reestablish: bool, c: Circumstances) -> bool {
    recovers_by(RecoverStep::Lock, goal, reestablish, c)
}

/// Whether a master's connection is dead.
pub open spec fn is_dead(l: MasterLiveness) -> bool {
    l is HalfOpen || l is Wedged
}

/// Whether there is no master once a recovery has got so far: there was none, or a dead one was
/// ended.
pub open spec fn cleared(c: Circumstances) -> bool {
    c.lock && (c.liveness is NoMaster || (is_dead(c.liveness) && c.ends))
}

/// A master is ended exactly where the lock is held and its connection is dead, so that one with
/// sessions that may be alive is never ended. The process is the one the master named itself or,
/// where it did not answer, the one last found healthy.
pub proof fn only_the_dead_are_ended(reestablish: bool, c: Circumstances, pid: Option<u32>)
    ensures
        recovery_takes(RecoverStep::End { pid }, reestablish, c) <==> c.lock && (c.liveness == (
        MasterLiveness::HalfOpen { pid }) || (c.liveness == MasterLiveness::Wedged && c.healthy
            == pid)),
{
    reveal_with_fuel(recovers_by, 9);
}

/// A master is started exactly where one is wanted, there is none any more, and nothing is to be
/// waited for.
pub proof fn start_waits_for_the_cooldown(reestablish: bool, c: Circumstances)
    ensures
        recovery_takes(RecoverStep::Start, reestablish, c) <==> reestablish && cleared(c) && c.wait
            is None,
{
    reveal_with_fuel(recovers_by, 9);
}

/// A recovery goes through exactly where the master turns out alive or, with no master left, a new
/// one is not wanted or was started.
pub proof fn recovery_goes_through(reestablish: bool, c: Circumstances, recovered: bool)
    ensures
        recovery_takes(RecoverStep::Done { recovered }, reestablish, c) <==> recovered == (c.lock
            && (c.liveness is Alive || (cleared(c) && (!reestablish || (c.wait is None
            && c.starts))))),
{
    reveal_with_fuel(recovers_by, 9);
}

// ---------------------------------------------------------------- what ending and starting promise

/// A master whose remote command does not come back in time is half open, one whose ssh fails at once
/// refuses sessions, and every other is alive; it is the same master in each case.
pub proof fn probe_tells_by_time_and_code(pid: Option<u32>, timed_out: bool, code: Option<i32>)
    ensures
        timed_out ==> probed(pid, timed_out, code) == (MasterLiveness::HalfOpen { pid }),
        !timed_out && code == Some(255i32) ==> probed(pid, timed_out, code)
            == (MasterLiveness::SessionRefused { pid }),
        !timed_out && code != Some(255i32) ==> probed(pid, timed_out, code)
            == (MasterLiveness::Alive { pid }),
{
}

/// A probe runs nothing but `true` on the host, through the master that is there and none that it would
/// start.
pub proof fn probe_runs_true_on_the_host(base: Seq<Seq<char>>, alias: Seq<char>)
    ensures
        ({
            let a = probe_args(base, alias);
            let n = base.len() as int;
            &&& a.len() == n + 8
            &&& a.take(n) == base
            &&& a[n + 1] == "BatchMode=yes"@ && a[n + 3] == "ControlMaster=no"@ && a[n + 5]
                == "ConnectTimeout=10"@
            &&& a[n + 6] == alias && a[n + 7] == "true"@
        }),
{
    assert(probe_args(base, alias).take(base.len() as int) =~= base);
}

/// A process is ssh where its program is called `ssh`, in whatever directory and with whatever arguments;
/// one whose command is another word is not.
pub proof fn ssh_is_told_by_its_name(dir: Seq<char>, args: Seq<char>, word: Seq<char>)
    requires
        args.len() > 0 ==> !white(args.last()),
        dir.len() > 0 ==> !white(dir[0]),
    ensures
        ssh_command("ssh"@),
        args.len() > 0 ==> ssh_command("ssh "@ + args),
        ssh_command(dir + "/ssh"@),
        args.len() > 0 ==> ssh_command(dir + "/ssh "@ + args),
        word.len() > 0 && word != "ssh"@ && !word.contains('/') && (forall|k: int|
            0 <= k < word.len() ==> !white(#[trigger] word[k])) ==> !ssh_command(word),
{
    reveal_strlit("ssh");
    reveal_strlit("ssh ");
    reveal_strlit("/ssh");
    reveal_strlit("/ssh ");
    let e = Seq::<char>::empty();
    let a = "ssh"@;
    assert(e + a + e =~= a);
    assert(!white(a[0]) && !white(a.last()));
    trimming_takes_the_white_ends(e, a, e);
    let c = dir + "/ssh"@;
    assert(e + c + e =~= c);
    assert(!white('/'));
    assert(c[0] == if dir.len() > 0 {
        dir[0]
    } else {
        '/'
    });
    assert(c.last() == 'h');
    trimming_takes_the_white_ends(e, c, e);
    assert(c.subrange(c.len() - 4, c.len() as int) =~= "/ssh"@);
    if args.len() > 0 {
        let b = "ssh "@ + args;
        assert(e + b + e =~= b);
        assert(b[0] == 's' && b.last() == args.last());
        trimming_takes_the_white_ends(e, b, e);
        assert(b.subrange(0, 4) =~= "ssh "@);
        let d = dir + "/ssh "@ + args;
        assert(e + d + e =~= d);
        assert(d[0] == if dir.len() > 0 {
            dir[0]
        } else {
            '/'
        });
        assert(d.last() == args.last());
        trimming_takes_the_white_ends(e, d, e);
        let t = d.skip(dir.len() as int);
        assert(t.subrange(0, 5) =~= "/ssh "@);
        assert("/ssh "@.is_prefix_of(t));
    }
    if word.len() > 0 && word != "ssh"@ && !word.contains('/') && (forall|k: int|
        0 <= k < word.len() ==> !white(#[trigger] word[k])) {
        assert(e + word + e =~= word);
        assert(!white(word[0]) && !white(word[word.len() - 1]));
        trimming_takes_the_white_ends(e, word, e);
        if "ssh "@.is_prefix_of(word) {
            assert(word.subrange(0, 4)[3] == word[3]);
            assert(white(' '));
            assert(!white(word[3]));
        }
        if "/ssh"@.is_suffix_of(word) {
            assert(word.subrange(word.len() - 4, word.len() as int)[0] == word[word.len() - 4]);
            assert(word.contains(word[word.len() - 4]));
        }
        if has(word, "/ssh "@) {
            let i = choose|i: int|
                0 <= i <= word.len() && #[trigger] "/ssh "@.is_prefix_of(word.skip(i));
            assert(word.skip(i).subrange(0, 5)[0] == word[i]);
            assert(word.contains(word[i]));
        }
    }
}

/// All that ending a master can come upon.
pub struct EndWorld {
    /// The process that is known as the master.
    pub known: Option<u32>,
    /// Whether it goes when it is asked.
    pub exits: bool,
    /// Whether the process is ssh.
    pub is_ssh: bool,
    /// Whether it goes at the signal to end.
    pub terminates: bool,
    /// Whether the process still is ssh then.
    pub still_ssh: bool,
    /// Whether it is gone at last.
    pub gone_at_last: bool,
}

/// What comes of a step in this world.
pub open spec fn end_reply(w: EndWorld, at: EndStep) -> bool {
    match at {
        EndStep::AwaitExit => w.exits,
        EndStep::LookBeforeTerm { .. } => w.is_ssh,
        EndStep::AwaitTerm { .. } => w.terminates,
        EndStep::LookBeforeKill { .. } => w.still_ssh,
        EndStep::AwaitKill => w.gone_at_last,
        _ => true,
    }
}

/// How many steps can still follow.
pub open spec fn end_left(at: EndStep) -> nat {
    match at {
        EndStep::AskExit => 8,
        EndStep::AwaitExit => 7,
        EndStep::LookBeforeTerm { .. } => 6,
        EndStep::Term { .. } => 5,
        EndStep::AwaitTerm { .. } => 4,
        EndStep::LookBeforeKill { .. } => 3,
        EndStep::Kill { .. } => 2,
        EndStep::AwaitKill => 1,
        EndStep::Done { .. } => 0,
    }
}

/// Whether a run from `at` on takes the step `goal`.
pub open spec fn ends_by(at: EndStep, goal: EndStep, w: EndWorld) -> bool
    decreases end_left(at),
{
    at == goal || (!(at is Done) && ends_by(next_end(at, w.known, end_reply(w, at)), goal, w))
}

/// A master is asked to exit first; it gets the signal to end only where it stays and its process is known
/// and ssh, and is killed only where it stays even then and still is ssh.
pub proof fn master_is_asked_before_it_is_killed(w: EndWorld, pid: u32)
    ensures
        ends_by(EndStep::AskExit, EndStep::Term { pid }, w) <==> !w.exits && w.known == Some(pid)
            && w.is_ssh,
        ends_by(EndStep::AskExit, EndStep::Kill { pid }, w) <==> !w.exits && w.known == Some(pid)
            && w.is_ssh && !w.terminates && w.still_ssh,
{
    reveal_with_fuel(ends_by, 10);
}

/// A run tells that the master is gone exactly where it was seen to be gone: after it was asked, after the
/// signal, or at last.
pub proof fn ending_tells_whether_it_is_gone(w: EndWorld, gone: bool)
    ensures
        ends_by(EndStep::AskExit, EndStep::Done { gone }, w) <==> gone == (w.exits || (w.known is Some
            && w.is_ssh && (w.terminates || w.gone_at_last))),
{
    reveal_with_fuel(ends_by, 10);
}

/// A master is started in the background, without asking, for the host given; it sees by itself whether
/// the other side is alive unless the configuration has it do so.
pub proof fn restart_keeps_the_connection_alive(alias: Seq<char>, interval: Option<u64>)
    ensures
        ({
            let a = restart_args(alias, interval);
            &&& a.last() == alias
            &&& a[0] == "-N"@ && a[1] == "-f"@
            &&& a.contains("BatchMode=yes"@)
            &&& a.contains("ExitOnForwardFailure=yes"@)
            &&& interval is None || interval == Some(0u64) ==> a.contains(
                "ServerAliveInterval=15"@,
            ) && a.contains("ServerAliveCountMax=3"@)
            &&& interval matches Some(n) ==> n > 0 ==> a.len() == 11
        }),
{
    let a = restart_args(alias, interval);
    assert(a[3] == "BatchMode=yes"@);
    assert(a[7] == "ExitOnForwardFailure=yes"@);
    if interval is None || interval == Some(0u64) {
        assert(a[11] == "ServerAliveInterval=15"@);
        assert(a[13] == "ServerAliveCountMax=3"@);
    }
}

/// A start went well exactly where ssh did; a lock counts as left behind after two minutes; after a start
/// that failed the default is to wait ten minutes, after one that did not two.
pub proof fn start_went_well_where_ssh_did(run: Result<ExecOutcome, String>, age: Option<u64>)
    ensures
        restarted(run) is Ok <==> (run matches Ok(o) && !o.timed_out && o.code == Some(0i32)),
        left_behind(age) <==> (age matches Some(s) && s > 120),
        DEFAULT_FAIL_COOLDOWN_SECS == 600,
        SUCCESS_COOLDOWN_SECS == 120,
{
}

/// A record of a start that cannot be read holds nothing up.
pub proof fn unreadable_record_holds_nothing_up(content: Seq<char>, window: u64, now: u64)
    requires
        !content.contains(' '),
    ensures
        cooling(content, window, now) is None,
{
    let t = trimmed(content);
    crate::text::lemma_lead_bounds(content, whites());
    crate::text::lemma_trail_bounds(strip_front(content, whites()), whites());
    lemma_index_of(t, ' ');
    if index_of(t, ' ') < t.len() {
        let k = index_of(t, ' ');
        let u = strip_front(content, whites());
        assert(u[k] == t[k]);
        assert(content.contains(u[k]));
    }
}

/// How a recovery ends: well where the master is alive, or where there is none any more and either none is
/// wanted or a new one was started; a new one is started only where nothing is to be waited for.
pub proof fn recovery_ends_well_where_it_is_over(reestablish: bool, c: Circumstances)
    ensures
        ({
            let none = c.liveness is NoMaster || ((c.liveness is HalfOpen || c.liveness is Wedged) && c.ends);
            &&& recovery_takes(RecoverStep::Done { recovered: true }, reestablish, c) <==> c.lock && (
            c.liveness is Alive || (none && (!reestablish || (c.wait is None && c.starts))))
            &&& recovery_takes(RecoverStep::Done { recovered: false }, reestablish, c) <==> !(c.lock && (
            c.liveness is Alive || (none && (!reestablish || (c.wait is None && c.starts)))))
            &&& recovery_takes(RecoverStep::Start, reestablish, c) <==> reestablish && c.lock && none
                && c.wait is None
            &&& recovery_takes(RecoverStep::Record { success: c.starts }, reestablish, c) <==> reestablish
                && c.lock && none && c.wait is None
        }),
{
    reveal_with_fuel(recovers_by, 9);
}

/// Only a master that says that it runs is tried.
pub proof fn running_master_is_tried(check: Option<MasterCheck>, r: bool)
    requires
        call_ensures(wants_probe, (check,), r),
    ensures
        check is None ==> !r,
        check matches Some(c) ==> (r <==> c is Running),
{
}

/// Every option of a start is given by its letter, a new host's key is taken, and ssh does not wait long
/// for an answer; none is added or lost where the configuration keeps the connection alive.
pub proof fn start_gives_every_option(alias: Seq<char>, n: u64, i: int)
    requires
        n > 0,
        1 <= i < 5,
    ensures
        ({
            let a = restart_args(alias, Some(n));
            let b = restart_args(alias, None);
            &&& a[2 * i] == "-o"@ && b[2 * i] == "-o"@
            &&& a[5] == "ConnectTimeout=10"@ && a[9] == "StrictHostKeyChecking=accept-new"@
            &&& a.len() == 11 && b.len() == 15
            &&& b.take(10) == a.take(10)
            &&& b[10] == "-o"@ && b[12] == "-o"@
            &&& restart_args(alias, Some(0u64)) == b
        }),
{
    let a = restart_args(alias, Some(n));
    let b = restart_args(alias, None);
    assert(b.take(10) =~= a.take(10));
    assert(i == 1 || i == 2 || i == 3 || i == 4);
    assert(restart_args(alias, Some(0u64)) =~= b);
}

/// A start that failed says why: that ssh could not be run, that it took too long, or what ssh said.
pub proof fn failed_start_says_why(e: String, o: ExecOutcome)
    ensures
        restarted(Err(e)) == Err::<(), Seq<char>>("ssh の起動に失敗: "@ + e@),
        o.timed_out ==> restarted(Ok(o)) == Err::<(), Seq<char>>(
            "ssh -N -f が 30 秒以内に完了しませんでした（ネットワーク未復旧の可能性）"@,
        ),
        !o.timed_out && o.code != Some(0i32) ==> (restarted(Ok(o)) matches Err(m) && m
            == "ssh -N -f が失敗しました（対話認証が必要な構成では BatchMode により失敗します）: "@ + trimmed(
            o.stderr@,
        )),
{
}

} // verus!
