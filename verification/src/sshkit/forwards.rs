//! Port forwards: the ledger of those that were added, and the listing of all there are.
//!
//! A master that is started anew knows nothing of the forwards that were added to the one before.
//! So each entry of the ledger carries the process id of the master it was last applied to; where
//! another master runs now, the entry is stale and is applied again.

use crate::number::{
    decimal, decimal_round_trip, is_digit, parse_u16, parse_u32, push_u64, unsigned,
    unsigned_round_trip,
};
use crate::order::{
    ascending, positions, sort_keys, sorted_holds_every_position, sorted_texts, sorts, Key,
};
use crate::pathname::{join_path, path_join};
use crate::split::{
    contains, cut, cut_str, fields, has, lemma_fields_first, lemma_index_is, lemma_last_index_is,
    lines, lines_of, rcut, rsplit_once, split_once, split_once_str, strip_prefix,
};
use crate::sshkit::exec::ExecOutcome;
use crate::sshkit::ssh_config::{control_path_option, own_control_path, ConfigError};
use crate::text::{
    chars_of, copy, copy_all, copy_opt, lead, lemma_lead_is, opt_text, same, string_of, texts, trim,
    trimmed, trimming_takes_the_white_ends, white,
};
use vstd::prelude::*;

verus! {

/// One forward: what is listened on here, and where it leads.
#[derive(Debug)]
pub struct ForwardSpec {
    /// The address listened on; ssh's own choice where none is given.
    pub listen_host: Option<String>,
    pub listen_port: u16,
    pub dest_host: String,
    pub dest_port: u16,
}

/// A forward as text.
pub struct SpecView {
    pub listen_host: Option<Seq<char>>,
    pub listen_port: u16,
    pub dest_host: Seq<char>,
    pub dest_port: u16,
}

/// What is listened on; no two forwards can share it.
pub type ListenKey = (Option<Seq<char>>, u16);

impl SpecView {
    pub open spec fn key(self) -> ListenKey {
        (self.listen_host, self.listen_port)
    }

    /// `[bind:]port:host:hostport`.
    pub open spec fn l_arg(self) -> Seq<char> {
        let tail = decimal(self.listen_port as nat) + ":"@ + self.dest_host + ":"@ + decimal(
            self.dest_port as nat,
        );
        match self.listen_host {
            Some(h) => h + ":"@ + tail,
            None => tail,
        }
    }
}

/// Whether two optional strings hold the same.
fn same_text(a: &Option<String>, b: &Option<String>) -> (r: bool)
    ensures
        r == (opt_text(*a) == opt_text(*b)),
{
    match (a, b) {
        (Some(x), Some(y)) => same(x.as_str(), y.as_str()),
        (None, None) => true,
        _ => false,
    }
}

impl ForwardSpec {
    pub open spec fn view(&self) -> SpecView {
        SpecView {
            listen_host: opt_text(self.listen_host),
            listen_port: self.listen_port,
            dest_host: self.dest_host@,
            dest_port: self.dest_port,
        }
    }

    /// The argument of `-L`.
    pub fn to_l_arg(&self) -> (r: String)
        ensures
            r@ == self@.l_arg(),
    {
        let mut s: String = String::new();
        if let Some(h) = &self.listen_host {
            s.append(h.as_str());
            s.append(":");
        }
        push_u64(&mut s, self.listen_port as u64);
        s.append(":");
        s.append(self.dest_host.as_str());
        s.append(":");
        push_u64(&mut s, self.dest_port as u64);
        assert(s@ =~= self@.l_arg());
        s
    }

    /// Whether two forwards listen on the same.
    pub fn same_listen(&self, other: &ForwardSpec) -> (r: bool)
        ensures
            r == (self@.key() == other@.key()),
    {
        self.listen_port == other.listen_port && same_text(&self.listen_host, &other.listen_host)
    }

    /// The same forward once more.
    pub fn copied(&self) -> (r: ForwardSpec)
        ensures
            r@ == self@,
    {
        ForwardSpec {
            listen_host: copy_opt(&self.listen_host),
            listen_port: self.listen_port,
            dest_host: copy(self.dest_host.as_str()),
            dest_port: self.dest_port,
        }
    }
}

/// A forward that was added.
#[derive(Debug)]
pub struct LedgerEntry {
    pub spec: ForwardSpec,
    /// The master it was last applied to.
    pub master_pid: Option<u32>,
    /// Why it could not be applied, the last time.
    pub error: Option<String>,
    /// When it was added, in seconds since the epoch.
    pub created_at: i64,
}

/// An entry as text.
pub struct EntryView {
    pub spec: SpecView,
    pub master_pid: Option<u32>,
    pub error: Option<Seq<char>>,
    pub created_at: i64,
}

impl LedgerEntry {
    pub open spec fn view(&self) -> EntryView {
        EntryView {
            spec: self.spec@,
            master_pid: self.master_pid,
            error: opt_text(self.error),
            created_at: self.created_at,
        }
    }
}

/// The forwards that were added for one host.
#[derive(Debug)]
pub struct Ledger {
    pub entries: Vec<LedgerEntry>,
}

impl Ledger {
    pub open spec fn view(&self) -> Seq<EntryView> {
        Seq::new(self.entries@.len(), |i: int| self.entries@[i]@)
    }
}

/// No two entries listen on the same.
pub open spec fn one_each(l: Seq<EntryView>) -> bool {
    forall|i: int, j: int|
        0 <= i < j < l.len() ==> #[trigger] l[i].spec.key() != #[trigger] l[j].spec.key()
}

// ---------------------------------------------------------------- names

/// The alias with each path separator replaced.
pub open spec fn sanitized(s: Seq<char>) -> Seq<char> {
    Seq::new(
        s.len(),
        |i: int|
            if s[i] == '/' || s[i] == '\\' {
                '_'
            } else {
                s[i]
            },
    )
}

/// The alias as part of a file's name: each path separator becomes `_`.
pub fn sanitize_alias(host_alias: &str) -> (r: String)
    ensures
        r@ == sanitized(host_alias@),
{
    let cs: Vec<char> = chars_of(host_alias);
    let mut out: String = String::new();
    let mut i: usize = 0;
    while i < cs.len()
        invariant
            i <= cs@.len(),
            cs@ == host_alias@,
            out@ == sanitized(host_alias@).take(i as int),
        decreases cs@.len() - i,
    {
        if cs[i] == '/' || cs[i] == '\\' {
            out.push('_');
        } else {
            out.push(cs[i]);
        }
        i += 1;
        assert(sanitized(host_alias@).take(i as int) =~= sanitized(host_alias@).take(i - 1).push(
            sanitized(host_alias@)[i - 1],
        ));
    }
    assert(sanitized(host_alias@).take(i as int) =~= sanitized(host_alias@));
    out
}

/// A sanitized alias names no directory: it holds no path separator.
pub proof fn sanitized_alias_is_one_name(s: Seq<char>)
    ensures
        !sanitized(s).contains('/'),
        !sanitized(s).contains('\\'),
        sanitized(s).len() == s.len(),
        !s.contains('/') && !s.contains('\\') ==> sanitized(s) == s,
{
    if !s.contains('/') && !s.contains('\\') {
        assert(sanitized(s) =~= s);
    }
}

/// The name of a host's file with the extension `ext`, which begins with a dot.
pub fn host_file(host_alias: &str, ext: &str) -> (r: String)
    ensures
        r@ == sanitized(host_alias@) + ext@,
{
    let mut s: String = sanitize_alias(host_alias);
    s.append(ext);
    s
}

/// The file of a host's ledger.
pub fn ledger_path_in(dir: &str, host_alias: &str) -> (r: String)
    ensures
        r@ == path_join(dir@, sanitized(host_alias@) + ".json"@),
{
    join_path(dir, host_file(host_alias, ".json").as_str())
}

// ---------------------------------------------------------------- the master

/// The arguments that lead to the master: none where the user's configuration names the socket,
/// else our own socket.
pub open spec fn mux_args(user_cm: bool) -> Seq<Seq<char>> {
    if user_cm {
        seq![]
    } else {
        seq!["-o"@, control_path_option()]
    }
}

/// The arguments that lead to the master.
pub fn mux_base_args(user_cm: Result<bool, ConfigError>) -> (r: Result<Vec<String>, ConfigError>)
    ensures
        match user_cm {
            Err(e) => r == Err::<Vec<String>, ConfigError>(e),
            Ok(cm) => r is Ok && texts(r->Ok_0@) == mux_args(cm),
        },
{
    match user_cm {
        Err(e) => Err(e),
        Ok(cm) => {
            let mut args: Vec<String> = Vec::new();
            if !cm {
                args.push(copy("-o"));
                args.push(own_control_path());
            }
            assert(texts(args@) =~= mux_args(cm));
            Ok(args)
        },
    }
}

/// The predicate of being a decimal digit.
pub open spec fn digits() -> spec_fn(char) -> bool {
    |c: char| is_digit(c)
}

/// The number behind the first `pid=`.
pub open spec fn pid_in(text: Seq<char>) -> Option<nat> {
    match cut_str(text, "pid="@) {
        Some((_, after)) => unsigned(
            after.take(lead(after, digits()) as int),
            u32::MAX as nat,
        ),
        None => None,
    }
}

/// A process id as a number.
pub open spec fn pid_nat(pid: Option<u32>) -> Option<nat> {
    match pid {
        Some(p) => Some(p as nat),
        None => None,
    }
}

/// The number behind the first `pid=`.
pub fn parse_pid(text: &str) -> (r: Option<u32>)
    ensures
        pid_nat(r) == pid_in(text@),
{
    let after: String = match split_once_str(text, "pid=") {
        Some((_, a)) => a,
        None => {
            return None;
        },
    };
    let cs: Vec<char> = chars_of(after.as_str());
    let mut n: usize = 0;
    while n < cs.len() && '0' <= cs[n] && cs[n] <= '9'
        invariant
            n <= cs@.len(),
            forall|k: int| 0 <= k < n ==> digits()(#[trigger] cs@[k]),
        decreases cs@.len() - n,
    {
        n += 1;
    }
    proof {
        lemma_lead_is(cs@, digits(), n as nat);
    }
    let d: String = string_of(&cs, 0, n);
    assert(d@ =~= after@.take(n as int));
    parse_u32(d.as_str())
}

/// The process id that `ssh -O check` reports on either stream.
pub open spec fn reported_pid(run: Option<ExecOutcome>) -> Option<nat> {
    match run {
        Some(o) => if o.succeeded() {
            pid_in(o.stdout@ + o.stderr@)
        } else {
            None
        },
        None => None,
    }
}

/// The process id of the master, from how `ssh -O check` ended; none where it could not be run,
/// failed or names none.
pub fn master_pid(run: &Option<ExecOutcome>) -> (r: Option<u32>)
    ensures
        pid_nat(r) == reported_pid(*run),
{
    match run {
        Some(o) => if o.success() {
            let mut text: String = copy(o.stdout.as_str());
            text.append(o.stderr.as_str());
            parse_pid(text.as_str())
        } else {
            None
        },
        None => None,
    }
}

/// The arguments that ask a master to begin (`forward`) or end (`cancel`) a forward.
pub open spec fn forward_args(
    base: Seq<Seq<char>>,
    op: Seq<char>,
    spec: SpecView,
    alias: Seq<char>,
) -> Seq<Seq<char>> {
    base + seq!["-O"@, op, "-L"@, spec.l_arg(), alias]
}

/// The arguments that ask a master to begin (`forward`) or end (`cancel`) a forward.
pub fn mux_forward_args(base: Vec<String>, op: &str, spec: &ForwardSpec, host_alias: &str) -> (r: Vec<
    String,
>)
    ensures
        texts(r@) == forward_args(texts(base@), op@, spec@, host_alias@),
{
    let ghost before = base@;
    let mut args: Vec<String> = base;
    args.push(copy("-O"));
    args.push(copy(op));
    args.push(copy("-L"));
    args.push(spec.to_l_arg());
    args.push(copy(host_alias));
    assert(texts(args@) =~= forward_args(texts(before), op@, spec@, host_alias@));
    args
}

/// How a request to a master ended.
pub struct MuxRun {
    pub success: bool,
    /// The exit status in words.
    pub status: String,
    pub stderr: String,
}

/// What is said of a request that failed.
pub open spec fn mux_message(op: Seq<char>, spec: SpecView, run: MuxRun) -> Seq<char> {
    let err = trimmed(run.stderr@);
    if err.len() == 0 {
        "ssh -O "@ + op + " が非ゼロ終了: "@ + run.status@
    } else if has(err, "Port forwarding failed"@) {
        "listen ポート "@ + decimal(spec.listen_port as nat)
            + " が既に使用中です（別プロセス、または別ホストの ssh master が同じポートを forward している可能性）: "@
            + err
    } else if has(err, "Control socket connect"@) {
        "control master に到達できません。master が終了したか、`ssh -O stop` で ソケットが削除されています。ホストへ接続し直すと新しい master が立ち、ccc 追加分の forward は自動で再適用されます: "@
            + err
    } else {
        err
    }
}

/// What came of a request to a master.
pub open spec fn mux_result(op: Seq<char>, spec: SpecView, run: Result<MuxRun, String>) -> Result<
    (),
    Seq<char>,
> {
    match run {
        Err(e) => Err("ssh の起動に失敗: "@ + e@),
        Ok(o) => if o.success {
            Ok(())
        } else {
            Err(mux_message(op, spec, o))
        },
    }
}

/// A result with its error as text.
pub open spec fn err_text<T>(r: Result<T, String>) -> Result<T, Seq<char>> {
    match r {
        Ok(x) => Ok(x),
        Err(e) => Err(e@),
    }
}

/// What came of a request to a master, the failure told apart by what ssh printed.
pub fn run_mux_forward(op: &str, spec: &ForwardSpec, run: Result<MuxRun, String>) -> (r: Result<
    (),
    String,
>)
    ensures
        err_text(r) == mux_result(op@, spec@, run),
{
    let o: MuxRun = match run {
        Err(e) => {
            let mut s: String = copy("ssh の起動に失敗: ");
            s.append(e.as_str());
            return Err(s);
        },
        Ok(o) => o,
    };
    if o.success {
        return Ok(());
    }
    let err: String = trim(o.stderr.as_str());
    let mut s: String;
    if err.as_str().is_empty() {
        s = copy("ssh -O ");
        s.append(op);
        s.append(" が非ゼロ終了: ");
        s.append(o.status.as_str());
    } else if contains(err.as_str(), "Port forwarding failed") {
        s = copy("listen ポート ");
        push_u64(&mut s, spec.listen_port as u64);
        s.append(
            " が既に使用中です（別プロセス、または別ホストの ssh master が同じポートを forward している可能性）: ",
        );
        s.append(err.as_str());
    } else if contains(err.as_str(), "Control socket connect") {
        s = copy(
            "control master に到達できません。master が終了したか、`ssh -O stop` で ソケットが削除されています。ホストへ接続し直すと新しい master が立ち、ccc 追加分の forward は自動で再適用されます: ",
        );
        s.append(err.as_str());
    } else {
        s = err;
    }
    assert(s@ =~= mux_message(op@, spec@, o));
    Err(s)
}

// ---------------------------------------------------------------- the ledger

/// The entries that listen on something else than `key`, in their order.
pub open spec fn others(l: Seq<EntryView>, key: ListenKey) -> Seq<EntryView>
    decreases l.len(),
{
    if l.len() == 0 {
        seq![]
    } else if l.last().spec.key() == key {
        others(l.drop_last(), key)
    } else {
        others(l.drop_last(), key).push(l.last())
    }
}

/// The ledger with a forward added: it takes the place of any that listens on the same.
pub open spec fn added(l: Seq<EntryView>, spec: SpecView, pid: Option<u32>, now: i64) -> Seq<
    EntryView,
> {
    others(l, spec.key()).push(EntryView { spec, master_pid: pid, error: None, created_at: now })
}

proof fn lemma_others(l: Seq<EntryView>, key: ListenKey)
    ensures
        forall|i: int|
            0 <= i < others(l, key).len() ==> (#[trigger] others(l, key)[i]).spec.key() != key
                && l.contains(others(l, key)[i]),
        others(l, key).len() <= l.len(),
        one_each(l) ==> one_each(others(l, key)),
        (forall|i: int| 0 <= i < l.len() ==> (#[trigger] l[i]).spec.key() != key) ==> others(l, key)
            == l,
    decreases l.len(),
{
    if l.len() > 0 {
        let d = l.drop_last();
        lemma_others(d, key);
        let o = others(l, key);
        assert forall|i: int| 0 <= i < o.len() implies (#[trigger] o[i]).spec.key() != key
            && l.contains(o[i]) by {
            if i < others(d, key).len() {
                assert(o[i] == others(d, key)[i]);
                let j = choose|j: int| 0 <= j < d.len() && d[j] == o[i];
                assert(l[j] == o[i]);
            } else {
                assert(o[i] == l[l.len() - 1]);
            }
        }
        if one_each(l) {
            assert(one_each(d)) by {
                assert forall|i: int, j: int| 0 <= i < j < d.len() implies #[trigger] d[i].spec.key()
                    != #[trigger] d[j].spec.key() by {
                    assert(l[i].spec.key() != l[j].spec.key());
                }
            }
            assert(one_each(o)) by {
                assert forall|i: int, j: int| 0 <= i < j < o.len() implies #[trigger] o[i].spec.key()
                    != #[trigger] o[j].spec.key() by {
                    if j < others(d, key).len() {
                        assert(others(d, key)[i].spec.key() != others(d, key)[j].spec.key());
                    } else {
                        assert(others(d, key)[i] == o[i]);
                        assert(d.contains(o[i]));
                        let k = choose|k: int| 0 <= k < d.len() && d[k] == o[i];
                        assert(l[k].spec.key() != l[l.len() - 1].spec.key());
                    }
                }
            }
        }
        if forall|i: int| 0 <= i < l.len() ==> (#[trigger] l[i]).spec.key() != key {
            assert forall|i: int| 0 <= i < d.len() implies (#[trigger] d[i]).spec.key() != key by {
                assert(l[i].spec.key() != key);
            }
            assert(l[l.len() - 1].spec.key() != key);
            assert(o =~= l);
        }
    }
}

/// Adding keeps the ledger free of two entries that listen on the same.
pub proof fn adding_keeps_one_each(l: Seq<EntryView>, spec: SpecView, pid: Option<u32>, now: i64)
    requires
        one_each(l),
    ensures
        one_each(added(l, spec, pid, now)),
{
    lemma_others(l, spec.key());
    let a = added(l, spec, pid, now);
    let o = others(l, spec.key());
    assert forall|i: int, j: int| 0 <= i < j < a.len() implies #[trigger] a[i].spec.key()
        != #[trigger] a[j].spec.key() by {
        assert(a[i] == o[i]);
        if j < o.len() {
            assert(a[j] == o[j]);
        }
    }
}

/// Removing what was just added leaves the entries that listen on something else.
pub proof fn removing_undoes_adding(l: Seq<EntryView>, spec: SpecView, pid: Option<u32>, now: i64)
    ensures
        listed_at(added(l, spec, pid, now), spec.key()) == others(l, spec.key()).len(),
        added(l, spec, pid, now).remove(listed_at(added(l, spec, pid, now), spec.key()))
            == others(l, spec.key()),
{
    lemma_others(l, spec.key());
    let a = added(l, spec, pid, now);
    let o = others(l, spec.key());
    lemma_listed_is(a, spec.key(), o.len() as int);
    assert(a.remove(o.len() as int) =~= o);
}

/// Adds a forward that the master has taken; where it has not, the ledger stays and the failure
/// is handed on.
pub fn add(
    ledger: &mut Ledger,
    spec: ForwardSpec,
    mux: Result<(), String>,
    pid: Option<u32>,
    now: i64,
) -> (r: Result<(), String>)
    ensures
        mux is Err ==> r == mux && *final(ledger) == *old(ledger),
        mux is Ok ==> r is Ok && final(ledger)@ == added(old(ledger)@, spec@, pid, now),
{
    if let Err(e) = mux {
        return Err(e);
    }
    let ghost all = old(ledger)@;
    let mut kept: Vec<LedgerEntry> = Vec::new();
    let mut rest: Vec<LedgerEntry> = Vec::new();
    std::mem::swap(&mut rest, &mut ledger.entries);
    rest = crate::order::reversed(rest);
    let n: usize = rest.len();
    let mut i: usize = 0;
    while i < n
        invariant
            i <= n == all.len(),
            rest@.len() == n - i,
            forall|k: int| 0 <= k < n - i ==> (#[trigger] rest@[k])@ == all[n - 1 - k],
            Seq::new(kept@.len(), |k: int| kept@[k]@) == others(all.take(i as int), spec@.key()),
        decreases n - i,
    {
        let e: LedgerEntry = rest.pop().unwrap();
        proof {
            assert(e@ == all[i as int]);
            assert(all.take(i + 1).drop_last() =~= all.take(i as int));
            assert(all.take(i + 1).last() == e@);
        }
        if !e.spec.same_listen(&spec) {
            let ghost before = kept@;
            kept.push(e);
            assert(Seq::new(kept@.len(), |k: int| kept@[k]@) =~= Seq::new(
                before.len(),
                |k: int| before[k]@,
            ).push(e@));
        }
        i += 1;
    }
    assert(all.take(n as int) =~= all);
    let ghost before = kept@;
    let e: LedgerEntry = LedgerEntry { spec, master_pid: pid, error: None, created_at: now };
    kept.push(e);
    assert(Seq::new(kept@.len(), |k: int| kept@[k]@) =~= Seq::new(
        before.len(),
        |k: int| before[k]@,
    ).push(e@));
    ledger.entries = kept;
    Ok(())
}

/// The first entry that listens on `key`, or the number of entries.
pub open spec fn listed_at(l: Seq<EntryView>, key: ListenKey) -> int
    decreases l.len(),
{
    if l.len() == 0 {
        0
    } else if listed_at(l.drop_last(), key) < l.len() - 1 {
        listed_at(l.drop_last(), key)
    } else if l.last().spec.key() == key {
        l.len() - 1
    } else {
        l.len() as int
    }
}

proof fn lemma_listed_is(l: Seq<EntryView>, key: ListenKey, n: int)
    requires
        0 <= n <= l.len(),
        forall|i: int| 0 <= i < n ==> (#[trigger] l[i]).spec.key() != key,
        n < l.len() ==> l[n].spec.key() == key,
    ensures
        listed_at(l, key) == n,
    decreases l.len(),
{
    if l.len() > 0 {
        let d = l.drop_last();
        assert forall|i: int| 0 <= i < n && i < d.len() implies (#[trigger] d[i]).spec.key()
            != key by {
            assert(l[i].spec.key() != key);
        }
        if n < l.len() {
            if n < d.len() {
                lemma_listed_is(d, key, n);
            } else {
                lemma_listed_is(d, key, n);
            }
        } else {
            lemma_listed_is(d, key, n - 1);
            assert(l[l.len() - 1].spec.key() != key);
        }
    }
}

fn find_entry(ledger: &Ledger, spec: &ForwardSpec) -> (r: usize)
    ensures
        r == listed_at(ledger@, spec@.key()),
        r <= ledger@.len(),
{
    let mut i: usize = 0;
    while i < ledger.entries.len() && !ledger.entries[i].spec.same_listen(spec)
        invariant
            i <= ledger@.len(),
            forall|k: int| 0 <= k < i ==> (#[trigger] ledger@[k]).spec.key() != spec@.key(),
        decreases ledger@.len() - i,
    {
        assert(ledger@[i as int].spec.key() != spec@.key());
        i += 1;
    }
    proof {
        lemma_listed_is(ledger@, spec@.key(), i as int);
    }
    i
}

/// The forward to cancel for a request to remove `spec`: the entry that listens on the same.
/// Without such an entry the forward is not ours to remove.
pub fn managed(ledger: &Ledger, spec: &ForwardSpec) -> (r: Option<ForwardSpec>)
    ensures
        match r {
            Some(s) => listed_at(ledger@, spec@.key()) < ledger@.len() && s@ == ledger@[listed_at(
                ledger@,
                spec@.key(),
            )].spec,
            None => listed_at(ledger@, spec@.key()) == ledger@.len(),
        },
{
    let i: usize = find_entry(ledger, spec);
    if i < ledger.entries.len() {
        Some(ledger.entries[i].spec.copied())
    } else {
        None
    }
}

/// Said of a request to remove a forward that is not in the ledger.
pub const UNMANAGED: &'static str = "ccc が管理していない forward は削除できません";

/// Whether a forward may leave the ledger: the master has ended it, or the master it was applied
/// to is not the one that runs now.
pub open spec fn may_leave(e: EntryView, cancel: Result<(), String>, pid: Option<u32>) -> bool {
    cancel is Ok || pid != e.master_pid
}

/// Whether two process ids are the same.
fn same_pid(a: Option<u32>, b: Option<u32>) -> (r: bool)
    ensures
        r == (a == b),
{
    match (a, b) {
        (Some(x), Some(y)) => x == y,
        (None, None) => true,
        _ => false,
    }
}

/// Removes the forward that listens on the same as `spec`, once the master was asked to end it.
/// A master that refuses keeps the entry where it is the one that the entry was applied to.
pub fn remove(
    ledger: &mut Ledger,
    spec: &ForwardSpec,
    cancel: Result<(), String>,
    pid: Option<u32>,
) -> (r: Result<(), String>)
    ensures
        ({
            let at = listed_at(old(ledger)@, spec@.key());
            if at == old(ledger)@.len() {
                err_text(r) == Err::<(), Seq<char>>(UNMANAGED@) && *final(ledger) == *old(ledger)
            } else if may_leave(old(ledger)@[at], cancel, pid) {
                r == Ok::<(), String>(()) && final(ledger)@ == old(ledger)@.remove(at)
            } else {
                r == cancel && *final(ledger) == *old(ledger)
            }
        }),
{
    let at: usize = find_entry(ledger, spec);
    if at == ledger.entries.len() {
        return Err(copy(UNMANAGED));
    }
    let ghost all = old(ledger)@;
    assert(all[at as int] == ledger.entries@[at as int]@);
    if let Err(e) = cancel {
        if same_pid(pid, ledger.entries[at].master_pid) {
            return Err(e);
        }
    }
    let _gone: LedgerEntry = ledger.entries.remove(at);
    assert(ledger@ =~= all.remove(at as int));
    Ok(())
}

/// Whether an entry is to be applied to the master that runs now: it was not applied to this one.
pub open spec fn wants_replay(e: EntryView, pid: u32) -> bool {
    e.master_pid != Some(pid)
}

/// Which entries are to be applied to the master that runs now; none where none runs.
pub fn to_replay(ledger: &Ledger, pid: Option<u32>) -> (r: Vec<bool>)
    ensures
        r@.len() == ledger@.len(),
        forall|i: int|
            0 <= i < r@.len() ==> #[trigger] r@[i] == (pid is Some && wants_replay(ledger@[i], pid->0)),
{
    let mut out: Vec<bool> = Vec::new();
    let mut i: usize = 0;
    while i < ledger.entries.len()
        invariant
            i <= ledger@.len(),
            out@.len() == i,
            forall|k: int|
                0 <= k < i ==> #[trigger] out@[k] == (pid is Some && wants_replay(
                    ledger@[k],
                    pid->0,
                )),
        decreases ledger@.len() - i,
    {
        let e: &LedgerEntry = &ledger.entries[i];
        assert(ledger@[i as int] == e@);
        let wants: bool = match pid {
            Some(p) => !same_pid(e.master_pid, Some(p)),
            None => false,
        };
        out.push(wants);
        i += 1;
    }
    out
}

/// An entry after the master was asked for it: applied, or with the reason why not.
pub open spec fn replayed(e: EntryView, pid: u32, reply: Result<(), String>) -> EntryView {
    match reply {
        Ok(_) => EntryView { master_pid: Some(pid), error: None, ..e },
        Err(m) => EntryView { error: Some(m@), ..e },
    }
}

/// The ledger after the master was asked for the entries that were not applied to it: each of them
/// as its reply makes it, and every other as it was.
pub open spec fn synced(l: Seq<EntryView>, pid: u32, replies: Seq<Option<Result<(), String>>>) -> Seq<
    EntryView,
> {
    Seq::new(
        l.len(),
        |i: int|
            match replies[i] {
                Some(reply) => if wants_replay(l[i], pid) {
                    replayed(l[i], pid, reply)
                } else {
                    l[i]
                },
                None => l[i],
            },
    )
}

/// Takes in the master's replies for the entries that were not applied to it, and says whether
/// there were any, so that the ledger is to be saved. An entry that was applied to this master
/// stays as it is; without a master nothing changes.
pub fn sync_ledger(
    ledger: &mut Ledger,
    pid: Option<u32>,
    replies: Vec<Option<Result<(), String>>>,
) -> (r: bool)
    requires
        replies@.len() == old(ledger)@.len(),
    ensures
        match pid {
            None => !r && *final(ledger) == *old(ledger),
            Some(p) => {
                &&& final(ledger)@ == synced(old(ledger)@, p, replies@)
                &&& r == exists|i: int|
                    0 <= i < replies@.len() && #[trigger] replies@[i] is Some && wants_replay(
                        old(ledger)@[i],
                        p,
                    )
            },
        },
{
    let p: u32 = match pid {
        Some(p) => p,
        None => {
            return false;
        },
    };
    let ghost all = old(ledger)@;
    let ghost asked = replies@;
    let mut rest: Vec<LedgerEntry> = Vec::new();
    std::mem::swap(&mut rest, &mut ledger.entries);
    rest = crate::order::reversed(rest);
    let mut answers: Vec<Option<Result<(), String>>> = crate::order::reversed(replies);
    let n: usize = rest.len();
    let mut out: Vec<LedgerEntry> = Vec::new();
    let mut changed: bool = false;
    let mut i: usize = 0;
    while i < n
        invariant
            i <= n == all.len() == asked.len(),
            rest@.len() == n - i,
            answers@.len() == n - i,
            forall|k: int| 0 <= k < n - i ==> (#[trigger] rest@[k])@ == all[n - 1 - k],
            forall|k: int| 0 <= k < n - i ==> #[trigger] answers@[k] == asked[n - 1 - k],
            out@.len() == i,
            forall|k: int| 0 <= k < i ==> (#[trigger] out@[k])@ == synced(all, p, asked)[k],
            changed == exists|k: int|
                0 <= k < i && #[trigger] asked[k] is Some && wants_replay(all[k], p),
        decreases n - i,
    {
        let mut e: LedgerEntry = rest.pop().unwrap();
        let a: Option<Result<(), String>> = answers.pop().unwrap();
        proof {
            assert(e@ == all[i as int]);
            assert(a == asked[i as int]);
        }
        if !same_pid(e.master_pid, Some(p)) {
            match a {
                Some(Ok(_)) => {
                    e.master_pid = Some(p);
                    e.error = None;
                    changed = true;
                },
                Some(Err(m)) => {
                    e.error = Some(m);
                    changed = true;
                },
                None => {},
            }
        }
        assert(e@ == synced(all, p, asked)[i as int]);
        out.push(e);
        i += 1;
    }
    ledger.entries = out;
    assert(ledger@ =~= synced(all, p, asked));
    changed
}

/// Only entries that were not applied to the master are asked for and changed: the others stay as
/// they are, whatever went wrong with them before. A reply that the forward is had makes an entry
/// one of this master's, without an error; one that it is not had leaves the entry with the other
/// master, and with the reason.
pub proof fn only_the_outdated_are_replayed(
    l: Seq<EntryView>,
    pid: u32,
    replies: Seq<Option<Result<(), String>>>,
    i: int,
)
    requires
        replies.len() == l.len(),
        0 <= i < l.len(),
    ensures
        wants_replay(l[i], pid) <==> l[i].master_pid != Some(pid),
        l[i].master_pid == Some(pid) ==> synced(l, pid, replies)[i] == l[i],
        l[i].master_pid != Some(pid) && replies[i] == Some(Ok::<(), String>(())) ==> synced(
            l,
            pid,
            replies,
        )[i] == (EntryView { master_pid: Some(pid), error: None, ..l[i] }),
        l[i].master_pid != Some(pid) ==> (replies[i] matches Some(Err(m)) ==> synced(
            l,
            pid,
            replies,
        )[i] == (EntryView { error: Some(m@), ..l[i] })),
{
}

/// A ledger whose outdated entries were all applied wants nothing more of the same master.
pub proof fn replayed_ledger_rests(
    l: Seq<EntryView>,
    pid: u32,
    replies: Seq<Option<Result<(), String>>>,
    i: int,
)
    requires
        replies.len() == l.len(),
        forall|k: int|
            0 <= k < l.len() && wants_replay(#[trigger] l[k], pid) ==> replies[k] is Some
                && replies[k]->0 is Ok,
        0 <= i < l.len(),
    ensures
        !wants_replay(synced(l, pid, replies)[i], pid),
{
    assert(wants_replay(l[i], pid) ==> replies[i]->0 is Ok);
}

/// Asking the master again changes no entry's forward: what is listened on stays.
pub proof fn replaying_keeps_the_forwards(
    l: Seq<EntryView>,
    pid: u32,
    replies: Seq<Option<Result<(), String>>>,
    i: int,
)
    requires
        replies.len() == l.len(),
        0 <= i < l.len(),
    ensures
        synced(l, pid, replies)[i].spec == l[i].spec,
        synced(l, pid, replies)[i].created_at == l[i].created_at,
{
}

// ---------------------------------------------------------------- forwards of the configuration

/// The address and the port of `[host]:port`, `host:port` or `port`.
pub open spec fn fwd_part(part: Seq<char>) -> Option<(Option<Seq<char>>, nat)> {
    let t = trimmed(part);
    if t.len() > 0 && t[0] == '[' {
        match cut_str(t.skip(1), "]:"@) {
            Some((h, p)) => with_port(Some(h), p),
            None => None,
        }
    } else {
        match rcut(t, ':') {
            Some((h, p)) => with_port(Some(h), p),
            None => with_port(None, t),
        }
    }
}

/// An address with the port that `p` gives.
pub open spec fn with_port(host: Option<Seq<char>>, p: Seq<char>) -> Option<
    (Option<Seq<char>>, nat),
> {
    match unsigned(p, u16::MAX as nat) {
        Some(n) => Some((host, n)),
        None => None,
    }
}

/// An address and a port, as text and a number.
pub open spec fn part_view(r: Option<(Option<String>, u16)>) -> Option<(Option<Seq<char>>, nat)> {
    match r {
        Some((h, p)) => Some((opt_text(h), p as nat)),
        None => None,
    }
}

/// The address and the port of `[host]:port`, `host:port` or `port`.
pub fn parse_fwd_part(part: &str) -> (r: Option<(Option<String>, u16)>)
    ensures
        part_view(r) == fwd_part(part@),
{
    let t: String = trim(part);
    let cs: Vec<char> = chars_of(t.as_str());
    if cs.len() > 0 && cs[0] == '[' {
        let rest: String = string_of(&cs, 1, cs.len());
        assert(rest@ =~= t@.skip(1));
        return match split_once_str(rest.as_str(), "]:") {
            Some((h, p)) => match parse_u16(p.as_str()) {
                Some(n) => Some((Some(h), n)),
                None => None,
            },
            None => None,
        };
    }
    match rsplit_once(t.as_str(), ':') {
        Some((h, p)) => match parse_u16(p.as_str()) {
            Some(n) => Some((Some(h), n)),
            None => None,
        },
        None => match parse_u16(t.as_str()) {
            Some(n) => Some((None, n)),
            None => None,
        },
    }
}

/// The forward that a `localforward` line of `ssh -G` names: what is listened on, a space, and
/// where it leads, which is `localhost` where no address is given.
pub open spec fn local_forward(value: Seq<char>) -> Option<SpecView> {
    match cut(trimmed(value), ' ') {
        Some((listen, dest)) => match (fwd_part(listen), fwd_part(dest)) {
            (Some((lh, lp)), Some((dh, dp))) => Some(
                SpecView {
                    listen_host: lh,
                    listen_port: lp as u16,
                    dest_host: match dh {
                        Some(h) => h,
                        None => "localhost"@,
                    },
                    dest_port: dp as u16,
                },
            ),
            _ => None,
        },
        None => None,
    }
}

/// A forward as text, if there is one.
pub open spec fn opt_spec(s: Option<ForwardSpec>) -> Option<SpecView> {
    match s {
        Some(f) => Some(f@),
        None => None,
    }
}

/// The forward that a `localforward` line of `ssh -G` names.
pub fn parse_localforward(value: &str) -> (r: Option<ForwardSpec>)
    ensures
        opt_spec(r) == local_forward(value@),
{
    let t: String = trim(value);
    let (listen, dest): (String, String) = match split_once(t.as_str(), ' ') {
        Some(p) => p,
        None => {
            return None;
        },
    };
    let (listen_host, listen_port): (Option<String>, u16) = match parse_fwd_part(listen.as_str()) {
        Some(p) => p,
        None => {
            return None;
        },
    };
    let (dest_host, dest_port): (Option<String>, u16) = match parse_fwd_part(dest.as_str()) {
        Some(p) => p,
        None => {
            return None;
        },
    };
    let dest_host: String = match dest_host {
        Some(h) => h,
        None => copy("localhost"),
    };
    Some(ForwardSpec { listen_host, listen_port, dest_host, dest_port })
}

/// The forwards as text.
pub open spec fn spec_views(v: Seq<ForwardSpec>) -> Seq<SpecView> {
    Seq::new(v.len(), |i: int| v[i]@)
}

/// The forwards that the lines of `ssh -G` name.
pub open spec fn config_forwards(rows: Seq<Seq<char>>) -> Seq<SpecView>
    decreases rows.len(),
{
    if rows.len() == 0 {
        seq![]
    } else {
        let before = config_forwards(rows.drop_last());
        if "localforward "@.is_prefix_of(rows.last()) {
            match local_forward(rows.last().skip("localforward "@.len() as int)) {
                Some(f) => before.push(f),
                None => before,
            }
        } else {
            before
        }
    }
}

/// The forwards that the output of `ssh -G` names.
pub fn config_local_forwards(stdout: &str) -> (r: Vec<ForwardSpec>)
    ensures
        spec_views(r@) == config_forwards(lines_of(stdout@)),
{
    let rows: Vec<String> = lines(stdout);
    let mut out: Vec<ForwardSpec> = Vec::new();
    let mut i: usize = 0;
    while i < rows.len()
        invariant
            i <= rows@.len(),
            spec_views(out@) == config_forwards(texts(rows@).take(i as int)),
        decreases rows@.len() - i,
    {
        proof {
            assert(texts(rows@).take(i + 1).drop_last() =~= texts(rows@).take(i as int));
            assert(texts(rows@).take(i + 1).last() == rows@[i as int]@);
        }
        if let Some(value) = strip_prefix(rows[i].as_str(), "localforward ") {
            if let Some(f) = parse_localforward(value.as_str()) {
                let ghost before = out@;
                out.push(f);
                assert(spec_views(out@) =~= spec_views(before).push(f@));
            }
        }
        i += 1;
    }
    assert(texts(rows@).take(rows@.len() as int) =~= texts(rows@));
    out
}

// ---------------------------------------------------------------- the listing

/// A row of the listing.
#[derive(Debug)]
pub struct ForwardRow {
    pub spec: ForwardSpec,
    /// `ledger` where it was added through the ledger, `config` where the ssh configuration names
    /// it, `reserved` where it is kept for the hooks.
    pub origin: String,
    /// Whether it leads from the remote machine to here.
    pub reverse: bool,
    /// Whether the master that runs now does not hold it.
    pub stale: bool,
    pub error: Option<String>,
    pub deletable: bool,
}

/// A row as text.
pub struct RowView {
    pub spec: SpecView,
    pub origin: Seq<char>,
    pub reverse: bool,
    pub stale: bool,
    pub error: Option<Seq<char>>,
    pub deletable: bool,
}

impl ForwardRow {
    pub open spec fn view(&self) -> RowView {
        RowView {
            spec: self.spec@,
            origin: self.origin@,
            reverse: self.reverse,
            stale: self.stale,
            error: opt_text(self.error),
            deletable: self.deletable,
        }
    }
}

/// The rows as text.
pub open spec fn row_views(v: Seq<ForwardRow>) -> Seq<RowView> {
    Seq::new(v.len(), |i: int| v[i]@)
}

/// Said of a stale entry whose port something still listens on.
pub const PORT_HELD: &'static str =
    "listen ポートが解放されていません（`ssh -O stop` された旧 master または他プロセスが保持中の可能性）";

/// Whether the master that runs now does not hold an entry.
pub open spec fn is_stale(e: EntryView, pid: Option<u32>) -> bool {
    pid is None || e.master_pid != pid || e.error is Some
}

/// Whether an entry's port is to be tried: the entry is stale for no recorded reason.
pub open spec fn port_matters(e: EntryView, pid: Option<u32>) -> bool {
    is_stale(e, pid) && e.error is None
}

/// Whether an entry's port is to be tried before the listing.
pub fn asks_port(e: &LedgerEntry, pid: Option<u32>) -> (r: bool)
    ensures
        r == port_matters(e@, pid),
{
    e.error.is_none() && (pid.is_none() || !same_pid(e.master_pid, pid))
}

/// The row of an entry; `held` tells whether something listens on its port.
pub open spec fn ledger_row(e: EntryView, pid: Option<u32>, held: bool) -> RowView {
    RowView {
        spec: e.spec,
        origin: "ledger"@,
        reverse: false,
        stale: is_stale(e, pid),
        error: if port_matters(e, pid) && held {
            Some(PORT_HELD@)
        } else {
            e.error
        },
        deletable: true,
    }
}

/// The row of a forward of the configuration.
pub open spec fn config_row(s: SpecView, pid: Option<u32>) -> RowView {
    RowView {
        spec: s,
        origin: "config"@,
        reverse: false,
        stale: pid is None,
        error: None,
        deletable: false,
    }
}

/// The row of the forward that is kept for the hooks.
pub open spec fn reserved_row(port: u16, pid: Option<u32>) -> RowView {
    RowView {
        spec: SpecView {
            listen_host: Some("127.0.0.1"@),
            listen_port: port,
            dest_host: "127.0.0.1"@,
            dest_port: port,
        },
        origin: "reserved"@,
        reverse: true,
        stale: pid is None,
        error: None,
        deletable: false,
    }
}

/// Whether a row listens on `key`.
pub open spec fn lists(rows: Seq<RowView>, key: ListenKey) -> bool {
    exists|i: int| 0 <= i < rows.len() && (#[trigger] rows[i]).spec.key() == key
}

/// The rows with those of the configuration behind them, but for what is listened on already.
pub open spec fn with_config(rows: Seq<RowView>, config: Seq<SpecView>, pid: Option<u32>) -> Seq<
    RowView,
>
    decreases config.len(),
{
    if config.len() == 0 {
        rows
    } else {
        let before = with_config(rows, config.drop_last(), pid);
        if lists(before, config.last().key()) {
            before
        } else {
            before.push(config_row(config.last(), pid))
        }
    }
}

/// The rows of the listing before they are sorted.
pub open spec fn all_rows(
    l: Seq<EntryView>,
    pid: Option<u32>,
    held: Seq<bool>,
    config: Seq<SpecView>,
    hook_port: Option<u16>,
) -> Seq<RowView> {
    let own = Seq::new(l.len(), |i: int| ledger_row(l[i], pid, held[i]));
    let rows = with_config(own, config, pid);
    match hook_port {
        Some(p) => rows.push(reserved_row(p, pid)),
        None => rows,
    }
}

/// Rows are sorted by the port listened on.
pub struct PortKey {
    pub port: u16,
}

impl Key for PortKey {
    open spec fn before(&self, other: &Self) -> bool {
        self.port < other.port
    }

    proof fn irreflexive(a: Self) {
    }

    proof fn weak(a: Self, b: Self, c: Self) {
    }

    proof fn asymmetric(a: Self, b: Self) {
    }

    fn is_before(&self, other: &Self) -> (r: bool) {
        self.port < other.port
    }
}

/// The keys that rows are sorted by.
pub open spec fn port_keys(rows: Seq<RowView>) -> Seq<PortKey> {
    Seq::new(rows.len(), |i: int| PortKey { port: rows[i].spec.listen_port })
}

/// Whether `out` are the rows in the order of their ports, equals in the order they had.
pub open spec fn by_port(out: Seq<RowView>, rows: Seq<RowView>) -> bool {
    exists|order: Seq<int>| #[trigger]
        sorts(port_keys(rows), order) && out == Seq::new(order.len(), |k: int| rows[order[k]])
}

impl ForwardRow {
    /// The same row once more.
    fn copied(&self) -> (r: ForwardRow)
        ensures
            r@ == self@,
    {
        ForwardRow {
            spec: self.spec.copied(),
            origin: copy(self.origin.as_str()),
            reverse: self.reverse,
            stale: self.stale,
            error: copy_opt(&self.error),
            deletable: self.deletable,
        }
    }
}

fn sort_rows(rows: &Vec<ForwardRow>) -> (r: Vec<ForwardRow>)
    ensures
        by_port(row_views(r@), row_views(rows@)),
{
    let mut keys: Vec<PortKey> = Vec::new();
    let mut i: usize = 0;
    while i < rows.len()
        invariant
            i <= rows@.len(),
            keys@.len() == i,
            forall|k: int|
                0 <= k < i ==> #[trigger] keys@[k] == port_keys(row_views(rows@))[k],
        decreases rows@.len() - i,
    {
        keys.push(PortKey { port: rows[i].spec.listen_port });
        i += 1;
    }
    assert(keys@ =~= port_keys(row_views(rows@)));
    let order: Vec<usize> = sort_keys(&keys);
    let ghost o = positions(order@);
    let mut out: Vec<ForwardRow> = Vec::new();
    let mut k: usize = 0;
    while k < order.len()
        invariant
            k <= order@.len(),
            o == positions(order@),
            sorts(port_keys(row_views(rows@)), o),
            out@.len() == k,
            forall|q: int| 0 <= q < k ==> (#[trigger] out@[q])@ == row_views(rows@)[o[q]],
        decreases order@.len() - k,
    {
        assert(o[k as int] == order@[k as int]);
        out.push(rows[order[k]].copied());
        k += 1;
    }
    assert(row_views(out@) =~= Seq::new(o.len(), |q: int| row_views(rows@)[o[q]]));
    out
}

fn is_listed(rows: &Vec<ForwardRow>, spec: &ForwardSpec) -> (r: bool)
    ensures
        r == lists(row_views(rows@), spec@.key()),
{
    let mut i: usize = 0;
    while i < rows.len()
        invariant
            i <= rows@.len(),
            forall|k: int| 0 <= k < i ==> (#[trigger] row_views(rows@)[k]).spec.key() != spec@.key(),
        decreases rows@.len() - i,
    {
        assert(row_views(rows@)[i as int] == rows@[i as int]@);
        if rows[i].spec.same_listen(spec) {
            return true;
        }
        i += 1;
    }
    false
}

/// The listing of a host's forwards: those of the ledger, those of the configuration that listen
/// on something else, and the one kept for the hooks, by the port listened on. `held` tells of
/// each entry whether something listens on its port.
pub fn list(
    ledger: &Ledger,
    current_pid: Option<u32>,
    held: &Vec<bool>,
    config: Result<Vec<ForwardSpec>, String>,
    hook_port: Option<u16>,
) -> (r: Result<Vec<ForwardRow>, String>)
    requires
        held@.len() == ledger@.len(),
    ensures
        match config {
            Err(e) => r == Err::<Vec<ForwardRow>, String>(e),
            Ok(specs) => r is Ok && by_port(
                row_views(r->Ok_0@),
                all_rows(ledger@, current_pid, held@, spec_views(specs@), hook_port),
            ),
        },
{
    let specs: Vec<ForwardSpec> = match config {
        Err(e) => {
            return Err(e);
        },
        Ok(s) => s,
    };
    let ghost own = Seq::new(
        ledger@.len(),
        |i: int| ledger_row(ledger@[i], current_pid, held@[i]),
    );
    let mut rows: Vec<ForwardRow> = Vec::new();
    let mut i: usize = 0;
    while i < ledger.entries.len()
        invariant
            i <= ledger@.len() == held@.len(),
            own == Seq::new(
                ledger@.len(),
                |i: int| ledger_row(ledger@[i], current_pid, held@[i]),
            ),
            rows@.len() == i,
            forall|k: int| 0 <= k < i ==> (#[trigger] rows@[k])@ == own[k],
        decreases ledger@.len() - i,
    {
        let e: &LedgerEntry = &ledger.entries[i];
        assert(ledger@[i as int] == e@);
        let stale: bool = current_pid.is_none() || !same_pid(e.master_pid, current_pid)
            || e.error.is_some();
        let error: Option<String> = if asks_port(e, current_pid) && held[i] {
            Some(copy(PORT_HELD))
        } else {
            copy_opt(&e.error)
        };
        let row: ForwardRow = ForwardRow {
            spec: e.spec.copied(),
            origin: copy("ledger"),
            reverse: false,
            stale,
            error,
            deletable: true,
        };
        assert(row@ == own[i as int]);
        rows.push(row);
        i += 1;
    }
    assert(row_views(rows@) =~= own);
    let ghost conf = spec_views(specs@);
    let mut j: usize = 0;
    assert(conf.take(0) =~= seq![]);
    while j < specs.len()
        invariant
            j <= specs@.len(),
            conf == spec_views(specs@),
            row_views(rows@) == with_config(own, conf.take(j as int), current_pid),
        decreases specs@.len() - j,
    {
        proof {
            assert(conf.take(j + 1).drop_last() =~= conf.take(j as int));
            assert(conf.take(j + 1).last() == specs@[j as int]@);
        }
        if !is_listed(&rows, &specs[j]) {
            let row: ForwardRow = ForwardRow {
                spec: specs[j].copied(),
                origin: copy("config"),
                reverse: false,
                stale: current_pid.is_none(),
                error: None,
                deletable: false,
            };
            let ghost before = rows@;
            rows.push(row);
            assert(row_views(rows@) =~= row_views(before).push(row@));
        }
        j += 1;
    }
    assert(conf.take(specs@.len() as int) =~= conf);
    if let Some(port) = hook_port {
        let row: ForwardRow = ForwardRow {
            spec: ForwardSpec {
                listen_host: Some(copy("127.0.0.1")),
                listen_port: port,
                dest_host: copy("127.0.0.1"),
                dest_port: port,
            },
            origin: copy("reserved"),
            reverse: true,
            stale: current_pid.is_none(),
            error: None,
            deletable: false,
        };
        let ghost before = rows@;
        rows.push(row);
        assert(row_views(rows@) =~= row_views(before).push(row@));
    }
    Ok(sort_rows(&rows))
}

/// Only entries of the ledger can be deleted, and every one of them is in the listing.
pub proof fn only_the_ledger_is_deletable(
    l: Seq<EntryView>,
    pid: Option<u32>,
    held: Seq<bool>,
    config: Seq<SpecView>,
    hook_port: Option<u16>,
)
    requires
        held.len() == l.len(),
    ensures
        ({
            let rows = all_rows(l, pid, held, config, hook_port);
            &&& rows.len() >= l.len()
            &&& forall|i: int| 0 <= i < l.len() ==> (#[trigger] rows[i]).spec == l[i].spec
            &&& forall|i: int|
                0 <= i < rows.len() ==> ((#[trigger] rows[i]).deletable <==> i < l.len())
        }),
{
    let own = Seq::new(l.len(), |i: int| ledger_row(l[i], pid, held[i]));
    lemma_config_behind(own, config, pid);
    let rows = with_config(own, config, pid);
    assert forall|i: int| 0 <= i < l.len() implies (#[trigger] rows[i]).spec == l[i].spec by {
        assert(rows[i] == own[i]);
    }
    let all = all_rows(l, pid, held, config, hook_port);
    assert forall|i: int| 0 <= i < l.len() implies (#[trigger] all[i]).spec == l[i].spec by {
        assert(all[i] == rows[i]);
    }
    assert forall|i: int| 0 <= i < all.len() implies ((#[trigger] all[i]).deletable <==> i
        < l.len()) by {
        if i < rows.len() {
            assert(all[i] == rows[i]);
            if i < l.len() {
                assert(rows[i] == own[i]);
            }
        }
    }
}

proof fn lemma_config_behind(own: Seq<RowView>, config: Seq<SpecView>, pid: Option<u32>)
    ensures
        with_config(own, config, pid).len() >= own.len(),
        forall|i: int|
            0 <= i < own.len() ==> #[trigger] with_config(own, config, pid)[i] == own[i],
        forall|i: int|
            own.len() <= i < with_config(own, config, pid).len() ==> !(#[trigger] with_config(
                own,
                config,
                pid,
            )[i]).deletable,
    decreases config.len(),
{
    if config.len() > 0 {
        lemma_config_behind(own, config.drop_last(), pid);
        let before = with_config(own, config.drop_last(), pid);
        let rows = with_config(own, config, pid);
        assert forall|i: int| 0 <= i < before.len() implies #[trigger] rows[i] == before[i] by {}
        assert forall|i: int| own.len() <= i < rows.len() implies !(#[trigger] rows[i]).deletable by {
            if i < before.len() {
                assert(rows[i] == before[i]);
            }
        }
    }
}

// ---------------------------------------------------------------- every host

/// The texts of two lists.
fn both(a: &Vec<String>, b: &Vec<String>) -> (r: Vec<String>)
    ensures
        texts(r@) == texts(a@) + texts(b@),
{
    let mut out: Vec<String> = copy_all(a);
    let mut i: usize = 0;
    assert(texts(b@).take(0) =~= seq![]);
    assert(texts(out@) =~= texts(a@) + texts(b@).take(0));
    while i < b.len()
        invariant
            i <= b@.len(),
            texts(out@) == texts(a@) + texts(b@).take(i as int),
        decreases b@.len() - i,
    {
        let ghost before = out@;
        out.push(copy(b[i].as_str()));
        proof {
            assert(texts(out@) =~= texts(before).push(b@[i as int]@));
            assert(texts(b@).take(i + 1) =~= texts(b@).take(i as int).push(b@[i as int]@));
            assert(texts(out@) =~= texts(a@) + texts(b@).take(i + 1));
        }
        i += 1;
    }
    assert(texts(b@).take(b@.len() as int) =~= texts(b@));
    out
}

/// The hosts whose forwards are listed: those with a ledger and those in use, and those of the
/// configuration where they are asked for; in order, each once.
pub fn forwards_list_all(
    ledger_hosts: &Vec<String>,
    connected: &Vec<String>,
    config_hosts: &Vec<String>,
    include_config_hosts: bool,
) -> (r: Vec<String>)
    ensures
        ascending(texts(r@)),
        forall|h: Seq<char>|
            texts(r@).contains(h) <==> texts(ledger_hosts@).contains(h) || texts(
                connected@,
            ).contains(h) || (include_config_hosts && texts(config_hosts@).contains(h)),
{
    let two: Vec<String> = both(ledger_hosts, connected);
    proof {
        lemma_both(texts(ledger_hosts@), texts(connected@));
        lemma_both(texts(two@), texts(config_hosts@));
    }
    if include_config_hosts {
        sorted_texts(&both(&two, config_hosts))
    } else {
        sorted_texts(&two)
    }
}

proof fn lemma_both(a: Seq<Seq<char>>, b: Seq<Seq<char>>)
    ensures
        forall|x: Seq<char>| (a + b).contains(x) <==> a.contains(x) || b.contains(x),
{
    assert forall|x: Seq<char>| (a + b).contains(x) <==> a.contains(x) || b.contains(x) by {
        if (a + b).contains(x) {
            let i = choose|i: int| 0 <= i < (a + b).len() && (a + b)[i] == x;
            if i < a.len() {
                assert(a[i] == x);
            } else {
                assert(b[i - a.len()] == x);
            }
        }
        if a.contains(x) {
            let i = choose|i: int| 0 <= i < a.len() && a[i] == x;
            assert((a + b)[i] == x);
        }
        if b.contains(x) {
            let i = choose|i: int| 0 <= i < b.len() && b[i] == x;
            assert((a + b)[a.len() + i] == x);
        }
    }
}

// ---------------------------------------------------------------- what the listing promises

proof fn lemma_config_rows(
    own: Seq<RowView>,
    config: Seq<SpecView>,
    pid: Option<u32>,
)
    ensures
        ({
            let rows = with_config(own, config, pid);
            &&& forall|i: int|
                own.len() <= i < rows.len() ==> (#[trigger] rows[i]).origin == "config"@
                    && rows[i].stale == (pid is None) && rows[i].error is None && !rows[i].reverse
                    && !rows[i].deletable && config.contains(rows[i].spec)
            &&& forall|k: int|
                0 <= k < config.len() ==> lists(rows, (#[trigger] config[k]).key())
            &&& (forall|i: int, j: int|
                0 <= i < j < own.len() ==> (#[trigger] own[i]).spec.key() != (
                #[trigger] own[j]).spec.key()) ==> forall|i: int, j: int|
                0 <= i < j < rows.len() ==> (#[trigger] rows[i]).spec.key() != (
                #[trigger] rows[j]).spec.key()
        }),
    decreases config.len(),
{
    lemma_config_behind(own, config, pid);
    if config.len() > 0 {
        let d = config.drop_last();
        lemma_config_rows(own, d, pid);
        lemma_config_behind(own, d, pid);
        let before = with_config(own, d, pid);
        let rows = with_config(own, config, pid);
        assert forall|i: int| own.len() <= i < rows.len() implies (#[trigger] rows[i]).origin
            == "config"@ && rows[i].stale == (pid is None) && rows[i].error is None
            && !rows[i].reverse && !rows[i].deletable && config.contains(rows[i].spec) by {
            if i < before.len() {
                assert(rows[i] == before[i]);
                let q = choose|q: int| 0 <= q < d.len() && d[q] == before[i].spec;
                assert(config[q] == rows[i].spec);
            } else {
                assert(config[config.len() - 1] == rows[i].spec);
            }
        }
        assert forall|k: int| 0 <= k < config.len() implies lists(
            rows,
            (#[trigger] config[k]).key(),
        ) by {
            if k < d.len() {
                assert(d[k] == config[k]);
                let q = choose|q: int|
                    0 <= q < before.len() && (#[trigger] before[q]).spec.key() == config[k].key();
                assert(rows[q] == before[q]);
            } else if lists(before, config.last().key()) {
                assert(rows == before);
            } else {
                assert(rows[rows.len() - 1].spec.key() == config[k].key());
            }
        }
        if forall|i: int, j: int|
            0 <= i < j < own.len() ==> (#[trigger] own[i]).spec.key() != (
            #[trigger] own[j]).spec.key() {
            assert forall|i: int, j: int| 0 <= i < j < rows.len() implies (
            #[trigger] rows[i]).spec.key() != (#[trigger] rows[j]).spec.key() by {
                assert(rows[i] == before[i]);
                if j < before.len() {
                    assert(rows[j] == before[j]);
                } else {
                    assert(!lists(before, config.last().key()));
                }
            }
        }
    }
}

/// A row of the ledger is stale unless the master that runs holds it: it was applied to this master,
/// without an error. Every other row is the master's own and stale exactly where no master runs.
pub proof fn listing_tells_what_the_master_holds(
    out: Seq<RowView>,
    l: Seq<EntryView>,
    pid: Option<u32>,
    held: Seq<bool>,
    config: Seq<SpecView>,
    hook_port: Option<u16>,
    i: int,
)
    requires
        by_port(out, all_rows(l, pid, held, config, hook_port)),
        held.len() == l.len(),
        0 <= i < out.len(),
    ensures
        out[i].origin != "ledger"@ ==> (out[i].stale <==> pid is None) && out[i].error is None
            && !out[i].deletable,
        out[i].origin == "ledger"@ ==> out[i].deletable && exists|k: int|
            0 <= k < l.len() && (#[trigger] l[k]).spec == out[i].spec && (out[i].stale <==> !(pid
                is Some && l[k].master_pid == pid && l[k].error is None)) && (l[k].error is Some
                ==> out[i].error == l[k].error) && (!out[i].stale ==> out[i].error is None) && (
            out[i].stale && l[k].error is None ==> (out[i].error is Some <==> held[k])),
        out[i].reverse <==> hook_port is Some && out[i].origin == "reserved"@,
        out[i].origin == "ledger"@ || out[i].origin == "config"@ || out[i].origin == "reserved"@,
        out[i].origin == "config"@ ==> config.contains(out[i].spec),
{
    reveal_strlit("ledger");
    reveal_strlit("config");
    reveal_strlit("reserved");
    assert("ledger"@.len() == 6 && "ledger"@[0] == 'l');
    assert("config"@.len() == 6 && "config"@[0] == 'c');
    assert("reserved"@.len() == 8);
    let rows = all_rows(l, pid, held, config, hook_port);
    let own = Seq::new(l.len(), |i: int| ledger_row(l[i], pid, held[i]));
    let both = with_config(own, config, pid);
    lemma_config_rows(own, config, pid);
    lemma_config_behind(own, config, pid);
    let order = choose|order: Seq<int>| #[trigger]
        sorts(port_keys(rows), order) && out == Seq::new(order.len(), |k: int| rows[order[k]]);
    let at = order[i];
    assert(0 <= at < rows.len());
    assert(out[i] == rows[at]);
    if at < both.len() {
        assert(rows[at] == both[at]);
        if at < l.len() {
            assert(both[at] == own[at]);
            assert(l[at].spec == out[i].spec);
        }
    }
}

/// The listing leaves nothing out: every entry of the ledger, what every forward of the configuration
/// listens on, and the forward kept for the hooks.
pub proof fn listing_is_complete(
    out: Seq<RowView>,
    l: Seq<EntryView>,
    pid: Option<u32>,
    held: Seq<bool>,
    config: Seq<SpecView>,
    hook_port: Option<u16>,
    k: int,
)
    requires
        by_port(out, all_rows(l, pid, held, config, hook_port)),
        held.len() == l.len(),
    ensures
        0 <= k < l.len() ==> exists|i: int|
            0 <= i < out.len() && (#[trigger] out[i]).spec == l[k].spec && out[i].origin
                == "ledger"@,
        0 <= k < config.len() ==> exists|i: int|
            0 <= i < out.len() && (#[trigger] out[i]).spec.listen_port == config[k].listen_port
                && out[i].spec.listen_host == config[k].listen_host,
        hook_port matches Some(p) ==> exists|i: int|
            0 <= i < out.len() && (#[trigger] out[i]).origin == "reserved"@
                && out[i].spec.listen_port == p && out[i].spec.dest_port == p,
{
    let rows = all_rows(l, pid, held, config, hook_port);
    let own = Seq::new(l.len(), |i: int| ledger_row(l[i], pid, held[i]));
    let both = with_config(own, config, pid);
    lemma_config_rows(own, config, pid);
    lemma_config_behind(own, config, pid);
    let order = choose|order: Seq<int>| #[trigger]
        sorts(port_keys(rows), order) && out == Seq::new(order.len(), |k: int| rows[order[k]]);
    if 0 <= k < l.len() {
        assert(both[k] == own[k]);
        assert(rows[k] == own[k]);
        sorted_holds_every_position(port_keys(rows), order, k);
        let i = choose|i: int| 0 <= i < order.len() && order[i] == k;
        assert(out[i].spec == l[k].spec);
    }
    if 0 <= k < config.len() {
        assert(lists(both, config[k].key()));
        let q = choose|q: int|
            0 <= q < both.len() && (#[trigger] both[q]).spec.key() == config[k].key();
        assert(rows[q] == both[q]);
        sorted_holds_every_position(port_keys(rows), order, q);
        let i = choose|i: int| 0 <= i < order.len() && order[i] == q;
        assert(out[i].spec.key() == config[k].key());
    }
    if let Some(p) = hook_port {
        let q = rows.len() - 1;
        sorted_holds_every_position(port_keys(rows), order, q);
        let i = choose|i: int| 0 <= i < order.len() && order[i] == q;
        assert(out[i].origin == "reserved"@);
    }
}

/// The listing goes by the ports listened on, and, but for the one kept for the hooks, no two rows
/// listen on the same where no two entries of the ledger do.
pub proof fn listing_goes_by_port(
    out: Seq<RowView>,
    l: Seq<EntryView>,
    pid: Option<u32>,
    held: Seq<bool>,
    config: Seq<SpecView>,
    hook_port: Option<u16>,
    i: int,
    j: int,
)
    requires
        by_port(out, all_rows(l, pid, held, config, hook_port)),
        held.len() == l.len(),
        0 <= i < j < out.len(),
    ensures
        out[i].spec.listen_port <= out[j].spec.listen_port,
        one_each(l) && out[i].origin != "reserved"@ && out[j].origin != "reserved"@
            ==> out[i].spec.listen_port != out[j].spec.listen_port || out[i].spec.listen_host
            != out[j].spec.listen_host,
{
    let rows = all_rows(l, pid, held, config, hook_port);
    let own = Seq::new(l.len(), |i: int| ledger_row(l[i], pid, held[i]));
    let both = with_config(own, config, pid);
    lemma_config_rows(own, config, pid);
    let order = choose|order: Seq<int>| #[trigger]
        sorts(port_keys(rows), order) && out == Seq::new(order.len(), |k: int| rows[order[k]]);
    let a = order[i];
    let b = order[j];
    assert(crate::order::follows(port_keys(rows), a, b));
    if one_each(l) && out[i].origin != "reserved"@ && out[j].origin != "reserved"@ {
        assert forall|x: int, y: int| 0 <= x < y < own.len() implies (
        #[trigger] own[x]).spec.key() != (#[trigger] own[y]).spec.key() by {
            assert(l[x].spec.key() != l[y].spec.key());
        }
        assert(a < both.len() && b < both.len());
        assert(rows[a] == both[a] && rows[b] == both[b]);
        if a < b {
            assert(both[a].spec.key() != both[b].spec.key());
        } else {
            assert(both[b].spec.key() != both[a].spec.key());
        }
    }
}

// ---------------------------------------------------------------- what the ledger promises

/// What is added stands last in the ledger, for the master it was applied to and without an error;
/// beside it stands exactly what listens on something else.
pub proof fn added_forward_is_in_the_ledger(
    l: Seq<EntryView>,
    spec: SpecView,
    pid: Option<u32>,
    now: i64,
    e: EntryView,
)
    ensures
        ({
            let a = added(l, spec, pid, now);
            &&& a.len() > 0
            &&& a.last().spec == spec
            &&& a.last().master_pid == pid
            &&& a.last().error is None
            &&& a.last().created_at == now
            &&& a.drop_last().contains(e) <==> l.contains(e) && (e.spec.listen_port
                != spec.listen_port || e.spec.listen_host != spec.listen_host)
            &&& (forall|i: int|
                0 <= i < l.len() ==> (#[trigger] l[i]).spec.listen_port != spec.listen_port
                    || l[i].spec.listen_host != spec.listen_host) ==> a.drop_last() == l
        }),
{
    let a = added(l, spec, pid, now);
    let o = others(l, spec.key());
    assert(a.drop_last() =~= o);
    lemma_others(l, spec.key());
    lemma_others_hold(l, spec.key(), e);
    if o.contains(e) {
        let i = choose|i: int| 0 <= i < o.len() && o[i] == e;
        assert(o[i].spec.key() != spec.key());
    }
    if forall|i: int|
        0 <= i < l.len() ==> (#[trigger] l[i]).spec.listen_port != spec.listen_port
            || l[i].spec.listen_host != spec.listen_host {
        assert forall|i: int| 0 <= i < l.len() implies (#[trigger] l[i]).spec.key()
            != spec.key() by {}
    }
}

proof fn lemma_others_hold(l: Seq<EntryView>, key: ListenKey, e: EntryView)
    ensures
        l.contains(e) && e.spec.key() != key ==> others(l, key).contains(e),
    decreases l.len(),
{
    if l.len() > 0 {
        let d = l.drop_last();
        lemma_others_hold(d, key, e);
        if l.contains(e) && e.spec.key() != key {
            let i = choose|i: int| 0 <= i < l.len() && l[i] == e;
            let o = others(l, key);
            if i < d.len() {
                assert(d[i] == e);
                let k = choose|k: int| 0 <= k < others(d, key).len() && others(d, key)[k] == e;
                assert(o[k] == e);
            } else {
                assert(o[o.len() - 1] == e);
            }
        }
    }
}

/// What a request to remove finds is the first entry that listens on the same, and it finds one
/// wherever there is one.
pub proof fn removal_finds_what_listens(l: Seq<EntryView>, spec: SpecView)
    ensures
        0 <= listed_at(l, spec.key()) <= l.len(),
        listed_at(l, spec.key()) < l.len() ==> l[listed_at(l, spec.key())].spec.listen_port
            == spec.listen_port && l[listed_at(l, spec.key())].spec.listen_host
            == spec.listen_host,
        forall|i: int|
            0 <= i < listed_at(l, spec.key()) ==> (#[trigger] l[i]).spec.listen_port
                != spec.listen_port || l[i].spec.listen_host != spec.listen_host,
{
    lemma_listed(l, spec.key());
}

proof fn lemma_listed(l: Seq<EntryView>, key: ListenKey)
    ensures
        0 <= listed_at(l, key) <= l.len(),
        listed_at(l, key) < l.len() ==> l[listed_at(l, key)].spec.key() == key,
        forall|i: int| 0 <= i < listed_at(l, key) ==> (#[trigger] l[i]).spec.key() != key,
    decreases l.len(),
{
    if l.len() > 0 {
        let d = l.drop_last();
        lemma_listed(d, key);
        let n = listed_at(l, key);
        assert forall|i: int| 0 <= i < n implies (#[trigger] l[i]).spec.key() != key by {
            if i < d.len() {
                assert(d[i] == l[i]);
            }
        }
        if n < d.len() {
            assert(d[n] == l[n]);
        }
    }
}

/// An entry leaves the ledger unless the master that holds it refuses to end it.
pub proof fn refused_entry_stays(e: EntryView, cancel: Result<(), String>, pid: Option<u32>)
    ensures
        may_leave(e, cancel, pid) <==> !(cancel is Err && e.master_pid == pid),
{
}

/// A request to a master went well exactly where ssh ran and ended well.
pub proof fn request_went_well_where_ssh_did(
    op: Seq<char>,
    spec: SpecView,
    run: Result<MuxRun, String>,
)
    ensures
        mux_result(op, spec, run) is Ok <==> run is Ok && run->Ok_0.success,
{
}

/// The master is asked about its own host: the arguments lead to it, name the request and the forward,
/// and end with the host.
pub proof fn request_names_forward_and_host(
    base: Seq<Seq<char>>,
    op: Seq<char>,
    spec: SpecView,
    alias: Seq<char>,
)
    ensures
        ({
            let a = forward_args(base, op, spec, alias);
            let n = base.len() as int;
            &&& a.len() == n + 5
            &&& a.take(n) == base
            &&& a[n] == "-O"@
            &&& a[n + 1] == op
            &&& a[n + 2] == "-L"@
            &&& a[n + 3] == spec.l_arg()
            &&& a[n + 4] == alias
        }),
{
    assert(forward_args(base, op, spec, alias).take(base.len() as int) =~= base);
}

proof fn lemma_number_is_plain(n: nat, c: char)
    requires
        !is_digit(c),
    ensures
        !decimal(n).contains(c),
        decimal(n).len() > 0,
        is_digit(decimal(n)[0]),
        is_digit(decimal(n).last()),
{
    decimal_round_trip(n);
    let d = decimal(n);
    assert(is_digit(d[0]));
    assert(is_digit(d[d.len() - 1]));
    if d.contains(c) {
        let i = choose|i: int| 0 <= i < d.len() && d[i] == c;
        assert(is_digit(d[i]));
    }
}

/// The argument of `-L` names, with colons between, the address listened on, where there is one, the
/// port, the address that the forward leads to and its port, in this order.
pub proof fn forward_argument_names_its_parts(s: SpecView)
    requires
        !s.dest_host.contains(':'),
        s.listen_host matches Some(h) ==> !h.contains(':'),
    ensures
        match s.listen_host {
            Some(h) => fields(s.l_arg(), ':') == seq![
                h,
                decimal(s.listen_port as nat),
                s.dest_host,
                decimal(s.dest_port as nat),
            ],
            None => fields(s.l_arg(), ':') == seq![
                decimal(s.listen_port as nat),
                s.dest_host,
                decimal(s.dest_port as nat),
            ],
        },
{
    reveal_strlit(":");
    let a = decimal(s.listen_port as nat);
    let b = s.dest_host;
    let c = decimal(s.dest_port as nat);
    lemma_number_is_plain(s.listen_port as nat, ':');
    lemma_number_is_plain(s.dest_port as nat, ':');
    let tail = a + ":"@ + b + ":"@ + c;
    assert(tail =~= a.push(':') + (b.push(':') + c));
    lemma_fields_first(a, b.push(':') + c, ':');
    lemma_fields_first(b, c, ':');
    lemma_fields_first(c, c, ':');
    assert(fields(tail, ':') =~= seq![a, b, c]);
    if let Some(h) = s.listen_host {
        assert(h + ":"@ + tail =~= h.push(':') + tail);
        lemma_fields_first(h, tail, ':');
        assert(fields(h.push(':') + tail, ':') =~= seq![h, a, b, c]);
    }
}

/// A port alone, an address and a port with a colon between, and an address in brackets are read as
/// what they are.
#[verifier::spinoff_prover]
#[verifier::rlimit(60)]
pub proof fn addresses_are_read(host: Seq<char>, port: u16)
    requires
        host.len() > 0,
        !white(host[0]),
        host[0] != '[',
    ensures
        fwd_part(decimal(port as nat)) == Some((None::<Seq<char>>, port as nat)),
        fwd_part(host + ":"@ + decimal(port as nat)) == Some((Some(host), port as nat)),
        !host.contains(']') ==> fwd_part("["@ + host + "]:"@ + decimal(port as nat)) == Some(
            (Some(host), port as nat),
        ),
{
    reveal_strlit(":");
    reveal_strlit("[");
    reveal_strlit("]:");
    let d = decimal(port as nat);
    lemma_number_is_plain(port as nat, ':');
    unsigned_round_trip(port as nat, u16::MAX as nat);
    let e = Seq::<char>::empty();
    assert(e + d + e =~= d);
    trimming_takes_the_white_ends(e, d, e);
    assert forall|k: int| -1 < k < d.len() implies #[trigger] d[k] != ':' by {
        assert(d.contains(d[k]));
    }
    lemma_last_index_is(d, ':', -1);
    let a = host + ":"@ + d;
    assert(a.last() == d.last());
    assert(a[0] == host[0]);
    assert(e + a + e =~= a);
    trimming_takes_the_white_ends(e, a, e);
    assert forall|k: int| host.len() < k < a.len() implies #[trigger] a[k] != ':' by {
        assert(a[k] == d[k - host.len() - 1]);
    }
    lemma_last_index_is(a, ':', host.len() as int);
    assert(a.take(host.len() as int) =~= host);
    assert(a.skip(host.len() as int + 1) =~= d);
    if !host.contains(']') {
        let b = "["@ + host + "]:"@ + d;
        assert(b.last() == d.last());
        assert(b[0] == '[');
        assert(e + b + e =~= b);
        trimming_takes_the_white_ends(e, b, e);
        let t = b.skip(1);
        assert(t =~= host + "]:"@ + d);
        assert(t.skip(host.len() as int) =~= "]:"@ + d);
        assert(("]:"@ + d).subrange(0, 2) =~= "]:"@);
        assert forall|k: int| 0 <= k < host.len() implies !"]:"@.is_prefix_of(
            #[trigger] t.skip(k),
        ) by {
            if "]:"@.is_prefix_of(t.skip(k)) {
                assert(t.skip(k).subrange(0, 2)[0] == ']');
                assert(t[k] == host[k]);
                assert(host.contains(host[k]));
            }
        }
        lemma_first_at(t, "]:"@, 0, host.len() as int);
        assert(t.take(host.len() as int) =~= host);
        assert(t.skip(host.len() as int + 2) =~= d);
    }
}

proof fn lemma_first_at(s: Seq<char>, p: Seq<char>, from: int, at: int)
    requires
        0 <= from <= at <= s.len(),
        p.is_prefix_of(s.skip(at)),
        forall|k: int| from <= k < at ==> !p.is_prefix_of(#[trigger] s.skip(k)),
    ensures
        crate::split::first_at(s, p, from) == at,
    decreases at - from,
{
    if from < at {
        lemma_first_at(s, p, from + 1, at);
    }
}

/// A forward of the configuration is what its line says: what is listened on, a space, and where it
/// leads.
#[verifier::spinoff_prover]
#[verifier::rlimit(60)]
pub proof fn configured_forward_is_read(
    listen: Seq<char>,
    dest: Seq<char>,
    lh: Option<Seq<char>>,
    lp: u16,
    dh: Option<Seq<char>>,
    dp: u16,
)
    requires
        fwd_part(listen) == Some((lh, lp as nat)),
        fwd_part(dest) == Some((dh, dp as nat)),
        listen.len() > 0,
        !listen.contains(' '),
        !white(listen[0]),
        dest.len() > 0,
        !white(dest.last()),
    ensures
        local_forward(listen + " "@ + dest) == Some(
            SpecView {
                listen_host: lh,
                listen_port: lp,
                dest_host: match dh {
                    Some(h) => h,
                    None => "localhost"@,
                },
                dest_port: dp,
            },
        ),
        config_forwards(seq!["localforward "@ + (listen + " "@ + dest)]) == seq![
            local_forward(listen + " "@ + dest)->0,
        ],
{
    reveal_strlit(" ");
    let e = Seq::<char>::empty();
    let v = listen + " "@ + dest;
    assert(v[0] == listen[0]);
    assert(v.last() == dest.last());
    assert(e + v + e =~= v);
    trimming_takes_the_white_ends(e, v, e);
    assert forall|k: int| 0 <= k < listen.len() implies #[trigger] v[k] != ' ' by {
        assert(v[k] == listen[k]);
        assert(listen.contains(listen[k]));
    }
    lemma_index_is(v, ' ', listen.len() as int);
    assert(v.take(listen.len() as int) =~= listen);
    assert(v.skip(listen.len() as int + 1) =~= dest);
    let row = "localforward "@ + v;
    let n = "localforward "@.len() as int;
    assert(row.subrange(0, n) =~= "localforward "@);
    assert(row.skip(n) =~= v);
    let rows = seq![row];
    assert(rows.drop_last() =~= seq![]);
    assert(config_forwards(rows.drop_last()) =~= seq![]);
    assert(config_forwards(rows) =~= seq![local_forward(v)->0]);
}

/// The forwards of the configuration stand in the order of its lines, none lost.
pub proof fn configured_forwards_go_line_by_line(a: Seq<Seq<char>>, b: Seq<Seq<char>>)
    ensures
        config_forwards(a + b) == config_forwards(a) + config_forwards(b),
        a.len() == 1 && !"localforward "@.is_prefix_of(a[0]) ==> config_forwards(a).len() == 0,
    decreases b.len(),
{
    if b.len() == 0 {
        assert(a + b =~= a);
        assert(config_forwards(a) + config_forwards(b) =~= config_forwards(a));
    } else {
        configured_forwards_go_line_by_line(a, b.drop_last());
        assert((a + b).drop_last() =~= a + b.drop_last());
        assert((a + b).last() == b.last());
        assert(config_forwards(a + b) =~= config_forwards(a) + config_forwards(b));
    }
    if a.len() == 1 {
        assert(config_forwards(a.drop_last()).len() == 0);
    }
}

/// The process id of a master is the number behind the first `pid=` that ssh prints, on either stream;
/// where ssh failed there is none.
pub proof fn master_is_the_number_behind_pid(before: Seq<char>, pid: u32, after: Seq<char>)
    requires
        !before.contains('p'),
        after.len() > 0 ==> !is_digit(after[0]),
    ensures
        pid_in(before + "pid="@ + decimal(pid as nat) + after) == Some(pid as nat),
        pid_in(before) is None,
{
    reveal_strlit("pid=");
    let d = decimal(pid as nat);
    let s = before + "pid="@ + d + after;
    let at = before.len() as int;
    let p = "pid="@;
    decimal_round_trip(pid as nat);
    unsigned_round_trip(pid as nat, u32::MAX as nat);
    assert(s.skip(at) =~= p + (d + after));
    assert((p + (d + after)).subrange(0, 4) =~= p);
    assert forall|k: int| 0 <= k < at implies !p.is_prefix_of(#[trigger] s.skip(k)) by {
        if p.is_prefix_of(s.skip(k)) {
            assert(s.skip(k).subrange(0, 4)[0] == 'p');
            assert(s[k] == before[k]);
            assert(before.contains(before[k]));
        }
    }
    lemma_first_at(s, p, 0, at);
    let t = s.skip(at + 4);
    assert(t =~= d + after);
    assert forall|k: int| 0 <= k < d.len() implies digits()(#[trigger] t[k]) by {
        assert(t[k] == d[k]);
        assert(is_digit(d[k]));
    }
    if after.len() > 0 {
        assert(t[d.len() as int] == after[0]);
    }
    lemma_lead_is(t, digits(), d.len());
    assert(t.take(d.len() as int) =~= d);
    assert forall|k: int| 0 <= k <= before.len() implies !p.is_prefix_of(
        #[trigger] before.skip(k),
    ) by {
        if p.is_prefix_of(before.skip(k)) {
            assert(before.skip(k).subrange(0, 4)[0] == 'p');
            assert(before.contains(before[k]));
        }
    }
    lemma_nowhere(before, p, 0);
}

proof fn lemma_nowhere(s: Seq<char>, p: Seq<char>, from: int)
    requires
        0 <= from <= s.len() + 1,
        forall|k: int| from <= k <= s.len() ==> !p.is_prefix_of(#[trigger] s.skip(k)),
    ensures
        crate::split::first_at(s, p, from) == -1,
    decreases s.len() + 1 - from,
{
    if from <= s.len() {
        lemma_nowhere(s, p, from + 1);
    }
}

/// A master that answers well names its process, wherever it prints it; one that does not names none. Our
/// own is asked over our own socket, the user's over the one of the configuration.
pub proof fn answering_master_names_its_process(o: ExecOutcome)
    ensures
        !o.timed_out && o.code == Some(0i32) ==> reported_pid(Some(o)) == pid_in(o.stdout@ + o.stderr@),
        o.timed_out || o.code != Some(0i32) ==> reported_pid(Some(o)) is None,
        reported_pid(None) is None,
        mux_args(true).len() == 0,
        mux_args(false) == seq!["-o"@, "ControlPath="@ + "~/.ssh/ccc-cm-%C"@],
{
}

/// Of a host's name slashes are underscores in the names of its files, and nothing else is changed.
pub proof fn host_keeps_its_name_in_files(alias: &str, ext: &str, r: String, i: int)
    requires
        call_ensures(host_file, (alias, ext), r),
        0 <= i < alias@.len(),
    ensures
        r@.len() == alias@.len() + ext@.len(),
        alias@[i] == '/' || alias@[i] == '\\' ==> r@[i] == '_',
        alias@[i] != '/' && alias@[i] != '\\' ==> r@[i] == alias@[i],
        ext@.is_suffix_of(r@),
{
    assert(r@.subrange(r@.len() - ext@.len(), r@.len() as int) =~= ext@);
}

/// A port is tried only for an entry of another master that carries no error.
pub proof fn port_is_tried_for_the_outdated(e: EntryView, pid: Option<u32>)
    ensures
        e.error is Some ==> !port_matters(e, pid),
        e.error is None && pid is None ==> port_matters(e, pid),
        e.error is None && pid is Some ==> (port_matters(e, pid) <==> e.master_pid != pid),
{
}

/// A request that was refused says why: what ssh said, behind a word on a port that is taken or a master
/// that is gone, and where ssh said nothing the request and how ssh ended.
pub proof fn refused_request_says_why(op: Seq<char>, spec: SpecView, o: MuxRun, e: String)
    requires
        !o.success,
    ensures
        mux_result(op, spec, Err(e)) == Err::<(), Seq<char>>("ssh の起動に失敗: "@ + e@),
        ({
            let said = trimmed(o.stderr@);
            let why = mux_result(op, spec, Ok(o))->Err_0;
            &&& mux_result(op, spec, Ok(o)) is Err
            &&& said.len() > 0 ==> said.is_suffix_of(why)
            &&& said.len() == 0 ==> why == "ssh -O "@ + op + " が非ゼロ終了: "@ + o.status@
            &&& said.len() > 0 && crate::split::has(said, "Port forwarding failed"@) ==> why
                == "listen ポート "@ + decimal(spec.listen_port as nat)
                + " が既に使用中です（別プロセス、または別ホストの ssh master が同じポートを forward している可能性）: "@
                + said
            &&& said.len() > 0 && !crate::split::has(said, "Port forwarding failed"@)
                && !crate::split::has(said, "Control socket connect"@) ==> why == said
            &&& said.len() > 0 && !crate::split::has(said, "Port forwarding failed"@)
                && crate::split::has(said, "Control socket connect"@) ==> why != said
        }),
{
    let said = trimmed(o.stderr@);
    let why = mux_result(op, spec, Ok(o))->Err_0;
    let gone =
        "control master に到達できません。master が終了したか、`ssh -O stop` で ソケットが削除されています。ホストへ接続し直すと新しい master が立ち、ccc 追加分の forward は自動で再適用されます: "@;
    reveal_strlit(
        "control master に到達できません。master が終了したか、`ssh -O stop` で ソケットが削除されています。ホストへ接続し直すと新しい master が立ち、ccc 追加分の forward は自動で再適用されます: ",
    );
    assert(gone.len() > 0);
    if said.len() > 0 {
        assert(why.subrange(why.len() - said.len(), why.len() as int) =~= said);
    }
}

} // verus!
