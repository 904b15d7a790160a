//! The wrapper around ssh: its own commands, and what it does before a connection.

use crate::number::{
    decimal, decimal_round_trip, is_digit, parse_u16, push_u64, unsigned, unsigned_round_trip,
};
use crate::split::{
    contains, contains_char, fields, has, join, joined, lemma_fields_first, lemma_fields_free,
    lemma_last_index_is, rcut, rsplit_once, split, starts_with,
};
use crate::sshkit::forwards::{opt_spec, row_views, ForwardRow, ForwardSpec, RowView, SpecView};
use crate::sshkit::heal::HealOutcome;
use crate::sshkit::liveness::{MasterCheck, MasterLiveness};
use crate::text::{
    chars_of, copy, opt_text, pad_behind, pad_front, pad_left, pad_right, same, spaces, texts,
};
use vstd::prelude::*;

verus! {

/// What the arguments ask for.
#[derive(Clone, Copy, PartialEq, Eq, Debug, Structural)]
pub enum Request {
    /// `fwd`: forwards are listed, added or removed.
    Forward,
    /// `down`: the master is ended.
    Down,
    /// `heal`: the forward to the agent is set up anew.
    Heal,
    /// The help text.
    Help,
    /// Anything else goes to ssh.
    Connect,
}

/// What the arguments ask for.
pub fn read_request(args: &Vec<String>) -> (r: Request)
    ensures
        r == if args@.len() == 0 || args@[0]@ == "--ccc-help"@ {
            Request::Help
        } else if args@[0]@ == "fwd"@ {
            Request::Forward
        } else if args@[0]@ == "down"@ {
            Request::Down
        } else if args@[0]@ == "heal"@ {
            Request::Heal
        } else {
            Request::Connect
        },
{
    if args.len() == 0 {
        return Request::Help;
    }
    let first: &str = args[0].as_str();
    if same(first, "--ccc-help") {
        Request::Help
    } else if same(first, "fwd") {
        Request::Forward
    } else if same(first, "down") {
        Request::Down
    } else if same(first, "heal") {
        Request::Heal
    } else {
        Request::Connect
    }
}

// ---------------------------------------------------------------- connections

/// Whether an option makes ssh answer without a connection.
pub open spec fn offline(arg: Seq<char>) -> bool {
    arg == "-G"@ || arg == "-O"@ || arg == "-Q"@ || arg == "-V"@
}

/// Whether ssh answers without a connection, so that nothing is to be done before it.
pub fn needs_no_hook(args: &Vec<String>) -> (r: bool)
    ensures
        r == exists|i: int| 0 <= i < args@.len() && offline(#[trigger] args@[i]@),
{
    let mut i: usize = 0;
    while i < args.len()
        invariant
            i <= args@.len(),
            forall|k: int| 0 <= k < i ==> !offline(#[trigger] args@[k]@),
        decreases args@.len() - i,
    {
        let a: &str = args[i].as_str();
        if same(a, "-G") || same(a, "-O") || same(a, "-Q") || same(a, "-V") {
            assert(offline(args@[i as int]@));
            return true;
        }
        i += 1;
    }
    false
}

/// Whether an option of ssh takes a value.
pub open spec fn takes_value(c: char) -> bool {
    "bBcDEeFIiJLlmOopQRSWw"@.contains(c)
}

/// The options of ssh that take a value.
const VALUE_OPTS: &'static str = "bBcDEeFIiJLlmOopQRSWw";

/// The host of a destination: what stands behind the last `@`.
pub open spec fn host_of(dest: Seq<char>) -> Seq<char> {
    match rcut(dest, '@') {
        Some((_, host)) => host,
        None => dest,
    }
}

/// The host of a destination.
pub fn strip_user(dest: &str) -> (r: String)
    ensures
        r@ == host_of(dest@),
{
    match rsplit_once(dest, '@') {
        Some((_, host)) => host,
        None => copy(dest),
    }
}

/// The host that the arguments from `i` on lead to: the first that is neither an option nor an
/// option's value, or the one behind `--`. None where that cannot be told, as with a URI.
pub open spec fn destination(args: Seq<Seq<char>>, i: int) -> Option<Seq<char>>
    decreases args.len() - i,
{
    if i < 0 || i >= args.len() {
        None
    } else if args[i] == "--"@ {
        if i + 1 < args.len() {
            Some(host_of(args[i + 1]))
        } else {
            None
        }
    } else if args[i].len() > 0 && args[i][0] == '-' {
        if args[i].len() == 1 {
            None
        } else if args[i].len() == 2 && takes_value(args[i][1]) {
            if i + 1 < args.len() {
                destination(args, i + 2)
            } else {
                None
            }
        } else {
            destination(args, i + 1)
        }
    } else if "ssh://"@.is_prefix_of(args[i]) {
        None
    } else {
        Some(host_of(args[i]))
    }
}

/// The host that the arguments lead to, where that can be told.
pub fn guess_destination(args: &Vec<String>) -> (r: Option<String>)
    ensures
        opt_text(r) == destination(texts(args@), 0),
{
    let ghost all = texts(args@);
    let n: usize = args.len();
    let mut i: usize = 0;
    while i < n
        invariant
            i <= n == args@.len() == all.len(),
            all == texts(args@),
            destination(all, i as int) == destination(all, 0),
        decreases n - i,
    {
        let arg: &str = args[i].as_str();
        assert(all[i as int] == arg@);
        if same(arg, "--") {
            if i + 1 < n {
                assert(all[i + 1] == args@[i + 1]@);
                return Some(strip_user(args[i + 1].as_str()));
            }
            return None;
        }
        let cs: Vec<char> = chars_of(arg);
        if cs.len() > 0 && cs[0] == '-' {
            if cs.len() == 1 {
                return None;
            }
            if cs.len() == 2 && contains_char(VALUE_OPTS, cs[1]) {
                if i + 1 >= n {
                    return None;
                }
                i += 2;
            } else {
                i += 1;
            }
            continue;
        }
        if starts_with(arg, "ssh://") {
            return None;
        }
        return Some(strip_user(arg));
    }
    None
}

/// How an ssh that was run ended.
#[derive(Clone, Copy, PartialEq, Eq, Debug, Structural)]
pub enum Ended {
    /// It did not start.
    NotStarted,
    /// With this exit code.
    Code(i32),
    /// By this signal.
    Signal(u8),
    /// In a way that cannot be told.
    Unknown,
    /// Its end could not be waited for.
    Lost,
}

/// The exit code to hand on.
pub fn exit_code(ended: Ended) -> (r: i32)
    ensures
        r == match ended {
            Ended::NotStarted => 127i32,
            Ended::Code(c) => c,
            Ended::Signal(s) => (128 + s) as i32,
            Ended::Unknown => 130,
            Ended::Lost => 1,
        },
{
    match ended {
        Ended::NotStarted => 127,
        Ended::Code(c) => c,
        Ended::Signal(s) => 128 + s as i32,
        Ended::Unknown => 130,
        Ended::Lost => 1,
    }
}

/// Whether a message is shown while all goes well only to those who ask for every message.
pub open spec fn worth_showing(msg: Seq<char>) -> bool {
    has(msg, "不調"@) || has(msg, "修復"@) || has(msg, "再要求"@) || has(msg, "[liveness]"@)
}

/// Whether a message from before a connection is shown.
pub fn is_shown(msg: &str, verbose: bool) -> (r: bool)
    ensures
        r == (verbose || worth_showing(msg@)),
{
    verbose || contains(msg, "不調") || contains(msg, "修復") || contains(msg, "再要求") || contains(
        msg,
        "[liveness]",
    )
}

/// What is to be done about a master before a connection.
#[derive(Clone, Copy, PartialEq, Eq, Debug, Structural)]
pub enum Preflight {
    /// Nothing.
    Leave,
    /// Remove the sockets that a master before has left behind.
    CleanUp,
    /// End the dead master and start it anew.
    Recover,
    /// End the dead master.
    EndOnly { pid: Option<u32> },
}

/// What is to be done about a master before a connection. `last` is the master that was last
/// found healthy; `user_cm` tells whether the user's configuration keeps the master.
pub fn preflight_master(live: MasterLiveness, last: Option<u32>, user_cm: bool) -> (r: Preflight)
    ensures
        r == match live {
            MasterLiveness::HalfOpen { pid } => if user_cm {
                Preflight::Recover
            } else {
                Preflight::EndOnly { pid }
            },
            MasterLiveness::Wedged => if user_cm {
                Preflight::Recover
            } else {
                Preflight::EndOnly { pid: last }
            },
            MasterLiveness::NoMaster => if last is Some {
                Preflight::CleanUp
            } else {
                Preflight::Leave
            },
            _ => Preflight::Leave,
        },
{
    let pid: Option<u32> = match live {
        MasterLiveness::HalfOpen { pid } => pid,
        MasterLiveness::Wedged => last,
        MasterLiveness::NoMaster => {
            return if last.is_some() {
                Preflight::CleanUp
            } else {
                Preflight::Leave
            };
        },
        _ => {
            return Preflight::Leave;
        },
    };
    if user_cm {
        Preflight::Recover
    } else {
        Preflight::EndOnly { pid }
    }
}

// ---------------------------------------------------------------- forwards

/// The forward that `port`, `listen:port`, `listen:host:port` or `bind:listen:host:port` names;
/// without a host it leads to `localhost`.
pub open spec fn l_spec(s: Seq<char>) -> Option<SpecView> {
    let p = fields(s, ':');
    if p.len() == 1 {
        with_ports(None, p[0], "localhost"@, p[0])
    } else if p.len() == 2 {
        with_ports(None, p[0], "localhost"@, p[1])
    } else if p.len() == 3 {
        with_ports(None, p[0], p[1], p[2])
    } else if p.len() == 4 {
        with_ports(Some(p[0]), p[1], p[2], p[3])
    } else {
        None
    }
}

/// A forward between two ports, where both are port numbers.
pub open spec fn with_ports(
    bind: Option<Seq<char>>,
    listen: Seq<char>,
    host: Seq<char>,
    dest: Seq<char>,
) -> Option<SpecView> {
    match (unsigned(listen, u16::MAX as nat), unsigned(dest, u16::MAX as nat)) {
        (Some(l), Some(d)) => Some(
            SpecView {
                listen_host: bind,
                listen_port: l as u16,
                dest_host: host,
                dest_port: d as u16,
            },
        ),
        _ => None,
    }
}

fn make_spec(bind: Option<String>, listen: &str, host: &str, dest: &str) -> (r: Option<ForwardSpec>)
    ensures
        opt_spec(r) == with_ports(opt_text(bind), listen@, host@, dest@),
{
    match (parse_u16(listen), parse_u16(dest)) {
        (Some(l), Some(d)) => Some(
            ForwardSpec {
                listen_host: bind,
                listen_port: l,
                dest_host: copy(host),
                dest_port: d,
            },
        ),
        _ => None,
    }
}

/// The forward that `port`, `listen:port`, `listen:host:port` or `bind:listen:host:port` names;
/// without a host it leads to `localhost`.
pub fn parse_l_spec(s: &str) -> (r: Option<ForwardSpec>)
    ensures
        opt_spec(r) == l_spec(s@),
{
    let p: Vec<String> = split(s, ':');
    let ghost f = fields(s@, ':');
    assert(f.len() == p@.len());
    assert(forall|i: int| 0 <= i < p@.len() ==> #[trigger] p@[i]@ == f[i]);
    if p.len() == 1 {
        make_spec(None, p[0].as_str(), "localhost", p[0].as_str())
    } else if p.len() == 2 {
        make_spec(None, p[0].as_str(), "localhost", p[1].as_str())
    } else if p.len() == 3 {
        make_spec(None, p[0].as_str(), p[1].as_str(), p[2].as_str())
    } else if p.len() == 4 {
        make_spec(Some(copy(p[0].as_str())), p[1].as_str(), p[2].as_str(), p[3].as_str())
    } else {
        None
    }
}

/// The argument of a forward is read back as that forward, whatever hosts without a colon it
/// names.
pub proof fn l_arg_is_read_back(f: SpecView)
    requires
        !f.dest_host.contains(':'),
        f.listen_host is Some ==> !f.listen_host->0.contains(':'),
    ensures
        l_spec(f.l_arg()) == Some(f),
{
    reveal_strlit(":");
    let l = decimal(f.listen_port as nat);
    let d = decimal(f.dest_port as nat);
    unsigned_round_trip(f.listen_port as nat, u16::MAX as nat);
    unsigned_round_trip(f.dest_port as nat, u16::MAX as nat);
    lemma_no_colon(f.listen_port as nat);
    lemma_no_colon(f.dest_port as nat);
    let two = f.dest_host.push(':') + d;
    let three = l.push(':') + two;
    lemma_fields_first(d, seq![], ':');
    lemma_fields_first(f.dest_host, d, ':');
    lemma_fields_first(l, two, ':');
    assert(fields(two, ':') =~= seq![f.dest_host, d]);
    assert(fields(three, ':') =~= seq![l, f.dest_host, d]);
    match f.listen_host {
        Some(h) => {
            lemma_fields_first(h, three, ':');
            assert(f.l_arg() =~= h.push(':') + three);
            assert(fields(f.l_arg(), ':') =~= seq![h, l, f.dest_host, d]);
        },
        None => {
            assert(f.l_arg() =~= three);
        },
    }
}

proof fn lemma_no_colon(n: nat)
    ensures
        !decimal(n).contains(':'),
{
    decimal_round_trip(n);
    if decimal(n).contains(':') {
        let k = choose|k: int| 0 <= k < decimal(n).len() && decimal(n)[k] == ':';
        assert(is_digit(decimal(n)[k]));
    }
}

/// What the arguments of `fwd` ask for.
#[derive(Debug)]
pub enum FwdRequest {
    List { host: String },
    Add { host: String, spec: ForwardSpec },
    /// Only what is listened on counts of the forward.
    Remove { host: String, spec: ForwardSpec },
    /// How `list` is used.
    ListUsage,
    /// How `add` is used.
    AddUsage,
    /// This is no forward.
    BadSpec(String),
    /// How `rm` is used.
    RemoveUsage,
    /// This is no port.
    BadPort(String),
    /// How `fwd` is used.
    Usage,
}

/// A request as text.
pub enum FwdView {
    List(Seq<char>),
    Add(Seq<char>, SpecView),
    Remove(Seq<char>, SpecView),
    ListUsage,
    AddUsage,
    BadSpec(Seq<char>),
    RemoveUsage,
    BadPort(Seq<char>),
    Usage,
}

impl FwdRequest {
    pub open spec fn view(&self) -> FwdView {
        match *self {
            FwdRequest::List { host } => FwdView::List(host@),
            FwdRequest::Add { host, spec } => FwdView::Add(host@, spec@),
            FwdRequest::Remove { host, spec } => FwdView::Remove(host@, spec@),
            FwdRequest::ListUsage => FwdView::ListUsage,
            FwdRequest::AddUsage => FwdView::AddUsage,
            FwdRequest::BadSpec(s) => FwdView::BadSpec(s@),
            FwdRequest::RemoveUsage => FwdView::RemoveUsage,
            FwdRequest::BadPort(s) => FwdView::BadPort(s@),
            FwdRequest::Usage => FwdView::Usage,
        }
    }
}

/// What the arguments of `fwd` ask for.
pub open spec fn fwd_request(args: Seq<Seq<char>>) -> FwdView {
    if args.len() == 0 {
        FwdView::Usage
    } else if args[0] == "list"@ {
        if args.len() < 2 {
            FwdView::ListUsage
        } else {
            FwdView::List(args[1])
        }
    } else if args[0] == "add"@ {
        if args.len() < 3 {
            FwdView::AddUsage
        } else {
            match l_spec(args[2]) {
                Some(s) => FwdView::Add(args[1], s),
                None => FwdView::BadSpec(args[2]),
            }
        }
    } else if args[0] == "rm"@ {
        if args.len() < 3 {
            FwdView::RemoveUsage
        } else {
            match unsigned(args[2], u16::MAX as nat) {
                Some(p) => FwdView::Remove(
                    args[1],
                    SpecView {
                        listen_host: None,
                        listen_port: p as u16,
                        dest_host: seq![],
                        dest_port: 0,
                    },
                ),
                None => FwdView::BadPort(args[2]),
            }
        }
    } else {
        FwdView::Usage
    }
}

/// What the arguments of `fwd` ask for.
pub fn cmd_fwd(args: &Vec<String>) -> (r: FwdRequest)
    ensures
        r@ == fwd_request(texts(args@)),
{
    let ghost all = texts(args@);
    if args.len() == 0 {
        return FwdRequest::Usage;
    }
    assert(all[0] == args@[0]@);
    let word: &str = args[0].as_str();
    if same(word, "list") {
        if args.len() < 2 {
            return FwdRequest::ListUsage;
        }
        return FwdRequest::List { host: copy(args[1].as_str()) };
    }
    if same(word, "add") {
        if args.len() < 3 {
            return FwdRequest::AddUsage;
        }
        return match parse_l_spec(args[2].as_str()) {
            Some(spec) => FwdRequest::Add { host: copy(args[1].as_str()), spec },
            None => FwdRequest::BadSpec(copy(args[2].as_str())),
        };
    }
    if same(word, "rm") {
        if args.len() < 3 {
            return FwdRequest::RemoveUsage;
        }
        return match parse_u16(args[2].as_str()) {
            Some(port) => {
                let spec: ForwardSpec = ForwardSpec {
                    listen_host: None,
                    listen_port: port,
                    dest_host: String::new(),
                    dest_port: 0,
                };
                assert(spec@.dest_host =~= seq![]);
                FwdRequest::Remove { host: copy(args[1].as_str()), spec }
            },
            None => FwdRequest::BadPort(copy(args[2].as_str())),
        };
    }
    FwdRequest::Usage
}

/// The exit code of a request that cannot be carried out: 2 for one that was not understood.
pub fn usage_code(r: &FwdRequest) -> (c: Option<i32>)
    ensures
        c == match r@ {
            FwdView::List(_) => None::<i32>,
            FwdView::Add(_, _) => None,
            FwdView::Remove(_, _) => None,
            _ => Some(2i32),
        },
{
    match r {
        FwdRequest::List { .. } => None,
        FwdRequest::Add { .. } => None,
        FwdRequest::Remove { .. } => None,
        _ => Some(2),
    }
}

/// The exit code of a request that was carried out: 0, or 1 where it failed.
pub fn done_code<T>(r: &Result<T, String>) -> (c: i32)
    ensures
        c == if r is Ok {
            0i32
        } else {
            1
        },
{
    match r {
        Ok(_) => 0,
        Err(_) => 1,
    }
}

/// `host:port`.
pub open spec fn endpoint(host: Seq<char>, port: u16) -> Seq<char> {
    host + ":"@ + decimal(port as nat)
}

fn show_endpoint(host: &str, port: u16) -> (r: String)
    ensures
        r@ == endpoint(host@, port),
{
    let mut s: String = copy(host);
    s.append(":");
    push_u64(&mut s, port as u64);
    s
}

/// What is said of where a row comes from and whether it is stale.
pub open spec fn row_tags(row: RowView) -> Seq<Seq<char>> {
    if row.stale {
        seq![row.origin, "失効"@]
    } else {
        seq![row.origin]
    }
}

/// The line of a row: what is listened on, an arrow, where it leads, and its tags.
pub open spec fn row_line(row: RowView) -> Seq<char> {
    let listen = endpoint(
        match row.spec.listen_host {
            Some(h) => h,
            None => "localhost"@,
        },
        row.spec.listen_port,
    );
    let arrow = if row.reverse {
        " <- "@
    } else {
        " -> "@
    };
    pad_front(listen, 22) + arrow + pad_behind(
        endpoint(row.spec.dest_host, row.spec.dest_port),
        22,
    ) + " ["@ + joined(row_tags(row), ", "@) + "]"@
}

/// The line of a row.
fn show_row(row: &ForwardRow) -> (r: String)
    ensures
        r@ == row_line(row@),
{
    let listen: String = match &row.spec.listen_host {
        Some(h) => show_endpoint(h.as_str(), row.spec.listen_port),
        None => show_endpoint("localhost", row.spec.listen_port),
    };
    let dest: String = show_endpoint(row.spec.dest_host.as_str(), row.spec.dest_port);
    let mut tags: Vec<String> = Vec::new();
    tags.push(copy(row.origin.as_str()));
    if row.stale {
        tags.push(copy("失効"));
    }
    assert(texts(tags@) =~= row_tags(row@));
    let mut s: String = pad_left(listen.as_str(), 22);
    if row.reverse {
        s.append(" <- ");
    } else {
        s.append(" -> ");
    }
    s.append(pad_right(dest.as_str(), 22).as_str());
    s.append(" [");
    s.append(join(&tags, ", ").as_str());
    s.append("]");
    s
}

/// The lines of the rows: each row's own and, where something is wrong, what that is.
pub open spec fn row_lines(rows: Seq<RowView>) -> Seq<Seq<char>>
    decreases rows.len(),
{
    if rows.len() == 0 {
        seq![]
    } else {
        let with_row = row_lines(rows.drop_last()).push(row_line(rows.last()));
        match rows.last().error {
            Some(e) => with_row.push(spaces(25) + "! "@ + e),
            None => with_row,
        }
    }
}

/// The lines of a listing.
pub fn list_lines(rows: &Vec<ForwardRow>) -> (r: Vec<String>)
    ensures
        texts(r@) == if rows@.len() == 0 {
            seq!["(forward なし)"@]
        } else {
            row_lines(row_views(rows@))
        },
{
    let ghost all = row_views(rows@);
    let mut out: Vec<String> = Vec::new();
    if rows.len() == 0 {
        out.push(copy("(forward なし)"));
        assert(texts(out@) =~= seq!["(forward なし)"@]);
        return out;
    }
    let mut i: usize = 0;
    assert(texts(out@) =~= seq![]);
    assert(all.take(0) =~= seq![]);
    while i < rows.len()
        invariant
            i <= rows@.len(),
            all == row_views(rows@),
            texts(out@) == row_lines(all.take(i as int)),
        decreases rows@.len() - i,
    {
        proof {
            assert(all.take(i + 1).drop_last() =~= all.take(i as int));
            assert(all.take(i + 1).last() == rows@[i as int]@);
        }
        let ghost before = out@;
        let line: String = show_row(&rows[i]);
        out.push(line);
        assert(texts(out@) =~= texts(before).push(line@));
        if let Some(e) = &rows[i].error {
            let mut m: String = pad_left("", 25);
            proof {
                reveal_strlit("");
                assert(m@ =~= spaces(25));
            }
            m.append("! ");
            m.append(e.as_str());
            let ghost mid = out@;
            out.push(m);
            assert(texts(out@) =~= texts(mid).push(m@));
        }
        i += 1;
    }
    assert(all.take(rows@.len() as int) =~= all);
    out
}

// ---------------------------------------------------------------- down and heal

/// What `down` does next.
#[derive(Clone, Copy, PartialEq, Eq, Debug, Structural)]
pub enum DownStep {
    /// Say how it is used: no host is given.
    Usage,
    /// Say that there is no master.
    NoMaster,
    /// End the master.
    End,
}

/// What `down` does next.
pub fn cmd_down(host: &Option<String>, check: Option<MasterCheck>) -> (r: DownStep)
    ensures
        r == if *host is None {
            DownStep::Usage
        } else if check is None || check->0 is NotRunning {
            DownStep::NoMaster
        } else {
            DownStep::End
        },
{
    if host.is_none() {
        return DownStep::Usage;
    }
    match check {
        None => DownStep::NoMaster,
        Some(MasterCheck::NotRunning) => DownStep::NoMaster,
        _ => DownStep::End,
    }
}

/// The exit code of `down`; `gone` tells whether the master was seen to be gone.
pub fn down_code(step: DownStep, gone: bool) -> (r: i32)
    ensures
        r == match step {
            DownStep::Usage => 2i32,
            DownStep::NoMaster => 1,
            DownStep::End => if gone {
                0
            } else {
                1
            },
        },
{
    match step {
        DownStep::Usage => 2,
        DownStep::NoMaster => 1,
        DownStep::End => if gone {
            0
        } else {
            1
        },
    }
}

/// The exit code of `heal`; none is the outcome where no host is given.
pub fn cmd_heal(outcome: Option<HealOutcome>) -> (r: i32)
    ensures
        r == match outcome {
            None => 2i32,
            Some(HealOutcome::Healthy) => 0,
            Some(HealOutcome::Indeterminate) => 0,
            Some(HealOutcome::NeedsMasterRebuild) => 1,
            Some(HealOutcome::Failed) => 1,
        },
{
    match outcome {
        None => 2,
        Some(HealOutcome::Healthy) => 0,
        Some(HealOutcome::Indeterminate) => 0,
        Some(HealOutcome::NeedsMasterRebuild) => 1,
        Some(HealOutcome::Failed) => 1,
    }
}

// ---------------------------------------------------------------- what the arguments mean

/// The options of ssh that take a value, each by its letter, and no other.
pub proof fn options_with_values(c: char)
    ensures
        takes_value(c) <==> c == 'b' || c == 'B' || c == 'c' || c == 'D' || c == 'E' || c == 'e' || c == 'F' || c == 'I' || c == 'i' || c == 'J' || c == 'L' || c == 'l' || c == 'm' || c == 'O' || c == 'o' || c == 'p' || c == 'Q' || c == 'R' || c == 'S' || c == 'W' || c == 'w',
{
    let s = "bBcDEeFIiJLlmOopQRSWw"@;
    reveal_strlit("bBcDEeFIiJLlmOopQRSWw");
    assert(s[0] == 'b');
    assert(s[1] == 'B');
    assert(s[2] == 'c');
    assert(s[3] == 'D');
    assert(s[4] == 'E');
    assert(s[5] == 'e');
    assert(s[6] == 'F');
    assert(s[7] == 'I');
    assert(s[8] == 'i');
    assert(s[9] == 'J');
    assert(s[10] == 'L');
    assert(s[11] == 'l');
    assert(s[12] == 'm');
    assert(s[13] == 'O');
    assert(s[14] == 'o');
    assert(s[15] == 'p');
    assert(s[16] == 'Q');
    assert(s[17] == 'R');
    assert(s[18] == 'S');
    assert(s[19] == 'W');
    assert(s[20] == 'w');
    if takes_value(c) {
        let k = choose|k: int| 0 <= k < s.len() && s[k] == c;
        assert(s.len() == 21);
    }
}

/// A destination is a host, whatever user is named in front of it.
pub proof fn user_is_left_out(user: Seq<char>, host: Seq<char>)
    requires
        !host.contains('@'),
    ensures
        host_of(user.push('@') + host) == host,
        host_of(host) == host,
{
    let s = user.push('@') + host;
    let n = user.len() as int;
    assert forall|k: int| n < k < s.len() implies #[trigger] s[k] != '@' by {
        assert(s[k] == host[k - n - 1]);
        assert(host.contains(host[k - n - 1]));
    }
    lemma_last_index_is(s, '@', n);
    assert(s.skip(n + 1) =~= host);
    assert forall|k: int| -1 < k < host.len() implies #[trigger] host[k] != '@' by {
        assert(host.contains(host[k]));
    }
    lemma_last_index_is_none(host);
}

proof fn lemma_last_index_is_none(s: Seq<char>)
    requires
        !s.contains('@'),
    ensures
        rcut(s, '@') is None,
{
    crate::split::lemma_last_index_of(s, '@');
    let i = crate::split::last_index_of(s, '@');
    if i >= 0 {
        assert(s.contains(s[i]));
    }
}

/// The destination is the first argument that is neither an option nor the value of one: an option that
/// takes a value is passed over with it, every other alone, and behind two hyphens comes the destination.
pub proof fn destination_is_the_first_other_argument(
    option: Seq<char>,
    value: Seq<char>,
    dest: Seq<char>,
    rest: Seq<Seq<char>>,
)
    requires
        option.len() >= 2,
        option[0] == '-',
        option != "--"@,
        dest.len() > 0,
        dest[0] != '-',
        !"ssh://"@.is_prefix_of(dest),
    ensures
        option.len() == 2 && takes_value(option[1]) ==> destination(seq![option, value] + rest, 0)
            == destination(rest, 0),
        option.len() > 2 || !takes_value(option[1]) ==> destination(seq![option] + rest, 0) == destination(
            rest,
            0,
        ),
        destination(seq![dest] + rest, 0) == Some(host_of(dest)),
        destination(seq!["--"@, value] + rest, 0) == Some(host_of(value)),
        destination(Seq::empty(), 0) is None,
{
    reveal_strlit("--");
    assert("--"@[0] == '-');
    let a = seq![option, value];
    assert((a + rest)[0] == option);
    lemma_destination_shift(a, rest, 2);
    let b = seq![option];
    assert((b + rest)[0] == option);
    lemma_destination_shift(b, rest, 1);
    assert((seq![dest] + rest)[0] == dest);
    let c = seq!["--"@, value];
    assert((c + rest)[0] == "--"@ && (c + rest)[1] == value);
}

proof fn lemma_destination_shift(a: Seq<Seq<char>>, rest: Seq<Seq<char>>, i: int)
    requires
        a.len() <= i,
    ensures
        destination(a + rest, i) == destination(rest, i - a.len()),
    decreases rest.len() + a.len() - i,
{
    let j = i - a.len();
    if 0 <= j < rest.len() {
        assert((a + rest)[i] == rest[j]);
        if j + 1 < rest.len() {
            assert((a + rest)[i + 1] == rest[j + 1]);
            lemma_destination_shift(a, rest, i + 2);
        }
        lemma_destination_shift(a, rest, i + 1);
    }
}

/// The program ends as ssh did: with its code, or with the number of the signal above 128.
pub proof fn code_is_that_of_ssh(ended: Ended, r: i32)
    requires
        call_ensures(exit_code, (ended,), r),
    ensures
        ended matches Ended::Code(c) ==> r == c,
        ended matches Ended::Signal(s) ==> r == 128 + s,
        ended is NotStarted ==> r == 127,
        ended is Unknown ==> r == 130,
        ended is Lost ==> r == 1,
{
}

/// Before ssh is called a dead master is ended, and started anew exactly where the user's configuration
/// keeps it; a living one is left alone.
pub proof fn living_master_is_left_alone(live: MasterLiveness, last: Option<u32>, user_cm: bool, r: Preflight)
    requires
        call_ensures(preflight_master, (live, last, user_cm), r),
    ensures
        live is Alive || live is SessionRefused ==> r == Preflight::Leave,
        r is Recover <==> user_cm && (live is HalfOpen || live is Wedged),
        r is EndOnly <==> !user_cm && (live is HalfOpen || live is Wedged),
        live matches MasterLiveness::HalfOpen { pid } ==> !user_cm ==> r == (Preflight::EndOnly { pid }),
        live is Wedged && !user_cm ==> r == (Preflight::EndOnly { pid: last }),
        r is CleanUp <==> live is NoMaster && last is Some,
{
}

/// What the first word asks for; without any, or where help is asked for, it is shown, and everything
/// that is no word of ours goes to ssh.
pub proof fn first_word_asks(args: &Vec<String>, r: Request)
    requires
        call_ensures(read_request, (args,), r),
    ensures
        args@.len() == 0 ==> r == Request::Help,
        args@.len() > 0 && args@[0]@ == "fwd"@ ==> r == Request::Forward,
        args@.len() > 0 && args@[0]@ == "down"@ ==> r == Request::Down,
        args@.len() > 0 && args@[0]@ == "heal"@ ==> r == Request::Heal,
        args@.len() > 0 && args@[0]@ != "--ccc-help"@ && args@[0]@ != "fwd"@ && args@[0]@ != "down"@
            && args@[0]@ != "heal"@ ==> r == Request::Connect,
{
    reveal_strlit("--ccc-help");
    reveal_strlit("fwd");
    reveal_strlit("down");
    reveal_strlit("heal");
    assert("--ccc-help"@.len() == 10 && "fwd"@.len() == 3);
    assert("down"@.len() == 4 && "heal"@.len() == 4 && "down"@[0] == 'd' && "heal"@[0] == 'h');
}

/// A port alone is forwarded to the same port of the host itself, two ports from the one to the other.
pub proof fn short_forwards_lead_to_the_host(p: u16, q: u16)
    ensures
        l_spec(decimal(p as nat)) == Some(
            SpecView { listen_host: None, listen_port: p, dest_host: "localhost"@, dest_port: p },
        ),
        l_spec(decimal(p as nat).push(':') + decimal(q as nat)) == Some(
            SpecView { listen_host: None, listen_port: p, dest_host: "localhost"@, dest_port: q },
        ),
{
    let a = decimal(p as nat);
    let b = decimal(q as nat);
    decimal_round_trip(p as nat);
    decimal_round_trip(q as nat);
    unsigned_round_trip(p as nat, u16::MAX as nat);
    unsigned_round_trip(q as nat, u16::MAX as nat);
    assert(!a.contains(':')) by {
        if a.contains(':') {
            let k = choose|k: int| 0 <= k < a.len() && a[k] == ':';
            assert(is_digit(a[k]));
        }
    }
    assert(!b.contains(':')) by {
        if b.contains(':') {
            let k = choose|k: int| 0 <= k < b.len() && b[k] == ':';
            assert(is_digit(b[k]));
        }
    }
    lemma_fields_first(a, b, ':');
    lemma_fields_first(b, b, ':');
    assert(fields(a.push(':') + b, ':') =~= seq![a, b]);
}

/// A command on forwards means what it says: the host, and the forward or the port that is listened on;
/// one that says too little is answered by how it is used.
pub proof fn forward_commands_are_read(host: Seq<char>, f: SpecView, port: u16, more: Seq<Seq<char>>)
    requires
        !f.dest_host.contains(':'),
        f.listen_host is Some ==> !f.listen_host->0.contains(':'),
    ensures
        fwd_request(seq!["list"@, host] + more) == FwdView::List(host),
        fwd_request(seq!["add"@, host, f.l_arg()] + more) == FwdView::Add(host, f),
        fwd_request(seq!["rm"@, host, decimal(port as nat)] + more) matches FwdView::Remove(h, s) && h
            == host && s.listen_port == port && s.listen_host is None,
        fwd_request(seq!["list"@]) == FwdView::ListUsage,
        fwd_request(seq!["add"@, host]) == FwdView::AddUsage,
        fwd_request(seq!["rm"@, host]) == FwdView::RemoveUsage,
        fwd_request(Seq::empty()) == FwdView::Usage,
{
    reveal_strlit("list");
    reveal_strlit("add");
    reveal_strlit("rm");
    assert("list"@.len() == 4 && "add"@.len() == 3 && "rm"@.len() == 2);
    l_arg_is_read_back(f);
    unsigned_round_trip(port as nat, u16::MAX as nat);
    let a = seq!["list"@, host] + more;
    assert(a[0] == "list"@ && a[1] == host);
    let b = seq!["add"@, host, f.l_arg()] + more;
    assert(b[0] == "add"@ && b[1] == host && b[2] == f.l_arg());
    let c = seq!["rm"@, host, decimal(port as nat)] + more;
    assert(c[0] == "rm"@ && c[1] == host && c[2] == decimal(port as nat));
    assert(seq!["list"@][0] == "list"@);
    assert(seq!["add"@, host][0] == "add"@);
    assert(seq!["rm"@, host][0] == "rm"@);
}

/// A command that was not understood ends with 2, one that failed with 1, one that went well with 0.
pub proof fn codes_tell_how_it_went<T>(q: &FwdRequest, c: Option<i32>, done: &Result<T, String>, d: i32)
    requires
        call_ensures(usage_code, (q,), c),
        call_ensures(done_code::<T>, (done,), d),
    ensures
        q is List || q is Add || q is Remove ==> c is None,
        !(q is List || q is Add || q is Remove) ==> c == Some(2i32),
        done is Ok ==> d == 0,
        done is Err ==> d == 1,
{
}

/// Each forward has a line, in order, and one more where it failed; it shows both ends, the direction,
/// where it comes from, and that it is no longer held.
pub proof fn forward_has_a_line(rows: Seq<RowView>, row: RowView)
    ensures
        row.error is None ==> row_lines(rows.push(row)) == row_lines(rows).push(row_line(row)),
        row.error matches Some(e) ==> row_lines(rows.push(row)) == row_lines(rows).push(
            row_line(row),
        ).push(spaces(25) + "! "@ + e),
        row_lines(Seq::empty()).len() == 0,
        ({
            let from = match row.spec.listen_host {
                Some(h) => h,
                None => "localhost"@,
            } + ":"@ + decimal(row.spec.listen_port as nat);
            let to = row.spec.dest_host + ":"@ + decimal(row.spec.dest_port as nat);
            let way = if row.reverse {
                " <- "@
            } else {
                " -> "@
            };
            &&& row.stale ==> row_line(row) == pad_front(from, 22) + way + pad_behind(to, 22) + " ["@ + (
            row.origin + ", "@ + "失効"@) + "]"@
            &&& !row.stale ==> row_line(row) == pad_front(from, 22) + way + pad_behind(to, 22) + " ["@
                + row.origin + "]"@
        }),
{
    assert(rows.push(row).drop_last() =~= rows);
    reveal_with_fuel(joined, 3);
    let a = seq![row.origin, "失効"@];
    let b = seq![row.origin];
    crate::split::joining_goes_by_parts(b, seq!["失効"@], ", "@);
    assert(b + seq!["失効"@] =~= a);
    assert(joined(b, ", "@) =~= row.origin);
    assert(joined(seq!["失効"@], ", "@) =~= "失効"@);
    assert(joined(a, ", "@) =~= row.origin + ", "@ + "失効"@);
}

/// Ending a master goes well exactly where there was one and it is gone; without a host it is told how the
/// command is used.
pub proof fn down_tells_whether_it_is_gone(
    host: &Option<String>,
    check: Option<MasterCheck>,
    step: DownStep,
    gone: bool,
    code: i32,
)
    requires
        call_ensures(cmd_down, (host, check), step),
        call_ensures(down_code, (step, gone), code),
    ensures
        host is None ==> code == 2,
        host is Some && (check is None || check->0 is NotRunning) ==> code == 1,
        host is Some && check is Some && !(check->0 is NotRunning) ==> (code == 0 <==> gone),
        code == 0 ==> step == DownStep::End,
{
}

/// Healing went well where the forward works or nothing can be told of it.
pub proof fn heal_tells_how_it_went(outcome: Option<HealOutcome>, code: i32)
    requires
        call_ensures(cmd_heal, (outcome,), code),
    ensures
        outcome is None ==> code == 2,
        outcome matches Some(o) ==> (code == 0 <==> o is Healthy || o is Indeterminate),
        outcome matches Some(o) ==> (code == 1 <==> o is NeedsMasterRebuild || o is Failed),
{
}

/// The arguments that have ssh ask nothing of a host, each by its letter, and no other.
pub proof fn offline_arguments_are_told(arg: Seq<char>)
    ensures
        offline(arg) <==> arg.len() == 2 && arg[0] == '-' && (arg[1] == 'G' || arg[1] == 'O' || arg[1]
            == 'Q' || arg[1] == 'V'),
{
    reveal_strlit("-G");
    reveal_strlit("-O");
    reveal_strlit("-Q");
    reveal_strlit("-V");
    if arg.len() == 2 && arg[0] == '-' {
        assert(arg[1] == 'G' ==> arg =~= "-G"@);
        assert(arg[1] == 'O' ==> arg =~= "-O"@);
        assert(arg[1] == 'Q' ==> arg =~= "-Q"@);
        assert(arg[1] == 'V' ==> arg =~= "-V"@);
    }
}

/// What speaks of trouble, of a repair or of the master's life is shown, everything else only where more
/// is asked for.
pub proof fn trouble_is_shown(a: Seq<char>, b: Seq<char>, msg: &str, r: bool)
    requires
        call_ensures(is_shown, (msg, false), r),
    ensures
        msg@ == a + ("不調"@ + b) ==> r,
        msg@ == a + ("修復"@ + b) ==> r,
        msg@ == a + ("再要求"@ + b) ==> r,
        msg@ == a + ("[liveness]"@ + b) ==> r,
        r ==> has(msg@, "不調"@) || has(msg@, "修復"@) || has(msg@, "再要求"@) || has(msg@, "[liveness]"@),
{
    lemma_has(a, "不調"@, b);
    lemma_has(a, "修復"@, b);
    lemma_has(a, "再要求"@, b);
    lemma_has(a, "[liveness]"@, b);
}

proof fn lemma_has(a: Seq<char>, p: Seq<char>, b: Seq<char>)
    ensures
        has(a + (p + b), p),
{
    let s = a + (p + b);
    let n = a.len() as int;
    assert(s.skip(n) =~= p + b);
    assert((p + b).subrange(0, p.len() as int) =~= p);
    assert(p.is_prefix_of(s.skip(n)));
}

} // verus!
