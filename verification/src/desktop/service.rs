//! What the archive's writer does with each job, and what a cycle of pulls comes to.

use crate::archive::hooks::InstanceMeta;
use crate::archive::sync::{
    check_rsync, pull_profile, pull_session, rsync_result, session_args, staging_profile_dir,
    sweep_args, RsyncRun, SessionPull,
};
use crate::json::{text_field, Json};
use crate::pathname::{join_path, path_join};
use crate::text::{copy, copy_opt, opt_text, same, texts};
use vstd::prelude::*;

verus! {

/// The seconds between two cycles of pulls.
pub const SYNC_INTERVAL_SECS: u64 = 60;

/// A hook that was received.
pub struct HookJob {
    pub hook_event: String,
    pub payload: Json,
    pub meta: InstanceMeta,
    /// Whether the instance runs on this machine; only then is its transcript a file here.
    pub is_local: bool,
}

/// What to pull from a host.
pub struct PullRequest {
    pub host_alias: String,
    pub profile: String,
    /// The session's transcript on the host; without one, the whole profile.
    pub transcript_path: Option<String>,
}

/// A job of the writer.
#[allow(inconsistent_fields)]
pub enum Job {
    Hook(HookJob),
    /// Store the memory files of every profile below a directory.
    ScanMemory { root: String },
    /// Take in the transcripts of every profile below a directory.
    ScanTranscripts { root: String },
    /// Take in what a pull has brought.
    IngestPulled { staging_profile_dir: String, host_alias: String, profile: String },
}

/// What the writer does, in order. An act that fails is reported, and the next one follows.
#[allow(inconsistent_fields)]
pub enum Act {
    ScanMemory { root: String },
    ScanTranscripts { root: String },
    IngestPulled { staging_profile_dir: String, host_alias: String, profile: String },
    /// Look up the titles of the sessions of a host's instances.
    RefreshHost { host_alias: String },
    RecordEvent { instance_id: String, session_id: Option<String>, hook_event: String },
    RecordSessionStart { session_id: String, source: Option<String> },
    /// Take in a transcript, if the file exists.
    IngestTranscript { path: String },
    /// Look up a session's title.
    RefreshTitle { session_id: String },
    /// Store a profile's memory files.
    SnapshotMemory { profile: String },
    /// Note that a host's profile had activity.
    MarkDirty { host_alias: String, profile: String },
}

/// What an act is.
#[allow(inconsistent_fields)]
pub enum ActView {
    ScanMemory { root: Seq<char> },
    ScanTranscripts { root: Seq<char> },
    IngestPulled { staging_profile_dir: Seq<char>, host_alias: Seq<char>, profile: Seq<char> },
    RefreshHost { host_alias: Seq<char> },
    RecordEvent { instance_id: Seq<char>, session_id: Option<Seq<char>>, hook_event: Seq<char> },
    RecordSessionStart { session_id: Seq<char>, source: Option<Seq<char>> },
    IngestTranscript { path: Seq<char> },
    RefreshTitle { session_id: Seq<char> },
    SnapshotMemory { profile: Seq<char> },
    MarkDirty { host_alias: Seq<char>, profile: Seq<char> },
}

impl Act {
    pub open spec fn view(&self) -> ActView {
        match *self {
            Act::ScanMemory { root } => ActView::ScanMemory { root: root@ },
            Act::ScanTranscripts { root } => ActView::ScanTranscripts { root: root@ },
            Act::IngestPulled { staging_profile_dir, host_alias, profile } => ActView::IngestPulled {
                staging_profile_dir: staging_profile_dir@,
                host_alias: host_alias@,
                profile: profile@,
            },
            Act::RefreshHost { host_alias } => ActView::RefreshHost { host_alias: host_alias@ },
            Act::RecordEvent { instance_id, session_id, hook_event } => ActView::RecordEvent {
                instance_id: instance_id@,
                session_id: opt_text(session_id),
                hook_event: hook_event@,
            },
            Act::RecordSessionStart { session_id, source } => ActView::RecordSessionStart {
                session_id: session_id@,
                source: opt_text(source),
            },
            Act::IngestTranscript { path } => ActView::IngestTranscript { path: path@ },
            Act::RefreshTitle { session_id } => ActView::RefreshTitle { session_id: session_id@ },
            Act::SnapshotMemory { profile } => ActView::SnapshotMemory { profile: profile@ },
            Act::MarkDirty { host_alias, profile } => ActView::MarkDirty {
                host_alias: host_alias@,
                profile: profile@,
            },
        }
    }
}

/// What the acts of a list are.
pub open spec fn acts(v: Seq<Act>) -> Seq<ActView> {
    Seq::new(v.len(), |i: int| v[i].view())
}

/// An act, where there is one.
pub open spec fn maybe(a: Option<ActView>) -> Seq<ActView> {
    match a {
        Some(x) => seq![x],
        None => seq![],
    }
}

/// The start of a session is recorded with the session's identity.
pub open spec fn start_act(j: HookJob) -> Option<ActView> {
    match text_field(j.payload.view(), "session_id"@) {
        Some(sid) => if j.hook_event@ == "SessionStart"@ {
            Some(
                ActView::RecordSessionStart {
                    session_id: sid,
                    source: text_field(j.payload.view(), "source"@),
                },
            )
        } else {
            None
        },
        None => None,
    }
}

/// The transcript that a hook names is taken in.
pub open spec fn ingest_act(j: HookJob) -> Option<ActView> {
    match text_field(j.payload.view(), "transcript_path"@) {
        Some(p) => Some(ActView::IngestTranscript { path: p }),
        None => None,
    }
}

/// The title of the hook's session is looked up.
pub open spec fn title_act(j: HookJob) -> Option<ActView> {
    match text_field(j.payload.view(), "session_id"@) {
        Some(sid) => Some(ActView::RefreshTitle { session_id: sid }),
        None => None,
    }
}

/// The end of a session stores the memory of its profile.
pub open spec fn memory_act(j: HookJob) -> Option<ActView> {
    match opt_text(j.meta.agent_profile) {
        Some(p) => if j.hook_event@ == "SessionEnd"@ {
            Some(ActView::SnapshotMemory { profile: p })
        } else {
            None
        },
        None => None,
    }
}

/// A remote instance's activity makes its profile wait for a pull.
pub open spec fn dirty_act(j: HookJob) -> Option<ActView> {
    match (opt_text(j.meta.host_alias), opt_text(j.meta.agent_profile)) {
        (Some(h), Some(p)) => Some(ActView::MarkDirty { host_alias: h, profile: p }),
        _ => None,
    }
}

/// What the writer does with a hook: record the event; record the session, where it starts; of a
/// local instance take in the transcript, look up the title and, at the end, store the memory;
/// note the activity of a remote one.
pub open spec fn hook_acts(j: HookJob) -> Seq<ActView> {
    let first = ActView::RecordEvent {
        instance_id: j.meta.instance_id@,
        session_id: text_field(j.payload.view(), "session_id"@),
        hook_event: j.hook_event@,
    };
    seq![first] + maybe(start_act(j)) + if j.is_local {
        maybe(ingest_act(j)) + maybe(title_act(j)) + maybe(memory_act(j))
    } else {
        maybe(dirty_act(j))
    }
}

/// What the writer does with a job.
pub open spec fn job_acts(j: Job) -> Seq<ActView> {
    match j {
        Job::Hook(h) => hook_acts(h),
        Job::ScanMemory { root } => seq![ActView::ScanMemory { root: root@ }],
        Job::ScanTranscripts { root } => seq![ActView::ScanTranscripts { root: root@ }],
        Job::IngestPulled { staging_profile_dir, host_alias, profile } => seq![
            ActView::IngestPulled {
                staging_profile_dir: staging_profile_dir@,
                host_alias: host_alias@,
                profile: profile@,
            },
            ActView::RefreshHost { host_alias: host_alias@ },
        ],
    }
}

/// Every hook is recorded, before anything else is done with it.
pub proof fn every_hook_is_recorded(j: HookJob)
    ensures
        hook_acts(j).len() >= 1,
        hook_acts(j)[0] == (ActView::RecordEvent {
            instance_id: j.meta.instance_id@,
            session_id: text_field(j.payload.view(), "session_id"@),
            hook_event: j.hook_event@,
        }),
{
}

/// Of a remote instance no file of this machine is read, and a local one is never pulled.
pub proof fn files_are_read_of_local_instances_only(j: HookJob, i: int)
    requires
        0 <= i < hook_acts(j).len(),
    ensures
        !j.is_local ==> !(hook_acts(j)[i] is IngestTranscript) && !(hook_acts(j)[i] is SnapshotMemory),
        j.is_local ==> !(hook_acts(j)[i] is MarkDirty),
{
}

fn add_act(v: &mut Vec<Act>, a: Act)
    ensures
        acts(final(v)@) == acts(old(v)@).push(a.view()),
{
    v.push(a);
    assert(acts(v@) =~= acts(old(v)@).push(a.view()));
}

/// What the writer does with a hook of a local instance, after recording it.
fn add_local(v: &mut Vec<Act>, j: &HookJob)
    ensures
        acts(final(v)@) == acts(old(v)@) + (maybe(ingest_act(*j)) + maybe(title_act(*j)) + maybe(
            memory_act(*j),
        )),
{
    if let Some(path) = j.payload.get_string("transcript_path") {
        add_act(v, Act::IngestTranscript { path });
    }
    if let Some(session_id) = j.payload.get_string("session_id") {
        add_act(v, Act::RefreshTitle { session_id });
    }
    if same(j.hook_event.as_str(), "SessionEnd") {
        if let Some(p) = &j.meta.agent_profile {
            add_act(v, Act::SnapshotMemory { profile: copy(p.as_str()) });
        }
    }
    assert(acts(v@) =~= acts(old(v)@) + (maybe(ingest_act(*j)) + maybe(title_act(*j)) + maybe(
        memory_act(*j),
    )));
}

/// What the writer does with a hook.
pub fn handle_hook(j: &HookJob) -> (r: Vec<Act>)
    ensures
        acts(r@) == hook_acts(*j),
{
    let mut v: Vec<Act> = Vec::new();
    let session_id: Option<String> = j.payload.get_string("session_id");
    add_act(
        &mut v,
        Act::RecordEvent {
            instance_id: copy(j.meta.instance_id.as_str()),
            session_id: copy_opt(&session_id),
            hook_event: copy(j.hook_event.as_str()),
        },
    );
    if same(j.hook_event.as_str(), "SessionStart") {
        if let Some(sid) = session_id {
            add_act(
                &mut v,
                Act::RecordSessionStart { session_id: sid, source: j.payload.get_string("source") },
            );
        }
    }
    let ghost first = ActView::RecordEvent {
        instance_id: j.meta.instance_id@,
        session_id: text_field(j.payload.view(), "session_id"@),
        hook_event: j.hook_event@,
    };
    assert(acts(v@) =~= seq![first] + maybe(start_act(*j)));
    if j.is_local {
        add_local(&mut v, j);
    } else if let (Some(h), Some(p)) = (&j.meta.host_alias, &j.meta.agent_profile) {
        add_act(
            &mut v,
            Act::MarkDirty { host_alias: copy(h.as_str()), profile: copy(p.as_str()) },
        );
    }
    assert(acts(v@) =~= hook_acts(*j));
    v
}

/// What the writer does with a job.
pub fn handle_job(j: &Job) -> (r: Vec<Act>)
    ensures
        acts(r@) == job_acts(*j),
{
    match j {
        Job::Hook(h) => handle_hook(h),
        Job::ScanMemory { root } => {
            let mut v: Vec<Act> = Vec::new();
            add_act(&mut v, Act::ScanMemory { root: copy(root.as_str()) });
            assert(acts(v@) =~= job_acts(*j));
            v
        },
        Job::ScanTranscripts { root } => {
            let mut v: Vec<Act> = Vec::new();
            add_act(&mut v, Act::ScanTranscripts { root: copy(root.as_str()) });
            assert(acts(v@) =~= job_acts(*j));
            v
        },
        Job::IngestPulled { staging_profile_dir, host_alias, profile } => {
            let mut v: Vec<Act> = Vec::new();
            add_act(
                &mut v,
                Act::IngestPulled {
                    staging_profile_dir: copy(staging_profile_dir.as_str()),
                    host_alias: copy(host_alias.as_str()),
                    profile: copy(profile.as_str()),
                },
            );
            add_act(&mut v, Act::RefreshHost { host_alias: copy(host_alias.as_str()) });
            assert(acts(v@) =~= job_acts(*j));
            v
        },
    }
}

// ---------------------------------------------------------------- pulls

/// Where pulls are staged: `pulled`, in the directory of the database.
pub fn staging_beside(db_dir: &Option<String>) -> (r: String)
    ensures
        r@ == match opt_text(*db_dir) {
            Some(d) => path_join(d, "pulled"@),
            None => "pulled"@,
        },
{
    match db_dir {
        Some(d) => join_path(d.as_str(), "pulled"),
        None => copy("pulled"),
    }
}

/// Where a request's files are staged.
pub open spec fn stage_of(root: Seq<char>, req: PullRequest) -> Seq<char> {
    path_join(path_join(root, req.host_alias@), req.profile@)
}

/// What a pull runs.
pub enum PullPlan {
    /// The transcript of one session, and what lies beside it.
    Session(SessionPull),
    /// The whole profile.
    Profile(Vec<String>),
}

/// What a pull runs; nothing where the request's transcript is not below a `projects` directory.
pub fn plan_pull(agent: &str, staging_root: &str, req: &PullRequest) -> (r: Option<PullPlan>)
    ensures
        ({
            let dest = stage_of(staging_root@, *req);
            match opt_text(req.transcript_path) {
                Some(path) => {
                    let args = session_args(agent@, req.host_alias@, req.profile@, path, dest);
                    match r {
                        Some(PullPlan::Session(p)) => args == Some(p.view()),
                        Some(PullPlan::Profile(_)) => false,
                        None => args is None,
                    }
                },
                None => match r {
                    Some(PullPlan::Profile(a)) => texts(a@) == sweep_args(
                        agent@,
                        req.host_alias@,
                        req.profile@,
                        dest,
                    ),
                    _ => false,
                },
            }
        }),
{
    let host: &str = req.host_alias.as_str();
    let profile: &str = req.profile.as_str();
    let dest: String = staging_profile_dir(staging_root, host, profile);
    match &req.transcript_path {
        Some(path) => match pull_session(agent, host, profile, path.as_str(), dest.as_str()) {
            Some(p) => Some(PullPlan::Session(p)),
            None => None,
        },
        None => Some(PullPlan::Profile(pull_profile(agent, host, profile, dest.as_str()))),
    }
}

/// The job that follows a pull: what it brought is taken in, if its first run went well. The run
/// for what lies beside a transcript may fail, as there may be nothing there.
pub fn after_pull(staging_root: &str, req: &PullRequest, first: Option<RsyncRun>) -> (r: Option<
    Job,
>)
    ensures
        r is Some <==> (first matches Some(run) && rsync_result(run) is Ok),
        r matches Some(j) ==> job_acts(j) == seq![
            ActView::IngestPulled {
                staging_profile_dir: stage_of(staging_root@, *req),
                host_alias: req.host_alias@,
                profile: req.profile@,
            },
            ActView::RefreshHost { host_alias: req.host_alias@ },
        ],
{
    match first {
        Some(run) => match check_rsync(run) {
            Ok(_) => {
                let host: &str = req.host_alias.as_str();
                let profile: &str = req.profile.as_str();
                Some(
                    Job::IngestPulled {
                        staging_profile_dir: staging_profile_dir(staging_root, host, profile),
                        host_alias: copy(host),
                        profile: copy(profile),
                    },
                )
            },
            Err(_) => None,
        },
        None => None,
    }
}

/// The report of a cycle of pulls.
#[derive(Clone, Copy, PartialEq, Eq, Debug, Structural)]
pub struct SyncTick {
    /// When the cycle was, in milliseconds.
    pub at: i64,
    /// The seconds to the next.
    pub interval_secs: u64,
    /// How many pulls it started.
    pub pulled_hosts: usize,
}

/// How many of the first `n` hold.
pub open spec fn holding(v: Seq<bool>, n: int) -> nat
    decreases n,
{
    if n <= 0 {
        0
    } else {
        holding(v, n - 1) + if v[n - 1] {
            1nat
        } else {
            0
        }
    }
}

/// The report of a cycle, from which of its pulls could be started.
pub fn sync_tick(at: i64, started: &Vec<bool>) -> (r: SyncTick)
    ensures
        r == (SyncTick {
            at,
            interval_secs: SYNC_INTERVAL_SECS,
            pulled_hosts: holding(started@, started@.len() as int) as usize,
        }),
        holding(started@, started@.len() as int) <= usize::MAX,
{
    let mut n: usize = 0;
    let mut i: usize = 0;
    while i < started.len()
        invariant
            i <= started@.len(),
            n <= i,
            n == holding(started@, i as int),
        decreases started@.len() - i,
    {
        if started[i] {
            n += 1;
        }
        i += 1;
    }
    SyncTick { at, interval_secs: SYNC_INTERVAL_SECS, pulled_hosts: n }
}

// ---------------------------------------------------------------- what comes of an event

/// What is done about an event: a session that starts is recorded with its source; on this machine its
/// transcript is taken in, its title looked up, and the memory of its profile stored when it ends; of a
/// host the activity of its profile is noted. Nothing else is done.
pub proof fn event_is_done_with(j: HookJob, sid: Seq<char>, path: Seq<char>, host: Seq<char>, profile: Seq<char>, src: Option<Seq<char>>)
    ensures
        hook_acts(j).contains(ActView::RecordSessionStart { session_id: sid, source: src })
            <==> j.hook_event@ == "SessionStart"@ && text_field(j.payload.view(), "session_id"@) == Some(
            sid,
        ) && text_field(j.payload.view(), "source"@) == src,
        hook_acts(j).contains(ActView::IngestTranscript { path }) <==> j.is_local && text_field(
            j.payload.view(),
            "transcript_path"@,
        ) == Some(path),
        hook_acts(j).contains(ActView::RefreshTitle { session_id: sid }) <==> j.is_local && text_field(
            j.payload.view(),
            "session_id"@,
        ) == Some(sid),
        hook_acts(j).contains(ActView::SnapshotMemory { profile }) <==> j.is_local && j.hook_event@
            == "SessionEnd"@ && opt_text(j.meta.agent_profile) == Some(profile),
        hook_acts(j).contains(ActView::MarkDirty { host_alias: host, profile }) <==> !j.is_local
            && opt_text(j.meta.host_alias) == Some(host) && opt_text(j.meta.agent_profile) == Some(profile),
        forall|i: int|
            0 <= i < hook_acts(j).len() ==> !(#[trigger] hook_acts(j)[i] is ScanMemory)
                && !(hook_acts(j)[i] is ScanTranscripts) && !(hook_acts(j)[i] is IngestPulled)
                && !(hook_acts(j)[i] is RefreshHost),
{
    let a = seq![
        ActView::RecordEvent {
            instance_id: j.meta.instance_id@,
            session_id: text_field(j.payload.view(), "session_id"@),
            hook_event: j.hook_event@,
        },
    ];
    let b = maybe(start_act(j));
    let c = maybe(ingest_act(j));
    let d = maybe(title_act(j));
    let e = maybe(memory_act(j));
    let g = maybe(dirty_act(j));
    assert(a.contains(a[0]));
    if let Some(x) = start_act(j) {
        assert(b[0] == x);
    }
    if let Some(x) = ingest_act(j) {
        assert(c[0] == x);
    }
    if let Some(x) = title_act(j) {
        assert(d[0] == x);
    }
    if let Some(x) = memory_act(j) {
        assert(e[0] == x);
    }
    if let Some(x) = dirty_act(j) {
        assert(g[0] == x);
    }
    let rest = if j.is_local {
        c + d + e
    } else {
        g
    };
    assert forall|x: ActView| #[trigger] hook_acts(j).contains(x) <==> a.contains(x) || b.contains(x)
        || rest.contains(x) by {
        lemma_sum_contains(a, b, x);
        lemma_sum_contains(a + b, rest, x);
    }
    assert forall|x: ActView| #[trigger] (c + d + e).contains(x) <==> c.contains(x) || d.contains(x)
        || e.contains(x) by {
        lemma_sum_contains(c, d, x);
        lemma_sum_contains(c + d, e, x);
    }
    assert forall|i: int| 0 <= i < hook_acts(j).len() implies !(#[trigger] hook_acts(j)[i] is ScanMemory)
        && !(hook_acts(j)[i] is ScanTranscripts) && !(hook_acts(j)[i] is IngestPulled) && !(hook_acts(
        j,
    )[i] is RefreshHost) by {
        assert(hook_acts(j).contains(hook_acts(j)[i]));
    }
}

proof fn lemma_sum_contains(a: Seq<ActView>, b: Seq<ActView>, x: ActView)
    ensures
        (a + b).contains(x) <==> a.contains(x) || b.contains(x),
{
    if a.contains(x) {
        let i = choose|i: int| 0 <= i < a.len() && a[i] == x;
        assert((a + b)[i] == x);
    }
    if b.contains(x) {
        let i = choose|i: int| 0 <= i < b.len() && b[i] == x;
        assert((a + b)[a.len() + i] == x);
    }
    if (a + b).contains(x) {
        let i = choose|i: int| 0 <= i < (a + b).len() && (a + b)[i] == x;
        if i < a.len() {
            assert(a[i] == x);
        } else {
            assert(b[i - a.len()] == x);
        }
    }
}

/// A job is done for the directory and the host that it names; what a pull has brought is taken in before
/// the titles of its host are looked up.
pub proof fn job_is_done_for_what_it_names(j: Job)
    ensures
        j matches Job::ScanMemory { root } ==> job_acts(j) == seq![ActView::ScanMemory { root: root@ }],
        j matches Job::ScanTranscripts { root } ==> job_acts(j) == seq![
            ActView::ScanTranscripts { root: root@ },
        ],
        j matches Job::IngestPulled { staging_profile_dir, host_alias, profile } ==> job_acts(j).len() == 2
            && job_acts(j)[0] == (ActView::IngestPulled {
            staging_profile_dir: staging_profile_dir@,
            host_alias: host_alias@,
            profile: profile@,
        }) && job_acts(j)[1] == (ActView::RefreshHost { host_alias: host_alias@ }),
        j matches Job::Hook(h) ==> job_acts(j) == hook_acts(h),
{
}

/// A pull takes one session where it was asked for one, and else the whole profile; each host and profile
/// has its own place, below the one that all pulls share.
pub proof fn pull_takes_what_was_asked_for(
    agent: &str,
    staging_root: &str,
    req: &PullRequest,
    plan: Option<PullPlan>,
)
    requires
        call_ensures(plan_pull, (agent, staging_root, req), plan),
    ensures
        req.transcript_path is None ==> (plan matches Some(PullPlan::Profile(a)) && texts(a@) == sweep_args(
            agent@,
            req.host_alias@,
            req.profile@,
            path_join(path_join(staging_root@, req.host_alias@), req.profile@),
        )),
        req.transcript_path matches Some(path) ==> (plan matches Some(PullPlan::Session(s)) ==> session_args(
            agent@,
            req.host_alias@,
            req.profile@,
            path@,
            path_join(path_join(staging_root@, req.host_alias@), req.profile@),
        ) == Some(s.view())),
        req.transcript_path is Some ==> !(plan matches Some(PullPlan::Profile(_))),
{
}

/// A round counts the pulls that it started, one by one.
pub proof fn round_counts_its_pulls(v: Seq<bool>, started: bool)
    ensures
        holding(v.push(started), v.len() as int + 1) == holding(v, v.len() as int) + if started {
            1nat
        } else {
            0
        },
        holding(v, 0) == 0,
        SYNC_INTERVAL_SECS == 60,
{
    lemma_holding_front(v, started, v.len() as int);
    assert(v.push(started)[v.len() as int] == started);
}

proof fn lemma_holding_front(v: Seq<bool>, x: bool, n: int)
    requires
        0 <= n <= v.len(),
    ensures
        holding(v.push(x), n) == holding(v, n),
    decreases n,
{
    if n > 0 {
        lemma_holding_front(v, x, n - 1);
        assert(v.push(x)[n - 1] == v[n - 1]);
    }
}

} // verus!
