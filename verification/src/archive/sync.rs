//! Pulling a remote machine's transcripts and telling which instance a session belongs to.

use crate::agent::{memory_file, memory_name};
use crate::pathname::{join_path, path_join};
use crate::split::{ends_with, rcut_str, rsplit_once_str};
use crate::text::{
    chars_of, copy, copy_first, copy_opt, first_of, only, opt_text, same, string_of, strip_back,
    texts, trim_end_char,
};
use vstd::prelude::*;

verus! {

/// What pulling and taking in did.
#[derive(Clone, Copy, Debug)]
pub struct PullStats {
    /// Transcript files found.
    pub files: usize,
    /// Messages added.
    pub new_messages: usize,
    /// Sessions that the files are named after.
    pub sessions: usize,
    /// Memory files stored as a new version.
    pub memory_new: usize,
}

/// Where a host's profile is staged: `<root>/<host>/<profile>`.
pub fn staging_profile_dir(staging_root: &str, host_alias: &str, profile: &str) -> (r: String)
    ensures
        r@ == path_join(path_join(staging_root@, host_alias@), profile@),
{
    join_path(join_path(staging_root, host_alias).as_str(), profile)
}

// ---------------------------------------------------------------- rsync

/// The arguments of the sweep over a remote profile: descend everywhere, take transcripts and
/// memory files, leave the rest, and never take credentials.
pub open spec fn sweep_args(
    agent: Seq<char>,
    host: Seq<char>,
    profile: Seq<char>,
    dest: Seq<char>,
) -> Seq<Seq<char>> {
    seq![
        "-az"@,
        "--safe-links"@,
        "--prune-empty-dirs"@,
        "--exclude=.credentials.json"@,
        "--include=*/"@,
        "--include=projects/***"@,
        "--include="@ + memory_name(agent),
        "--include=memory/***"@,
        "--include=MEMORY.md"@,
        "--include=rules/***"@,
        "--exclude=*"@,
        host + ":.ccc/agent_settings/"@ + agent + "/"@ + profile + "/"@,
        dest + "/"@,
    ]
}

/// The arguments of the sweep over a remote profile.
pub fn pull_profile(agent: &str, host_alias: &str, profile: &str, dest: &str) -> (r: Vec<String>)
    ensures
        texts(r@) == sweep_args(agent@, host_alias@, profile@, dest@),
{
    let mut src: String = copy(host_alias);
    src.append(":.ccc/agent_settings/");
    src.append(agent);
    src.append("/");
    src.append(profile);
    src.append("/");
    let mut to: String = copy(dest);
    to.append("/");
    let mut memory: String = copy("--include=");
    memory.append(memory_file(agent).as_str());
    let r: Vec<String> = vec![
        copy("-az"),
        copy("--safe-links"),
        copy("--prune-empty-dirs"),
        copy("--exclude=.credentials.json"),
        copy("--include=*/"),
        copy("--include=projects/***"),
        memory,
        copy("--include=memory/***"),
        copy("--include=MEMORY.md"),
        copy("--include=rules/***"),
        copy("--exclude=*"),
        src,
        to,
    ];
    assert(texts(r@) =~= sweep_args(agent@, host_alias@, profile@, dest@));
    r
}

/// The arguments that fetch one path below a remote profile, its directories with it.
pub open spec fn fetch_args(
    agent: Seq<char>,
    host: Seq<char>,
    profile: Seq<char>,
    rel: Seq<char>,
    dest: Seq<char>,
) -> Seq<Seq<char>> {
    seq![
        "-azR"@,
        "--safe-links"@,
        "--exclude=.credentials.json"@,
        host + ":.ccc/agent_settings/"@ + agent + "/"@ + profile + "/./"@ + rel,
        dest + "/"@,
    ]
}

/// The arguments that fetch one path below a remote profile.
fn fetch(agent: &str, host_alias: &str, profile: &str, rel: &str, dest: &str) -> (r: Vec<String>)
    ensures
        texts(r@) == fetch_args(agent@, host_alias@, profile@, rel@, dest@),
{
    let mut src: String = copy(host_alias);
    src.append(":.ccc/agent_settings/");
    src.append(agent);
    src.append("/");
    src.append(profile);
    src.append("/./");
    src.append(rel);
    let mut to: String = copy(dest);
    to.append("/");
    let r: Vec<String> = vec![
        copy("-azR"),
        copy("--safe-links"),
        copy("--exclude=.credentials.json"),
        src,
        to,
    ];
    assert(texts(r@) =~= fetch_args(agent@, host_alias@, profile@, rel@, dest@));
    r
}

/// What to fetch for one session: its transcript, and the directory beside it, if it can have
/// one.
pub struct SessionPull {
    pub file: Vec<String>,
    pub dir: Option<Vec<String>>,
}

/// The transcript's path below the profile, from its path on the remote machine.
pub open spec fn transcript_rel(path: Seq<char>) -> Option<Seq<char>> {
    match rcut_str(path, "/projects/"@) {
        Some((_, after)) => Some("projects/"@ + after),
        None => None,
    }
}

/// The directory beside a transcript.
pub open spec fn sibling_dir(rel: Seq<char>) -> Option<Seq<char>> {
    if ".jsonl"@.is_suffix_of(rel) {
        Some(rel.take(rel.len() - 6) + "/"@)
    } else {
        None
    }
}

/// What is fetched for one session.
pub struct SessionPullView {
    pub file: Seq<Seq<char>>,
    pub dir: Option<Seq<Seq<char>>>,
}

impl SessionPull {
    pub open spec fn view(&self) -> SessionPullView {
        SessionPullView {
            file: texts(self.file@),
            dir: match self.dir {
                Some(d) => Some(texts(d@)),
                None => None,
            },
        }
    }
}

/// What is fetched for one session; nothing where the path is not below a `projects` directory.
pub open spec fn session_args(
    agent: Seq<char>,
    host: Seq<char>,
    profile: Seq<char>,
    path: Seq<char>,
    dest: Seq<char>,
) -> Option<SessionPullView> {
    match transcript_rel(path) {
        None => None,
        Some(rel) => Some(
            SessionPullView {
                file: fetch_args(agent, host, profile, rel, dest),
                dir: match sibling_dir(rel) {
                    None => None,
                    Some(d) => Some(fetch_args(agent, host, profile, d, dest)),
                },
            },
        ),
    }
}

/// What to fetch for one session; nothing where the path is not below a `projects` directory.
pub fn pull_session(
    agent: &str,
    host_alias: &str,
    profile: &str,
    transcript_path: &str,
    dest: &str,
) -> (r: Option<SessionPull>)
    ensures
        match r {
            None => session_args(agent@, host_alias@, profile@, transcript_path@, dest@) is None,
            Some(p) => session_args(agent@, host_alias@, profile@, transcript_path@, dest@) == Some(
                p.view(),
            ),
        },
{
    let after: String = match rsplit_once_str(transcript_path, "/projects/") {
        Some((_, a)) => a,
        None => {
            return None;
        },
    };
    let mut rel: String = copy("projects/");
    rel.append(after.as_str());
    let file: Vec<String> = fetch(agent, host_alias, profile, rel.as_str(), dest);
    let dir: Option<Vec<String>> = if ends_with(rel.as_str(), ".jsonl") {
        let cs: Vec<char> = chars_of(rel.as_str());
        proof {
            reveal_strlit(".jsonl");
        }
        let mut d: String = string_of(&cs, 0, cs.len() - 6);
        assert(d@ =~= rel@.take(rel@.len() - 6));
        d.append("/");
        Some(fetch(agent, host_alias, profile, d.as_str(), dest))
    } else {
        None
    };
    Some(SessionPull { file, dir })
}

/// How a run of rsync ended.
#[derive(Clone, Copy, PartialEq, Eq, Debug, Structural)]
pub enum RsyncRun {
    /// It exited; with no code where a signal ended it.
    Exited(Option<i32>),
    /// The program is not installed.
    NotFound,
    /// It could not be started.
    Failed,
}

/// Why a pull failed.
#[derive(Clone, Copy, PartialEq, Eq, Debug, Structural)]
pub enum RsyncError {
    /// The remote machine has no rsync.
    MissingRemote,
    /// rsync reported a failure.
    Failed(Option<i32>),
    /// This machine has no rsync.
    MissingLocal,
    /// rsync could not be started.
    NotStarted,
}

/// What the end of a run of rsync means.
pub open spec fn rsync_result(run: RsyncRun) -> Result<(), RsyncError> {
    match run {
        RsyncRun::Exited(Some(c)) => if c == 0 {
            Ok(())
        } else if c == 127 {
            Err(RsyncError::MissingRemote)
        } else {
            Err(RsyncError::Failed(Some(c)))
        },
        RsyncRun::Exited(None) => Err(RsyncError::Failed(None)),
        RsyncRun::NotFound => Err(RsyncError::MissingLocal),
        RsyncRun::Failed => Err(RsyncError::NotStarted),
    }
}

/// What the end of a run of rsync means.
pub fn check_rsync(run: RsyncRun) -> (r: Result<(), RsyncError>)
    ensures
        r == rsync_result(run),
{
    match run {
        RsyncRun::Exited(Some(c)) => if c == 0 {
            Ok(())
        } else if c == 127 {
            Err(RsyncError::MissingRemote)
        } else {
            Err(RsyncError::Failed(Some(c)))
        },
        RsyncRun::Exited(None) => Err(RsyncError::Failed(None)),
        RsyncRun::NotFound => Err(RsyncError::MissingLocal),
        RsyncRun::Failed => Err(RsyncError::NotStarted),
    }
}

// ---------------------------------------------------------------- which instance

/// An instance that a session may belong to, with the span of its events.
pub struct Candidate {
    pub instance_id: String,
    pub name: Option<String>,
    pub host_alias: Option<String>,
    pub agent_profile: Option<String>,
    pub directory: Option<String>,
    pub window: Option<(i64, i64)>,
}

/// A directory without slashes at its end; the root stays the root.
pub open spec fn normal_dir(dir: Seq<char>) -> Seq<char> {
    let t = strip_back(dir, only('/'));
    if t.len() == 0 {
        "/"@
    } else {
        t
    }
}

/// A directory without slashes at its end.
pub fn normalize_dir(dir: &str) -> (r: String)
    ensures
        r@ == normal_dir(dir@),
{
    let t: String = trim_end_char(dir, '/');
    if t.as_str().is_empty() {
        copy("/")
    } else {
        t
    }
}

/// Normalising twice is normalising once.
pub proof fn normal_dir_is_normal(dir: Seq<char>)
    ensures
        normal_dir(normal_dir(dir)) == normal_dir(dir),
{
    let p = only('/');
    let t = strip_back(dir, p);
    crate::text::lemma_trail_bounds(dir, p);
    if t.len() == 0 {
        reveal_strlit("/");
        let s = "/"@;
        assert forall|k: int| s.len() - 1 <= k < s.len() implies p(#[trigger] s[k]) by {}
        crate::text::lemma_trail_is(s, p, 1);
    } else {
        assert(t.last() == dir[dir.len() - crate::text::trail(dir, p) - 1]);
        assert(!p(t.last()));
        crate::text::lemma_trail_is(t, p, 0);
        assert(strip_back(t, p) =~= t);
    }
}

/// What is known of a session whose instance is sought.
pub struct Sought {
    pub host: Seq<char>,
    pub profile: Seq<char>,
    pub cwd: Seq<char>,
}

/// Whether an instance ran on the host, with the profile and in the directory.
pub open spec fn fits(c: Candidate, s: Sought) -> bool {
    &&& opt_text(c.host_alias) == Some(s.host)
    &&& opt_text(c.agent_profile) == Some(s.profile)
    &&& match c.directory {
        Some(d) => normal_dir(d@) == normal_dir(s.cwd),
        None => false,
    }
}

/// The instances that fit, in order.
pub open spec fn fitting(cs: Seq<Candidate>, s: Sought, n: int) -> Seq<int>
    decreases n,
{
    if n <= 0 {
        seq![]
    } else if fits(cs[n - 1], s) {
        fitting(cs, s, n - 1).push(n - 1)
    } else {
        fitting(cs, s, n - 1)
    }
}

/// Whether an instance was active around a time.
pub open spec fn holds(c: Candidate, t: int) -> bool {
    match c.window {
        Some((lo, hi)) => lo <= t <= hi,
        None => false,
    }
}

/// How long an instance was active.
pub open spec fn width(c: Candidate) -> int {
    match c.window {
        Some((lo, hi)) => hi - lo,
        None => 0,
    }
}

/// How far from an instance's activity a time is.
pub open spec fn gap(c: Candidate, t: int) -> int {
    match c.window {
        Some((lo, hi)) => if t < lo {
            lo - t
        } else {
            t - hi
        },
        None => 0,
    }
}

/// The one of the instances active around `t` whose activity is the shortest: the first of them,
/// and how many are as short.
pub open spec fn narrowest(cs: Seq<Candidate>, m: Seq<int>, t: int) -> (Option<int>, nat)
    decreases m.len(),
{
    if m.len() == 0 {
        (None, 0)
    } else {
        let (best, ties) = narrowest(cs, m.drop_last(), t);
        let i = m.last();
        if !holds(cs[i], t) {
            (best, ties)
        } else {
            match best {
                None => (Some(i), 1),
                Some(b) => if width(cs[i]) < width(cs[b]) {
                    (Some(i), 1)
                } else if width(cs[i]) == width(cs[b]) {
                    (best, ties + 1)
                } else {
                    (best, ties)
                },
            }
        }
    }
}

/// The first of the instances whose activity is nearest to `t`.
pub open spec fn nearest(cs: Seq<Candidate>, m: Seq<int>, t: int) -> Option<int>
    decreases m.len(),
{
    if m.len() == 0 {
        None
    } else {
        let best = nearest(cs, m.drop_last(), t);
        let i = m.last();
        if cs[i].window is None {
            best
        } else {
            match best {
                None => Some(i),
                Some(b) => if gap(cs[i], t) < gap(cs[b], t) {
                    Some(i)
                } else {
                    best
                },
            }
        }
    }
}

/// How near a time has to be to an instance's activity, in milliseconds.
pub const NEAR_THRESHOLD_MS: i64 = 3_600_000;

/// The instance that a session most likely belongs to; nothing where that is not certain.
///
/// Only instances on the host, with the profile and in the session's directory come into
/// question. One alone is taken. Of several, the one active when the session started with the
/// shortest span of activity is taken, unless two are as short; where none was active then, the
/// nearest within the threshold.
pub open spec fn inferred(cs: Seq<Candidate>, s: Sought, started: Option<i64>) -> Option<int> {
    let m = fitting(cs, s, cs.len() as int);
    if m.len() == 0 {
        None
    } else if m.len() == 1 {
        Some(m[0])
    } else {
        match started {
            None => None,
            Some(t) => {
                let (best, ties) = narrowest(cs, m, t as int);
                match best {
                    Some(b) => if ties == 1 {
                        Some(b)
                    } else {
                        None
                    },
                    None => match nearest(cs, m, t as int) {
                        Some(b) => if gap(cs[b], t as int) <= NEAR_THRESHOLD_MS {
                            Some(b)
                        } else {
                            None
                        },
                        None => None,
                    },
                }
            },
        }
    }
}

proof fn lemma_fitting(cs: Seq<Candidate>, s: Sought, n: int)
    requires
        n <= cs.len(),
    ensures
        forall|k: int|
            0 <= k < fitting(cs, s, n).len() ==> 0 <= #[trigger] fitting(cs, s, n)[k] < n && fits(
                cs[fitting(cs, s, n)[k]],
                s,
            ),
    decreases n,
{
    if n > 0 {
        lemma_fitting(cs, s, n - 1);
        let f = fitting(cs, s, n);
        let g = fitting(cs, s, n - 1);
        assert forall|k: int| 0 <= k < f.len() implies 0 <= #[trigger] f[k] < n && fits(
            cs[f[k]],
            s,
        ) by {
            if k < g.len() {
                assert(f[k] == g[k]);
            }
        }
    }
}

proof fn lemma_narrowest(cs: Seq<Candidate>, m: Seq<int>, t: int)
    ensures
        ({
            let (best, ties) = narrowest(cs, m, t);
            match best {
                Some(b) => m.contains(b) && holds(cs[b], t) && ties >= 1 && (forall|k: int|
                    0 <= k < m.len() && holds(cs[#[trigger] m[k]], t) ==> width(cs[b]) <= width(
                        cs[m[k]],
                    )),
                None => ties == 0 && (forall|k: int|
                    0 <= k < m.len() ==> !holds(cs[#[trigger] m[k]], t)),
            }
        }),
    decreases m.len(),
{
    if m.len() > 0 {
        let p = m.drop_last();
        lemma_narrowest(cs, p, t);
        let (best, ties) = narrowest(cs, m, t);
        assert(m[m.len() - 1] == m.last());
        if let Some(b) = best {
            if p.contains(b) {
                let k = choose|k: int| 0 <= k < p.len() && p[k] == b;
                assert(m[k] == b);
            }
            assert forall|k: int| 0 <= k < m.len() && holds(cs[#[trigger] m[k]], t) implies width(
                cs[b],
            ) <= width(cs[m[k]]) by {
                if k < p.len() {
                    assert(p[k] == m[k]);
                }
            }
        } else {
            assert forall|k: int| 0 <= k < m.len() implies !holds(cs[#[trigger] m[k]], t) by {
                if k < p.len() {
                    assert(p[k] == m[k]);
                }
            }
        }
    }
}

proof fn lemma_nearest(cs: Seq<Candidate>, m: Seq<int>, t: int)
    ensures
        match nearest(cs, m, t) {
            Some(b) => m.contains(b) && cs[b].window is Some && (forall|k: int|
                0 <= k < m.len() && cs[#[trigger] m[k]].window is Some ==> gap(cs[b], t) <= gap(
                    cs[m[k]],
                    t,
                )),
            None => forall|k: int| 0 <= k < m.len() ==> cs[#[trigger] m[k]].window is None,
        },
    decreases m.len(),
{
    if m.len() > 0 {
        let p = m.drop_last();
        lemma_nearest(cs, p, t);
        assert(m[m.len() - 1] == m.last());
        let best = nearest(cs, m, t);
        if let Some(b) = best {
            if p.contains(b) {
                let k = choose|k: int| 0 <= k < p.len() && p[k] == b;
                assert(m[k] == b);
            }
            assert forall|k: int| 0 <= k < m.len() && cs[#[trigger] m[k]].window is Some implies gap(
                cs[b],
                t,
            ) <= gap(cs[m[k]], t) by {
                if k < p.len() {
                    assert(p[k] == m[k]);
                }
            }
        } else {
            assert forall|k: int| 0 <= k < m.len() implies cs[#[trigger] m[k]].window is None by {
                if k < p.len() {
                    assert(p[k] == m[k]);
                }
            }
        }
    }
}

/// A session is never given to an instance on another host, with another profile or in another
/// directory.
pub proof fn inferred_instance_fits(cs: Seq<Candidate>, s: Sought, started: Option<i64>)
    requires
        inferred(cs, s, started) is Some,
    ensures
        0 <= inferred(cs, s, started)->0 < cs.len(),
        fits(cs[inferred(cs, s, started)->0], s),
{
    let m = fitting(cs, s, cs.len() as int);
    lemma_fitting(cs, s, cs.len() as int);
    if m.len() == 1 {
        assert(fits(cs[m[0]], s));
    } else {
        let t = started->0 as int;
        lemma_narrowest(cs, m, t);
        lemma_nearest(cs, m, t);
        let b = inferred(cs, s, started)->0;
        assert(m.contains(b));
        let k = choose|k: int| 0 <= k < m.len() && m[k] == b;
        assert(fits(cs[m[k]], s));
    }
}

/// Where one instance alone fits, it is taken, whatever the times.
pub proof fn single_fit_is_taken(cs: Seq<Candidate>, s: Sought, started: Option<i64>, i: int)
    requires
        0 <= i < cs.len(),
        fits(cs[i], s),
        forall|k: int| 0 <= k < cs.len() && k != i ==> !fits(#[trigger] cs[k], s),
    ensures
        inferred(cs, s, started) == Some(i),
{
    lemma_single_fit(cs, s, i, cs.len() as int);
}

proof fn lemma_single_fit(cs: Seq<Candidate>, s: Sought, i: int, n: int)
    requires
        0 <= i < cs.len(),
        0 <= n <= cs.len(),
        fits(cs[i], s),
        forall|k: int| 0 <= k < cs.len() && k != i ==> !fits(#[trigger] cs[k], s),
    ensures
        fitting(cs, s, n) == if i < n {
            seq![i]
        } else {
            seq![]
        },
    decreases n,
{
    if n > 0 {
        lemma_single_fit(cs, s, i, n - 1);
        assert(fitting(cs, s, n) =~= if i < n {
            seq![i]
        } else {
            seq![]
        });
    }
}

/// Where a session's origin comes from.
pub struct Attribution {
    pub instance_id: Option<String>,
    pub instance_name: Option<String>,
    pub attribution: String,
}

/// Whether an instance ran on the host, with the profile and in the directory.
fn check_fit(c: &Candidate, host: &str, profile: &str, cwd: &str) -> (r: bool)
    ensures
        r == fits(*c, (Sought { host: host@, profile: profile@, cwd: cwd@ })),
{
    match (&c.host_alias, &c.agent_profile, &c.directory) {
        (Some(h), Some(p), Some(d)) => {
            let a: String = normalize_dir(d.as_str());
            let b: String = normalize_dir(cwd);
            same(h.as_str(), host) && same(p.as_str(), profile) && same(a.as_str(), b.as_str())
        },
        _ => false,
    }
}

/// The indices as integers.
pub open spec fn ints(v: Seq<usize>) -> Seq<int> {
    Seq::new(v.len(), |i: int| v[i] as int)
}

/// The index of the instance that a session most likely belongs to.
fn infer_index(
    cs: &Vec<Candidate>,
    host: &str,
    profile: &str,
    cwd: &str,
    started: Option<i64>,
) -> (r: Option<usize>)
    ensures
        ({
            let s = Sought { host: host@, profile: profile@, cwd: cwd@ };
            match r {
                Some(i) => inferred(cs@, s, started) == Some(i as int) && i < cs@.len(),
                None => inferred(cs@, s, started) is None,
            }
        }),
{
    let ghost s = Sought { host: host@, profile: profile@, cwd: cwd@ };
    let mut m: Vec<usize> = Vec::new();
    let mut i: usize = 0;
    assert(ints(m@) =~= fitting(cs@, s, 0));
    while i < cs.len()
        invariant
            i <= cs@.len(),
            s == (Sought { host: host@, profile: profile@, cwd: cwd@ }),
            ints(m@) == fitting(cs@, s, i as int),
            forall|k: int| 0 <= k < m@.len() ==> #[trigger] m@[k] < cs@.len(),
        decreases cs@.len() - i,
    {
        let ghost before = m@;
        if check_fit(&cs[i], host, profile, cwd) {
            m.push(i);
            assert(ints(m@) =~= ints(before).push(i as int));
        }
        i += 1;
    }
    let ghost mm = fitting(cs@, s, cs@.len() as int);
    assert(mm.len() == m@.len());
    if m.len() == 0 {
        return None;
    }
    if m.len() == 1 {
        assert(mm[0] == m@[0]);
        return Some(m[0]);
    }
    let t: i64 = match started {
        Some(t) => t,
        None => {
            return None;
        },
    };
    let mut best: Option<usize> = None;
    let mut ties: usize = 0;
    let mut near: Option<usize> = None;
    let mut k: usize = 0;
    while k < m.len()
        invariant
            k <= m@.len(),
            ints(m@) == mm,
            forall|q: int| 0 <= q < m@.len() ==> #[trigger] m@[q] < cs@.len(),
            ties <= k,
            ({
                let (b, n) = narrowest(cs@, mm.take(k as int), t as int);
                n == ties && match best {
                    Some(x) => b == Some(x as int) && x < cs@.len() && cs@[x as int].window is Some,
                    None => b is None,
                }
            }),
            match near {
                Some(x) => nearest(cs@, mm.take(k as int), t as int) == Some(x as int) && x
                    < cs@.len() && cs@[x as int].window is Some,
                None => nearest(cs@, mm.take(k as int), t as int) is None,
            },
        decreases m@.len() - k,
    {
        let i: usize = m[k];
        proof {
            let p = mm.take(k + 1);
            assert(p.drop_last() =~= mm.take(k as int));
            assert(p.last() == i as int);
        }
        if let Some((lo, hi)) = cs[i].window {
            if lo <= t && t <= hi {
                match best {
                    None => {
                        best = Some(i);
                        ties = 1;
                    },
                    Some(b) => {
                        if let Some((blo, bhi)) = cs[b].window {
                            let w: i128 = hi as i128 - lo as i128;
                            let bw: i128 = bhi as i128 - blo as i128;
                            if w < bw {
                                best = Some(i);
                                ties = 1;
                            } else if w == bw {
                                ties = ties + 1;
                            }
                        }
                    },
                }
            }
            let g: i128 = if t < lo {
                lo as i128 - t as i128
            } else {
                t as i128 - hi as i128
            };
            match near {
                None => {
                    near = Some(i);
                },
                Some(b) => {
                    if let Some((blo, bhi)) = cs[b].window {
                        let bg: i128 = if t < blo {
                            blo as i128 - t as i128
                        } else {
                            t as i128 - bhi as i128
                        };
                        if g < bg {
                            near = Some(i);
                        }
                    }
                },
            }
        }
        k += 1;
    }
    assert(mm.take(mm.len() as int) =~= mm);
    match best {
        Some(b) => if ties == 1 {
            Some(b)
        } else {
            None
        },
        None => match near {
            Some(b) => {
                if let Some((lo, hi)) = cs[b].window {
                    let g: i128 = if t < lo {
                        lo as i128 - t as i128
                    } else {
                        t as i128 - hi as i128
                    };
                    if g <= NEAR_THRESHOLD_MS as i128 {
                        Some(b)
                    } else {
                        None
                    }
                } else {
                    None
                }
            },
            None => None,
        },
    }
}

/// What is stored of a session's origin for an inferred instance; without one, only its host is
/// known.
pub open spec fn attribution_for(cs: Seq<Candidate>, i: Option<int>) -> (
    Option<Seq<char>>,
    Option<Seq<char>>,
    Seq<char>,
) {
    match i {
        Some(i) => (Some(cs[i].instance_id@), opt_text(cs[i].name), "inferred"@),
        None => (None, None, "host"@),
    }
}

/// The origin of a session, inferred from where and when it ran.
pub fn infer_attribution(
    cs: &Vec<Candidate>,
    host_alias: &str,
    profile: &str,
    cwd: Option<&str>,
    started_at: Option<i64>,
) -> (r: Attribution)
    ensures
        ({
            let i = match cwd {
                Some(c) => inferred(
                    cs@,
                    (Sought { host: host_alias@, profile: profile@, cwd: c@ }),
                    started_at,
                ),
                None => None,
            };
            (opt_text(r.instance_id), opt_text(r.instance_name), r.attribution@) == attribution_for(
                cs@,
                i,
            )
        }),
{
    let found: Option<usize> = match cwd {
        Some(c) => infer_index(cs, host_alias, profile, c, started_at),
        None => None,
    };
    match found {
        Some(i) => Attribution {
            instance_id: Some(copy(cs[i].instance_id.as_str())),
            instance_name: copy_opt(&cs[i].name),
            attribution: copy("inferred"),
        },
        None => Attribution {
            instance_id: None,
            instance_name: None,
            attribution: copy("host"),
        },
    }
}

// ---------------------------------------------------------------- storing it

/// What is stored of a session's origin.
pub struct Origin {
    pub kind: Option<String>,
    pub host_alias: Option<String>,
    pub agent_profile: Option<String>,
    pub attribution: Option<String>,
    pub instance_id: Option<String>,
    pub instance_name: Option<String>,
}

/// What a session's origin is.
pub struct OriginView {
    pub kind: Option<Seq<char>>,
    pub host_alias: Option<Seq<char>>,
    pub agent_profile: Option<Seq<char>>,
    pub attribution: Option<Seq<char>>,
    pub instance_id: Option<Seq<char>>,
    pub instance_name: Option<Seq<char>>,
}

impl Origin {
    pub open spec fn view(&self) -> OriginView {
        OriginView {
            kind: opt_text(self.kind),
            host_alias: opt_text(self.host_alias),
            agent_profile: opt_text(self.agent_profile),
            attribution: opt_text(self.attribution),
            instance_id: opt_text(self.instance_id),
            instance_name: opt_text(self.instance_name),
        }
    }
}

/// The origin of a pulled session: it is remote and on the host it was pulled from. What a hook
/// told of its instance stays; otherwise the inference counts.
pub open spec fn pulled_origin(
    o: OriginView,
    host: Seq<char>,
    profile: Seq<char>,
    guess: (Option<Seq<char>>, Option<Seq<char>>, Seq<char>),
) -> OriginView {
    let base = OriginView {
        kind: Some("remote"@),
        host_alias: Some(host),
        agent_profile: first_of(o.agent_profile, Some(profile)),
        ..o
    };
    if o.attribution == Some("hook"@) {
        base
    } else {
        OriginView {
            attribution: Some(guess.2),
            instance_id: first_of(guess.0, o.instance_id),
            instance_name: first_of(guess.1, o.instance_name),
            ..base
        }
    }
}

/// What a hook told of a session's instance is never overwritten.
pub proof fn hook_attribution_stays(
    o: OriginView,
    host: Seq<char>,
    profile: Seq<char>,
    guess: (Option<Seq<char>>, Option<Seq<char>>, Seq<char>),
)
    requires
        o.attribution == Some("hook"@),
    ensures
        pulled_origin(o, host, profile, guess).attribution == o.attribution,
        pulled_origin(o, host, profile, guess).instance_id == o.instance_id,
        pulled_origin(o, host, profile, guess).instance_name == o.instance_name,
{
}

/// The origin to store for a pulled session.
pub fn apply_remote_attribution(o: &Origin, host_alias: &str, profile: &str, guess: &Attribution) -> (r:
    Origin)
    ensures
        r.view() == pulled_origin(
            o.view(),
            host_alias@,
            profile@,
            (opt_text(guess.instance_id), opt_text(guess.instance_name), guess.attribution@),
        ),
{
    let by_hook: bool = match &o.attribution {
        Some(a) => same(a.as_str(), "hook"),
        None => false,
    };
    let agent_profile: Option<String> = copy_first(&o.agent_profile, &Some(copy(profile)));
    if by_hook {
        Origin {
            kind: Some(copy("remote")),
            host_alias: Some(copy(host_alias)),
            agent_profile,
            attribution: copy_opt(&o.attribution),
            instance_id: copy_opt(&o.instance_id),
            instance_name: copy_opt(&o.instance_name),
        }
    } else {
        Origin {
            kind: Some(copy("remote")),
            host_alias: Some(copy(host_alias)),
            agent_profile,
            attribution: Some(copy(guess.attribution.as_str())),
            instance_id: copy_first(&guess.instance_id, &o.instance_id),
            instance_name: copy_first(&guess.instance_name, &o.instance_name),
        }
    }
}

// ---------------------------------------------------------------- what inference promises

proof fn lemma_fitting_has(cs: Seq<Candidate>, s: Sought, n: int, i: int)
    requires
        0 <= n <= cs.len(),
    ensures
        fitting(cs, s, n).contains(i) <==> 0 <= i < n && fits(cs[i], s),
        forall|a: int, b: int|
            0 <= a < b < fitting(cs, s, n).len() ==> #[trigger] fitting(cs, s, n)[a]
                < #[trigger] fitting(cs, s, n)[b],
    decreases n,
{
    lemma_fitting(cs, s, n);
    if n > 0 {
        lemma_fitting_has(cs, s, n - 1, i);
        lemma_fitting(cs, s, n - 1);
        let f = fitting(cs, s, n);
        let g = fitting(cs, s, n - 1);
        if g.contains(i) {
            let k = choose|k: int| 0 <= k < g.len() && g[k] == i;
            assert(f[k] == i);
        }
        if fits(cs[n - 1], s) {
            assert(f[f.len() - 1] == n - 1);
        }
        if f.contains(i) {
            let k = choose|k: int| 0 <= k < f.len() && f[k] == i;
            if k < g.len() {
                assert(g[k] == i);
            }
        }
        assert forall|a: int, b: int| 0 <= a < b < f.len() implies #[trigger] f[a]
            < #[trigger] f[b] by {
            assert(f[a] == g[a]);
            if b < g.len() {
                assert(f[b] == g[b]);
            }
        }
    }
}

proof fn lemma_narrowest_alone(cs: Seq<Candidate>, m: Seq<int>, t: int)
    requires
        forall|a: int, b: int| 0 <= a < b < m.len() ==> #[trigger] m[a] < #[trigger] m[b],
    ensures
        ({
            let (best, ties) = narrowest(cs, m, t);
            &&& ties == 1 ==> forall|k: int|
                0 <= k < m.len() && holds(cs[#[trigger] m[k]], t) && Some(m[k]) != best ==> width(
                    cs[best->0],
                ) < width(cs[m[k]])
            &&& ties > 1 ==> exists|k: int|
                0 <= k < m.len() && holds(cs[#[trigger] m[k]], t) && Some(m[k]) != best && width(
                    cs[best->0],
                ) == width(cs[m[k]])
        }),
    decreases m.len(),
{
    if m.len() > 0 {
        let p = m.drop_last();
        assert forall|a: int, b: int| 0 <= a < b < p.len() implies #[trigger] p[a]
            < #[trigger] p[b] by {
            assert(m[a] < m[b]);
        }
        lemma_narrowest_alone(cs, p, t);
        lemma_narrowest(cs, p, t);
        let (was, ties_before) = narrowest(cs, p, t);
        let (best, ties) = narrowest(cs, m, t);
        assert(m[m.len() - 1] == m.last());
        assert forall|k: int| 0 <= k < p.len() implies #[trigger] p[k] < m.last() by {
            assert(m[k] == p[k]);
        }
        if ties == 1 {
            assert forall|k: int|
                0 <= k < m.len() && holds(cs[#[trigger] m[k]], t) && Some(m[k])
                    != best implies width(cs[best->0]) < width(cs[m[k]]) by {
                if k < p.len() {
                    assert(p[k] == m[k]);
                }
            }
        }
        if ties > 1 {
            if holds(cs[m.last()], t) && was is Some && width(cs[m.last()]) == width(cs[was->0]) {
                assert(p.contains(was->0));
                let k = m.len() - 1;
                assert(holds(cs[m[k]], t) && Some(m[k]) != best && width(cs[best->0]) == width(
                    cs[m[k]],
                ));
            } else {
                let k = choose|k: int|
                    0 <= k < p.len() && holds(cs[#[trigger] p[k]], t) && Some(p[k]) != was && width(
                        cs[was->0],
                    ) == width(cs[p[k]]);
                assert(m[k] == p[k]);
            }
        }
    }
}

proof fn lemma_nearest_first(cs: Seq<Candidate>, m: Seq<int>, t: int)
    requires
        forall|a: int, b: int| 0 <= a < b < m.len() ==> #[trigger] m[a] < #[trigger] m[b],
    ensures
        nearest(cs, m, t) matches Some(b) ==> forall|k: int|
            0 <= k < m.len() && cs[#[trigger] m[k]].window is Some && m[k] < b ==> gap(cs[b], t)
                < gap(cs[m[k]], t),
    decreases m.len(),
{
    if m.len() > 0 {
        let p = m.drop_last();
        assert forall|a: int, b: int| 0 <= a < b < p.len() implies #[trigger] p[a]
            < #[trigger] p[b] by {
            assert(m[a] < m[b]);
        }
        lemma_nearest_first(cs, p, t);
        lemma_nearest(cs, p, t);
        assert(m[m.len() - 1] == m.last());
        if let Some(b) = nearest(cs, m, t) {
            assert forall|k: int|
                0 <= k < m.len() && cs[#[trigger] m[k]].window is Some && m[k] < b implies gap(
                cs[b],
                t,
            ) < gap(cs[m[k]], t) by {
                if k < p.len() {
                    assert(p[k] == m[k]);
                    if b == m.last() && nearest(cs, p, t) is Some {
                        assert(gap(cs[nearest(cs, p, t)->0], t) <= gap(cs[p[k]], t));
                    }
                } else {
                    assert(p.contains(b));
                    let q = choose|q: int| 0 <= q < p.len() && p[q] == b;
                    assert(m[q] < m[k]);
                }
            }
        }
    }
}

/// What comes into question for a session: an instance on its host, with its profile, in its
/// directory, slashes at the directory's end left aside.
pub proof fn fitting_is_host_profile_and_directory(
    c: Candidate,
    s: Sought,
    x: Seq<char>,
    y: Seq<char>,
    a: Seq<char>,
    b: Seq<char>,
)
    requires
        c.directory is Some,
        c.directory->0@ == x + a,
        s.cwd == y + b,
        forall|k: int| 0 <= k < a.len() ==> #[trigger] a[k] == '/',
        forall|k: int| 0 <= k < b.len() ==> #[trigger] b[k] == '/',
        x.len() > 0 ==> x.last() != '/',
        y.len() > 0 ==> y.last() != '/',
    ensures
        fits(c, s) <==> c.host_alias is Some && c.host_alias->0@ == s.host && c.agent_profile is Some
            && c.agent_profile->0@ == s.profile && x == y,
        fits((Candidate { directory: None, ..c }), s) == false,
{
    reveal_strlit("/");
    let p = only('/');
    let u = x + a;
    let v = y + b;
    if x.len() > 0 {
        assert(u[u.len() - a.len() - 1] == x.last());
    }
    if y.len() > 0 {
        assert(v[v.len() - b.len() - 1] == y.last());
    }
    crate::text::lemma_trail_is(u, p, a.len());
    crate::text::lemma_trail_is(v, p, b.len());
    assert(strip_back(u, p) =~= x);
    assert(strip_back(v, p) =~= y);
    let slash = "/"@;
    assert(slash.len() == 1 && slash.last() == '/');
    if x.len() == 0 && y.len() == 0 {
        assert(x =~= y);
    }
    assert(x != slash && y != slash);
}

/// A session is never given to an instance where a narrower one was active when it started: where the
/// instance given and another fit, and the other was active then, the one given was active then too
/// and for a shorter time.
pub proof fn inferred_instance_is_the_narrowest(
    cs: Seq<Candidate>,
    s: Sought,
    t: i64,
    i: int,
    lo: i64,
    hi: i64,
)
    requires
        inferred(cs, s, Some(t)) is Some,
        0 <= i < cs.len(),
        i != inferred(cs, s, Some(t))->0,
        fits(cs[i], s),
        cs[i].window == Some((lo, hi)),
        lo <= t <= hi,
    ensures
        cs[inferred(cs, s, Some(t))->0].window matches Some((a, b)) && a <= t <= b && b - a < hi - lo,
{
    let n = cs.len() as int;
    let m = fitting(cs, s, n);
    let b = inferred(cs, s, Some(t))->0;
    lemma_fitting_has(cs, s, n, i);
    inferred_instance_fits(cs, s, Some(t));
    lemma_fitting_has(cs, s, n, b);
    let k = choose|k: int| 0 <= k < m.len() && m[k] == i;
    let q = choose|q: int| 0 <= q < m.len() && m[q] == b;
    assert(m.len() != 1);
    lemma_narrowest(cs, m, t as int);
    lemma_narrowest_alone(cs, m, t as int);
    assert(holds(cs[m[k]], t as int));
}

/// The other way round: the instance that was active when the session started, for a shorter time
/// than every other that fits and was active then, is the one given.
pub proof fn narrowest_instance_is_inferred(cs: Seq<Candidate>, s: Sought, t: i64, i: int, lo: i64, hi: i64)
    requires
        0 <= i < cs.len(),
        fits(cs[i], s),
        cs[i].window == Some((lo, hi)),
        lo <= t <= hi,
        forall|k: int|
            0 <= k < cs.len() && k != i && fits(#[trigger] cs[k], s) ==> (cs[k].window matches Some(
                (a, b),
            ) ==> a <= t <= b ==> hi - lo < b - a),
    ensures
        inferred(cs, s, Some(t)) == Some(i),
{
    let n = cs.len() as int;
    let m = fitting(cs, s, n);
    lemma_fitting_has(cs, s, n, i);
    let k = choose|k: int| 0 <= k < m.len() && m[k] == i;
    if m.len() == 1 {
        assert(m[0] == i);
    } else {
        lemma_narrowest(cs, m, t as int);
        lemma_narrowest_alone(cs, m, t as int);
        assert(holds(cs[m[k]], t as int));
        let (best, ties) = narrowest(cs, m, t as int);
        let b = best->0;
        lemma_fitting_has(cs, s, n, b);
        assert(b == i);
        if ties > 1 {
            let q = choose|q: int|
                0 <= q < m.len() && holds(cs[#[trigger] m[q]], t as int) && Some(m[q]) != best
                    && width(cs[b]) == width(cs[m[q]]);
            assert(m.contains(m[q]));
            lemma_fitting_has(cs, s, n, m[q]);
        }
    }
}

/// Two that were active when the session started, for the same time, leave it open where no other was
/// active for a shorter one.
pub proof fn equals_are_not_told_apart(
    cs: Seq<Candidate>,
    s: Sought,
    t: i64,
    i: int,
    j: int,
    lo: i64,
    hi: i64,
)
    requires
        0 <= i < cs.len(),
        0 <= j < cs.len(),
        i != j,
        fits(cs[i], s),
        fits(cs[j], s),
        cs[i].window == Some((lo, hi)),
        cs[j].window == Some((lo, hi)),
        lo <= t <= hi,
    ensures
        inferred(cs, s, Some(t)) != Some(i),
        inferred(cs, s, Some(t)) != Some(j),
{
    if inferred(cs, s, Some(t)) == Some(i) {
        inferred_instance_is_the_narrowest(cs, s, t, j, lo, hi);
    }
    if inferred(cs, s, Some(t)) == Some(j) {
        inferred_instance_is_the_narrowest(cs, s, t, i, lo, hi);
    }
}

/// Where several fit and none of them was active when the session started, the one given was active
/// within an hour of it, none of the others nearer to it, and none that stands before it as near.
pub proof fn inferred_instance_is_the_nearest(
    cs: Seq<Candidate>,
    s: Sought,
    t: i64,
    i: int,
    lo: i64,
    hi: i64,
)
    requires
        inferred(cs, s, Some(t)) is Some,
        0 <= i < cs.len(),
        i != inferred(cs, s, Some(t))->0,
        fits(cs[i], s),
        cs[i].window == Some((lo, hi)),
        lo <= hi,
        forall|k: int|
            0 <= k < cs.len() && fits(#[trigger] cs[k], s) ==> (cs[k].window matches Some((a, b))
                ==> !(a <= t <= b)),
    ensures
        cs[inferred(cs, s, Some(t))->0].window matches Some((a, b)) && (a <= b ==> {
            let far = if t < lo {
                lo - t
            } else {
                t - hi
            };
            &&& a - t <= 3_600_000
            &&& t - b <= 3_600_000
            &&& a - t <= far
            &&& t - b <= far
            &&& i < inferred(cs, s, Some(t))->0 ==> a - t < far && t - b < far
        }),
{
    let n = cs.len() as int;
    let m = fitting(cs, s, n);
    let b = inferred(cs, s, Some(t))->0;
    lemma_fitting_has(cs, s, n, i);
    inferred_instance_fits(cs, s, Some(t));
    lemma_fitting_has(cs, s, n, b);
    let k = choose|k: int| 0 <= k < m.len() && m[k] == i;
    let q = choose|q: int| 0 <= q < m.len() && m[q] == b;
    assert(m.len() != 1);
    lemma_narrowest(cs, m, t as int);
    let (best, ties) = narrowest(cs, m, t as int);
    if best is Some {
        lemma_fitting_has(cs, s, n, best->0);
        assert(holds(cs[best->0], t as int));
    }
    lemma_nearest(cs, m, t as int);
    lemma_nearest_first(cs, m, t as int);
    assert(cs[m[k]].window is Some);
}

/// Where none of those that fit was active when the session started, but one within an hour of it,
/// some instance is given.
pub proof fn near_instance_is_inferred(cs: Seq<Candidate>, s: Sought, t: i64, i: int, lo: i64, hi: i64)
    requires
        0 <= i < cs.len(),
        fits(cs[i], s),
        cs[i].window == Some((lo, hi)),
        lo - t <= 3_600_000,
        t - hi <= 3_600_000,
        forall|k: int|
            0 <= k < cs.len() && fits(#[trigger] cs[k], s) ==> (cs[k].window matches Some((a, b))
                ==> !(a <= t <= b)),
    ensures
        inferred(cs, s, Some(t)) is Some,
{
    let n = cs.len() as int;
    let m = fitting(cs, s, n);
    lemma_fitting_has(cs, s, n, i);
    let k = choose|k: int| 0 <= k < m.len() && m[k] == i;
    lemma_narrowest(cs, m, t as int);
    let (best, ties) = narrowest(cs, m, t as int);
    if best is Some {
        lemma_fitting_has(cs, s, n, best->0);
        assert(holds(cs[best->0], t as int));
    }
    lemma_nearest(cs, m, t as int);
    assert(cs[m[k]].window is Some);
    assert(gap(cs[i], t as int) <= 3_600_000);
}

/// Nothing is inferred where no instance fits, nor, where several do, of a session whose start is not
/// known.
pub proof fn nothing_is_guessed(cs: Seq<Candidate>, s: Sought, started: Option<i64>, i: int, j: int)
    requires
        (forall|k: int| 0 <= k < cs.len() ==> !fits(#[trigger] cs[k], s)) || (started is None && 0
            <= i < j < cs.len() && fits(cs[i], s) && fits(cs[j], s)),
    ensures
        inferred(cs, s, started) is None,
{
    let n = cs.len() as int;
    let m = fitting(cs, s, n);
    if m.len() > 0 {
        lemma_fitting(cs, s, n);
        assert(fits(cs[m[0]], s));
        lemma_fitting_has(cs, s, n, i);
        lemma_fitting_has(cs, s, n, j);
        let a = choose|a: int| 0 <= a < m.len() && m[a] == i;
        let b = choose|b: int| 0 <= b < m.len() && m[b] == j;
        assert(m.len() != 1);
    }
}

/// What is stored of an inferred instance is its own id and name; without one neither is known.
pub proof fn attribution_names_the_instance(cs: Seq<Candidate>, i: int)
    ensures
        attribution_for(cs, Some(i)).0 == Some(cs[i].instance_id@),
        attribution_for(cs, Some(i)).1 == opt_text(cs[i].name),
        attribution_for(cs, Some(i)).2 == "inferred"@,
        attribution_for(cs, None) == (None::<Seq<char>>, None::<Seq<char>>, "host"@),
{
}

/// A pulled session is remote and on the host that it was pulled from; a profile and an instance that
/// are known are replaced by nothing, and what a hook did not tell is what the inference says.
pub proof fn pulled_session_is_on_its_host(
    o: OriginView,
    host: Seq<char>,
    profile: Seq<char>,
    guess: (Option<Seq<char>>, Option<Seq<char>>, Seq<char>),
)
    ensures
        ({
            let r = pulled_origin(o, host, profile, guess);
            &&& r.kind == Some("remote"@)
            &&& r.host_alias == Some(host)
            &&& o.agent_profile is Some ==> r.agent_profile == o.agent_profile
            &&& o.agent_profile is None ==> r.agent_profile == Some(profile)
            &&& o.attribution != Some("hook"@) ==> r.attribution == Some(guess.2)
            &&& o.attribution != Some("hook"@) && guess.0 is Some ==> r.instance_id == guess.0
            &&& o.attribution != Some("hook"@) && guess.1 is Some ==> r.instance_name == guess.1
            &&& guess.0 is None ==> r.instance_id == o.instance_id
            &&& guess.1 is None ==> r.instance_name == o.instance_name
            &&& pulled_origin(r, host, profile, guess) == r
        }),
{
}

// ---------------------------------------------------------------- what pulling promises

/// A sweep reads the profile's own directory on the host and writes below the destination; what it
/// may take is named before everything else is left out, and credentials are left out before anything
/// is named.
pub proof fn sweep_takes_transcripts_and_memory(
    agent: Seq<char>,
    host: Seq<char>,
    profile: Seq<char>,
    dest: Seq<char>,
    taken: Seq<char>,
)
    requires
        taken == "--include=projects/***"@ || taken == "--include=memory/***"@ || taken
            == "--include=MEMORY.md"@ || taken == "--include=rules/***"@ || taken == "--include=*/"@
            || taken == "--include="@ + memory_name(agent),
    ensures
        ({
            let a = sweep_args(agent, host, profile, dest);
            &&& exists|c: int, i: int, x: int|
                0 <= c < i < x < a.len() - 2 && #[trigger] a[c] == "--exclude=.credentials.json"@
                    && #[trigger] a[i] == taken && #[trigger] a[x] == "--exclude=*"@
            &&& a[a.len() - 2] == host + ":.ccc/agent_settings/"@ + agent + "/"@ + profile + "/"@
            &&& a[a.len() - 1] == dest + "/"@
            &&& a.contains("--safe-links"@)
        }),
{
    let a = sweep_args(agent, host, profile, dest);
    assert(a.len() == 13);
    assert(a[3] == "--exclude=.credentials.json"@);
    assert(a[10] == "--exclude=*"@);
    assert(a[1] == "--safe-links"@);
    assert(a[4] == "--include=*/"@);
    assert(a[5] == "--include=projects/***"@);
    assert(a[6] == "--include="@ + memory_name(agent));
    assert(a[7] == "--include=memory/***"@);
    assert(a[8] == "--include=MEMORY.md"@);
    assert(a[9] == "--include=rules/***"@);
}

/// What is fetched of a session is what stands below the last `projects` directory in the path of its
/// transcript, under the same path below the profile; a transcript's directory goes with it.
pub proof fn session_is_fetched_from_its_place(
    agent: Seq<char>,
    host: Seq<char>,
    profile: Seq<char>,
    before: Seq<char>,
    rest: Seq<char>,
    dest: Seq<char>,
)
    requires
        !crate::split::has(("/projects/"@ + rest).skip(1), "/projects/"@),
    ensures
        ({
            let from = host + ":.ccc/agent_settings/"@ + agent + "/"@ + profile + "/./projects/"@;
            match session_args(agent, host, profile, before + "/projects/"@ + rest, dest) {
                Some(p) => {
                    &&& p.file[p.file.len() - 2] == from + rest
                    &&& p.file[p.file.len() - 1] == dest + "/"@
                    &&& p.file.contains("--exclude=.credentials.json"@)
                    &&& p.dir is Some <==> ".jsonl"@.is_suffix_of("projects/"@ + rest)
                    &&& forall|name: Seq<char>|
                        rest == #[trigger] (name + ".jsonl"@) ==> p.dir is Some
                            && p.dir->0[p.dir->0.len() - 2] == from + name + "/"@
                            && p.dir->0[p.dir->0.len() - 1] == dest + "/"@
                },
                None => false,
            }
        }),
{
    let path = before + "/projects/"@ + rest;
    reveal_strlit("/projects/");
    reveal_strlit("projects/");
    reveal_strlit("/./projects/");
    reveal_strlit("/./");
    reveal_strlit(".jsonl");
    let at = before.len() as int;
    let sep = "/projects/"@;
    assert(path.skip(at) =~= sep + rest);
    assert((sep + rest).subrange(0, sep.len() as int) =~= sep);
    assert(sep.is_prefix_of(path.skip(at)));
    assert forall|k: int| at < k <= path.len() implies !sep.is_prefix_of(#[trigger] path.skip(k)) by {
        let t = (sep + rest).skip(1);
        assert(path.skip(k) =~= t.skip(k - at - 1));
    }
    lemma_last_at(path, sep, at, path.len() as int);
    assert(path.skip(at + sep.len()) =~= rest);
    let rel = "projects/"@ + rest;
    assert(transcript_rel(path) == Some(rel));
    let from = host + ":.ccc/agent_settings/"@ + agent + "/"@ + profile + "/./projects/"@;
    let f = fetch_args(agent, host, profile, rel, dest);
    assert(f[3] =~= from + rest);
    assert(f[2] == "--exclude=.credentials.json"@);
    assert forall|name: Seq<char>| rest == #[trigger] (name + ".jsonl"@) implies sibling_dir(rel)
        == Some("projects/"@ + name + "/"@) by {
        assert(rel.subrange(rel.len() - 6, rel.len() as int) =~= ".jsonl"@);
        assert(rel.take(rel.len() - 6) + "/"@ =~= "projects/"@ + name + "/"@);
    }
    assert forall|name: Seq<char>| rest == #[trigger] (name + ".jsonl"@) implies fetch_args(
        agent,
        host,
        profile,
        "projects/"@ + name + "/"@,
        dest,
    )[3] == from + name + "/"@ by {
        assert(host + ":.ccc/agent_settings/"@ + agent + "/"@ + profile + "/./"@ + ("projects/"@
            + name + "/"@) =~= from + name + "/"@);
    }
}

proof fn lemma_last_at(s: Seq<char>, p: Seq<char>, at: int, upto: int)
    requires
        0 <= at <= upto,
        p.is_prefix_of(s.skip(at)),
        forall|k: int| at < k <= upto ==> !p.is_prefix_of(#[trigger] s.skip(k)),
    ensures
        crate::split::last_at(s, p, upto) == at,
    decreases upto - at,
{
    if upto > at {
        lemma_last_at(s, p, at, upto - 1);
    }
}

/// A run of rsync went well exactly where it ended with 0; a command that the remote shell does not
/// know is told apart from every other failure.
pub proof fn rsync_went_well_with_zero(run: RsyncRun)
    ensures
        rsync_result(run) is Ok <==> run == RsyncRun::Exited(Some(0)),
        rsync_result(run) == Err::<(), RsyncError>(RsyncError::MissingRemote) <==> run
            == RsyncRun::Exited(Some(127)),
        rsync_result(run) == Err::<(), RsyncError>(RsyncError::MissingLocal) <==> run
            == RsyncRun::NotFound,
        rsync_result(run) == Err::<(), RsyncError>(RsyncError::NotStarted) <==> run
            == RsyncRun::Failed,
{
}

/// A profile is pulled in archive mode and packed, without directories that would stay empty; what is
/// excluded by name comes before all that is taken.
pub proof fn sweep_leaves_empty_directories(
    agent: Seq<char>,
    host: Seq<char>,
    profile: Seq<char>,
    dest: Seq<char>,
)
    ensures
        ({
            let a = sweep_args(agent, host, profile, dest);
            a.len() == 13 && a[0] == "-az"@ && a[1] == "--safe-links"@ && a[2] == "--prune-empty-dirs"@
                && a[3] == "--exclude=.credentials.json"@
        }),
{
}

} // verus!
