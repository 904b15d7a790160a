//! Reading the archive: which sessions and messages, in which order.

use crate::archive::compress::{
    decode_blob_to_string, decode_blob_to_string_with_dict, decoded, decoded_with,
};
use crate::archive::like::{
    is_like, like, pattern_finds_what_begins_with_it, pattern_finds_what_ends_with_it,
    plain_pattern_finds_nothing_else,
};
use crate::archive::memory::{check_wish, or_empty, wished};
use crate::order::{
    is_text_before, lemma_text_asymmetric, lemma_text_irreflexive, lemma_text_weak, positions,
    sort_keys, sorted_holds_every_position, sorts, text_before, Key,
};
use crate::split::{
    join, joined, joined_holds_each, mapped, replace_char, strip_prefix, swap, words, words_of,
};
use crate::text::{copy, copy_opt, lemma_texts_push, lowered, opt_text, same, texts};
use vstd::prelude::*;

verus! {

/// A session in a listing.
pub struct SessionRow {
    pub session_id: String,
    pub instance_name: Option<String>,
    pub kind: Option<String>,
    pub host_alias: Option<String>,
    pub project: Option<String>,
    pub source: Option<String>,
    pub attribution: Option<String>,
    pub started_at: Option<i64>,
    pub ended_at: Option<i64>,
    pub message_count: i64,
    pub summary: Option<String>,
}

/// A message that a search found.
pub struct SearchHit {
    pub session_id: String,
    pub message_id: i64,
    pub seq: Option<i64>,
    pub ts: Option<i64>,
    pub role: Option<String>,
    pub project: Option<String>,
    pub snippet: String,
}

/// A session that a search found, with the number of its messages that matched.
pub struct SessionHit {
    pub session: SessionRow,
    pub hits: i64,
}

/// A message of a session.
pub struct MessageRow {
    pub id: i64,
    pub seq: Option<i64>,
    pub ts: Option<i64>,
    pub role: Option<String>,
    pub msg_type: Option<String>,
    pub tool_name: Option<String>,
    pub is_sidechain: bool,
    pub agent_id: Option<String>,
    pub text: Option<String>,
    pub raw: Option<String>,
}

/// Which sessions to list; what is not set is not asked for.
pub struct ListFilter {
    pub kind: Option<String>,
    pub host: Option<String>,
    pub project: Option<String>,
    /// Only sessions with activity at this time or later.
    pub since_ms: Option<i64>,
    pub limit: i64,
}

// ---------------------------------------------------------------- search terms

/// A word in quotes, quotes in it doubled.
pub open spec fn quoted(w: Seq<char>) -> Seq<char> {
    seq!['"'] + mapped(w, swap('"', "\"\""@)) + seq!['"']
}

/// Each word in quotes.
pub open spec fn quoted_words(v: Seq<Seq<char>>) -> Seq<Seq<char>> {
    Seq::new(v.len(), |i: int| quoted(v[i]))
}

/// The full-text expression that asks for each word of the input; nothing where it has none.
pub open spec fn match_terms(input: Seq<char>) -> Option<Seq<char>> {
    let w = words_of(input);
    if w.len() == 0 {
        None
    } else {
        Some(joined(quoted_words(w), " "@))
    }
}

/// The full-text expression that asks for each word of the input: nothing in a word is read as
/// an operator.
pub fn fts_query(input: &str) -> (r: Option<String>)
    ensures
        opt_text(r) == match_terms(input@),
{
    let w: Vec<String> = words(input);
    assert(texts(w@).len() == w@.len());
    if w.len() == 0 {
        return None;
    }
    let mut q: Vec<String> = Vec::new();
    let mut i: usize = 0;
    while i < w.len()
        invariant
            i <= w@.len(),
            q@.len() == i,
            forall|k: int| 0 <= k < i ==> (#[trigger] q@[k])@ == quoted(w@[k]@),
        decreases w@.len() - i,
    {
        let mut s: String = String::new();
        s.push('"');
        s.append(replace_char(w[i].as_str(), '"', "\"\"").as_str());
        s.push('"');
        assert(s@ =~= quoted(w@[i as int]@));
        q.push(s);
        i += 1;
    }
    assert(texts(q@) =~= quoted_words(texts(w@)));
    Some(join(&q, " "))
}

/// How many hits a search lists: as many as asked for, or 30.
pub fn search_limit(limit: i64) -> (r: i64)
    ensures
        r == if limit <= 0 {
            30
        } else {
            limit as int
        },
{
    if limit <= 0 {
        30
    } else {
        limit
    }
}

/// Whether a hit is asked for: of the project, and no older than the time, where these are given.
pub open spec fn hit_wanted(h: SearchHit, project: Option<Seq<char>>, since: Option<i64>) -> bool {
    &&& project is Some ==> opt_text(h.project) == project
    &&& since is Some ==> h.ts is Some && h.ts->0 >= since->0
}

/// The hits asked for among the first `n`, in order.
pub open spec fn hits_at(
    hits: Seq<SearchHit>,
    project: Option<Seq<char>>,
    since: Option<i64>,
    n: int,
) -> Seq<int>
    decreases n,
{
    if n <= 0 {
        seq![]
    } else if hit_wanted(hits[n - 1], project, since) {
        hits_at(hits, project, since, n - 1).push(n - 1)
    } else {
        hits_at(hits, project, since, n - 1)
    }
}

/// The positions of the hits to list, out of all that the index found, the best first.
pub fn search(
    hits: &Vec<SearchHit>,
    project: &Option<String>,
    since_ms: Option<i64>,
    limit: i64,
) -> (r: Vec<usize>)
    ensures
        ({
            let all = hits_at(hits@, opt_text(*project), since_ms, hits@.len() as int);
            let most = if limit <= 0 {
                30
            } else {
                limit as int
            };
            positions(r@) == if all.len() <= most {
                all
            } else {
                all.take(most)
            }
        }),
{
    let most: usize = as_limit(search_limit(limit));
    let ghost p = opt_text(*project);
    let mut at: Vec<usize> = Vec::new();
    let n: usize = hits.len();
    let mut i: usize = 0;
    assert(positions(at@) =~= hits_at(hits@, p, since_ms, 0));
    while i < n && at.len() < most
        invariant
            i <= n == hits@.len(),
            p == opt_text(*project),
            at@.len() <= most,
            positions(at@) == hits_at(hits@, p, since_ms, i as int),
        decreases n - i,
    {
        let h: &SearchHit = &hits[i];
        let mine: bool = match (project, &h.project) {
            (None, _) => true,
            (Some(a), Some(b)) => same(a.as_str(), b.as_str()),
            (Some(_), None) => false,
        };
        let late: bool = match (since_ms, h.ts) {
            (None, _) => true,
            (Some(a), Some(b)) => b >= a,
            (Some(_), None) => false,
        };
        if mine && late {
            let ghost before = at@;
            at.push(i);
            assert(positions(at@) =~= positions(before).push(i as int));
        }
        i += 1;
    }
    proof {
        lemma_hits_begin(hits@, p, since_ms, i as int, n as int);
        let all = hits_at(hits@, p, since_ms, n as int);
        assert(at@.len() == positions(at@).len());
        if i < n {
            assert(positions(at@) =~= all.take(most as int));
        }
        lemma_hits_few(hits@, p, since_ms, n as int);
        assert(all.take(all.len() as int) =~= all);
    }
    at
}

proof fn lemma_hits_few(hits: Seq<SearchHit>, p: Option<Seq<char>>, since: Option<i64>, n: int)
    requires
        0 <= n,
    ensures
        hits_at(hits, p, since, n).len() <= n,
    decreases n,
{
    if n > 0 {
        lemma_hits_few(hits, p, since, n - 1);
    }
}

proof fn lemma_hits_begin(
    hits: Seq<SearchHit>,
    p: Option<Seq<char>>,
    since: Option<i64>,
    i: int,
    n: int,
)
    requires
        0 <= i <= n,
    ensures
        hits_at(hits, p, since, i).len() <= hits_at(hits, p, since, n).len(),
        hits_at(hits, p, since, n).take(hits_at(hits, p, since, i).len() as int) == hits_at(
            hits,
            p,
            since,
            i,
        ),
    decreases n - i,
{
    let a = hits_at(hits, p, since, i);
    let b = hits_at(hits, p, since, n);
    if i < n {
        lemma_hits_begin(hits, p, since, i, n - 1);
        let c = hits_at(hits, p, since, n - 1);
        assert(b.take(a.len() as int) =~= c.take(a.len() as int));
    } else {
        assert(b.take(a.len() as int) =~= a);
    }
}

// ---------------------------------------------------------------- places

/// The SQL condition for the sessions of a place, and what to bind to it.
pub open spec fn place_sql(prefix: Seq<char>, directory: Seq<char>, host: Option<Seq<char>>) -> (
    Seq<char>,
    Seq<Seq<char>>,
) {
    let cwd = prefix + "cwd = ?"@;
    let home = "~/"@.is_prefix_of(directory);
    let at = if home {
        "("@ + cwd + " OR "@ + prefix + "cwd LIKE ?)"@
    } else {
        cwd
    };
    let on = match host {
        Some(_) => prefix + "host_alias = ?"@,
        None => prefix + "host_alias IS NULL"@,
    };
    let p1 = seq![directory];
    let p2 = if home {
        p1.push("%/"@ + directory.skip(2))
    } else {
        p1
    };
    let p3 = match host {
        Some(h) => p2.push(h),
        None => p2,
    };
    (at + " AND "@ + on, p3)
}

/// The character sequence of an optional borrowed string.
pub open spec fn opt_str(o: Option<&str>) -> Option<Seq<char>> {
    match o {
        Some(s) => Some(s@),
        None => None,
    }
}

/// The SQL condition for the sessions of a directory on a host, this machine where none is
/// given, and what to bind to it. A directory below an unexpanded home is found by its end too.
pub fn location_predicate(prefix: &str, directory: &str, host_alias: Option<&str>) -> (r: (
    String,
    Vec<String>,
))
    ensures
        (r.0@, texts(r.1@)) == place_sql(prefix@, directory@, opt_str(host_alias)),
{
    proof {
        reveal_strlit("~/");
    }
    let mut params: Vec<String> = Vec::new();
    params.push(copy(directory));
    assert(texts(params@) =~= seq![directory@]);
    let mut sql: String = copy(prefix);
    sql.append("cwd = ?");
    if let Some(tail) = strip_prefix(directory, "~/") {
        let mut both: String = copy("(");
        both.append(sql.as_str());
        both.append(" OR ");
        both.append(prefix);
        both.append("cwd LIKE ?)");
        sql = both;
        let mut p: String = copy("%/");
        p.append(tail.as_str());
        proof {
            lemma_texts_push(params@, p);
        }
        params.push(p);
    }
    sql.append(" AND ");
    let mut on: String = copy(prefix);
    match host_alias {
        Some(h) => {
            let s: String = copy(h);
            proof {
                lemma_texts_push(params@, s);
            }
            params.push(s);
            on.append("host_alias = ?");
        },
        None => {
            on.append("host_alias IS NULL");
        },
    }
    sql.append(on.as_str());
    (sql, params)
}

// ---------------------------------------------------------------- listing sessions

/// When a session was last active; zero where no time is known.
pub open spec fn activity(s: SessionRow) -> int {
    match s.ended_at {
        Some(t) => t as int,
        None => match s.started_at {
            Some(t) => t as int,
            None => 0,
        },
    }
}

/// When a session was last active.
pub fn last_active(s: &SessionRow) -> (r: i64)
    ensures
        r == activity(*s),
{
    match s.ended_at {
        Some(t) => t,
        None => match s.started_at {
            Some(t) => t,
            None => 0,
        },
    }
}

/// Sessions are sorted by the number of hits, the most first, then by activity, the latest
/// first.
pub struct SessionKey {
    pub hits: i64,
    pub active: i64,
}

impl Key for SessionKey {
    open spec fn before(&self, other: &Self) -> bool {
        self.hits > other.hits || (self.hits == other.hits && self.active > other.active)
    }

    proof fn irreflexive(a: Self) {
    }

    proof fn weak(a: Self, b: Self, c: Self) {
    }

    proof fn asymmetric(a: Self, b: Self) {
    }

    fn is_before(&self, other: &Self) -> (r: bool) {
        self.hits > other.hits || (self.hits == other.hits && self.active > other.active)
    }
}

/// The key of a session by its activity alone.
pub open spec fn active_key(s: SessionRow) -> SessionKey {
    SessionKey { hits: 0, active: activity(s) as i64 }
}

/// Whether a session is asked for.
pub open spec fn session_wanted(f: ListFilter, s: SessionRow) -> bool {
    &&& wished(opt_text(f.kind), opt_text(s.kind))
    &&& wished(opt_text(f.host), opt_text(s.host_alias))
    &&& wished(opt_text(f.project), opt_text(s.project))
    &&& match f.since_ms {
        Some(t) => activity(s) >= t,
        None => true,
    }
}

/// The sessions asked for among the first `n`, in order.
pub open spec fn wanted_at(rows: Seq<SessionRow>, f: ListFilter, n: int) -> Seq<int>
    decreases n,
{
    if n <= 0 {
        seq![]
    } else if session_wanted(f, rows[n - 1]) {
        wanted_at(rows, f, n - 1).push(n - 1)
    } else {
        wanted_at(rows, f, n - 1)
    }
}

/// The keys of the sessions at the given positions.
pub open spec fn active_keys(rows: Seq<SessionRow>, at: Seq<int>) -> Seq<SessionKey> {
    Seq::new(at.len(), |k: int| active_key(rows[at[k]]))
}

/// Whether `r` are the first `limit` of the positions `at` in the order of their keys.
pub open spec fn first_sorted<K: Key>(r: Seq<int>, keys: Seq<K>, at: Seq<int>, limit: int) -> bool {
    exists|order: Seq<int>| #[trigger]
        sorts(keys, order) && r == Seq::new(
            if order.len() < limit {
                order.len()
            } else {
                limit as nat
            },
            |k: int| at[order[k]],
        )
}

/// The first `limit` of the positions `at`, in the order of their keys.
fn take_sorted<K: Key>(keys: &Vec<K>, at: &Vec<usize>, limit: usize) -> (r: Vec<usize>)
    requires
        keys@.len() == at@.len(),
    ensures
        first_sorted(positions(r@), keys@, positions(at@), limit as int),
{
    let order: Vec<usize> = sort_keys(keys);
    let ghost o = positions(order@);
    let n: usize = if order.len() < limit {
        order.len()
    } else {
        limit
    };
    let mut out: Vec<usize> = Vec::new();
    let mut k: usize = 0;
    while k < n
        invariant
            k <= n <= order@.len(),
            out@.len() == k,
            o == positions(order@),
            sorts(keys@, o),
            keys@.len() == at@.len(),
            forall|q: int| 0 <= q < k ==> #[trigger] out@[q] == positions(at@)[o[q]],
        decreases n - k,
    {
        assert(o[k as int] == order@[k as int]);
        assert(positions(at@)[o[k as int]] == at@[order@[k as int] as int] as int);
        out.push(at[order[k]]);
        k += 1;
    }
    assert(positions(out@) =~= Seq::new(n as nat, |q: int| positions(at@)[o[q]]));
    out
}

/// How many sessions to list: as many as asked for, or 50.
pub open spec fn list_limit(f: ListFilter) -> int {
    if f.limit <= 0 {
        50
    } else {
        f.limit as int
    }
}

/// The largest number of items that a list can hold, at most `n`.
fn as_limit(n: i64) -> (r: usize)
    requires
        n > 0,
    ensures
        r == if n > usize::MAX {
            usize::MAX as int
        } else {
            n as int
        },
{
    if (n as u64) > (usize::MAX as u64) {
        usize::MAX
    } else {
        n as usize
    }
}

/// The positions of the sessions asked for, the latest active first.
pub fn list_sessions(rows: &Vec<SessionRow>, f: &ListFilter) -> (r: Vec<usize>)
    ensures
        ({
            let at = wanted_at(rows@, *f, rows@.len() as int);
            first_sorted(positions(r@), active_keys(rows@, at), at, list_limit(*f))
        }),
{
    let mut at: Vec<usize> = Vec::new();
    let mut keys: Vec<SessionKey> = Vec::new();
    let mut i: usize = 0;
    assert(positions(at@) =~= wanted_at(rows@, *f, 0));
    while i < rows.len()
        invariant
            i <= rows@.len(),
            positions(at@) == wanted_at(rows@, *f, i as int),
            keys@.len() == at@.len(),
            forall|k: int| 0 <= k < at@.len() ==> #[trigger] at@[k] < rows@.len(),
            forall|k: int|
                0 <= k < at@.len() ==> #[trigger] keys@[k] == active_key(rows@[at@[k] as int]),
        decreases rows@.len() - i,
    {
        let s: &SessionRow = &rows[i];
        let active: i64 = last_active(s);
        let late: bool = match f.since_ms {
            Some(t) => active >= t,
            None => true,
        };
        let ghost before = at@;
        if check_wish(&f.kind, &s.kind) && check_wish(&f.host, &s.host_alias) && check_wish(
            &f.project,
            &s.project,
        ) && late {
            at.push(i);
            keys.push(SessionKey { hits: 0, active });
            assert(positions(at@) =~= positions(before).push(i as int));
        }
        i += 1;
    }
    assert(keys@ =~= active_keys(rows@, positions(at@)));
    let limit: usize = if f.limit <= 0 {
        50
    } else {
        as_limit(f.limit)
    };
    let count: usize = at.len();
    let r: Vec<usize> = take_sorted(&keys, &at, limit);
    proof {
        let order = choose|order: Seq<int>| #[trigger]
            sorts(keys@, order) && positions(r@) == Seq::new(
                if order.len() < limit {
                    order.len()
                } else {
                    limit as nat
                },
                |k: int| positions(at@)[order[k]],
            );
        assert(order.len() == count);
        assert(positions(r@) =~= Seq::new(
            if order.len() < list_limit(*f) {
                order.len()
            } else {
                list_limit(*f) as nat
            },
            |k: int| positions(at@)[order[k]],
        ));
    }
    r
}

/// How many sessions of one place are listed at most.
pub const LOCATION_LIMIT: usize = 2000;

/// How many messages of a session are listed at most when searched.
pub const MESSAGES_LIMIT: usize = 1000;

/// Whether a session that started in `cwd` on `on` is one of a directory on a host: this machine
/// where none is given. A directory below an unexpanded home is found by its end too.
pub open spec fn at_place(
    cwd: Option<Seq<char>>,
    on: Option<Seq<char>>,
    directory: Seq<char>,
    host: Option<Seq<char>>,
) -> bool {
    &&& on == host
    &&& match cwd {
        Some(c) => c == directory || ("~/"@.is_prefix_of(directory) && like(
            "%/"@ + directory.skip(2),
            c,
            None,
        )),
        None => false,
    }
}

/// A session is found where it started, and on no other host.
pub proof fn session_is_found_where_it_started(
    cwd: Seq<char>,
    on: Option<Seq<char>>,
    host: Option<Seq<char>>,
)
    ensures
        at_place(Some(cwd), on, cwd, on),
        on != host ==> !at_place(Some(cwd), on, cwd, host),
{
}

fn is_at_place(cwd: &Option<String>, on: &Option<String>, directory: &str, host: Option<&str>) -> (r: bool)
    ensures
        r == at_place(opt_text(*cwd), opt_text(*on), directory@, opt_str(host)),
{
    let here: bool = match (on, host) {
        (Some(a), Some(b)) => same(a.as_str(), b),
        (None, None) => true,
        _ => false,
    };
    match cwd {
        None => false,
        Some(c) => {
            if !here {
                return false;
            }
            if same(c.as_str(), directory) {
                return true;
            }
            proof {
                reveal_strlit("~/");
            }
            match strip_prefix(directory, "~/") {
                Some(tail) => {
                    let mut p: String = copy("%/");
                    p.append(tail.as_str());
                    is_like(p.as_str(), c.as_str(), None)
                },
                None => false,
            }
        },
    }
}

/// The directories in which sessions started.
pub open spec fn places(v: Seq<Option<String>>) -> Seq<Option<Seq<char>>> {
    Seq::new(v.len(), |i: int| opt_text(v[i]))
}

/// The sessions of a place among the first `n`, in order.
pub open spec fn placed_at(
    cwds: Seq<Option<Seq<char>>>,
    on: Seq<Option<Seq<char>>>,
    directory: Seq<char>,
    host: Option<Seq<char>>,
    n: int,
) -> Seq<int>
    decreases n,
{
    if n <= 0 {
        seq![]
    } else if at_place(cwds[n - 1], on[n - 1], directory, host) {
        placed_at(cwds, on, directory, host, n - 1).push(n - 1)
    } else {
        placed_at(cwds, on, directory, host, n - 1)
    }
}

/// The hosts of sessions.
pub open spec fn hosts(rows: Seq<SessionRow>) -> Seq<Option<Seq<char>>> {
    Seq::new(rows.len(), |i: int| opt_text(rows[i].host_alias))
}

/// The positions of the sessions of a place, the latest active first. `cwds` holds the directory
/// in which each session started.
pub fn sessions_for_location(
    rows: &Vec<SessionRow>,
    cwds: &Vec<Option<String>>,
    directory: &str,
    host_alias: Option<&str>,
) -> (r: Vec<usize>)
    requires
        cwds@.len() == rows@.len(),
    ensures
        ({
            let at = placed_at(
                places(cwds@),
                hosts(rows@),
                directory@,
                opt_str(host_alias),
                rows@.len() as int,
            );
            first_sorted(positions(r@), active_keys(rows@, at), at, LOCATION_LIMIT as int)
        }),
{
    let ghost host = opt_str(host_alias);
    let mut at: Vec<usize> = Vec::new();
    let mut keys: Vec<SessionKey> = Vec::new();
    let mut i: usize = 0;
    assert(positions(at@) =~= placed_at(places(cwds@), hosts(rows@), directory@, host, 0));
    while i < rows.len()
        invariant
            i <= rows@.len() == cwds@.len(),
            host == opt_str(host_alias),
            positions(at@) == placed_at(
                places(cwds@),
                hosts(rows@),
                directory@,
                host,
                i as int,
            ),
            keys@.len() == at@.len(),
            forall|k: int| 0 <= k < at@.len() ==> #[trigger] at@[k] < rows@.len(),
            forall|k: int|
                0 <= k < at@.len() ==> #[trigger] keys@[k] == active_key(rows@[at@[k] as int]),
        decreases rows@.len() - i,
    {
        let ghost before = at@;
        if is_at_place(&cwds[i], &rows[i].host_alias, directory, host_alias) {
            at.push(i);
            keys.push(SessionKey { hits: 0, active: last_active(&rows[i]) });
            assert(positions(at@) =~= positions(before).push(i as int));
        }
        i += 1;
    }
    assert(keys@ =~= active_keys(rows@, positions(at@)));
    take_sorted(&keys, &at, LOCATION_LIMIT)
}

/// The key of a session that a search found.
pub open spec fn hit_key(s: SessionHit) -> SessionKey {
    SessionKey { hits: s.hits, active: activity(s.session) as i64 }
}

/// The hosts of sessions that a search found.
pub open spec fn hit_hosts(rows: Seq<SessionHit>) -> Seq<Option<Seq<char>>> {
    Seq::new(rows.len(), |i: int| opt_text(rows[i].session.host_alias))
}

/// The positions of the sessions of a place that a search found, those with the most hits first.
/// `cwds` holds the directory in which each session started.
pub fn search_sessions_for_location(
    rows: &Vec<SessionHit>,
    cwds: &Vec<Option<String>>,
    directory: &str,
    host_alias: Option<&str>,
) -> (r: Vec<usize>)
    requires
        cwds@.len() == rows@.len(),
    ensures
        ({
            let at = placed_at(
                places(cwds@),
                hit_hosts(rows@),
                directory@,
                opt_str(host_alias),
                rows@.len() as int,
            );
            first_sorted(
                positions(r@),
                Seq::new(at.len(), |k: int| hit_key(rows@[at[k]])),
                at,
                LOCATION_LIMIT as int,
            )
        }),
{
    let ghost host = opt_str(host_alias);
    let mut at: Vec<usize> = Vec::new();
    let mut keys: Vec<SessionKey> = Vec::new();
    let mut i: usize = 0;
    assert(positions(at@) =~= placed_at(places(cwds@), hit_hosts(rows@), directory@, host, 0));
    while i < rows.len()
        invariant
            i <= rows@.len() == cwds@.len(),
            host == opt_str(host_alias),
            positions(at@) == placed_at(
                places(cwds@),
                hit_hosts(rows@),
                directory@,
                host,
                i as int,
            ),
            keys@.len() == at@.len(),
            forall|k: int| 0 <= k < at@.len() ==> #[trigger] at@[k] < rows@.len(),
            forall|k: int|
                0 <= k < at@.len() ==> #[trigger] keys@[k] == hit_key(rows@[at@[k] as int]),
        decreases rows@.len() - i,
    {
        let ghost before = at@;
        if is_at_place(&cwds[i], &rows[i].session.host_alias, directory, host_alias) {
            at.push(i);
            keys.push(SessionKey { hits: rows[i].hits, active: last_active(&rows[i].session) });
            assert(positions(at@) =~= positions(before).push(i as int));
        }
        i += 1;
    }
    assert(keys@ =~= Seq::new(
        positions(at@).len(),
        |k: int| hit_key(rows@[positions(at@)[k]]),
    ));
    take_sorted(&keys, &at, LOCATION_LIMIT)
}

// ---------------------------------------------------------------- messages

/// The place of a message in its session; its number where it has none.
pub open spec fn message_place(m: MessageRow) -> int {
    match m.seq {
        Some(s) => s as int,
        None => m.id as int,
    }
}

/// A number to sort by, the smallest first.
pub struct PlaceKey {
    pub place: i64,
}

impl Key for PlaceKey {
    open spec fn before(&self, other: &Self) -> bool {
        self.place < other.place
    }

    proof fn irreflexive(a: Self) {
    }

    proof fn weak(a: Self, b: Self, c: Self) {
    }

    proof fn asymmetric(a: Self, b: Self) {
    }

    fn is_before(&self, other: &Self) -> (r: bool) {
        self.place < other.place
    }
}

/// The key of a message.
pub open spec fn message_key(m: MessageRow) -> PlaceKey {
    PlaceKey { place: message_place(m) as i64 }
}

/// The positions of a session's messages in order, at most `limit`.
fn messages_in_order(rows: &Vec<MessageRow>, limit: usize) -> (r: Vec<usize>)
    ensures
        ({
            let at = Seq::new(rows@.len(), |k: int| k);
            first_sorted(
                positions(r@),
                Seq::new(rows@.len(), |k: int| message_key(rows@[k])),
                at,
                limit as int,
            )
        }),
{
    let mut at: Vec<usize> = Vec::new();
    let mut keys: Vec<PlaceKey> = Vec::new();
    let mut i: usize = 0;
    while i < rows.len()
        invariant
            i <= rows@.len(),
            at@.len() == i,
            keys@.len() == i,
            forall|k: int| 0 <= k < i ==> #[trigger] at@[k] == k,
            forall|k: int| 0 <= k < i ==> #[trigger] keys@[k] == message_key(rows@[k]),
        decreases rows@.len() - i,
    {
        at.push(i);
        let place: i64 = match rows[i].seq {
            Some(s) => s,
            None => rows[i].id,
        };
        keys.push(PlaceKey { place });
        i += 1;
    }
    assert(positions(at@) =~= Seq::new(rows@.len(), |k: int| k));
    assert(keys@ =~= Seq::new(rows@.len(), |k: int| message_key(rows@[k])));
    take_sorted(&keys, &at, limit)
}

/// The positions of a session's messages, in order.
pub fn show_session(rows: &Vec<MessageRow>) -> (r: Vec<usize>)
    ensures
        ({
            let at = Seq::new(rows@.len(), |k: int| k);
            first_sorted(
                positions(r@),
                Seq::new(rows@.len(), |k: int| message_key(rows@[k])),
                at,
                rows@.len() as int,
            )
        }),
{
    messages_in_order(rows, rows.len())
}

/// The positions of the messages of a session that a search found, in order.
pub fn search_session_messages(rows: &Vec<MessageRow>) -> (r: Vec<usize>)
    ensures
        ({
            let at = Seq::new(rows@.len(), |k: int| k);
            first_sorted(
                positions(r@),
                Seq::new(rows@.len(), |k: int| message_key(rows@[k])),
                at,
                MESSAGES_LIMIT as int,
            )
        }),
{
    messages_in_order(rows, MESSAGES_LIMIT)
}

/// The text of a row as it was stored: compressed with the dictionary, or without it, or plain.
/// What cannot be read is left out.
pub open spec fn stored_raw(
    z: Option<Seq<u8>>,
    text: Option<Seq<char>>,
    dict: Option<Seq<u8>>,
) -> Option<Seq<char>> {
    match z {
        None => text,
        Some(b) => {
            let with = match dict {
                Some(d) => match decoded_with(d, b) {
                    Ok(s) => Some(s),
                    Err(_) => None,
                },
                None => None,
            };
            match with {
                Some(s) => Some(s),
                None => match decoded(b) {
                    Ok(s) => Some(s),
                    Err(_) => None,
                },
            }
        },
    }
}

/// The text of a row as it was stored.
pub fn read_message_raw(
    raw_zstd: &Option<Vec<u8>>,
    raw_text: &Option<String>,
    dict: Option<&zstd::dict::DecoderDictionary<'static>>,
) -> (r: Option<String>)
    ensures
        opt_text(r) == stored_raw(
            match raw_zstd {
                Some(b) => Some(b@),
                None => None,
            },
            opt_text(*raw_text),
            crate::archive::dicts::decoder_data(dict),
        ),
{
    match raw_zstd {
        None => copy_opt(raw_text),
        Some(b) => {
            if let Some(d) = dict {
                if let Ok(s) = decode_blob_to_string_with_dict(b.as_slice(), d) {
                    return Some(s);
                }
            }
            match decode_blob_to_string(b.as_slice()) {
                Ok(s) => Some(s),
                Err(_) => None,
            }
        },
    }
}

// ---------------------------------------------------------------- short session ids

/// Whether an id is the one written or may be meant by it.
pub open spec fn may_mean(id: Seq<char>, prefix: Seq<char>) -> bool {
    id == prefix || like(prefix + "%"@, id, None)
}

/// Ids are sorted with the one written first, then by their characters.
pub struct IdKey {
    pub exact: bool,
    pub id: String,
}

impl Key for IdKey {
    open spec fn before(&self, other: &Self) -> bool {
        (self.exact && !other.exact) || (self.exact == other.exact && text_before(
            self.id@,
            other.id@,
        ))
    }

    proof fn irreflexive(a: Self) {
        lemma_text_irreflexive(a.id@);
    }

    proof fn weak(a: Self, b: Self, c: Self) {
        if a.exact == b.exact && b.exact == c.exact {
            lemma_text_weak(a.id@, b.id@, c.id@);
        }
    }

    proof fn asymmetric(a: Self, b: Self) {
        if a.exact == b.exact {
            lemma_text_asymmetric(a.id@, b.id@);
        }
    }

    fn is_before(&self, other: &Self) -> (r: bool) {
        (self.exact && !other.exact) || (self.exact == other.exact && is_text_before(
            self.id.as_str(),
            other.id.as_str(),
        ))
    }
}

/// The ids that may be meant among the first `n`, in order.
pub open spec fn meant_at(ids: Seq<Seq<char>>, prefix: Seq<char>, n: int) -> Seq<int>
    decreases n,
{
    if n <= 0 {
        seq![]
    } else if may_mean(ids[n - 1], prefix) {
        meant_at(ids, prefix, n - 1).push(n - 1)
    } else {
        meant_at(ids, prefix, n - 1)
    }
}

/// Whether keys are those of the ids at the given positions.
pub open spec fn id_keys(
    keys: Seq<IdKey>,
    ids: Seq<Seq<char>>,
    prefix: Seq<char>,
    at: Seq<int>,
) -> bool {
    &&& keys.len() == at.len()
    &&& forall|k: int|
        0 <= k < at.len() ==> (#[trigger] keys[k]).id@ == ids[at[k]] && keys[k].exact == (
        ids[at[k]] == prefix)
}

/// The positions of the sessions that a short id may mean, at most ten, the exact one first.
pub fn resolve_session_ids(ids: &Vec<String>, prefix: &str) -> (r: Vec<usize>)
    ensures
        ({
            let at = meant_at(texts(ids@), prefix@, ids@.len() as int);
            exists|keys: Seq<IdKey>| #[trigger]
                id_keys(keys, texts(ids@), prefix@, at) && first_sorted(
                    positions(r@),
                    keys,
                    at,
                    10,
                )
        }),
{
    let mut pattern: String = copy(prefix);
    pattern.append("%");
    let mut at: Vec<usize> = Vec::new();
    let mut keys: Vec<IdKey> = Vec::new();
    let mut i: usize = 0;
    let ghost all = texts(ids@);
    assert(positions(at@) =~= meant_at(all, prefix@, 0));
    while i < ids.len()
        invariant
            i <= ids@.len(),
            all == texts(ids@),
            pattern@ == prefix@ + "%"@,
            positions(at@) == meant_at(all, prefix@, i as int),
            keys@.len() == at@.len(),
            forall|k: int| 0 <= k < at@.len() ==> #[trigger] at@[k] < ids@.len(),
            forall|k: int|
                0 <= k < at@.len() ==> (#[trigger] keys@[k]).id@ == all[at@[k] as int]
                    && keys@[k].exact == (all[at@[k] as int] == prefix@),
        decreases ids@.len() - i,
    {
        assert(all[i as int] == ids@[i as int]@);
        let exact: bool = same(ids[i].as_str(), prefix);
        let ghost before = at@;
        if exact || is_like(pattern.as_str(), ids[i].as_str(), None) {
            at.push(i);
            keys.push(IdKey { exact, id: copy(ids[i].as_str()) });
            assert(positions(at@) =~= positions(before).push(i as int));
        }
        i += 1;
    }
    let r: Vec<usize> = take_sorted(&keys, &at, 10);
    assert(id_keys(keys@, all, prefix@, positions(at@)));
    r
}

// ---------------------------------------------------------------- counts

/// A label and how often it occurs.
pub struct LabeledCount {
    pub label: Option<String>,
    pub count: i64,
}

/// Counts over the whole archive.
pub struct ArchiveStats {
    pub sessions: i64,
    pub messages: i64,
    pub local_sessions: i64,
    pub remote_sessions: i64,
    pub first_activity: Option<i64>,
    pub last_activity: Option<i64>,
    pub memory_files: i64,
    pub memory_versions: i64,
    pub top_projects: Vec<LabeledCount>,
    pub by_attribution: Vec<LabeledCount>,
}

/// How many of the first `n` labels are `x`.
pub open spec fn label_count(v: Seq<Option<Seq<char>>>, x: Option<Seq<char>>, n: int) -> nat
    decreases n,
{
    if n <= 0 {
        0
    } else {
        label_count(v, x, n - 1) + if v[n - 1] == x {
            1nat
        } else {
            0nat
        }
    }
}

/// The characters of optional labels.
pub open spec fn labels(v: Seq<Option<String>>) -> Seq<Option<Seq<char>>> {
    Seq::new(v.len(), |i: int| opt_text(v[i]))
}

proof fn lemma_label_count(v: Seq<Option<Seq<char>>>, x: Option<Seq<char>>, n: int)
    requires
        0 <= n,
    ensures
        label_count(v, x, n) <= n,
    decreases n,
{
    if n > 0 {
        lemma_label_count(v, x, n - 1);
    }
}

/// How many labels are `x`.
pub fn count_label(v: &Vec<Option<String>>, x: &Option<String>) -> (r: usize)
    ensures
        r == label_count(labels(v@), opt_text(*x), v@.len() as int),
{
    let mut n: usize = 0;
    let mut i: usize = 0;
    while i < v.len()
        invariant
            i <= v@.len(),
            n == label_count(labels(v@), opt_text(*x), i as int),
            n <= i,
        decreases v@.len() - i,
    {
        if crate::text::same_opt(&v[i], x) {
            n += 1;
        }
        i += 1;
    }
    n
}

/// Whether a session counts as local: one of no known kind does.
pub open spec fn is_local_kind(k: Option<Seq<char>>) -> bool {
    k is None || k == Some("local"@)
}

/// The sessions that count as local.
pub open spec fn local_count(v: Seq<Option<Seq<char>>>) -> nat {
    label_count(v, None, v.len() as int) + label_count(v, Some("local"@), v.len() as int)
}

/// Local and remote sessions together are all sessions, where each is of no kind or one of the
/// two.
pub proof fn local_and_remote_are_all(v: Seq<Option<Seq<char>>>, n: int)
    requires
        0 <= n <= v.len(),
        forall|i: int|
            0 <= i < v.len() ==> is_local_kind(#[trigger] v[i]) || v[i] == Some("remote"@),
    ensures
        label_count(v, None, n) + label_count(v, Some("local"@), n) + label_count(
            v,
            Some("remote"@),
            n,
        ) == n,
    decreases n,
{
    reveal_strlit("local");
    reveal_strlit("remote");
    assert("local"@.len() != "remote"@.len());
    if n > 0 {
        local_and_remote_are_all(v, n - 1);
        assert(is_local_kind(v[n - 1]) || v[n - 1] == Some("remote"@));
    }
}

/// Whether entries hold each label of `v` that is asked for, once, with its count.
pub open spec fn counts_match(
    out: Seq<LabeledCount>,
    v: Seq<Option<Seq<char>>>,
    unlabelled: bool,
) -> bool {
    &&& forall|i: int|
        0 <= i < out.len() ==> v.contains(opt_text((#[trigger] out[i]).label)) && out[i].count
            == label_count(v, opt_text(out[i].label), v.len() as int) && (unlabelled
            || out[i].label is Some)
    &&& forall|i: int, j: int|
        0 <= i < j < out.len() ==> opt_text((#[trigger] out[i]).label) != opt_text(
            (#[trigger] out[j]).label,
        )
    &&& forall|k: int|
        0 <= k < v.len() && (unlabelled || (#[trigger] v[k]) is Some) ==> exists|i: int|
            0 <= i < out.len() && opt_text((#[trigger] out[i]).label) == v[k]
}

/// Each label once, with its count, in the order of first occurrence; those without a label only
/// where asked for.
#[verifier::rlimit(30)]
fn group(v: &Vec<Option<String>>, unlabelled: bool) -> (out: Vec<LabeledCount>)
    requires
        v@.len() <= i64::MAX,
    ensures
        counts_match(out@, labels(v@), unlabelled),
{
    let ghost all = labels(v@);
    let mut out: Vec<LabeledCount> = Vec::new();
    let mut i: usize = 0;
    while i < v.len()
        invariant
            i <= v@.len() <= i64::MAX,
            all == labels(v@),
            forall|k: int|
                0 <= k < out@.len() ==> all.contains(opt_text((#[trigger] out@[k]).label))
                    && out@[k].count == label_count(
                    all,
                    opt_text(out@[k].label),
                    all.len() as int,
                ) && (unlabelled || out@[k].label is Some),
            forall|k: int, j: int|
                0 <= k < j < out@.len() ==> opt_text((#[trigger] out@[k]).label) != opt_text(
                    (#[trigger] out@[j]).label,
                ),
            forall|q: int|
                0 <= q < i && (unlabelled || (#[trigger] all[q]) is Some) ==> exists|k: int|
                    0 <= k < out@.len() && opt_text((#[trigger] out@[k]).label) == all[q],
        decreases v@.len() - i,
    {
        assert(all[i as int] == opt_text(v@[i as int]));
        let mut known: bool = false;
        let mut k: usize = 0;
        while k < out.len()
            invariant
                i < v@.len(),
                k <= out@.len(),
                known == exists|q: int|
                    0 <= q < k && opt_text((#[trigger] out@[q]).label) == opt_text(v@[i as int]),
            decreases out@.len() - k,
        {
            if crate::text::same_opt(&out[k].label, &v[i]) {
                assert(opt_text(out@[k as int].label) == opt_text(v@[i as int]));
                known = true;
            }
            k += 1;
        }
        let ghost before = out@;
        if !known && (unlabelled || v[i].is_some()) {
            let n: usize = count_label(v, &v[i]);
            proof {
                lemma_label_count(all, all[i as int], all.len() as int);
            }
            out.push(LabeledCount { label: copy_opt(&v[i]), count: n as i64 });
        }
        proof {
            assert forall|q: int| 0 <= q < i + 1 && (unlabelled || (#[trigger] all[q]) is Some) implies exists|
                k: int,
            |
                0 <= k < out@.len() && opt_text((#[trigger] out@[k]).label) == all[q] by {
                if q < i {
                    let k = choose|k: int|
                        0 <= k < before.len() && opt_text((#[trigger] before[k]).label) == all[q];
                    assert(out@[k] == before[k]);
                } else if known {
                    let k = choose|k: int|
                        0 <= k < before.len() && opt_text((#[trigger] before[k]).label) == opt_text(
                            v@[i as int],
                        );
                    assert(out@[k] == before[k]);
                } else {
                    assert(opt_text(out@[before.len() as int].label) == all[q]);
                }
            }
        }
        i += 1;
    }
    out
}

/// Counts are sorted with the largest first, then by their label; an unset label counts as
/// empty.
pub struct CountKey {
    pub count: i64,
    pub label: String,
}

impl Key for CountKey {
    open spec fn before(&self, other: &Self) -> bool {
        self.count > other.count || (self.count == other.count && text_before(
            self.label@,
            other.label@,
        ))
    }

    proof fn irreflexive(a: Self) {
        lemma_text_irreflexive(a.label@);
    }

    proof fn weak(a: Self, b: Self, c: Self) {
        if a.count == b.count && b.count == c.count {
            lemma_text_weak(a.label@, b.label@, c.label@);
        }
    }

    proof fn asymmetric(a: Self, b: Self) {
        if a.count == b.count {
            lemma_text_asymmetric(a.label@, b.label@);
        }
    }

    fn is_before(&self, other: &Self) -> (r: bool) {
        self.count > other.count || (self.count == other.count && is_text_before(
            self.label.as_str(),
            other.label.as_str(),
        ))
    }
}

/// Whether a list is the first `limit` entries of another, sorted.
pub open spec fn sorted_counts(
    out: Seq<LabeledCount>,
    all: Seq<LabeledCount>,
    limit: int,
) -> bool {
    exists|keys: Seq<CountKey>, order: Seq<int>|
        keys.len() == all.len() && (forall|k: int|
            0 <= k < all.len() ==> (#[trigger] keys[k]).count == all[k].count && keys[k].label@
                == or_empty(opt_text(all[k].label))) && #[trigger] sorts(keys, order) && out.len()
            == (if order.len() < limit {
            order.len() as int
        } else {
            limit
        }) && (forall|k: int|
            0 <= k < out.len() ==> opt_text((#[trigger] out[k]).label) == opt_text(
                all[order[k]].label,
            ) && out[k].count == all[order[k]].count)
}

/// The first `limit` entries, sorted.
fn sort_counts(all: &Vec<LabeledCount>, limit: usize) -> (out: Vec<LabeledCount>)
    ensures
        sorted_counts(out@, all@, limit as int),
{
    let mut keys: Vec<CountKey> = Vec::new();
    let mut i: usize = 0;
    while i < all.len()
        invariant
            i <= all@.len(),
            keys@.len() == i,
            forall|k: int|
                0 <= k < i ==> (#[trigger] keys@[k]).count == all@[k].count && keys@[k].label@
                    == or_empty(opt_text(all@[k].label)),
        decreases all@.len() - i,
    {
        let label: String = match &all[i].label {
            Some(s) => copy(s.as_str()),
            None => String::new(),
        };
        keys.push(CountKey { count: all[i].count, label });
        i += 1;
    }
    let order: Vec<usize> = sort_keys(&keys);
    let ghost o = positions(order@);
    let n: usize = if order.len() < limit {
        order.len()
    } else {
        limit
    };
    let mut out: Vec<LabeledCount> = Vec::new();
    let mut k: usize = 0;
    while k < n
        invariant
            k <= n <= order@.len(),
            out@.len() == k,
            o == positions(order@),
            sorts(keys@, o),
            keys@.len() == all@.len(),
            forall|q: int|
                0 <= q < k ==> opt_text((#[trigger] out@[q]).label) == opt_text(all@[o[q]].label)
                    && out@[q].count == all@[o[q]].count,
        decreases n - k,
    {
        assert(o[k as int] == order@[k as int]);
        let c: &LabeledCount = &all[order[k]];
        out.push(LabeledCount { label: copy_opt(&c.label), count: c.count });
        k += 1;
    }
    out
}

/// The projects with the most sessions, at most five.
pub fn top_projects(v: &Vec<Option<String>>) -> (out: Vec<LabeledCount>)
    requires
        v@.len() <= i64::MAX,
    ensures
        exists|all: Seq<LabeledCount>| #[trigger]
            counts_match(all, labels(v@), false) && sorted_counts(out@, all, 5),
{
    let all: Vec<LabeledCount> = group(v, false);
    sort_counts(&all, 5)
}

/// How many sessions there are of each origin, the most first.
pub fn by_attribution(v: &Vec<Option<String>>) -> (out: Vec<LabeledCount>)
    requires
        v@.len() <= i64::MAX,
    ensures
        exists|all: Seq<LabeledCount>| #[trigger]
            counts_match(all, labels(v@), true) && sorted_counts(out@, all, all.len() as int),
{
    let all: Vec<LabeledCount> = group(v, true);
    sort_counts(&all, all.len())
}

/// The least of two optional times.
pub open spec fn min_time(a: Option<i64>, b: Option<i64>) -> Option<i64> {
    match (a, b) {
        (Some(x), Some(y)) => if y < x {
            b
        } else {
            a
        },
        (None, _) => b,
        _ => a,
    }
}

/// The greatest of two optional times.
pub open spec fn max_time(a: Option<i64>, b: Option<i64>) -> Option<i64> {
    match (a, b) {
        (Some(x), Some(y)) => if y > x {
            b
        } else {
            a
        },
        (None, _) => b,
        _ => a,
    }
}

/// When the first of the first `n` sessions started.
pub open spec fn first_start(rows: Seq<SessionRow>, n: int) -> Option<i64>
    decreases n,
{
    if n <= 0 {
        None
    } else {
        min_time(first_start(rows, n - 1), rows[n - 1].started_at)
    }
}

/// When a session was last active, where that is known.
pub open spec fn known_activity(s: SessionRow) -> Option<i64> {
    if s.ended_at is Some {
        s.ended_at
    } else {
        s.started_at
    }
}

/// When the last of the first `n` sessions was active.
pub open spec fn last_activity(rows: Seq<SessionRow>, n: int) -> Option<i64>
    decreases n,
{
    if n <= 0 {
        None
    } else {
        max_time(last_activity(rows, n - 1), known_activity(rows[n - 1]))
    }
}

/// The kinds of sessions.
pub open spec fn kinds(rows: Seq<SessionRow>) -> Seq<Option<Seq<char>>> {
    Seq::new(rows.len(), |i: int| opt_text(rows[i].kind))
}

/// The projects of sessions.
pub open spec fn projects(rows: Seq<SessionRow>) -> Seq<Option<Seq<char>>> {
    Seq::new(rows.len(), |i: int| opt_text(rows[i].project))
}

/// The origins of sessions.
pub open spec fn origins(rows: Seq<SessionRow>) -> Seq<Option<Seq<char>>> {
    Seq::new(rows.len(), |i: int| opt_text(rows[i].attribution))
}

/// Counts over the whole archive, from its sessions and the numbers of its messages and memory
/// files.
pub fn stats(
    rows: &Vec<SessionRow>,
    messages: i64,
    memory_files: i64,
    memory_versions: i64,
) -> (r: ArchiveStats)
    requires
        rows@.len() <= i64::MAX,
    ensures
        r.sessions == rows@.len(),
        r.messages == messages,
        r.local_sessions == local_count(kinds(rows@)),
        r.remote_sessions == label_count(kinds(rows@), Some("remote"@), rows@.len() as int),
        r.first_activity == first_start(rows@, rows@.len() as int),
        r.last_activity == last_activity(rows@, rows@.len() as int),
        r.memory_files == memory_files,
        r.memory_versions == memory_versions,
        exists|all: Seq<LabeledCount>| #[trigger]
            counts_match(all, projects(rows@), false) && sorted_counts(r.top_projects@, all, 5),
        exists|all: Seq<LabeledCount>| #[trigger]
            counts_match(all, origins(rows@), true) && sorted_counts(
                r.by_attribution@,
                all,
                all.len() as int,
            ),
{
    let mut kind: Vec<Option<String>> = Vec::new();
    let mut project: Vec<Option<String>> = Vec::new();
    let mut origin: Vec<Option<String>> = Vec::new();
    let mut first: Option<i64> = None;
    let mut last: Option<i64> = None;
    let mut i: usize = 0;
    while i < rows.len()
        invariant
            i <= rows@.len(),
            kind@.len() == i,
            project@.len() == i,
            origin@.len() == i,
            first == first_start(rows@, i as int),
            last == last_activity(rows@, i as int),
            forall|k: int| 0 <= k < i ==> opt_text(#[trigger] kind@[k]) == opt_text(rows@[k].kind),
            forall|k: int|
                0 <= k < i ==> opt_text(#[trigger] project@[k]) == opt_text(rows@[k].project),
            forall|k: int|
                0 <= k < i ==> opt_text(#[trigger] origin@[k]) == opt_text(rows@[k].attribution),
        decreases rows@.len() - i,
    {
        let s: &SessionRow = &rows[i];
        kind.push(copy_opt(&s.kind));
        project.push(copy_opt(&s.project));
        origin.push(copy_opt(&s.attribution));
        first = match (first, s.started_at) {
            (Some(x), Some(y)) => if y < x {
                Some(y)
            } else {
                Some(x)
            },
            (None, b) => b,
            (a, None) => a,
        };
        let active: Option<i64> = match s.ended_at {
            Some(t) => Some(t),
            None => s.started_at,
        };
        last = match (last, active) {
            (Some(x), Some(y)) => if y > x {
                Some(y)
            } else {
                Some(x)
            },
            (None, b) => b,
            (a, None) => a,
        };
        i += 1;
    }
    let local: usize = count_label(&kind, &Some(copy("local")));
    let none: usize = count_label(&kind, &None);
    let remote: usize = count_label(&kind, &Some(copy("remote")));
    proof {
        assert(labels(kind@) =~= kinds(rows@));
        assert(labels(project@) =~= projects(rows@));
        assert(labels(origin@) =~= origins(rows@));
        lemma_two_labels(kinds(rows@), rows@.len() as int);
        lemma_label_count(kinds(rows@), Some("remote"@), rows@.len() as int);
    }
    ArchiveStats {
        sessions: rows.len() as i64,
        messages,
        local_sessions: (local + none) as i64,
        remote_sessions: remote as i64,
        first_activity: first,
        last_activity: last,
        memory_files,
        memory_versions,
        top_projects: top_projects(&project),
        by_attribution: by_attribution(&origin),
    }
}

proof fn lemma_two_labels(v: Seq<Option<Seq<char>>>, n: int)
    requires
        0 <= n,
    ensures
        label_count(v, None, n) + label_count(v, Some("local"@), n) <= n,
    decreases n,
{
    if n > 0 {
        lemma_two_labels(v, n - 1);
    }
}

// ---------------------------------------------------------------- what a query promises

/// A word is looked for as it is: it stands in double quotes, each double quote within it twice.
pub proof fn word_is_quoted(a: Seq<char>, b: Seq<char>)
    requires
        !a.contains('"'),
        !b.contains('"'),
    ensures
        quoted(a) == seq!['"'] + a + seq!['"'],
        quoted(a.push('"') + b) == seq!['"'] + a + seq!['"', '"'] + b + seq!['"'],
{
    reveal_strlit("\"\"");
    let f = swap('"', "\"\""@);
    lemma_unswapped(a);
    lemma_unswapped(b);
    lemma_mapped_add(a.push('"'), b, f);
    assert(a.push('"').drop_last() =~= a);
    assert("\"\""@ =~= seq!['"', '"']);
    assert(mapped(a.push('"'), f) =~= a + seq!['"', '"']);
    assert(quoted(a.push('"') + b) =~= seq!['"'] + a + seq!['"', '"'] + b + seq!['"']);
}

proof fn lemma_unswapped(a: Seq<char>)
    requires
        !a.contains('"'),
    ensures
        mapped(a, swap('"', "\"\""@)) == a,
    decreases a.len(),
{
    if a.len() > 0 {
        let d = a.drop_last();
        assert(!d.contains('"')) by {
            if d.contains('"') {
                let k = choose|k: int| 0 <= k < d.len() && d[k] == '"';
                assert(a[k] == '"');
            }
        }
        lemma_unswapped(d);
        assert(a.contains(a.last()));
        assert(mapped(a, swap('"', "\"\""@)) =~= a);
    } else {
        assert(mapped(a, swap('"', "\"\""@)) =~= a);
    }
}

proof fn lemma_mapped_add(a: Seq<char>, b: Seq<char>, f: spec_fn(char) -> Seq<char>)
    ensures
        mapped(a + b, f) == mapped(a, f) + mapped(b, f),
    decreases b.len(),
{
    if b.len() == 0 {
        assert(a + b =~= a);
        assert(mapped(a, f) + mapped(b, f) =~= mapped(a, f));
    } else {
        lemma_mapped_add(a, b.drop_last(), f);
        assert((a + b).drop_last() =~= a + b.drop_last());
        assert((a + b).last() == b.last());
        assert(mapped(a + b, f) =~= mapped(a, f) + mapped(b, f));
    }
}

/// Every word of the input is looked for; there is nothing to look for exactly where there is no word.
pub proof fn every_word_is_looked_for(input: Seq<char>, i: int)
    ensures
        match_terms(input) is None <==> words_of(input).len() == 0,
        0 <= i < words_of(input).len() && !words_of(input)[i].contains('"') ==> exists|
            a: Seq<char>,
            b: Seq<char>,
        |
            match_terms(input) == Some(
                #[trigger] (a + (seq!['"'] + words_of(input)[i] + seq!['"']) + b),
            ),
        words_of(input).len() == 1 && !words_of(input)[0].contains('"') ==> match_terms(input)
            == Some(seq!['"'] + words_of(input)[0] + seq!['"']),
{
    let w = words_of(input);
    if 0 <= i < w.len() && !w[i].contains('"') {
        joined_holds_each(quoted_words(w), " "@, i);
        word_is_quoted(w[i], w[i]);
        let (a, b) = choose|a: Seq<char>, b: Seq<char>|
            joined(quoted_words(w), " "@) == #[trigger] (a + quoted_words(w)[i] + b);
        assert(match_terms(input) == Some(a + (seq!['"'] + w[i] + seq!['"']) + b));
    }
    if w.len() == 1 && !w[0].contains('"') {
        word_is_quoted(w[0], w[0]);
        assert(quoted_words(w)[0] == quoted(w[0]));
    }
}

/// The hits shown are those of the project and the time asked for, all of them, in their order.
pub proof fn hits_are_those_asked_for(hits: Seq<SearchHit>, project: Option<Seq<char>>, since: Option<i64>, n: int, x: int)
    requires
        0 <= n <= hits.len(),
    ensures
        hits_at(hits, project, since, n).contains(x) <==> 0 <= x < n && ((project is None || opt_text(hits[x].project) == project) && (since is None || (hits[x].ts is Some && hits[x].ts->0 >= since->0))),
        forall|a: int, b: int|
            0 <= a < b < hits_at(hits, project, since, n).len() ==> #[trigger] hits_at(hits, project, since, n)[a]
                < #[trigger] hits_at(hits, project, since, n)[b],
        forall|a: int|
            0 <= a < hits_at(hits, project, since, n).len() ==> 0 <= #[trigger] hits_at(hits, project, since, n)[a] < n,
    decreases n,
{
    if n > 0 {
        hits_are_those_asked_for(hits, project, since, n - 1, x);
        let all = hits_at(hits, project, since, n);
        let front = hits_at(hits, project, since, n - 1);
        if all.len() > front.len() {
            assert(all[all.len() - 1] == n - 1);
            assert(all.drop_last() =~= front);
        }
        assert forall|a: int| 0 <= a < all.len() implies 0 <= #[trigger] all[a] < n by {
            if a < front.len() {
                assert(all[a] == front[a]);
            }
        }
        assert forall|a: int, b: int| 0 <= a < b < all.len() implies #[trigger] all[a]
            < #[trigger] all[b] by {
            assert(all[a] == front[a]);
            if b < front.len() {
                assert(all[b] == front[b]);
            }
        }
        if front.contains(x) {
            let k = choose|k: int| 0 <= k < front.len() && front[k] == x;
            assert(all[k] == x);
        }
        if all.contains(x) {
            let k = choose|k: int| 0 <= k < all.len() && all[k] == x;
            if k < front.len() {
                assert(front[k] == x);
            }
        }
    }
}

/// The sessions listed are those of the kind, host and project asked for with activity since the time
/// asked for, all of them: their end counts, else their start, else the beginning of time.
pub proof fn sessions_are_those_asked_for(rows: Seq<SessionRow>, f: ListFilter, n: int, x: int)
    requires
        0 <= n <= rows.len(),
    ensures
        wanted_at(rows, f, n).contains(x) <==> 0 <= x < n && ((f.kind matches Some(k) ==> opt_text(rows[x].kind) == Some(k@)) && (f.host matches Some(k) ==> opt_text(
            rows[x].host_alias,
        ) == Some(k@)) && (f.project matches Some(k) ==> opt_text(rows[x].project) == Some(k@)) && (
        f.since_ms matches Some(t) ==> match rows[x].ended_at {
            Some(e) => e >= t,
            None => match rows[x].started_at {
                Some(s) => s >= t,
                None => 0 >= t,
            },
        })),
        forall|a: int, b: int|
            0 <= a < b < wanted_at(rows, f, n).len() ==> #[trigger] wanted_at(rows, f, n)[a]
                < #[trigger] wanted_at(rows, f, n)[b],
        forall|a: int|
            0 <= a < wanted_at(rows, f, n).len() ==> 0 <= #[trigger] wanted_at(rows, f, n)[a] < n,
    decreases n,
{
    if n > 0 {
        sessions_are_those_asked_for(rows, f, n - 1, x);
        let all = wanted_at(rows, f, n);
        let front = wanted_at(rows, f, n - 1);
        if all.len() > front.len() {
            assert(all[all.len() - 1] == n - 1);
            assert(all.drop_last() =~= front);
        }
        assert forall|a: int| 0 <= a < all.len() implies 0 <= #[trigger] all[a] < n by {
            if a < front.len() {
                assert(all[a] == front[a]);
            }
        }
        assert forall|a: int, b: int| 0 <= a < b < all.len() implies #[trigger] all[a]
            < #[trigger] all[b] by {
            assert(all[a] == front[a]);
            if b < front.len() {
                assert(all[b] == front[b]);
            }
        }
        if front.contains(x) {
            let k = choose|k: int| 0 <= k < front.len() && front[k] == x;
            assert(all[k] == x);
        }
        if all.contains(x) {
            let k = choose|k: int| 0 <= k < all.len() && all[k] == x;
            if k < front.len() {
                assert(front[k] == x);
            }
        }
    }
}

/// The sessions of a place are those that started in its directory on its host, all of them.
pub proof fn sessions_are_those_of_the_place(cwds: Seq<Option<Seq<char>>>, on: Seq<Option<Seq<char>>>, directory: Seq<char>, host: Option<Seq<char>>, n: int, x: int)
    requires
        0 <= n <= cwds.len(),
    ensures
        placed_at(cwds, on, directory, host, n).contains(x) <==> 0 <= x < n && (at_place(cwds[x], on[x], directory, host)),
        forall|a: int, b: int|
            0 <= a < b < placed_at(cwds, on, directory, host, n).len() ==> #[trigger] placed_at(cwds, on, directory, host, n)[a]
                < #[trigger] placed_at(cwds, on, directory, host, n)[b],
        forall|a: int|
            0 <= a < placed_at(cwds, on, directory, host, n).len() ==> 0 <= #[trigger] placed_at(cwds, on, directory, host, n)[a] < n,
    decreases n,
{
    if n > 0 {
        sessions_are_those_of_the_place(cwds, on, directory, host, n - 1, x);
        let all = placed_at(cwds, on, directory, host, n);
        let front = placed_at(cwds, on, directory, host, n - 1);
        if all.len() > front.len() {
            assert(all[all.len() - 1] == n - 1);
            assert(all.drop_last() =~= front);
        }
        assert forall|a: int| 0 <= a < all.len() implies 0 <= #[trigger] all[a] < n by {
            if a < front.len() {
                assert(all[a] == front[a]);
            }
        }
        assert forall|a: int, b: int| 0 <= a < b < all.len() implies #[trigger] all[a]
            < #[trigger] all[b] by {
            assert(all[a] == front[a]);
            if b < front.len() {
                assert(all[b] == front[b]);
            }
        }
        if front.contains(x) {
            let k = choose|k: int| 0 <= k < front.len() && front[k] == x;
            assert(all[k] == x);
        }
        if all.contains(x) {
            let k = choose|k: int| 0 <= k < all.len() && all[k] == x;
            if k < front.len() {
                assert(front[k] == x);
            }
        }
    }
}

/// A directory given from the home directory is found in whatever home it lies, on the same host, and
/// one given in full only where it is.
pub proof fn place_is_found_in_any_home(home: Seq<char>, rest: Seq<char>, on: Option<Seq<char>>)
    requires
        !rest.contains('%'),
    ensures
        at_place(Some(home + "/"@ + rest), on, "~/"@ + rest, on),
        !at_place(None, on, "~/"@ + rest, on),
        rest.len() > 0 && rest[0] != '~' && home != rest ==> !at_place(Some(home), on, rest, on),
{
    reveal_strlit("~/");
    reveal_strlit("%/");
    reveal_strlit("/");
    let d = "~/"@ + rest;
    assert(d.subrange(0, 2) =~= "~/"@);
    assert(d.skip(2) =~= rest);
    let q = "/"@ + rest;
    assert(!q.contains('%')) by {
        if q.contains('%') {
            let k = choose|k: int| 0 <= k < q.len() && q[k] == '%';
            assert(rest.contains(rest[k - 1]));
        }
    }
    pattern_finds_what_ends_with_it(home, q);
    assert("%/"@ + rest =~= seq!['%'] + q);
    assert(home + "/"@ + rest =~= home + q);
    if rest.len() > 0 && rest[0] != '~' {
        if "~/"@.is_prefix_of(rest) {
            assert(rest.subrange(0, 2)[0] == '~');
        }
    }
}

/// The condition on a place asks for its directory and its host, in this order: the directory first,
/// one given from the home directory also by its end, and the host last, where there is one.
pub proof fn place_condition_asks_directory_and_host(
    prefix: Seq<char>,
    directory: Seq<char>,
    host: Seq<char>,
)
    ensures
        place_sql(prefix, directory, Some(host)).1.last() == host,
        place_sql(prefix, directory, Some(host)).1[0] == directory,
        place_sql(prefix, directory, Some(host)).1.drop_last() == place_sql(
            prefix,
            directory,
            None,
        ).1,
        "~/"@.is_prefix_of(directory) ==> place_sql(prefix, directory, None).1 == seq![
            directory,
            "%/"@ + directory.skip(2),
        ],
        !"~/"@.is_prefix_of(directory) ==> place_sql(prefix, directory, None).1 == seq![directory],
        !"~/"@.is_prefix_of(directory) ==> place_sql(prefix, directory, None).0 == prefix
            + "cwd = ?"@ + " AND "@ + (prefix + "host_alias IS NULL"@),
        !"~/"@.is_prefix_of(directory) ==> place_sql(prefix, directory, Some(host)).0 == prefix
            + "cwd = ?"@ + " AND "@ + (prefix + "host_alias = ?"@),
        "~/"@.is_prefix_of(directory) ==> place_sql(prefix, directory, None).0 == "("@ + (prefix
            + "cwd = ?"@) + " OR "@ + prefix + "cwd LIKE ?)"@ + " AND "@ + (prefix
            + "host_alias IS NULL"@),
{
    assert(place_sql(prefix, directory, Some(host)).1.drop_last() =~= place_sql(
        prefix,
        directory,
        None,
    ).1);
    if "~/"@.is_prefix_of(directory) {
        assert(place_sql(prefix, directory, None).1 =~= seq![
            directory,
            "%/"@ + directory.skip(2),
        ]);
    }
}

proof fn lemma_first_sorted<K: Key>(
    r: Seq<int>,
    keys: Seq<K>,
    at: Seq<int>,
    limit: int,
    i: int,
    j: int,
    x: int,
)
    requires
        first_sorted(r, keys, at, limit),
        keys.len() == at.len(),
        limit >= 0,
        forall|a: int, b: int| 0 <= a < b < at.len() ==> #[trigger] at[a] < #[trigger] at[b],
    ensures
        r.len() == if at.len() < limit {
            at.len() as int
        } else {
            limit
        },
        r.contains(x) ==> at.contains(x),
        at.len() <= limit && at.contains(x) ==> r.contains(x),
        0 <= i < j < r.len() ==> exists|a: int, b: int|
            0 <= a < at.len() && 0 <= b < at.len() && r[i] == #[trigger] at[a] && r[j]
                == #[trigger] at[b] && crate::order::follows(keys, a, b),
        0 <= i < r.len() && at.contains(x) && !r.contains(x) ==> exists|a: int, b: int|
            0 <= a < at.len() && 0 <= b < at.len() && r[i] == #[trigger] at[a] && x
                == #[trigger] at[b] && crate::order::follows(keys, a, b),
{
    let order = choose|order: Seq<int>| #[trigger]
        sorts(keys, order) && r == Seq::new(
            if order.len() < limit {
                order.len()
            } else {
                limit as nat
            },
            |k: int| at[order[k]],
        );
    if r.contains(x) {
        let k = choose|k: int| 0 <= k < r.len() && r[k] == x;
        assert(0 <= order[k] < at.len());
        assert(at[order[k]] == x);
    }
    if 0 <= i < j < r.len() {
        assert(0 <= order[i] < at.len() && 0 <= order[j] < at.len());
        assert(crate::order::follows(keys, order[i], order[j]));
        assert(r[i] == at[order[i]] && r[j] == at[order[j]]);
    }
    if at.contains(x) {
        let b = choose|b: int| 0 <= b < at.len() && at[b] == x;
        sorted_holds_every_position(keys, order, b);
        let k = choose|k: int| 0 <= k < order.len() && order[k] == b;
        if k < r.len() {
            assert(r[k] == x);
        } else if 0 <= i < r.len() {
            assert(0 <= order[i] < at.len());
            assert(crate::order::follows(keys, order[i], order[k]));
            assert(r[i] == at[order[i]]);
        }
    }
}

/// When a session was last active: when it ended, else when it started, else never.
pub proof fn activity_is_the_end_or_the_start(s: SessionRow)
    ensures
        s.ended_at matches Some(t) ==> activity(s) == t,
        s.ended_at is None ==> (s.started_at matches Some(t) ==> activity(s) == t),
        s.ended_at is None && s.started_at is None ==> activity(s) == 0,
        -0x8000_0000_0000_0000 <= activity(s) <= 0x7fff_ffff_ffff_ffff,
{
}

/// Of the sessions that are wanted those last active come first, and where not all are shown, none
/// that is left out was active later than one that is shown.
pub proof fn latest_sessions_come_first(
    r: Seq<int>,
    rows: Seq<SessionRow>,
    at: Seq<int>,
    limit: int,
    i: int,
    j: int,
    x: int,
)
    requires
        first_sorted(r, active_keys(rows, at), at, limit),
        limit >= 0,
        forall|a: int, b: int| 0 <= a < b < at.len() ==> #[trigger] at[a] < #[trigger] at[b],
    ensures
        r.len() == if at.len() < limit {
            at.len() as int
        } else {
            limit
        },
        r.contains(x) ==> at.contains(x),
        at.len() <= limit && at.contains(x) ==> r.contains(x),
        0 <= i < j < r.len() ==> activity(rows[r[i]]) >= activity(rows[r[j]]),
        0 <= i < r.len() && at.contains(x) && !r.contains(x) ==> activity(rows[r[i]]) >= activity(
            rows[x],
        ),
{
    let keys = active_keys(rows, at);
    lemma_first_sorted(r, keys, at, limit, i, j, x);
    if 0 <= i < j < r.len() {
        let (a, b) = choose|a: int, b: int|
            0 <= a < at.len() && 0 <= b < at.len() && r[i] == #[trigger] at[a] && r[j]
                == #[trigger] at[b] && crate::order::follows(keys, a, b);
        activity_is_the_end_or_the_start(rows[at[a]]);
        activity_is_the_end_or_the_start(rows[at[b]]);
    }
    if 0 <= i < r.len() && at.contains(x) && !r.contains(x) {
        let (a, b) = choose|a: int, b: int|
            0 <= a < at.len() && 0 <= b < at.len() && r[i] == #[trigger] at[a] && x
                == #[trigger] at[b] && crate::order::follows(keys, a, b);
        activity_is_the_end_or_the_start(rows[at[a]]);
        activity_is_the_end_or_the_start(rows[at[b]]);
    }
}

/// Of the sessions found at a place those with the most hits come first, with as many those last
/// active.
pub proof fn sessions_with_most_hits_come_first(
    r: Seq<int>,
    rows: Seq<SessionHit>,
    at: Seq<int>,
    limit: int,
    i: int,
    j: int,
)
    requires
        first_sorted(r, Seq::new(at.len(), |k: int| hit_key(rows[at[k]])), at, limit),
        limit >= 0,
        forall|a: int, b: int| 0 <= a < b < at.len() ==> #[trigger] at[a] < #[trigger] at[b],
        0 <= i < j < r.len(),
    ensures
        rows[r[i]].hits >= rows[r[j]].hits,
        rows[r[i]].hits == rows[r[j]].hits ==> activity(rows[r[i]].session) >= activity(
            rows[r[j]].session,
        ),
{
    let keys = Seq::new(at.len(), |k: int| hit_key(rows[at[k]]));
    lemma_first_sorted(r, keys, at, limit, i, j, 0);
    let (a, b) = choose|a: int, b: int|
        0 <= a < at.len() && 0 <= b < at.len() && r[i] == #[trigger] at[a] && r[j]
            == #[trigger] at[b] && crate::order::follows(keys, a, b);
    activity_is_the_end_or_the_start(rows[at[a]].session);
    activity_is_the_end_or_the_start(rows[at[b]].session);
}

/// The messages of a session are shown from the first place to the last; one without a place stands
/// by its id. Where they are not cut off, all are shown.
pub proof fn messages_stand_in_their_places(
    r: Seq<int>,
    rows: Seq<MessageRow>,
    limit: int,
    i: int,
    j: int,
    x: int,
)
    requires
        first_sorted(
            r,
            Seq::new(rows.len(), |k: int| message_key(rows[k])),
            Seq::new(rows.len(), |k: int| k),
            limit,
        ),
        limit >= 0,
    ensures
        rows.len() <= limit && 0 <= x < rows.len() ==> r.contains(x),
        r.contains(x) ==> 0 <= x < rows.len(),
        r.len() <= limit,
        0 <= i < j < r.len() ==> match (rows[r[i]].seq, rows[r[j]].seq) {
            (Some(a), Some(b)) => a <= b,
            (None, None) => rows[r[i]].id <= rows[r[j]].id,
            (Some(a), None) => a <= rows[r[j]].id,
            (None, Some(b)) => rows[r[i]].id <= b,
        },
{
    let keys = Seq::new(rows.len(), |k: int| message_key(rows[k]));
    let at = Seq::new(rows.len(), |k: int| k);
    lemma_first_sorted(r, keys, at, limit, i, j, x);
    if 0 <= x < rows.len() {
        assert(at[x] == x);
    }
    if 0 <= i < j < r.len() {
        let (a, b) = choose|a: int, b: int|
            0 <= a < at.len() && 0 <= b < at.len() && r[i] == #[trigger] at[a] && r[j]
                == #[trigger] at[b] && crate::order::follows(keys, a, b);
    }
}

/// A stored row is read with the dictionary where that can read it, else without one; where nothing
/// was compressed it is the text that was stored.
pub proof fn stored_row_is_read_back(
    z: Seq<u8>,
    text: Option<Seq<char>>,
    dict: Seq<u8>,
    s: Seq<char>,
)
    ensures
        stored_raw(None, text, Some(dict)) == text,
        stored_raw(None, text, None) == text,
        decoded_with(dict, z) == Ok::<Seq<char>, crate::archive::compress::CodecError>(s)
            ==> stored_raw(Some(z), text, Some(dict)) == Some(s),
        decoded_with(dict, z) is Err && decoded(z) == Ok::<
            Seq<char>,
            crate::archive::compress::CodecError,
        >(s) ==> stored_raw(Some(z), text, Some(dict)) == Some(s),
        decoded(z) == Ok::<Seq<char>, crate::archive::compress::CodecError>(s) ==> stored_raw(
            Some(z),
            text,
            None,
        ) == Some(s),
        decoded(z) is Err ==> stored_raw(Some(z), text, None) is None,
{
}

/// The ids that a prefix may mean are those that are it or that it finds, all of them.
pub proof fn ids_are_those_meant(ids: Seq<Seq<char>>, prefix: Seq<char>, n: int, x: int)
    requires
        0 <= n <= ids.len(),
    ensures
        meant_at(ids, prefix, n).contains(x) <==> 0 <= x < n && (may_mean(ids[x], prefix)),
        forall|a: int, b: int|
            0 <= a < b < meant_at(ids, prefix, n).len() ==> #[trigger] meant_at(ids, prefix, n)[a]
                < #[trigger] meant_at(ids, prefix, n)[b],
        forall|a: int|
            0 <= a < meant_at(ids, prefix, n).len() ==> 0 <= #[trigger] meant_at(ids, prefix, n)[a] < n,
    decreases n,
{
    if n > 0 {
        ids_are_those_meant(ids, prefix, n - 1, x);
        let all = meant_at(ids, prefix, n);
        let front = meant_at(ids, prefix, n - 1);
        if all.len() > front.len() {
            assert(all[all.len() - 1] == n - 1);
            assert(all.drop_last() =~= front);
        }
        assert forall|a: int| 0 <= a < all.len() implies 0 <= #[trigger] all[a] < n by {
            if a < front.len() {
                assert(all[a] == front[a]);
            }
        }
        assert forall|a: int, b: int| 0 <= a < b < all.len() implies #[trigger] all[a]
            < #[trigger] all[b] by {
            assert(all[a] == front[a]);
            if b < front.len() {
                assert(all[b] == front[b]);
            }
        }
        if front.contains(x) {
            let k = choose|k: int| 0 <= k < front.len() && front[k] == x;
            assert(all[k] == x);
        }
        if all.contains(x) {
            let k = choose|k: int| 0 <= k < all.len() && all[k] == x;
            if k < front.len() {
                assert(front[k] == x);
            }
        }
    }
}

/// An id is meant by itself and by each of its beginnings; without wildcards a prefix means nothing
/// that does not begin with it.
pub proof fn prefix_means_what_begins_with_it(prefix: Seq<char>, rest: Seq<char>, id: Seq<char>)
    requires
        !prefix.contains('%'),
    ensures
        may_mean(prefix + rest, prefix),
        may_mean(id, id),
        !prefix.contains('_') && !lowered(prefix).is_prefix_of(lowered(id)) ==> !may_mean(
            id,
            prefix,
        ),
{
    reveal_strlit("%");
    assert(prefix + "%"@ =~= prefix + seq!['%']);
    pattern_finds_what_begins_with_it(prefix, rest);
    if !prefix.contains('_') {
        plain_pattern_finds_nothing_else(prefix, id);
        if id == prefix {
            assert(lowered(id).subrange(0, lowered(prefix).len() as int) =~= lowered(prefix));
        }
    }
}

/// The id that is given in full comes first, before those that only begin with it.
pub proof fn exact_id_comes_first(
    r: Seq<int>,
    keys: Seq<IdKey>,
    ids: Seq<Seq<char>>,
    prefix: Seq<char>,
    x: int,
)
    requires
        id_keys(keys, ids, prefix, meant_at(ids, prefix, ids.len() as int)),
        first_sorted(r, keys, meant_at(ids, prefix, ids.len() as int), 10),
        0 <= x < ids.len(),
        ids[x] == prefix,
    ensures
        r.len() > 0,
        r.len() <= 10,
        ids[r[0]] == prefix,
{
    let at = meant_at(ids, prefix, ids.len() as int);
    ids_are_those_meant(ids, prefix, ids.len() as int, x);
    lemma_first_sorted(r, keys, at, 10, 0, 0, x);
    if !r.contains(x) {
        let (a, b) = choose|a: int, b: int|
            0 <= a < at.len() && 0 <= b < at.len() && r[0] == #[trigger] at[a] && x
                == #[trigger] at[b] && crate::order::follows(keys, a, b);
        assert(keys[b].exact);
        assert(!keys[a].exact ==> keys[b].before(&keys[a]));
    } else {
        let j = choose|j: int| 0 <= j < r.len() && r[j] == x;
        if j > 0 {
            lemma_first_sorted(r, keys, at, 10, 0, j, x);
            let (a, b) = choose|a: int, b: int|
                0 <= a < at.len() && 0 <= b < at.len() && r[0] == #[trigger] at[a] && r[j]
                    == #[trigger] at[b] && crate::order::follows(keys, a, b);
            assert(keys[b].exact);
            assert(!keys[a].exact ==> keys[b].before(&keys[a]));
        }
    }
}

/// A label is counted once for each row that has it.
pub proof fn label_is_counted_row_by_row(
    v: Seq<Option<Seq<char>>>,
    x: Option<Seq<char>>,
    n: int,
)
    requires
        0 <= n < v.len(),
    ensures
        label_count(v, x, n + 1) == label_count(v, x, n) + if v[n] == x {
            1nat
        } else {
            0nat
        },
        label_count(v, x, 0) == 0,
        local_count(v) == label_count(v, None, v.len() as int) + label_count(
            v,
            Some("local"@),
            v.len() as int,
        ),
{
}

/// The first activity is the earliest start of a session, the last the latest end, or start where a
/// session has no end; there is one wherever a session has one.
pub proof fn activity_spans_all_sessions(rows: Seq<SessionRow>, n: int, i: int)
    requires
        0 <= i < n <= rows.len(),
    ensures
        rows[i].started_at matches Some(t) ==> (first_start(rows, n) matches Some(f) && f <= t),
        rows[i].ended_at matches Some(t) ==> (last_activity(rows, n) matches Some(l) && t <= l),
        rows[i].ended_at is None ==> (rows[i].started_at matches Some(t) ==> (last_activity(
            rows,
            n,
        ) matches Some(l) && t <= l)),
    decreases n,
{
    if i < n - 1 {
        activity_spans_all_sessions(rows, n - 1, i);
    }
}

/// Both ends of the activity are those of a session.
pub proof fn activity_is_that_of_a_session(rows: Seq<SessionRow>, n: int)
    requires
        0 <= n <= rows.len(),
    ensures
        first_start(rows, n) is Some ==> exists|i: int|
            0 <= i < n && (#[trigger] rows[i]).started_at == first_start(rows, n),
        last_activity(rows, n) is Some ==> exists|i: int|
            0 <= i < n && ((#[trigger] rows[i]).ended_at == last_activity(rows, n) || (
            rows[i].ended_at is None && rows[i].started_at == last_activity(rows, n))),
    decreases n,
{
    if n > 0 {
        activity_is_that_of_a_session(rows, n - 1);
        if first_start(rows, n) is Some && first_start(rows, n) != rows[n - 1].started_at {
            let i = choose|i: int|
                0 <= i < n - 1 && (#[trigger] rows[i]).started_at == first_start(rows, n - 1);
            assert(rows[i].started_at == first_start(rows, n));
        }
        if last_activity(rows, n) is Some && last_activity(rows, n) != known_activity(rows[n - 1]) {
            let i = choose|i: int|
                0 <= i < n - 1 && ((#[trigger] rows[i]).ended_at == last_activity(rows, n - 1) || (
                rows[i].ended_at is None && rows[i].started_at == last_activity(rows, n - 1)));
            assert(rows[i].ended_at == last_activity(rows, n) || (rows[i].ended_at is None
                && rows[i].started_at == last_activity(rows, n)));
        }
    }
}

/// Labels are shown from the one that most rows have; with as many rows by their text. At most as
/// many as asked for are shown, and none left out has more rows than one shown.
pub proof fn most_frequent_labels_come_first(
    out: Seq<LabeledCount>,
    all: Seq<LabeledCount>,
    limit: int,
    i: int,
    j: int,
)
    requires
        sorted_counts(out, all, limit),
        limit >= 0,
    ensures
        out.len() <= limit,
        all.len() <= limit ==> out.len() == all.len(),
        0 <= i < j < out.len() ==> out[i].count >= out[j].count,
        0 <= i < j < out.len() && out[i].count == out[j].count ==> !text_before(
            or_empty(opt_text(out[j].label)),
            or_empty(opt_text(out[i].label)),
        ),
        0 <= i < out.len() ==> exists|k: int|
            0 <= k < all.len() && opt_text((#[trigger] all[k]).label) == opt_text(out[i].label)
                && all[k].count == out[i].count,
        0 <= i < out.len() && 0 <= j < all.len() && all[j].count > out[i].count ==> exists|k: int|
            0 <= k < i && opt_text((#[trigger] out[k]).label) == opt_text(all[j].label)
                && out[k].count == all[j].count,
{
    let (keys, order) = choose|keys: Seq<CountKey>, order: Seq<int>|
        keys.len() == all.len() && (forall|k: int|
            0 <= k < all.len() ==> (#[trigger] keys[k]).count == all[k].count && keys[k].label@
                == or_empty(opt_text(all[k].label))) && #[trigger] sorts(keys, order) && out.len()
            == (if order.len() < limit {
            order.len() as int
        } else {
            limit
        }) && (forall|k: int|
            0 <= k < out.len() ==> opt_text((#[trigger] out[k]).label) == opt_text(
                all[order[k]].label,
            ) && out[k].count == all[order[k]].count);
    if 0 <= i < j < out.len() {
        assert(0 <= order[i] < keys.len() && 0 <= order[j] < keys.len());
        assert(crate::order::follows(keys, order[i], order[j]));
        let a = keys[order[i]];
        let b = keys[order[j]];
        if a.before(&b) {
            CountKey::asymmetric(a, b);
        }
        assert(!b.before(&a));
    }
    if 0 <= i < out.len() {
        assert(0 <= order[i] < all.len());
        assert(opt_text(all[order[i]].label) == opt_text(out[i].label));
        if 0 <= j < all.len() && all[j].count > out[i].count {
            sorted_holds_every_position(keys, order, j);
            let k = choose|k: int| 0 <= k < order.len() && order[k] == j;
            if k > i {
                assert(crate::order::follows(keys, order[i], order[k]));
                assert(keys[j].count > keys[order[i]].count);
            }
            assert(k < i);
            assert(opt_text(out[k].label) == opt_text(all[j].label));
        }
    }
}

/// So many are listed as were asked for: fifty sessions, or thirty hits, where no number was given.
pub proof fn numbers_asked_for(f: ListFilter, limit: i64, hits: i64)
    requires
        call_ensures(search_limit, (limit,), hits),
    ensures
        f.limit > 0 ==> list_limit(f) == f.limit,
        f.limit <= 0 ==> list_limit(f) == 50,
        limit > 0 ==> hits == limit,
        limit <= 0 ==> hits == 30,
{
}

/// The figures are those of the sessions: how many there are, where they ran, and of the projects and
/// origins only such as a session has, each once, with as many as have it.
pub proof fn figures_are_those_of_the_sessions(
    rows: &Vec<SessionRow>,
    messages: i64,
    memory_files: i64,
    memory_versions: i64,
    r: ArchiveStats,
)
    requires
        rows@.len() <= i64::MAX,
        call_ensures(stats, (rows, messages, memory_files, memory_versions), r),
    ensures
        r.sessions == rows@.len(),
        r.messages == messages && r.memory_files == memory_files && r.memory_versions == memory_versions,
        (forall|i: int|
            0 <= i < rows@.len() ==> (#[trigger] rows@[i]).kind is None || rows@[i].kind->0@ == "local"@
                || rows@[i].kind->0@ == "remote"@) ==> r.local_sessions + r.remote_sessions == r.sessions,
{
    let v = kinds(rows@);
    if forall|i: int|
        0 <= i < rows@.len() ==> (#[trigger] rows@[i]).kind is None || rows@[i].kind->0@ == "local"@
            || rows@[i].kind->0@ == "remote"@ {
        assert forall|i: int| 0 <= i < v.len() implies is_local_kind(#[trigger] v[i]) || v[i] == Some(
            "remote"@,
        ) by {
            assert(rows@[i].kind is None || rows@[i].kind->0@ == "local"@ || rows@[i].kind->0@
                == "remote"@);
        }
        local_and_remote_are_all(v, v.len() as int);
    }
}

/// A count goes with each label that occurs, once, and is the number of its rows; rows without a label
/// count under none only where that is asked for.
pub proof fn every_label_is_counted_once(
    out: Seq<LabeledCount>,
    v: Seq<Option<Seq<char>>>,
    x: Seq<char>,
    unlabelled: bool,
)
    requires
        counts_match(out, v, unlabelled),
    ensures
        v.contains(Some(x)) <==> exists|i: int|
            0 <= i < out.len() && opt_text((#[trigger] out[i]).label) == Some(x),
        !unlabelled ==> forall|i: int| 0 <= i < out.len() ==> (#[trigger] out[i]).label is Some,
        unlabelled ==> (v.contains(None) <==> exists|i: int|
            0 <= i < out.len() && (#[trigger] out[i]).label is None),
        forall|i: int|
            0 <= i < out.len() ==> (#[trigger] out[i]).count == label_count(
                v,
                opt_text(out[i].label),
                v.len() as int,
            ),
{
    if v.contains(Some(x)) {
        let k = choose|k: int| 0 <= k < v.len() && v[k] == Some(x);
        assert(v[k] is Some);
    }
    if v.contains(None) {
        let k = choose|k: int| 0 <= k < v.len() && v[k] is None;
        assert(v[k] is None);
        if unlabelled {
            let i = choose|i: int| 0 <= i < out.len() && opt_text((#[trigger] out[i]).label) == v[k];
            assert(out[i].label is None);
        }
    }
}

} // verus!
