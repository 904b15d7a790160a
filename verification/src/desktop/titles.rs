//! The titles that the instances show: the summaries of their sessions.

use crate::order::positions;
use crate::text::{copy, copy_opt, opt_text, same, texts};
use vstd::prelude::*;

verus! {

/// What an instance shows of its session.
pub struct TitleRow {
    pub host_alias: Option<String>,
    pub current_session_id: Option<String>,
    pub session_title: Option<String>,
}

/// What an instance shows of its session.
pub struct TitleView {
    pub host_alias: Option<Seq<char>>,
    pub current_session_id: Option<Seq<char>>,
    pub session_title: Option<Seq<char>>,
}

impl TitleRow {
    pub open spec fn view(&self) -> TitleView {
        TitleView {
            host_alias: opt_text(self.host_alias),
            current_session_id: opt_text(self.current_session_id),
            session_title: opt_text(self.session_title),
        }
    }
}

/// What the rows show.
pub open spec fn titles(v: Seq<TitleRow>) -> Seq<TitleView> {
    Seq::new(v.len(), |i: int| v[i].view())
}

/// The row with the session's summary for its title, if it shows that session.
pub open spec fn retitled(t: TitleView, session_id: Seq<char>, summary: Option<Seq<char>>) -> TitleView {
    if summary is Some && t.current_session_id == Some(session_id) {
        TitleView { session_title: summary, ..t }
    } else {
        t
    }
}

/// The rows with the session's summary for their titles.
pub open spec fn all_retitled(
    v: Seq<TitleView>,
    session_id: Seq<char>,
    summary: Option<Seq<char>>,
) -> Seq<TitleView> {
    Seq::new(v.len(), |i: int| retitled(v[i], session_id, summary))
}

/// Where among the first `n` rows the title changes.
pub open spec fn changed(
    v: Seq<TitleView>,
    session_id: Seq<char>,
    summary: Option<Seq<char>>,
    n: int,
) -> Seq<int>
    decreases n,
{
    if n <= 0 {
        seq![]
    } else if retitled(v[n - 1], session_id, summary) != v[n - 1] {
        changed(v, session_id, summary, n - 1).push(n - 1)
    } else {
        changed(v, session_id, summary, n - 1)
    }
}

/// Looking a title up again changes nothing: nobody is told twice.
pub proof fn titles_settle(v: Seq<TitleView>, session_id: Seq<char>, summary: Option<Seq<char>>, n: int)
    requires
        n <= v.len(),
    ensures
        changed(all_retitled(v, session_id, summary), session_id, summary, n).len() == 0,
    decreases n,
{
    if n > 0 {
        titles_settle(v, session_id, summary, n - 1);
    }
}

/// Gives the instances that show a session its summary for their title, and tells which of them
/// changed. A session without a summary leaves the titles as they are.
pub fn refresh_session_title(rows: &mut Vec<TitleRow>, session_id: &str, summary: &Option<String>) -> (r:
    Vec<usize>)
    ensures
        titles(final(rows)@) == all_retitled(titles(old(rows)@), session_id@, opt_text(*summary)),
        positions(r@) == changed(
            titles(old(rows)@),
            session_id@,
            opt_text(*summary),
            old(rows)@.len() as int,
        ),
{
    let mut out: Vec<usize> = Vec::new();
    let ghost was = titles(rows@);
    let ghost sum = opt_text(*summary);
    let mut i: usize = 0;
    assert(positions(out@) =~= changed(was, session_id@, sum, 0));
    while i < rows.len()
        invariant
            i <= rows@.len(),
            rows@.len() == was.len(),
            sum == opt_text(*summary),
            forall|k: int| 0 <= k < i ==> (#[trigger] rows@[k]).view() == retitled(
                was[k],
                session_id@,
                sum,
            ),
            forall|k: int| i <= k < was.len() ==> (#[trigger] rows@[k]).view() == was[k],
            positions(out@) == changed(was, session_id@, sum, i as int),
        decreases rows@.len() - i,
    {
        assert(rows@[i as int].view() == was[i as int]);
        if let Some(s) = summary {
            let shows: bool = match &rows[i].current_session_id {
                Some(c) => same(c.as_str(), session_id),
                None => false,
            };
            let known: bool = match &rows[i].session_title {
                Some(t) => same(t.as_str(), s.as_str()),
                None => false,
            };
            if shows && !known {
                let row: TitleRow = TitleRow {
                    host_alias: copy_opt(&rows[i].host_alias),
                    current_session_id: copy_opt(&rows[i].current_session_id),
                    session_title: Some(copy(s.as_str())),
                };
                let ghost before = out@;
                rows.set(i, row);
                out.push(i);
                assert(positions(out@) =~= positions(before).push(i as int));
            }
        }
        i += 1;
    }
    assert(titles(rows@) =~= all_retitled(was, session_id@, sum));
    out
}

/// The sessions that the instances of a host show, among the first `n` rows.
pub open spec fn shown_of(v: Seq<TitleView>, host: Seq<char>, n: int) -> Seq<Seq<char>>
    decreases n,
{
    if n <= 0 {
        seq![]
    } else if v[n - 1].host_alias == Some(host) && v[n - 1].current_session_id is Some {
        shown_of(v, host, n - 1).push(v[n - 1].current_session_id->0)
    } else {
        shown_of(v, host, n - 1)
    }
}

/// The sessions that the instances of a host show: those whose titles are looked up after a pull
/// from it.
pub fn refresh_remote_session_titles(rows: &Vec<TitleRow>, host_alias: &str) -> (r: Vec<String>)
    ensures
        texts(r@) == shown_of(titles(rows@), host_alias@, rows@.len() as int),
{
    let mut out: Vec<String> = Vec::new();
    let mut i: usize = 0;
    assert(texts(out@) =~= shown_of(titles(rows@), host_alias@, 0));
    while i < rows.len()
        invariant
            i <= rows@.len(),
            texts(out@) == shown_of(titles(rows@), host_alias@, i as int),
        decreases rows@.len() - i,
    {
        assert(titles(rows@)[i as int] == rows@[i as int].view());
        let here: bool = match &rows[i].host_alias {
            Some(h) => same(h.as_str(), host_alias),
            None => false,
        };
        if here {
            if let Some(sid) = &rows[i].current_session_id {
                let ghost before = out@;
                out.push(copy(sid.as_str()));
                assert(texts(out@) =~= texts(before).push(sid@));
            }
        }
        i += 1;
    }
    out
}

// ---------------------------------------------------------------- which instances are told

/// An instance shows the new title exactly where it shows the session, and keeps everything else.
pub proof fn title_goes_to_its_session(
    v: Seq<TitleView>,
    session_id: Seq<char>,
    summary: Option<Seq<char>>,
    i: int,
)
    requires
        0 <= i < v.len(),
    ensures
        ({
            let r = all_retitled(v, session_id, summary);
            &&& r.len() == v.len()
            &&& r[i].host_alias == v[i].host_alias
            &&& r[i].current_session_id == v[i].current_session_id
            &&& summary is Some && v[i].current_session_id == Some(session_id) ==> r[i].session_title
                == summary
            &&& summary is None || v[i].current_session_id != Some(session_id) ==> r[i].session_title
                == v[i].session_title
        }),
{
}

/// Told of as changed are the instances that show the session under another title, in order.
pub proof fn changed_instances_are_told(v: Seq<TitleView>, session_id: Seq<char>, summary: Option<Seq<char>>, n: int, x: int)
    requires
        0 <= n,
    ensures
        changed(v, session_id, summary, n).contains(x) <==> 0 <= x < n && (summary is Some && v[x].current_session_id == Some(session_id) && v[x].session_title != summary),
        forall|a: int, b: int|
            0 <= a < b < changed(v, session_id, summary, n).len() ==> #[trigger] changed(v, session_id, summary, n)[a]
                < #[trigger] changed(v, session_id, summary, n)[b],
        forall|a: int|
            0 <= a < changed(v, session_id, summary, n).len() ==> 0 <= #[trigger] changed(v, session_id, summary, n)[a] < n,
    decreases n,
{
    if n > 0 {
        changed_instances_are_told(v, session_id, summary, n - 1, x);
        let all = changed(v, session_id, summary, n);
        let front = changed(v, session_id, summary, n - 1);
        if all.len() > front.len() {
            assert(all[all.len() - 1] == n - 1);
            assert(all.drop_last() =~= front);
        }
        assert forall|a: int| 0 <= a < all.len() implies 0 <= #[trigger] all[a] < n by {
            if a < front.len() {
                assert(all[a] == front[a]);
            }
        }
        assert forall|a: int, b: int| 0 <= a < b < all.len() implies #[trigger] all[a]
            < #[trigger] all[b] by {
            assert(all[a] == front[a]);
            if b < front.len() {
                assert(all[b] == front[b]);
            }
        }
        if front.contains(x) {
            let k = choose|k: int| 0 <= k < front.len() && front[k] == x;
            assert(all[k] == x);
        }
        if all.contains(x) {
            let k = choose|k: int| 0 <= k < all.len() && all[k] == x;
            if k < front.len() {
                assert(front[k] == x);
            }
        }
    }
}

/// The sessions whose titles are looked up for a host are those that its instances show, in order.
pub proof fn sessions_of_a_host_are_looked_up(v: Seq<TitleView>, t: TitleView, host: Seq<char>)
    ensures
        t.host_alias == Some(host) ==> (t.current_session_id matches Some(s) ==> shown_of(
            v.push(t),
            host,
            v.len() as int + 1,
        ) == shown_of(v, host, v.len() as int).push(s)),
        t.host_alias != Some(host) || t.current_session_id is None ==> shown_of(
            v.push(t),
            host,
            v.len() as int + 1,
        ) == shown_of(v, host, v.len() as int),
        shown_of(v, host, 0).len() == 0,
{
    lemma_shown_front(v, t, host, v.len() as int);
    assert(v.push(t)[v.len() as int] == t);
}

proof fn lemma_shown_front(v: Seq<TitleView>, t: TitleView, host: Seq<char>, n: int)
    requires
        0 <= n <= v.len(),
    ensures
        shown_of(v.push(t), host, n) == shown_of(v, host, n),
    decreases n,
{
    if n > 0 {
        lemma_shown_front(v, t, host, n - 1);
        assert(v.push(t)[n - 1] == v[n - 1]);
    }
}

} // verus!
