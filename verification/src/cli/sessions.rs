//! The archive's tool: what it prints, and what it writes back.

use crate::archive::query::{
    ArchiveStats, LabeledCount, MessageRow, SearchHit, SessionRow,
};
use crate::calendar::{fmt_ts, stamp_text};
use crate::number::{decimal, push_u64, show_i64, signed_decimal};
use crate::pathname::{join_path, path_join};
use crate::split::{
    cut, index_of, join, joined, joined_holds_each, lemma_index_is, lemma_index_of, split_once,
    words, words_of,
};
use crate::sshkit::paths::{ccc_root, data_of, data_root, dev_value, root_of, NoHome};
use crate::text::{
    blank, chars_of, copy, lemma_texts_push, opt_text, pad_behind, pad_right, same, string_of,
    texts, trim, trimmed, trimming_takes_the_white_ends, white,
};
use vstd::prelude::*;

verus! {

// ---------------------------------------------------------------- places

/// The archive's database: `archive/sessions.db` below the data directory.
pub fn db_path(home: &Option<String>, dev: &Option<String>) -> (r: Result<String, NoHome>)
    ensures
        match *home {
            Some(h) => r is Ok && r->Ok_0@ == path_join(
                path_join(data_of(h@, dev_value(opt_text(*dev))), "archive"@),
                "sessions.db"@,
            ),
            None => r == Err::<String, NoHome>(NoHome),
        },
{
    match data_root(home, dev) {
        Ok(p) => Ok(join_path(join_path(p.as_str(), "archive").as_str(), "sessions.db")),
        Err(e) => Err(e),
    }
}

/// Where remote transcripts are staged: `archive/pulled` below the data directory.
pub fn staging_root(home: &Option<String>, dev: &Option<String>) -> (r: Result<String, NoHome>)
    ensures
        match *home {
            Some(h) => r is Ok && r->Ok_0@ == path_join(
                path_join(data_of(h@, dev_value(opt_text(*dev))), "archive"@),
                "pulled"@,
            ),
            None => r == Err::<String, NoHome>(NoHome),
        },
{
    match data_root(home, dev) {
        Ok(p) => Ok(join_path(join_path(p.as_str(), "archive").as_str(), "pulled")),
        Err(e) => Err(e),
    }
}

/// Where an agent's profiles are: below `agent_settings` in the root, which all builds share, in a
/// directory of the agent's own.
pub fn claude_profiles_root(home: &Option<String>, agent: &str) -> (r: Result<String, NoHome>)
    ensures
        match *home {
            Some(h) => r is Ok && r->Ok_0@ == path_join(
                path_join(root_of(h@), "agent_settings"@),
                agent@,
            ),
            None => r == Err::<String, NoHome>(NoHome),
        },
{
    match ccc_root(home) {
        Ok(p) => Ok(join_path(join_path(p.as_str(), "agent_settings").as_str(), agent)),
        Err(e) => Err(e),
    }
}

// ---------------------------------------------------------------- small texts

/// The time that lies `days` days before `now`, in milliseconds.
pub open spec fn days_before(now: i64, days: i64) -> int {
    now - days * 86_400_000
}

/// The time from which on activity counts, where a number of days is given. It must fit.
pub fn since_to_ms(days: Option<i64>, now: i64) -> (r: Option<i64>)
    requires
        days matches Some(d) ==> i64::MIN <= days_before(now, d) <= i64::MAX,
    ensures
        r == match days {
            Some(d) => Some(days_before(now, d) as i64),
            None => None::<i64>,
        },
{
    match days {
        Some(d) => Some((now as i128 - d as i128 * 86_400_000) as i64),
        None => None,
    }
}

/// One letter for where a session ran.
pub open spec fn kind_letter(kind: Option<Seq<char>>) -> Seq<char> {
    if kind == Some("local"@) {
        "L"@
    } else if kind == Some("remote"@) {
        "R"@
    } else {
        "·"@
    }
}

/// One letter for where a session ran.
pub fn kind_short(kind: &Option<String>) -> (r: &'static str)
    ensures
        r@ == kind_letter(opt_text(*kind)),
{
    match kind {
        Some(k) => if same(k.as_str(), "local") {
            "L"
        } else if same(k.as_str(), "remote") {
            "R"
        } else {
            "·"
        },
        None => "·",
    }
}

/// One letter for whose a memory file is.
pub open spec fn scope_letter(scope: Option<Seq<char>>) -> Seq<char> {
    if scope == Some("user"@) {
        "U"@
    } else if scope == Some("project"@) {
        "P"@
    } else {
        "·"@
    }
}

/// One letter for whose a memory file is.
pub fn scope_short(scope: &Option<String>) -> (r: &'static str)
    ensures
        r@ == scope_letter(opt_text(*scope)),
{
    match scope {
        Some(k) => if same(k.as_str(), "user") {
            "U"
        } else if same(k.as_str(), "project") {
            "P"
        } else {
            "·"
        },
        None => "·",
    }
}

/// The first `n` characters of `s`.
pub open spec fn first_chars(s: Seq<char>, n: int) -> Seq<char> {
    if s.len() <= n {
        s
    } else {
        s.take(n)
    }
}

fn take_chars(s: &str, n: usize) -> (r: String)
    ensures
        r@ == first_chars(s@, n as int),
{
    let cs: Vec<char> = chars_of(s);
    if cs.len() <= n {
        copy(s)
    } else {
        let t: String = string_of(&cs, 0, n);
        assert(t@ =~= s@.take(n as int));
        t
    }
}

/// The first eight characters of a session's id.
pub fn short(session_id: &str) -> (r: String)
    ensures
        r@ == first_chars(session_id@, 8),
{
    take_chars(session_id, 8)
}

/// The first eight characters of a digest, or a dash.
pub open spec fn hash_label(hash: Option<Seq<char>>) -> Seq<char> {
    match hash {
        Some(h) => first_chars(h, 8),
        None => "-"@,
    }
}

/// The first eight characters of a digest, or a dash.
pub fn short_hash(hash: &Option<String>) -> (r: String)
    ensures
        r@ == hash_label(opt_text(*hash)),
{
    match hash {
        Some(h) => take_chars(h.as_str(), 8),
        None => copy("-"),
    }
}

/// `s` within `max` characters; where some are left out, the last is an ellipsis.
pub open spec fn shortened(s: Seq<char>, max: int) -> Seq<char> {
    if s.len() <= max {
        s
    } else if max <= 0 {
        "…"@
    } else {
        s.take(max - 1) + "…"@
    }
}

/// `s` within `max` characters; where some are left out, the last is an ellipsis.
pub fn truncate(s: &str, max: usize) -> (r: String)
    ensures
        r@ == shortened(s@, max as int),
{
    let cs: Vec<char> = chars_of(s);
    if cs.len() <= max {
        return copy(s);
    }
    if max == 0 {
        return copy("…");
    }
    let mut t: String = string_of(&cs, 0, max - 1);
    assert(t@ =~= s@.take(max - 1));
    t.append("…");
    t
}

/// Text cut to a width stays within it.
pub proof fn shortened_fits(s: Seq<char>, max: int)
    requires
        max >= 1,
    ensures
        shortened(s, max).len() <= max,
{
    reveal_strlit("…");
}

/// `s` on one line, with single spaces, within `max` characters.
pub open spec fn flattened(s: Seq<char>, max: int) -> Seq<char> {
    shortened(joined(words_of(s), " "@), max)
}

/// `s` on one line, with single spaces, within `max` characters.
pub fn one_line(s: &str, max: usize) -> (r: String)
    ensures
        r@ == flattened(s@, max as int),
{
    let w: Vec<String> = words(s);
    truncate(join(&w, " ").as_str(), max)
}

/// A message's text without white space at either end, unless nothing is left.
pub open spec fn body_of(t: Option<Seq<char>>) -> Option<Seq<char>> {
    match t {
        Some(s) => if blank(s) {
            None
        } else {
            Some(trimmed(s))
        },
        None => None,
    }
}

/// A message's text without white space at either end, unless nothing is left.
pub fn body_text(t: &Option<String>) -> (r: Option<String>)
    ensures
        opt_text(r) == body_of(opt_text(*t)),
{
    match t {
        Some(s) => {
            let b: String = trim(s.as_str());
            if b.as_str().is_empty() {
                None
            } else {
                Some(b)
            }
        },
        None => None,
    }
}

/// The first `cap` characters of `s`, and how many were left out.
pub open spec fn capped(s: Seq<char>, cap: int) -> Seq<char> {
    if s.len() <= cap {
        s
    } else {
        s.take(cap) + "…（+"@ + decimal((s.len() - cap) as nat) + "字）"@
    }
}

/// The first `cap` characters of `s`, and how many were left out.
pub fn truncate_body(s: &str, cap: usize) -> (r: String)
    ensures
        r@ == capped(s@, cap as int),
{
    let cs: Vec<char> = chars_of(s);
    if cs.len() <= cap {
        return copy(s);
    }
    let mut t: String = string_of(&cs, 0, cap);
    assert(t@ =~= s@.take(cap as int));
    t.append("…（+");
    push_u64(&mut t, (cs.len() - cap) as u64);
    t.append("字）");
    t
}

/// A time, or a dash.
pub open spec fn stamp_or_dash(t: Option<i64>) -> Seq<char> {
    match t {
        Some(ms) => stamp_text(ms as int),
        None => "-"@,
    }
}

fn show_stamp(t: Option<i64>) -> (r: String)
    ensures
        r@ == stamp_or_dash(t),
{
    match t {
        Some(ms) => fmt_ts(ms),
        None => copy("-"),
    }
}

/// A text, or another.
pub open spec fn or_text(o: Option<Seq<char>>, other: Seq<char>) -> Seq<char> {
    match o {
        Some(s) => s,
        None => other,
    }
}

fn text_or<'a>(o: &'a Option<String>, other: &'a str) -> (r: &'a str)
    ensures
        r@ == or_text(opt_text(*o), other@),
{
    match o {
        Some(s) => s.as_str(),
        None => other,
    }
}

/// The first of two times that is known.
pub open spec fn first_known(a: Option<i64>, b: Option<i64>) -> Option<i64> {
    if a is Some {
        a
    } else {
        b
    }
}

// ---------------------------------------------------------------- listings

/// What is printed.
#[derive(Debug)]
pub enum Printed {
    /// Lines.
    Lines(Vec<String>),
    /// A text as it is.
    Text(String),
    /// Lines that are no result.
    Note(Vec<String>),
}

/// What is printed, as text.
pub enum PrintedView {
    Lines(Seq<Seq<char>>),
    Text(Seq<char>),
    Note(Seq<Seq<char>>),
}

impl Printed {
    pub open spec fn view(&self) -> PrintedView {
        match *self {
            Printed::Lines(v) => PrintedView::Lines(texts(v@)),
            Printed::Text(s) => PrintedView::Text(s@),
            Printed::Note(v) => PrintedView::Note(texts(v@)),
        }
    }
}

fn note(s: String) -> (r: Printed)
    ensures
        r@ == PrintedView::Note(seq![s@]),
{
    let mut v: Vec<String> = Vec::new();
    v.push(s);
    assert(texts(v@) =~= seq![s@]);
    Printed::Note(v)
}

/// The number of a message, or a dash.
pub open spec fn seq_or_dash(s: Option<i64>) -> Seq<char> {
    match s {
        Some(n) => signed_decimal(n as int),
        None => "-"@,
    }
}

/// The two lines of a hit: when, where, who and what; and the message's place.
pub open spec fn hit_lines(h: SearchHit) -> Seq<Seq<char>> {
    seq![
        stamp_or_dash(h.ts) + "  "@ + or_text(opt_text(h.project), "-"@) + "  ["@ + or_text(
            opt_text(h.role),
            "?"@,
        ) + "]  "@ + flattened(h.snippet@, 100),
        "        ↳ "@ + first_chars(h.session_id@, 8) + "#"@ + seq_or_dash(h.seq),
    ]
}

/// The lines of hits.
pub open spec fn all_hit_lines(v: Seq<SearchHit>) -> Seq<Seq<char>>
    decreases v.len(),
{
    if v.len() == 0 {
        seq![]
    } else {
        all_hit_lines(v.drop_last()) + hit_lines(v.last())
    }
}

/// What a search prints.
pub fn print_hits(hits: &Vec<SearchHit>, query: &str) -> (r: Printed)
    ensures
        r@ == if hits@.len() == 0 {
            PrintedView::Note(seq!["ヒットなし: "@ + query@])
        } else {
            PrintedView::Lines(all_hit_lines(hits@))
        },
{
    if hits.len() == 0 {
        let mut s: String = copy("ヒットなし: ");
        s.append(query);
        return note(s);
    }
    let mut out: Vec<String> = Vec::new();
    let mut i: usize = 0;
    assert(texts(out@) =~= seq![]);
    assert(hits@.take(0) =~= seq![]);
    while i < hits.len()
        invariant
            i <= hits@.len(),
            texts(out@) == all_hit_lines(hits@.take(i as int)),
        decreases hits@.len() - i,
    {
        let h: &SearchHit = &hits[i];
        let mut a: String = show_stamp(h.ts);
        a.append("  ");
        a.append(text_or(&h.project, "-"));
        a.append("  [");
        a.append(text_or(&h.role, "?"));
        a.append("]  ");
        a.append(one_line(h.snippet.as_str(), 100).as_str());
        let mut b: String = copy("        ↳ ");
        b.append(short(h.session_id.as_str()).as_str());
        b.append("#");
        match h.seq {
            Some(n) => b.append(show_i64(n).as_str()),
            None => b.append("-"),
        }
        let ghost before = out@;
        out.push(a);
        out.push(b);
        proof {
            assert(hits@.take(i + 1).drop_last() =~= hits@.take(i as int));
            assert(hits@.take(i + 1).last() == *h);
            assert(texts(out@) =~= texts(before) + hit_lines(*h));
        }
        i += 1;
    }
    assert(hits@.take(hits@.len() as int) =~= hits@);
    Printed::Lines(out)
}

/// The end of a session's line: its project in a column of `w`, its title, how many messages it
/// has, and its id.
pub open spec fn session_tail(s: SessionRow, w: int) -> Seq<char> {
    "  "@ + kind_letter(opt_text(s.kind)) + "  "@ + pad_behind(
        shortened(or_text(opt_text(s.project), "-"@), w),
        w,
    ) + "  "@ + shortened(or_text(opt_text(s.summary), s.session_id@), 50) + "  ("@
        + signed_decimal(s.message_count as int) + " msgs)  "@ + first_chars(s.session_id@, 8)
}

fn show_session_tail(s: &SessionRow, w: usize) -> (r: String)
    ensures
        r@ == session_tail(*s, w as int),
{
    let mut t: String = copy("  ");
    t.append(kind_short(&s.kind));
    t.append("  ");
    t.append(pad_right(truncate(text_or(&s.project, "-"), w).as_str(), w).as_str());
    t.append("  ");
    t.append(truncate(text_or(&s.summary, s.session_id.as_str()), 50).as_str());
    t.append("  (");
    t.append(show_i64(s.message_count).as_str());
    t.append(" msgs)  ");
    t.append(short(s.session_id.as_str()).as_str());
    t
}

/// When a session was last active, if that is known.
pub open spec fn session_time(s: SessionRow) -> Option<i64> {
    first_known(s.ended_at, s.started_at)
}

fn time_of(s: &SessionRow) -> (r: Option<i64>)
    ensures
        r == session_time(*s),
{
    match s.ended_at {
        Some(t) => Some(t),
        None => s.started_at,
    }
}

/// The lines of sessions.
pub open spec fn session_lines(v: Seq<SessionRow>) -> Seq<Seq<char>> {
    Seq::new(v.len(), |i: int| stamp_or_dash(session_time(v[i])) + session_tail(v[i], 18))
}

/// What a listing of sessions prints.
pub fn print_sessions(sessions: &Vec<SessionRow>) -> (r: Printed)
    ensures
        r@ == if sessions@.len() == 0 {
            PrintedView::Note(seq!["セッションなし（先に `ccc-sessions sync` を実行）"@])
        } else {
            PrintedView::Lines(session_lines(sessions@))
        },
{
    if sessions.len() == 0 {
        return note(copy("セッションなし（先に `ccc-sessions sync` を実行）"));
    }
    let mut out: Vec<String> = Vec::new();
    let mut i: usize = 0;
    while i < sessions.len()
        invariant
            i <= sessions@.len(),
            out@.len() == i,
            forall|k: int| 0 <= k < i ==> (#[trigger] out@[k])@ == session_lines(sessions@)[k],
        decreases sessions@.len() - i,
    {
        let mut a: String = show_stamp(time_of(&sessions[i]));
        a.append(show_session_tail(&sessions[i], 18).as_str());
        out.push(a);
        i += 1;
    }
    assert(texts(out@) =~= session_lines(sessions@));
    Printed::Lines(out)
}

/// The day and the hour of a session's last activity.
pub open spec fn day_and_hour(s: SessionRow) -> (Seq<char>, Seq<char>) {
    match session_time(s) {
        Some(ms) => match cut(stamp_text(ms as int), ' ') {
            Some(p) => p,
            None => (stamp_text(ms as int), seq![]),
        },
        None => ("-"@, "-"@),
    }
}

fn split_time(s: &SessionRow) -> (r: (String, String))
    ensures
        (r.0@, r.1@) == day_and_hour(*s),
{
    match time_of(s) {
        Some(ms) => {
            let f: String = fmt_ts(ms);
            match split_once(f.as_str(), ' ') {
                Some(p) => p,
                None => {
                    let e: String = String::new();
                    assert(e@ =~= seq![]);
                    (f, e)
                },
            }
        },
        None => (copy("-"), copy("-")),
    }
}

/// The lines of the latest activity: each session's, and before the first of a day that day's.
pub open spec fn recent_lines(v: Seq<SessionRow>) -> Seq<Seq<char>>
    decreases v.len(),
{
    if v.len() == 0 {
        seq![]
    } else {
        let before = recent_lines(v.drop_last());
        let (day, hour) = day_and_hour(v.last());
        let line = "  "@ + hour + session_tail(v.last(), 16);
        if day == last_day(v.drop_last()) {
            before.push(line)
        } else {
            before.push("\n📅 "@ + day).push(line)
        }
    }
}

/// The day of the last of the sessions; empty where there is none.
pub open spec fn last_day(v: Seq<SessionRow>) -> Seq<char> {
    if v.len() == 0 {
        seq![]
    } else {
        day_and_hour(v.last()).0
    }
}

/// What a summary of the last days prints.
pub fn print_recent(sessions: &Vec<SessionRow>, days: i64) -> (r: Printed)
    ensures
        r@ == if sessions@.len() == 0 {
            PrintedView::Note(
                seq!["直近 "@ + signed_decimal(days as int) + " 日の活動なし"@],
            )
        } else {
            PrintedView::Lines(
                seq![
                    "直近 "@ + signed_decimal(days as int) + " 日の活動: "@ + decimal(
                        sessions@.len(),
                    ) + " セッション"@,
                ] + recent_lines(sessions@),
            )
        },
{
    let mut head: String = copy("直近 ");
    head.append(show_i64(days).as_str());
    if sessions.len() == 0 {
        head.append(" 日の活動なし");
        return note(head);
    }
    head.append(" 日の活動: ");
    push_u64(&mut head, sessions.len() as u64);
    head.append(" セッション");
    let ghost first = head@;
    let mut out: Vec<String> = Vec::new();
    out.push(head);
    let mut day: String = String::new();
    let mut i: usize = 0;
    assert(texts(out@) =~= seq![first] + recent_lines(sessions@.take(0)));
    assert(day@ =~= last_day(sessions@.take(0)));
    while i < sessions.len()
        invariant
            i <= sessions@.len(),
            texts(out@) == seq![first] + recent_lines(sessions@.take(i as int)),
            day@ == last_day(sessions@.take(i as int)),
        decreases sessions@.len() - i,
    {
        let ghost before = out@;
        proof {
            assert(sessions@.take(i + 1).drop_last() =~= sessions@.take(i as int));
            assert(sessions@.take(i + 1).last() == sessions@[i as int]);
        }
        let (d, h): (String, String) = split_time(&sessions[i]);
        let new_day: bool = !same(d.as_str(), day.as_str());
        if new_day {
            let mut m: String = copy("\n📅 ");
            m.append(d.as_str());
            proof {
                lemma_texts_push(out@, m);
            }
            out.push(m);
        }
        let mut a: String = copy("  ");
        a.append(h.as_str());
        a.append(show_session_tail(&sessions[i], 16).as_str());
        proof {
            lemma_texts_push(out@, a);
        }
        out.push(a);
        day = d;
        i += 1;
        assert(texts(out@) =~= seq![first] + recent_lines(sessions@.take(i as int)));
    }
    assert(sessions@.take(sessions@.len() as int) =~= sessions@);
    Printed::Lines(out)
}

// ---------------------------------------------------------------- one session

/// The id that an argument names: what stands before the first `#`, which a search prints behind
/// it.
pub open spec fn id_key(arg: Seq<char>) -> Seq<char> {
    match cut(arg, '#') {
        Some((k, _)) => k,
        None => arg,
    }
}

/// Which session an argument means.
#[derive(Debug)]
pub enum Meant {
    /// It names none.
    NoId,
    /// No session has such an id.
    Nothing { key: String },
    One { id: String },
    /// Several sessions have an id that begins so.
    Several { key: String, ids: Vec<String> },
}

/// The id that an argument names.
pub fn show_key(arg: &str) -> (r: String)
    ensures
        r@ == id_key(arg@),
{
    match split_once(arg, '#') {
        Some((k, _)) => k,
        None => copy(arg),
    }
}

/// Which session is meant, given the ids that the archive holds for the key.
pub fn choose_session(key: String, ids: Vec<String>) -> (r: Meant)
    ensures
        r == if key@.len() == 0 {
            Meant::NoId
        } else if ids@.len() == 0 {
            Meant::Nothing { key }
        } else if ids@.len() == 1 {
            Meant::One { id: ids@[0] }
        } else {
            Meant::Several { key, ids }
        },
{
    if key.as_str().is_empty() {
        return Meant::NoId;
    }
    if ids.len() == 0 {
        return Meant::Nothing { key };
    }
    if ids.len() == 1 {
        let mut v: Vec<String> = ids;
        return Meant::One { id: v.pop().unwrap() };
    }
    Meant::Several { key, ids }
}

/// The lines of a message: nothing of thoughts, one line of a tool, and else who speaks and what.
/// Texts are cut at `cap`, what a tool gave back at `tool_cap`.
pub open spec fn message_lines(m: MessageRow, cap: int, tool_cap: int) -> Seq<Seq<char>> {
    let side = if m.is_sidechain {
        "↪"@
    } else {
        ""@
    };
    let kind = or_text(opt_text(m.msg_type), ""@);
    let body = body_of(opt_text(m.text));
    if kind == "thinking"@ {
        seq![]
    } else if kind == "tool_use"@ {
        seq!["  · "@ + side + "tool_use "@ + or_text(opt_text(m.tool_name), ""@)]
    } else if kind == "tool_result"@ {
        match body {
            Some(t) => seq!["  · "@ + side + "tool_result: "@ + flattened(t, tool_cap)],
            None => seq![],
        }
    } else {
        match body {
            Some(t) => seq![
                "\n▸ "@ + side + or_text(opt_text(m.role), "?"@) + ":"@,
                capped(t, cap),
            ],
            None => seq![],
        }
    }
}

fn show_message(m: &MessageRow, cap: usize, tool_cap: usize) -> (r: Vec<String>)
    ensures
        texts(r@) == message_lines(*m, cap as int, tool_cap as int),
{
    let side: &str = if m.is_sidechain {
        "↪"
    } else {
        ""
    };
    let kind: &str = text_or(&m.msg_type, "");
    let mut out: Vec<String> = Vec::new();
    if same(kind, "thinking") {
        assert(texts(out@) =~= message_lines(*m, cap as int, tool_cap as int));
        return out;
    }
    if same(kind, "tool_use") {
        let mut a: String = copy("  · ");
        a.append(side);
        a.append("tool_use ");
        a.append(text_or(&m.tool_name, ""));
        out.push(a);
        assert(texts(out@) =~= message_lines(*m, cap as int, tool_cap as int));
        return out;
    }
    if let Some(t) = body_text(&m.text) {
        if same(kind, "tool_result") {
            let mut a: String = copy("  · ");
            a.append(side);
            a.append("tool_result: ");
            a.append(one_line(t.as_str(), tool_cap).as_str());
            out.push(a);
        } else {
            let mut a: String = copy("\n▸ ");
            a.append(side);
            a.append(text_or(&m.role, "?"));
            a.append(":");
            out.push(a);
            out.push(truncate_body(t.as_str(), cap));
        }
    }
    assert(texts(out@) =~= message_lines(*m, cap as int, tool_cap as int));
    out
}

/// The lines of messages.
pub open spec fn all_message_lines(v: Seq<MessageRow>, cap: int, tool_cap: int) -> Seq<Seq<char>>
    decreases v.len(),
{
    if v.len() == 0 {
        seq![]
    } else {
        all_message_lines(v.drop_last(), cap, tool_cap) + message_lines(v.last(), cap, tool_cap)
    }
}

/// What a session's messages print: shortened, or in full.
pub fn print_messages(sid: &str, msgs: &Vec<MessageRow>, full: bool) -> (r: Vec<String>)
    ensures
        texts(r@) == seq!["# "@ + sid@ + "  ("@ + decimal(msgs@.len()) + " msgs)"@]
            + all_message_lines(
            msgs@,
            if full {
                usize::MAX as int
            } else {
                600
            },
            if full {
                usize::MAX as int
            } else {
                160
            },
        ),
{
    let cap: usize = if full {
        usize::MAX
    } else {
        600
    };
    let tool_cap: usize = if full {
        usize::MAX
    } else {
        160
    };
    let mut head: String = copy("# ");
    head.append(sid);
    head.append("  (");
    push_u64(&mut head, msgs.len() as u64);
    head.append(" msgs)");
    let ghost first = head@;
    let mut out: Vec<String> = Vec::new();
    out.push(head);
    assert(texts(out@) =~= seq![first] + all_message_lines(
        msgs@.take(0),
        cap as int,
        tool_cap as int,
    ));
    let mut i: usize = 0;
    while i < msgs.len()
        invariant
            i <= msgs@.len(),
            texts(out@) == seq![first] + all_message_lines(
                msgs@.take(i as int),
                cap as int,
                tool_cap as int,
            ),
        decreases msgs@.len() - i,
    {
        let mut more: Vec<String> = show_message(&msgs[i], cap, tool_cap);
        let ghost before = out@;
        let ghost added = more@;
        out.append(&mut more);
        proof {
            assert(msgs@.take(i + 1).drop_last() =~= msgs@.take(i as int));
            assert(msgs@.take(i + 1).last() == msgs@[i as int]);
            assert(texts(out@) =~= texts(before) + texts(added));
            assert(texts(out@) =~= seq![first] + all_message_lines(
                msgs@.take(i + 1),
                cap as int,
                tool_cap as int,
            ));
        }
        i += 1;
    }
    assert(msgs@.take(msgs@.len() as int) =~= msgs@);
    out
}

/// The transcript lines that are stored.
pub open spec fn stored_lines(v: Seq<MessageRow>) -> Seq<Seq<char>>
    decreases v.len(),
{
    if v.len() == 0 {
        seq![]
    } else {
        match v.last().raw {
            Some(t) => stored_lines(v.drop_last()).push(t@),
            None => stored_lines(v.drop_last()),
        }
    }
}

/// The transcript lines that are stored.
pub fn print_raw(msgs: &Vec<MessageRow>) -> (r: Vec<String>)
    ensures
        texts(r@) == stored_lines(msgs@),
{
    let mut out: Vec<String> = Vec::new();
    let mut i: usize = 0;
    assert(texts(out@) =~= stored_lines(msgs@.take(0)));
    while i < msgs.len()
        invariant
            i <= msgs@.len(),
            texts(out@) == stored_lines(msgs@.take(i as int)),
        decreases msgs@.len() - i,
    {
        proof {
            assert(msgs@.take(i + 1).drop_last() =~= msgs@.take(i as int));
            assert(msgs@.take(i + 1).last() == msgs@[i as int]);
        }
        if let Some(t) = &msgs[i].raw {
            let c: String = copy(t.as_str());
            proof {
                lemma_texts_push(out@, c);
            }
            out.push(c);
        }
        i += 1;
    }
    assert(msgs@.take(msgs@.len() as int) =~= msgs@);
    out
}

// ---------------------------------------------------------------- statistics

/// The time from the first activity to the last, or a dash.
pub open spec fn period(a: Option<i64>, b: Option<i64>) -> Seq<char> {
    match (a, b) {
        (Some(x), Some(y)) => stamp_text(x as int) + " 〜 "@ + stamp_text(y as int),
        _ => "-"@,
    }
}

/// `label=count` of each.
pub open spec fn count_words(v: Seq<LabeledCount>) -> Seq<Seq<char>> {
    Seq::new(
        v.len(),
        |i: int| or_text(opt_text(v[i].label), "?"@) + "="@ + signed_decimal(v[i].count as int),
    )
}

/// The lines of the projects.
pub open spec fn project_lines(v: Seq<LabeledCount>) -> Seq<Seq<char>> {
    Seq::new(
        v.len(),
        |i: int|
            "  "@ + pad_behind(or_text(opt_text(v[i].label), "-"@), 20) + " "@ + signed_decimal(
                v[i].count as int,
            ),
    )
}

/// What the statistics print.
pub open spec fn stats_lines(st: ArchiveStats) -> Seq<Seq<char>> {
    let first = seq![
        "セッション: "@ + signed_decimal(st.sessions as int) + "  (local "@ + signed_decimal(
            st.local_sessions as int,
        ) + " / remote "@ + signed_decimal(st.remote_sessions as int) + ")"@,
        "メッセージ: "@ + signed_decimal(st.messages as int),
        "メモリ: "@ + signed_decimal(st.memory_files as int) + " ファイル / "@ + signed_decimal(
            st.memory_versions as int,
        ) + " 版"@,
        "期間: "@ + period(st.first_activity, st.last_activity),
    ];
    let origins = if st.by_attribution@.len() == 0 {
        seq![]
    } else {
        seq!["帰属: "@ + joined(count_words(st.by_attribution@), "  "@)]
    };
    let projects = if st.top_projects@.len() == 0 {
        seq![]
    } else {
        seq!["プロジェクト上位:"@] + project_lines(st.top_projects@)
    };
    first + origins + projects
}

/// What the statistics print.
pub fn print_stats(st: &ArchiveStats) -> (r: Vec<String>)
    ensures
        texts(r@) == stats_lines(*st),
{
    let mut a: String = copy("セッション: ");
    a.append(show_i64(st.sessions).as_str());
    a.append("  (local ");
    a.append(show_i64(st.local_sessions).as_str());
    a.append(" / remote ");
    a.append(show_i64(st.remote_sessions).as_str());
    a.append(")");
    let mut b: String = copy("メッセージ: ");
    b.append(show_i64(st.messages).as_str());
    let mut c: String = copy("メモリ: ");
    c.append(show_i64(st.memory_files).as_str());
    c.append(" ファイル / ");
    c.append(show_i64(st.memory_versions).as_str());
    c.append(" 版");
    let mut d: String = copy("期間: ");
    match (st.first_activity, st.last_activity) {
        (Some(x), Some(y)) => {
            d.append(fmt_ts(x).as_str());
            d.append(" 〜 ");
            d.append(fmt_ts(y).as_str());
        },
        _ => {
            d.append("-");
        },
    }
    assert(d@ =~= "期間: "@ + period(st.first_activity, st.last_activity));
    let ghost first = seq![a@, b@, c@, d@];
    let mut out: Vec<String> = vec![a, b, c, d];
    assert(texts(out@) =~= first);
    let ghost origins: Seq<Seq<char>> = seq![];
    assert(texts(out@) =~= first + origins);
    if st.by_attribution.len() > 0 {
        let mut w: Vec<String> = Vec::new();
        let mut i: usize = 0;
        while i < st.by_attribution.len()
            invariant
                i <= st.by_attribution@.len(),
                w@.len() == i,
                forall|k: int|
                    0 <= k < i ==> (#[trigger] w@[k])@ == count_words(st.by_attribution@)[k],
            decreases st.by_attribution@.len() - i,
        {
            let mut t: String = copy(text_or(&st.by_attribution[i].label, "?"));
            t.append("=");
            t.append(show_i64(st.by_attribution[i].count).as_str());
            w.push(t);
            i += 1;
        }
        assert(texts(w@) =~= count_words(st.by_attribution@));
        let mut e: String = copy("帰属: ");
        e.append(join(&w, "  ").as_str());
        proof {
            lemma_texts_push(out@, e);
            origins = seq![e@];
        }
        out.push(e);
        assert(texts(out@) =~= first + origins);
    }
    let ghost so_far = texts(out@);
    if st.top_projects.len() > 0 {
        let t: String = copy("プロジェクト上位:");
        proof {
            lemma_texts_push(out@, t);
        }
        out.push(t);
        let mut i: usize = 0;
        assert(texts(out@) =~= so_far + seq!["プロジェクト上位:"@] + project_lines(
            st.top_projects@,
        ).take(0));
        while i < st.top_projects.len()
            invariant
                i <= st.top_projects@.len(),
                texts(out@) == so_far + seq!["プロジェクト上位:"@] + project_lines(
                    st.top_projects@,
                ).take(i as int),
            decreases st.top_projects@.len() - i,
        {
            let p: &LabeledCount = &st.top_projects[i];
            let mut t: String = copy("  ");
            t.append(pad_right(text_or(&p.label, "-"), 20).as_str());
            t.append(" ");
            t.append(show_i64(p.count).as_str());
            proof {
                lemma_texts_push(out@, t);
                let all = project_lines(st.top_projects@);
                assert(t@ == all[i as int]);
                assert(all.take(i + 1) =~= all.take(i as int).push(t@));
            }
            out.push(t);
            i += 1;
            assert(texts(out@) =~= so_far + seq!["プロジェクト上位:"@] + project_lines(
                st.top_projects@,
            ).take(i as int));
        }
        assert(project_lines(st.top_projects@).take(st.top_projects@.len() as int) =~= project_lines(
            st.top_projects@,
        ));
    }
    assert(texts(out@) =~= stats_lines(*st));
    out
}

// ---------------------------------------------------------------- what is printed

/// The archive and what pulls bring lie side by side below the data directory.
pub proof fn archive_lies_below_the_data(
    home: &Option<String>,
    dev: &Option<String>,
    db: Result<String, NoHome>,
    staged: Result<String, NoHome>,
)
    requires
        call_ensures(db_path, (home, dev), db),
        call_ensures(staging_root, (home, dev), staged),
    ensures
        home matches Some(h) ==> dev is None ==> (db matches Ok(p) && p@ == path_join(
            path_join(path_join(h@, ".ccc"@), "archive"@),
            "sessions.db"@,
        )),
        home matches Some(h) ==> dev is None ==> (staged matches Ok(p) && p@ == path_join(
            path_join(path_join(h@, ".ccc"@), "archive"@),
            "pulled"@,
        )),
        home is None ==> db is Err && staged is Err,
{
}

/// A day back is a day of milliseconds back.
pub proof fn each_day_is_a_day_back(now: i64, days: i64)
    requires
        days < i64::MAX,
    ensures
        days_before(now, 0) == now,
        days_before(now, (days + 1) as i64) == days_before(now, days) - 24 * 60 * 60 * 1000,
{
}

/// Where something runs and whom it belongs to is one letter each, and a dot where it is not known.
pub proof fn letters_tell_kind_and_scope(t: Option<Seq<char>>)
    ensures
        kind_letter(t) == "L"@ <==> t == Some("local"@),
        kind_letter(t) == "R"@ <==> t == Some("remote"@),
        t != Some("local"@) && t != Some("remote"@) ==> kind_letter(t) == "·"@,
        scope_letter(t) == "U"@ <==> t == Some("user"@),
        scope_letter(t) == "P"@ <==> t == Some("project"@),
        t != Some("user"@) && t != Some("project"@) ==> scope_letter(t) == "·"@,
{
    reveal_strlit("L");
    reveal_strlit("R");
    reveal_strlit("U");
    reveal_strlit("P");
    reveal_strlit("·");
    reveal_strlit("local");
    reveal_strlit("remote");
    reveal_strlit("user");
    reveal_strlit("project");
    assert("L"@[0] == 'L' && "R"@[0] == 'R' && "U"@[0] == 'U' && "P"@[0] == 'P' && "·"@[0] == '·');
    assert("local"@.len() == 5 && "remote"@.len() == 6 && "user"@.len() == 4 && "project"@.len() == 7);
}

/// A text that is too long keeps its front and shows that something is missing; any other stays.
pub proof fn front_is_kept(s: Seq<char>, max: int)
    requires
        max >= 1,
    ensures
        s.len() <= max ==> shortened(s, max) == s,
        s.len() > max ==> shortened(s, max).len() == max && shortened(s, max).take(max - 1) == s.take(
            max - 1,
        ) && shortened(s, max).last() == '…',
        first_chars(s, max).is_prefix_of(s),
        s.len() <= max ==> first_chars(s, max) == s,
        s.len() > max ==> first_chars(s, max).len() == max,
{
    reveal_strlit("…");
    if s.len() > max {
        assert(shortened(s, max).take(max - 1) =~= s.take(max - 1));
        assert(first_chars(s, max) =~= s.subrange(0, max));
    } else {
        assert(s.subrange(0, s.len() as int) =~= s);
    }
}

/// An id is shown by its first eight characters, a digest too, and no digest as a dash.
pub proof fn ids_are_shown_by_eight(id: &str, hash: &Option<String>, r: String, l: String)
    requires
        call_ensures(short, (id,), r),
        call_ensures(short_hash, (hash,), l),
    ensures
        id@.len() >= 8 ==> r@ == id@.take(8),
        id@.len() < 8 ==> r@ == id@,
        hash matches Some(h) ==> (h@.len() >= 8 ==> l@ == h@.take(8)) && (h@.len() < 8 ==> l@ == h@),
        hash is None ==> l@ == "-"@,
{
    assert(id@.take(id@.len() as int) =~= id@);
    if let Some(h) = hash {
        assert(h@.take(h@.len() as int) =~= h@);
    }
}

/// A text on one line holds all its words, where it fits.
pub proof fn one_line_holds_the_words(s: Seq<char>, max: int, i: int)
    requires
        0 <= i < words_of(s).len(),
        joined(words_of(s), " "@).len() <= max,
    ensures
        exists|a: Seq<char>, b: Seq<char>| flattened(s, max) == #[trigger] (a + words_of(s)[i] + b),
{
    joined_holds_each(words_of(s), " "@, i);
}

/// A body that is too long keeps its front and tells how many characters are missing; any other stays.
pub proof fn body_tells_what_is_missing(s: Seq<char>, cap: int)
    requires
        0 <= cap,
    ensures
        s.len() <= cap ==> capped(s, cap) == s,
        s.len() > cap ==> capped(s, cap) == s.take(cap) + ("…（+"@ + decimal((s.len() - cap) as nat)
            + "字）"@),
{
    if s.len() > cap {
        assert(capped(s, cap) =~= s.take(cap) + ("…（+"@ + decimal((s.len() - cap) as nat) + "字）"@));
    }
}

/// A body is shown without the white space around it, and one of nothing else not at all.
pub proof fn body_is_shown_without_its_margins(before: Seq<char>, s: Seq<char>, after: Seq<char>)
    requires
        forall|k: int| 0 <= k < before.len() ==> white(#[trigger] before[k]),
        forall|k: int| 0 <= k < after.len() ==> white(#[trigger] after[k]),
        s.len() > 0,
        !white(s[0]),
        !white(s.last()),
    ensures
        body_of(Some(before + s + after)) == Some(s),
        body_of(Some(before)) is None,
        body_of(None) is None,
{
    trimming_takes_the_white_ends(before, s, after);
}

/// Every hit is printed, in order, on two lines: when and where it is and what it says, then its session
/// and place.
pub proof fn hit_is_printed(
    v: Seq<SearchHit>,
    h: SearchHit,
    ts: i64,
    project: String,
    role: String,
    seq: i64,
)
    requires
        h.ts == Some(ts),
        h.project == Some(project),
        h.role == Some(role),
        h.seq == Some(seq),
        h.session_id@.len() >= 8,
    ensures
        all_hit_lines(v.push(h)) == all_hit_lines(v).push(
            stamp_text(ts as int) + "  "@ + project@ + "  ["@ + role@ + "]  "@ + flattened(h.snippet@, 100),
        ).push("        ↳ "@ + h.session_id@.take(8) + "#"@ + signed_decimal(seq as int)),
        all_hit_lines(Seq::empty()).len() == 0,
{
    assert(v.push(h).drop_last() =~= v);
    assert(h.session_id@.take(h.session_id@.len() as int) =~= h.session_id@);
    assert(all_hit_lines(v.push(h)) =~= all_hit_lines(v).push(hit_lines(h)[0]).push(hit_lines(h)[1]));
}

/// What is not known of a hit is a dash, and its role a question mark.
pub proof fn unknown_is_a_dash(h: SearchHit)
    requires
        h.ts is None,
        h.project is None,
        h.role is None,
        h.seq is None,
    ensures
        hit_lines(h)[0] == "-"@ + "  "@ + "-"@ + "  ["@ + "?"@ + "]  "@ + flattened(h.snippet@, 100),
        hit_lines(h)[1] == "        ↳ "@ + first_chars(h.session_id@, 8) + "#"@ + "-"@,
{
}

/// A session has one line: when it ended, or began where it goes on, and behind it what tells it: a
/// summary, or its id where it has none, how many messages it has, and the front of its id.
pub proof fn session_has_a_line(v: Seq<SessionRow>, i: int)
    requires
        0 <= i < v.len(),
        v[i].session_id@.len() >= 8,
    ensures
        session_lines(v).len() == v.len(),
        v[i].ended_at matches Some(t) ==> stamp_text(t as int).is_prefix_of(session_lines(v)[i]),
        v[i].ended_at is None ==> (v[i].started_at matches Some(t) ==> stamp_text(
            t as int,
        ).is_prefix_of(session_lines(v)[i])),
        v[i].ended_at is None && v[i].started_at is None ==> "-"@.is_prefix_of(session_lines(v)[i]),
        ({
            let what = match v[i].summary {
                Some(t) => t@,
                None => v[i].session_id@,
            };
            (shortened(what, 50) + "  ("@ + signed_decimal(v[i].message_count as int) + " msgs)  "@
                + v[i].session_id@.take(8)).is_suffix_of(session_lines(v)[i])
        }),
{
    let s = v[i];
    let line = session_lines(v)[i];
    let head = stamp_or_dash(session_time(s));
    assert(line == head + session_tail(s, 18));
    assert(line.subrange(0, head.len() as int) =~= head);
    assert(s.session_id@.take(s.session_id@.len() as int) =~= s.session_id@);
    let what = match s.summary {
        Some(t) => t@,
        None => s.session_id@,
    };
    let front = "  "@ + kind_letter(opt_text(s.kind)) + "  "@ + pad_behind(
        shortened(or_text(opt_text(s.project), "-"@), 18),
        18,
    ) + "  "@;
    let end = shortened(what, 50) + "  ("@ + signed_decimal(s.message_count as int) + " msgs)  "@
        + s.session_id@.take(8);
    assert(session_tail(s, 18) =~= front + end);
    assert(line =~= head + front + end);
    assert(line.subrange(line.len() - end.len(), line.len() as int) =~= end);
}

/// Activity goes day by day: a session's line follows the one before it, with the day above it where that
/// is another than before; day and hour together are its time.
pub proof fn days_stand_above_their_sessions(v: Seq<SessionRow>, s: SessionRow)
    ensures
        ({
            let (day, hour) = day_and_hour(s);
            let line = "  "@ + hour + session_tail(s, 16);
            &&& v.len() > 0 && day_and_hour(v.last()).0 == day ==> recent_lines(v.push(s)) == recent_lines(
                v,
            ).push(line)
            &&& v.len() > 0 && day_and_hour(v.last()).0 != day ==> recent_lines(v.push(s)) == recent_lines(
                v,
            ).push("\n📅 "@ + day).push(line)
            &&& v.len() == 0 && day.len() > 0 ==> recent_lines(v.push(s)) == seq!["\n📅 "@ + day, line]
            &&& session_time(s) matches Some(t) ==> stamp_text(t as int).contains(' ') ==> day.push(' ')
                + hour == stamp_text(t as int) && !day.contains(' ')
            &&& session_time(s) is None ==> day == "-"@ && hour == "-"@
        }),
{
    assert(v.push(s).drop_last() =~= v);
    let (day, hour) = day_and_hour(s);
    if v.len() == 0 && day.len() > 0 {
        assert(recent_lines(v) =~= Seq::<Seq<char>>::empty());
        assert(last_day(v).len() == 0);
        assert(v.push(s).last() == s);
        assert(recent_lines(v.push(s)) =~= seq![
            "\n📅 "@ + day,
            "  "@ + hour + session_tail(s, 16),
        ]);
    }
    if let Some(t) = session_time(s) {
        let x = stamp_text(t as int);
        lemma_index_of(x, ' ');
        if x.contains(' ') {
            let k = choose|k: int| 0 <= k < x.len() && x[k] == ' ';
            assert(index_of(x, ' ') < x.len());
            assert(day.push(' ') + hour =~= x);
            if day.contains(' ') {
                let j = choose|j: int| 0 <= j < day.len() && day[j] == ' ';
                assert(x[j] == ' ');
            }
        }
    }
}

/// What is asked for is the id in front of a number sign, or all of it.
pub proof fn id_stands_in_front(id: Seq<char>, place: Seq<char>)
    requires
        !id.contains('#'),
    ensures
        id_key(id.push('#') + place) == id,
        id_key(id) == id,
{
    let s = id.push('#') + place;
    assert forall|k: int| 0 <= k < id.len() implies #[trigger] s[k] != '#' && id[k] != '#' by {
        assert(s[k] == id[k]);
        assert(id.contains(id[k]));
    }
    lemma_index_is(s, '#', id.len() as int);
    lemma_index_is(id, '#', id.len() as int);
    assert(s.take(id.len() as int) =~= id);
}

/// A session is shown exactly where one id is meant; with none or several nothing is.
pub proof fn one_session_is_meant(key: String, ids: Vec<String>, r: Meant)
    requires
        call_ensures(choose_session, (key, ids), r),
    ensures
        key@.len() == 0 ==> r is NoId,
        key@.len() > 0 && ids@.len() == 0 ==> r == (Meant::Nothing { key }),
        key@.len() > 0 && ids@.len() == 1 ==> r == (Meant::One { id: ids@[0] }),
        key@.len() > 0 && ids@.len() > 1 ==> r == (Meant::Several { key, ids }),
{
}

/// A message that says something is printed whole or cut, under who said it; what an agent thinks is not
/// printed, of a tool's use only its name and of its result one line.
pub proof fn message_is_printed_by_its_kind(m: MessageRow, t: String, cap: int, tool_cap: int)
    requires
        m.text == Some(t),
        !m.is_sidechain,
        t@.len() > 0,
        !white(t@[0]),
        !white(t@.last()),
    ensures
        opt_text(m.msg_type) == Some("thinking"@) ==> message_lines(m, cap, tool_cap).len() == 0,
        opt_text(m.msg_type) == Some("tool_use"@) ==> (m.tool_name matches Some(n) ==> message_lines(
            m,
            cap,
            tool_cap,
        ) == seq!["  · tool_use "@ + n@]),
        opt_text(m.msg_type) == Some("tool_result"@) ==> message_lines(m, cap, tool_cap) == seq![
            "  · tool_result: "@ + flattened(t@, tool_cap),
        ],
        m.msg_type is None || (m.msg_type->0@ != "thinking"@ && m.msg_type->0@ != "tool_use"@
            && m.msg_type->0@ != "tool_result"@) ==> message_lines(m, cap, tool_cap).len() == 2
            && message_lines(m, cap, tool_cap)[1] == capped(t@, cap) && (m.role matches Some(w)
            ==> message_lines(m, cap, tool_cap)[0] == "\n▸ "@ + w@ + ":"@),
{
    reveal_strlit("");
    reveal_strlit("thinking");
    reveal_strlit("tool_use");
    reveal_strlit("tool_result");
    reveal_strlit("  · ");
    reveal_strlit("tool_use ");
    reveal_strlit("  · tool_use ");
    reveal_strlit("tool_result: ");
    reveal_strlit("  · tool_result: ");
    let e = Seq::<char>::empty();
    assert(e + t@ + e =~= t@);
    trimming_takes_the_white_ends(e, t@, e);
    assert("thinking"@.len() == 8 && "tool_use"@.len() == 8 && "tool_result"@.len() == 11);
    assert("thinking"@[1] == 'h' && "tool_use"@[1] == 'o');
    assert(""@ =~= e);
    assert("  · "@ + ""@ + "tool_use "@ =~= "  · tool_use "@);
    assert("  · "@ + ""@ + "tool_result: "@ =~= "  · tool_result: "@);
    assert("\n▸ "@ + ""@ =~= "\n▸ "@);
}

/// Messages are printed one after the other, and stored lines too, those that have one.
pub proof fn messages_are_printed_in_order(v: Seq<MessageRow>, m: MessageRow, cap: int, tool_cap: int)
    ensures
        all_message_lines(v.push(m), cap, tool_cap) == all_message_lines(v, cap, tool_cap) + message_lines(
            m,
            cap,
            tool_cap,
        ),
        all_message_lines(Seq::empty(), cap, tool_cap).len() == 0,
        m.raw matches Some(t) ==> stored_lines(v.push(m)) == stored_lines(v).push(t@),
        m.raw is None ==> stored_lines(v.push(m)) == stored_lines(v),
        stored_lines(Seq::empty()).len() == 0,
{
    assert(v.push(m).drop_last() =~= v);
}

/// A period is known where both its ends are.
pub proof fn period_needs_both_ends(a: Option<i64>, b: Option<i64>, x: i64, y: i64)
    ensures
        period(Some(x), Some(y)) == stamp_text(x as int) + " 〜 "@ + stamp_text(y as int),
        a is None || b is None ==> period(a, b) == "-"@,
{
}

/// The figures are printed line by line: sessions by where they ran, messages, memory files, the period,
/// then where they belong and the projects, each where there is any.
pub proof fn figures_have_their_lines(st: ArchiveStats, i: int)
    requires
        0 <= i < st.top_projects@.len(),
    ensures
        ({
            let l = stats_lines(st);
            let n = |x: i64| signed_decimal(x as int);
            let more = if st.by_attribution@.len() > 0 {
                1int
            } else {
                0
            };
            let p = st.top_projects@[i];
            &&& l.len() == 5 + more + st.top_projects@.len()
            &&& l[0] == "セッション: "@ + n(st.sessions) + "  (local "@ + n(st.local_sessions) + " / remote "@
                + n(st.remote_sessions) + ")"@
            &&& l[1] == "メッセージ: "@ + n(st.messages)
            &&& l[2] == "メモリ: "@ + n(st.memory_files) + " ファイル / "@ + n(st.memory_versions) + " 版"@
            &&& l[3] == "期間: "@ + period(st.first_activity, st.last_activity)
            &&& l[4 + more] == "プロジェクト上位:"@
            &&& l[5 + more + i] == "  "@ + pad_behind(
                match p.label {
                    Some(t) => t@,
                    None => "-"@,
                },
                20,
            ) + " "@ + n(p.count)
        }),
        forall|k: int|
            0 <= k < st.by_attribution@.len() ==> #[trigger] count_words(st.by_attribution@)[k]
                == match st.by_attribution@[k].label {
                Some(t) => t@,
                None => "?"@,
            } + "="@ + signed_decimal(st.by_attribution@[k].count as int),
{
}

} // verus!
