//! What a hook tells of an instance and its session.

use crate::archive::compress::{
    compressed, compressed_with, encode_str, encode_str_with_dict, CodecError, LEVEL,
};
use crate::archive::ingest::dict_of;
use crate::archive::transcript::{derive_project, project_of};
use crate::json::{compact, to_text, Json};
use crate::text::{copy, copy_first, copy_opt, first_of, opt_text};
use vstd::prelude::*;
use vstd::utf8::encode_utf8;

verus! {

/// What is known of an instance when its hook arrives.
pub struct InstanceMeta {
    pub instance_id: String,
    pub name: Option<String>,
    /// `local` or `remote`.
    pub kind: Option<String>,
    pub host_alias: Option<String>,
    pub agent_profile: Option<String>,
    pub directory: Option<String>,
}

/// The stored form of an event's payload.
pub open spec fn payload_blob(dict: Option<(Seq<u8>, i32)>, text: Seq<char>) -> Option<Seq<u8>> {
    match dict {
        Some((d, level)) => compressed_with(d, level, encode_utf8(text)),
        None => compressed(encode_utf8(text), LEVEL),
    }
}

/// The stored form of an event's payload: its compact text, compressed with the dictionary in
/// use.
pub fn encode_payload(
    payload: &Json,
    dict: Option<&zstd::dict::EncoderDictionary<'static>>,
) -> (r: Result<Vec<u8>, CodecError>)
    ensures
        match r {
            Ok(z) => payload_blob(dict_of(dict), compact(payload.view())) == Some(z@),
            Err(e) => e == CodecError::Compress && payload_blob(
                dict_of(dict),
                compact(payload.view()),
            ) is None,
        },
{
    let text: String = to_text(payload);
    match dict {
        Some(d) => encode_str_with_dict(text.as_str(), d),
        None => encode_str(text.as_str()),
    }
}

/// The span of an instance's observed activity.
#[derive(Clone, Copy, PartialEq, Eq, Debug, Structural)]
pub struct Seen {
    pub first: Option<i64>,
    pub last: Option<i64>,
}

/// The span with one more event in it.
pub open spec fn seen_at(s: Seen, t: i64) -> Seen {
    Seen {
        first: Some(
            match s.first {
                Some(f) => if f < t {
                    f
                } else {
                    t
                },
                None => t,
            },
        ),
        last: Some(
            match s.last {
                Some(l) => if l > t {
                    l
                } else {
                    t
                },
                None => t,
            },
        ),
    }
}

/// The span of an instance's activity with one more event in it.
pub fn record_event(s: Seen, ts_ms: i64) -> (r: Seen)
    ensures
        r == seen_at(s, ts_ms),
{
    let first: i64 = match s.first {
        Some(f) => if f < ts_ms {
            f
        } else {
            ts_ms
        },
        None => ts_ms,
    };
    let last: i64 = match s.last {
        Some(l) => if l > ts_ms {
            l
        } else {
            ts_ms
        },
        None => ts_ms,
    };
    Seen { first: Some(first), last: Some(last) }
}

/// The span holds every event, in whatever order they arrive.
pub proof fn span_holds_every_event(s: Seen, t: i64, u: i64)
    ensures
        seen_at(seen_at(s, t), u) == seen_at(seen_at(s, u), t),
        seen_at(s, t).first->0 <= t <= seen_at(s, t).last->0,
        s.first is Some ==> seen_at(s, t).first->0 <= s.first->0,
        s.last is Some ==> s.last->0 <= seen_at(s, t).last->0,
{
}

/// What is stored of an instance.
pub struct InstanceRow {
    pub name: Option<String>,
    pub kind: Option<String>,
    pub host_alias: Option<String>,
    pub agent_profile: Option<String>,
    pub directory: Option<String>,
    pub seen: Seen,
}

/// What an instance is known as.
pub struct InstanceView {
    pub name: Option<Seq<char>>,
    pub kind: Option<Seq<char>>,
    pub host_alias: Option<Seq<char>>,
    pub agent_profile: Option<Seq<char>>,
    pub directory: Option<Seq<char>>,
    pub seen: Seen,
}

impl InstanceRow {
    pub open spec fn view(&self) -> InstanceView {
        InstanceView {
            name: opt_text(self.name),
            kind: opt_text(self.kind),
            host_alias: opt_text(self.host_alias),
            agent_profile: opt_text(self.agent_profile),
            directory: opt_text(self.directory),
            seen: self.seen,
        }
    }
}

/// What is stored of a session from hooks and pulls.
pub struct SessionOrigin {
    pub instance_id: Option<String>,
    pub instance_name: Option<String>,
    pub attribution: Option<String>,
    pub kind: Option<String>,
    pub host_alias: Option<String>,
    pub agent_profile: Option<String>,
    pub source: Option<String>,
    pub started_at: Option<i64>,
    pub cwd: Option<String>,
    pub project: Option<String>,
}

/// What a session is known as.
pub struct SessionOriginView {
    pub instance_id: Option<Seq<char>>,
    pub instance_name: Option<Seq<char>>,
    pub attribution: Option<Seq<char>>,
    pub kind: Option<Seq<char>>,
    pub host_alias: Option<Seq<char>>,
    pub agent_profile: Option<Seq<char>>,
    pub source: Option<Seq<char>>,
    pub started_at: Option<i64>,
    pub cwd: Option<Seq<char>>,
    pub project: Option<Seq<char>>,
}

impl SessionOrigin {
    pub open spec fn view(&self) -> SessionOriginView {
        SessionOriginView {
            instance_id: opt_text(self.instance_id),
            instance_name: opt_text(self.instance_name),
            attribution: opt_text(self.attribution),
            kind: opt_text(self.kind),
            host_alias: opt_text(self.host_alias),
            agent_profile: opt_text(self.agent_profile),
            source: opt_text(self.source),
            started_at: self.started_at,
            cwd: opt_text(self.cwd),
            project: opt_text(self.project),
        }
    }
}

/// What is stored of an instance when one of its sessions starts: what the hook says counts, what
/// it does not say stays. The first event of an instance that is not yet stored is this one.
pub open spec fn started_instance(old: Option<InstanceView>, m: InstanceMeta, t: i64) -> InstanceView {
    match old {
        None => InstanceView {
            name: opt_text(m.name),
            kind: opt_text(m.kind),
            host_alias: opt_text(m.host_alias),
            agent_profile: opt_text(m.agent_profile),
            directory: opt_text(m.directory),
            seen: Seen { first: Some(t), last: Some(t) },
        },
        Some(o) => InstanceView {
            name: first_of(opt_text(m.name), o.name),
            kind: first_of(opt_text(m.kind), o.kind),
            host_alias: first_of(opt_text(m.host_alias), o.host_alias),
            agent_profile: first_of(opt_text(m.agent_profile), o.agent_profile),
            directory: first_of(opt_text(m.directory), o.directory),
            seen: Seen { first: o.seen.first, last: seen_at(o.seen, t).last },
        },
    }
}

/// What is stored of a session when a hook tells that it starts: the hook settles its origin;
/// when and where it started stays as it is known.
pub open spec fn started_session(
    old: Option<SessionOriginView>,
    m: InstanceMeta,
    source: Option<Seq<char>>,
    t: i64,
) -> SessionOriginView {
    let project = match m.directory {
        Some(d) => project_of(d@),
        None => None,
    };
    match old {
        None => SessionOriginView {
            instance_id: Some(m.instance_id@),
            instance_name: opt_text(m.name),
            attribution: Some("hook"@),
            kind: opt_text(m.kind),
            host_alias: opt_text(m.host_alias),
            agent_profile: opt_text(m.agent_profile),
            source,
            started_at: Some(t),
            cwd: opt_text(m.directory),
            project,
        },
        Some(o) => SessionOriginView {
            instance_id: Some(m.instance_id@),
            instance_name: first_of(opt_text(m.name), o.instance_name),
            attribution: Some("hook"@),
            kind: first_of(opt_text(m.kind), o.kind),
            host_alias: first_of(opt_text(m.host_alias), o.host_alias),
            agent_profile: first_of(opt_text(m.agent_profile), o.agent_profile),
            source: first_of(source, o.source),
            started_at: if o.started_at is Some {
                o.started_at
            } else {
                Some(t)
            },
            cwd: first_of(o.cwd, opt_text(m.directory)),
            project: first_of(o.project, project),
        },
    }
}

/// After a hook, a session's origin is the hook's, and the directory it started in is kept.
pub proof fn hook_settles_the_origin(
    o: SessionOriginView,
    m: InstanceMeta,
    source: Option<Seq<char>>,
    t: i64,
)
    ensures
        started_session(Some(o), m, source, t).attribution == Some("hook"@),
        started_session(Some(o), m, source, t).instance_id == Some(m.instance_id@),
        o.cwd is Some ==> started_session(Some(o), m, source, t).cwd == o.cwd,
        o.started_at is Some ==> started_session(Some(o), m, source, t).started_at == o.started_at,
{
}

/// What is stored of an instance when one of its sessions starts.
pub fn record_instance_start(old: &Option<InstanceRow>, m: &InstanceMeta, ts_ms: i64) -> (r:
    InstanceRow)
    ensures
        r.view() == started_instance(
            match old {
                Some(o) => Some(o.view()),
                None => None,
            },
            *m,
            ts_ms,
        ),
{
    match old {
        None => InstanceRow {
            name: copy_opt(&m.name),
            kind: copy_opt(&m.kind),
            host_alias: copy_opt(&m.host_alias),
            agent_profile: copy_opt(&m.agent_profile),
            directory: copy_opt(&m.directory),
            seen: Seen { first: Some(ts_ms), last: Some(ts_ms) },
        },
        Some(o) => {
            let next: Seen = record_event(o.seen, ts_ms);
            InstanceRow {
                name: copy_first(&m.name, &o.name),
                kind: copy_first(&m.kind, &o.kind),
                host_alias: copy_first(&m.host_alias, &o.host_alias),
                agent_profile: copy_first(&m.agent_profile, &o.agent_profile),
                directory: copy_first(&m.directory, &o.directory),
                seen: Seen { first: o.seen.first, last: next.last },
            }
        },
    }
}

/// What is stored of a session when a hook tells that it starts.
pub fn record_session_start(
    old: &Option<SessionOrigin>,
    m: &InstanceMeta,
    source: &Option<String>,
    ts_ms: i64,
) -> (r: SessionOrigin)
    ensures
        r.view() == started_session(
            match old {
                Some(o) => Some(o.view()),
                None => None,
            },
            *m,
            opt_text(*source),
            ts_ms,
        ),
{
    let project: Option<String> = match &m.directory {
        Some(d) => derive_project(d.as_str()),
        None => None,
    };
    match old {
        None => SessionOrigin {
            instance_id: Some(copy(m.instance_id.as_str())),
            instance_name: copy_opt(&m.name),
            attribution: Some(copy("hook")),
            kind: copy_opt(&m.kind),
            host_alias: copy_opt(&m.host_alias),
            agent_profile: copy_opt(&m.agent_profile),
            source: copy_opt(source),
            started_at: Some(ts_ms),
            cwd: copy_opt(&m.directory),
            project,
        },
        Some(o) => SessionOrigin {
            instance_id: Some(copy(m.instance_id.as_str())),
            instance_name: copy_first(&m.name, &o.instance_name),
            attribution: Some(copy("hook")),
            kind: copy_first(&m.kind, &o.kind),
            host_alias: copy_first(&m.host_alias, &o.host_alias),
            agent_profile: copy_first(&m.agent_profile, &o.agent_profile),
            source: copy_first(source, &o.source),
            started_at: match o.started_at {
                Some(t) => Some(t),
                None => Some(ts_ms),
            },
            cwd: copy_first(&o.cwd, &m.directory),
            project: copy_first(&o.project, &project),
        },
    }
}

/// What a start tells of an instance replaces what was known, and what it does not tell stays; the
/// instance was first seen when it was, and last now, unless it was seen later already.
pub proof fn start_updates_the_instance(old: Option<InstanceView>, m: InstanceMeta, t: i64)
    ensures
        ({
            let r = started_instance(old, m, t);
            &&& m.name matches Some(x) ==> r.name == Some(x@)
            &&& m.kind matches Some(x) ==> r.kind == Some(x@)
            &&& m.host_alias matches Some(x) ==> r.host_alias == Some(x@)
            &&& m.agent_profile matches Some(x) ==> r.agent_profile == Some(x@)
            &&& m.directory matches Some(x) ==> r.directory == Some(x@)
            &&& old matches Some(o) ==> {
                &&& m.name is None ==> r.name == o.name
                &&& m.kind is None ==> r.kind == o.kind
                &&& m.host_alias is None ==> r.host_alias == o.host_alias
                &&& m.agent_profile is None ==> r.agent_profile == o.agent_profile
                &&& m.directory is None ==> r.directory == o.directory
                &&& r.seen.first == o.seen.first
                &&& r.seen.last is Some && r.seen.last->0 >= t
                &&& r.seen.last == Some(t) || r.seen.last == o.seen.last
            }
            &&& old is None ==> r.seen.first == Some(t) && r.seen.last == Some(t)
        }),
{
}

/// What a start tells of a session replaces what was known of its instance; where and when it started
/// stay what they were, and are what the start tells where nothing was known.
pub proof fn start_updates_the_session(
    old: Option<SessionOriginView>,
    m: InstanceMeta,
    source: Option<Seq<char>>,
    t: i64,
)
    ensures
        ({
            let r = started_session(old, m, source, t);
            &&& r.instance_id == Some(m.instance_id@)
            &&& r.attribution == Some("hook"@)
            &&& m.name matches Some(x) ==> r.instance_name == Some(x@)
            &&& m.kind matches Some(x) ==> r.kind == Some(x@)
            &&& m.host_alias matches Some(x) ==> r.host_alias == Some(x@)
            &&& m.agent_profile matches Some(x) ==> r.agent_profile == Some(x@)
            &&& source is Some ==> r.source == source
            &&& old matches Some(o) ==> {
                &&& m.name is None ==> r.instance_name == o.instance_name
                &&& m.kind is None ==> r.kind == o.kind
                &&& m.host_alias is None ==> r.host_alias == o.host_alias
                &&& m.agent_profile is None ==> r.agent_profile == o.agent_profile
                &&& source is None ==> r.source == o.source
                &&& o.started_at is Some ==> r.started_at == o.started_at
                &&& o.cwd is Some ==> r.cwd == o.cwd
                &&& o.project is Some ==> r.project == o.project
            }
            &&& (old is None || old->0.started_at is None) ==> r.started_at == Some(t)
            &&& (old is None || old->0.cwd is None) ==> r.cwd == opt_text(m.directory)
            &&& (old is None || old->0.project is None) && m.directory is Some ==> r.project
                == project_of(m.directory->0@)
        }),
{
}

/// A span that holds an event begins and ends at an event: it grows to the event's time and no
/// further.
pub proof fn span_grows_to_the_event(s: Seen, t: i64)
    ensures
        seen_at(s, t).first == Some(t) || seen_at(s, t).first == s.first,
        seen_at(s, t).last == Some(t) || seen_at(s, t).last == s.last,
        s.first is Some && s.first->0 <= t ==> seen_at(s, t).first == s.first,
        s.last is Some && s.last->0 >= t ==> seen_at(s, t).last == s.last,
{
}

/// A payload is stored with the dictionary where there is one, and without where there is none.
pub proof fn payload_is_stored_with_its_dictionary(dict: Seq<u8>, level: i32, text: Seq<char>)
    ensures
        payload_blob(Some((dict, level)), text) == compressed_with(dict, level, encode_utf8(text)),
        payload_blob(None, text) == compressed(encode_utf8(text), LEVEL),
{
}

} // verus!
