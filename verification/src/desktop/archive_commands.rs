//! What the commands that read the archive ask and answer.

use crate::archive::memory::{
    instance_rows, list_memory_for_instance, lists, query_pattern, MemoryEntry, MemoryVersion,
};
use crate::desktop::service::SYNC_INTERVAL_SECS;
use crate::text::{
    chars_of, opt_text, string_of, trim, trimmed, trimming_takes_the_white_ends, white,
};
use vstd::prelude::*;

verus! {

/// The connection that the commands read through; none where the database could not be opened.
pub struct ArchiveDb<C>(pub Option<C>);

impl<C> ArchiveDb<C> {
    /// The connection, if the database could be opened.
    pub fn open(opened: Option<C>) -> (r: ArchiveDb<C>)
        ensures
            r == ArchiveDb(opened),
    {
        ArchiveDb(opened)
    }

    /// No connection.
    pub fn none() -> (r: ArchiveDb<C>)
        ensures
            r.0 is None,
    {
        ArchiveDb(None)
    }

    /// The connection to read through.
    pub fn with_conn(&self) -> (r: Result<&C, &'static str>)
        ensures
            match self.0 {
                Some(c) => r == Ok::<&C, &'static str>(&c),
                None => r matches Err(e) && e@ == "archive DB が利用できません"@,
            },
    {
        match &self.0 {
            Some(c) => Ok(c),
            None => Err("archive DB が利用できません"),
        }
    }
}

/// A character of a directory's encoded name.
pub open spec fn encoded_char(c: char) -> char {
    if c == '/' || c == '.' {
        '-'
    } else {
        c
    }
}

/// A directory's encoded name.
pub open spec fn encoded_cwd(dir: Seq<char>) -> Seq<char> {
    Seq::new(dir.len(), |i: int| encoded_char(dir[i]))
}

/// The encoded name of a directory is the name of one file, and stays when it is encoded again.
pub proof fn encoded_cwd_is_one_name(dir: Seq<char>)
    ensures
        !encoded_cwd(dir).contains('/'),
        !encoded_cwd(dir).contains('.'),
        encoded_cwd(dir).len() == dir.len(),
        encoded_cwd(encoded_cwd(dir)) == encoded_cwd(dir),
{
    assert(encoded_cwd(encoded_cwd(dir)) =~= encoded_cwd(dir));
}

/// The name under which an agent keeps what belongs to a directory: every slash and dot of it
/// becomes a hyphen.
pub fn encode_cwd(dir: &str) -> (r: String)
    ensures
        r@ == encoded_cwd(dir@),
{
    let cs: Vec<char> = chars_of(dir);
    let mut out: Vec<char> = Vec::new();
    let mut i: usize = 0;
    while i < cs.len()
        invariant
            i <= cs@.len(),
            out@ == encoded_cwd(cs@).take(i as int),
        decreases cs@.len() - i,
    {
        let c: char = cs[i];
        out.push(
            if c == '/' || c == '.' {
                '-'
            } else {
                c
            },
        );
        assert(out@ =~= encoded_cwd(cs@).take(i + 1));
        i += 1;
    }
    let r: String = string_of(&out, 0, out.len());
    assert(r@ =~= encoded_cwd(dir@));
    r
}

/// What is asked for, without the white space around it; nothing where nothing else is there.
pub open spec fn normal_query(query: Option<Seq<char>>) -> Option<Seq<char>> {
    match query {
        Some(q) => if trimmed(q).len() == 0 {
            None
        } else {
            Some(trimmed(q))
        },
        None => None,
    }
}

/// A query in its normal form stays as it is.
pub proof fn normal_query_is_normal(query: Option<Seq<char>>)
    ensures
        normal_query(normal_query(query)) == normal_query(query),
{
    if let Some(q) = query {
        crate::text::lemma_trim_idempotent(q);
    }
}

/// What is asked for, without the white space around it.
pub fn normalize_query(query: Option<String>) -> (r: Option<String>)
    ensures
        opt_text(r) == normal_query(opt_text(query)),
{
    match query {
        Some(q) => {
            let t: String = trim(q.as_str());
            if t.as_str().is_empty() {
                None
            } else {
                Some(t)
            }
        },
        None => None,
    }
}

/// How the messages of a session are read.
pub enum MessagesAsk {
    /// Those that hold a text.
    Search(String),
    /// All of them.
    Show,
}

/// How the messages of a session are read, by the query.
pub fn archive_session_messages(query: Option<String>) -> (r: MessagesAsk)
    ensures
        match normal_query(opt_text(query)) {
            Some(q) => r matches MessagesAsk::Search(s) && s@ == q,
            None => r is Show,
        },
{
    match normalize_query(query) {
        Some(q) => MessagesAsk::Search(q),
        None => MessagesAsk::Show,
    }
}

/// The memory files of an instance: those of its profile that are the user's or belong to its
/// directory, and hold the query, if one is given.
pub fn archive_list_memory(
    rows: &Vec<MemoryVersion>,
    directory: &str,
    agent_profile: &str,
    query: Option<String>,
) -> (r: Vec<MemoryEntry>)
    requires
        rows@.len() <= i64::MAX,
    ensures
        lists(
            r@,
            rows@,
            instance_rows(
                rows@,
                agent_profile@,
                encoded_cwd(directory@),
                query_pattern(normal_query(opt_text(query))),
                rows@.len() as int,
            ),
        ),
{
    let encoded: String = encode_cwd(directory);
    let q: Option<String> = normalize_query(query);
    list_memory_for_instance(rows, agent_profile, encoded.as_str(), &q)
}

/// When the last cycle of pulls was, in milliseconds; zero before the first.
pub struct ArchiveSyncClock(pub i64);

/// What is known of the cycles of pulls.
#[derive(Clone, Copy, PartialEq, Eq, Debug, Structural)]
pub struct SyncStatus {
    /// When the last one was; none before the first.
    pub last_at: Option<i64>,
    /// The seconds between two of them.
    pub interval_secs: u64,
}

/// What is known of the cycles of pulls.
pub fn archive_sync_status(clock: &ArchiveSyncClock) -> (r: SyncStatus)
    ensures
        r.last_at == if clock.0 == 0 {
            None
        } else {
            Some(clock.0)
        },
        r.interval_secs == SYNC_INTERVAL_SECS,
{
    SyncStatus {
        last_at: if clock.0 == 0 {
            None
        } else {
            Some(clock.0)
        },
        interval_secs: SYNC_INTERVAL_SECS,
    }
}

/// In the name of a directory's project slashes and dots are hyphens, and every other character is itself.
pub proof fn project_name_keeps_the_characters(dir: Seq<char>, i: int)
    requires
        0 <= i < dir.len(),
    ensures
        dir[i] == '/' || dir[i] == '.' ==> encoded_cwd(dir)[i] == '-',
        dir[i] != '/' && dir[i] != '.' ==> encoded_cwd(dir)[i] == dir[i],
{
}

/// Messages are looked for by what was asked without the white space around it; where that is nothing,
/// all of them are shown.
pub proof fn messages_are_looked_for_by_the_words(
    before: Seq<char>,
    words: Seq<char>,
    after: Seq<char>,
    query: Option<String>,
    r: MessagesAsk,
)
    requires
        forall|k: int| 0 <= k < before.len() ==> white(#[trigger] before[k]),
        forall|k: int| 0 <= k < after.len() ==> white(#[trigger] after[k]),
        words.len() > 0,
        !white(words[0]),
        !white(words.last()),
        call_ensures(archive_session_messages, (query,), r),
    ensures
        opt_text(query) == Some(before + words + after) ==> (r matches MessagesAsk::Search(s) && s@ == words),
        opt_text(query) == Some(before) || query is None ==> r is Show,
        normal_query(Some(before + words + after)) == Some(words),
        normal_query(Some(before)) is None,
        normal_query(None) is None,
{
    trimming_takes_the_white_ends(before, words, after);
}

/// The clock tells when the last round was, and none before the first; the rounds are a minute apart.
pub proof fn clock_tells_the_last_round(clock: &ArchiveSyncClock, r: SyncStatus)
    requires
        call_ensures(archive_sync_status, (clock,), r),
    ensures
        clock.0 != 0 ==> r.last_at == Some(clock.0),
        clock.0 == 0 ==> r.last_at is None,
        r.interval_secs == 60,
{
}

/// The archive is read where it could be opened, and said not to be there where not.
pub proof fn archive_is_read_where_it_is_open<C>(opened: Option<C>, db: ArchiveDb<C>)
    requires
        call_ensures(ArchiveDb::<C>::open, (opened,), db),
    ensures
        db.0 == opened,
{
}

} // verus!
