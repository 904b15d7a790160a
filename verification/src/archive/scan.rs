//! Walking the directories of transcripts: which files count, and what taking them in comes to.

use crate::archive::ingest::IngestStats;
use crate::archive::memory::MemoryStats;
use crate::archive::sync::PullStats;
use crate::pathname::{
    components, extension, file_name, lemma_components_empty, lemma_components_join,
    lemma_join_component, name_parts, path_extension, path_file_name, path_join, plain, split_name,
};
use crate::split::lemma_last_index_is;
use crate::text::{same, texts};
use vstd::prelude::*;

verus! {

/// Whether a file is a transcript, by its extension.
pub open spec fn transcript(path: Seq<char>) -> bool {
    extension(path) == Some("jsonl"@)
}

/// Whether a file is a transcript, by its extension.
pub fn is_transcript(path: &str) -> (r: bool)
    ensures
        r == transcript(path@),
{
    match path_extension(path) {
        Some(e) => same(e.as_str(), "jsonl"),
        None => false,
    }
}

/// The sessions whose transcripts are among the first `n` files: what stands before the
/// extension.
pub open spec fn session_ids(v: Seq<Seq<char>>, n: int) -> Seq<Seq<char>>
    decreases n,
{
    if n <= 0 {
        seq![]
    } else if transcript(v[n - 1]) {
        session_ids(v, n - 1).push(name_parts(file_name(v[n - 1])->0).0)
    } else {
        session_ids(v, n - 1)
    }
}

/// The sessions whose transcripts are among the files.
pub fn collect_session_ids(files: &Vec<String>) -> (r: Vec<String>)
    ensures
        texts(r@) == session_ids(texts(files@), files@.len() as int),
{
    let mut out: Vec<String> = Vec::new();
    let mut i: usize = 0;
    assert(texts(out@) =~= session_ids(texts(files@), 0));
    while i < files.len()
        invariant
            i <= files@.len(),
            texts(out@) == session_ids(texts(files@), i as int),
        decreases files@.len() - i,
    {
        let p: &str = files[i].as_str();
        assert(texts(files@)[i as int] == p@);
        if is_transcript(p) {
            if let Some(name) = path_file_name(p) {
                let ghost before = out@;
                let (stem, _) = split_name(name.as_str());
                out.push(stem);
                assert(texts(out@) =~= texts(before).push(stem@));
            }
        }
        i += 1;
    }
    out
}

/// The messages of the first `n` files that could be taken in.
pub open spec fn messages_in(taken: Seq<Option<usize>>, n: int) -> nat
    decreases n,
{
    if n <= 0 {
        0
    } else {
        messages_in(taken, n - 1) + match taken[n - 1] {
            Some(m) => m as nat,
            None => 0,
        }
    }
}

proof fn lemma_messages_grow(taken: Seq<Option<usize>>, a: int, b: int)
    requires
        a <= b,
    ensures
        messages_in(taken, a) <= messages_in(taken, b),
    decreases b - a,
{
    if a < b {
        lemma_messages_grow(taken, a, b - 1);
    }
}

/// What taking in the transcripts of a directory comes to: every one counts as a file, and those
/// that could be taken in add their messages. One that fails stops nothing.
pub fn scan_projects(taken: &Vec<Option<usize>>) -> (r: IngestStats)
    requires
        messages_in(taken@, taken@.len() as int) <= usize::MAX,
    ensures
        r.files == taken@.len(),
        r.new_messages == messages_in(taken@, taken@.len() as int),
{
    let mut n: usize = 0;
    let mut i: usize = 0;
    while i < taken.len()
        invariant
            i <= taken@.len(),
            n == messages_in(taken@, i as int),
            messages_in(taken@, taken@.len() as int) <= usize::MAX,
        decreases taken@.len() - i,
    {
        proof {
            lemma_messages_grow(taken@, i + 1, taken@.len() as int);
        }
        if let Some(m) = taken[i] {
            n = n + m;
        }
        i += 1;
    }
    IngestStats { files: taken.len(), new_messages: n }
}

/// What taking in a pulled profile comes to.
pub fn ingest_pulled(scan: IngestStats, sessions: &Vec<String>, memory: MemoryStats) -> (r: PullStats)
    ensures
        r.files == scan.files,
        r.new_messages == scan.new_messages,
        r.sessions == sessions@.len(),
        r.memory_new == memory.new_versions,
{
    PullStats {
        files: scan.files,
        new_messages: scan.new_messages,
        sessions: sessions.len(),
        memory_new: memory.new_versions,
    }
}

/// A file is a transcript by its name's ending; its session is what stands before it.
pub proof fn transcript_is_named_after_its_session(dir: Seq<char>, id: Seq<char>)
    requires
        id.len() > 0,
        !id.contains('/'),
    ensures
        transcript(dir + "/"@ + id + ".jsonl"@),
        session_ids(seq![dir + "/"@ + id + ".jsonl"@], 1) == seq![id],
{
    reveal_strlit("/");
    reveal_strlit(".jsonl");
    reveal_strlit("jsonl");
    reveal_strlit(".");
    reveal_strlit("..");
    let name = id + ".jsonl"@;
    let path = dir + "/"@ + id + ".jsonl"@;
    assert(path =~= dir.push('/') + name);
    assert(name.last() == 'l');
    assert(plain(name)) by {
        if name.contains('/') {
            let k = choose|k: int| 0 <= k < name.len() && name[k] == '/';
            if k < id.len() {
                assert(id.contains(id[k]));
            }
        }
        assert(name.len() >= 7);
    }
    lemma_components_join(dir, name);
    let e = Seq::<char>::empty();
    lemma_join_component(e, name);
    assert(path_join(e, name) =~= name) by {
        assert(name.contains(name[0]));
    }
    lemma_components_empty();
    assert(components(name) =~= seq![name]);
    assert(components(path).last() == name);
    let n = id.len() as int;
    assert(name[n] == '.');
    assert forall|k: int| n < k < name.len() implies #[trigger] name[k] != '.' by {
        assert(name[k] == ".jsonl"@[k - n]);
    }
    lemma_last_index_is(name, '.', n);
    assert(name.take(n) =~= id);
    assert(name.skip(n + 1) =~= "jsonl"@);
    let v = seq![path];
    assert(session_ids(v, 0) =~= seq![]);
    assert(session_ids(v, 1) =~= seq![id]);
}

/// The sessions of files stand in the order of the files, one for each transcript and none for others.
pub proof fn every_transcript_is_a_session(v: Seq<Seq<char>>, n: int)
    requires
        0 < n <= v.len(),
    ensures
        transcript(v[n - 1]) ==> session_ids(v, n).len() == session_ids(v, n - 1).len() + 1
            && session_ids(v, n).drop_last() == session_ids(v, n - 1),
        !transcript(v[n - 1]) ==> session_ids(v, n) == session_ids(v, n - 1),
        extension(v[n - 1]) is None ==> !transcript(v[n - 1]),
        extension(v[n - 1]) == Some("json"@) ==> !transcript(v[n - 1]),
{
    reveal_strlit("json");
    reveal_strlit("jsonl");
    assert("json"@.len() != "jsonl"@.len());
    if transcript(v[n - 1]) {
        assert(session_ids(v, n).drop_last() =~= session_ids(v, n - 1));
    }
}

/// The messages of a scan are those of all files taken in; a file that failed adds none.
pub proof fn scan_counts_every_file(taken: Seq<Option<usize>>, n: int)
    requires
        0 < n <= taken.len(),
    ensures
        taken[n - 1] matches Some(m) ==> messages_in(taken, n) == messages_in(taken, n - 1) + m,
        taken[n - 1] is None ==> messages_in(taken, n) == messages_in(taken, n - 1),
        messages_in(taken, 0) == 0,
{
}

/// What a pull has brought is told as it was counted: files and messages, sessions, and new versions of
/// memory files.
pub proof fn pull_is_told_as_counted(
    scan: IngestStats,
    sessions: &Vec<String>,
    memory: MemoryStats,
    r: PullStats,
)
    requires
        call_ensures(ingest_pulled, (scan, sessions, memory), r),
    ensures
        r.files == scan.files,
        r.new_messages == scan.new_messages,
        r.sessions == sessions@.len(),
        r.memory_new == memory.new_versions,
{
}

} // verus!
