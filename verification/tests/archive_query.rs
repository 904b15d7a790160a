use ccc::archive::like::{escape_like, is_like};
use ccc::archive::memory::{
    classify_target, line_diff, list_memory, list_memory_for_instance, memory_latest_content,
    memory_versions, project_label, snapshot_memory, MemoryFile, MemoryFilter, MemoryVersion,
    StoredKey,
};
use ccc::archive::query::{
    fts_query, last_active, list_sessions, location_predicate, read_message_raw,
    resolve_session_ids, search, search_limit, search_session_messages,
    search_sessions_for_location, sessions_for_location, show_session, stats, ListFilter,
    MessageRow, SearchHit, SessionHit, SessionRow,
};

fn some(s: &str) -> Option<String> {
    Some(s.to_string())
}

fn v(args: &[&str]) -> Vec<String> {
    args.iter().map(|s| s.to_string()).collect()
}

fn session(id: &str, started: Option<i64>, ended: Option<i64>) -> SessionRow {
    SessionRow {
        session_id: id.into(),
        instance_name: None,
        kind: None,
        host_alias: None,
        project: None,
        source: None,
        attribution: None,
        started_at: started,
        ended_at: ended,
        message_count: 0,
        summary: None,
    }
}

fn message(id: i64, seq: Option<i64>, role: &str, text: &str) -> MessageRow {
    MessageRow {
        id,
        seq,
        ts: None,
        role: some(role),
        msg_type: None,
        tool_name: None,
        is_sidechain: false,
        agent_id: None,
        text: some(text),
        raw: None,
    }
}

fn hit(project: Option<&str>, ts: Option<i64>) -> SearchHit {
    SearchHit {
        session_id: "s1".into(),
        message_id: 1,
        seq: Some(0),
        ts,
        role: some("assistant"),
        project: project.map(|p| p.to_string()),
        snippet: "《会議》で設計をレビューした".into(),
    }
}

fn everything() -> ListFilter {
    ListFilter {
        kind: None,
        host: None,
        project: None,
        since_ms: None,
        limit: 0,
    }
}

fn seed() -> SessionRow {
    SessionRow {
        project: some("ccc"),
        message_count: 1,
        summary: some("設計レビュー"),
        ..session("s1", Some(1000), Some(2000))
    }
}

#[test]
fn list_and_search() {
    let rows = vec![seed()];
    let at = list_sessions(&rows, &everything());
    assert_eq!(at, vec![0]);
    assert_eq!(rows[at[0]].project.as_deref(), Some("ccc"));
    let hits = vec![hit(Some("ccc"), Some(1500))];
    assert_eq!(search(&hits, &None, None, 10), vec![0]);
    let msgs = vec![message(1, Some(0), "assistant", "会議で設計をレビューした")];
    let at = show_session(&msgs);
    assert_eq!(at.len(), 1);
    assert_eq!(msgs[at[0]].role.as_deref(), Some("assistant"));
}

#[test]
fn search_respects_project_filter() {
    let hits = vec![hit(Some("ccc"), Some(1500))];
    assert_eq!(search(&hits, &some("other"), None, 10).len(), 0);
    assert_eq!(search(&hits, &some("ccc"), None, 10).len(), 1);
}

#[test]
fn hits_are_limited_and_recent() {
    let hits: Vec<SearchHit> = (0..40).map(|i| hit(None, Some(i))).collect();
    assert_eq!(search(&hits, &None, None, 0).len(), 30);
    assert_eq!(search(&hits, &None, Some(38), 10), vec![38, 39]);
    assert_eq!(search(&vec![hit(None, None)], &None, Some(0), 10).len(), 0);
    assert_eq!(search_limit(-1), 30);
    assert_eq!(search_limit(7), 7);
}

#[test]
fn location_filter_matches_host_and_cwd() {
    let mut rows = vec![
        session("l1", Some(10), Some(20)),
        session("l2", Some(5), None),
        session("r1", Some(30), None),
    ];
    rows[2].host_alias = some("myhost");
    let cwds = vec![some("/work/ccc"), some("/work/other"), some("/work/ccc")];
    let ids = |at: Vec<usize>| -> Vec<&str> {
        at.iter().map(|i| rows[*i].session_id.as_str()).collect()
    };
    assert_eq!(
        ids(sessions_for_location(&rows, &cwds, "/work/ccc", None)),
        ["l1"]
    );
    assert_eq!(
        ids(sessions_for_location(&rows, &cwds, "/work/ccc", Some("myhost"))),
        ["r1"]
    );
    assert_eq!(
        ids(sessions_for_location(&rows, &cwds, "~/ccc", None)),
        ["l1"]
    );
    let (sql, params) = location_predicate("s.", "/work/ccc", Some("myhost"));
    assert_eq!(sql, "s.cwd = ? AND s.host_alias = ?");
    assert_eq!(params, v(&["/work/ccc", "myhost"]));
    let (sql, params) = location_predicate("", "~/ccc", None);
    assert_eq!(sql, "(cwd = ? OR cwd LIKE ?) AND host_alias IS NULL");
    assert_eq!(params, v(&["~/ccc", "%/ccc"]));
}

#[test]
fn search_scoped_to_location_then_session() {
    let hits = vec![
        SessionHit {
            session: session("s1", Some(10), Some(20)),
            hits: 1,
        },
        SessionHit {
            session: session("s2", Some(5), None),
            hits: 1,
        },
    ];
    let cwds = vec![some("/w/ccc"), some("/w/other")];
    let at = search_sessions_for_location(&hits, &cwds, "/w/ccc", None);
    assert_eq!(at, vec![0]);
    assert_eq!(hits[at[0]].session.session_id, "s1");
    assert_eq!(hits[at[0]].hits, 1);
    let found = vec![message(1, Some(0), "user", "設計のレビュー")];
    let at = search_session_messages(&found);
    assert_eq!(at.len(), 1);
    assert_eq!(found[at[0]].text.as_deref(), Some("設計のレビュー"));
    assert_eq!(fts_query("   "), None);
    assert_eq!(fts_query("設計 a\"b").as_deref(), Some("\"設計\" \"a\"\"b\""));
}

#[test]
fn search_results_ordered_by_hits_desc() {
    let hits = vec![
        SessionHit {
            session: session("s_few", Some(100), Some(200)),
            hits: 1,
        },
        SessionHit {
            session: session("s_many", Some(10), Some(20)),
            hits: 3,
        },
    ];
    let cwds = vec![some("/w/ccc"), some("/w/ccc")];
    let at = search_sessions_for_location(&hits, &cwds, "/w/ccc", None);
    let ids: Vec<_> = at.iter().map(|i| hits[*i].session.session_id.as_str()).collect();
    assert_eq!(ids, ["s_many", "s_few"]);
    assert_eq!(hits[at[0]].hits, 3);
    assert_eq!(hits[at[1]].hits, 1);
}

#[test]
fn stats_aggregates() {
    let mut s1 = seed();
    s1.kind = some("local");
    s1.attribution = some("hook");
    let mut s2 = session("s2", Some(3000), Some(4000));
    s2.project = some("lab");
    s2.kind = some("remote");
    s2.attribution = some("inferred");
    let s = stats(&vec![s1, s2], 1, 1, 2);
    assert_eq!(s.sessions, 2);
    assert_eq!(s.messages, 1);
    assert_eq!((s.local_sessions, s.remote_sessions), (1, 1));
    assert_eq!(s.first_activity, Some(1000));
    assert_eq!(s.last_activity, Some(4000));
    assert_eq!(s.memory_files, 1);
    assert_eq!(s.memory_versions, 2);
    assert_eq!(s.top_projects.len(), 2);
    assert_eq!(s.by_attribution.iter().map(|c| c.count).sum::<i64>(), 2);
}

#[test]
fn sessions_are_filtered_and_sorted() {
    let mut rows = vec![
        session("a", Some(1), None),
        session("b", Some(2), Some(30)),
        session("c", Some(20), None),
    ];
    rows[1].kind = some("remote");
    assert_eq!(last_active(&rows[0]), 1);
    assert_eq!(list_sessions(&rows, &everything()), vec![1, 2, 0]);
    let mut f = everything();
    f.since_ms = Some(20);
    f.limit = 1;
    assert_eq!(list_sessions(&rows, &f), vec![1]);
    f.kind = some("local");
    assert_eq!(list_sessions(&rows, &f).len(), 0);
}

#[test]
fn messages_stand_in_order() {
    let rows = vec![
        message(9, Some(3), "user", "c"),
        message(2, None, "user", "b"),
        message(5, Some(0), "user", "a"),
    ];
    assert_eq!(show_session(&rows), vec![2, 1, 0]);
}

#[test]
fn short_ids_are_resolved() {
    let ids = v(&["abc", "abd", "ab", "xyz"]);
    assert_eq!(resolve_session_ids(&ids, "ab"), vec![2, 0, 1]);
    assert_eq!(resolve_session_ids(&ids, "xyz"), vec![3]);
    assert!(resolve_session_ids(&ids, "q").is_empty());
}

#[test]
fn stored_rows_are_read_in_every_form() {
    assert_eq!(read_message_raw(&None, &some("old"), None).as_deref(), Some("old"));
    let z = ccc::archive::compress::encode_str("new").unwrap();
    assert_eq!(
        read_message_raw(&Some(z), &some("old"), None).as_deref(),
        Some("new")
    );
    let bad = vec![0x28, 0xb5, 0x2f, 0xfd, 1];
    assert_eq!(read_message_raw(&Some(bad), &None, None), None);
}

#[test]
fn patterns_match_like_the_database() {
    assert!(is_like("a%c", "ABBC", None));
    assert!(is_like("a_c", "abc", None));
    assert!(!is_like("a_c", "ac", None));
    assert_eq!(escape_like("50%_\\"), "50\\%\\_\\\\");
    assert!(is_like(&format!("%{}%", escape_like("50%")), "a 50% b", Some('\\')));
    assert!(!is_like(&format!("%{}%", escape_like("50%")), "a 500 b", Some('\\')));
}

#[test]
fn line_diff_marks_changes() {
    let d = line_diff("a\nb\nc", "a\nB\nc");
    assert_eq!(d, "- b\n+ B\n");
    assert_eq!(line_diff("x", "x"), "");
    assert_eq!(line_diff("", "new"), "+ new\n");
}

fn version(
    id: i64,
    profile: &str,
    rel: &str,
    scope: &str,
    project: Option<&str>,
    content: &str,
    at: i64,
) -> MemoryVersion {
    MemoryVersion {
        id,
        agent_profile: some(profile),
        rel_path: rel.into(),
        scope: some(scope),
        project: project.map(|p| p.to_string()),
        content_hash: Some(format!("h{id}")),
        source_kind: None,
        host_alias: None,
        captured_at: Some(at),
        content: some(content),
    }
}

#[test]
fn list_for_instance_scopes_profile_and_project() {
    let rows = vec![
        version(1, "p", "HELPER.md", "user", None, "ユーザーメモリ", 100),
        version(2, "p", "rules/base.md", "user", None, "規約", 90),
        version(3, "p", "projects/-w-ccc/MEMORY.md", "project", Some("ccc"), "ccc索引", 110),
        version(4, "p", "projects/-w-other/MEMORY.md", "project", Some("other"), "別索引", 120),
        version(5, "q", "HELPER.md", "user", None, "別profile", 130),
    ];
    let entries = list_memory_for_instance(&rows, "p", "-w-ccc", &None);
    let paths: Vec<&str> = entries.iter().map(|e| e.rel_path.as_str()).collect();
    assert_eq!(paths.len(), 3);
    assert!(paths.contains(&"HELPER.md"));
    assert!(paths.contains(&"rules/base.md"));
    assert!(paths.contains(&"projects/-w-ccc/MEMORY.md"));
    assert!(!paths.contains(&"projects/-w-other/MEMORY.md"));
    assert_eq!(entries[0].rel_path, "projects/-w-ccc/MEMORY.md");

    let q = list_memory_for_instance(&rows, "p", "-w-ccc", &some("base"));
    assert_eq!(q.len(), 1);
    assert_eq!(q[0].rel_path, "rules/base.md");

    let q2 = list_memory_for_instance(&rows, "p", "-w-ccc", &some("索引"));
    assert_eq!(q2.len(), 1);
    assert_eq!(q2[0].rel_path, "projects/-w-ccc/MEMORY.md");

    assert_eq!(
        memory_latest_content(&rows, "p", "HELPER.md").as_deref(),
        Some("ユーザーメモリ")
    );
    assert_eq!(memory_latest_content(&rows, "p", "nope.md"), None);
}

#[test]
fn content_change_creates_new_version() {
    let file = |content: &str| {
        vec![MemoryFile {
            rel_path: "HELPER.md".into(),
            content: content.into(),
        }]
    };
    let first = snapshot_memory(&file("v1"), &Vec::new());
    assert_eq!(first.stats.new_versions, 1);
    let stored = vec![StoredKey {
        rel_path: "HELPER.md".into(),
        content_hash: first.hashes[0].clone(),
    }];
    assert_eq!(snapshot_memory(&file("v1"), &stored).stats.new_versions, 0);
    let second = snapshot_memory(&file("v2"), &stored);
    assert_eq!(second.stats.new_versions, 1);
    assert_eq!(second.fresh, vec![true]);
    assert_eq!(first.hashes[0].len(), 64);
    assert_ne!(first.hashes[0], second.hashes[0]);

    let rows = vec![
        version(1, "p", "HELPER.md", "user", None, "v1", 1),
        version(2, "p", "HELPER.md", "user", None, "v2", 2),
    ];
    assert_eq!(memory_versions(&rows, &some("p"), "HELPER.md"), vec![1, 0]);
    let all = MemoryFilter {
        profile: None,
        scope: None,
        project: None,
    };
    let entries = list_memory(&rows, &all);
    assert_eq!(entries[0].versions, 2);
    assert_eq!(entries[0].content_hash.as_deref(), Some("h2"));
}

#[test]
fn list_filter_by_scope() {
    let rows = vec![
        version(1, "p", "HELPER.md", "user", None, "u", 1),
        version(2, "p", "projects/-a-b/MEMORY.md", "project", Some("b"), "p", 1),
    ];
    let f = MemoryFilter {
        profile: None,
        scope: some("user"),
        project: None,
    };
    let user = list_memory(&rows, &f);
    assert_eq!(user.len(), 1);
    assert_eq!(user[0].rel_path, "HELPER.md");
}

#[test]
fn snapshot_collects_all_scopes_and_dedups() {
    let kind = |rel: &str| classify_target("helper", rel);
    let scope = |rel: &str| kind(rel).map(|t| t.scope);
    assert_eq!(scope("HELPER.md").as_deref(), Some("user"));
    assert_eq!(scope("rules/base.md").as_deref(), Some("user"));
    let e = "projects/-Users-h-mydocs-ccc";
    assert_eq!(scope(&format!("{e}/MEMORY.md")).as_deref(), Some("project"));
    let fact = kind(&format!("{e}/memory/fact.md")).unwrap();
    assert_eq!(fact.scope, "project");
    assert_eq!(fact.project.as_deref(), Some("ccc"));
    assert!(kind("todos/x.json").is_none());
    assert!(kind(&format!("{e}/notes.txt")).is_none());
    assert_eq!(project_label("-Users-h-mydocs-ccc"), "ccc");
    let twice = vec![
        MemoryFile {
            rel_path: "a.md".into(),
            content: "x".into(),
        },
        MemoryFile {
            rel_path: "a.md".into(),
            content: "x".into(),
        },
    ];
    assert_eq!(snapshot_memory(&twice, &Vec::new()).stats.new_versions, 1);
}
