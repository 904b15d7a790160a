use ccc::archive::hooks::InstanceMeta;
use ccc::archive::memory::MemoryVersion;
use ccc::archive::sync::RsyncRun;
use ccc::desktop::archive_commands::{
    archive_list_memory, archive_session_messages, archive_sync_status, encode_cwd,
    normalize_query, ArchiveDb, ArchiveSyncClock, MessagesAsk,
};
use ccc::desktop::cli_install::{
    cli_tool_status, install_cli_tool, install_dir, install_move, is_in_path, tool_status, tools,
    InstallMove, ToolFound,
};
use ccc::desktop::commands::{
    list_auth_sources, list_claude_profiles, list_system_fonts, read_font_face, FontError,
};
use ccc::desktop::env_setup::{inherit_login_shell_path, login_shell, path_args, ShellRun};
use ccc::desktop::flights::{fly_key, Flights};
use ccc::desktop::service::{
    after_pull, handle_job, plan_pull, staging_beside, sync_tick, Act, HookJob, Job, PullPlan,
    PullRequest, SYNC_INTERVAL_SECS,
};
use ccc::desktop::titles::{refresh_remote_session_titles, refresh_session_title, TitleRow};
use ccc::json::parse;

fn v(args: &[&str]) -> Vec<String> {
    args.iter().map(|s| s.to_string()).collect()
}

fn some(s: &str) -> Option<String> {
    Some(s.to_string())
}

#[test]
fn one_pull_of_a_profile_at_a_time() {
    let mut f = Flights::new();
    assert!(f.begin("h", "p"));
    assert!(!f.begin("h", "p"));
    assert!(f.begin("h", "q"));
    f.end("h", "p");
    assert!(f.begin("h", "p"));
    assert_eq!(fly_key("h", "p"), "h\0p");
}

#[test]
fn waiting_profiles_are_pulled_once() {
    let mut f = Flights::new();
    f.mark("h", "p");
    f.mark("h", "p");
    f.mark("g", "p");
    assert_eq!(f.due().len(), 2);
    assert!(f.begin("g", "p"));
    let begun = f.begin_due();
    assert_eq!(begun, vec![("h".to_string(), "p".to_string())]);
    f.settle("h", "p", true);
    assert_eq!(f.due(), vec![("g".to_string(), "p".to_string())]);
    assert!(f.begin_due().is_empty());
    f.end("g", "p");
    assert_eq!(f.begin_due().len(), 1);
    f.settle("g", "p", false);
    assert_eq!(f.due().len(), 1);
    assert_eq!(f.begin_due().len(), 1);
}

fn hook(event: &str, payload: &str, is_local: bool) -> Job {
    Job::Hook(HookJob {
        hook_event: event.into(),
        payload: parse(payload).unwrap(),
        meta: InstanceMeta {
            instance_id: "i".into(),
            name: None,
            kind: None,
            host_alias: some("h"),
            agent_profile: some("p"),
            directory: None,
        },
        is_local,
    })
}

fn names(acts: &[Act]) -> Vec<&'static str> {
    acts.iter()
        .map(|a| match a {
            Act::ScanMemory { .. } => "scan memory",
            Act::ScanTranscripts { .. } => "scan transcripts",
            Act::IngestPulled { .. } => "ingest pulled",
            Act::RefreshHost { .. } => "refresh host",
            Act::RecordEvent { .. } => "event",
            Act::RecordSessionStart { .. } => "start",
            Act::IngestTranscript { .. } => "ingest",
            Act::RefreshTitle { .. } => "title",
            Act::SnapshotMemory { .. } => "memory",
            Act::MarkDirty { .. } => "dirty",
        })
        .collect()
}

#[test]
fn hooks_become_acts() {
    let payload = r#"{"session_id":"s","transcript_path":"/t.jsonl","source":"startup"}"#;
    let acts = handle_job(&hook("SessionStart", payload, true));
    assert_eq!(names(&acts), vec!["event", "start", "ingest", "title"]);
    match &acts[1] {
        Act::RecordSessionStart { session_id, source } => {
            assert_eq!(session_id, "s");
            assert_eq!(source.as_deref(), Some("startup"));
        }
        _ => panic!("the start is recorded"),
    }
    let acts = handle_job(&hook("SessionEnd", payload, true));
    assert_eq!(names(&acts), vec!["event", "ingest", "title", "memory"]);
    let acts = handle_job(&hook("SessionEnd", payload, false));
    assert_eq!(names(&acts), vec!["event", "dirty"]);
    let acts = handle_job(&hook("SessionStart", "{}", true));
    assert_eq!(names(&acts), vec!["event"]);
    let acts = handle_job(&Job::ScanMemory { root: "/r".into() });
    assert_eq!(names(&acts), vec!["scan memory"]);
    let acts = handle_job(&Job::ScanTranscripts { root: "/r".into() });
    assert_eq!(names(&acts), vec!["scan transcripts"]);
}

fn request(path: Option<&str>) -> PullRequest {
    PullRequest {
        host_alias: "h".into(),
        profile: "p".into(),
        transcript_path: path.map(|p| p.to_string()),
    }
}

#[test]
fn pulls_are_planned_and_taken_in() {
    match plan_pull("helper", "/stage", &request(None)) {
        Some(PullPlan::Profile(args)) => assert_eq!(args.last().unwrap(), "/stage/h/p/"),
        _ => panic!("the whole profile"),
    }
    match plan_pull("helper", "/stage", &request(Some("/x/projects/e/s.jsonl"))) {
        Some(PullPlan::Session(p)) => assert_eq!(p.file.last().unwrap(), "/stage/h/p/"),
        _ => panic!("one session"),
    }
    assert!(plan_pull("helper", "/stage", &request(Some("/x/s.jsonl"))).is_none());
    let job = after_pull("/stage", &request(None), Some(RsyncRun::Exited(Some(0)))).unwrap();
    assert_eq!(names(&handle_job(&job)), vec!["ingest pulled", "refresh host"]);
    assert!(after_pull("/stage", &request(None), Some(RsyncRun::NotFound)).is_none());
    assert!(after_pull("/stage", &request(None), None).is_none());
    assert_eq!(staging_beside(&some("/d")), "/d/pulled");
    assert_eq!(staging_beside(&None), "pulled");
    let tick = sync_tick(9, &vec![true, false, true]);
    assert_eq!((tick.at, tick.interval_secs, tick.pulled_hosts), (9, 60, 2));
}

fn shown(host: Option<&str>, id: Option<&str>, title: Option<&str>) -> TitleRow {
    TitleRow {
        host_alias: host.map(|s| s.to_string()),
        current_session_id: id.map(|s| s.to_string()),
        session_title: title.map(|s| s.to_string()),
    }
}

#[test]
fn titles_follow_the_summaries() {
    let mut rows = vec![
        shown(None, Some("s"), None),
        shown(Some("h"), Some("t"), None),
        shown(Some("h"), Some("s"), Some("new")),
        shown(Some("h"), None, None),
    ];
    assert_eq!(refresh_session_title(&mut rows, "s", &some("new")), vec![0]);
    assert_eq!(rows[0].session_title.as_deref(), Some("new"));
    assert!(refresh_session_title(&mut rows, "s", &some("new")).is_empty());
    assert!(refresh_session_title(&mut rows, "t", &None).is_empty());
    assert_eq!(refresh_remote_session_titles(&rows, "h"), v(&["t", "s"]));
}

#[test]
fn directories_are_encoded() {
    assert_eq!(encode_cwd("/Users/h/mydocs/ccc"), "-Users-h-mydocs-ccc");
    assert_eq!(encode_cwd("/a.b-c"), "-a-b-c");
    assert_eq!(encode_cwd(&encode_cwd("/a.b")), encode_cwd("/a.b"));
}

#[test]
fn queries_are_normalised() {
    assert_eq!(normalize_query(some(" a ")).as_deref(), Some("a"));
    assert_eq!(normalize_query(some("  ")), None);
    assert_eq!(normalize_query(None), None);
    assert!(matches!(archive_session_messages(some(" ")), MessagesAsk::Show));
    assert!(matches!(
        archive_session_messages(some(" q")),
        MessagesAsk::Search(_)
    ));
}

#[test]
fn archive_may_be_missing() {
    let none: ArchiveDb<u8> = ArchiveDb::none();
    assert_eq!(none.with_conn(), Err("archive DB が利用できません"));
    assert_eq!(ArchiveDb::open(Some(3u8)).with_conn(), Ok(&3));
    assert_eq!(archive_sync_status(&ArchiveSyncClock(0)).last_at, None);
    let s = archive_sync_status(&ArchiveSyncClock(5));
    assert_eq!((s.last_at, s.interval_secs), (Some(5), SYNC_INTERVAL_SECS));
}

#[test]
fn memory_of_a_directory_is_listed() {
    let row = MemoryVersion {
        id: 1,
        agent_profile: some("p"),
        rel_path: "projects/-w-a-b/MEMORY.md".into(),
        scope: some("project"),
        project: None,
        content_hash: None,
        source_kind: None,
        host_alias: None,
        captured_at: None,
        content: some("text"),
    };
    let rows = vec![row];
    assert_eq!(archive_list_memory(&rows, "/w/a.b", "p", None).len(), 1);
    assert_eq!(archive_list_memory(&rows, "/w/a.b", "p", some(" TEXT ")).len(), 1);
    assert_eq!(archive_list_memory(&rows, "/w/a.b", "p", some("no")).len(), 0);
    assert_eq!(archive_list_memory(&rows, "/w/x", "p", None).len(), 0);
}

#[test]
fn path_is_taken_over_from_the_shell() {
    let run = |success, stdout: &str| {
        Some(ShellRun {
            success,
            stdout: stdout.as_bytes().to_vec(),
        })
    };
    assert_eq!(
        inherit_login_shell_path(&run(true, "/usr/bin:/bin\n")).as_deref(),
        Some("/usr/bin:/bin")
    );
    assert_eq!(inherit_login_shell_path(&run(true, " \n")), None);
    assert_eq!(inherit_login_shell_path(&run(false, "/bin")), None);
    assert_eq!(inherit_login_shell_path(&None), None);
    let odd = Some(ShellRun {
        success: true,
        stdout: vec![b'/', 0xff],
    });
    assert_eq!(inherit_login_shell_path(&odd).as_deref(), Some("/\u{fffd}"));
    assert_eq!(login_shell(&None), "/bin/sh");
    assert_eq!(path_args()[3], "printf %s \"$PATH\"");
}

fn found(bundled: Option<&str>, taken: bool, link: Option<&str>) -> ToolFound {
    ToolFound {
        bundled: bundled.map(|s| s.to_string()),
        taken,
        link_real: link.map(|s| s.to_string()),
        bundled_real: bundled.map(|s| s.to_string()),
    }
}

#[test]
fn tools_are_linked() {
    let home = some("/home/me");
    let dir = install_dir(&home).ok().unwrap();
    assert_eq!(dir, "/home/me/.local/bin");
    assert!(is_in_path(&dir, &v(&["/bin", "/home/me/.local//bin/"])));
    assert!(!is_in_path(&dir, &v(&["/bin"])));
    let good = tool_status("ccc-ssh", &home, &found(Some("/app/x"), true, Some("/app/x")));
    assert!(good.installed && good.up_to_date);
    assert_eq!(good.link.as_deref(), Some("/home/me/.local/bin/ccc-ssh"));
    let old = tool_status("ccc-ssh", &home, &found(Some("/app/x"), true, Some("/old/x")));
    assert!(old.installed && !old.up_to_date);
    let s = cli_tool_status(&vec![good, old], true);
    assert!(s.bundled_found && s.installed && !s.up_to_date && s.in_path);
    assert_eq!(
        s.link_path,
        "/home/me/.local/bin/ccc-ssh, /home/me/.local/bin/ccc-ssh"
    );
    let lost = tool_status("ccc-ssh", &None, &found(None, true, None));
    let s = cli_tool_status(&vec![lost], false);
    assert!(!s.bundled_found && !s.installed);
    assert_eq!(s.link_path, "~/.local/bin/ccc-sessions, ccc-ssh");
    assert_eq!(install_move(false, true), InstallMove::Missing);
    assert_eq!(install_move(true, true), InstallMove::Replace);
    assert_eq!(install_move(true, false), InstallMove::Link);
    let r = install_cli_tool("/b", &tools(), &v(&["/b"]));
    assert_eq!(r.link_path, "/b/ccc-sessions, /b/ccc-ssh");
    assert!(r.in_path);
}

#[test]
fn profiles_are_listed_with_the_default_first() {
    let list = |names: &[&str]| list_claude_profiles(&Some(v(names)));
    assert_eq!(list(&["work", "default", ".git", "alt"]), v(&["default", "alt", "work"]));
    assert_eq!(list(&["b", "a"]), v(&["a", "b"]));
    assert_eq!(list(&[".git"]), v(&["default"]));
    assert_eq!(list_claude_profiles(&None), v(&["default"]));
}

#[test]
fn fonts_are_listed_once() {
    assert_eq!(list_system_fonts(&v(&["B", "A", "B"])), v(&["A", "B"]));
    assert_eq!(read_font_face(true, Some(0)), Ok(()));
    assert_eq!(read_font_face(false, None), Err(FontError::NotFound));
    assert_eq!(read_font_face(true, None), Err(FontError::NoFace));
    assert_eq!(read_font_face(true, Some(2)), Err(FontError::InCollection(2)));
    assert!(list_auth_sources().is_empty());
}
