use ccc::archive::memory::{MemoryEntry, MemoryVersion};
use ccc::archive::query::{stats, MessageRow, SearchHit, SessionRow};
use ccc::cli::auth::{
    credential_args, fetch_credentials, keychain_account_for, AuthError, KeychainRun,
};
use ccc::cli::memory::{
    pick_version, print_memory, resolve_versions, run_memory, validate_restore_dest, MemoryAct,
    MemoryCmd, MemoryError, VersionCmd,
};
use ccc::cli::sessions::{
    body_text, choose_session, claude_profiles_root, db_path, kind_short, one_line, print_hits,
    print_messages, print_raw, print_recent, print_sessions, print_stats, scope_short, short,
    short_hash, show_key, since_to_ms, staging_root, truncate, truncate_body, Meant, Printed,
};
use ccc::cli::ssh::{
    cmd_down, cmd_fwd, cmd_heal, done_code, down_code, exit_code, guess_destination, is_shown,
    list_lines, needs_no_hook, parse_l_spec, preflight_master, read_request, strip_user,
    usage_code, DownStep, Ended, FwdRequest, Preflight, Request,
};
use ccc::cli::train::{run_train_dict, sample_bytes};
use ccc::sshkit::forwards::{ForwardRow, ForwardSpec};
use ccc::sshkit::heal::HealOutcome;
use ccc::sshkit::liveness::{MasterCheck, MasterLiveness};

fn v(args: &[&str]) -> Vec<String> {
    args.iter().map(|s| s.to_string()).collect()
}

fn some(s: &str) -> Option<String> {
    Some(s.to_string())
}

#[test]
fn validate_restore_dest_allows_normal_path() {
    let root = "/tmp/agents";
    let dest = validate_restore_dest(root, "default", "projects/enc/memory/MEMORY.md").unwrap();
    assert_eq!(dest, "/tmp/agents/default/projects/enc/memory/MEMORY.md");
}

#[test]
fn validate_restore_dest_rejects_parent_escape() {
    let root = "/tmp/agents";
    assert!(validate_restore_dest(root, "default", "../../etc/passwd").is_err());
    assert!(validate_restore_dest(root, "default", "a/../../b.md").is_err());
    assert!(validate_restore_dest(root, "..", "HELPER.md").is_err());
}

#[test]
fn validate_restore_dest_rejects_absolute() {
    let root = "/tmp/agents";
    assert!(validate_restore_dest(root, "default", "/etc/passwd").is_err());
}

#[test]
fn validate_restore_dest_rejects_credentials() {
    let root = "/tmp/agents";
    assert!(validate_restore_dest(root, "default", ".credentials.json").is_err());
    assert!(validate_restore_dest(root, "default", "sub/.credentials.json").is_err());
}

#[test]
fn guess_plain_host() {
    assert_eq!(
        guess_destination(&v(&["dev-host"])).as_deref(),
        Some("dev-host")
    );
    assert_eq!(
        guess_destination(&v(&["user@dev-host", "ls"])).as_deref(),
        Some("dev-host")
    );
}

#[test]
fn guess_skips_value_options() {
    assert_eq!(
        guess_destination(&v(&["-p", "2222", "-i", "~/.ssh/key", "dev-host"])).as_deref(),
        Some("dev-host")
    );
    assert_eq!(
        guess_destination(&v(&["-p2222", "dev-host"])).as_deref(),
        Some("dev-host")
    );
}

#[test]
fn guess_skips_flags_and_handles_dashdash() {
    assert_eq!(
        guess_destination(&v(&["-A", "-t", "--", "dev-host"])).as_deref(),
        Some("dev-host")
    );
    assert_eq!(guess_destination(&v(&["-L", "8080:l:80"])), None);
    assert_eq!(guess_destination(&v(&["ssh://x/"])), None);
}

#[test]
fn parse_l_spec_variants() {
    let s = parse_l_spec("8080").unwrap();
    assert_eq!(
        (s.listen_port, s.dest_host.as_str(), s.dest_port),
        (8080, "localhost", 8080)
    );
    let s = parse_l_spec("8080:db:5432").unwrap();
    assert_eq!(
        (s.listen_port, s.dest_host.as_str(), s.dest_port),
        (8080, "db", 5432)
    );
    let s = parse_l_spec("0.0.0.0:8080:db:5432").unwrap();
    assert_eq!(s.listen_host.as_deref(), Some("0.0.0.0"));
    assert!(parse_l_spec("not:a:valid:spec:x").is_none());
}

#[test]
fn l_arg_is_read_back_by_the_tool() {
    let spec = ForwardSpec {
        listen_host: some("127.0.0.1"),
        listen_port: 1,
        dest_host: "db".into(),
        dest_port: 65535,
    };
    let back = parse_l_spec(&spec.to_l_arg()).unwrap();
    assert_eq!(back.to_l_arg(), spec.to_l_arg());
    assert!(parse_l_spec("65536").is_none());
    let s = parse_l_spec("8080:80").unwrap();
    assert_eq!(
        (s.listen_host, s.listen_port, s.dest_host.as_str(), s.dest_port),
        (None, 8080, "localhost", 80)
    );
    assert!(parse_l_spec("8080:db").is_none());
}

#[test]
fn hash_known_paths() {
    assert_eq!(
        keychain_account_for("/Users/user/.ccc/instances/ccc-example1/claude_config"),
        "df00639b"
    );
    assert_eq!(
        keychain_account_for("/Users/user/.ccc/instances/ccc-example2/claude_config"),
        "739bbf4c"
    );
}

#[test]
fn trailing_slash_is_normalized() {
    let a = keychain_account_for("/tmp/foo");
    let b = keychain_account_for("/tmp/foo/");
    assert_eq!(a, b);
}

#[test]
fn credentials_are_asked_of_the_keychain() {
    let args = credential_args("helper", "/tmp/foo", &some("me")).unwrap();
    assert_eq!(
        args[2],
        format!("Helper Code-credentials-{}", keychain_account_for("/tmp/foo"))
    );
    assert_eq!(args[4], "me");
    assert!(matches!(
        credential_args("helper", "/tmp/foo", &some("")),
        Err(AuthError::NoUser)
    ));
    let run = |success, stdout: &[u8]| {
        Ok(KeychainRun {
            success,
            stdout: stdout.to_vec(),
            stderr: " not found\n".into(),
        })
    };
    assert_eq!(fetch_credentials(run(true, b"{}\n")).unwrap(), "{}");
    assert!(matches!(
        fetch_credentials(run(true, &[0xff])),
        Err(AuthError::NotUtf8)
    ));
    match fetch_credentials(run(false, b"")) {
        Err(AuthError::Failed(e)) => assert_eq!(e, "not found"),
        _ => panic!("a failed run has no credentials"),
    }
    assert!(matches!(
        fetch_credentials(Err("x".into())),
        Err(AuthError::NotStarted(_))
    ));
}

#[test]
fn requests_are_told_apart() {
    assert!(matches!(read_request(&v(&["fwd", "h"])), Request::Forward));
    assert!(matches!(read_request(&v(&["down", "h"])), Request::Down));
    assert!(matches!(read_request(&v(&["heal", "h"])), Request::Heal));
    assert!(matches!(read_request(&v(&["h"])), Request::Connect));
    assert!(needs_no_hook(&v(&["-G", "h"])));
    assert!(!needs_no_hook(&v(&["h"])));
    assert_eq!(strip_user("me@h"), "h");
}

#[test]
fn exit_codes_are_handed_on() {
    assert_eq!(exit_code(Ended::Code(3)), 3);
    assert_eq!(exit_code(Ended::Signal(15)), 143);
    assert_eq!(exit_code(Ended::Unknown), 130);
    assert_eq!(exit_code(Ended::NotStarted), 127);
    assert_eq!(exit_code(Ended::Lost), 1);
    assert!(is_shown("[liveness] x", false));
    assert!(!is_shown("fine", false));
    assert!(is_shown("fine", true));
}

#[test]
fn preflight_ends_what_is_dead() {
    let half = MasterLiveness::HalfOpen { pid: Some(3) };
    assert_eq!(preflight_master(half, None, true), Preflight::Recover);
    assert_eq!(
        preflight_master(half, None, false),
        Preflight::EndOnly { pid: Some(3) }
    );
    assert_eq!(
        preflight_master(MasterLiveness::Wedged, Some(9), false),
        Preflight::EndOnly { pid: Some(9) }
    );
    assert_eq!(
        preflight_master(MasterLiveness::NoMaster, Some(9), false),
        Preflight::CleanUp
    );
    assert_eq!(
        preflight_master(MasterLiveness::NoMaster, None, false),
        Preflight::Leave
    );
}

#[test]
fn forward_requests_are_read() {
    assert!(matches!(cmd_fwd(&v(&["list", "h"])), FwdRequest::List { .. }));
    match cmd_fwd(&v(&["add", "h", "8080"])) {
        FwdRequest::Add { host, spec } => {
            assert_eq!(host, "h");
            assert_eq!(spec.to_l_arg(), "8080:localhost:8080");
        }
        _ => panic!("an addition"),
    }
    assert!(matches!(cmd_fwd(&v(&["rm", "h", "80"])), FwdRequest::Remove { .. }));
    assert!(matches!(cmd_fwd(&v(&["list"])), FwdRequest::ListUsage));
    assert!(matches!(cmd_fwd(&v(&["add", "h"])), FwdRequest::AddUsage));
    assert!(matches!(cmd_fwd(&v(&["add", "h", "x"])), FwdRequest::BadSpec(_)));
    assert!(matches!(cmd_fwd(&v(&["rm", "h"])), FwdRequest::RemoveUsage));
    assert!(matches!(cmd_fwd(&v(&["rm", "h", "x"])), FwdRequest::BadPort(_)));
    assert!(matches!(cmd_fwd(&v(&[])), FwdRequest::Usage));
    assert_eq!(usage_code(&FwdRequest::Usage), Some(2));
    assert_eq!(usage_code(&cmd_fwd(&v(&["list", "h"]))), None);
    assert_eq!(done_code::<()>(&Ok(())), 0);
    assert_eq!(done_code::<()>(&Err("x".into())), 1);
    assert_eq!(list_lines(&Vec::new()), v(&["(forward なし)"]));
    let row = ForwardRow {
        spec: ForwardSpec {
            listen_host: None,
            listen_port: 80,
            dest_host: "db".into(),
            dest_port: 5432,
        },
        origin: "ledger".into(),
        reverse: false,
        stale: true,
        error: some("taken"),
        deletable: true,
    };
    let lines = list_lines(&vec![row]);
    assert_eq!(
        lines[0],
        "          localhost:80 -> db:5432                [ledger, 失効]"
    );
    assert_eq!(lines[1].trim_start(), "! taken");
}

#[test]
fn masters_are_taken_down() {
    assert_eq!(cmd_down(&None, None), DownStep::Usage);
    assert_eq!(
        cmd_down(&some("h"), Some(MasterCheck::NotRunning)),
        DownStep::NoMaster
    );
    assert_eq!(
        cmd_down(&some("h"), Some(MasterCheck::Running { pid: Some(1) })),
        DownStep::End
    );
    assert_eq!(down_code(DownStep::End, true), 0);
    assert_eq!(down_code(DownStep::End, false), 1);
    assert_eq!(down_code(DownStep::Usage, false), 2);
    assert_eq!(cmd_heal(Some(HealOutcome::Healthy)), 0);
    assert_ne!(cmd_heal(Some(HealOutcome::Failed)), 0);
    assert_eq!(cmd_heal(None), 2);
}

#[test]
fn data_lies_below_the_home_directory() {
    let home = some("/home/me");
    assert_eq!(db_path(&home, &None).ok().unwrap(), "/home/me/.ccc/archive/sessions.db");
    assert_eq!(
        staging_root(&home, &some("1")).ok().unwrap(),
        "/home/me/.ccc/dev/archive/pulled"
    );
    assert_eq!(
        claude_profiles_root(&home, "helper").ok().unwrap(),
        "/home/me/.ccc/agent_settings/helper"
    );
    assert_eq!(since_to_ms(Some(1), 86_400_001), Some(1));
    assert_eq!(since_to_ms(None, 5), None);
}

#[test]
fn texts_are_cut_for_display() {
    assert_eq!(kind_short(&some("remote")), "R");
    assert_eq!(kind_short(&some("local")), "L");
    assert_eq!(kind_short(&None), "·");
    assert_eq!(scope_short(&some("project")), "P");
    assert_eq!(short("0123456789"), "01234567");
    assert_eq!(short_hash(&None), "-");
    assert_eq!(truncate("abcd", 3), "ab…");
    assert_eq!(one_line(" a \n b ", 10), "a b");
    assert_eq!(body_text(&some("  ")), None);
    assert_eq!(truncate_body("abcdef", 2), "ab…（+4字）");
}

fn session() -> SessionRow {
    SessionRow {
        session_id: "0123456789".into(),
        instance_name: None,
        kind: some("remote"),
        host_alias: None,
        project: some("ccc"),
        source: None,
        attribution: some("hook"),
        started_at: Some(0),
        ended_at: None,
        message_count: 3,
        summary: some("title"),
    }
}

#[test]
fn listings_are_printed() {
    match print_sessions(&vec![session()]) {
        Printed::Lines(l) => assert_eq!(
            l[0],
            "1970-01-01 00:00  R  ccc                 title  (3 msgs)  01234567"
        ),
        other => panic!("{other:?}"),
    }
    assert!(matches!(print_sessions(&Vec::new()), Printed::Note(_)));
    assert!(matches!(print_recent(&Vec::new(), 7), Printed::Note(_)));
    let hit = SearchHit {
        session_id: "0123456789".into(),
        message_id: 1,
        seq: Some(4),
        ts: Some(0),
        role: some("user"),
        project: None,
        snippet: "a  b".into(),
    };
    match print_hits(&vec![hit], "q") {
        Printed::Lines(l) => {
            assert_eq!(l[0], "1970-01-01 00:00  -  [user]  a b");
            assert_eq!(l[1], "        ↳ 01234567#4");
        }
        other => panic!("{other:?}"),
    }
    match print_hits(&Vec::new(), "q") {
        Printed::Note(l) => assert_eq!(l[0], "ヒットなし: q"),
        other => panic!("{other:?}"),
    }
    let lines = print_stats(&stats(&vec![session()], 3, 1, 2));
    assert_eq!(lines[0], "セッション: 1  (local 0 / remote 1)");
    assert_eq!(lines[4], "帰属: hook=1");
}

fn row(kind: &str, text: Option<&str>) -> MessageRow {
    MessageRow {
        id: 1,
        seq: Some(0),
        ts: None,
        role: some("assistant"),
        msg_type: some(kind),
        tool_name: some("Bash"),
        is_sidechain: false,
        agent_id: None,
        text: text.map(|t| t.to_string()),
        raw: some("{}"),
    }
}

#[test]
fn messages_are_printed() {
    let rows = vec![
        row("thinking", Some("x")),
        row("tool_use", None),
        row("tool_result", Some("a\nb")),
        row("text", Some(" hi ")),
    ];
    assert_eq!(
        print_messages("s", &rows, false),
        v(&[
            "# s  (4 msgs)",
            "  · tool_use Bash",
            "  · tool_result: a b",
            "\n▸ assistant:",
            "hi"
        ])
    );
    assert_eq!(print_raw(&rows).len(), 4);
}

#[test]
fn arguments_mean_one_session() {
    assert_eq!(show_key("abc#4"), "abc");
    assert!(matches!(choose_session(String::new(), v(&["a"])), Meant::NoId));
    assert!(matches!(choose_session("a".into(), v(&[])), Meant::Nothing { .. }));
    assert!(matches!(choose_session("a".into(), v(&["ab"])), Meant::One { .. }));
    assert!(matches!(
        choose_session("a".into(), v(&["ab", "ac"])),
        Meant::Several { .. }
    ));
}

fn version(profile: Option<&str>, hash: &str, content: &str, at: i64) -> MemoryVersion {
    MemoryVersion {
        id: at,
        agent_profile: profile.map(|p| p.to_string()),
        rel_path: "rules/a.md".into(),
        scope: some("user"),
        project: None,
        content_hash: some(hash),
        source_kind: None,
        host_alias: None,
        captured_at: Some(at),
        content: some(content),
    }
}

fn run(cmd: VersionCmd, rows: &Vec<MemoryVersion>) -> Result<MemoryAct, MemoryError> {
    let none: Vec<MemoryEntry> = Vec::new();
    run_memory(&MemoryCmd::On(cmd), &none, rows, &None, "rules/a.md", "/root")
}

#[test]
fn memory_commands_act_on_versions() {
    let rows = vec![
        version(Some("p"), "aaaa", "one\n", 1),
        version(Some("p"), "bbbb", "two\n", 2),
    ];
    match run(VersionCmd::Show { version: None }, &rows).unwrap() {
        MemoryAct::Print(Printed::Text(t)) => assert_eq!(t, "two\n"),
        other => panic!("{other:?}"),
    }
    match run(VersionCmd::Show { version: some("aa") }, &rows).unwrap() {
        MemoryAct::Print(Printed::Text(t)) => assert_eq!(t, "one\n"),
        other => panic!("{other:?}"),
    }
    assert!(matches!(
        run(VersionCmd::Show { version: some("zz") }, &rows),
        Err(MemoryError::NoSuchVersion)
    ));
    match run(VersionCmd::Diff, &rows).unwrap() {
        MemoryAct::Print(Printed::Text(t)) => assert!(t.ends_with("- one\n+ two\n")),
        other => panic!("{other:?}"),
    }
    let restore = |yes| VersionCmd::Restore { version: None, yes };
    match run(restore(true), &rows).unwrap() {
        MemoryAct::Restore(p) => {
            assert_eq!(p.dest, "/root/p/rules/a.md");
            assert_eq!(p.profile_dir, "/root/p");
            assert_eq!(p.content, "two\n");
        }
        other => panic!("{other:?}"),
    }
    assert!(matches!(
        run(restore(false), &rows).unwrap(),
        MemoryAct::Print(Printed::Note(_))
    ));
    assert!(matches!(
        run(VersionCmd::Diff, &Vec::new()),
        Err(MemoryError::Missing)
    ));
    let nobody = vec![version(None, "cccc", "x", 1)];
    assert!(matches!(run(restore(true), &nobody), Err(MemoryError::NoProfile)));
    let two = vec![
        version(Some("p"), "aaaa", "one", 1),
        version(Some("q"), "bbbb", "two", 2),
    ];
    match run(VersionCmd::Diff, &two) {
        Err(MemoryError::ManyProfiles(l)) => assert_eq!(l, v(&["p", "q"])),
        _ => panic!("two profiles have the file"),
    }
    assert_eq!(resolve_versions(&two, &some("q"), "rules/a.md").unwrap(), vec![1]);
    assert_eq!(pick_version(&rows, &vec![1, 0], &None), Some(1));
    assert!(matches!(print_memory(&Vec::new()), Printed::Note(_)));
}

#[test]
fn training_is_planned() {
    let plan = run_train_dict("both".into(), 110, false).unwrap();
    assert_eq!(plan.targets, v(&["raw", "payload"]));
    assert_eq!(plan.capacity, 110 * 1024);
    assert!(plan.vacuum);
    assert_eq!(run_train_dict("x".into(), 1, true).unwrap_err(), "x");
    assert_eq!(sample_bytes(&vec![vec![1, 2], vec![3]]), 3);
}
