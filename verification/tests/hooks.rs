use ccc::agent::{credential_service, hook_binary, memory_file};
use ccc::hook_receiver::bridge::{
    choose_task, forward_hook, health_body, health_code, hook_body, Env, Next, Task,
};
use ccc::hook_receiver::events::{HookEvent, HookEventKind};
use ccc::hook_receiver::server::{check_auth, Answer, HookReceiver};
use ccc::hook_setup::binary::{
    bundled_binary, bundled_binary_search_paths, copy_args, install_remote, is_up_to_date,
    platform_string, remote_command, InstallError, InstallReply, InstallStep, Platform,
    EXPECTED_VERSION,
};
use ccc::hook_setup::settings_json::{
    command_is_ccc_hook, hooked_events, make_ccc_entry, merge_into, merge_into_config_dir,
    read_settings,
};
use ccc::hook_setup::{hook_bin_dir, HOOK_BINARY_COMMAND, WRAPPER_SCRIPT_NAME};
use ccc::json::{parse, Json};

const BINARY: &str = "ccc-helper-code-hook";
const TEST_CMD: &str = "/Users/test/.ccc/bin/ccc-helper-code-hook";

fn json(text: &str) -> Json {
    parse(&text.replace("TEST_CMD", TEST_CMD)).unwrap()
}

fn merge(v: &mut Json) -> bool {
    merge_into(v, TEST_CMD, BINARY)
}

fn entries<'a>(v: &'a Json, event: &str) -> &'a Vec<Json> {
    v.get("hooks").unwrap().get_array(event).unwrap()
}

fn command<'a>(entry: &'a Json, i: usize) -> Option<&'a str> {
    entry.get_array("hooks").unwrap()[i].get_str("command")
}

#[test]
fn platform_from_uname_known() {
    assert_eq!(
        Platform::from_uname("Darwin arm64").unwrap(),
        Platform::DarwinArm64
    );
    assert_eq!(
        Platform::from_uname("Linux x86_64").unwrap(),
        Platform::LinuxAmd64
    );
    assert_eq!(
        Platform::from_uname("Linux aarch64").unwrap(),
        Platform::LinuxArm64
    );
    assert_eq!(
        Platform::from_uname("Linux arm64").unwrap(),
        Platform::LinuxArm64
    );
    assert_eq!(
        Platform::from_uname("Linux amd64").unwrap(),
        Platform::LinuxAmd64
    );
}

#[test]
fn platform_from_uname_with_extra_whitespace() {
    assert_eq!(
        Platform::from_uname("  Darwin   arm64  \n").unwrap(),
        Platform::DarwinArm64
    );
}

#[test]
fn platform_from_uname_unknown() {
    assert!(Platform::from_uname("Windows x86_64").is_err());
    assert!(Platform::from_uname("FreeBSD amd64").is_err());
    assert!(Platform::from_uname("garbage").is_err());
}

#[test]
fn platform_as_str_round_trip() {
    for p in [
        Platform::DarwinArm64,
        Platform::LinuxArm64,
        Platform::LinuxAmd64,
    ] {
        assert!(!p.as_str().is_empty());
    }
}

#[test]
fn hook_binary_command_uses_tilde() {
    assert!(HOOK_BINARY_COMMAND.starts_with("~/"));
    assert!(HOOK_BINARY_COMMAND.ends_with(WRAPPER_SCRIPT_NAME));
}

#[test]
fn merge_into_empty() {
    let mut v = json("{}");
    let changed = merge(&mut v);
    assert!(changed);
    let events = hooked_events();
    match v.get("hooks").unwrap() {
        Json::Object(hooks) => assert_eq!(hooks.len(), events.len()),
        _ => panic!("the hooks are an object"),
    }
    for event in events {
        assert_eq!(entries(&v, &event).len(), 1);
    }
}

#[test]
fn merge_into_idempotent() {
    let mut v = json("{}");
    merge(&mut v);
    let changed = merge(&mut v);
    assert!(!changed);
}

#[test]
fn merge_migrates_existing_ccc_entry_command() {
    let mut v = json(
        r#"{"hooks":{"Stop":[{"hooks":[{"type":"command","command":"/old/abs/ccc-helper-code-hook"}]}]}}"#,
    );
    let changed = merge(&mut v);
    assert!(changed);
    let stop_arr = entries(&v, "Stop");
    assert_eq!(stop_arr.len(), 1);
    assert_eq!(command(&stop_arr[0], 0), Some(TEST_CMD));
}

#[test]
fn merge_skips_when_already_absolute() {
    let mut v = json("{}");
    merge(&mut v);
    let changed = merge(&mut v);
    assert!(!changed);
}

#[test]
fn entries_that_are_not_ours_stay_as_they_are() {
    let mut v = json(r#"{"hooks":{"Stop":[{"hooks":[]}]}}"#);
    assert!(merge(&mut v));
    assert_eq!(entries(&v, "Stop").len(), 2);
    assert_eq!(entries(&v, "Stop")[0].get_array("hooks").unwrap().len(), 0);
    assert!(!merge(&mut v));
    assert_eq!(entries(&v, "Stop").len(), 2);
    let mut v = json(
        r#"{"hooks":{"Stop":[{"hooks":[]},{"hooks":[{"command":"TEST_CMD"}]},{"hooks":[{"command":"TEST_CMD"}]}]}}"#,
    );
    assert!(merge(&mut v));
    assert_eq!(entries(&v, "Stop").len(), 2);
    assert_eq!(command(&entries(&v, "Stop")[1], 0), Some(TEST_CMD));
    assert!(!merge(&mut v));
}

#[test]
fn merge_preserves_existing_hooks() {
    let mut v = json(
        r#"{"hooks":{"PreToolUse":[{"matcher":"Bash","hooks":[{"type":"command","command":"/path/to/other-hook"}]}]}}"#,
    );
    merge(&mut v);
    let arr = entries(&v, "PreToolUse");
    assert_eq!(arr.len(), 2);
    assert!(arr.iter().any(|e| e.get_str("matcher") == Some("Bash")));
    assert!(arr.iter().any(|e| command(e, 0) == Some(TEST_CMD)));
}

#[test]
fn merge_handles_non_object_hooks_field() {
    let mut v = json(r#"{"hooks":"broken"}"#);
    let changed = merge(&mut v);
    assert!(changed);
    assert!(matches!(v.get("hooks"), Some(Json::Object(_))));
}

#[test]
fn matcher_only_for_tool_events() {
    let entry_pre = make_ccc_entry("PreToolUse", TEST_CMD);
    assert_eq!(entry_pre.get_str("matcher"), Some("*"));
    let entry_stop = make_ccc_entry("Stop", TEST_CMD);
    assert!(entry_stop.get("matcher").is_none());
}

#[test]
fn command_is_ccc_hook_recognizes_basename() {
    assert!(command_is_ccc_hook("/Users/me/.ccc/bin/ccc-hook.sh", BINARY));
    assert!(command_is_ccc_hook("~/.ccc/bin/ccc-hook.sh", BINARY));
    assert!(command_is_ccc_hook("ccc-hook.sh", BINARY));
    assert!(command_is_ccc_hook(
        "/Users/me/.ccc/bin/ccc-helper-code-hook",
        BINARY
    ));
    assert!(command_is_ccc_hook("~/.ccc/bin/ccc-helper-code-hook", BINARY));
    assert!(command_is_ccc_hook("ccc-helper-code-hook", BINARY));
    assert!(!command_is_ccc_hook("/usr/bin/other-hook", BINARY));
    assert!(!command_is_ccc_hook("", BINARY));
}

#[test]
fn merge_collapses_identical_duplicate_entries() {
    let mut v = json(
        r#"{"hooks":{"PreToolUse":[
            {"matcher":"*","hooks":[{"type":"command","command":"TEST_CMD"}]},
            {"matcher":"*","hooks":[{"type":"command","command":"TEST_CMD"}]}]}}"#,
    );
    let changed = merge(&mut v);
    assert!(changed);
    assert_eq!(entries(&v, "PreToolUse").len(), 1);
    assert!(!merge(&mut v));
}

#[test]
fn merge_collapses_legacy_and_current_entries() {
    let mut v = json(
        r#"{"hooks":{"Stop":[
            {"hooks":[{"type":"command","command":"~/.ccc/bin/ccc-helper-code-hook"}]},
            {"hooks":[{"type":"command","command":"TEST_CMD"}]}]}}"#,
    );
    let changed = merge(&mut v);
    assert!(changed);
    let arr = entries(&v, "Stop");
    assert_eq!(arr.len(), 1);
    assert_eq!(command(&arr[0], 0), Some(TEST_CMD));
}

#[test]
fn merge_keeps_canonical_matcher_entry_when_collapsing() {
    let mut v = json(
        r#"{"hooks":{"PostToolUse":[
            {"matcher":"Bash","hooks":[{"type":"command","command":"TEST_CMD"}]},
            {"matcher":"*","hooks":[{"type":"command","command":"TEST_CMD"}]}]}}"#,
    );
    merge(&mut v);
    let arr = entries(&v, "PostToolUse");
    assert_eq!(arr.len(), 1);
    assert_eq!(arr[0].get_str("matcher"), Some("*"));
}

#[test]
fn merge_collapse_preserves_other_hooks_in_same_entry() {
    let mut v = json(
        r#"{"hooks":{"Stop":[
            {"hooks":[{"type":"command","command":"TEST_CMD"}]},
            {"hooks":[{"type":"command","command":"TEST_CMD"},{"type":"command","command":"helper-notify"}]}]}}"#,
    );
    merge(&mut v);
    let arr = entries(&v, "Stop");
    assert_eq!(arr.len(), 2);
    assert_eq!(arr[0].get_array("hooks").unwrap().len(), 1);
    assert_eq!(arr[1].get_array("hooks").unwrap().len(), 1);
    assert_eq!(command(&arr[1], 0), Some("helper-notify"));
}

#[test]
fn merge_collapses_duplicates_inside_single_entry() {
    let mut v = json(
        r#"{"hooks":{"SessionStart":[{"hooks":[
            {"type":"command","command":"TEST_CMD"},
            {"type":"command","command":"TEST_CMD"}]}]}}"#,
    );
    let changed = merge(&mut v);
    assert!(changed);
    let arr = entries(&v, "SessionStart");
    assert_eq!(arr.len(), 1);
    assert_eq!(arr[0].get_array("hooks").unwrap().len(), 1);
}

#[test]
fn merge_migrates_legacy_binary_command_to_wrapper() {
    let mut v = json(
        r#"{"hooks":{"Stop":[{"hooks":[{"type":"command","command":"~/.ccc/bin/ccc-helper-code-hook"}]}]}}"#,
    );
    let new_cmd = "/Users/test/.ccc/bin/ccc-hook.sh";
    let changed = merge_into(&mut v, new_cmd, BINARY);
    assert!(changed);
    let stop_arr = entries(&v, "Stop");
    assert_eq!(stop_arr.len(), 1);
    assert_eq!(command(&stop_arr[0], 0), Some(new_cmd));
}

#[test]
fn settings_are_written_once() {
    let first = merge_into_config_dir(&None, BINARY).ok().unwrap().unwrap();
    assert!(first.contains(HOOK_BINARY_COMMAND));
    assert!(merge_into_config_dir(&Some(first), BINARY).ok().unwrap().is_none());
    assert!(merge_into_config_dir(&Some("{broken".into()), BINARY).is_err());
    assert!(read_settings(&Some("{\"a\":1}".into())).is_ok());
    let kept = merge_into_config_dir(&Some("{\"model\":\"x\"}".into()), BINARY);
    assert!(kept.ok().unwrap().unwrap().contains("\"model\": \"x\""));
}

#[test]
fn names_come_from_the_agent() {
    assert_eq!(hook_binary("helper"), BINARY);
    assert_eq!(memory_file("helper"), "HELPER.md");
    assert_eq!(credential_service("helper"), "Helper Code-credentials-");
    let home = Some("/home/me".to_string());
    assert_eq!(hook_bin_dir(&home).ok().unwrap(), "/home/me/.ccc/bin");
}

#[test]
fn bundled_binary_is_the_first_that_exists() {
    let paths = bundled_binary_search_paths(
        BINARY,
        Platform::LinuxAmd64,
        Platform::host("linux", "x86_64"),
        "/opt/ccc/bin",
        &Some("/opt/ccc".into()),
        &Some("/opt".into()),
    )
    .ok()
    .unwrap();
    assert_eq!(
        paths[1],
        "/opt/ccc/bin/binaries/ccc-helper-code-hook/linux-amd64/ccc-helper-code-hook"
    );
    let mut present = vec![false; paths.len()];
    assert_eq!(bundled_binary(&paths, &present), None);
    present[1] = true;
    present[2] = true;
    assert_eq!(bundled_binary(&paths, &present), Some(paths[1].clone()));
    assert!(Platform::host("windows", "x86_64").is_err());
    assert_eq!(platform_string("macos", "aarch64"), "darwin-arm64");
}

#[test]
fn version_is_the_last_word() {
    assert!(is_up_to_date(&Some(format!("{BINARY} {EXPECTED_VERSION}\n"))));
    assert!(!is_up_to_date(&Some("x 0.0.1".into())));
    assert!(!is_up_to_date(&Some("".into())));
    assert!(!is_up_to_date(&None));
}

fn ended(success: bool, stdout: &str) -> InstallReply {
    InstallReply::Ended {
        success,
        stdout: stdout.into(),
    }
}

#[test]
fn binary_is_installed_step_by_step() {
    let mut at = InstallStep::AskPlatform;
    for reply in [
        ended(true, "Linux x86_64\n"),
        ended(true, ""),
        ended(true, ""),
        ended(true, ""),
        ended(true, ""),
    ] {
        at = install_remote(at, reply);
    }
    assert_eq!(at, InstallStep::Installed);
    let p = Platform::LinuxAmd64;
    let current = format!("{BINARY} {EXPECTED_VERSION}");
    assert_eq!(
        install_remote(InstallStep::AskVersion(p), ended(false, &current)),
        InstallStep::UpToDate
    );
    let fails = [
        (InstallStep::AskPlatform, ended(false, ""), InstallError::NoPlatform),
        (InstallStep::AskPlatform, ended(true, "Plan9 mips"), InstallError::Unsupported),
        (InstallStep::MakeDir(p), ended(false, ""), InstallError::NoDir),
        (InstallStep::CopyBinary(p), InstallReply::NoBinary, InstallError::NoBinary),
        (InstallStep::CopyBinary(p), ended(false, ""), InstallError::NotCopied),
        (InstallStep::MakeProgram, ended(false, ""), InstallError::NoProgram),
        (InstallStep::AskVersion(p), InstallReply::NotStarted, InstallError::NotStarted),
    ];
    for (at, reply, e) in fails {
        assert_eq!(install_remote(at, reply), InstallStep::Failed(e));
    }
    assert_eq!(
        remote_command(InstallStep::AskVersion(p), "b").unwrap(),
        "test -x ~/.ccc/bin/b && ~/.ccc/bin/b --version || true"
    );
    assert_eq!(
        remote_command(InstallStep::MakeProgram, "b").unwrap(),
        "chmod 755 ~/.ccc/bin/b"
    );
    assert_eq!(remote_command(InstallStep::CopyBinary(p), "b"), None);
    assert_eq!(copy_args("/src", "h", "b")[3], "h:.ccc/bin/b");
}

fn event(id: &str, name: &str) -> HookEvent {
    HookEvent {
        instance_id: id.into(),
        hook_event: name.into(),
        sent_at_us: Some(7),
        payload: Json::Null,
    }
}

#[test]
fn token_is_made_of_letters_and_digits() {
    let a = HookReceiver::new_token();
    let b = HookReceiver::new_token();
    assert_eq!(a.len(), 32);
    assert!(a.chars().all(|c| c.is_ascii_alphanumeric()));
    assert_ne!(a, b);
}

#[test]
fn hooks_pass_with_the_token_only() {
    let good = Some("Bearer secret".to_string());
    let bad = Some("Bearer other".to_string());
    assert!(check_auth(&good, "secret"));
    assert!(check_auth(&Some("secret".into()), "secret"));
    assert!(!check_auth(&None, "secret"));
    assert_eq!(HookReceiver::health_handler(&bad, "secret"), Answer::Unauthorized);
    let hook = HookReceiver::hook_handler(&good, "secret", "i", event("i", "Stop"));
    let hook = hook.ok().unwrap();
    assert_eq!(hook.kind, HookEventKind::Stop);
    assert_eq!(hook.sent_at_us, Some(7));
    assert_eq!(
        HookReceiver::hook_handler(&good, "secret", "j", event("i", "Stop")).err(),
        Some(Answer::BadRequest)
    );
    assert_eq!(
        HookReceiver::hook_handler(&bad, "secret", "i", event("i", "Stop")).err(),
        Some(Answer::Unauthorized)
    );
    assert_eq!(HookReceiver::handed_on(false), Answer::InternalError);
    assert_eq!(HookReceiver::handed_on(true).code(), 200);
    assert_eq!(HookReceiver::endpoint(81), "http://127.0.0.1:81/hook");
}

#[test]
fn event_names_are_read_back() {
    for kind in [
        HookEventKind::SessionStart,
        HookEventKind::SessionEnd,
        HookEventKind::PermissionRequest,
        HookEventKind::PaneDied,
    ] {
        assert_eq!(HookEventKind::from_str(kind.name()), kind);
    }
    assert_eq!(HookEventKind::from_str("New"), HookEventKind::Other);
}

#[test]
fn bridge_sends_what_it_was_given() {
    let some = |s: &str| Some(s.to_string());
    assert!(Env::from_vars(some("http://h/hook/"), some(""), some("t")).is_none());
    let env = Env::from_vars(some("http://h/hook/"), some("i"), some("t"));
    let e = env.as_ref().unwrap();
    assert_eq!(e.hook_url(), "http://h/hook/i");
    assert_eq!(e.health_url(), "http://h/hook/health");
    assert_eq!(e.authorization(), "Bearer t");
    let body = hook_body(e, json(r#"{"hook_event_name":"Stop"}"#), Some(12));
    assert_eq!(body.get_str("hook_event"), Some("Stop"));
    assert_eq!(body.get_whole("sent_at_us"), Some(12));
    let body = hook_body(e, Json::Null, None);
    assert_eq!(body.get_str("hook_event"), Some("Unknown"));
    let body = health_body(e, "1.0", "linux", "x86_64");
    assert_eq!(body.get_str("platform"), Some("linux-amd64"));
    assert!(matches!(choose_task(&None, true, &None), Task::Exit(2)));
    assert!(matches!(choose_task(&None, false, &None), Task::Exit(0)));
    assert!(matches!(choose_task(&env, true, &None), Task::CheckHealth));
    assert!(matches!(choose_task(&env, false, &some("{}")), Task::Send(_)));
    assert!(matches!(choose_task(&env, false, &some("{")), Task::Exit(0)));
    assert_eq!(forward_hook(0, true), Next::Done);
    assert_eq!(forward_hook(0, false), Next::TryAgain);
    assert_eq!(forward_hook(1, false), Next::GiveUp);
    assert_eq!(health_code(Some(200)), 0);
    assert_ne!(health_code(None), 0);
}
