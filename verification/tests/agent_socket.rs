use ccc::shell::quote;
use ccc::sshkit::agent_socket::{
    check, classify_agent_reply, cleanup_stale_remote_sockets, ensure_agent_forward, gate_path_in, gate_ttl_secs,
    get_gpg_forward_status, last_healthy_pid, parse_socket_remote_forwards, probe_agent_forward,
    quoted_remote_paths, read_gate, remote_exec_args, remote_exec_timeout, repair, repair_command,
    shell_single_quote, CheckResult, ForwardHealth, Reply, SocketForward, Step,
};
use ccc::sshkit::exec::ExecOutcome;

fn v(args: &[&str]) -> Vec<String> {
    args.iter().map(|s| s.to_string()).collect()
}

fn ended(code: i32, stdout: &str) -> ExecOutcome {
    ExecOutcome {
        code: Some(code),
        stdout: stdout.to_string(),
        stderr: String::new(),
        timed_out: false,
    }
}

#[test]
fn parse_extracts_only_unix_socket_forwards() {
    let out = "\
hostname 127.0.0.1
remoteforward /home/vscode/.gnupg/S.gpg-agent /Users/me/.gnupg/S.gpg-agent.extra
remoteforward /home/vscode/.gnupg/S.gpg-agent.extra /Users/me/.gnupg/S.gpg-agent.extra
remoteforward 127.0.0.1:8080 [localhost]:8080
streamlocalbindunlink yes
";
    let fwds = parse_socket_remote_forwards(out);
    assert_eq!(fwds.len(), 2);
    assert_eq!(fwds[0].remote_path, "/home/vscode/.gnupg/S.gpg-agent");
    assert_eq!(fwds[0].local_path, "/Users/me/.gnupg/S.gpg-agent.extra");
    assert_eq!(
        fwds[0].to_r_arg(),
        "/home/vscode/.gnupg/S.gpg-agent:/Users/me/.gnupg/S.gpg-agent.extra"
    );
}

#[test]
fn parse_ignores_port_forwards_and_other_lines() {
    let out = "remoteforward 51389 [127.0.0.1]:51389\nlocalforward 3000 [localhost]:3000\n";
    assert!(parse_socket_remote_forwards(out).is_empty());
}

fn fwds() -> Vec<SocketForward> {
    vec![
        SocketForward {
            remote_path: "/home/vscode/.gnupg/S.gpg-agent".into(),
            local_path: "/Users/me/.gnupg/S.gpg-agent.extra".into(),
        },
        SocketForward {
            remote_path: "/home/vscode/.gnupg/S.gpg-agent.extra".into(),
            local_path: "/Users/me/.gnupg/S.gpg-agent.extra".into(),
        },
    ]
}

#[test]
fn classify_forbidden_means_restricted_forward_is_healthy() {
    let reply = "ERR 67109115 Forbidden <GPG Agent>\n";
    assert_eq!(classify_agent_reply(reply, &fwds()), CheckResult::Healthy);
}

#[test]
fn classify_remote_owned_socket_is_broken() {
    let reply = "D /home/vscode/.gnupg/S.gpg-agent\nOK\n";
    assert_eq!(classify_agent_reply(reply, &fwds()), CheckResult::Broken);
}

#[test]
fn classify_local_path_means_plain_forward_is_healthy() {
    let reply = "D /Users/me/.gnupg/S.gpg-agent\nOK\n";
    assert_eq!(classify_agent_reply(reply, &fwds()), CheckResult::Healthy);
}

#[test]
fn classify_unparseable_reply_defaults_to_healthy() {
    assert_eq!(classify_agent_reply("", &fwds()), CheckResult::Healthy);
    assert_eq!(classify_agent_reply("OK\n", &fwds()), CheckResult::Healthy);
}

#[test]
fn shell_single_quote_wraps_plain_string() {
    assert_eq!(shell_single_quote("/tmp/S.gpg-agent"), "'/tmp/S.gpg-agent'");
}

#[test]
fn shell_single_quote_escapes_embedded_quote() {
    assert_eq!(shell_single_quote("it's"), "'it'\\''s'");
}

#[test]
fn quoted_remote_paths_joins_all() {
    let forwards = vec![
        SocketForward {
            remote_path: "/a".into(),
            local_path: "/x".into(),
        },
        SocketForward {
            remote_path: "/b b".into(),
            local_path: "/y".into(),
        },
    ];
    assert_eq!(quoted_remote_paths(&forwards), "'/a' '/b b'");
}

#[test]
fn quote_agrees_with_the_shell() {
    assert_eq!(quote(""), "''");
    assert_eq!(quote("a'b'c"), "'a'\\''b'\\''c'");
}

#[test]
fn check_tells_the_outcomes_apart() {
    let f = fwds();
    assert_eq!(check(&None, &f), CheckResult::Unreachable);
    let mut late = ended(0, "");
    late.timed_out = true;
    assert_eq!(check(&Some(late), &f), CheckResult::Unreachable);
    assert_eq!(
        check(&Some(ended(0, "D /home/vscode/.gnupg/S.gpg-agent\n")), &f),
        CheckResult::Broken
    );
    assert_eq!(
        check(&Some(ended(0, "ERR 67109115 Forbidden\n")), &f),
        CheckResult::Healthy
    );
}

#[test]
fn health_has_a_slug_unless_nothing_is_forwarded() {
    assert_eq!(get_gpg_forward_status(None), None);
    assert_eq!(get_gpg_forward_status(Some(ForwardHealth::NoForward)), None);
    assert_eq!(
        get_gpg_forward_status(Some(ForwardHealth::Broken)),
        Some(ForwardHealth::Broken.as_slug().to_string())
    );
    assert_ne!(
        ForwardHealth::Healthy.as_slug(),
        ForwardHealth::Unreachable.as_slug()
    );
}

#[test]
fn probe_needs_a_forward_and_a_way() {
    let none: Option<Vec<SocketForward>> = Some(Vec::new());
    assert_eq!(
        probe_agent_forward(&none, true, &None),
        ForwardHealth::NoForward
    );
    assert_eq!(
        probe_agent_forward(&Some(fwds()), true, &Some(ended(0, "ERR Forbidden"))),
        ForwardHealth::Healthy
    );
}

#[test]
fn record_counts_while_it_is_fresh() {
    let content = Some("4711\n".to_string());
    assert_eq!(last_healthy_pid(&content), Some(4711));
    assert_eq!(last_healthy_pid(&Some("x".to_string())), None);
    assert_eq!(gate_path_in("/d", "a/b"), "/d/a_b.gpg-ok-pid");
    assert_eq!(read_gate(&content, Some(10), 10), Some(4711));
    assert_eq!(read_gate(&content, Some(11), 10), None);
    assert_eq!(read_gate(&content, None, 10), None);
    assert_eq!(read_gate(&content, Some(0), 0), None);
    assert_eq!(read_gate(&content, None, 0), None);
    assert_eq!(gate_ttl_secs(&Some("7".to_string())), 7);
    assert_eq!(
        gate_ttl_secs(&Some("soon".to_string())),
        gate_ttl_secs(&None)
    );
    assert_eq!(remote_exec_timeout(&Some("9".to_string())), 9);
}

#[test]
fn cleanup_names_every_socket() {
    assert!(cleanup_stale_remote_sockets("h", &None).is_none());
    assert!(cleanup_stale_remote_sockets("h", &Some(Vec::new())).is_none());
    let args = cleanup_stale_remote_sockets("h", &Some(fwds())).unwrap();
    assert_eq!(
        args.last().unwrap(),
        "rm -f '/home/vscode/.gnupg/S.gpg-agent' '/home/vscode/.gnupg/S.gpg-agent.extra'"
    );
    assert_eq!(args[args.len() - 2], "h");
}

#[test]
fn repair_cancels_and_asks_again() {
    let runs = repair("h", &v(&["-S", "x"]), &fwds());
    assert_eq!(runs.len(), 4);
    assert_eq!(
        runs[0],
        v(&[
            "-S",
            "x",
            "-O",
            "cancel",
            "-R",
            "/home/vscode/.gnupg/S.gpg-agent:/Users/me/.gnupg/S.gpg-agent.extra",
            "h"
        ])
    );
    assert_eq!(runs[1][3], "forward");
    assert!(repair_command(&fwds()).contains("'/home/vscode/.gnupg/S.gpg-agent'"));
    let exec = remote_exec_args(v(&["-S", "x"]), "h", "true");
    assert_eq!(exec[0], "-S");
    assert_eq!(exec.last().unwrap(), "true");
}

#[test]
fn healthy_master_is_remembered() {
    let mut at = Step::ReadForwards;
    let replies = [
        Reply::Forwards(Some(1)),
        Reply::Base(true),
        Reply::Pid(Some(5)),
        Reply::Pid(None),
        Reply::Checked(CheckResult::Healthy),
        Reply::Pid(Some(5)),
    ];
    for r in replies {
        at = ensure_agent_forward(at, false, r);
    }
    assert_eq!(at, Step::WriteGate { pid: 5 });
    assert_eq!(
        ensure_agent_forward(at, false, Reply::Carried),
        Step::Done { healthy: true }
    );
}

#[test]
fn known_master_spares_the_check() {
    let at = ensure_agent_forward(Step::ReadGate { pid: 5 }, false, Reply::Pid(Some(5)));
    assert_eq!(at, Step::Done { healthy: true });
    let at = ensure_agent_forward(Step::ReadBase, true, Reply::Base(true));
    assert_eq!(at, Step::Check);
}

#[test]
fn broken_forward_is_repaired_once() {
    let at = ensure_agent_forward(Step::Check, false, Reply::Checked(CheckResult::Broken));
    assert_eq!(at, Step::Repair);
    let at = ensure_agent_forward(at, false, Reply::Carried);
    assert_eq!(at, Step::CheckAgain);
    let at = ensure_agent_forward(at, false, Reply::Checked(CheckResult::Broken));
    assert_eq!(at, Step::Done { healthy: false });
}
