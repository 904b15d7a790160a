use ccc::sshkit::exec::ExecOutcome;
use ccc::sshkit::forwards::{
    add, asks_port, config_local_forwards, forwards_list_all, host_file, ledger_path_in, list, managed, master_pid,
    mux_base_args, mux_forward_args, parse_fwd_part, parse_localforward, parse_pid, remove,
    run_mux_forward, sanitize_alias, sync_ledger, to_replay, ForwardSpec, Ledger, LedgerEntry,
    MuxRun,
};
use ccc::sshkit::ssh_config::ConfigError;

fn v(args: &[&str]) -> Vec<String> {
    args.iter().map(|s| s.to_string()).collect()
}

fn spec(port: u16) -> ForwardSpec {
    ForwardSpec {
        listen_host: None,
        listen_port: port,
        dest_host: "localhost".into(),
        dest_port: 80,
    }
}

fn entry(port: u16, pid: Option<u32>) -> LedgerEntry {
    LedgerEntry {
        spec: spec(port),
        master_pid: pid,
        error: None,
        created_at: 1,
    }
}

#[test]
fn parse_localforward_plain_port() {
    let spec = parse_localforward("3000 [localhost]:3000").unwrap();
    assert_eq!(spec.listen_host, None);
    assert_eq!(spec.listen_port, 3000);
    assert_eq!(spec.dest_host, "localhost");
    assert_eq!(spec.dest_port, 3000);
}

#[test]
fn parse_localforward_with_bind_addr() {
    let spec = parse_localforward("[127.0.0.1]:8080 [db.internal]:5432").unwrap();
    assert_eq!(spec.listen_host.as_deref(), Some("127.0.0.1"));
    assert_eq!(spec.listen_port, 8080);
    assert_eq!(spec.dest_host, "db.internal");
    assert_eq!(spec.dest_port, 5432);
}

#[test]
fn l_arg_roundtrip() {
    let spec = ForwardSpec {
        listen_host: None,
        listen_port: 18080,
        dest_host: "localhost".into(),
        dest_port: 80,
    };
    assert_eq!(spec.to_l_arg(), "18080:localhost:80");
    let spec = ForwardSpec {
        listen_host: Some("0.0.0.0".into()),
        ..spec
    };
    assert_eq!(spec.to_l_arg(), "0.0.0.0:18080:localhost:80");
}

#[test]
fn parse_pid_from_check_output() {
    assert_eq!(parse_pid("Master running (pid=25742)\n"), Some(25742));
    assert_eq!(parse_pid("Control socket connect failed"), None);
}

#[test]
fn sanitize_alias_replaces_path_separators() {
    assert_eq!(sanitize_alias("host/with\\sep"), "host_with_sep");
    assert_eq!(sanitize_alias("container-dev-host"), "container-dev-host");
}

#[test]
fn file_of_a_host_is_one_name() {
    assert_eq!(host_file("a/b", ".json"), "a_b.json");
    assert_eq!(ledger_path_in("/d", "a/b"), "/d/a_b.json");
}

#[test]
fn parts_of_a_forward_are_read() {
    assert!(parse_fwd_part("80") == Some((None, 80)));
    assert!(parse_fwd_part("[::1]:80") == Some((Some("::1".to_string()), 80)));
    assert!(parse_fwd_part("nothing").is_none());
    assert!(parse_localforward("3000").is_none());
    let all = config_local_forwards("localforward 3000 [localhost]:3000\nuser x\n");
    assert_eq!(all.len(), 1);
    assert_eq!(all[0].to_l_arg(), "3000:localhost:3000");
}

#[test]
fn running_master_names_its_process() {
    let run = Some(ExecOutcome {
        code: Some(0),
        stdout: String::new(),
        stderr: "Master running (pid=12)".into(),
        timed_out: false,
    });
    assert_eq!(master_pid(&run), Some(12));
    assert_eq!(master_pid(&None), None);
}

#[test]
fn way_to_the_master_depends_on_the_configuration() {
    assert!(mux_base_args(Ok(true)).unwrap().is_empty());
    assert!(!mux_base_args(Ok(false)).unwrap().is_empty());
    assert!(mux_base_args(Err(ConfigError::NotStarted("x".into()))).is_err());
    assert_eq!(
        mux_forward_args(v(&["-x"]), "cancel", &spec(3000), "h"),
        v(&["-x", "-O", "cancel", "-L", "3000:localhost:80", "h"])
    );
}

#[test]
fn failures_of_a_master_are_told_apart() {
    let failed = |stderr: &str| MuxRun {
        success: false,
        status: "exit status: 255".into(),
        stderr: stderr.into(),
    };
    assert!(run_mux_forward("forward", &spec(3000), Err("no ssh".into())).is_err());
    let ok = MuxRun {
        success: true,
        status: "exit status: 0".into(),
        stderr: "noise".into(),
    };
    assert_eq!(run_mux_forward("forward", &spec(3000), Ok(ok)), Ok(()));
    let silent = run_mux_forward("cancel", &spec(3000), Ok(failed("  \n"))).unwrap_err();
    assert_eq!(silent, "ssh -O cancel が非ゼロ終了: exit status: 255");
    let taken = run_mux_forward("forward", &spec(3000), Ok(failed("Port forwarding failed")));
    assert!(taken.unwrap_err().starts_with("listen ポート 3000 "));
    let gone = run_mux_forward("forward", &spec(3000), Ok(failed("Control socket connect(x)")));
    assert!(gone.unwrap_err().starts_with("control master に到達できません"));
    let other = run_mux_forward("forward", &spec(3000), Ok(failed(" other \n"))).unwrap_err();
    assert_eq!(other, "other");
}

#[test]
fn adding_replaces_what_listens_on_the_same() {
    let mut ledger = Ledger {
        entries: vec![entry(3000, Some(1)), entry(4000, Some(1))],
    };
    assert_eq!(add(&mut ledger, spec(3000), Ok(()), Some(2), 9), Ok(()));
    assert_eq!(ledger.entries.len(), 2);
    assert_eq!(ledger.entries[0].spec.listen_port, 4000);
    assert_eq!(ledger.entries[1].spec.listen_port, 3000);
    assert_eq!(ledger.entries[1].master_pid, Some(2));
    assert_eq!(ledger.entries[1].created_at, 9);
    assert!(add(&mut ledger, spec(5000), Err("no".into()), Some(2), 9).is_err());
    assert_eq!(ledger.entries.len(), 2);
}

#[test]
fn removing_undoes_adding_a_forward() {
    let mut ledger = Ledger {
        entries: vec![entry(3000, Some(1))],
    };
    assert_eq!(add(&mut ledger, spec(4000), Ok(()), Some(1), 2), Ok(()));
    assert_eq!(remove(&mut ledger, &spec(4000), Ok(()), Some(1)), Ok(()));
    assert_eq!(ledger.entries.len(), 1);
    assert_eq!(ledger.entries[0].spec.listen_port, 3000);
}

#[test]
fn removing_keeps_what_the_master_holds() {
    let mut ledger = Ledger {
        entries: vec![entry(3000, Some(1))],
    };
    assert!(remove(&mut ledger, &spec(9), Ok(()), Some(1)).is_err());
    assert_eq!(
        remove(&mut ledger, &spec(3000), Err("busy".into()), Some(1)),
        Err("busy".to_string())
    );
    assert_eq!(ledger.entries.len(), 1);
    assert_eq!(managed(&ledger, &spec(3000)).unwrap().listen_port, 3000);
    assert!(managed(&ledger, &spec(9)).is_none());
    assert_eq!(
        remove(&mut ledger, &spec(3000), Err("gone".into()), Some(2)),
        Ok(())
    );
    assert!(ledger.entries.is_empty());
}

#[test]
fn new_master_gets_the_ledger_again() {
    let mut ledger = Ledger {
        entries: vec![entry(3000, Some(1)), entry(4000, Some(2))],
    };
    assert_eq!(to_replay(&ledger, Some(2)), vec![true, false]);
    assert_eq!(to_replay(&ledger, None), vec![false, false]);
    assert!(sync_ledger(&mut ledger, Some(2), vec![Some(Ok(())), None]));
    assert_eq!(ledger.entries[0].master_pid, Some(2));
    assert_eq!(to_replay(&ledger, Some(2)), vec![false, false]);
    assert!(!sync_ledger(&mut ledger, Some(2), vec![None, None]));
    assert!(sync_ledger(
        &mut ledger,
        Some(3),
        vec![Some(Err("taken".into())), None]
    ));
    assert_eq!(ledger.entries[0].error.as_deref(), Some("taken"));
    assert_eq!(ledger.entries[0].master_pid, Some(2));
}

#[test]
fn entry_of_the_same_master_is_left_alone() {
    let mut held = entry(3000, Some(2));
    held.error = Some("taken".into());
    let mut ledger = Ledger {
        entries: vec![held, entry(4000, None)],
    };
    assert_eq!(to_replay(&ledger, Some(2)), vec![false, true]);
    assert!(sync_ledger(
        &mut ledger,
        Some(2),
        vec![Some(Ok(())), Some(Ok(()))]
    ));
    assert_eq!(ledger.entries[0].error.as_deref(), Some("taken"));
    assert_eq!(ledger.entries[1].master_pid, Some(2));
    assert!(!sync_ledger(&mut ledger, Some(2), vec![Some(Ok(())), None]));
    assert!(!sync_ledger(&mut ledger, None, vec![Some(Ok(())), None]));
}

#[test]
fn listed_forwards_tell_their_origin() {
    let ledger = Ledger {
        entries: vec![entry(3000, Some(1))],
    };
    assert!(!asks_port(&ledger.entries[0], Some(1)));
    assert!(asks_port(&ledger.entries[0], Some(2)));
    let rows = list(&ledger, Some(1), &vec![true], Ok(vec![spec(2000)]), Some(7777)).unwrap();
    let ports: Vec<u16> = rows.iter().map(|r| r.spec.listen_port).collect();
    assert_eq!(ports, vec![2000, 3000, 7777]);
    let deletable: Vec<bool> = rows.iter().map(|r| r.deletable).collect();
    assert_eq!(deletable, vec![false, true, false]);
    assert_eq!(rows[1].origin, "ledger");
    assert!(!rows[1].stale);
    assert!(list(&ledger, Some(1), &vec![true], Err("no".into()), None).is_err());
}

#[test]
fn every_host_is_listed_once() {
    assert_eq!(
        forwards_list_all(&v(&["b", "a"]), &v(&["a", "c"]), &v(&["z"]), false),
        v(&["a", "b", "c"])
    );
    assert_eq!(
        forwards_list_all(&v(&["b"]), &v(&[]), &v(&["z", "b"]), true),
        v(&["b", "z"])
    );
}
