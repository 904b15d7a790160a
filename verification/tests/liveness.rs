use ccc::sshkit::exec::ExecOutcome;
use ccc::sshkit::heal::{heal_step, HealOutcome, HealReply, HealStep};
use ccc::sshkit::liveness::{
    acquire_rebuild_lock, classify_probe, cooldown_path_in, cooldown_remaining_in,
    fail_cooldown_secs, pid_is_ssh, probe_command, probe_master, rebuild_lock_in,
    record_rebuild_attempt, recover_half_open, reestablish_user_cm_master, restart_command,
    teardown_master, wants_probe, EndStep, LockMove, LockTry, MasterCheck, MasterLiveness,
    RecoverReply, RecoverStep, DEFAULT_FAIL_COOLDOWN_SECS, LOCK_STALE_SECS, SUCCESS_COOLDOWN_SECS,
};

fn outcome(code: Option<i32>, timed_out: bool) -> ExecOutcome {
    ExecOutcome {
        code,
        stdout: String::new(),
        stderr: " denied \n".into(),
        timed_out,
    }
}

#[test]
fn classify_timeout_is_half_open() {
    assert_eq!(
        classify_probe(Some(1), true, None),
        MasterLiveness::HalfOpen { pid: Some(1) }
    );
}

#[test]
fn classify_zero_is_alive() {
    assert_eq!(
        classify_probe(Some(1), false, Some(0)),
        MasterLiveness::Alive { pid: Some(1) }
    );
}

#[test]
fn classify_255_is_session_refused() {
    assert_eq!(
        classify_probe(None, false, Some(255)),
        MasterLiveness::SessionRefused { pid: None }
    );
}

#[test]
fn classify_other_code_is_alive() {
    assert_eq!(
        classify_probe(Some(2), false, Some(1)),
        MasterLiveness::Alive { pid: Some(2) }
    );
}

#[test]
fn cooldown_windows() {
    let now = 1_000_000u64;
    let window = DEFAULT_FAIL_COOLDOWN_SECS;
    let failed = Some(format!("{} fail", now - 10));
    assert!(cooldown_remaining_in(&failed, window, now).is_some());
    let failed = Some(format!("{} fail", now - DEFAULT_FAIL_COOLDOWN_SECS - 1));
    assert!(cooldown_remaining_in(&failed, window, now).is_none());
    let went = Some(format!("{} ok", now - 10));
    assert!(cooldown_remaining_in(&went, window, now).is_some());
    let went = Some(format!("{} ok", now - SUCCESS_COOLDOWN_SECS - 1));
    assert!(cooldown_remaining_in(&went, window, now).is_none());
}

#[test]
fn attempt_is_read_back() {
    let text = record_rebuild_attempt(1_000, false);
    assert_eq!(text, "1000 fail");
    assert_eq!(cooldown_remaining_in(&Some(text), 600, 1_100), Some(500));
    let text = record_rebuild_attempt(1_000, true);
    assert_eq!(text, "1000 ok");
    assert_eq!(cooldown_remaining_in(&Some(text), 600, 1_100), Some(20));
    assert_eq!(cooldown_remaining_in(&None, 600, 0), None);
    assert_eq!(cooldown_remaining_in(&Some("x ok".into()), 600, 0), None);
    assert_eq!(fail_cooldown_secs(&Some("5".into())), 5);
    assert_eq!(fail_cooldown_secs(&Some("-5".into())), DEFAULT_FAIL_COOLDOWN_SECS);
}

#[test]
fn lock_is_taken_over_when_it_was_left_behind() {
    assert_eq!(rebuild_lock_in("/d", "a/b").path, "/d/a_b.rebuild-lock");
    assert_eq!(cooldown_path_in("/d", "h"), "/d/h.rebuild-cooldown");
    assert_eq!(acquire_rebuild_lock(false, LockTry::Made), LockMove::Held);
    assert_eq!(acquire_rebuild_lock(false, LockTry::Failed), LockMove::GiveUp);
    let fresh = LockTry::There {
        age: Some(LOCK_STALE_SECS),
    };
    assert_eq!(acquire_rebuild_lock(false, fresh), LockMove::GiveUp);
    let unknown = LockTry::There { age: None };
    assert_eq!(acquire_rebuild_lock(false, unknown), LockMove::GiveUp);
    let stale = LockTry::There {
        age: Some(LOCK_STALE_SECS + 1),
    };
    assert_eq!(acquire_rebuild_lock(false, stale), LockMove::TakeOver);
    assert_eq!(acquire_rebuild_lock(true, stale), LockMove::RemoveAndGiveUp);
}

#[test]
fn probe_follows_the_check() {
    assert!(wants_probe(Some(MasterCheck::Running { pid: Some(3) })));
    assert!(!wants_probe(Some(MasterCheck::NotRunning)));
    assert_eq!(
        probe_master(Some(MasterCheck::NotRunning), &None),
        MasterLiveness::NoMaster
    );
    assert_eq!(
        probe_master(Some(MasterCheck::Wedged), &None),
        MasterLiveness::Wedged
    );
    assert_eq!(
        probe_master(
            Some(MasterCheck::Running { pid: Some(3) }),
            &Some(outcome(None, true))
        ),
        MasterLiveness::HalfOpen { pid: Some(3) }
    );
    assert_eq!(probe_command(&Vec::new(), "h").last().unwrap(), "true");
}

#[test]
fn only_ssh_is_signalled() {
    assert!(pid_is_ssh(&Some("ssh -N h\n".into())));
    assert!(pid_is_ssh(&Some("/usr/bin/ssh".into())));
    assert!(pid_is_ssh(&Some("/usr/bin/ssh -N h".into())));
    assert!(!pid_is_ssh(&Some("/usr/sbin/sshd".into())));
    assert!(!pid_is_ssh(&None));
}

#[test]
fn stubborn_master_is_killed_in_the_end() {
    let known = Some(7);
    let mut at = EndStep::AskExit;
    let mut seen = Vec::new();
    for yes in [true, false, true, true, false, true, true, true] {
        at = teardown_master(at, known, yes);
        seen.push(at);
    }
    assert_eq!(
        seen,
        vec![
            EndStep::AwaitExit,
            EndStep::LookBeforeTerm { pid: 7 },
            EndStep::Term { pid: 7 },
            EndStep::AwaitTerm { pid: 7 },
            EndStep::LookBeforeKill { pid: 7 },
            EndStep::Kill { pid: 7 },
            EndStep::AwaitKill,
            EndStep::Done { gone: true },
        ]
    );
    assert_eq!(
        teardown_master(EndStep::AwaitExit, None, false),
        EndStep::Done { gone: false }
    );
    assert_eq!(
        teardown_master(EndStep::LookBeforeTerm { pid: 7 }, known, false),
        EndStep::Done { gone: false }
    );
}

#[test]
fn master_is_started_by_the_configuration() {
    let args = restart_command("h", None);
    assert!(args.contains(&"ServerAliveInterval=15".to_string()));
    assert_eq!(args.last().unwrap(), "h");
    let args = restart_command("h", Some(60));
    assert!(!args.contains(&"ServerAliveInterval=15".to_string()));
    assert!(restart_command("h", Some(0)).contains(&"ServerAliveInterval=15".to_string()));
    assert_eq!(reestablish_user_cm_master(Ok(outcome(Some(0), false))), Ok(()));
    assert!(reestablish_user_cm_master(Err("x".into()))
        .unwrap_err()
        .ends_with(": x"));
    assert!(reestablish_user_cm_master(Ok(outcome(None, true)))
        .unwrap_err()
        .contains("30 秒以内"));
    assert!(reestablish_user_cm_master(Ok(outcome(Some(255), false)))
        .unwrap_err()
        .ends_with(": denied"));
}

#[test]
fn dead_master_is_ended_and_replaced() {
    let dead = RecoverReply::Liveness(MasterLiveness::HalfOpen { pid: Some(4) });
    let mut at = RecoverStep::Lock;
    for reply in [
        RecoverReply::Went(true),
        dead,
        RecoverReply::Went(true),
        RecoverReply::Wait(None),
        RecoverReply::Went(true),
        RecoverReply::Went(true),
    ] {
        at = recover_half_open(at, true, reply);
    }
    assert_eq!(at, RecoverStep::Done { recovered: true });
}

#[test]
fn recovery_leaves_the_living_alone() {
    let alive = RecoverReply::Liveness(MasterLiveness::Alive { pid: Some(4) });
    assert_eq!(
        recover_half_open(RecoverStep::Probe, true, alive),
        RecoverStep::Done { recovered: true }
    );
    let refused = RecoverReply::Liveness(MasterLiveness::SessionRefused { pid: None });
    assert_eq!(
        recover_half_open(RecoverStep::Probe, true, refused),
        RecoverStep::Done { recovered: false }
    );
    assert_eq!(
        recover_half_open(RecoverStep::ReadCooldown, true, RecoverReply::Wait(Some(9))),
        RecoverStep::Done { recovered: false }
    );
    assert_eq!(
        recover_half_open(RecoverStep::End { pid: None }, false, RecoverReply::Went(true)),
        RecoverStep::Done { recovered: true }
    );
    assert_eq!(
        recover_half_open(RecoverStep::Lock, true, RecoverReply::Went(false)),
        RecoverStep::Done { recovered: false }
    );
}

/// The steps of a healing run up to its outcome, with the replies given in turn.
fn healing(obey_cooldown: bool, replies: &[HealReply]) -> Vec<HealStep> {
    let mut steps = vec![HealStep::Repair];
    for r in replies {
        steps.push(heal_step(steps[steps.len() - 1], obey_cooldown, *r));
    }
    steps
}

#[test]
fn healing_replaces_the_master_last() {
    let done = |outcome| HealStep::Done { outcome };
    let went = HealReply::Went;
    assert_eq!(
        healing(false, &[went(true)])[1],
        done(HealOutcome::Healthy)
    );
    assert_eq!(
        healing(false, &[went(false), HealReply::Owner(None)])[2],
        done(HealOutcome::Indeterminate)
    );
    assert_eq!(
        healing(false, &[went(false), HealReply::Owner(Some(false))])[2],
        done(HealOutcome::NeedsMasterRebuild)
    );
    let own = HealReply::Owner(Some(true));
    assert_eq!(
        healing(true, &[went(false), own, HealReply::Wait(Some(5))])[3],
        done(HealOutcome::Failed)
    );
    assert_eq!(
        healing(false, &[went(false), own, went(false)])[3],
        done(HealOutcome::Failed)
    );
    let carried = HealReply::Carried;
    let all = [
        went(false),
        own,
        HealReply::Wait(None),
        went(true),
        carried,
        carried,
        went(true),
        carried,
        went(true),
    ];
    assert_eq!(
        healing(true, &all),
        [
            HealStep::Repair,
            HealStep::ReadOwner,
            HealStep::ReadCooldown,
            HealStep::Lock,
            HealStep::Stop,
            HealStep::CleanUp,
            HealStep::Start,
            HealStep::Record { success: true },
            HealStep::CheckNew,
            done(HealOutcome::Healthy),
        ]
    );
    let unstarted = [went(false), own, went(true), carried, carried, went(false), carried];
    assert_eq!(
        healing(false, &unstarted)[6..],
        [
            HealStep::Record { success: false },
            done(HealOutcome::Failed)
        ]
    );
}
