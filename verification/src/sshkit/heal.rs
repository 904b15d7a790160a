//! The way back to a forward that works, with a new master where nothing less helps.

use vstd::prelude::*;

verus! {

/// How setting up the forward to the agent anew ended.
#[derive(Clone, Copy, PartialEq, Eq, Debug, Structural)]
pub enum HealOutcome {
    Healthy,
    /// Nothing could be told.
    Indeterminate,
    /// Only a new master would help, and that is not ours to start.
    NeedsMasterRebuild,
    Failed,
}

/// What is to be done next to heal a host's forward.
#[derive(Clone, Copy, PartialEq, Eq, Debug, Structural)]
pub enum HealStep {
    /// Check the forward, and repair it through the master that runs.
    Repair,
    /// Ask whether the user's own configuration keeps the master.
    ReadOwner,
    /// Read how long no master is to be started yet.
    ReadCooldown,
    /// Take the lock.
    Lock,
    /// Have the master take no more connections; those that it has stay.
    Stop,
    /// Remove what was left behind on the remote machine.
    CleanUp,
    /// Start a master.
    Start,
    /// Write down how that went.
    Record { success: bool },
    /// Check the forward of the new master.
    CheckNew,
    /// Done.
    Done { outcome: HealOutcome },
}

/// What came of a step.
#[derive(Clone, Copy, PartialEq, Eq, Debug, Structural)]
pub enum HealReply {
    /// Whether it went well: the forward is healthy, the lock is held, or a master was started.
    Went(bool),
    /// Whether the user's own configuration keeps the master; none where it could not be had.
    Owner(Option<bool>),
    /// The seconds to wait yet, if any.
    Wait(Option<u64>),
    /// The step was carried out.
    Carried,
}

/// Whether a reply is one to this step.
pub open spec fn heal_answers(at: HealStep, reply: HealReply) -> bool {
    match at {
        HealStep::Repair => reply is Went,
        HealStep::ReadOwner => reply is Owner,
        HealStep::ReadCooldown => reply is Wait,
        HealStep::Lock => reply is Went,
        HealStep::Stop => reply is Carried,
        HealStep::CleanUp => reply is Carried,
        HealStep::Start => reply is Went,
        HealStep::Record { .. } => reply is Carried,
        HealStep::CheckNew => reply is Went,
        HealStep::Done { .. } => false,
    }
}

/// The step that follows.
pub open spec fn next_heal(at: HealStep, obey_cooldown: bool, reply: HealReply) -> HealStep {
    match (at, reply) {
        (HealStep::Repair, HealReply::Went(healthy)) => if healthy {
            HealStep::Done { outcome: HealOutcome::Healthy }
        } else {
            HealStep::ReadOwner
        },
        (HealStep::ReadOwner, HealReply::Owner(None)) => HealStep::Done {
            outcome: HealOutcome::Indeterminate,
        },
        (HealStep::ReadOwner, HealReply::Owner(Some(own))) => if !own {
            HealStep::Done { outcome: HealOutcome::NeedsMasterRebuild }
        } else if obey_cooldown {
            HealStep::ReadCooldown
        } else {
            HealStep::Lock
        },
        (HealStep::ReadCooldown, HealReply::Wait(None)) => HealStep::Lock,
        (HealStep::Lock, HealReply::Went(true)) => HealStep::Stop,
        (HealStep::Stop, _) => HealStep::CleanUp,
        (HealStep::CleanUp, _) => HealStep::Start,
        (HealStep::Start, HealReply::Went(success)) => HealStep::Record { success },
        (HealStep::Record { success: true }, _) => HealStep::CheckNew,
        (HealStep::CheckNew, HealReply::Went(true)) => HealStep::Done {
            outcome: HealOutcome::Healthy,
        },
        _ => HealStep::Done { outcome: HealOutcome::Failed },
    }
}

/// The step that follows, given what came of this one. Unless the cooldown is to be obeyed, it is
/// not asked.
pub fn heal_step(at: HealStep, obey_cooldown: bool, reply: HealReply) -> (r: HealStep)
    requires
        heal_answers(at, reply),
    ensures
        r == next_heal(at, obey_cooldown, reply),
{
    match (at, reply) {
        (HealStep::Repair, HealReply::Went(true)) => HealStep::Done {
            outcome: HealOutcome::Healthy,
        },
        (HealStep::Repair, _) => HealStep::ReadOwner,
        (HealStep::ReadOwner, HealReply::Owner(None)) => HealStep::Done {
            outcome: HealOutcome::Indeterminate,
        },
        (HealStep::ReadOwner, HealReply::Owner(Some(false))) => HealStep::Done {
            outcome: HealOutcome::NeedsMasterRebuild,
        },
        (HealStep::ReadOwner, _) => if obey_cooldown {
            HealStep::ReadCooldown
        } else {
            HealStep::Lock
        },
        (HealStep::ReadCooldown, HealReply::Wait(None)) => HealStep::Lock,
        (HealStep::Lock, HealReply::Went(true)) => HealStep::Stop,
        (HealStep::Stop, _) => HealStep::CleanUp,
        (HealStep::CleanUp, _) => HealStep::Start,
        (HealStep::Start, HealReply::Went(success)) => HealStep::Record { success },
        (HealStep::Record { success: true }, _) => HealStep::CheckNew,
        (HealStep::CheckNew, HealReply::Went(true)) => HealStep::Done {
            outcome: HealOutcome::Healthy,
        },
        _ => HealStep::Done { outcome: HealOutcome::Failed },
    }
}

/// All that a run can come upon.
pub struct HealSurroundings {
    /// Whether the forward is healthy, or the repair makes it so.
    pub repaired: bool,
    /// Whether the user's own configuration keeps the master; none where it cannot be had.
    pub own: Option<bool>,
    /// The seconds to wait yet, if any.
    pub wait: Option<u64>,
    /// Whether the lock is to be had.
    pub free: bool,
    /// Whether a master can be started.
    pub starts: bool,
    /// Whether the forward of the new master is healthy.
    pub healthy_then: bool,
}

/// What comes of a step in these surroundings.
pub open spec fn heal_reply_in(w: HealSurroundings, at: HealStep) -> HealReply {
    match at {
        HealStep::Repair => HealReply::Went(w.repaired),
        HealStep::ReadOwner => HealReply::Owner(w.own),
        HealStep::ReadCooldown => HealReply::Wait(w.wait),
        HealStep::Lock => HealReply::Went(w.free),
        HealStep::Start => HealReply::Went(w.starts),
        HealStep::CheckNew => HealReply::Went(w.healthy_then),
        _ => HealReply::Carried,
    }
}

/// How many steps can still follow.
pub open spec fn heal_steps_left(at: HealStep) -> nat {
    match at {
        HealStep::Repair => 9,
        HealStep::ReadOwner => 8,
        HealStep::ReadCooldown => 7,
        HealStep::Lock => 6,
        HealStep::Stop => 5,
        HealStep::CleanUp => 4,
        HealStep::Start => 3,
        HealStep::Record { .. } => 2,
        HealStep::CheckNew => 1,
        HealStep::Done { .. } => 0,
    }
}

/// Whether a run from `at` on takes the step `goal`.
pub open spec fn heal_visits(
    at: HealStep,
    goal: HealStep,
    obey_cooldown: bool,
    w: HealSurroundings,
) -> bool
    decreases heal_steps_left(at),
{
    at == goal || (!(at is Done) && heal_visits(
        next_heal(at, obey_cooldown, heal_reply_in(w, at)),
        goal,
        obey_cooldown,
        w,
    ))
}

/// Whether a run from its start takes the step `goal`.
pub open spec fn healing_visits(goal: HealStep, obey_cooldown: bool, w: HealSurroundings) -> bool {
    heal_visits(HealStep::Repair, goal, obey_cooldown, w)
}

/// Whether a run replaces the master: the repair did not help, the master is the user's own, no
/// cooldown that is to be obeyed stands against it, and the lock is to be had.
pub open spec fn replaces(obey_cooldown: bool, w: HealSurroundings) -> bool {
    !w.repaired && w.own == Some(true) && (!obey_cooldown || w.wait is None) && w.free
}

/// How a run ends.
pub open spec fn healed(obey_cooldown: bool, w: HealSurroundings) -> HealOutcome {
    if w.repaired {
        HealOutcome::Healthy
    } else if w.own is None {
        HealOutcome::Indeterminate
    } else if w.own == Some(false) {
        HealOutcome::NeedsMasterRebuild
    } else if replaces(obey_cooldown, w) && w.starts && w.healthy_then {
        HealOutcome::Healthy
    } else {
        HealOutcome::Failed
    }
}

/// A run ends, and in one way only.
pub proof fn healing_ends(obey_cooldown: bool, w: HealSurroundings, outcome: HealOutcome)
    ensures
        healing_visits(HealStep::Done { outcome }, obey_cooldown, w) <==> outcome == healed(
            obey_cooldown,
            w,
        ),
{
    reveal_with_fuel(heal_visits, 11);
}

/// A master is stopped exactly where it is to be replaced, and never without another being tried.
pub proof fn healing_replaces_only_ones_own(obey_cooldown: bool, w: HealSurroundings)
    ensures
        healing_visits(HealStep::Stop, obey_cooldown, w) <==> replaces(obey_cooldown, w),
        healing_visits(HealStep::Start, obey_cooldown, w) <==> replaces(obey_cooldown, w),
{
    reveal_with_fuel(heal_visits, 11);
}

/// Every start is written down, as it went, so that the next cooldown counts from it.
pub proof fn healing_records_its_start(obey_cooldown: bool, w: HealSurroundings, success: bool)
    ensures
        healing_visits(HealStep::Record { success }, obey_cooldown, w) <==> replaces(
            obey_cooldown,
            w,
        ) && success == w.starts,
{
    reveal_with_fuel(heal_visits, 11);
}

/// How healing ends: well where the forward works, by itself, after a repair, or with a new master; that
/// one is started only where it is the user's own, may be started yet, and the lock is to be had.
pub proof fn healing_ends_well_where_it_works(obey_cooldown: bool, w: HealSurroundings)
    ensures
        ({
            let ends = |outcome: HealOutcome|
                healing_visits(HealStep::Done { outcome }, obey_cooldown, w);
            let may = w.own == Some(true) && (!obey_cooldown || w.wait is None) && w.free;
            &&& ends(HealOutcome::Healthy) <==> w.repaired || (may && w.starts && w.healthy_then)
            &&& ends(HealOutcome::Indeterminate) <==> !w.repaired && w.own is None
            &&& ends(HealOutcome::NeedsMasterRebuild) <==> !w.repaired && w.own == Some(false)
            &&& ends(HealOutcome::Failed) <==> !w.repaired && w.own == Some(true) && !(may && w.starts
                && w.healthy_then)
            &&& healing_visits(HealStep::Start, obey_cooldown, w) <==> !w.repaired && may
            &&& healing_visits(HealStep::CleanUp, obey_cooldown, w) <==> !w.repaired && may
            &&& healing_visits(HealStep::CheckNew, obey_cooldown, w) <==> !w.repaired && may && w.starts
        }),
{
    reveal_with_fuel(heal_visits, 11);
}

} // verus!
