//! The events that hooks tell of.

use crate::json::Json;
use crate::text::same;
use vstd::prelude::*;

verus! {

/// What a hook sends.
pub struct HookEvent {
    pub instance_id: String,
    pub hook_event: String,
    /// When it was sent, in microseconds since the epoch on the sender's clock; senders of old do
    /// not tell.
    pub sent_at_us: Option<u64>,
    pub payload: Json,
}

/// An event.
#[derive(Clone, Copy, PartialEq, Eq, Debug, Structural)]
pub enum HookEventKind {
    SessionStart,
    SessionEnd,
    UserPromptSubmit,
    PreToolUse,
    PostToolUse,
    Notification,
    PermissionRequest,
    Stop,
    StopFailure,
    /// The command in a terminal pane has ended; tmux tells of it, no hook.
    PaneDied,
    /// An event that is not known.
    Other,
}

impl HookEventKind {
    /// The event's name.
    pub open spec fn label(self) -> Seq<char> {
        match self {
            HookEventKind::SessionStart => "SessionStart"@,
            HookEventKind::SessionEnd => "SessionEnd"@,
            HookEventKind::UserPromptSubmit => "UserPromptSubmit"@,
            HookEventKind::PreToolUse => "PreToolUse"@,
            HookEventKind::PostToolUse => "PostToolUse"@,
            HookEventKind::Notification => "Notification"@,
            HookEventKind::PermissionRequest => "PermissionRequest"@,
            HookEventKind::Stop => "Stop"@,
            HookEventKind::StopFailure => "StopFailure"@,
            HookEventKind::PaneDied => "PaneDied"@,
            HookEventKind::Other => "Other"@,
        }
    }

    /// The event that a name stands for.
    pub open spec fn named(s: Seq<char>) -> HookEventKind {
        if s == "SessionStart"@ {
            HookEventKind::SessionStart
        } else if s == "SessionEnd"@ {
            HookEventKind::SessionEnd
        } else if s == "UserPromptSubmit"@ {
            HookEventKind::UserPromptSubmit
        } else if s == "PreToolUse"@ {
            HookEventKind::PreToolUse
        } else if s == "PostToolUse"@ {
            HookEventKind::PostToolUse
        } else if s == "Notification"@ {
            HookEventKind::Notification
        } else if s == "PermissionRequest"@ {
            HookEventKind::PermissionRequest
        } else if s == "Stop"@ {
            HookEventKind::Stop
        } else if s == "StopFailure"@ {
            HookEventKind::StopFailure
        } else if s == "PaneDied"@ {
            HookEventKind::PaneDied
        } else {
            HookEventKind::Other
        }
    }

    /// The event that a name stands for.
    pub fn from_str(s: &str) -> (r: HookEventKind)
        ensures
            r == HookEventKind::named(s@),
    {
        if same(s, "SessionStart") {
            HookEventKind::SessionStart
        } else if same(s, "SessionEnd") {
            HookEventKind::SessionEnd
        } else if same(s, "UserPromptSubmit") {
            HookEventKind::UserPromptSubmit
        } else if same(s, "PreToolUse") {
            HookEventKind::PreToolUse
        } else if same(s, "PostToolUse") {
            HookEventKind::PostToolUse
        } else if same(s, "Notification") {
            HookEventKind::Notification
        } else if same(s, "PermissionRequest") {
            HookEventKind::PermissionRequest
        } else if same(s, "Stop") {
            HookEventKind::Stop
        } else if same(s, "StopFailure") {
            HookEventKind::StopFailure
        } else if same(s, "PaneDied") {
            HookEventKind::PaneDied
        } else {
            HookEventKind::Other
        }
    }

    /// The event's name.
    pub fn name(&self) -> (r: &'static str)
        ensures
            r@ == self.label(),
    {
        match self {
            HookEventKind::SessionStart => "SessionStart",
            HookEventKind::SessionEnd => "SessionEnd",
            HookEventKind::UserPromptSubmit => "UserPromptSubmit",
            HookEventKind::PreToolUse => "PreToolUse",
            HookEventKind::PostToolUse => "PostToolUse",
            HookEventKind::Notification => "Notification",
            HookEventKind::PermissionRequest => "PermissionRequest",
            HookEventKind::Stop => "Stop",
            HookEventKind::StopFailure => "StopFailure",
            HookEventKind::PaneDied => "PaneDied",
            HookEventKind::Other => "Other",
        }
    }
}

/// An event's name stands for that event.
pub proof fn name_is_read_back(k: HookEventKind)
    ensures
        HookEventKind::named(k.label()) == k,
{
    reveal_strlit("SessionStart");
    reveal_strlit("SessionEnd");
    reveal_strlit("UserPromptSubmit");
    reveal_strlit("PreToolUse");
    reveal_strlit("PostToolUse");
    reveal_strlit("Notification");
    reveal_strlit("PermissionRequest");
    reveal_strlit("Stop");
    reveal_strlit("StopFailure");
    reveal_strlit("PaneDied");
    reveal_strlit("Other");
    assert("SessionStart"@.len() == 12 && "SessionStart"@[0] == 'S');
    assert("SessionEnd"@.len() == 10 && "SessionEnd"@[0] == 'S');
    assert("UserPromptSubmit"@.len() == 16);
    assert("PreToolUse"@.len() == 10 && "PreToolUse"@[0] == 'P');
    assert("PostToolUse"@.len() == 11 && "PostToolUse"@[0] == 'P');
    assert("Notification"@.len() == 12 && "Notification"@[0] == 'N');
    assert("PermissionRequest"@.len() == 17);
    assert("Stop"@.len() == 4);
    assert("StopFailure"@.len() == 11 && "StopFailure"@[0] == 'S');
    assert("PaneDied"@.len() == 8);
    assert("Other"@.len() == 5);
}

/// An event is told by the name that the agent gives it, and any other is none of those known.
pub proof fn events_are_told_by_their_names(s: Seq<char>)
    ensures
        HookEventKind::named(s) == HookEventKind::SessionStart <==> s == "SessionStart"@,
        HookEventKind::named(s) == HookEventKind::SessionEnd <==> s == "SessionEnd"@,
        HookEventKind::named(s) == HookEventKind::UserPromptSubmit <==> s == "UserPromptSubmit"@,
        HookEventKind::named(s) == HookEventKind::PreToolUse <==> s == "PreToolUse"@,
        HookEventKind::named(s) == HookEventKind::PostToolUse <==> s == "PostToolUse"@,
        HookEventKind::named(s) == HookEventKind::Notification <==> s == "Notification"@,
        HookEventKind::named(s) == HookEventKind::PermissionRequest <==> s == "PermissionRequest"@,
        HookEventKind::named(s) == HookEventKind::Stop <==> s == "Stop"@,
        HookEventKind::named(s) == HookEventKind::StopFailure <==> s == "StopFailure"@,
        HookEventKind::named(s) == HookEventKind::PaneDied <==> s == "PaneDied"@,
{
    name_is_read_back(HookEventKind::SessionStart);
    name_is_read_back(HookEventKind::SessionEnd);
    name_is_read_back(HookEventKind::UserPromptSubmit);
    name_is_read_back(HookEventKind::PreToolUse);
    name_is_read_back(HookEventKind::PostToolUse);
    name_is_read_back(HookEventKind::Notification);
    name_is_read_back(HookEventKind::PermissionRequest);
    name_is_read_back(HookEventKind::Stop);
    name_is_read_back(HookEventKind::StopFailure);
    name_is_read_back(HookEventKind::PaneDied);
}

} // verus!
