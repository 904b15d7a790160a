//! Sending hook events to the server.

use crate::hook_setup::binary::{platform_string, Platform};
use crate::json::{field, object_of, parse, put, text_field, whole, Json, JsonView};
use crate::text::{copy, lemma_trail_is, only, strip_back, trim_end_char};
use vstd::prelude::*;

verus! {

/// How often a failed sending is tried again.
pub const HOOK_RETRIES: u32 = 1;

/// Where events go, for which instance, and the token that lets them in.
#[derive(Debug)]
pub struct Env {
    pub endpoint: String,
    pub instance_id: String,
    pub token: String,
}

/// Whether a variable is set to something.
pub open spec fn set(v: Option<String>) -> bool {
    v is Some && v->0@.len() > 0
}

fn given(v: Option<String>) -> (r: Option<String>)
    ensures
        r == if set(v) {
            v
        } else {
            None::<String>
        },
{
    match v {
        Some(s) => if s.as_str().is_empty() {
            None
        } else {
            Some(s)
        },
        None => None,
    }
}

impl Env {
    /// The environment, where all three variables are set; else this is none of our instances.
    pub fn from_vars(
        endpoint: Option<String>,
        instance_id: Option<String>,
        token: Option<String>,
    ) -> (r: Option<Env>)
        ensures
            r == if set(endpoint) && set(instance_id) && set(token) {
                Some(Env { endpoint: endpoint->0, instance_id: instance_id->0, token: token->0 })
            } else {
                None::<Env>
            },
    {
        match (given(endpoint), given(instance_id), given(token)) {
            (Some(endpoint), Some(instance_id), Some(token)) => Some(
                Env { endpoint, instance_id, token },
            ),
            _ => None,
        }
    }

    /// Where the instance's events go.
    pub fn hook_url(&self) -> (r: String)
        ensures
            r@ == strip_back(self.endpoint@, only('/')) + "/"@ + self.instance_id@,
    {
        let mut s: String = trim_end_char(self.endpoint.as_str(), '/');
        s.append("/");
        s.append(self.instance_id.as_str());
        s
    }

    /// Where health checks go.
    pub fn health_url(&self) -> (r: String)
        ensures
            r@ == strip_back(self.endpoint@, only('/')) + "/health"@,
    {
        let mut s: String = trim_end_char(self.endpoint.as_str(), '/');
        s.append("/health");
        s
    }

    /// The header that lets a request in.
    pub fn authorization(&self) -> (r: String)
        ensures
            r@ == "Bearer "@ + self.token@,
    {
        let mut s: String = copy("Bearer ");
        s.append(self.token.as_str());
        s
    }
}

/// The name of the event that a payload tells of.
pub open spec fn event_of(payload: JsonView) -> Seq<char> {
    match text_field(payload, "hook_event_name"@) {
        Some(n) => n,
        None => "Unknown"@,
    }
}

/// `serde_json::Number::from` an unsigned integer: asked for its value, it is that integer.
#[verifier::external_body]
fn number_of(n: u64) -> (r: serde_json::Number)
    ensures
        whole(r) == Some(n),
{
    serde_json::Number::from(n)
}

/// A time as JSON: its number, or null.
pub open spec fn is_time(j: JsonView, at: Option<u64>) -> bool {
    match at {
        Some(n) => j is Number && whole(j->Number_0) == Some(n),
        None => j == JsonView::Null,
    }
}

/// Whether this is the body of a request that tells of an event.
pub open spec fn is_hook_body(
    body: JsonView,
    instance_id: Seq<char>,
    payload: JsonView,
    at: Option<u64>,
) -> bool {
    exists|t: JsonView| #[trigger]
        is_time(t, at) && body == JsonView::Object(
            Map::<Seq<char>, JsonView>::empty().insert(
                "instance_id"@,
                JsonView::Text(instance_id),
            ).insert("hook_event"@, JsonView::Text(event_of(payload))).insert(
                "sent_at_us"@,
                t,
            ).insert("payload"@, payload),
        )
}

/// The body of the request that tells of an event.
pub fn hook_body(env: &Env, payload: Json, sent_at_us: Option<u64>) -> (r: Json)
    ensures
        is_hook_body(r.view(), env.instance_id@, payload.view(), sent_at_us),
{
    let event: String = match payload.get_str("hook_event_name") {
        Some(n) => copy(n),
        None => copy("Unknown"),
    };
    let at: Json = match sent_at_us {
        Some(n) => Json::Number(number_of(n)),
        None => Json::Null,
    };
    let ghost t = at.view();
    assert(is_time(t, sent_at_us));
    let mut body: Vec<(String, Json)> = Vec::new();
    assert(object_of(body@) =~= Map::<Seq<char>, JsonView>::empty());
    put(&mut body, "instance_id", Json::Text(copy(env.instance_id.as_str())));
    put(&mut body, "hook_event", Json::Text(event));
    put(&mut body, "sent_at_us", at);
    put(&mut body, "payload", payload);
    Json::Object(body)
}

/// The body of a health check.
pub open spec fn health_body_view(
    instance_id: Seq<char>,
    version: Seq<char>,
    platform: Seq<char>,
) -> JsonView {
    JsonView::Object(
        Map::<Seq<char>, JsonView>::empty().insert("type"@, JsonView::Text("health_check"@)).insert(
            "instance_id"@,
            JsonView::Text(instance_id),
        ).insert("hook_binary_version"@, JsonView::Text(version)).insert(
            "platform"@,
            JsonView::Text(platform),
        ),
    )
}

/// The body of a health check.
pub fn health_body(env: &Env, version: &str, target_os: &str, target_arch: &str) -> (r: Json)
    ensures
        r.view() == health_body_view(
            env.instance_id@,
            version@,
            match Platform::of_target(target_os@, target_arch@) {
                Some(p) => p.label(),
                None => "unknown"@,
            },
        ),
{
    let mut body: Vec<(String, Json)> = Vec::new();
    assert(object_of(body@) =~= Map::<Seq<char>, JsonView>::empty());
    put(&mut body, "type", Json::Text(copy("health_check")));
    put(&mut body, "instance_id", Json::Text(copy(env.instance_id.as_str())));
    put(&mut body, "hook_binary_version", Json::Text(copy(version)));
    put(&mut body, "platform", Json::Text(copy(platform_string(target_os, target_arch))));
    Json::Object(body)
}

/// What follows an attempt to send an event.
#[derive(Clone, Copy, PartialEq, Eq, Debug, Structural)]
pub enum Next {
    Done,
    TryAgain,
    GiveUp,
}

/// What follows an attempt, counted from 0: a failed one is repeated once.
pub fn forward_hook(attempt: u32, sent: bool) -> (r: Next)
    ensures
        r == if sent {
            Next::Done
        } else if attempt < HOOK_RETRIES {
            Next::TryAgain
        } else {
            Next::GiveUp
        },
{
    if sent {
        Next::Done
    } else if attempt < HOOK_RETRIES {
        Next::TryAgain
    } else {
        Next::GiveUp
    }
}

/// What the program does.
pub enum Task {
    /// End with this exit code.
    Exit(u8),
    /// Send a health check; its failure is the exit code 1.
    CheckHealth,
    /// Send the event in this payload; the exit code is 0 whatever comes of it.
    Send(Json),
}

/// What the program does. Whoever calls it must never be held up, so what cannot be read is passed
/// over. `input` is what it was given, where that could be read.
pub fn choose_task(env: &Option<Env>, health_check: bool, input: &Option<String>) -> (r: Task)
    ensures
        match *env {
            None => r == Task::Exit(
                if health_check {
                    2u8
                } else {
                    0
                },
            ),
            Some(_) => if health_check {
                r == Task::CheckHealth
            } else {
                match *input {
                    None => r == Task::Exit(0u8),
                    Some(t) => match crate::json::json_of_text(t@) {
                        None => r == Task::Exit(0u8),
                        Some(j) => r matches Task::Send(p) && p.view() == j,
                    },
                }
            },
        },
{
    if env.is_none() {
        return Task::Exit(
            if health_check {
                2
            } else {
                0
            },
        );
    }
    if health_check {
        return Task::CheckHealth;
    }
    match input {
        None => Task::Exit(0),
        Some(t) => match parse(t.as_str()) {
            None => Task::Exit(0),
            Some(j) => Task::Send(j),
        },
    }
}

/// The exit code of a health check, by the status it was answered with, if any: 0 for 200.
pub fn health_code(status: Option<u16>) -> (r: u8)
    ensures
        r == if status == Some(200u16) {
            0u8
        } else {
            1
        },
{
    match status {
        Some(s) => if s == 200 {
            0
        } else {
            1
        },
        None => 1,
    }
}

// ---------------------------------------------------------------- what is sent, and where to

/// An event goes to the place of its instance below the receiver's address, whether or not that address
/// ends in a slash.
pub proof fn event_goes_to_its_instance(env: &Env, base: Seq<char>, hook: String, health: String)
    requires
        base.len() > 0,
        base.last() != '/',
        env.endpoint@ == base || env.endpoint@ == base + "/"@,
        call_ensures(Env::hook_url, (env,), hook),
        call_ensures(Env::health_url, (env,), health),
    ensures
        hook@ == base + "/"@ + env.instance_id@,
        health@ == base + "/health"@,
{
    reveal_strlit("/");
    if env.endpoint@ == base {
        lemma_trail_is(base, only('/'), 0);
        assert(strip_back(base, only('/')) =~= base);
    } else {
        let t = base + "/"@;
        assert(t[t.len() - 1] == '/');
        assert(t[t.len() - 2] == base.last());
        lemma_trail_is(t, only('/'), 1);
        assert(strip_back(t, only('/')) =~= base);
    }
}

/// The sender tells who it is by the token that it was given, and sends nothing where an address, an
/// instance or a token is missing.
pub proof fn sender_needs_all_three(
    endpoint: Option<String>,
    instance_id: Option<String>,
    token: Option<String>,
    env: Option<Env>,
)
    requires
        call_ensures(Env::from_vars, (endpoint, instance_id, token), env),
    ensures
        endpoint is None || instance_id is None || token is None ==> env is None,
        endpoint matches Some(t) ==> t@.len() == 0 ==> env is None,
        instance_id matches Some(t) ==> t@.len() == 0 ==> env is None,
        token matches Some(t) ==> t@.len() == 0 ==> env is None,
        env matches Some(e) ==> endpoint == Some(e.endpoint) && instance_id == Some(e.instance_id)
            && token == Some(e.token),
        endpoint is Some && instance_id is Some && token is Some && endpoint->0@.len() > 0
            && instance_id->0@.len() > 0 && token->0@.len() > 0 ==> env is Some,
{
}

/// What is sent of an event is told by name: the instance, the event that its payload names, when it was
/// sent, and the payload as it is.
pub proof fn body_tells_the_event(
    body: JsonView,
    instance_id: Seq<char>,
    payload: JsonView,
    at: Option<u64>,
)
    requires
        is_hook_body(body, instance_id, payload, at),
    ensures
        text_field(body, "instance_id"@) == Some(instance_id),
        field(body, "payload"@) == Some(payload),
        text_field(payload, "hook_event_name"@) is Some ==> text_field(body, "hook_event"@)
            == text_field(payload, "hook_event_name"@),
        text_field(payload, "hook_event_name"@) is None ==> text_field(body, "hook_event"@) == Some(
            "Unknown"@,
        ),
        at matches Some(n) ==> (field(body, "sent_at_us"@) matches Some(JsonView::Number(m)) && whole(m)
            == Some(n)),
        at is None ==> field(body, "sent_at_us"@) == Some(JsonView::Null),
{
    reveal_strlit("instance_id");
    reveal_strlit("hook_event");
    reveal_strlit("sent_at_us");
    reveal_strlit("payload");
    assert("instance_id"@.len() == 11 && "payload"@.len() == 7);
    assert("hook_event"@.len() == 10 && "hook_event"@[0] == 'h');
    assert("sent_at_us"@.len() == 10 && "sent_at_us"@[0] == 's');
}

/// What a health check sends is told by name.
pub proof fn health_body_tells_the_sender(instance_id: Seq<char>, version: Seq<char>, platform: Seq<char>)
    ensures
        ({
            let b = health_body_view(instance_id, version, platform);
            &&& text_field(b, "type"@) == Some("health_check"@)
            &&& text_field(b, "instance_id"@) == Some(instance_id)
            &&& text_field(b, "hook_binary_version"@) == Some(version)
            &&& text_field(b, "platform"@) == Some(platform)
        }),
{
    reveal_strlit("type");
    reveal_strlit("instance_id");
    reveal_strlit("hook_binary_version");
    reveal_strlit("platform");
    assert("type"@.len() == 4 && "instance_id"@.len() == 11);
    assert("hook_binary_version"@.len() == 19 && "platform"@.len() == 8);
}

/// An event that could not be sent is sent once more, and then no more.
pub proof fn event_is_tried_twice(first: Next, second: Next, sent: bool, again: bool)
    requires
        call_ensures(forward_hook, (0u32, sent), first),
        call_ensures(forward_hook, (1u32, again), second),
    ensures
        sent ==> first == Next::Done,
        !sent ==> first == Next::TryAgain,
        again ==> second == Next::Done,
        !again ==> second == Next::GiveUp,
{
}

/// A hook never fails the agent that called it: outside a health check every end is the code 0. A health
/// check without an address fails.
pub proof fn hook_never_fails_its_agent(
    env: &Option<Env>,
    health_check: bool,
    input: &Option<String>,
    task: Task,
)
    requires
        call_ensures(choose_task, (env, health_check, input), task),
    ensures
        !health_check ==> (task matches Task::Exit(c) ==> c == 0),
        !health_check ==> !(task is CheckHealth),
        health_check ==> !(task is Send),
        health_check && env is None ==> (task matches Task::Exit(c) && c != 0),
        health_check && env is Some ==> task is CheckHealth,
        task is Send ==> env is Some && input is Some,
{
}

/// A health check went well exactly where the receiver answered that all is well.
pub proof fn health_is_the_receivers_answer(status: Option<u16>, code: u8)
    requires
        call_ensures(health_code, (status,), code),
    ensures
        code == 0 <==> status == Some(200u16),
        code == 0 || code == 1,
{
}

/// The sender shows its token as a bearer.
pub proof fn sender_shows_its_token(env: &Env, r: String)
    requires
        call_ensures(Env::authorization, (env,), r),
    ensures
        r@ == "Bearer "@ + env.token@,
{
}

} // verus!
