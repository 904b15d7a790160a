//! What the server that receives hook events answers.

use crate::hook_receiver::events::{HookEvent, HookEventKind};
use crate::json::Json;
use crate::number::{decimal, push_u64};
use crate::split::strip_prefix;
use crate::text::{copy, opt_text, same};
use rand::distributions::{Alphanumeric, DistString};
use vstd::prelude::*;

verus! {

/// An event that was received.
pub struct ReceivedHook {
    pub instance_id: String,
    pub kind: HookEventKind,
    /// When it was sent; events that overtook each other are told by it.
    pub sent_at_us: Option<u64>,
    pub payload: Json,
}

/// What a request is answered.
#[derive(Clone, Copy, PartialEq, Eq, Debug, Structural)]
pub enum Answer {
    Accepted,
    BadRequest,
    Unauthorized,
    /// Nobody takes the event any more.
    InternalError,
}

impl Answer {
    /// The status code of an answer.
    pub fn code(self) -> (r: u16)
        ensures
            r == match self {
                Answer::Accepted => 200u16,
                Answer::BadRequest => 400,
                Answer::Unauthorized => 401,
                Answer::InternalError => 500,
            },
    {
        match self {
            Answer::Accepted => 200,
            Answer::BadRequest => 400,
            Answer::Unauthorized => 401,
            Answer::InternalError => 500,
        }
    }
}

/// The server that receives hook events.
pub struct HookReceiver;

/// The length of a token.
pub const TOKEN_CHARS: usize = 32;

/// Whether a character is an ASCII letter or digit.
pub open spec fn alphanumeric(c: char) -> bool {
    ('0' <= c && c <= '9') || ('A' <= c && c <= 'Z') || ('a' <= c && c <= 'z')
}

/// `Alphanumeric.sample_string` of the `rand` crate, on the thread's own generator: so many
/// characters, each an ASCII letter or digit. Which ones is left to chance.
#[verifier::external_body]
fn random_text(len: usize) -> (r: String)
    ensures
        r@.len() == len,
        forall|i: int| 0 <= i < r@.len() ==> alphanumeric(#[trigger] r@[i]),
{
    Alphanumeric.sample_string(&mut rand::thread_rng(), len)
}

/// Where a server on this port listens.
pub open spec fn endpoint_of(port: u16) -> Seq<char> {
    "http://127.0.0.1:"@ + decimal(port as nat) + "/hook"@
}

/// The token in an `Authorization` header, with or without the word before it.
pub open spec fn bearer(header: Seq<char>) -> Seq<char> {
    if "Bearer "@.is_prefix_of(header) {
        header.skip("Bearer "@.len() as int)
    } else {
        header
    }
}

/// Whether a request carries the token.
pub open spec fn authorized(header: Option<Seq<char>>, token: Seq<char>) -> bool {
    header is Some && bearer(header->0) == token
}

/// Whether a request carries the token; a header that is no text does not.
pub fn check_auth(header: &Option<String>, expected: &str) -> (r: bool)
    ensures
        r == authorized(opt_text(*header), expected@),
{
    match header {
        Some(h) => match strip_prefix(h.as_str(), "Bearer ") {
            Some(t) => same(t.as_str(), expected),
            None => same(h.as_str(), expected),
        },
        None => false,
    }
}

impl HookReceiver {
    /// A token for a server: it can stand in a header as it is.
    pub fn new_token() -> (r: String)
        ensures
            r@.len() == TOKEN_CHARS,
            forall|i: int| 0 <= i < r@.len() ==> alphanumeric(#[trigger] r@[i]),
    {
        random_text(TOKEN_CHARS)
    }

    /// Where a server on this port listens.
    pub fn endpoint(port: u16) -> (r: String)
        ensures
            r@ == endpoint_of(port),
    {
        let mut s: String = copy("http://127.0.0.1:");
        push_u64(&mut s, port as u64);
        s.append("/hook");
        s
    }

    /// What a health check is answered.
    pub fn health_handler(header: &Option<String>, token: &str) -> (r: Answer)
        ensures
            r == if authorized(opt_text(*header), token@) {
                Answer::Accepted
            } else {
                Answer::Unauthorized
            },
    {
        if check_auth(header, token) {
            Answer::Accepted
        } else {
            Answer::Unauthorized
        }
    }

    /// The event of a request, which is to be handed on; or what the request is answered. The
    /// event must be of the instance that the request's path names.
    pub fn hook_handler(
        header: &Option<String>,
        token: &str,
        instance_id: &str,
        event: HookEvent,
    ) -> (r: Result<ReceivedHook, Answer>)
        ensures
            if !authorized(opt_text(*header), token@) {
                r == Err::<ReceivedHook, Answer>(Answer::Unauthorized)
            } else if event.instance_id@ != instance_id@ {
                r == Err::<ReceivedHook, Answer>(Answer::BadRequest)
            } else {
                &&& r is Ok
                &&& r->Ok_0.instance_id@ == instance_id@
                &&& r->Ok_0.kind == HookEventKind::named(event.hook_event@)
                &&& r->Ok_0.sent_at_us == event.sent_at_us
                &&& r->Ok_0.payload == event.payload
            },
    {
        if !check_auth(header, token) {
            return Err(Answer::Unauthorized);
        }
        if !same(event.instance_id.as_str(), instance_id) {
            return Err(Answer::BadRequest);
        }
        Ok(
            ReceivedHook {
                instance_id: copy(instance_id),
                kind: HookEventKind::from_str(event.hook_event.as_str()),
                sent_at_us: event.sent_at_us,
                payload: event.payload,
            },
        )
    }

    /// What a request is answered once its event was handed on, or could not be.
    pub fn handed_on(taken: bool) -> (r: Answer)
        ensures
            r == if taken {
                Answer::Accepted
            } else {
                Answer::InternalError
            },
    {
        if taken {
            Answer::Accepted
        } else {
            Answer::InternalError
        }
    }
}

/// A request without the token is refused, whatever it carries; nothing of it is handed on.
pub proof fn without_the_token_nothing_passes(header: Option<Seq<char>>, token: Seq<char>)
    ensures
        authorized(header, token) <==> header == Some(token) && !"Bearer "@.is_prefix_of(token)
            || (header is Some && header->0 == "Bearer "@ + token),
{
    if header is Some {
        let h = header->0;
        if "Bearer "@.is_prefix_of(h) {
            assert(h =~= "Bearer "@ + h.skip("Bearer "@.len() as int));
            if h == "Bearer "@ + token {
                assert(h.skip("Bearer "@.len() as int) =~= token);
            }
        } else if h == "Bearer "@ + token {
            assert("Bearer "@ =~= h.take("Bearer "@.len() as int));
        }
    }
}

/// An event passes exactly where the request carries the token and speaks of the instance that it was
/// sent to; it is handed on as it came. A request without the token learns nothing else.
pub proof fn event_passes_as_it_came(
    header: &Option<String>,
    token: &str,
    instance_id: &str,
    event: HookEvent,
    r: Result<ReceivedHook, Answer>,
)
    requires
        call_ensures(HookReceiver::hook_handler, (header, token, instance_id, event), r),
    ensures
        opt_text(*header) == Some("Bearer "@ + token@) && event.instance_id@ == instance_id@ ==> r is Ok,
        header is None ==> r == Err::<ReceivedHook, Answer>(Answer::Unauthorized),
        opt_text(*header) == Some("Bearer "@ + token@) && event.instance_id@ != instance_id@ ==> r == Err::<
            ReceivedHook,
            Answer,
        >(Answer::BadRequest),
        opt_text(*header) != Some("Bearer "@ + token@) && opt_text(*header) != Some(token@) ==> r == Err::<
            ReceivedHook,
            Answer,
        >(Answer::Unauthorized),
        r matches Ok(h) ==> h.instance_id@ == event.instance_id@ && h.payload == event.payload
            && h.sent_at_us == event.sent_at_us && h.kind == HookEventKind::named(event.hook_event@),
{
    without_the_token_nothing_passes(opt_text(*header), token@);
}

/// A health check is answered that all is well exactly where it carries the token.
pub proof fn health_needs_the_token(header: &Option<String>, token: &str, r: Answer)
    requires
        call_ensures(HookReceiver::health_handler, (header, token), r),
    ensures
        opt_text(*header) == Some("Bearer "@ + token@) ==> r == Answer::Accepted,
        opt_text(*header) != Some("Bearer "@ + token@) && opt_text(*header) != Some(token@) ==> r
            == Answer::Unauthorized,
{
    without_the_token_nothing_passes(opt_text(*header), token@);
}

/// The answers are told by the usual codes, and one that nobody took by a failure.
pub proof fn answers_have_their_codes(a: Answer, code: u16, taken: bool, handed: Answer)
    requires
        call_ensures(Answer::code, (a,), code),
        call_ensures(HookReceiver::handed_on, (taken,), handed),
    ensures
        code == 200 <==> a == Answer::Accepted,
        code == 401 <==> a == Answer::Unauthorized,
        code == 400 <==> a == Answer::BadRequest,
        code == 500 <==> a == Answer::InternalError,
        taken ==> handed == Answer::Accepted,
        !taken ==> handed == Answer::InternalError,
{
}

/// The address that instances send to is on this machine alone, at the port given.
pub proof fn address_is_of_this_machine(port: u16)
    ensures
        "http://127.0.0.1:"@.is_prefix_of(endpoint_of(port)),
        "/hook"@.is_suffix_of(endpoint_of(port)),
        endpoint_of(port) == "http://127.0.0.1:"@ + (decimal(port as nat) + "/hook"@),
{
    let t = endpoint_of(port);
    let a = "http://127.0.0.1:"@;
    let b = "/hook"@;
    assert(t =~= a + (decimal(port as nat) + b));
    assert(t.subrange(0, a.len() as int) =~= a);
    assert(t.subrange(t.len() - b.len(), t.len() as int) =~= b);
}

} // verus!
