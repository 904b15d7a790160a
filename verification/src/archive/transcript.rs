//! What one row of a transcript says: its message, and what it tells about its session.

use crate::calendar::{iso8601_to_unix_ms, iso_stamp};
use crate::json::{array_field, as_text, field, text_field, true_field, views, Json, JsonView};
use crate::split::{
    join, joined, joined_holds_each, joining_goes_by_parts, last_index_of, lemma_last_index_is,
    rfind_char, starts_with,
};
use crate::text::{
    blank, chars_of, copy, is_blank, lemma_texts_push, only, opt_text, same, string_of, strip_back,
    strip_front, texts, trim, trim_end_char, trimmed, whites, is_white, lemma_lead_is, lemma_trail_is,
    white,
};
use vstd::prelude::*;

verus! {

/// A message of a transcript.
pub struct Msg {
    pub uuid: Option<String>,
    pub parent_uuid: Option<String>,
    pub ts: Option<i64>,
    pub role: String,
    pub msg_type: String,
    pub tool_name: Option<String>,
    pub is_sidechain: bool,
    pub agent_id: Option<String>,
    pub text: Option<String>,
}

/// What a message is.
pub struct MsgView {
    pub uuid: Option<Seq<char>>,
    pub parent_uuid: Option<Seq<char>>,
    pub ts: Option<i64>,
    pub role: Seq<char>,
    pub msg_type: Seq<char>,
    pub tool_name: Option<Seq<char>>,
    pub is_sidechain: bool,
    pub agent_id: Option<Seq<char>>,
    pub text: Option<Seq<char>>,
}

impl Msg {
    pub open spec fn view(&self) -> MsgView {
        MsgView {
            uuid: opt_text(self.uuid),
            parent_uuid: opt_text(self.parent_uuid),
            ts: self.ts,
            role: self.role@,
            msg_type: self.msg_type@,
            tool_name: opt_text(self.tool_name),
            is_sidechain: self.is_sidechain,
            agent_id: opt_text(self.agent_id),
            text: opt_text(self.text),
        }
    }
}

/// The view of an optional message.
pub open spec fn opt_msg(o: Option<Msg>) -> Option<MsgView> {
    match o {
        Some(m) => Some(m.view()),
        None => None,
    }
}

// ---------------------------------------------------------------- small texts

/// At most `max` characters of `s`, with an ellipsis where some were left out.
pub open spec fn truncated(s: Seq<char>, max: nat) -> Seq<char> {
    if s.len() > max {
        s.take(max as int).push('…')
    } else {
        s
    }
}

/// At most `max` characters of `s`, with an ellipsis where some were left out.
pub fn truncate(s: &str, max: usize) -> (r: String)
    ensures
        r@ == truncated(s@, max as nat),
{
    let cs: Vec<char> = chars_of(s);
    if cs.len() > max {
        let mut out: String = string_of(&cs, 0, max);
        assert(out@ =~= s@.take(max as int));
        out.push('…');
        out
    } else {
        copy(s)
    }
}

/// Whether a text begins, after white space, with a tag that the harness wraps around its own
/// notes.
pub open spec fn noise(s: Seq<char>) -> bool {
    let t = strip_front(s, whites());
    ||| "<local-command-caveat>"@.is_prefix_of(t)
    ||| "<local-command-stdout>"@.is_prefix_of(t)
    ||| "<local-command-stderr>"@.is_prefix_of(t)
    ||| "<command-name>"@.is_prefix_of(t)
    ||| "<command-message>"@.is_prefix_of(t)
    ||| "<command-args>"@.is_prefix_of(t)
    ||| "<bash-input>"@.is_prefix_of(t)
    ||| "<bash-stdout>"@.is_prefix_of(t)
    ||| "<bash-stderr>"@.is_prefix_of(t)
    ||| "<system-reminder>"@.is_prefix_of(t)
}

/// Whether a text is a note of the harness and no prompt.
pub fn is_noise_prompt(text: &str) -> (r: bool)
    ensures
        r == noise(text@),
{
    let cs: Vec<char> = chars_of(text);
    let mut a: usize = 0;
    while a < cs.len() && is_white(cs[a])
        invariant
            a <= cs@.len(),
            forall|k: int| 0 <= k < a ==> white(#[trigger] cs@[k]),
        decreases cs@.len() - a,
    {
        a += 1;
    }
    let t: String = string_of(&cs, a, cs.len());
    proof {
        let p = whites();
        assert forall|k: int| 0 <= k < a implies p(#[trigger] cs@[k]) by {
            assert(white(cs@[k]));
        }
        lemma_lead_is(cs@, p, a as nat);
        assert(t@ =~= strip_front(text@, p));
    }
    let t: &str = t.as_str();
    starts_with(t, "<local-command-caveat>") || starts_with(t, "<local-command-stdout>")
        || starts_with(t, "<local-command-stderr>") || starts_with(t, "<command-name>")
        || starts_with(t, "<command-message>") || starts_with(t, "<command-args>") || starts_with(
        t,
        "<bash-input>",
    ) || starts_with(t, "<bash-stdout>") || starts_with(t, "<bash-stderr>") || starts_with(
        t,
        "<system-reminder>",
    )
}

/// The last component of a directory, slashes at its end left aside.
pub open spec fn project_of(cwd: Seq<char>) -> Option<Seq<char>> {
    let t = strip_back(cwd, only('/'));
    let n = t.skip(last_index_of(t, '/') + 1);
    if n.len() == 0 {
        None
    } else {
        Some(n)
    }
}

/// The project's name for display: the last component of its directory.
pub fn derive_project(cwd: &str) -> (r: Option<String>)
    ensures
        opt_text(r) == project_of(cwd@),
{
    let t: String = trim_end_char(cwd, '/');
    let cs: Vec<char> = chars_of(t.as_str());
    let i: usize = rfind_char(&cs, '/');
    let n: String = string_of(&cs, i, cs.len());
    assert(n@ =~= t@.skip(i as int));
    if i == cs.len() {
        None
    } else {
        Some(n)
    }
}

// ---------------------------------------------------------------- message bodies

/// The text that an assistant's block adds.
pub open spec fn text_part(block: JsonView) -> Option<Seq<char>> {
    if text_field(block, "type"@) == Some("text"@) {
        match text_field(block, "text"@) {
            Some(t) => if blank(t) {
                None
            } else {
                Some(trimmed(t))
            },
            None => None,
        }
    } else {
        None
    }
}

/// The tool that an assistant's block names.
pub open spec fn tool_part(block: JsonView) -> Option<Seq<char>> {
    if text_field(block, "type"@) == Some("tool_use"@) {
        text_field(block, "name"@)
    } else {
        None
    }
}

/// The texts that an assistant's blocks add, in order.
pub open spec fn text_parts(v: Seq<JsonView>) -> Seq<Seq<char>>
    decreases v.len(),
{
    if v.len() == 0 {
        seq![]
    } else {
        match text_part(v.last()) {
            Some(t) => text_parts(v.drop_last()).push(t),
            None => text_parts(v.drop_last()),
        }
    }
}

/// The first tool that an assistant's blocks name.
pub open spec fn first_tool(v: Seq<JsonView>) -> Option<Seq<char>>
    decreases v.len(),
{
    if v.len() == 0 {
        None
    } else if first_tool(v.drop_last()) is Some {
        first_tool(v.drop_last())
    } else {
        tool_part(v.last())
    }
}

/// Pieces joined by line feeds; nothing where there are none.
pub open spec fn joined_lines(v: Seq<Seq<char>>) -> Option<Seq<char>> {
    if v.len() == 0 {
        None
    } else {
        Some(joined(v, "\n"@))
    }
}

/// The text of a message that is a string or has one as its content.
pub open spec fn message_text(m: JsonView) -> Option<Seq<char>> {
    match as_text(m) {
        Some(s) => Some(s),
        None => text_field(m, "content"@),
    }
}

/// Text, kind and tool of an assistant's message.
pub open spec fn assistant_parts(message: Option<JsonView>) -> (
    Option<Seq<char>>,
    Seq<char>,
    Option<Seq<char>>,
) {
    let content = match message {
        Some(m) => array_field(m, "content"@),
        None => None,
    };
    match content {
        None => (
            match message {
                Some(m) => message_text(m),
                None => None,
            },
            "text"@,
            None,
        ),
        Some(v) => (
            joined_lines(text_parts(v)),
            if text_parts(v).len() > 0 {
                "text"@
            } else if first_tool(v) is Some {
                "tool_use"@
            } else {
                "thinking"@
            },
            first_tool(v),
        ),
    }
}

/// The text of the message as it stands.
pub fn value_to_text(m: &Json) -> (r: Option<String>)
    ensures
        opt_text(r) == message_text(m.view()),
{
    match m.as_str() {
        Some(s) => Some(copy(s)),
        None => m.get_string("content"),
    }
}

/// Text, kind and tool of an assistant's message.
pub fn extract_assistant(message: Option<&Json>) -> (r: (Option<String>, String, Option<String>))
    ensures
        ({
            let m = match message {
                Some(j) => Some(j.view()),
                None => None,
            };
            (opt_text(r.0), r.1@, opt_text(r.2)) == assistant_parts(m)
        }),
{
    let m: &Json = match message {
        Some(m) => m,
        None => {
            return (None, copy("text"), None);
        },
    };
    let content: &Vec<Json> = match m.get_array("content") {
        Some(v) => v,
        None => {
            return (value_to_text(m), copy("text"), None);
        },
    };
    let mut parts: Vec<String> = Vec::new();
    let mut tool: Option<String> = None;
    let mut i: usize = 0;
    while i < content.len()
        invariant
            i <= content@.len(),
            texts(parts@) == text_parts(views(content@).take(i as int)),
            opt_text(tool) == first_tool(views(content@).take(i as int)),
        decreases content@.len() - i,
    {
        let block: &Json = &content[i];
        proof {
            let t = views(content@).take(i + 1);
            assert(t.drop_last() =~= views(content@).take(i as int));
            assert(t.last() == block.view());
            reveal_strlit("text");
            reveal_strlit("tool_use");
            assert("text"@.len() != "tool_use"@.len());
        }
        if let Some(ty) = block.get_str("type") {
            if same(ty, "text") {
                if let Some(t) = block.get_str("text") {
                    if !is_blank(t) {
                        let piece: String = trim(t);
                        proof {
                            lemma_texts_push(parts@, piece);
                        }
                        parts.push(piece);
                    }
                }
            } else if same(ty, "tool_use") {
                if tool.is_none() {
                    tool = block.get_string("name");
                }
            }
        }
        i += 1;
    }
    assert(views(content@).take(content@.len() as int) =~= views(content@));
    assert(texts(parts@).len() == parts@.len());
    let kind: String = if parts.len() > 0 {
        copy("text")
    } else if tool.is_some() {
        copy("tool_use")
    } else {
        copy("thinking")
    };
    let text: Option<String> = if parts.len() == 0 {
        None
    } else {
        Some(join(&parts, "\n"))
    };
    (text, kind, tool)
}

/// The texts of the blocks of a tool's result, in order.
pub open spec fn inner_texts(v: Seq<JsonView>) -> Seq<Seq<char>>
    decreases v.len(),
{
    if v.len() == 0 {
        seq![]
    } else {
        match text_field(v.last(), "text"@) {
            Some(t) => inner_texts(v.drop_last()).push(t),
            None => inner_texts(v.drop_last()),
        }
    }
}

/// The text of a tool's result: a string, or blocks with texts.
pub open spec fn result_text(block: JsonView) -> Option<Seq<char>> {
    match field(block, "content"@) {
        Some(JsonView::Text(s)) => Some(s),
        Some(JsonView::Array(v)) => joined_lines(inner_texts(v)),
        _ => None,
    }
}

/// The text of a tool's result.
pub fn block_text(block: &Json) -> (r: Option<String>)
    ensures
        opt_text(r) == result_text(block.view()),
{
    let c: &Json = match block.get("content") {
        Some(c) => c,
        None => {
            return None;
        },
    };
    match c {
        Json::Text(s) => Some(copy(s.as_str())),
        Json::Array(v) => {
            let mut parts: Vec<String> = Vec::new();
            let mut i: usize = 0;
            while i < v.len()
                invariant
                    i <= v@.len(),
                    texts(parts@) == inner_texts(views(v@).take(i as int)),
                decreases v@.len() - i,
            {
                proof {
                    let t = views(v@).take(i + 1);
                    assert(t.drop_last() =~= views(v@).take(i as int));
                    assert(t.last() == v@[i as int].view());
                }
                if let Some(t) = v[i].get_string("text") {
                    proof {
                        lemma_texts_push(parts@, t);
                    }
                    parts.push(t);
                }
                i += 1;
            }
            proof {
                assert(views(v@).take(v@.len() as int) =~= views(v@));
                crate::json::lemma_array_view(*v);
                assert(texts(parts@).len() == parts@.len());
            }
            if parts.len() == 0 {
                None
            } else {
                Some(join(&parts, "\n"))
            }
        },
        _ => None,
    }
}

/// The texts of a user's blocks, in order.
pub open spec fn result_texts(v: Seq<JsonView>) -> Seq<Seq<char>>
    decreases v.len(),
{
    if v.len() == 0 {
        seq![]
    } else {
        match result_text(v.last()) {
            Some(t) => result_texts(v.drop_last()).push(t),
            None => result_texts(v.drop_last()),
        }
    }
}

/// Text and kind of a user's message.
pub open spec fn user_parts(message: Option<JsonView>) -> (Option<Seq<char>>, Seq<char>) {
    let content = match message {
        Some(m) => field(m, "content"@),
        None => None,
    };
    match content {
        Some(JsonView::Text(s)) => (Some(s), "text"@),
        Some(JsonView::Array(v)) => (joined_lines(result_texts(v)), "tool_result"@),
        _ => (None, "text"@),
    }
}

/// Text and kind of a user's message.
pub fn extract_user(message: Option<&Json>) -> (r: (Option<String>, String))
    ensures
        ({
            let m = match message {
                Some(j) => Some(j.view()),
                None => None,
            };
            (opt_text(r.0), r.1@) == user_parts(m)
        }),
{
    let content: &Json = match message {
        Some(m) => match m.get("content") {
            Some(c) => c,
            None => {
                return (None, copy("text"));
            },
        },
        None => {
            return (None, copy("text"));
        },
    };
    match content {
        Json::Text(s) => (Some(copy(s.as_str())), copy("text")),
        Json::Array(v) => {
            let mut parts: Vec<String> = Vec::new();
            let mut i: usize = 0;
            while i < v.len()
                invariant
                    i <= v@.len(),
                    texts(parts@) == result_texts(views(v@).take(i as int)),
                decreases v@.len() - i,
            {
                proof {
                    let t = views(v@).take(i + 1);
                    assert(t.drop_last() =~= views(v@).take(i as int));
                    assert(t.last() == v@[i as int].view());
                }
                if let Some(t) = block_text(&v[i]) {
                    proof {
                        lemma_texts_push(parts@, t);
                    }
                    parts.push(t);
                }
                i += 1;
            }
            proof {
                assert(views(v@).take(v@.len() as int) =~= views(v@));
                crate::json::lemma_array_view(*v);
                assert(texts(parts@).len() == parts@.len());
            }
            let text: Option<String> = if parts.len() == 0 {
                None
            } else {
                Some(join(&parts, "\n"))
            };
            (text, copy("tool_result"))
        },
        _ => (None, copy("text")),
    }
}

/// The text of a system row: its own content, unless that is blank or a note of the harness.
pub open spec fn system_text(v: JsonView) -> Option<Seq<char>> {
    match text_field(v, "content"@) {
        Some(s) => if blank(s) || noise(trimmed(s)) {
            None
        } else {
            Some(trimmed(s))
        },
        None => None,
    }
}

/// The text of a system row.
pub fn extract_system(v: &Json) -> (r: Option<String>)
    ensures
        opt_text(r) == system_text(v.view()),
{
    match v.get_str("content") {
        Some(s) => {
            let t: String = trim(s);
            if is_blank(s) || is_noise_prompt(t.as_str()) {
                None
            } else {
                Some(t)
            }
        },
        None => None,
    }
}

/// The message of a transcript row; nothing where the row is of another kind.
pub open spec fn message_of(v: JsonView) -> Option<MsgView> {
    match text_field(v, "type"@) {
        None => None,
        Some(ty) => if ty == "user"@ || ty == "assistant"@ || ty == "system"@ {
            let message = field(v, "message"@);
            let (text, kind, tool) = if ty == "assistant"@ {
                assistant_parts(message)
            } else if ty == "user"@ {
                (user_parts(message).0, user_parts(message).1, None)
            } else {
                (system_text(v), "system"@, None)
            };
            Some(
                MsgView {
                    uuid: text_field(v, "uuid"@),
                    parent_uuid: text_field(v, "parentUuid"@),
                    ts: match text_field(v, "timestamp"@) {
                        Some(t) => iso_stamp(t),
                        None => None,
                    },
                    role: ty,
                    msg_type: kind,
                    tool_name: tool,
                    is_sidechain: true_field(v, "isSidechain"@),
                    agent_id: text_field(v, "agentId"@),
                    text,
                },
            )
        } else {
            None
        },
    }
}

/// The message of a transcript row; nothing where the row is of another kind.
pub fn parse_message(v: &Json) -> (r: Option<Msg>)
    ensures
        opt_msg(r) == message_of(v.view()),
{
    let ty: &str = match v.get_str("type") {
        Some(t) => t,
        None => {
            return None;
        },
    };
    if !(same(ty, "user") || same(ty, "assistant") || same(ty, "system")) {
        return None;
    }
    let message: Option<&Json> = v.get("message");
    let (text, msg_type, tool_name): (Option<String>, String, Option<String>) = if same(
        ty,
        "assistant",
    ) {
        extract_assistant(message)
    } else if same(ty, "user") {
        let (t, k): (Option<String>, String) = extract_user(message);
        (t, k, None)
    } else {
        (extract_system(v), copy("system"), None)
    };
    let ts: Option<i64> = match v.get_str("timestamp") {
        Some(t) => iso8601_to_unix_ms(t),
        None => None,
    };
    Some(
        Msg {
            uuid: v.get_string("uuid"),
            parent_uuid: v.get_string("parentUuid"),
            ts,
            role: copy(ty),
            msg_type,
            tool_name,
            is_sidechain: v.get_true("isSidechain"),
            agent_id: v.get_string("agentId"),
            text,
        },
    )
}

// ---------------------------------------------------------------- what the archive keeps of a row

proof fn lemma_result_texts_add(a: Seq<JsonView>, b: Seq<JsonView>)
    ensures
        result_texts(a + b) == result_texts(a) + result_texts(b),
    decreases b.len(),
{
    if b.len() == 0 {
        assert(a + b =~= a);
        assert(result_texts(a) + result_texts(b) =~= result_texts(a));
    } else {
        lemma_result_texts_add(a, b.drop_last());
        assert((a + b).drop_last() =~= a + b.drop_last());
        assert((a + b).last() == b.last());
        assert(result_texts(a + b) =~= result_texts(a) + result_texts(b));
    }
}

proof fn lemma_inner_texts_add(a: Seq<JsonView>, b: Seq<JsonView>)
    ensures
        inner_texts(a + b) == inner_texts(a) + inner_texts(b),
    decreases b.len(),
{
    if b.len() == 0 {
        assert(a + b =~= a);
        assert(inner_texts(a) + inner_texts(b) =~= inner_texts(a));
    } else {
        lemma_inner_texts_add(a, b.drop_last());
        assert((a + b).drop_last() =~= a + b.drop_last());
        assert((a + b).last() == b.last());
        assert(inner_texts(a + b) =~= inner_texts(a) + inner_texts(b));
    }
}

proof fn lemma_text_parts_add(a: Seq<JsonView>, b: Seq<JsonView>)
    ensures
        text_parts(a + b) == text_parts(a) + text_parts(b),
        first_tool(a + b) == if first_tool(a) is Some {
            first_tool(a)
        } else {
            first_tool(b)
        },
    decreases b.len(),
{
    if b.len() == 0 {
        assert(a + b =~= a);
        assert(text_parts(a) + text_parts(b) =~= text_parts(a));
    } else {
        lemma_text_parts_add(a, b.drop_last());
        assert((a + b).drop_last() =~= a + b.drop_last());
        assert((a + b).last() == b.last());
        assert(text_parts(a + b) =~= text_parts(a) + text_parts(b));
    }
}

proof fn lemma_lines_add(a: Seq<Seq<char>>, b: Seq<Seq<char>>)
    ensures
        joined_lines(a + b) == match (joined_lines(a), joined_lines(b)) {
            (Some(x), Some(y)) => Some(x + "\n"@ + y),
            (Some(x), None) => Some(x),
            (None, y) => y,
        },
{
    if a.len() == 0 {
        assert(a + b =~= b);
    } else if b.len() == 0 {
        assert(a + b =~= a);
    } else {
        joining_goes_by_parts(a, b, "\n"@);
    }
}

proof fn lemma_one_block(block: JsonView)
    ensures
        result_texts(seq![block]) == match result_text(block) {
            Some(t) => seq![t],
            None => seq![],
        },
        inner_texts(seq![block]) == match text_field(block, "text"@) {
            Some(t) => seq![t],
            None => seq![],
        },
        text_parts(seq![block]) == match text_part(block) {
            Some(t) => seq![t],
            None => seq![],
        },
        first_tool(seq![block]) == tool_part(block),
{
    let v = seq![block];
    assert(v.drop_last() =~= seq![]);
    assert(result_texts(v.drop_last()) =~= seq![]);
    assert(inner_texts(v.drop_last()) =~= seq![]);
    assert(text_parts(v.drop_last()) =~= seq![]);
    assert(first_tool(v.drop_last()) is None);
    assert(result_texts(v) =~= match result_text(block) {
        Some(t) => seq![t],
        None => seq![],
    });
    assert(inner_texts(v) =~= match text_field(block, "text"@) {
        Some(t) => seq![t],
        None => seq![],
    });
    assert(text_parts(v) =~= match text_part(block) {
        Some(t) => seq![t],
        None => seq![],
    });
}

/// What a tool gave is in the message of its row: where a block of a user's row has a string as its
/// content, the message is one of a tool's result and its text holds that string.
pub proof fn tool_output_is_kept(
    row: JsonView,
    m: JsonView,
    v: Seq<JsonView>,
    i: int,
    s: Seq<char>,
)
    requires
        text_field(row, "type"@) == Some("user"@),
        field(row, "message"@) == Some(m),
        field(m, "content"@) == Some(JsonView::Array(v)),
        0 <= i < v.len(),
        field(v[i], "content"@) == Some(JsonView::Text(s)),
    ensures
        message_of(row) is Some,
        message_of(row)->0.msg_type == "tool_result"@,
        message_of(row)->0.text is Some,
        exists|a: Seq<char>, b: Seq<char>| message_of(row)->0.text->0 == #[trigger] (a + s + b),
        v.len() == 1 ==> message_of(row)->0.text == Some(s),
{
    reveal_strlit("user");
    reveal_strlit("assistant");
    assert("user"@.len() != "assistant"@.len());
    let front = v.take(i);
    let one = seq![v[i]];
    let back = v.skip(i + 1);
    assert(v =~= front + one + back);
    lemma_result_texts_add(front + one, back);
    lemma_result_texts_add(front, one);
    lemma_one_block(v[i]);
    let all = result_texts(v);
    let k = result_texts(front).len() as int;
    assert(all[k] == s);
    joined_holds_each(all, "\n"@, k);
    if v.len() == 1 {
        assert(v =~= one);
        assert(joined(seq![s], "\n"@) == s);
    }
}

/// What the blocks of a user's message say stands in their order, with a line feed between: the text
/// of two lists of blocks put together is the text of the one, a line feed and the text of the other.
pub proof fn tool_outputs_stand_in_order(
    m: JsonView,
    first: JsonView,
    second: JsonView,
    v: Seq<JsonView>,
    w: Seq<JsonView>,
)
    requires
        field(first, "content"@) == Some(JsonView::Array(v)),
        field(second, "content"@) == Some(JsonView::Array(w)),
        field(m, "content"@) == Some(JsonView::Array(v + w)),
    ensures
        user_parts(Some(m)).0 == match (user_parts(Some(first)).0, user_parts(Some(second)).0) {
            (Some(x), Some(y)) => Some(x + "\n"@ + y),
            (Some(x), None) => Some(x),
            (None, y) => y,
        },
{
    lemma_result_texts_add(v, w);
    lemma_lines_add(result_texts(v), result_texts(w));
}

/// A user's message has a text exactly where it is a string or one of its blocks has one: a string,
/// or a list in which a block has a text.
pub proof fn user_text_comes_from_its_blocks(m: JsonView)
    ensures
        user_parts(Some(m)).0 is Some <==> match field(m, "content"@) {
            Some(JsonView::Text(_)) => true,
            Some(JsonView::Array(v)) => exists|i: int|
                0 <= i < v.len() && match field(#[trigger] v[i], "content"@) {
                    Some(JsonView::Text(_)) => true,
                    Some(JsonView::Array(w)) => exists|k: int|
                        0 <= k < w.len() && text_field(#[trigger] w[k], "text"@) is Some,
                    _ => false,
                },
            _ => false,
        },
        field(m, "content"@) matches Some(JsonView::Text(s)) ==> user_parts(Some(m)) == (
            Some(s),
            "text"@,
        ),
        field(m, "content"@) is None ==> user_parts(Some(m)) == (None::<Seq<char>>, "text"@),
        user_parts(None) == (None::<Seq<char>>, "text"@),
{
    if let Some(JsonView::Array(v)) = field(m, "content"@) {
        lemma_some_result(v);
    }
}

proof fn lemma_some_inner(w: Seq<JsonView>)
    ensures
        inner_texts(w).len() > 0 <==> exists|k: int|
            0 <= k < w.len() && text_field(#[trigger] w[k], "text"@) is Some,
    decreases w.len(),
{
    if w.len() > 0 {
        let d = w.drop_last();
        lemma_some_inner(d);
        assert(w.last() == w[w.len() - 1]);
        if inner_texts(d).len() > 0 {
            let k = choose|k: int| 0 <= k < d.len() && text_field(#[trigger] d[k], "text"@) is Some;
            assert(w[k] == d[k]);
        }
        if exists|k: int| 0 <= k < w.len() && text_field(#[trigger] w[k], "text"@) is Some {
            let k = choose|k: int| 0 <= k < w.len() && text_field(#[trigger] w[k], "text"@) is Some;
            if k < d.len() {
                assert(d[k] == w[k]);
            }
        }
    }
}

proof fn lemma_some_result(v: Seq<JsonView>)
    ensures
        result_texts(v).len() > 0 <==> exists|i: int|
            0 <= i < v.len() && match field(#[trigger] v[i], "content"@) {
                Some(JsonView::Text(_)) => true,
                Some(JsonView::Array(w)) => exists|k: int|
                    0 <= k < w.len() && text_field(#[trigger] w[k], "text"@) is Some,
                _ => false,
            },
    decreases v.len(),
{
    if v.len() > 0 {
        let d = v.drop_last();
        lemma_some_result(d);
        assert(v.last() == v[v.len() - 1]);
        if let Some(JsonView::Array(w)) = field(v.last(), "content"@) {
            lemma_some_inner(w);
        }
        let says = |b: JsonView| match field(b, "content"@) {
            Some(JsonView::Text(_)) => true,
            Some(JsonView::Array(w)) => exists|k: int|
                0 <= k < w.len() && text_field(#[trigger] w[k], "text"@) is Some,
            _ => false,
        };
        assert(says(v.last()) <==> result_text(v.last()) is Some);
        if result_texts(d).len() > 0 {
            let i = choose|i: int| 0 <= i < d.len() && says(#[trigger] d[i]);
            assert(v[i] == d[i]);
        }
        if exists|i: int| 0 <= i < v.len() && says(#[trigger] v[i]) {
            let i = choose|i: int| 0 <= i < v.len() && says(#[trigger] v[i]);
            if i < d.len() {
                assert(d[i] == v[i]);
            }
        }
    }
}

/// The texts in the list that a tool gave stand in their order too, with a line feed between.
pub proof fn inner_outputs_stand_in_order(
    block: JsonView,
    first: JsonView,
    second: JsonView,
    v: Seq<JsonView>,
    w: Seq<JsonView>,
)
    requires
        field(first, "content"@) == Some(JsonView::Array(v)),
        field(second, "content"@) == Some(JsonView::Array(w)),
        field(block, "content"@) == Some(JsonView::Array(v + w)),
    ensures
        result_text(block) == match (result_text(first), result_text(second)) {
            (Some(x), Some(y)) => Some(x + "\n"@ + y),
            (Some(x), None) => Some(x),
            (None, y) => y,
        },
        v.len() == 1 ==> result_text(first) == text_field(v[0], "text"@),
        v.len() == 0 ==> result_text(first) is None,
{
    lemma_inner_texts_add(v, w);
    lemma_lines_add(inner_texts(v), inner_texts(w));
    if v.len() == 1 {
        lemma_one_block(v[0]);
        assert(v =~= seq![v[0]]);
        if let Some(t) = text_field(v[0], "text"@) {
            assert(joined(seq![t], "\n"@) == t);
        }
    }
}

/// What an assistant says is in the message: where a block of the kind `text` holds more than white
/// space, the message is one of text, and its text holds what the block says without the white space
/// at its ends.
pub proof fn assistant_words_are_kept(
    row: JsonView,
    m: JsonView,
    v: Seq<JsonView>,
    i: int,
    before: Seq<char>,
    s: Seq<char>,
    after: Seq<char>,
)
    requires
        text_field(row, "type"@) == Some("assistant"@),
        field(row, "message"@) == Some(m),
        field(m, "content"@) == Some(JsonView::Array(v)),
        0 <= i < v.len(),
        text_field(v[i], "type"@) == Some("text"@),
        text_field(v[i], "text"@) == Some(before + s + after),
        forall|k: int| 0 <= k < before.len() ==> white(#[trigger] before[k]),
        forall|k: int| 0 <= k < after.len() ==> white(#[trigger] after[k]),
        s.len() > 0,
        !white(s[0]),
        !white(s.last()),
    ensures
        message_of(row) is Some,
        message_of(row)->0.msg_type == "text"@,
        message_of(row)->0.text is Some,
        exists|a: Seq<char>, b: Seq<char>| message_of(row)->0.text->0 == #[trigger] (a + s + b),
        v.len() == 1 ==> message_of(row)->0.text == Some(s),
{
    crate::text::trimming_takes_the_white_ends(before, s, after);
    let front = v.take(i);
    let one = seq![v[i]];
    let back = v.skip(i + 1);
    assert(v =~= front + one + back);
    lemma_text_parts_add(front + one, back);
    lemma_text_parts_add(front, one);
    lemma_one_block(v[i]);
    let all = text_parts(v);
    let k = text_parts(front).len() as int;
    assert(all[k] == s);
    joined_holds_each(all, "\n"@, k);
    if v.len() == 1 {
        assert(v =~= one);
        assert(joined(seq![s], "\n"@) == s);
    }
}

/// What an assistant's blocks say stands in their order, with a line feed between, and the tool is
/// the first that a block names.
pub proof fn assistant_words_stand_in_order(
    m: JsonView,
    first: JsonView,
    second: JsonView,
    v: Seq<JsonView>,
    w: Seq<JsonView>,
)
    requires
        field(first, "content"@) == Some(JsonView::Array(v)),
        field(second, "content"@) == Some(JsonView::Array(w)),
        field(m, "content"@) == Some(JsonView::Array(v + w)),
    ensures
        assistant_parts(Some(m)).0 == match (
            assistant_parts(Some(first)).0,
            assistant_parts(Some(second)).0,
        ) {
            (Some(x), Some(y)) => Some(x + "\n"@ + y),
            (Some(x), None) => Some(x),
            (None, y) => y,
        },
        assistant_parts(Some(m)).2 == match assistant_parts(Some(first)).2 {
            Some(t) => Some(t),
            None => assistant_parts(Some(second)).2,
        },
{
    lemma_text_parts_add(v, w);
    lemma_lines_add(text_parts(v), text_parts(w));
}

/// A block adds to an assistant's message by its kind alone: a `tool_use` its name, a `text` what it
/// says, every other nothing.
pub proof fn assistant_block_adds_by_kind(m: JsonView, block: JsonView)
    requires
        field(m, "content"@) == Some(JsonView::Array(seq![block])),
    ensures
        text_field(block, "type"@) == Some("tool_use"@) ==> assistant_parts(Some(m)).2 == text_field(
            block,
            "name"@,
        ),
        text_field(block, "type"@) != Some("tool_use"@) ==> assistant_parts(Some(m)).2 is None,
        text_field(block, "type"@) != Some("text"@) ==> assistant_parts(Some(m)).0 is None,
        text_field(block, "text"@) is None ==> assistant_parts(Some(m)).0 is None,
        text_field(block, "text"@) matches Some(t) ==> (forall|k: int|
            0 <= k < t.len() ==> white(#[trigger] t[k])) ==> assistant_parts(Some(m)).0 is None,
{
    lemma_one_block(block);
    if let Some(t) = text_field(block, "text"@) {
        crate::text::lemma_blank(t);
    }
}

/// The kind of an assistant's message that is a list of blocks: `text` where it says something, else
/// `tool_use` where it names a tool, else `thinking`.
pub proof fn assistant_kind_follows_its_parts(m: JsonView, v: Seq<JsonView>)
    requires
        field(m, "content"@) == Some(JsonView::Array(v)),
    ensures
        assistant_parts(Some(m)).0 is Some ==> assistant_parts(Some(m)).1 == "text"@,
        assistant_parts(Some(m)).0 is None && assistant_parts(Some(m)).2 is Some
            ==> assistant_parts(Some(m)).1 == "tool_use"@,
        assistant_parts(Some(m)).0 is None && assistant_parts(Some(m)).2 is None
            ==> assistant_parts(Some(m)).1 == "thinking"@,
        v.len() == 0 ==> assistant_parts(Some(m)).0 is None && assistant_parts(Some(m)).2 is None,
{
}

/// An assistant's message that is a string, or has one as its content, says that string.
pub proof fn assistant_string_is_kept(m: JsonView, s: Seq<char>)
    requires
        m == JsonView::Text(s) || field(m, "content"@) == Some(JsonView::Text(s)),
    ensures
        assistant_parts(Some(m)) == (Some(s), "text"@, None::<Seq<char>>),
{
}

/// A row has a message exactly where it is a user's, an assistant's or the system's, and the message
/// carries what the row says of itself: who speaks, its own id and that of the one before it, when it
/// was written and whether an agent of its own wrote it.
pub proof fn message_carries_its_row(row: JsonView)
    ensures
        message_of(row) is Some <==> text_field(row, "type"@) == Some("user"@) || text_field(
            row,
            "type"@,
        ) == Some("assistant"@) || text_field(row, "type"@) == Some("system"@),
        message_of(row) matches Some(m) ==> {
            &&& Some(m.role) == text_field(row, "type"@)
            &&& m.uuid == text_field(row, "uuid"@)
            &&& m.parent_uuid == text_field(row, "parentUuid"@)
            &&& m.agent_id == text_field(row, "agentId"@)
            &&& m.is_sidechain <==> field(row, "isSidechain"@) == Some(JsonView::Bool(true))
            &&& text_field(row, "timestamp"@) is None ==> m.ts is None
            &&& text_field(row, "timestamp"@) matches Some(t) ==> m.ts == iso_stamp(t)
            &&& m.role == "system"@ ==> m.msg_type == "system"@ && m.tool_name is None
            &&& m.role == "user"@ ==> m.tool_name is None
        },
{
    reveal_strlit("user");
    reveal_strlit("assistant");
    reveal_strlit("system");
    assert("user"@.len() == 4 && "assistant"@.len() == 9 && "system"@.len() == 6);
}

/// A system row says its content without the white space at its ends, unless it is one of the notes
/// that the harness writes between tags.
pub proof fn system_words_are_kept(
    row: JsonView,
    before: Seq<char>,
    s: Seq<char>,
    after: Seq<char>,
)
    requires
        text_field(row, "type"@) == Some("system"@),
        text_field(row, "content"@) == Some(before + s + after),
        forall|k: int| 0 <= k < before.len() ==> white(#[trigger] before[k]),
        forall|k: int| 0 <= k < after.len() ==> white(#[trigger] after[k]),
        s.len() > 0 ==> !white(s[0]) && !white(s.last()),
    ensures
        message_of(row) is Some,
        s.len() == 0 ==> message_of(row)->0.text is None,
        s.len() > 0 && s[0] != '<' ==> message_of(row)->0.text == Some(s),
        s.len() > 0 ==> message_of(row)->0.text is None || message_of(row)->0.text == Some(s),
{
    reveal_strlit("user");
    reveal_strlit("assistant");
    reveal_strlit("system");
    assert("user"@.len() == 4 && "assistant"@.len() == 9 && "system"@.len() == 6);
    let t = before + s + after;
    if s.len() == 0 {
        assert forall|k: int| 0 <= k < t.len() implies white(#[trigger] t[k]) by {
            if k < before.len() {
                assert(t[k] == before[k]);
            } else {
                assert(t[k] == after[k - before.len()]);
            }
        }
        crate::text::lemma_blank(t);
    } else {
        crate::text::trimming_takes_the_white_ends(before, s, after);
        lemma_lead_is(s, whites(), 0);
        assert(strip_front(s, whites()) =~= s);
        if s[0] != '<' {
            lemma_tags_begin();
            assert(!noise(s));
        }
    }
}

proof fn lemma_tags_begin()
    ensures
        forall|tag: Seq<char>, s: Seq<char>|
            #![trigger tag.is_prefix_of(s)]
            tag.len() > 0 && tag[0] == '<' && tag.is_prefix_of(s) ==> s[0] == '<',
        "<local-command-caveat>"@.len() > 0 && "<local-command-caveat>"@[0] == '<',
        "<local-command-stdout>"@.len() > 0 && "<local-command-stdout>"@[0] == '<',
        "<local-command-stderr>"@.len() > 0 && "<local-command-stderr>"@[0] == '<',
        "<command-name>"@.len() > 0 && "<command-name>"@[0] == '<',
        "<command-message>"@.len() > 0 && "<command-message>"@[0] == '<',
        "<command-args>"@.len() > 0 && "<command-args>"@[0] == '<',
        "<bash-input>"@.len() > 0 && "<bash-input>"@[0] == '<',
        "<bash-stdout>"@.len() > 0 && "<bash-stdout>"@[0] == '<',
        "<bash-stderr>"@.len() > 0 && "<bash-stderr>"@[0] == '<',
        "<system-reminder>"@.len() > 0 && "<system-reminder>"@[0] == '<',
{
    reveal_strlit("<local-command-caveat>");
    reveal_strlit("<local-command-stdout>");
    reveal_strlit("<local-command-stderr>");
    reveal_strlit("<command-name>");
    reveal_strlit("<command-message>");
    reveal_strlit("<command-args>");
    reveal_strlit("<bash-input>");
    reveal_strlit("<bash-stdout>");
    reveal_strlit("<bash-stderr>");
    reveal_strlit("<system-reminder>");
    assert forall|tag: Seq<char>, s: Seq<char>|
        #![trigger tag.is_prefix_of(s)]
        tag.len() > 0 && tag[0] == '<' && tag.is_prefix_of(s) implies s[0] == '<' by {
        assert(s.subrange(0, tag.len() as int)[0] == tag[0]);
    }
}

/// A text is a note of the harness whatever stands behind the tag it begins with and whatever white
/// space before it; a text that begins with none of the tags is none.
pub proof fn notes_are_told_by_their_tag(before: Seq<char>, tag: Seq<char>, rest: Seq<char>)
    requires
        forall|k: int| 0 <= k < before.len() ==> white(#[trigger] before[k]),
        tag == "<local-command-caveat>"@ || tag == "<local-command-stdout>"@ || tag
            == "<local-command-stderr>"@ || tag == "<command-name>"@ || tag
            == "<command-message>"@ || tag == "<command-args>"@ || tag == "<bash-input>"@ || tag
            == "<bash-stdout>"@ || tag == "<bash-stderr>"@ || tag == "<system-reminder>"@,
    ensures
        noise(before + tag + rest),
        rest.len() > 0 && !white(rest[0]) && rest[0] != '<' ==> !noise(before + rest),
{
    lemma_tags_begin();
    let t = before + tag + rest;
    assert(t[before.len() as int] == '<');
    assert forall|k: int| 0 <= k < before.len() implies (whites())(#[trigger] t[k]) by {
        assert(t[k] == before[k]);
    }
    lemma_lead_is(t, whites(), before.len());
    assert(t.skip(before.len() as int) =~= tag + rest);
    assert((tag + rest).subrange(0, tag.len() as int) =~= tag);
    assert(tag.is_prefix_of(strip_front(t, whites())));
    if rest.len() > 0 && !white(rest[0]) && rest[0] != '<' {
        let u = before + rest;
        assert(u[before.len() as int] == rest[0]);
        assert forall|k: int| 0 <= k < before.len() implies (whites())(#[trigger] u[k]) by {
            assert(u[k] == before[k]);
        }
        lemma_lead_is(u, whites(), before.len());
        assert(strip_front(u, whites()) =~= rest);
    }
}

/// A text that is short enough stays; of a longer one the first characters stay, with one ellipsis
/// behind them.
pub proof fn truncating_keeps_the_front(s: Seq<char>, max: nat)
    ensures
        s.len() <= max ==> truncated(s, max) == s,
        s.len() > max ==> truncated(s, max).len() == max + 1 && truncated(s, max).last() == '…' && (
        forall|k: int| 0 <= k < max ==> #[trigger] truncated(s, max)[k] == s[k]),
{
}

/// A project is named after the last component of its directory, with or without slashes behind it.
pub proof fn project_is_the_last_component(dir: Seq<char>, name: Seq<char>, slashes: Seq<char>)
    requires
        name.len() > 0,
        !name.contains('/'),
        forall|k: int| 0 <= k < slashes.len() ==> #[trigger] slashes[k] == '/',
    ensures
        project_of(dir + "/"@ + name + slashes) == Some(name),
        project_of(name + slashes) == Some(name),
        project_of(slashes) is None,
{
    reveal_strlit("/");
    let p = only('/');
    assert forall|k: int| 0 <= k < name.len() implies #[trigger] name[k] != '/' by {
        assert(name.contains(name[k]));
    }
    let a = dir + "/"@ + name + slashes;
    assert(a.take(a.len() - slashes.len()) =~= dir + "/"@ + name);
    assert(a[a.len() - slashes.len() - 1] == name.last());
    lemma_trail_is(a, p, slashes.len());
    let t = dir + "/"@ + name;
    assert forall|k: int| dir.len() < k < t.len() implies #[trigger] t[k] != '/' by {
        assert(t[k] == name[k - dir.len() - 1]);
    }
    lemma_last_index_is(t, '/', dir.len() as int);
    assert(t.skip(dir.len() as int + 1) =~= name);
    let b = name + slashes;
    assert(b.take(b.len() - slashes.len()) =~= name);
    assert(b[b.len() - slashes.len() - 1] == name.last());
    lemma_trail_is(b, p, slashes.len());
    lemma_last_index_is(name, '/', -1);
    assert(name.skip(0) =~= name);
    lemma_trail_is(slashes, p, slashes.len());
    let e = Seq::<char>::empty();
    assert(slashes.take(0) =~= e);
    lemma_last_index_is(e, '/', -1);
    assert(e.skip(0).len() == 0);
}

} // verus!
