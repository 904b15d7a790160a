//! Leaving out thinking blocks that hold nothing to read.
//!
//! A `redacted_thinking` block, and a `thinking` block whose body is blank, carry only an opaque
//! signature. A thinking block with a body stays.

use crate::json::{
    array_field, compact, copied_with, field, json_of_text, lemma_array_view, opt_json, parse,
    text_field, to_text, views, with_field, Json, JsonView,
};
use crate::text::{blank, is_blank, lemma_blank, same, white};
use std::borrow::Cow;
use vstd::prelude::*;

verus! {

/// Whether a content block is thinking with nothing to read in it.
pub open spec fn empty_thinking(block: JsonView) -> bool {
    match text_field(block, "type"@) {
        Some(ty) => if ty == "redacted_thinking"@ {
            true
        } else if ty == "thinking"@ {
            match text_field(block, "thinking"@) {
                Some(body) => blank(body),
                None => true,
            }
        } else {
            false
        },
        None => false,
    }
}

/// The blocks that stay.
pub open spec fn kept(v: Seq<JsonView>) -> Seq<JsonView>
    decreases v.len(),
{
    if v.len() == 0 {
        seq![]
    } else if empty_thinking(v.last()) {
        kept(v.drop_last())
    } else {
        kept(v.drop_last()).push(v.last())
    }
}

/// The blocks of a transcript row's message.
pub open spec fn content_of(j: JsonView) -> Option<Seq<JsonView>> {
    match field(j, "message"@) {
        Some(m) => array_field(m, "content"@),
        None => None,
    }
}

/// The row without its empty thinking blocks; nothing where it has none.
pub open spec fn stripped(j: JsonView) -> Option<JsonView> {
    match field(j, "message"@) {
        Some(m) => match array_field(m, "content"@) {
            Some(c) => if kept(c).len() == c.len() {
                None
            } else {
                Some(
                    with_field(j, "message"@, with_field(m, "content"@, JsonView::Array(kept(c)))),
                )
            },
            None => None,
        },
        None => None,
    }
}

/// The text to keep for a row.
pub open spec fn stripped_text(raw: Seq<char>) -> Seq<char> {
    match json_of_text(raw) {
        Some(j) => match stripped(j) {
            Some(k) => compact(k),
            None => raw,
        },
        None => raw,
    }
}

proof fn lemma_kept(v: Seq<JsonView>)
    ensures
        kept(v).len() <= v.len(),
        forall|i: int| 0 <= i < kept(v).len() ==> !empty_thinking(#[trigger] kept(v)[i]),
        kept(v).len() == v.len() ==> kept(v) == v,
        (forall|i: int| 0 <= i < v.len() ==> !empty_thinking(#[trigger] v[i])) ==> kept(v) == v,
    decreases v.len(),
{
    if v.len() > 0 {
        lemma_kept(v.drop_last());
        if kept(v).len() == v.len() {
            assert(kept(v) =~= v);
        }
        if forall|i: int| 0 <= i < v.len() ==> !empty_thinking(#[trigger] v[i]) {
            assert(!empty_thinking(v[v.len() - 1]));
            assert forall|i: int| 0 <= i < v.drop_last().len() implies !empty_thinking(
                #[trigger] v.drop_last()[i],
            ) by {
                assert(!empty_thinking(v[i]));
            }
            assert(kept(v) =~= v);
        }
    }
}

/// A stripped row has nothing left to strip, and no field but the message's content changed.
pub proof fn stripping_is_final(j: JsonView)
    requires
        stripped(j) is Some,
    ensures
        stripped(stripped(j)->0) is None,
        content_of(stripped(j)->0) == Some(kept(content_of(j)->0)),
        forall|key: Seq<char>|
            key != "message"@ ==> field(stripped(j)->0, key) == #[trigger] field(j, key),
{
    let m = field(j, "message"@)->0;
    let c = array_field(m, "content"@)->0;
    lemma_kept(c);
    lemma_kept(kept(c));
    let k = stripped(j)->0;
    let m2 = with_field(m, "content"@, JsonView::Array(kept(c)));
    assert(field(m2, "content"@) == Some(JsonView::Array(kept(c))));
    assert(field(k, "message"@) == Some(m2));
}

/// A thinking block with a body that is not blank always stays.
pub proof fn thinking_with_a_body_stays(block: JsonView)
    requires
        text_field(block, "type"@) == Some("thinking"@),
        text_field(block, "thinking"@) is Some,
        !blank(text_field(block, "thinking"@)->0),
    ensures
        !empty_thinking(block),
{
    reveal_strlit("thinking");
    reveal_strlit("redacted_thinking");
    assert("thinking"@.len() != "redacted_thinking"@.len());
}

/// Whether a content block is thinking with nothing to read in it.
pub fn is_empty_thinking(block: &Json) -> (r: bool)
    ensures
        r == empty_thinking(block.view()),
{
    match block.get_str("type") {
        Some(ty) => if same(ty, "redacted_thinking") {
            true
        } else if same(ty, "thinking") {
            match block.get_str("thinking") {
                Some(body) => is_blank(body),
                None => true,
            }
        } else {
            false
        },
        None => false,
    }
}

/// The row without its empty thinking blocks; nothing where it has none.
pub fn strip_row(j: &Json) -> (r: Option<Json>)
    ensures
        opt_json(r) == stripped(j.view()),
{
    let m: &Json = match j.get("message") {
        Some(m) => m,
        None => {
            return None;
        },
    };
    let c: &Vec<Json> = match m.get_array("content") {
        Some(c) => c,
        None => {
            return None;
        },
    };
    let mut out: Vec<Json> = Vec::new();
    let mut i: usize = 0;
    while i < c.len()
        invariant
            i <= c@.len(),
            views(out@) == kept(views(c@).take(i as int)),
        decreases c@.len() - i,
    {
        let ghost before = out@;
        if !is_empty_thinking(&c[i]) {
            let x: Json = c[i].copied();
            out.push(x);
            assert(views(out@) =~= views(before).push(x.view()));
        }
        i += 1;
        proof {
            let t = views(c@).take(i as int);
            assert(t.drop_last() =~= views(c@).take(i - 1));
            assert(t.last() == c@[i - 1].view());
        }
    }
    assert(views(c@).take(c@.len() as int) =~= views(c@));
    assert(views(out@).len() == out@.len());
    if out.len() == c.len() {
        return None;
    }
    proof {
        lemma_array_view(out);
    }
    let m2: Json = copied_with(m, "content", Json::Array(out));
    Some(copied_with(j, "message", m2))
}

/// The text to keep for a transcript row: without empty thinking blocks, and as it stands where
/// it has none or is no JSON.
pub fn strip_empty_thinking_blocks(raw: &str) -> (r: Cow<'_, str>)
    ensures
        r@ == stripped_text(raw@),
        r is Borrowed <==> (json_of_text(raw@) is None || stripped(json_of_text(raw@)->0) is None),
{
    match parse(raw) {
        Some(j) => match strip_row(&j) {
            Some(k) => Cow::Owned(to_text(&k)),
            None => Cow::Borrowed(raw),
        },
        None => Cow::Borrowed(raw),
    }
}

/// Only thinking that says nothing is empty: what was redacted, and what has no body or a blank one.
pub proof fn only_silent_thinking_is_empty(block: JsonView)
    ensures
        text_field(block, "type"@) == Some("redacted_thinking"@) ==> empty_thinking(block),
        text_field(block, "type"@) == Some("thinking"@) && text_field(block, "thinking"@) is None
            ==> empty_thinking(block),
        text_field(block, "type"@) == Some("thinking"@) ==> (text_field(block, "thinking"@) matches Some(
            s,
        ) ==> (empty_thinking(block) <==> forall|k: int|
            0 <= k < s.len() ==> white(#[trigger] s[k]))),
        text_field(block, "type"@) != Some("thinking"@) && text_field(block, "type"@) != Some(
            "redacted_thinking"@,
        ) ==> !empty_thinking(block),
{
    reveal_strlit("thinking");
    reveal_strlit("redacted_thinking");
    assert("thinking"@.len() != "redacted_thinking"@.len());
    if let Some(s) = text_field(block, "thinking"@) {
        lemma_blank(s);
    }
}

/// Stripping takes out exactly the thinking that is empty and keeps every other block, in order; a row
/// without such a block is not touched.
pub proof fn stripping_keeps_what_says_something(a: Seq<JsonView>, b: JsonView, c: Seq<JsonView>)
    ensures
        empty_thinking(b) ==> kept(a.push(b) + c) == kept(a + c),
        !empty_thinking(b) ==> kept(a.push(b) + c) == kept(a).push(b) + kept(c),
        (forall|i: int| 0 <= i < a.len() ==> !empty_thinking(#[trigger] a[i])) ==> kept(a) == a,
    decreases c.len(),
{
    if c.len() == 0 {
        assert(a.push(b) + c =~= a.push(b));
        assert(a + c =~= a);
        assert(a.push(b).drop_last() =~= a);
        assert(kept(a).push(b) + kept(c) =~= kept(a).push(b));
    } else {
        stripping_keeps_what_says_something(a, b, c.drop_last());
        assert((a.push(b) + c).drop_last() =~= a.push(b) + c.drop_last());
        assert((a + c).drop_last() =~= a + c.drop_last());
        assert(kept(a.push(b) + c) =~= if empty_thinking(b) {
            kept(a + c)
        } else {
            kept(a).push(b) + kept(c)
        });
    }
    lemma_all_kept(a);
}

proof fn lemma_all_kept(a: Seq<JsonView>)
    ensures
        (forall|i: int| 0 <= i < a.len() ==> !empty_thinking(#[trigger] a[i])) ==> kept(a) == a,
        kept(a).len() <= a.len(),
        (exists|i: int| 0 <= i < a.len() && empty_thinking(#[trigger] a[i])) ==> kept(a).len()
            < a.len(),
    decreases a.len(),
{
    if a.len() > 0 {
        let d = a.drop_last();
        lemma_all_kept(d);
        assert(a[a.len() - 1] == a.last());
        assert forall|i: int| 0 <= i < d.len() implies #[trigger] d[i] == a[i] by {}
        if forall|i: int| 0 <= i < a.len() ==> !empty_thinking(#[trigger] a[i]) {
            assert(kept(a) =~= a);
        }
        if exists|i: int| 0 <= i < a.len() && empty_thinking(#[trigger] a[i]) {
            let i = choose|i: int| 0 <= i < a.len() && empty_thinking(#[trigger] a[i]);
            if i < d.len() {
                assert(empty_thinking(d[i]));
            }
        }
    }
}

/// A row is rewritten exactly where its message has a block of thinking that is empty.
pub proof fn row_is_stripped_where_thinking_is_empty(j: JsonView, m: JsonView, v: Seq<JsonView>)
    requires
        field(j, "message"@) == Some(m),
        field(m, "content"@) == Some(JsonView::Array(v)),
    ensures
        stripped(j) is Some <==> exists|i: int| 0 <= i < v.len() && empty_thinking(#[trigger] v[i]),
        stripped(j) matches Some(k) ==> (field(k, "message"@) matches Some(n) ==> forall|key: Seq<
            char,
        >| key != "content"@ ==> field(n, key) == #[trigger] field(m, key)),
{
    lemma_all_kept(v);
    if !(exists|i: int| 0 <= i < v.len() && empty_thinking(#[trigger] v[i])) {
        assert forall|i: int| 0 <= i < v.len() implies !empty_thinking(#[trigger] v[i]) by {}
    }
}

/// What is no JSON, and a row that is not rewritten, stay letter for letter.
pub proof fn unstripped_row_stays(raw: Seq<char>)
    ensures
        json_of_text(raw) is None ==> stripped_text(raw) == raw,
        json_of_text(raw) matches Some(j) ==> stripped(j) is None ==> stripped_text(raw) == raw,
        json_of_text(raw) matches Some(j) ==> (stripped(j) matches Some(k) ==> stripped_text(raw)
            == compact(k)),
{
}

} // verus!
