//! The hook entries in a profile's settings.
//!
//! Each event has a list of entries, and each entry a list of hooks. Our hooks are told by the
//! name of the program they call. Merging leaves exactly one of them per event, calling the
//! present program, and touches no other hook.

use crate::hook_receiver::events::{name_is_read_back, HookEventKind};
use crate::hook_setup::HOOK_BINARY_COMMAND;
use crate::json::{
    array_field, copied_with, field, json_of_text, lemma_array_view, object_of, parse, pretty, put,
    text_field, to_pretty, views, with_field, Json, JsonView,
};
use crate::pathname::{
    components, file_name, lemma_join_component, path_file_name, path_join, plain,
};
use crate::text::{blank, copy, is_blank, opt_text, same, texts};
use vstd::prelude::*;

verus! {

// ---------------------------------------------------------------- one entry

/// Whether a command calls our hook, by the name of the program: the wrapper, or the binary that
/// older versions called, whose name is `binary`.
pub open spec fn ours(cmd: Seq<char>, binary: Seq<char>) -> bool {
    file_name(cmd) == Some("ccc-hook.sh"@) || file_name(cmd) == Some(binary)
}

/// Whether a command calls our hook.
pub fn command_is_ccc_hook(cmd: &str, binary: &str) -> (r: bool)
    ensures
        r == ours(cmd@, binary@),
{
    match path_file_name(cmd) {
        Some(n) => same(n.as_str(), "ccc-hook.sh") || same(n.as_str(), binary),
        None => false,
    }
}

/// Whether a hook is ours.
pub open spec fn is_ours(h: JsonView, binary: Seq<char>) -> bool {
    match text_field(h, "command"@) {
        Some(c) => ours(c, binary),
        None => false,
    }
}

fn hook_is_ccc(h: &Json, binary: &str) -> (r: bool)
    ensures
        r == is_ours(h.view(), binary@),
{
    match h.get_str("command") {
        Some(c) => command_is_ccc_hook(c, binary),
        None => false,
    }
}

/// Whether one of the hooks is ours.
pub open spec fn has_ours(v: Seq<JsonView>, binary: Seq<char>) -> bool {
    exists|i: int| 0 <= i < v.len() && is_ours(#[trigger] v[i], binary)
}

/// The hooks that are not ours, in their order.
pub open spec fn others(v: Seq<JsonView>, binary: Seq<char>) -> Seq<JsonView>
    decreases v.len(),
{
    if v.len() == 0 {
        seq![]
    } else if is_ours(v.last(), binary) {
        others(v.drop_last(), binary)
    } else {
        others(v.drop_last(), binary).push(v.last())
    }
}

/// The position of the first hook that is ours, or the number of hooks.
pub open spec fn first_ours(v: Seq<JsonView>, i: int, binary: Seq<char>) -> int
    decreases v.len() - i,
{
    if i < 0 || i >= v.len() {
        v.len() as int
    } else if is_ours(v[i], binary) {
        i
    } else {
        first_ours(v, i + 1, binary)
    }
}

/// A hook that calls `cmd`.
pub open spec fn calling(h: JsonView, cmd: Seq<char>) -> JsonView {
    with_field(h, "command"@, JsonView::Text(cmd))
}

/// The hooks with one of ours, which calls `cmd`: the first, where it stood.
pub open spec fn single(v: Seq<JsonView>, cmd: Seq<char>, binary: Seq<char>) -> Seq<JsonView> {
    let k = first_ours(v, 0, binary);
    if k < v.len() {
        v.take(k).push(calling(v[k], cmd)) + others(v.skip(k + 1), binary)
    } else {
        v
    }
}

proof fn lemma_first_ours(v: Seq<JsonView>, i: int, binary: Seq<char>)
    requires
        0 <= i <= v.len(),
    ensures
        i <= first_ours(v, i, binary) <= v.len(),
        forall|k: int| i <= k < first_ours(v, i, binary) ==> !is_ours(#[trigger] v[k], binary),
        first_ours(v, i, binary) < v.len() ==> is_ours(v[first_ours(v, i, binary)], binary),
    decreases v.len() - i,
{
    if i < v.len() && !is_ours(v[i], binary) {
        lemma_first_ours(v, i + 1, binary);
    }
}

proof fn lemma_others(v: Seq<JsonView>, binary: Seq<char>)
    ensures
        others(v, binary).len() <= v.len(),
        has_ours(v, binary) ==> others(v, binary).len() < v.len(),
        !has_ours(v, binary) ==> others(v, binary) == v,
        forall|k: int| 0 <= k < others(v, binary).len() ==> !is_ours(#[trigger] others(v, binary)[k], binary),
    decreases v.len(),
{
    if v.len() > 0 {
        let d = v.drop_last();
        lemma_others(d, binary);
        if has_ours(v, binary) {
            let i = choose|i: int| 0 <= i < v.len() && is_ours(#[trigger] v[i], binary);
            if i < d.len() {
                assert(d[i] == v[i]);
            }
        } else {
            assert(!is_ours(v[v.len() - 1], binary));
            assert(!has_ours(d, binary)) by {
                if has_ours(d, binary) {
                    let i = choose|i: int| 0 <= i < d.len() && is_ours(#[trigger] d[i], binary);
                    assert(is_ours(v[i], binary));
                }
            }
            assert(others(v, binary) =~= v);
        }
        let o = others(v, binary);
        assert forall|k: int| 0 <= k < o.len() implies !is_ours(#[trigger] o[k], binary) by {
            if k < others(d, binary).len() {
                assert(o[k] == others(d, binary)[k]);
            }
        }
    }
}

proof fn lemma_others_add(a: Seq<JsonView>, b: Seq<JsonView>, binary: Seq<char>)
    ensures
        others(a + b, binary) == others(a, binary) + others(b, binary),
    decreases b.len(),
{
    if b.len() == 0 {
        assert(a + b =~= a);
        assert(others(a, binary) + others(b, binary) =~= others(a, binary));
    } else {
        lemma_others_add(a, b.drop_last(), binary);
        assert((a + b).drop_last() =~= a + b.drop_last());
        assert((a + b).last() == b.last());
        assert(others(a + b, binary) =~= others(a, binary) + others(b, binary));
    }
}

/// A hook that is made to call one of our programs is ours.
proof fn lemma_calling(h: JsonView, cmd: Seq<char>, binary: Seq<char>)
    requires
        is_ours(h, binary),
    ensures
        text_field(calling(h, cmd), "command"@) == Some(cmd),
        is_ours(calling(h, cmd), binary) == ours(cmd, binary),
        calling(h, cmd) == h <==> text_field(h, "command"@) == Some(cmd),
{
    let m = h->Object_0;
    let n = m.insert("command"@, JsonView::Text(cmd));
    assert(calling(h, cmd) == JsonView::Object(n));
    assert(n["command"@] == JsonView::Text(cmd));
    if text_field(h, "command"@) == Some(cmd) {
        assert(m["command"@] == JsonView::Text(cmd));
        assert(n =~= m);
    }
}

/// Leaving one of our hooks keeps all others and leaves exactly one; where that one calls `cmd`
/// already and is alone, nothing changes.
proof fn lemma_single(v: Seq<JsonView>, cmd: Seq<char>, binary: Seq<char>)
    requires
        has_ours(v, binary),
    ensures
        first_ours(v, 0, binary) < v.len(),
        ours(cmd, binary) ==> others(single(v, cmd, binary), binary) == others(v, binary),
        ours(cmd, binary) ==> single(v, cmd, binary).len() == others(v, binary).len() + 1,
        single(v, cmd, binary).len() > 0,
        ours(cmd, binary) ==> has_ours(single(v, cmd, binary), binary),
        single(v, cmd, binary) == v <==> text_field(v[first_ours(v, 0, binary)], "command"@) == Some(cmd)
            && !has_ours(v.skip(first_ours(v, 0, binary) + 1), binary),
        ours(cmd, binary) ==> single(single(v, cmd, binary), cmd, binary) == single(v, cmd, binary),
{
    lemma_first_ours(v, 0, binary);
    let k = first_ours(v, 0, binary);
    let w = choose|i: int| 0 <= i < v.len() && is_ours(#[trigger] v[i], binary);
    assert(k < v.len());
    let a = v.take(k);
    let b = v.skip(k + 1);
    let h = v[k];
    lemma_calling(h, cmd, binary);
    lemma_others(a, binary);
    lemma_others(b, binary);
    assert(!has_ours(a, binary)) by {
        if has_ours(a, binary) {
            let i = choose|i: int| 0 <= i < a.len() && is_ours(#[trigger] a[i], binary);
            assert(is_ours(v[i], binary));
        }
    }
    let s = single(v, cmd, binary);
    assert(v =~= a.push(h) + b);
    lemma_others_add(a.push(h), b, binary);
    assert(a.push(h).drop_last() =~= a);
    assert(others(v, binary) == a + others(b, binary));
    let c = calling(h, cmd);
    lemma_others_add(a.push(c), others(b, binary), binary);
    assert(a.push(c).drop_last() =~= a);
    assert(others(others(b, binary), binary) == others(b, binary)) by {
        lemma_others(others(b, binary), binary);
        assert(!has_ours(others(b, binary), binary)) by {
            if has_ours(others(b, binary), binary) {
                let i = choose|i: int| 0 <= i < others(b, binary).len() && is_ours(#[trigger] others(b, binary)[i], binary);
                assert(is_ours(others(b, binary)[i], binary));
            }
        }
    }
    assert(s[k] == c);
    if text_field(h, "command"@) == Some(cmd) && !has_ours(b, binary) {
        assert(s =~= v);
    }
    if s == v {
        assert(s.len() == v.len());
        assert(others(b, binary).len() == b.len());
        assert(!has_ours(b, binary));
        assert(c == h);
    }
    if ours(cmd, binary) {
        assert(is_ours(s[k], binary));
        assert forall|i: int| 0 <= i < k implies !is_ours(#[trigger] s[i], binary) by {
            assert(s[i] == v[i]);
        }
        lemma_first_is(s, k, binary);
        assert(s.skip(k + 1) =~= others(b, binary));
        assert(s.take(k) =~= a);
        lemma_calling(c, cmd, binary);
        assert(calling(c, cmd) == c);
        assert(single(s, cmd, binary) =~= s);
    }
}

proof fn lemma_first_is(v: Seq<JsonView>, n: int, binary: Seq<char>)
    requires
        0 <= n < v.len(),
        is_ours(v[n], binary),
        forall|i: int| 0 <= i < n ==> !is_ours(#[trigger] v[i], binary),
    ensures
        first_ours(v, 0, binary) == n,
{
    lemma_first_ours(v, 0, binary);
    let k = first_ours(v, 0, binary);
    if k < n {
        assert(!is_ours(v[k], binary));
    }
}

/// The hooks of an entry, where it has a list of them.
pub open spec fn hooks_of(e: JsonView) -> Option<Seq<JsonView>> {
    array_field(e, "hooks"@)
}

/// Whether an entry holds one of our hooks.
pub open spec fn entry_ours(e: JsonView, binary: Seq<char>) -> bool {
    match hooks_of(e) {
        Some(v) => has_ours(v, binary),
        None => false,
    }
}

/// An entry with other hooks.
pub open spec fn with_hooks(e: JsonView, v: Seq<JsonView>) -> JsonView {
    with_field(e, "hooks"@, JsonView::Array(v))
}

/// Whether an entry's list of hooks is empty, so that it does nothing.
pub open spec fn idle(e: JsonView) -> bool {
    hooks_of(e) == Some(Seq::<JsonView>::empty())
}

proof fn lemma_with_hooks(e: JsonView, v: Seq<JsonView>)
    requires
        hooks_of(e) is Some,
    ensures
        hooks_of(with_hooks(e, v)) == Some(v),
        text_field(with_hooks(e, v), "matcher"@) == text_field(e, "matcher"@),
        with_hooks(e, v) == e <==> hooks_of(e) == Some(v),
        with_hooks(with_hooks(e, v), v) == with_hooks(e, v),
{
    reveal_strlit("hooks");
    reveal_strlit("matcher");
    let m = e->Object_0;
    let n = m.insert("hooks"@, JsonView::Array(v));
    assert(with_hooks(e, v) == JsonView::Object(n));
    assert(n["hooks"@] == JsonView::Array(v));
    assert("hooks"@.len() != "matcher"@.len());
    assert("hooks"@ != "matcher"@);
    if hooks_of(e) == Some(v) {
        assert(m["hooks"@] == JsonView::Array(v));
        assert(n =~= m);
    }
    assert(n.insert("hooks"@, JsonView::Array(v)) =~= n);
}

fn find_ours(v: &Vec<Json>, binary: &str) -> (r: usize)
    ensures
        r == first_ours(views(v@), 0, binary@),
        r <= v@.len(),
{
    let mut i: usize = 0;
    while i < v.len() && !hook_is_ccc(&v[i], binary)
        invariant
            i <= v@.len(),
            first_ours(views(v@), i as int, binary@) == first_ours(views(v@), 0, binary@),
        decreases v@.len() - i,
    {
        assert(views(v@)[i as int] == v@[i as int].view());
        i += 1;
    }
    if i < v.len() {
        assert(views(v@)[i as int] == v@[i as int].view());
    }
    i
}

/// Whether an entry holds one of our hooks.
fn entry_has_ccc_hook(e: &Json, binary: &str) -> (r: bool)
    ensures
        r == entry_ours(e.view(), binary@),
{
    match e.get_array("hooks") {
        Some(v) => {
            let k: usize = find_ours(v, binary);
            proof {
                lemma_first_ours(views(v@), 0, binary@);
                if k < v@.len() {
                    assert(is_ours(views(v@)[k as int], binary@));
                }
            }
            k < v.len()
        },
        None => false,
    }
}

/// Appends the hooks of `v` from position `from` on that are not ours.
fn push_others(out: &mut Vec<Json>, v: &Vec<Json>, from: usize, binary: &str)
    requires
        from <= v@.len(),
    ensures
        views(final(out)@) == views(old(out)@) + others(views(v@).skip(from as int), binary@),
{
    let ghost start = views(out@);
    let ghost all = views(v@).skip(from as int);
    let mut i: usize = from;
    assert(start + others(all.take(0), binary@) =~= start);
    while i < v.len()
        invariant
            from <= i <= v@.len(),
            all == views(v@).skip(from as int),
            views(out@) == start + others(all.take(i - from), binary@),
        decreases v@.len() - i,
    {
        proof {
            assert(all.take(i - from + 1).drop_last() =~= all.take(i - from));
            assert(all.take(i - from + 1).last() == v@[i as int].view());
        }
        if !hook_is_ccc(&v[i], binary) {
            let ghost before = out@;
            let c: Json = v[i].copied();
            out.push(c);
            assert(views(out@) =~= views(before).push(c.view()));
            assert(views(out@) =~= start + others(all.take(i - from + 1), binary@));
        }
        i += 1;
    }
    assert(all.take(v@.len() - from) =~= all);
}

fn put_hooks(e: &Json, hooks: Vec<Json>) -> (r: Json)
    ensures
        r.view() == with_hooks(e.view(), views(hooks@)),
{
    proof {
        lemma_array_view(hooks);
    }
    copied_with(e, "hooks", Json::Array(hooks))
}

/// The entry that stays: the first of our hooks calls `cmd`, further ones are taken out. Also
/// whether that changed it.
fn retain_single_ccc_hook(e: &Json, cmd: &str, binary: &str) -> (r: (Json, bool))
    requires
        entry_ours(e.view(), binary@),
    ensures
        r.0.view() == with_hooks(e.view(), single(hooks_of(e.view())->0, cmd@, binary@)),
        r.1 == (r.0.view() != e.view()),
{
    match e.get_array("hooks") {
        Some(v) => {
            let ghost all = views(v@);
            let len: usize = v.len();
            let k: usize = find_ours(v, binary);
            proof {
                lemma_single(all, cmd@, binary@);
                lemma_with_hooks(e.view(), single(all, cmd@, binary@));
            }
            let mut out: Vec<Json> = Vec::new();
            let mut i: usize = 0;
            assert(views(out@) =~= all.take(0));
            while i < k
                invariant
                    i <= k < v@.len(),
                    all == views(v@),
                    views(out@) == all.take(i as int),
                decreases k - i,
            {
                let ghost before = out@;
                let c: Json = v[i].copied();
                out.push(c);
                i += 1;
                assert(views(out@) =~= views(before).push(c.view()));
                assert(all.take(i as int) =~= all.take(i - 1).push(all[i - 1]));
            }
            assert(all[k as int] == v@[k as int].view());
            let calls: bool = match v[k].get_str("command") {
                Some(c) => same(c, cmd),
                None => false,
            };
            let ghost before = out@;
            let h: Json = copied_with(&v[k], "command", Json::Text(copy(cmd)));
            out.push(h);
            assert(views(out@) =~= all.take(k as int).push(calling(all[k as int], cmd@)));
            push_others(&mut out, v, k + 1, binary);
            assert(views(out@) == single(all, cmd@, binary@));
            let ghost rest = all.skip(k + 1);
            let n: usize = out.len();
            proof {
                lemma_others(rest, binary@);
                assert(views(out@).len() == n);
                assert(n == k + 1 + others(rest, binary@).len());
            }
            let changed: bool = !calls || n != len;
            (put_hooks(e, out), changed)
        },
        None => (e.copied(), false),
    }
}

/// An entry without our hooks.
fn strip_ccc_hooks(e: &Json, binary: &str) -> (r: Json)
    requires
        entry_ours(e.view(), binary@),
    ensures
        r.view() == with_hooks(e.view(), others(hooks_of(e.view())->0, binary@)),
        r.view() != e.view(),
{
    match e.get_array("hooks") {
        Some(v) => {
            let ghost all = views(v@);
            let mut out: Vec<Json> = Vec::new();
            push_others(&mut out, v, 0, binary);
            proof {
                assert(all.skip(0) =~= all);
                lemma_others(all, binary@);
                lemma_with_hooks(e.view(), others(all, binary@));
                assert(views(out@) =~= others(all, binary@));
            }
            put_hooks(e, out)
        },
        None => e.copied(),
    }
}

/// Whether an entry's list of hooks is empty.
fn has_empty_hooks(e: &Json) -> (r: bool)
    ensures
        r == idle(e.view()),
{
    match e.get_array("hooks") {
        Some(v) => {
            if v.len() == 0 {
                assert(views(v@) =~= Seq::<JsonView>::empty());
            } else {
                assert(views(v@).len() > 0);
            }
            v.len() == 0
        },
        None => false,
    }
}

// ---------------------------------------------------------------- one event

/// The matcher that our entry has: events of tools match every tool, others have none.
pub open spec fn canonical(event: Seq<char>) -> Option<Seq<char>> {
    if event == "PreToolUse"@ || event == "PostToolUse"@ {
        Some("*"@)
    } else {
        None
    }
}

/// Whether an event is one of tools.
fn is_tool_event(event: &str) -> (r: bool)
    ensures
        r == canonical(event@) is Some,
{
    same(event, "PreToolUse") || same(event, "PostToolUse")
}

/// Our entry for an event.
pub open spec fn our_entry(event: Seq<char>, cmd: Seq<char>) -> JsonView {
    let hook = JsonView::Object(
        Map::<Seq<char>, JsonView>::empty().insert("type"@, JsonView::Text("command"@)).insert(
            "command"@,
            JsonView::Text(cmd),
        ),
    );
    let plain = Map::<Seq<char>, JsonView>::empty().insert(
        "hooks"@,
        JsonView::Array(seq![hook]),
    );
    match canonical(event) {
        Some(m) => JsonView::Object(plain.insert("matcher"@, JsonView::Text(m))),
        None => JsonView::Object(plain),
    }
}

/// Our entry for an event.
pub fn make_ccc_entry(event: &str, hook_cmd: &str) -> (r: Json)
    ensures
        r.view() == our_entry(event@, hook_cmd@),
{
    let mut hook: Vec<(String, Json)> = Vec::new();
    assert(object_of(hook@) =~= Map::<Seq<char>, JsonView>::empty());
    put(&mut hook, "type", Json::Text(copy("command")));
    put(&mut hook, "command", Json::Text(copy(hook_cmd)));
    let mut hooks: Vec<Json> = Vec::new();
    let h: Json = Json::Object(hook);
    hooks.push(h);
    proof {
        lemma_array_view(hooks);
        assert(views(hooks@) =~= seq![h.view()]);
    }
    let mut entry: Vec<(String, Json)> = Vec::new();
    assert(object_of(entry@) =~= Map::<Seq<char>, JsonView>::empty());
    put(&mut entry, "hooks", Json::Array(hooks));
    if is_tool_event(event) {
        put(&mut entry, "matcher", Json::Text(copy("*")));
    }
    Json::Object(entry)
}

proof fn lemma_our_entry(event: Seq<char>, cmd: Seq<char>, binary: Seq<char>)
    ensures
        hooks_of(our_entry(event, cmd)) is Some,
        hooks_of(our_entry(event, cmd))->0.len() == 1,
        text_field(hooks_of(our_entry(event, cmd))->0[0], "command"@) == Some(cmd),
        entry_ours(our_entry(event, cmd), binary) == ours(cmd, binary),
        text_field(our_entry(event, cmd), "matcher"@) == canonical(event),
{
    reveal_strlit("hooks");
    reveal_strlit("matcher");
    assert("hooks"@.len() != "matcher"@.len());
    assert("hooks"@ != "matcher"@);
    let v = hooks_of(our_entry(event, cmd))->0;
    assert(v.len() == 1);
    if ours(cmd, binary) {
        assert(is_ours(v[0], binary));
    }
}

/// Whether one of the entries holds one of our hooks.
pub open spec fn any_ours(v: Seq<JsonView>, binary: Seq<char>) -> bool {
    exists|i: int| 0 <= i < v.len() && entry_ours(#[trigger] v[i], binary)
}

/// Whether an entry holds one of our hooks and, if that is asked for, has the event's matcher.
pub open spec fn suits(e: JsonView, event: Seq<char>, exact: bool, binary: Seq<char>) -> bool {
    entry_ours(e, binary) && (exact ==> text_field(e, "matcher"@) == canonical(event))
}

/// The first entry from `i` on that suits, or the number of entries.
pub open spec fn first_suiting(v: Seq<JsonView>, event: Seq<char>, exact: bool, i: int, binary: Seq<char>) -> int
    decreases v.len() - i,
{
    if i < 0 || i >= v.len() {
        v.len() as int
    } else if suits(v[i], event, exact, binary) {
        i
    } else {
        first_suiting(v, event, exact, i + 1, binary)
    }
}

/// The entry that keeps our hook: the first with the event's matcher or else the first.
pub open spec fn keeper(v: Seq<JsonView>, event: Seq<char>, binary: Seq<char>) -> int {
    if first_suiting(v, event, true, 0, binary) < v.len() {
        first_suiting(v, event, true, 0, binary)
    } else {
        first_suiting(v, event, false, 0, binary)
    }
}

/// An entry with one of our hooks where it keeps it, with none where it does not, and as it is
/// where it has none.
pub open spec fn cleaned_entry(e: JsonView, keeps: bool, cmd: Seq<char>, binary: Seq<char>) -> JsonView {
    if !entry_ours(e, binary) {
        e
    } else if keeps {
        with_hooks(e, single(hooks_of(e)->0, cmd, binary))
    } else {
        with_hooks(e, others(hooks_of(e)->0, binary))
    }
}

/// The entries with one of our hooks among them.
pub open spec fn cleaned(v: Seq<JsonView>, event: Seq<char>, cmd: Seq<char>, binary: Seq<char>) -> Seq<JsonView> {
    Seq::new(v.len(), |i: int| cleaned_entry(v[i], i == keeper(v, event, binary), cmd, binary))
}

/// Whether an entry held one of our hooks and, without it, has no hook left.
pub open spec fn emptied(before: JsonView, after: JsonView, binary: Seq<char>) -> bool {
    entry_ours(before, binary) && idle(after)
}

/// The entries `c`, which were `v` before, but for those that taking our hooks out has emptied.
pub open spec fn busy(v: Seq<JsonView>, c: Seq<JsonView>, binary: Seq<char>) -> Seq<JsonView>
    decreases c.len(),
{
    if c.len() == 0 {
        seq![]
    } else if emptied(v.last(), c.last(), binary) {
        busy(v.drop_last(), c.drop_last(), binary)
    } else {
        busy(v.drop_last(), c.drop_last(), binary).push(c.last())
    }
}

/// An event's entries after merging: with our entry behind them where none is ours, else with one
/// of our hooks left and without the entries that held nothing but others of ours.
pub open spec fn merged_event(
    v: Seq<JsonView>,
    event: Seq<char>,
    cmd: Seq<char>,
    binary: Seq<char>,
) -> Seq<JsonView> {
    if any_ours(v, binary) {
        busy(v, cleaned(v, event, cmd, binary), binary)
    } else {
        v.push(our_entry(event, cmd))
    }
}

proof fn lemma_first_suiting(v: Seq<JsonView>, event: Seq<char>, exact: bool, i: int, binary: Seq<char>)
    requires
        0 <= i <= v.len(),
    ensures
        i <= first_suiting(v, event, exact, i, binary) <= v.len(),
        forall|k: int|
            i <= k < first_suiting(v, event, exact, i, binary) ==> !suits(#[trigger] v[k], event, exact, binary),
        first_suiting(v, event, exact, i, binary) < v.len() ==> suits(
            v[first_suiting(v, event, exact, i, binary)],
            event,
            exact,
            binary,
        ),
    decreases v.len() - i,
{
    if i < v.len() && !suits(v[i], event, exact, binary) {
        lemma_first_suiting(v, event, exact, i + 1, binary);
    }
}

proof fn lemma_keeper(v: Seq<JsonView>, event: Seq<char>, binary: Seq<char>)
    requires
        any_ours(v, binary),
    ensures
        0 <= keeper(v, event, binary) < v.len(),
        entry_ours(v[keeper(v, event, binary)], binary),
{
    lemma_first_suiting(v, event, true, 0, binary);
    lemma_first_suiting(v, event, false, 0, binary);
    let i = choose|i: int| 0 <= i < v.len() && entry_ours(#[trigger] v[i], binary);
    if first_suiting(v, event, false, 0, binary) == v.len() {
        assert(suits(v[i], event, false, binary));
    }
}

proof fn lemma_busy(v: Seq<JsonView>, c: Seq<JsonView>, binary: Seq<char>)
    requires
        v.len() == c.len(),
    ensures
        busy(v, c, binary).len() <= c.len(),
        busy(v, c, binary).len() == c.len() ==> busy(v, c, binary) == c,
        (forall|k: int| 0 <= k < c.len() ==> !emptied(v[k], #[trigger] c[k], binary)) ==> busy(
            v,
            c,
            binary,
        ) == c,
        forall|k: int|
            0 <= k < busy(v, c, binary).len() ==> c.contains(#[trigger] busy(v, c, binary)[k]),
        forall|k: int|
            0 <= k < c.len() && !emptied(v[k], #[trigger] c[k], binary) ==> busy(
                v,
                c,
                binary,
            ).contains(c[k]),
    decreases c.len(),
{
    if c.len() > 0 {
        let u = v.drop_last();
        let d = c.drop_last();
        let b = busy(v, c, binary);
        let before = busy(u, d, binary);
        lemma_busy(u, d, binary);
        if b.len() == c.len() {
            assert(b =~= c);
        }
        if forall|k: int| 0 <= k < c.len() ==> !emptied(v[k], #[trigger] c[k], binary) {
            assert forall|k: int| 0 <= k < d.len() implies !emptied(u[k], #[trigger] d[k], binary) by {
                assert(!emptied(v[k], c[k], binary));
            }
            assert(!emptied(v[c.len() - 1], c[c.len() - 1], binary));
            assert(b =~= c);
        }
        assert forall|k: int| 0 <= k < b.len() implies c.contains(#[trigger] b[k]) by {
            if k < before.len() {
                assert(b[k] == before[k]);
                assert(d.contains(before[k]));
                let j = choose|j: int| 0 <= j < d.len() && d[j] == b[k];
                assert(c[j] == b[k]);
            } else {
                assert(c[c.len() - 1] == b[k]);
            }
        }
        assert forall|k: int| 0 <= k < c.len() && !emptied(v[k], #[trigger] c[k], binary) implies b.contains(
            c[k],
        ) by {
            if k < d.len() {
                assert(d[k] == c[k] && u[k] == v[k]);
                assert(before.contains(d[k]));
                let j = choose|j: int| 0 <= j < before.len() && before[j] == d[k];
                assert(b[j] == c[k]);
            } else {
                assert(b[b.len() - 1] == c[k]);
            }
        }
    }
}

/// The first entry that suits.
fn find_entry(v: &Vec<Json>, event: &str, exact: bool, binary: &str) -> (r: usize)
    ensures
        r == first_suiting(views(v@), event@, exact, 0, binary@),
        r <= v@.len(),
{
    let tool: bool = is_tool_event(event);
    let mut i: usize = 0;
    while i < v.len()
        invariant
            i <= v@.len(),
            tool == canonical(event@) is Some,
            first_suiting(views(v@), event@, exact, i as int, binary@) == first_suiting(
                views(v@),
                event@,
                exact,
                0,
                binary@,
            ),
        decreases v@.len() - i,
    {
        assert(views(v@)[i as int] == v@[i as int].view());
        let fits: bool = match v[i].get_str("matcher") {
            Some(m) => tool && same(m, "*"),
            None => !tool,
        };
        if entry_has_ccc_hook(&v[i], binary) && (!exact || fits) {
            return i;
        }
        i += 1;
    }
    i
}

/// An event's entries after merging, and whether they changed.
fn merge_event(v: &Vec<Json>, event: &str, cmd: &str, binary: &str) -> (r: (Vec<Json>, bool))
    ensures
        views(r.0@) == merged_event(views(v@), event@, cmd@, binary@),
        r.1 == (views(r.0@) != views(v@)),
{
    let ghost all = views(v@);
    let n: usize = v.len();
    let any: usize = find_entry(v, event, false, binary);
    let exact: usize = find_entry(v, event, true, binary);
    let mut out: Vec<Json> = Vec::new();
    let mut i: usize = 0;
    proof {
        lemma_first_suiting(all, event@, false, 0, binary@);
        if any < n {
            assert(entry_ours(all[any as int], binary@));
        } else if any_ours(all, binary@) {
            let k = choose|k: int| 0 <= k < all.len() && entry_ours(#[trigger] all[k], binary@);
            assert(suits(all[k], event@, false, binary@));
        }
        assert(any_ours(all, binary@) == (any < n));
    }
    if any == n {
        assert(views(out@) =~= all.take(0));
        while i < n
            invariant
                i <= n == v@.len(),
                all == views(v@),
                views(out@) == all.take(i as int),
            decreases n - i,
        {
            let ghost before = out@;
            let c: Json = v[i].copied();
            out.push(c);
            i += 1;
            assert(views(out@) =~= views(before).push(c.view()));
            assert(all.take(i as int) =~= all.take(i - 1).push(all[i - 1]));
        }
        assert(all.take(n as int) =~= all);
        let e: Json = make_ccc_entry(event, cmd);
        let ghost before = out@;
        out.push(e);
        assert(views(out@) =~= views(before).push(e.view()));
        assert(views(out@).len() == all.len() + 1);
        return (out, true);
    }
    let keep: usize = if exact < n {
        exact
    } else {
        any
    };
    let ghost clean = cleaned(all, event@, cmd@, binary@);
    let mut changed: bool = false;
    assert(views(out@) =~= busy(all.take(0), clean.take(0), binary@));
    assert(clean.take(0) =~= all.take(0));
    while i < n
        invariant
            i <= n == v@.len(),
            all == views(v@),
            clean == cleaned(all, event@, cmd@, binary@),
            keep == keeper(all, event@, binary@),
            views(out@) == busy(all.take(i as int), clean.take(i as int), binary@),
            changed == (clean.take(i as int) != all.take(i as int)),
        decreases n - i,
    {
        assert(all[i as int] == v@[i as int].view());
        let ghost e = all[i as int];
        let held: bool = entry_has_ccc_hook(&v[i], binary);
        let (c, differs): (Json, bool) = if !held {
            (v[i].copied(), false)
        } else if i == keep {
            retain_single_ccc_hook(&v[i], cmd, binary)
        } else {
            (strip_ccc_hooks(&v[i], binary), true)
        };
        proof {
            assert(c.view() == clean[i as int]);
            assert(differs == (clean[i as int] != e));
            assert(clean.take(i + 1).drop_last() =~= clean.take(i as int));
            assert(clean.take(i + 1).last() == clean[i as int]);
            assert(all.take(i + 1).drop_last() =~= all.take(i as int));
            assert(all.take(i + 1).last() == e);
            assert(clean.take(i + 1) =~= clean.take(i as int).push(clean[i as int]));
            assert(all.take(i + 1) =~= all.take(i as int).push(e));
            if clean.take(i + 1) == all.take(i + 1) {
                assert(clean.take(i as int) =~= all.take(i + 1).drop_last());
                assert(all.take(i + 1).drop_last() =~= all.take(i as int));
                assert(clean[i as int] == all.take(i + 1).last());
            }
        }
        if differs {
            changed = true;
        }
        if !(held && has_empty_hooks(&c)) {
            let ghost before = out@;
            let ghost cv = c.view();
            out.push(c);
            assert(views(out@) =~= views(before).push(cv));
        }
        i += 1;
    }
    proof {
        assert(clean.take(n as int) =~= clean);
        assert(all.take(n as int) =~= all);
        lemma_busy(all, clean, binary@);
        assert(views(out@).len() == out@.len());
    }
    let m: usize = out.len();
    (out, changed || m != n)
}

// ---------------------------------------------------------------- all events

/// The events that our hook is told of.
pub open spec fn event_names() -> Seq<Seq<char>> {
    seq![
        "SessionStart"@,
        "SessionEnd"@,
        "UserPromptSubmit"@,
        "PreToolUse"@,
        "PostToolUse"@,
        "Notification"@,
        "PermissionRequest"@,
        "Stop"@,
        "StopFailure"@,
    ]
}

/// The events that our hook is told of.
pub fn hooked_events() -> (r: Vec<String>)
    ensures
        texts(r@) == event_names(),
{
    let r: Vec<String> = vec![
        copy("SessionStart"),
        copy("SessionEnd"),
        copy("UserPromptSubmit"),
        copy("PreToolUse"),
        copy("PostToolUse"),
        copy("Notification"),
        copy("PermissionRequest"),
        copy("Stop"),
        copy("StopFailure"),
    ];
    assert(texts(r@) =~= event_names());
    r
}

proof fn lemma_event_names()
    ensures
        event_names().len() == 9,
        forall|i: int, j: int|
            0 <= i < j < 9 ==> #[trigger] event_names()[i] != #[trigger] event_names()[j],
{
    reveal_strlit("SessionStart");
    reveal_strlit("SessionEnd");
    reveal_strlit("UserPromptSubmit");
    reveal_strlit("PreToolUse");
    reveal_strlit("PostToolUse");
    reveal_strlit("Notification");
    reveal_strlit("PermissionRequest");
    reveal_strlit("Stop");
    reveal_strlit("StopFailure");
    let n = event_names();
    assert(n[0].len() == 12 && n[0][0] == 'S');
    assert(n[1].len() == 10 && n[1][0] == 'S');
    assert(n[2].len() == 16);
    assert(n[3].len() == 10 && n[3][0] == 'P');
    assert(n[4].len() == 11 && n[4][0] == 'P');
    assert(n[5].len() == 12 && n[5][0] == 'N');
    assert(n[6].len() == 17);
    assert(n[7].len() == 4);
    assert(n[8].len() == 11 && n[8][0] == 'S');
}

/// The settings as an object; what is no object counts as an empty one.
pub open spec fn settings_map(root: JsonView) -> Map<Seq<char>, JsonView> {
    match root {
        JsonView::Object(m) => m,
        _ => Map::empty(),
    }
}

/// The lists of entries by event; what is no object counts as an empty one.
pub open spec fn hooks_map(root: JsonView) -> Map<Seq<char>, JsonView> {
    match field(root, "hooks"@) {
        Some(JsonView::Object(m)) => m,
        _ => Map::empty(),
    }
}

/// The entries of an event; what is no list counts as an empty one.
pub open spec fn entries_of(m: Map<Seq<char>, JsonView>, event: Seq<char>) -> Seq<JsonView> {
    if m.contains_key(event) {
        match m[event] {
            JsonView::Array(v) => v,
            _ => seq![],
        }
    } else {
        seq![]
    }
}

/// The lists of entries after the first `n` events were merged.
pub open spec fn merged_hooks(m: Map<Seq<char>, JsonView>, n: int, cmd: Seq<char>, binary: Seq<char>) -> Map<
    Seq<char>,
    JsonView,
> {
    Map::new(
        |k: Seq<char>| m.contains_key(k) || event_names().take(n).contains(k),
        |k: Seq<char>|
            if event_names().take(n).contains(k) {
                JsonView::Array(merged_event(entries_of(m, k), k, cmd, binary))
            } else {
                m[k]
            },
    )
}

/// The settings after merging: each event has one of our hooks, and all else is as it was.
pub open spec fn merged(root: JsonView, cmd: Seq<char>, binary: Seq<char>) -> JsonView {
    JsonView::Object(
        settings_map(root).insert(
            "hooks"@,
            JsonView::Object(merged_hooks(hooks_map(root), 9, cmd, binary)),
        ),
    )
}

/// Whether merging changes the entries of one of the first `n` events.
pub open spec fn event_changes(m: Map<Seq<char>, JsonView>, n: int, cmd: Seq<char>, binary: Seq<char>) -> bool {
    exists|i: int|
        0 <= i < n && merged_event(
            entries_of(m, #[trigger] event_names()[i]),
            event_names()[i],
            cmd,
            binary,
        ) != entries_of(m, event_names()[i])
}

proof fn lemma_names_take(n: int, k: Seq<char>)
    requires
        0 <= n < 9,
    ensures
        event_names().take(n + 1).contains(k) == (event_names().take(n).contains(k) || k
            == event_names()[n]),
        !event_names().take(n).contains(event_names()[n]),
{
    lemma_event_names();
    let a = event_names().take(n);
    let b = event_names().take(n + 1);
    assert(b =~= a.push(event_names()[n]));
    if b.contains(k) {
        let i = choose|i: int| 0 <= i < b.len() && b[i] == k;
        if i < n {
            assert(a[i] == k);
        }
    }
    if a.contains(k) {
        let i = choose|i: int| 0 <= i < a.len() && a[i] == k;
        assert(b[i] == k);
    }
    assert(b[n] == event_names()[n]);
    if a.contains(event_names()[n]) {
        let i = choose|i: int| 0 <= i < a.len() && a[i] == event_names()[n];
        assert(event_names()[i] == event_names()[n]);
    }
}

/// Merging changes the settings exactly where it changes the entries of an event.
proof fn lemma_changes(root: JsonView, cmd: Seq<char>, binary: Seq<char>)
    ensures
        event_changes(hooks_map(root), 9, cmd, binary) == (merged(root, cmd, binary) != root),
{
    lemma_event_names();
    let names = event_names();
    assert(names.take(9) =~= names);
    let m = hooks_map(root);
    let h = merged_hooks(m, 9, cmd, binary);
    let r = merged(root, cmd, binary);
    if event_changes(m, 9, cmd, binary) {
        let i = choose|i: int|
            0 <= i < 9 && merged_event(entries_of(m, #[trigger] names[i]), names[i], cmd, binary)
                != entries_of(m, names[i]);
        if r == root {
            assert(r->Object_0["hooks"@] == JsonView::Object(h));
            assert(m == h);
            assert(names.contains(names[i]));
            assert(h.contains_key(names[i]));
            assert(h[names[i]] == JsonView::Array(
                merged_event(entries_of(m, names[i]), names[i], cmd, binary),
            ));
        }
    } else {
        assert forall|k: Seq<char>| names.contains(k) implies m.contains_key(k) && m[k]
            == JsonView::Array(merged_event(entries_of(m, k), k, cmd, binary)) by {
            let i = choose|i: int| 0 <= i < names.len() && names[i] == k;
            assert(merged_event(entries_of(m, names[i]), names[i], cmd, binary) == entries_of(m, names[i]));
            let v = entries_of(m, k);
            if !any_ours(v, binary) {
                assert(v.push(our_entry(k, cmd)).len() == v.len() + 1);
            }
            assert(v.len() > 0);
        }
        assert(h =~= m);
        assert(names.contains(names[0]));
        assert(m.contains_key(names[0]));
        assert(field(root, "hooks"@) == Some(JsonView::Object(m)));
        assert(settings_map(root).insert("hooks"@, JsonView::Object(h)) =~= settings_map(root));
    }
}

/// Merges our hooks into the settings, and tells whether that changed them. Settings that were
/// merged before stay as they are.
pub fn merge_into(root: &mut Json, hook_cmd: &str, binary: &str) -> (r: bool)
    ensures
        final(root).view() == merged(old(root).view(), hook_cmd@, binary@),
        r == (final(root).view() != old(root).view()),
        forall|before: JsonView|
            ours(hook_cmd@, binary@) && old(root).view() == #[trigger] merged(
                before,
                hook_cmd@,
                binary@,
            ) ==> !r && final(root).view() == old(root).view(),
{
    let ghost before = root.view();
    let ghost m = hooks_map(before);
    let mut taken: Json = Json::Null;
    std::mem::swap(root, &mut taken);
    let empty: Vec<(String, Json)> = Vec::new();
    assert(object_of(empty@) =~= Map::<Seq<char>, JsonView>::empty());
    let mut hooks: Json = match taken.get("hooks") {
        Some(h) => match h {
            Json::Object(_) => h.copied(),
            _ => Json::Object(empty),
        },
        None => Json::Object(empty),
    };
    assert(hooks.view() == JsonView::Object(m));
    let events: Vec<String> = hooked_events();
    let ghost names = event_names();
    let mut changed: bool = false;
    let mut i: usize = 0;
    proof {
        lemma_event_names();
        assert(merged_hooks(m, 0, hook_cmd@, binary@) =~= m);
        assert(events@.len() == names.len());
    }
    while i < events.len()
        invariant
            i <= events@.len() == 9,
            names == event_names(),
            texts(events@) == names,
            hooks.view() == JsonView::Object(merged_hooks(m, i as int, hook_cmd@, binary@)),
            changed == event_changes(m, i as int, hook_cmd@, binary@),
        decreases events@.len() - i,
    {
        let event: &str = events[i].as_str();
        let ghost k = names[i as int];
        assert(texts(events@)[i as int] == event@);
        let none: Vec<Json> = Vec::new();
        assert(views(none@) =~= seq![]);
        let entries: &Vec<Json> = match hooks.get_array(event) {
            Some(v) => v,
            None => &none,
        };
        proof {
            lemma_names_take(i as int, k);
            assert(entries_of(merged_hooks(m, i as int, hook_cmd@, binary@), k) == entries_of(m, k));
            assert(views(entries@) == entries_of(m, k));
        }
        let (out, differs): (Vec<Json>, bool) = merge_event(entries, event, hook_cmd, binary);
        proof {
            lemma_array_view(out);
            assert forall|x: Seq<char>| names.take(i + 1).contains(x) == (names.take(
                i as int,
            ).contains(x) || x == k) by {
                lemma_names_take(i as int, x);
            }
            assert(merged_hooks(m, i as int, hook_cmd@, binary@).insert(k, JsonView::Array(views(out@)))
                =~= merged_hooks(m, i + 1, hook_cmd@, binary@));
            if differs {
                assert(merged_event(entries_of(m, names[i as int]), names[i as int], hook_cmd@, binary@)
                    != entries_of(m, names[i as int]));
            }
        }
        hooks = copied_with(&hooks, event, Json::Array(out));
        if differs {
            changed = true;
        }
        i += 1;
    }
    let mut obj: Vec<(String, Json)> = match taken {
        Json::Object(e) => e,
        _ => {
            let fresh: Vec<(String, Json)> = Vec::new();
            assert(object_of(fresh@) =~= Map::<Seq<char>, JsonView>::empty());
            fresh
        },
    };
    assert(object_of(obj@) == settings_map(before));
    put(&mut obj, "hooks", hooks);
    *root = Json::Object(obj);
    proof {
        lemma_changes(before, hook_cmd@, binary@);
        assert forall|first: JsonView|
            ours(hook_cmd@, binary@) && before == #[trigger] merged(
                first,
                hook_cmd@,
                binary@,
            ) implies merged(before, hook_cmd@, binary@) == before by {
            merging_is_final(first, hook_cmd@, binary@);
        }
    }
    changed
}

// ---------------------------------------------------------------- what merging keeps

/// How many of the entries hold one of our hooks.
pub open spec fn ours_among(v: Seq<JsonView>, binary: Seq<char>) -> nat
    decreases v.len(),
{
    if v.len() == 0 {
        0
    } else {
        ours_among(v.drop_last(), binary) + if entry_ours(v.last(), binary) {
            1nat
        } else {
            0nat
        }
    }
}

/// The hooks of all entries that are not ours, in their order.
pub open spec fn all_others(v: Seq<JsonView>, binary: Seq<char>) -> Seq<JsonView>
    decreases v.len(),
{
    if v.len() == 0 {
        seq![]
    } else {
        all_others(v.drop_last(), binary) + match hooks_of(v.last()) {
            Some(h) => others(h, binary),
            None => seq![],
        }
    }
}

proof fn lemma_none_among(v: Seq<JsonView>, binary: Seq<char>)
    requires
        ours_among(v, binary) == 0,
    ensures
        !any_ours(v, binary),
    decreases v.len(),
{
    if v.len() > 0 {
        lemma_none_among(v.drop_last(), binary);
        if any_ours(v, binary) {
            let i = choose|i: int| 0 <= i < v.len() && entry_ours(#[trigger] v[i], binary);
            if i < v.len() - 1 {
                assert(entry_ours(v.drop_last()[i], binary));
            }
        }
    }
}

proof fn lemma_one_among(v: Seq<JsonView>, i: int, j: int, binary: Seq<char>)
    requires
        ours_among(v, binary) == 1,
        0 <= i < v.len(),
        0 <= j < v.len(),
        entry_ours(v[i], binary),
        entry_ours(v[j], binary),
    ensures
        i == j,
    decreases v.len(),
{
    let d = v.drop_last();
    if entry_ours(v.last(), binary) {
        lemma_none_among(d, binary);
        if i < d.len() {
            assert(entry_ours(d[i], binary));
        }
        if j < d.len() {
            assert(entry_ours(d[j], binary));
        }
    } else {
        assert(d[i] == v[i] && d[j] == v[j]);
        lemma_one_among(d, i, j, binary);
    }
}

proof fn lemma_count_one(v: Seq<JsonView>, k: int, binary: Seq<char>)
    requires
        0 <= k < v.len(),
        forall|i: int| 0 <= i < v.len() ==> (entry_ours(#[trigger] v[i], binary) <==> i == k),
    ensures
        ours_among(v, binary) == 1,
    decreases v.len(),
{
    let d = v.drop_last();
    if k == v.len() - 1 {
        assert forall|i: int| 0 <= i < d.len() implies !entry_ours(#[trigger] d[i], binary) by {
            assert(!entry_ours(v[i], binary));
        }
        lemma_count_none(d, binary);
    } else {
        assert forall|i: int| 0 <= i < d.len() implies (entry_ours(#[trigger] d[i], binary) <==> i == k) by {
            assert(entry_ours(v[i], binary) <==> i == k);
        }
        assert(!entry_ours(v[v.len() - 1], binary));
        lemma_count_one(d, k, binary);
    }
}

proof fn lemma_count_none(v: Seq<JsonView>, binary: Seq<char>)
    requires
        forall|i: int| 0 <= i < v.len() ==> !entry_ours(#[trigger] v[i], binary),
    ensures
        ours_among(v, binary) == 0,
    decreases v.len(),
{
    if v.len() > 0 {
        assert(!entry_ours(v[v.len() - 1], binary));
        assert forall|i: int| 0 <= i < v.drop_last().len() implies !entry_ours(
            #[trigger] v.drop_last()[i],
            binary,
        ) by {
            assert(!entry_ours(v[i], binary));
        }
        lemma_count_none(v.drop_last(), binary);
    }
}

proof fn lemma_busy_keeps(v: Seq<JsonView>, c: Seq<JsonView>, binary: Seq<char>)
    requires
        v.len() == c.len(),
    ensures
        ours_among(busy(v, c, binary), binary) == ours_among(c, binary),
        all_others(busy(v, c, binary), binary) == all_others(c, binary),
    decreases c.len(),
{
    if c.len() > 0 {
        let d = c.drop_last();
        lemma_busy_keeps(v.drop_last(), d, binary);
        if emptied(v.last(), c.last(), binary) {
            assert(!entry_ours(c.last(), binary));
            assert(all_others(c, binary) =~= all_others(d, binary));
        } else {
            assert(busy(v, c, binary).drop_last() =~= busy(v.drop_last(), d, binary));
        }
    }
}

/// What cleaning makes of one entry.
proof fn lemma_cleaned_entry(e: JsonView, keeps: bool, cmd: Seq<char>, binary: Seq<char>)
    requires
        ours(cmd, binary),
    ensures
        ({
            let c = cleaned_entry(e, keeps, cmd, binary);
            &&& entry_ours(c, binary) == (entry_ours(e, binary) && keeps)
            &&& hooks_of(c) is Some == hooks_of(e) is Some
            &&& hooks_of(e) is Some ==> others(hooks_of(c)->0, binary) == others(hooks_of(e)->0, binary)
            &&& text_field(c, "matcher"@) == text_field(e, "matcher"@)
            &&& entry_ours(c, binary) ==> with_hooks(c, single(hooks_of(c)->0, cmd, binary)) == c
            &&& entry_ours(c, binary) ==> hooks_of(c)->0.len() == others(hooks_of(c)->0, binary).len() + 1
            &&& entry_ours(c, binary) ==> text_field(
                hooks_of(c)->0[first_ours(hooks_of(c)->0, 0, binary)],
                "command"@,
            ) == Some(cmd)
        }),
{
    if entry_ours(e, binary) {
        let v = hooks_of(e)->0;
        lemma_single(v, cmd, binary);
        lemma_others(v, binary);
        let s = single(v, cmd, binary);
        let o = others(v, binary);
        lemma_with_hooks(e, s);
        lemma_with_hooks(e, o);
        lemma_others(o, binary);
        assert(!has_ours(o, binary)) by {
            if has_ours(o, binary) {
                let i = choose|i: int| 0 <= i < o.len() && is_ours(#[trigger] o[i], binary);
                assert(!is_ours(o[i], binary));
            }
        }
        lemma_single(s, cmd, binary);
        lemma_with_hooks(with_hooks(e, s), s);
    }
}

/// What merging makes of an event's entries, where the program is one of ours.
proof fn lemma_merged_event(v: Seq<JsonView>, event: Seq<char>, cmd: Seq<char>, binary: Seq<char>)
    requires
        ours(cmd, binary),
    ensures
        ({
            let r = merged_event(v, event, cmd, binary);
            &&& ours_among(r, binary) == 1
            &&& all_others(r, binary) == all_others(v, binary)
            &&& forall|i: int|
                0 <= i < r.len() && entry_ours(#[trigger] r[i], binary) ==> with_hooks(
                    r[i],
                    single(hooks_of(r[i])->0, cmd, binary),
                ) == r[i] && hooks_of(r[i])->0.len() == others(hooks_of(r[i])->0, binary).len() + 1
                    && text_field(
                    hooks_of(r[i])->0[first_ours(hooks_of(r[i])->0, 0, binary)],
                    "command"@,
                ) == Some(cmd)
            &&& forall|i: int|
                0 <= i < v.len() && !entry_ours(#[trigger] v[i], binary) ==> r.contains(v[i])
        }),
{
    let r = merged_event(v, event, cmd, binary);
    if any_ours(v, binary) {
        let c = cleaned(v, event, cmd, binary);
        let k = keeper(v, event, binary);
        lemma_keeper(v, event, binary);
        assert forall|i: int| 0 <= i < c.len() implies (entry_ours(#[trigger] c[i], binary) <==> i == k) by {
            lemma_cleaned_entry(v[i], i == k, cmd, binary);
        }
        lemma_count_one(c, k, binary);
        lemma_busy_keeps(v, c, binary);
        lemma_busy(v, c, binary);
        lemma_cleaned_others(v, event, cmd, v.len() as int, binary);
        assert(c.take(v.len() as int) =~= c);
        assert(v.take(v.len() as int) =~= v);
        assert forall|i: int| 0 <= i < r.len() && entry_ours(#[trigger] r[i], binary) implies with_hooks(
            r[i],
            single(hooks_of(r[i])->0, cmd, binary),
        ) == r[i] && hooks_of(r[i])->0.len() == others(hooks_of(r[i])->0, binary).len() + 1 && text_field(
            hooks_of(r[i])->0[first_ours(hooks_of(r[i])->0, 0, binary)],
            "command"@,
        ) == Some(cmd) by {
            assert(c.contains(busy(v, c, binary)[i]));
            let j = choose|j: int| 0 <= j < c.len() && c[j] == r[i];
            lemma_cleaned_entry(v[j], j == k, cmd, binary);
        }
        assert forall|i: int|
            0 <= i < v.len() && !entry_ours(#[trigger] v[i], binary) implies r.contains(v[i]) by {
            assert(c[i] == v[i]);
            assert(!emptied(v[i], c[i], binary));
            assert(busy(v, c, binary).contains(c[i]));
        }
    } else {
        let e = our_entry(event, cmd);
        lemma_our_entry(event, cmd, binary);
        let h = hooks_of(e)->0;
        assert forall|i: int| 0 <= i < r.len() implies (entry_ours(#[trigger] r[i], binary) <==> i
            == v.len()) by {
            if i < v.len() {
                assert(r[i] == v[i]);
            }
        }
        lemma_count_one(r, v.len() as int, binary);
        assert(r.drop_last() =~= v);
        assert(has_ours(h, binary));
        lemma_others(h, binary);
        lemma_single(h, cmd, binary);
        assert(is_ours(h[0], binary));
        lemma_first_is(h, 0, binary);
        assert(!has_ours(h.skip(1), binary));
        lemma_with_hooks(e, h);
        assert(others(h, binary).len() == 0);
        assert(all_others(r, binary) =~= all_others(v, binary));
        assert forall|i: int|
            0 <= i < v.len() && !entry_ours(#[trigger] v[i], binary) implies r.contains(v[i]) by {
            assert(r[i] == v[i]);
        }
        assert forall|i: int| 0 <= i < r.len() && entry_ours(#[trigger] r[i], binary) implies with_hooks(
            r[i],
            single(hooks_of(r[i])->0, cmd, binary),
        ) == r[i] && hooks_of(r[i])->0.len() == others(hooks_of(r[i])->0, binary).len() + 1 && text_field(
            hooks_of(r[i])->0[first_ours(hooks_of(r[i])->0, 0, binary)],
            "command"@,
        ) == Some(cmd) by {
            assert(r[i] == e);
        }
    }
}

proof fn lemma_cleaned_others(v: Seq<JsonView>, event: Seq<char>, cmd: Seq<char>, n: int, binary: Seq<char>)
    requires
        ours(cmd, binary),
        0 <= n <= v.len(),
    ensures
        all_others(cleaned(v, event, cmd, binary).take(n), binary) == all_others(v.take(n), binary),
    decreases n,
{
    let c = cleaned(v, event, cmd, binary);
    if n > 0 {
        lemma_cleaned_others(v, event, cmd, n - 1, binary);
        assert(c.take(n).drop_last() =~= c.take(n - 1));
        assert(v.take(n).drop_last() =~= v.take(n - 1));
        lemma_cleaned_entry(v[n - 1], n - 1 == keeper(v, event, binary), cmd, binary);
        assert(c.take(n).last() == c[n - 1]);
        assert(v.take(n).last() == v[n - 1]);
    } else {
        assert(c.take(0) =~= v.take(0));
    }
}

/// Whether an event's entries hold exactly one of our hooks, and it calls `cmd`.
pub open spec fn registered(v: Seq<JsonView>, cmd: Seq<char>, binary: Seq<char>) -> bool {
    &&& ours_among(v, binary) == 1
    &&& forall|i: int|
        0 <= i < v.len() && entry_ours(#[trigger] v[i], binary) ==> {
            let h = hooks_of(v[i])->0;
            let k = first_ours(h, 0, binary);
            text_field(h[k], "command"@) == Some(cmd) && !has_ours(h.skip(k + 1), binary)
        }
}

proof fn lemma_registered_stays(v: Seq<JsonView>, event: Seq<char>, cmd: Seq<char>, binary: Seq<char>)
    requires
        registered(v, cmd, binary),
    ensures
        merged_event(v, event, cmd, binary) == v,
{
    assert(any_ours(v, binary)) by {
        if !any_ours(v, binary) {
            assert forall|i: int| 0 <= i < v.len() implies !entry_ours(#[trigger] v[i], binary) by {}
            lemma_count_none(v, binary);
        }
    }
    lemma_keeper(v, event, binary);
    let k = keeper(v, event, binary);
    let c = cleaned(v, event, cmd, binary);
    assert forall|i: int| 0 <= i < v.len() implies #[trigger] c[i] == v[i] by {
        if entry_ours(v[i], binary) {
            lemma_one_among(v, i, k, binary);
            lemma_single(hooks_of(v[i])->0, cmd, binary);
            lemma_with_hooks(v[i], hooks_of(v[i])->0);
        }
    }
    assert(c =~= v);
    assert forall|i: int| 0 <= i < c.len() implies !emptied(v[i], #[trigger] c[i], binary) by {}
    lemma_busy(v, c, binary);
}

proof fn lemma_merged_is_registered(
    v: Seq<JsonView>,
    event: Seq<char>,
    cmd: Seq<char>,
    binary: Seq<char>,
)
    requires
        ours(cmd, binary),
    ensures
        registered(merged_event(v, event, cmd, binary), cmd, binary),
{
    let r = merged_event(v, event, cmd, binary);
    lemma_merged_event(v, event, cmd, binary);
    assert forall|i: int| 0 <= i < r.len() && entry_ours(#[trigger] r[i], binary) implies {
        let h = hooks_of(r[i])->0;
        let k = first_ours(h, 0, binary);
        text_field(h[k], "command"@) == Some(cmd) && !has_ours(h.skip(k + 1), binary)
    } by {
        let h = hooks_of(r[i])->0;
        lemma_single(h, cmd, binary);
        lemma_with_hooks(r[i], single(h, cmd, binary));
    }
}

/// Settings in which every event has one of our hooks, calling the program given, stay as they
/// are: merging does nothing to them.
pub proof fn registered_hooks_stay(root: JsonView, cmd: Seq<char>, binary: Seq<char>)
    requires
        forall|i: int|
            0 <= i < 9 ==> registered(
                entries_of(hooks_map(root), #[trigger] event_names()[i]),
                cmd,
                binary,
            ),
    ensures
        merged(root, cmd, binary) == root,
{
    let names = event_names();
    let m = hooks_map(root);
    assert forall|i: int| 0 <= i < 9 implies merged_event(
        entries_of(m, #[trigger] names[i]),
        names[i],
        cmd,
        binary,
    ) == entries_of(m, names[i]) by {
        lemma_registered_stays(entries_of(m, names[i]), names[i], cmd, binary);
    }
    lemma_changes(root, cmd, binary);
}

/// Merging is idempotent: whatever the settings were, merged once they do not change again.
pub proof fn merging_is_final(root: JsonView, cmd: Seq<char>, binary: Seq<char>)
    requires
        ours(cmd, binary),
    ensures
        merged(merged(root, cmd, binary), cmd, binary) == merged(root, cmd, binary),
{
    lemma_event_names();
    let names = event_names();
    let once = merged(root, cmd, binary);
    let m = hooks_map(root);
    let h = merged_hooks(m, 9, cmd, binary);
    assert(names.take(9) =~= names);
    assert(field(once, "hooks"@) == Some(JsonView::Object(h)));
    assert(hooks_map(once) == h);
    assert forall|i: int| 0 <= i < 9 implies registered(
        entries_of(h, #[trigger] names[i]),
        cmd,
        binary,
    ) by {
        assert(names.contains(names[i]));
        assert(entries_of(h, names[i]) == merged_event(
            entries_of(m, names[i]),
            names[i],
            cmd,
            binary,
        ));
        lemma_merged_is_registered(entries_of(m, names[i]), names[i], cmd, binary);
    }
    registered_hooks_stay(once, cmd, binary);
}

/// Merging touches nothing that is not ours: the other settings, the entries of other events, and
/// in each event all hooks that are not ours, in their order, and every entry without one of ours.
pub proof fn merging_keeps_all_else(root: JsonView, cmd: Seq<char>, key: Seq<char>, binary: Seq<char>)
    requires
        ours(cmd, binary),
    ensures
        key != "hooks"@ && settings_map(root).contains_key(key) ==> field(merged(root, cmd, binary), key)
            == Some(settings_map(root)[key]),
        !event_names().contains(key) && hooks_map(root).contains_key(key) ==> hooks_map(
            merged(root, cmd, binary),
        ).contains_key(key) && hooks_map(merged(root, cmd, binary))[key] == hooks_map(root)[key],
        event_names().contains(key) ==> all_others(entries_of(hooks_map(merged(root, cmd, binary)), key), binary)
            == all_others(entries_of(hooks_map(root), key), binary),
        event_names().contains(key) ==> forall|i: int|
            0 <= i < entries_of(hooks_map(root), key).len() && !entry_ours(
                #[trigger] entries_of(hooks_map(root), key)[i],
                binary,
            ) ==> entries_of(
                hooks_map(merged(root, cmd, binary)),
                key,
            ).contains(entries_of(hooks_map(root), key)[i]),
{
    lemma_event_names();
    let names = event_names();
    assert(names.take(9) =~= names);
    let m = hooks_map(root);
    let h = merged_hooks(m, 9, cmd, binary);
    assert(field(merged(root, cmd, binary), "hooks"@) == Some(JsonView::Object(h)));
    assert(hooks_map(merged(root, cmd, binary)) == h);
    if names.contains(key) {
        lemma_merged_event(entries_of(m, key), key, cmd, binary);
        assert(entries_of(h, key) == merged_event(entries_of(m, key), key, cmd, binary));
    }
}

/// After merging each event has exactly one of our hooks, and it calls the program given.
pub proof fn merging_leaves_one_hook(root: JsonView, cmd: Seq<char>, event: Seq<char>, binary: Seq<char>)
    requires
        ours(cmd, binary),
        event_names().contains(event),
    ensures
        ({
            let r = entries_of(hooks_map(merged(root, cmd, binary)), event);
            &&& ours_among(r, binary) == 1
            &&& forall|i: int|
                0 <= i < r.len() && entry_ours(#[trigger] r[i], binary) ==> hooks_of(r[i])->0.len()
                    == others(hooks_of(r[i])->0, binary).len() + 1 && text_field(
                    hooks_of(r[i])->0[first_ours(hooks_of(r[i])->0, 0, binary)],
                    "command"@,
                ) == Some(cmd)
        }),
{
    lemma_event_names();
    let names = event_names();
    assert(names.take(9) =~= names);
    let m = hooks_map(root);
    let h = merged_hooks(m, 9, cmd, binary);
    assert(hooks_map(merged(root, cmd, binary)) == h);
    lemma_merged_event(entries_of(m, event), event, cmd, binary);
    assert(entries_of(h, event) == merged_event(entries_of(m, event), event, cmd, binary));
}

/// The command that we write is ours, so that all of this holds of it.
pub proof fn written_command_is_ours(binary: Seq<char>)
    ensures
        ours(HOOK_BINARY_COMMAND@, binary),
{
    reveal_strlit("~/.ccc/bin/ccc-hook.sh");
    reveal_strlit("ccc-hook.sh");
    reveal_strlit("~/.ccc/bin");
    reveal_strlit(".");
    reveal_strlit("..");
    let dir = "~/.ccc/bin"@;
    let name = "ccc-hook.sh"@;
    assert(plain(name)) by {
        if name.contains('/') {
            let k = choose|k: int| 0 <= k < name.len() && name[k] == '/';
            assert(0 <= k < 11);
        }
    }
    lemma_join_component(dir, name);
    assert(HOOK_BINARY_COMMAND@ =~= path_join(dir, name));
    assert(components(HOOK_BINARY_COMMAND@).last() == name);
}

// ---------------------------------------------------------------- what an event is told

/// What hook `j` of an event's entry `i` calls.
pub open spec fn command_at(root: JsonView, event: Seq<char>, i: int, j: int) -> Option<Seq<char>> {
    match field(root, "hooks"@) {
        Some(h) => match array_field(h, event) {
            Some(v) => if 0 <= i < v.len() {
                match array_field(v[i], "hooks"@) {
                    Some(w) => if 0 <= j < w.len() {
                        text_field(w[j], "command"@)
                    } else {
                        None
                    },
                    None => None,
                }
            } else {
                None
            },
            None => None,
        },
        None => None,
    }
}

/// The matcher of an event's entry `i`.
pub open spec fn matcher_at(root: JsonView, event: Seq<char>, i: int) -> Option<Seq<char>> {
    match field(root, "hooks"@) {
        Some(h) => match array_field(h, event) {
            Some(v) => if 0 <= i < v.len() {
                text_field(v[i], "matcher"@)
            } else {
                None
            },
            None => None,
        },
        None => None,
    }
}

proof fn lemma_merged_at(root: JsonView, cmd: Seq<char>, event: Seq<char>, binary: Seq<char>)
    ensures
        field(merged(root, cmd, binary), "hooks"@) == Some(
            JsonView::Object(merged_hooks(hooks_map(root), 9, cmd, binary)),
        ),
        hooks_map(merged(root, cmd, binary)) == merged_hooks(hooks_map(root), 9, cmd, binary),
        event_names().contains(event) ==> array_field(
            JsonView::Object(merged_hooks(hooks_map(root), 9, cmd, binary)),
            event,
        ) == Some(merged_event(entries_of(hooks_map(root), event), event, cmd, binary)),
        !event_names().contains(event) ==> field(
            JsonView::Object(merged_hooks(hooks_map(root), 9, cmd, binary)),
            event,
        ) == field(JsonView::Object(hooks_map(root)), event),
{
    lemma_event_names();
    assert(event_names().take(9) =~= event_names());
}

proof fn lemma_entries_are(root: JsonView, event: Seq<char>)
    ensures
        match field(root, "hooks"@) {
            Some(h) => match array_field(h, event) {
                Some(v) => entries_of(hooks_map(root), event) == v,
                None => entries_of(hooks_map(root), event).len() == 0,
            },
            None => entries_of(hooks_map(root), event).len() == 0,
        },
{
}

/// The hook is told of the nine events that the receiver knows of by a hook: each event's name is
/// among those that settings are merged for, and no other name is.
pub proof fn hooked_events_are_the_known_ones(kind: HookEventKind, name: Seq<char>)
    ensures
        event_names().contains(kind.label()) <==> kind != HookEventKind::PaneDied && kind
            != HookEventKind::Other,
        event_names().contains(name) ==> HookEventKind::named(name).label() == name
            && HookEventKind::named(name) != HookEventKind::PaneDied && HookEventKind::named(name)
            != HookEventKind::Other,
        event_names().contains(name) <==> name == "SessionStart"@ || name == "SessionEnd"@ || name
            == "UserPromptSubmit"@ || name == "PreToolUse"@ || name == "PostToolUse"@ || name
            == "Notification"@ || name == "PermissionRequest"@ || name == "Stop"@ || name
            == "StopFailure"@,
{
    let n = event_names();
    assert(n[0] == "SessionStart"@);
    assert(n[1] == "SessionEnd"@);
    assert(n[2] == "UserPromptSubmit"@);
    assert(n[3] == "PreToolUse"@);
    assert(n[4] == "PostToolUse"@);
    assert(n[5] == "Notification"@);
    assert(n[6] == "PermissionRequest"@);
    assert(n[7] == "Stop"@);
    assert(n[8] == "StopFailure"@);
    reveal_strlit("PaneDied");
    reveal_strlit("Other");
    reveal_strlit("SessionStart");
    reveal_strlit("SessionEnd");
    reveal_strlit("UserPromptSubmit");
    reveal_strlit("PreToolUse");
    reveal_strlit("PostToolUse");
    reveal_strlit("Notification");
    reveal_strlit("PermissionRequest");
    reveal_strlit("Stop");
    reveal_strlit("StopFailure");
    assert("PaneDied"@.len() == 8 && "Other"@.len() == 5);
    assert("SessionStart"@.len() == 12 && "SessionStart"@[0] == 'S');
    assert("SessionEnd"@.len() == 10 && "SessionEnd"@[0] == 'S');
    assert("UserPromptSubmit"@.len() == 16);
    assert("PreToolUse"@.len() == 10 && "PreToolUse"@[0] == 'P');
    assert("PostToolUse"@.len() == 11 && "PostToolUse"@[0] == 'P');
    assert("Notification"@.len() == 12 && "Notification"@[0] == 'N');
    assert("PermissionRequest"@.len() == 17);
    assert("Stop"@.len() == 4);
    assert("StopFailure"@.len() == 11 && "StopFailure"@[0] == 'S');
    name_is_read_back(kind);
    name_is_read_back(HookEventKind::named(name));
    if n.contains(name) {
        let i = choose|i: int| 0 <= i < n.len() && n[i] == name;
        assert(0 <= i < 9);
    }
}

/// After merging every event that we watch has exactly one hook that calls one of our programs, and
/// it calls the program given; this holds whatever the settings were before.
pub proof fn watched_events_are_told_once(
    root: JsonView,
    cmd: Seq<char>,
    binary: Seq<char>,
    event: Seq<char>,
)
    requires
        ours(cmd, binary),
        event == "SessionStart"@ || event == "SessionEnd"@ || event == "UserPromptSubmit"@ || event
            == "PreToolUse"@ || event == "PostToolUse"@ || event == "Notification"@ || event
            == "PermissionRequest"@ || event == "Stop"@ || event == "StopFailure"@,
    ensures
        exists|i: int, j: int|
            #![trigger command_at(merged(root, cmd, binary), event, i, j)]
            command_at(merged(root, cmd, binary), event, i, j) == Some(cmd) && forall|a: int, b: int|
                #![trigger command_at(merged(root, cmd, binary), event, a, b)]
                (command_at(merged(root, cmd, binary), event, a, b) matches Some(c) && ours(
                    c,
                    binary,
                )) ==> a == i && b == j,
{
    hooked_events_are_the_known_ones(HookEventKind::Stop, event);
    lemma_merged_at(root, cmd, event, binary);
    let m = merged(root, cmd, binary);
    let v = entries_of(hooks_map(root), event);
    let r = merged_event(v, event, cmd, binary);
    lemma_merged_is_registered(v, event, cmd, binary);
    if forall|i: int| 0 <= i < r.len() ==> !entry_ours(#[trigger] r[i], binary) {
        lemma_count_none(r, binary);
    }
    let i = choose|i: int| 0 <= i < r.len() && entry_ours(#[trigger] r[i], binary);
    let h = hooks_of(r[i])->0;
    let j = first_ours(h, 0, binary);
    lemma_single(h, cmd, binary);
    lemma_first_ours(h, 0, binary);
    assert(command_at(m, event, i, j) == Some(cmd));
    assert forall|a: int, b: int|
        #![trigger command_at(m, event, a, b)]
        (command_at(m, event, a, b) matches Some(c) && ours(c, binary)) implies a == i && b == j by {
        let g = hooks_of(r[a])->0;
        assert(is_ours(g[b], binary));
        assert(entry_ours(r[a], binary));
        lemma_one_among(r, a, i, binary);
        if b < j {
            assert(!is_ours(h[b], binary));
        }
        if b > j {
            assert(h.skip(j + 1)[b - j - 1] == h[b]);
            assert(has_ours(h.skip(j + 1), binary));
        }
    }
}

/// Merging adds nothing to an event that we do not watch: it calls after it what it called before.
pub proof fn other_events_are_left_alone(
    root: JsonView,
    cmd: Seq<char>,
    binary: Seq<char>,
    event: Seq<char>,
    i: int,
    j: int,
)
    requires
        event != "SessionStart"@,
        event != "SessionEnd"@,
        event != "UserPromptSubmit"@,
        event != "PreToolUse"@,
        event != "PostToolUse"@,
        event != "Notification"@,
        event != "PermissionRequest"@,
        event != "Stop"@,
        event != "StopFailure"@,
    ensures
        command_at(merged(root, cmd, binary), event, i, j) == command_at(root, event, i, j),
        matcher_at(merged(root, cmd, binary), event, i) == matcher_at(root, event, i),
{
    hooked_events_are_the_known_ones(HookEventKind::Stop, event);
    lemma_merged_at(root, cmd, event, binary);
    if let Some(JsonView::Object(h)) = field(root, "hooks"@) {
        assert(hooks_map(root) == h);
    }
}

/// A hook that is not ours is called after merging in every event in which it was called before.
pub proof fn foreign_hooks_are_still_called(
    root: JsonView,
    cmd: Seq<char>,
    binary: Seq<char>,
    event: Seq<char>,
    i: int,
    j: int,
)
    requires
        ours(cmd, binary),
        command_at(root, event, i, j) is Some,
        !ours(command_at(root, event, i, j)->0, binary),
    ensures
        exists|a: int, b: int| #[trigger]
            command_at(merged(root, cmd, binary), event, a, b) == command_at(root, event, i, j),
{
    let m = merged(root, cmd, binary);
    lemma_merged_at(root, cmd, event, binary);
    lemma_entries_are(root, event);
    if event_names().contains(event) {
        let v = entries_of(hooks_map(root), event);
        let r = merged_event(v, event, cmd, binary);
        lemma_merged_event(v, event, cmd, binary);
        let w = hooks_of(v[i])->0;
        lemma_others_hold(w, j, binary);
        lemma_all_others_hold(v, i, w[j], binary);
        lemma_all_others_from(r, w[j], binary);
        let (a, b) = choose|a: int, b: int|
            0 <= a < r.len() && hooks_of(r[a]) is Some && 0 <= b < hooks_of(r[a])->0.len()
                && #[trigger] hooks_of(r[a])->0[b] == w[j];
        assert(command_at(m, event, a, b) == command_at(root, event, i, j));
    } else {
        if let Some(JsonView::Object(h)) = field(root, "hooks"@) {
            assert(hooks_map(root) == h);
        }
        assert(command_at(m, event, i, j) == command_at(root, event, i, j));
    }
}

proof fn lemma_others_hold(w: Seq<JsonView>, j: int, binary: Seq<char>)
    requires
        0 <= j < w.len(),
        !is_ours(w[j], binary),
    ensures
        others(w, binary).contains(w[j]),
    decreases w.len(),
{
    if j == w.len() - 1 {
        let o = others(w, binary);
        assert(o[o.len() - 1] == w[j]);
    } else {
        let d = w.drop_last();
        assert(d[j] == w[j]);
        lemma_others_hold(d, j, binary);
        let o = others(d, binary);
        let k = choose|k: int| 0 <= k < o.len() && o[k] == w[j];
        assert(others(w, binary)[k] == w[j]);
    }
}

proof fn lemma_all_others_hold(v: Seq<JsonView>, i: int, h: JsonView, binary: Seq<char>)
    requires
        0 <= i < v.len(),
        hooks_of(v[i]) is Some,
        others(hooks_of(v[i])->0, binary).contains(h),
    ensures
        all_others(v, binary).contains(h),
    decreases v.len(),
{
    let d = v.drop_last();
    let front = all_others(d, binary);
    let all = all_others(v, binary);
    if i == v.len() - 1 {
        let o = others(hooks_of(v[i])->0, binary);
        let k = choose|k: int| 0 <= k < o.len() && o[k] == h;
        assert(all[front.len() + k] == h);
    } else {
        assert(d[i] == v[i]);
        lemma_all_others_hold(d, i, h, binary);
        let k = choose|k: int| 0 <= k < front.len() && front[k] == h;
        assert(all[k] == h);
    }
}

proof fn lemma_others_from(w: Seq<JsonView>, h: JsonView, binary: Seq<char>)
    requires
        others(w, binary).contains(h),
    ensures
        w.contains(h),
    decreases w.len(),
{
    if w.len() > 0 {
        let d = w.drop_last();
        let o = others(w, binary);
        let k = choose|k: int| 0 <= k < o.len() && o[k] == h;
        if k < others(d, binary).len() {
            assert(others(d, binary)[k] == h);
            lemma_others_from(d, h, binary);
            let q = choose|q: int| 0 <= q < d.len() && d[q] == h;
            assert(w[q] == h);
        } else {
            assert(w[w.len() - 1] == h);
        }
    }
}

proof fn lemma_all_others_from(v: Seq<JsonView>, h: JsonView, binary: Seq<char>)
    requires
        all_others(v, binary).contains(h),
    ensures
        exists|a: int, b: int|
            0 <= a < v.len() && hooks_of(v[a]) is Some && 0 <= b < hooks_of(v[a])->0.len()
                && #[trigger] hooks_of(v[a])->0[b] == h,
    decreases v.len(),
{
    if v.len() > 0 {
        let d = v.drop_last();
        let all = all_others(v, binary);
        let front = all_others(d, binary);
        let k = choose|k: int| 0 <= k < all.len() && all[k] == h;
        if k < front.len() {
            assert(front[k] == h);
            lemma_all_others_from(d, h, binary);
            let (a, b) = choose|a: int, b: int|
                0 <= a < d.len() && hooks_of(d[a]) is Some && 0 <= b < hooks_of(d[a])->0.len()
                    && #[trigger] hooks_of(d[a])->0[b] == h;
            assert(v[a] == d[a]);
            assert(hooks_of(v[a])->0[b] == h);
        } else {
            let a = v.len() - 1;
            let w = hooks_of(v[a])->0;
            assert(others(w, binary)[k - front.len()] == h);
            lemma_others_from(w, h, binary);
            let b = choose|b: int| 0 <= b < w.len() && w[b] == h;
            assert(hooks_of(v[a])->0[b] == h);
        }
    }
}

/// Where an event had none of our hooks, or one in an entry with the matcher that the event needs, our
/// hook stands in such an entry afterwards: every tool for the events of tools, no matcher for others.
pub proof fn our_hook_matches_every_call(
    root: JsonView,
    cmd: Seq<char>,
    binary: Seq<char>,
    event: Seq<char>,
    a: int,
    b: int,
)
    requires
        ours(cmd, binary),
        event_names().contains(event),
        command_at(merged(root, cmd, binary), event, a, b) is Some,
        ours(command_at(merged(root, cmd, binary), event, a, b)->0, binary),
        (forall|i: int, j: int|
            (#[trigger] command_at(root, event, i, j)) matches Some(c) ==> !ours(c, binary)) || (
        exists|i: int, j: int|
            (#[trigger] command_at(root, event, i, j)) matches Some(c) && ours(c, binary)
                && matcher_at(root, event, i) == if event == "PreToolUse"@ || event
                == "PostToolUse"@ {
                Some("*"@)
            } else {
                None
            }),
    ensures
        matcher_at(merged(root, cmd, binary), event, a) == if event == "PreToolUse"@ || event
            == "PostToolUse"@ {
            Some("*"@)
        } else {
            None
        },
{
    lemma_merged_at(root, cmd, event, binary);
    lemma_entries_are(root, event);
    let v = entries_of(hooks_map(root), event);
    let r = merged_event(v, event, cmd, binary);
    assert(is_ours(hooks_of(r[a])->0[b], binary));
    assert(entry_ours(r[a], binary));
    if any_ours(v, binary) {
        let k = choose|k: int| 0 <= k < v.len() && entry_ours(#[trigger] v[k], binary);
        let q = choose|q: int|
            0 <= q < hooks_of(v[k])->0.len() && is_ours(#[trigger] hooks_of(v[k])->0[q], binary);
        assert(command_at(root, event, k, q) is Some);
        let (i, j) = choose|i: int, j: int|
            (#[trigger] command_at(root, event, i, j)) matches Some(c) && ours(c, binary)
                && matcher_at(root, event, i) == canonical(event);
        assert(is_ours(hooks_of(v[i])->0[j], binary));
        assert(suits(v[i], event, true, binary));
        lemma_first_suiting(v, event, true, 0, binary);
        let n = keeper(v, event, binary);
        let c = cleaned(v, event, cmd, binary);
        lemma_busy(v, c, binary);
        assert(c.contains(busy(v, c, binary)[a]));
        let z = choose|z: int| 0 <= z < c.len() && c[z] == r[a];
        lemma_cleaned_entry(v[z], z == n, cmd, binary);
        assert(z == n);
    } else {
        lemma_our_entry(event, cmd, binary);
        if a < v.len() {
            assert(r[a] == v[a]);
            assert(any_ours(v, binary));
        }
    }
}

/// A program is ours by its file's name alone: the wrapper, or the binary of the name given, in
/// whatever directory; a program of another name is not.
pub proof fn programs_are_told_by_name(dir: Seq<char>, name: Seq<char>, binary: Seq<char>)
    requires
        plain(name),
    ensures
        ours(dir + "/"@ + name, binary) <==> name == "ccc-hook.sh"@ || name == binary,
{
    reveal_strlit("/");
    assert(dir + "/"@ + name =~= dir.push('/') + name);
    crate::pathname::lemma_components_join(dir, name);
    let e = Seq::<char>::empty();
    lemma_join_component(e, name);
    assert(path_join(e, name) =~= name) by {
        assert(name.contains(name[0]));
    }
    crate::pathname::lemma_components_empty();
    assert(components(name) =~= seq![name]);
    assert(components(dir.push('/') + name).last() == name);
}

/// The entry that is added for an event has one hook, which runs the program given as a command.
pub proof fn our_entry_runs_the_program(event: Seq<char>, cmd: Seq<char>)
    ensures
        array_field(our_entry(event, cmd), "hooks"@) matches Some(v) && v.len() == 1 && text_field(
            v[0],
            "command"@,
        ) == Some(cmd) && text_field(v[0], "type"@) == Some("command"@),
{
    reveal_strlit("type");
    reveal_strlit("command");
    assert("type"@.len() != "command"@.len());
    lemma_our_entry(event, cmd, "ccc-hook.sh"@);
}

// ---------------------------------------------------------------- the settings file

/// Why settings were not merged.
#[derive(Clone, Copy, PartialEq, Eq, Debug, Structural)]
pub enum SettingsError {
    /// The file holds no JSON.
    NotJson,
    /// The new settings could not be written as text.
    NotWritten,
}

/// The settings that a file holds; one that is missing or blank holds an empty object.
pub open spec fn settings_of(raw: Option<Seq<char>>) -> Option<JsonView> {
    match raw {
        Some(t) => if blank(t) {
            Some(JsonView::Object(Map::empty()))
        } else {
            json_of_text(t)
        },
        None => Some(JsonView::Object(Map::empty())),
    }
}

/// The settings that a file holds.
pub fn read_settings(raw: &Option<String>) -> (r: Result<Json, SettingsError>)
    ensures
        match r {
            Ok(j) => settings_of(opt_text(*raw)) == Some(j.view()),
            Err(e) => e == SettingsError::NotJson && settings_of(opt_text(*raw)) is None,
        },
{
    let text: &str = match raw {
        Some(t) => t.as_str(),
        None => {
            return Ok(empty_object());
        },
    };
    if is_blank(text) {
        return Ok(empty_object());
    }
    match parse(text) {
        Some(j) => Ok(j),
        None => Err(SettingsError::NotJson),
    }
}

fn empty_object() -> (r: Json)
    ensures
        r.view() == JsonView::Object(Map::empty()),
{
    let e: Vec<(String, Json)> = Vec::new();
    assert(object_of(e@) =~= Map::<Seq<char>, JsonView>::empty());
    Json::Object(e)
}

/// What to write to a profile's settings file: nothing where it holds our hooks already.
pub fn merge_into_config_dir(raw: &Option<String>, binary: &str) -> (r: Result<Option<String>, SettingsError>)
    ensures
        match settings_of(opt_text(*raw)) {
            None => r == Err::<Option<String>, SettingsError>(SettingsError::NotJson),
            Some(j) => {
                let new = merged(j, HOOK_BINARY_COMMAND@, binary@);
                if new == j {
                    r == Ok::<Option<String>, SettingsError>(None)
                } else {
                    match pretty(new) {
                        Some(t) => r is Ok && r->Ok_0 is Some && r->Ok_0->0@ == t,
                        None => r == Err::<Option<String>, SettingsError>(
                            SettingsError::NotWritten,
                        ),
                    }
                }
            },
        },
{
    let mut current: Json = match read_settings(raw) {
        Ok(j) => j,
        Err(e) => {
            return Err(e);
        },
    };
    if !merge_into(&mut current, HOOK_BINARY_COMMAND, binary) {
        return Ok(None);
    }
    match to_pretty(&current) {
        Some(t) => Ok(Some(t)),
        None => Err(SettingsError::NotWritten),
    }
}

/// Settings that are not there, or blank, are empty; anything else is read, and what cannot be is refused
/// and not written over.
pub proof fn unreadable_settings_are_left_alone(
    raw: &Option<String>,
    binary: &str,
    r: Result<Option<String>, SettingsError>,
)
    requires
        call_ensures(merge_into_config_dir, (raw, binary), r),
    ensures
        settings_of(None) == Some(JsonView::Object(Map::empty())),
        raw matches Some(t) ==> blank(t@) ==> settings_of(Some(t@)) == Some(JsonView::Object(Map::empty())),
        raw matches Some(t) ==> !blank(t@) && json_of_text(t@) is None ==> r == Err::<
            Option<String>,
            SettingsError,
        >(SettingsError::NotJson),
        raw matches Some(t) ==> !blank(t@) ==> (json_of_text(t@) matches Some(j) ==> (merged(
            j,
            HOOK_BINARY_COMMAND@,
            binary@,
        ) == j ==> r == Ok::<Option<String>, SettingsError>(None)) && (r matches Ok(Some(new)) ==> pretty(
            merged(j, HOOK_BINARY_COMMAND@, binary@),
        ) == Some(new@))),
        raw is None ==> !(r == Err::<Option<String>, SettingsError>(SettingsError::NotJson)),
{
}

} // verus!
