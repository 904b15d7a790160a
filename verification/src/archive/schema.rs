//! The shape of the database, and the steps that bring an older one up to date.

use crate::order::positions;
use crate::text::{in_list, same, texts};
use vstd::prelude::*;

verus! {

/// The version of the shape that this library writes.
pub const SCHEMA_VERSION: i64 = 4;

/// The columns that a database has.
pub struct Columns {
    pub messages: Vec<String>,
    pub events: Vec<String>,
    pub compression_dicts: Vec<String>,
}

/// Which columns a database has.
pub struct ColumnsView {
    pub messages: Set<Seq<char>>,
    pub events: Set<Seq<char>>,
    pub compression_dicts: Set<Seq<char>>,
}

impl Columns {
    pub open spec fn view(&self) -> ColumnsView {
        ColumnsView {
            messages: texts(self.messages@).to_set(),
            events: texts(self.events@).to_set(),
            compression_dicts: texts(self.compression_dicts@).to_set(),
        }
    }
}

/// A step that changes the shape.
#[derive(Clone, Copy, PartialEq, Eq, Debug, Structural)]
pub enum Step {
    /// Add `messages.raw_zstd`.
    AddRawZstd,
    /// Add `events.payload_zstd`.
    AddPayloadZstd,
    /// Rebuild `compression_dicts` with the active dictionary of each kind.
    RebuildDicts,
    /// Drop `messages.raw_dict_id`.
    DropRawDictId,
    /// Drop `events.payload_dict_id`.
    DropPayloadDictId,
}

/// The columns of a rebuilt `compression_dicts`.
pub open spec fn dict_columns() -> Set<Seq<char>> {
    set![
        "kind"@,
        "dict_blob"@,
        "capacity"@,
        "sample_count"@,
        "sample_bytes"@,
        "created_at"@,
    ]
}

/// What a step does to the columns.
pub open spec fn step_result(c: ColumnsView, s: Step) -> ColumnsView {
    match s {
        Step::AddRawZstd => ColumnsView { messages: c.messages.insert("raw_zstd"@), ..c },
        Step::AddPayloadZstd => ColumnsView { events: c.events.insert("payload_zstd"@), ..c },
        Step::RebuildDicts => ColumnsView { compression_dicts: dict_columns(), ..c },
        Step::DropRawDictId => ColumnsView { messages: c.messages.remove("raw_dict_id"@), ..c },
        Step::DropPayloadDictId => ColumnsView { events: c.events.remove("payload_dict_id"@), ..c },
    }
}

/// What steps do to the columns, in order.
pub open spec fn steps_result(c: ColumnsView, s: Seq<Step>) -> ColumnsView
    decreases s.len(),
{
    if s.len() == 0 {
        c
    } else {
        step_result(steps_result(c, s.drop_last()), s.last())
    }
}

/// Whether the columns are those that this library reads and writes.
pub open spec fn is_current(c: ColumnsView) -> bool {
    &&& c.messages.contains("raw_zstd"@)
    &&& !c.messages.contains("raw_dict_id"@)
    &&& c.events.contains("payload_zstd"@)
    &&& !c.events.contains("payload_dict_id"@)
    &&& !c.compression_dicts.contains("id"@)
}

/// A step, where it is needed.
pub open spec fn when(b: bool, s: Step) -> Seq<Step> {
    if b {
        seq![s]
    } else {
        seq![]
    }
}

/// The steps that a database needs: add what is missing, rebuild dictionaries that have numbers,
/// drop what refers to them.
pub open spec fn needed(c: ColumnsView) -> Seq<Step> {
    when(!c.messages.contains("raw_zstd"@), Step::AddRawZstd) + when(
        !c.events.contains("payload_zstd"@),
        Step::AddPayloadZstd,
    ) + when(c.compression_dicts.contains("id"@), Step::RebuildDicts) + when(
        c.messages.contains("raw_dict_id"@),
        Step::DropRawDictId,
    ) + when(c.events.contains("payload_dict_id"@), Step::DropPayloadDictId)
}

proof fn lemma_steps_add(c: ColumnsView, a: Seq<Step>, b: Seq<Step>)
    ensures
        steps_result(c, a + b) == steps_result(steps_result(c, a), b),
    decreases b.len(),
{
    if b.len() == 0 {
        assert(a + b =~= a);
    } else {
        lemma_steps_add(c, a, b.drop_last());
        assert((a + b).drop_last() =~= a + b.drop_last());
        assert((a + b).last() == b.last());
    }
}

proof fn lemma_when(c: ColumnsView, b: bool, s: Step)
    ensures
        steps_result(c, when(b, s)) == if b {
            step_result(c, s)
        } else {
            c
        },
{
    if b {
        assert(when(b, s).drop_last() =~= seq![]);
        assert(steps_result(c, when(b, s).drop_last()) == c);
    }
}

/// The steps bring any database up to date, and one that is up to date needs none.
pub proof fn migration_is_complete_and_final(c: ColumnsView)
    ensures
        is_current(steps_result(c, needed(c))),
        is_current(c) ==> needed(c) == Seq::<Step>::empty(),
{
    reveal_strlit("raw_zstd");
    reveal_strlit("raw_dict_id");
    reveal_strlit("payload_zstd");
    reveal_strlit("payload_dict_id");
    reveal_strlit("id");
    reveal_strlit("kind");
    reveal_strlit("dict_blob");
    reveal_strlit("capacity");
    reveal_strlit("sample_count");
    reveal_strlit("sample_bytes");
    reveal_strlit("created_at");
    assert("raw_zstd"@.len() != "raw_dict_id"@.len());
    assert("payload_zstd"@.len() != "payload_dict_id"@.len());
    let s1 = when(!c.messages.contains("raw_zstd"@), Step::AddRawZstd);
    let s2 = when(!c.events.contains("payload_zstd"@), Step::AddPayloadZstd);
    let s3 = when(c.compression_dicts.contains("id"@), Step::RebuildDicts);
    let s4 = when(c.messages.contains("raw_dict_id"@), Step::DropRawDictId);
    let s5 = when(c.events.contains("payload_dict_id"@), Step::DropPayloadDictId);
    lemma_when(c, !c.messages.contains("raw_zstd"@), Step::AddRawZstd);
    let c1 = steps_result(c, s1);
    lemma_steps_add(c, s1, s2);
    lemma_when(c1, !c.events.contains("payload_zstd"@), Step::AddPayloadZstd);
    let c2 = steps_result(c1, s2);
    lemma_steps_add(c, s1 + s2, s3);
    lemma_when(c2, c.compression_dicts.contains("id"@), Step::RebuildDicts);
    let c3 = steps_result(c2, s3);
    lemma_steps_add(c, s1 + s2 + s3, s4);
    lemma_when(c3, c.messages.contains("raw_dict_id"@), Step::DropRawDictId);
    let c4 = steps_result(c3, s4);
    lemma_steps_add(c, s1 + s2 + s3 + s4, s5);
    lemma_when(c4, c.events.contains("payload_dict_id"@), Step::DropPayloadDictId);
    assert(!dict_columns().contains("id"@)) by {
        assert("id"@.len() == 2);
    }
    if is_current(c) {
        assert(needed(c) =~= seq![]);
    }
}

fn has_column(v: &Vec<String>, name: &str) -> (r: bool)
    ensures
        r == texts(v@).to_set().contains(name@),
{
    in_list(v, name)
}

/// The steps that a database needs.
pub fn migrate(c: &Columns) -> (r: Vec<Step>)
    ensures
        r@ == needed(c.view()),
{
    let mut out: Vec<Step> = Vec::new();
    if !has_column(&c.messages, "raw_zstd") {
        out.push(Step::AddRawZstd);
    }
    if !has_column(&c.events, "payload_zstd") {
        out.push(Step::AddPayloadZstd);
    }
    if has_column(&c.compression_dicts, "id") {
        out.push(Step::RebuildDicts);
    }
    if has_column(&c.messages, "raw_dict_id") {
        out.push(Step::DropRawDictId);
    }
    if has_column(&c.events, "payload_dict_id") {
        out.push(Step::DropPayloadDictId);
    }
    assert(out@ =~= needed(c.view()));
    out
}

/// A dictionary of a database whose dictionaries have numbers.
pub struct OldDict {
    pub kind: String,
    pub is_active: i64,
}

/// Where the active ones stand among the first `n`.
pub open spec fn active_at(rows: Seq<OldDict>, n: int) -> Seq<int>
    decreases n,
{
    if n <= 0 {
        seq![]
    } else if rows[n - 1].is_active == 1 {
        active_at(rows, n - 1).push(n - 1)
    } else {
        active_at(rows, n - 1)
    }
}

/// Whether an earlier active dictionary has the same kind.
pub open spec fn repeated(rows: Seq<OldDict>, i: int) -> bool {
    exists|k: int|
        0 <= k < i && (#[trigger] rows[k]).is_active == 1 && rows[k].kind@ == rows[i].kind@
}

fn is_repeated(rows: &Vec<OldDict>, i: usize) -> (r: bool)
    requires
        i < rows@.len(),
    ensures
        r == repeated(rows@, i as int),
{
    let mut k: usize = 0;
    while k < i
        invariant
            k <= i < rows@.len(),
            forall|j: int|
                0 <= j < k ==> !((#[trigger] rows@[j]).is_active == 1 && rows@[j].kind@
                    == rows@[i as int].kind@),
        decreases i - k,
    {
        if rows[k].is_active == 1 && same(rows[k].kind.as_str(), rows[i].kind.as_str()) {
            return true;
        }
        k += 1;
    }
    false
}

/// The dictionaries that stay when those of a database lose their numbers: the active ones, in
/// order. Each kind then has one, so a second active one of a kind makes the whole step fail.
pub fn upgrade_compression_dicts_to_v4(rows: &Vec<OldDict>) -> (r: Result<Vec<usize>, usize>)
    ensures
        match r {
            Ok(v) => positions(v@) == active_at(rows@, rows@.len() as int) && forall|i: int|
                0 <= i < rows@.len() && (#[trigger] rows@[i]).is_active == 1 ==> !repeated(rows@, i),
            Err(i) => i < rows@.len() && rows@[i as int].is_active == 1 && repeated(
                rows@,
                i as int,
            ),
        },
{
    let mut out: Vec<usize> = Vec::new();
    let mut i: usize = 0;
    assert(positions(out@) =~= active_at(rows@, 0));
    while i < rows.len()
        invariant
            i <= rows@.len(),
            positions(out@) == active_at(rows@, i as int),
            forall|k: int|
                0 <= k < i && (#[trigger] rows@[k]).is_active == 1 ==> !repeated(rows@, k),
        decreases rows@.len() - i,
    {
        if rows[i].is_active == 1 {
            if is_repeated(rows, i) {
                return Err(i);
            }
            let ghost before = out@;
            out.push(i);
            assert(positions(out@) =~= positions(before).push(i as int));
        }
        i += 1;
    }
    Ok(out)
}

// ---------------------------------------------------------------- what a migration promises

/// A step is taken exactly where the database lacks what it brings or has what it takes away.
pub proof fn steps_are_those_needed(c: ColumnsView)
    ensures
        needed(c).contains(Step::AddRawZstd) <==> !c.messages.contains("raw_zstd"@),
        needed(c).contains(Step::AddPayloadZstd) <==> !c.events.contains("payload_zstd"@),
        needed(c).contains(Step::RebuildDicts) <==> c.compression_dicts.contains("id"@),
        needed(c).contains(Step::DropRawDictId) <==> c.messages.contains("raw_dict_id"@),
        needed(c).contains(Step::DropPayloadDictId) <==> c.events.contains("payload_dict_id"@),
{
    let a = when(!c.messages.contains("raw_zstd"@), Step::AddRawZstd);
    let b = when(!c.events.contains("payload_zstd"@), Step::AddPayloadZstd);
    let d = when(c.compression_dicts.contains("id"@), Step::RebuildDicts);
    let e = when(c.messages.contains("raw_dict_id"@), Step::DropRawDictId);
    let f = when(c.events.contains("payload_dict_id"@), Step::DropPayloadDictId);
    let n = needed(c);
    let i = a.len() as int;
    let j = i + b.len();
    let k = j + d.len();
    let l = k + e.len();
    if a.len() > 0 {
        assert(n[0] == Step::AddRawZstd);
    }
    if b.len() > 0 {
        assert(n[i] == Step::AddPayloadZstd);
    }
    if d.len() > 0 {
        assert(n[j] == Step::RebuildDicts);
    }
    if e.len() > 0 {
        assert(n[k] == Step::DropRawDictId);
    }
    if f.len() > 0 {
        assert(n[l] == Step::DropPayloadDictId);
    }
}

/// A step changes the column that it is about and no other; rebuilding the dictionaries leaves their
/// table with the columns that are used and without an id.
pub proof fn step_changes_one_column(c: ColumnsView, name: Seq<char>)
    ensures
        step_result(c, Step::AddRawZstd).messages.contains(name) <==> c.messages.contains(name)
            || name == "raw_zstd"@,
        step_result(c, Step::AddPayloadZstd).events.contains(name) <==> c.events.contains(name)
            || name == "payload_zstd"@,
        step_result(c, Step::DropRawDictId).messages.contains(name) <==> c.messages.contains(name)
            && name != "raw_dict_id"@,
        step_result(c, Step::DropPayloadDictId).events.contains(name) <==> c.events.contains(name)
            && name != "payload_dict_id"@,
        step_result(c, Step::RebuildDicts).compression_dicts.contains(name) <==> name == "kind"@
            || name == "dict_blob"@ || name == "capacity"@ || name == "sample_count"@ || name
            == "sample_bytes"@ || name == "created_at"@,
        step_result(c, Step::RebuildDicts).messages == c.messages,
        step_result(c, Step::RebuildDicts).events == c.events,
        step_result(c, Step::AddRawZstd).events == c.events,
        step_result(c, Step::DropRawDictId).events == c.events,
        step_result(c, Step::AddPayloadZstd).messages == c.messages,
        step_result(c, Step::DropPayloadDictId).messages == c.messages,
        step_result(c, Step::AddRawZstd).compression_dicts == c.compression_dicts,
        step_result(c, Step::DropPayloadDictId).compression_dicts == c.compression_dicts,
{
}

/// Of the old dictionaries those in use are kept, all of them, in their order.
pub proof fn dictionaries_in_use_are_kept(rows: Seq<OldDict>, n: int, x: int)
    requires
        0 <= n <= rows.len(),
    ensures
        active_at(rows, n).contains(x) <==> 0 <= x < n && (rows[x].is_active == 1),
        forall|a: int, b: int|
            0 <= a < b < active_at(rows, n).len() ==> #[trigger] active_at(rows, n)[a]
                < #[trigger] active_at(rows, n)[b],
        forall|a: int|
            0 <= a < active_at(rows, n).len() ==> 0 <= #[trigger] active_at(rows, n)[a] < n,
    decreases n,
{
    if n > 0 {
        dictionaries_in_use_are_kept(rows, n - 1, x);
        let all = active_at(rows, n);
        let front = active_at(rows, n - 1);
        if all.len() > front.len() {
            assert(all[all.len() - 1] == n - 1);
            assert(all.drop_last() =~= front);
        }
        assert forall|a: int| 0 <= a < all.len() implies 0 <= #[trigger] all[a] < n by {
            if a < front.len() {
                assert(all[a] == front[a]);
            }
        }
        assert forall|a: int, b: int| 0 <= a < b < all.len() implies #[trigger] all[a]
            < #[trigger] all[b] by {
            assert(all[a] == front[a]);
            if b < front.len() {
                assert(all[b] == front[b]);
            }
        }
        if front.contains(x) {
            let k = choose|k: int| 0 <= k < front.len() && front[k] == x;
            assert(all[k] == x);
        }
        if all.contains(x) {
            let k = choose|k: int| 0 <= k < all.len() && all[k] == x;
            if k < front.len() {
                assert(front[k] == x);
            }
        }
    }
}

} // verus!
