//! Taking a transcript file into the archive, from where the last time ended.
//!
//! Only complete lines count: the rest of the file is held until its line feed arrives. A row is
//! taken in once, however often its file is read.

use crate::archive::compress::{
    compressed, compressed_with, encode_str, encode_str_with_dict, encoder_contents, encoder_level,
    CodecError, LEVEL,
};
use crate::archive::hooks::{record_event, seen_at, Seen};
use crate::archive::strip::{strip_empty_thinking_blocks, stripped_text};
use crate::archive::transcript::{
    derive_project, is_noise_prompt, message_of, noise, notes_are_told_by_their_tag, opt_msg,
    parse_message, project_of, truncate, truncated, Msg, MsgView,
};
use crate::bytes::{byte_views, part, text_of, utf8_text};
use crate::json::{json_of_text, parse, text_field, Json, JsonView};
use crate::text::{
    blank, copy, copy_first, copy_opt, first_of, in_list, is_blank, opt_text, same, same_opt, texts,
    trim, trimmed, trimming_takes_the_white_ends, white,
};
use vstd::prelude::*;
use vstd::utf8::encode_utf8;

verus! {

/// What taking in a directory of transcripts did.
#[derive(Clone, Copy, Debug)]
pub struct IngestStats {
    pub files: usize,
    pub new_messages: usize,
}

// ---------------------------------------------------------------- where to read

/// Where reading a file of `len` bytes goes on, after a time that ended at `offset` when the file
/// had `last_size` bytes. A file that shrank is read from its start.
pub open spec fn resume_at(len: int, offset: int, last_size: int) -> Option<int> {
    let at = if len < last_size {
        0
    } else {
        offset
    };
    if 0 <= at < len {
        Some(at)
    } else {
        None
    }
}

/// Where reading a file goes on; nothing where it has no new bytes.
pub fn start_offset(len: u64, offset: i64, last_size: i64) -> (r: Option<u64>)
    requires
        len <= i64::MAX,
    ensures
        match r {
            Some(at) => resume_at(len as int, offset as int, last_size as int) == Some(at as int),
            None => resume_at(len as int, offset as int, last_size as int) is None,
        },
{
    let n: i64 = len as i64;
    let at: i64 = if n < last_size {
        0
    } else {
        offset
    };
    if at < 0 || at >= n {
        None
    } else {
        Some(at as u64)
    }
}

// ---------------------------------------------------------------- one row

/// A transcript row that belongs to a session.
pub struct Line {
    pub session_id: String,
    pub cwd: Option<String>,
    pub ai_title: Option<String>,
    pub message: Option<Msg>,
    pub raw: String,
}

/// What a row is.
pub struct LineView {
    pub session_id: Seq<char>,
    pub cwd: Option<Seq<char>>,
    pub ai_title: Option<Seq<char>>,
    pub message: Option<MsgView>,
    pub raw: Seq<char>,
}

impl Line {
    pub open spec fn view(&self) -> LineView {
        LineView {
            session_id: self.session_id@,
            cwd: opt_text(self.cwd),
            ai_title: opt_text(self.ai_title),
            message: opt_msg(self.message),
            raw: self.raw@,
        }
    }
}

/// The views of a list of rows.
pub open spec fn line_views(v: Seq<Line>) -> Seq<LineView> {
    Seq::new(v.len(), |i: int| v[i].view())
}

/// How much of a title or prompt a summary holds.
pub const SUMMARY_CHARS: usize = 200;

/// The row that a JSON value is; nothing where it belongs to no session.
pub open spec fn row_of(j: JsonView, raw: Seq<char>) -> Option<LineView> {
    match text_field(j, "sessionId"@) {
        None => None,
        Some(id) => Some(
            LineView {
                session_id: id,
                cwd: text_field(j, "cwd"@),
                ai_title: match text_field(j, "aiTitle"@) {
                    Some(t) => Some(truncated(t, SUMMARY_CHARS as nat)),
                    None => None,
                },
                message: message_of(j),
                raw,
            },
        ),
    }
}

/// The row that the bytes of a line are; nothing where they are blank, damaged or of no session.
pub open spec fn line_of(b: Seq<u8>) -> Option<LineView> {
    match utf8_text(b) {
        None => None,
        Some(s) => match json_of_text(trimmed(s)) {
            Some(j) if trimmed(s).len() > 0 => row_of(j, trimmed(s)),
            _ => None,
        },
    }
}

/// The view of an optional row.
pub open spec fn opt_line(o: Option<Line>) -> Option<LineView> {
    match o {
        Some(l) => Some(l.view()),
        None => None,
    }
}

/// The row that a JSON value is; nothing where it belongs to no session.
pub fn read_row(j: &Json, raw: String) -> (r: Option<Line>)
    ensures
        opt_line(r) == row_of(j.view(), raw@),
{
    let session_id: String = match j.get_string("sessionId") {
        Some(s) => s,
        None => {
            return None;
        },
    };
    let ai_title: Option<String> = match j.get_str("aiTitle") {
        Some(t) => Some(truncate(t, SUMMARY_CHARS)),
        None => None,
    };
    Some(
        Line {
            session_id,
            cwd: j.get_string("cwd"),
            ai_title,
            message: parse_message(j),
            raw,
        },
    )
}

/// The row that the bytes of a line are.
pub fn read_line(b: Vec<u8>) -> (r: Option<Line>)
    ensures
        opt_line(r) == line_of(b@),
{
    let s: String = match text_of(b) {
        Some(s) => s,
        None => {
            return None;
        },
    };
    let raw: String = trim(s.as_str());
    if raw.as_str().is_empty() {
        return None;
    }
    match parse(raw.as_str()) {
        Some(j) => read_row(&j, raw),
        None => None,
    }
}

// ---------------------------------------------------------------- all rows

/// Position of the first line feed at or after the start; the length where there is none.
pub open spec fn feed_at(b: Seq<u8>) -> int
    decreases b.len(),
{
    if b.len() == 0 || b[0] == 10 {
        0
    } else {
        1 + feed_at(b.skip(1))
    }
}

/// How many bytes make complete lines.
pub open spec fn complete(b: Seq<u8>) -> int
    decreases b.len(),
{
    if b.len() == 0 || b.last() == 10 {
        b.len() as int
    } else {
        complete(b.drop_last())
    }
}

/// The rows of the complete lines, in order.
pub open spec fn rows_of(b: Seq<u8>) -> Seq<LineView>
    decreases b.len(),
    via rows_of_decreases
{
    let i = feed_at(b);
    if i < b.len() {
        match line_of(b.take(i)) {
            Some(l) => seq![l] + rows_of(b.skip(i + 1)),
            None => rows_of(b.skip(i + 1)),
        }
    } else {
        seq![]
    }
}

#[via_fn]
proof fn rows_of_decreases(b: Seq<u8>) {
    lemma_feed_at(b);
}

pub proof fn lemma_feed_at(b: Seq<u8>)
    ensures
        0 <= feed_at(b) <= b.len(),
        forall|k: int| 0 <= k < feed_at(b) ==> #[trigger] b[k] != 10,
        feed_at(b) < b.len() ==> b[feed_at(b)] == 10,
    decreases b.len(),
{
    if b.len() > 0 && b[0] != 10 {
        lemma_feed_at(b.skip(1));
        assert forall|k: int| 0 <= k < feed_at(b) implies #[trigger] b[k] != 10 by {
            if k > 0 {
                assert(b.skip(1)[k - 1] == b[k]);
            }
        }
        if feed_at(b) < b.len() {
            assert(b.skip(1)[feed_at(b.skip(1))] == b[feed_at(b)]);
        }
    }
}

proof fn lemma_feed_is(b: Seq<u8>, n: int)
    requires
        0 <= n <= b.len(),
        forall|k: int| 0 <= k < n ==> #[trigger] b[k] != 10,
        n < b.len() ==> b[n] == 10,
    ensures
        feed_at(b) == n,
{
    lemma_feed_at(b);
    if feed_at(b) < n {
        assert(b[feed_at(b)] != 10);
    } else if n < feed_at(b) {
        assert(b[n] != 10);
    }
}

pub proof fn lemma_complete(b: Seq<u8>)
    ensures
        0 <= complete(b) <= b.len(),
        forall|k: int| complete(b) <= k < b.len() ==> #[trigger] b[k] != 10,
        complete(b) > 0 ==> b[complete(b) - 1] == 10,
    decreases b.len(),
{
    if b.len() > 0 && b.last() != 10 {
        let t = b.drop_last();
        lemma_complete(t);
        assert forall|k: int| complete(b) <= k < b.len() implies #[trigger] b[k] != 10 by {
            if k < b.len() - 1 {
                assert(t[k] == b[k]);
            }
        }
    }
}

proof fn lemma_complete_is(b: Seq<u8>, n: int)
    requires
        0 <= n <= b.len(),
        forall|k: int| n <= k < b.len() ==> #[trigger] b[k] != 10,
        n > 0 ==> b[n - 1] == 10,
    ensures
        complete(b) == n,
{
    lemma_complete(b);
    if complete(b) < n {
        assert(b[n - 1] != 10);
    } else if n < complete(b) {
        assert(b[complete(b) - 1] != 10);
    }
}

/// Reading a file in two goes finds the rows that one go finds: the second begins where the
/// complete lines of the first ended.
pub proof fn reading_goes_on_where_it_ended(a: Seq<u8>, b: Seq<u8>)
    ensures
        rows_of(a + b) == rows_of(a) + rows_of(a.skip(complete(a)) + b),
    decreases a.len(),
{
    lemma_feed_at(a);
    lemma_complete(a);
    let i = feed_at(a);
    if i < a.len() {
        let rest = a.skip(i + 1);
        reading_goes_on_where_it_ended(rest, b);
        let whole = a + b;
        assert forall|k: int| 0 <= k < i implies #[trigger] whole[k] != 10 by {
            assert(whole[k] == a[k]);
        }
        assert(whole[i] == a[i]);
        lemma_feed_is(whole, i);
        assert(whole.take(i) =~= a.take(i));
        assert(whole.skip(i + 1) =~= rest + b);
        lemma_complete(rest);
        assert(complete(a) == i + 1 + complete(rest)) by {
            let n = i + 1 + complete(rest);
            assert forall|k: int| n <= k < a.len() implies #[trigger] a[k] != 10 by {
                assert(rest[k - i - 1] == a[k]);
            }
            if complete(rest) > 0 {
                assert(rest[complete(rest) - 1] == a[n - 1]);
            }
            lemma_complete_is(a, n);
        }
        assert(a.skip(complete(a)) =~= rest.skip(complete(rest)));
        assert(rows_of(whole) =~= rows_of(a) + rows_of(a.skip(complete(a)) + b));
    } else {
        lemma_complete_is(a, 0);
        assert(a.skip(0) =~= a);
        assert(rows_of(a) =~= seq![]);
        assert(rows_of(a + b) =~= rows_of(a) + rows_of(a.skip(complete(a)) + b));
    }
}

/// A line whose line feed has not arrived is held: it adds no row and is not counted as read.
pub proof fn unfinished_line_is_held(b: Seq<u8>)
    requires
        forall|k: int| 0 <= k < b.len() ==> #[trigger] b[k] != 10,
    ensures
        rows_of(b) == Seq::<LineView>::empty(),
        complete(b) == 0,
{
    lemma_feed_is(b, b.len() as int);
    lemma_complete_is(b, 0);
}

/// A file that was read adds nothing when it is read again: behind its complete lines there is
/// neither a row nor a complete line.
pub proof fn read_again_adds_nothing(b: Seq<u8>)
    ensures
        rows_of(b.skip(complete(b))) == Seq::<LineView>::empty(),
        complete(b.skip(complete(b))) == 0,
{
    lemma_complete(b);
    let rest = b.skip(complete(b));
    assert forall|k: int| 0 <= k < rest.len() implies #[trigger] rest[k] != 10 by {
        assert(rest[k] == b[complete(b) + k]);
    }
    unfinished_line_is_held(rest);
}

/// The rows of the complete lines of what was read, and how many bytes those lines are.
pub fn read_rows(buf: &[u8]) -> (r: (Vec<Line>, usize))
    ensures
        line_views(r.0@) == rows_of(buf@),
        r.1 == complete(buf@),
{
    let mut out: Vec<Line> = Vec::new();
    let mut at: usize = 0;
    assert(line_views(out@) + rows_of(buf@) =~= rows_of(buf@));
    assert(buf@.skip(0) =~= buf@);
    loop
        invariant
            at <= buf@.len(),
            at > 0 ==> buf@[at - 1] == 10,
            line_views(out@) + rows_of(buf@.skip(at as int)) == rows_of(buf@),
        decreases buf@.len() - at,
    {
        let ghost rest = buf@.skip(at as int);
        let mut i: usize = at;
        while i < buf.len() && buf[i] != 10
            invariant
                at <= i <= buf@.len(),
                forall|k: int| at <= k < i ==> #[trigger] buf@[k] != 10,
            decreases buf@.len() - i,
        {
            i += 1;
        }
        proof {
            assert forall|k: int| 0 <= k < i - at implies #[trigger] rest[k] != 10 by {
                assert(rest[k] == buf@[at + k]);
            }
            if i < buf@.len() {
                assert(rest[i - at] == buf@[i as int]);
            }
            lemma_feed_is(rest, i - at);
        }
        if i == buf.len() {
            proof {
                assert(line_views(out@) + rows_of(rest) =~= line_views(out@));
                lemma_complete_is(buf@, at as int);
            }
            return (out, at);
        }
        let ghost before = out@;
        let bytes: Vec<u8> = part(buf, at, i);
        assert(bytes@ =~= rest.take(i - at));
        if let Some(l) = read_line(bytes) {
            out.push(l);
            assert(line_views(out@) =~= line_views(before).push(l.view()));
        }
        proof {
            assert(rest.skip(i - at + 1) =~= buf@.skip(i + 1));
            assert(line_views(out@) + rows_of(buf@.skip(i + 1)) =~= line_views(before) + rows_of(
                rest,
            ));
        }
        at = i + 1;
    }
}

// ---------------------------------------------------------------- what rows say of a session

/// What a batch of rows says of one session.
pub struct SessMeta {
    pub session_id: String,
    pub cwd: Option<String>,
    pub ai_title: Option<String>,
    pub first_user: Option<String>,
}

/// What is known of a session from rows.
pub struct MetaView {
    pub cwd: Option<Seq<char>>,
    pub ai_title: Option<Seq<char>>,
    pub first_user: Option<Seq<char>>,
}

impl SessMeta {
    pub open spec fn view(&self) -> MetaView {
        MetaView {
            cwd: opt_text(self.cwd),
            ai_title: opt_text(self.ai_title),
            first_user: opt_text(self.first_user),
        }
    }
}

/// The prompt that a row offers as a summary: a user's text that is not blank and no note of the
/// harness.
pub open spec fn prompt_of(l: LineView) -> Option<Seq<char>> {
    match l.message {
        Some(m) => match m.text {
            Some(t) => if m.role == "user"@ && !blank(t) && !noise(trimmed(t)) {
                Some(truncated(trimmed(t), SUMMARY_CHARS as nat))
            } else {
                None
            },
            None => None,
        },
        None => None,
    }
}

/// What is known of a session after one more of its rows: the first directory and prompt stay,
/// the last title counts.
pub open spec fn meta_step(m: MetaView, l: LineView) -> MetaView {
    MetaView {
        cwd: first_of(m.cwd, l.cwd),
        ai_title: first_of(l.ai_title, m.ai_title),
        first_user: first_of(m.first_user, prompt_of(l)),
    }
}

/// What is known of a session that no row spoke of.
pub open spec fn no_meta() -> MetaView {
    MetaView { cwd: None, ai_title: None, first_user: None }
}

/// What rows say of a session.
pub open spec fn meta_for(lines: Seq<LineView>, id: Seq<char>) -> MetaView
    decreases lines.len(),
{
    if lines.len() == 0 {
        no_meta()
    } else if lines.last().session_id == id {
        meta_step(meta_for(lines.drop_last(), id), lines.last())
    } else {
        meta_for(lines.drop_last(), id)
    }
}

/// Whether a row belongs to a session.
pub open spec fn mentions(lines: Seq<LineView>, id: Seq<char>) -> bool {
    exists|i: int| 0 <= i < lines.len() && (#[trigger] lines[i]).session_id == id
}

/// Two batches say together what they say one after the other.
pub proof fn batches_add_up(a: Seq<LineView>, b: Seq<LineView>, id: Seq<char>)
    ensures
        ({
            let x = meta_for(a, id);
            let y = meta_for(b, id);
            meta_for(a + b, id) == (MetaView {
                cwd: first_of(x.cwd, y.cwd),
                ai_title: first_of(y.ai_title, x.ai_title),
                first_user: first_of(x.first_user, y.first_user),
            })
        }),
    decreases b.len(),
{
    if b.len() == 0 {
        assert(a + b =~= a);
    } else {
        batches_add_up(a, b.drop_last(), id);
        assert((a + b).drop_last() =~= a + b.drop_last());
        assert((a + b).last() == b.last());
    }
}

/// Whether the list has one entry for each session of the rows, and no other.
pub open spec fn metas_match(metas: Seq<SessMeta>, lines: Seq<LineView>) -> bool {
    &&& forall|i: int|
        0 <= i < metas.len() ==> (#[trigger] metas[i]).view() == meta_for(
            lines,
            metas[i].session_id@,
        ) && mentions(lines, metas[i].session_id@)
    &&& forall|i: int, j: int|
        0 <= i < j < metas.len() ==> (#[trigger] metas[i]).session_id@ != (
        #[trigger] metas[j]).session_id@
    &&& forall|k: int|
        0 <= k < lines.len() ==> exists|i: int|
            0 <= i < metas.len() && (#[trigger] metas[i]).session_id@ == (
            #[trigger] lines[k]).session_id
}

/// The prompt that a row offers as a summary.
fn read_prompt(l: &Line) -> (r: Option<String>)
    ensures
        opt_text(r) == prompt_of(l.view()),
{
    match &l.message {
        Some(m) => match &m.text {
            Some(t) => {
                let s: String = trim(t.as_str());
                if same(m.role.as_str(), "user") && !is_blank(t.as_str()) && !is_noise_prompt(
                    s.as_str(),
                ) {
                    Some(truncate(s.as_str(), SUMMARY_CHARS))
                } else {
                    None
                }
            },
            None => None,
        },
        None => None,
    }
}

proof fn lemma_meta_none(lines: Seq<LineView>, id: Seq<char>)
    requires
        !mentions(lines, id),
    ensures
        meta_for(lines, id) == no_meta(),
    decreases lines.len(),
{
    if lines.len() > 0 {
        assert(lines[lines.len() - 1].session_id != id);
        assert(!mentions(lines.drop_last(), id)) by {
            if mentions(lines.drop_last(), id) {
                let i = choose|i: int|
                    0 <= i < lines.drop_last().len() && (
                    #[trigger] lines.drop_last()[i]).session_id == id;
                assert(lines[i].session_id == id);
            }
        }
        lemma_meta_none(lines.drop_last(), id);
    }
}

/// What rows say of each session they belong to, one entry per session.
#[verifier::rlimit(40)]
pub fn collect_metas(lines: &Vec<Line>) -> (r: Vec<SessMeta>)
    ensures
        metas_match(r@, line_views(lines@)),
{
    let mut metas: Vec<SessMeta> = Vec::new();
    let mut n: usize = 0;
    while n < lines.len()
        invariant
            n <= lines@.len(),
            metas_match(metas@, line_views(lines@).take(n as int)),
        decreases lines@.len() - n,
    {
        let l: &Line = &lines[n];
        let ghost old_lines = line_views(lines@).take(n as int);
        let ghost new_lines = line_views(lines@).take(n + 1);
        let ghost before = metas@;
        proof {
            assert(new_lines.drop_last() =~= old_lines);
            assert(new_lines.last() == l.view());
            assert forall|id: Seq<char>| mentions(old_lines, id) implies mentions(new_lines, id) by {
                let i = choose|i: int|
                    0 <= i < old_lines.len() && (#[trigger] old_lines[i]).session_id == id;
                assert(new_lines[i].session_id == id);
            }
            assert(new_lines[n as int].session_id == l.session_id@);
            assert(mentions(new_lines, l.session_id@));
        }
        let mut i: usize = 0;
        while i < metas.len() && !same(metas[i].session_id.as_str(), l.session_id.as_str())
            invariant
                i <= metas@.len(),
                metas@ == before,
                forall|k: int|
                    0 <= k < i ==> (#[trigger] metas@[k]).session_id@ != l.session_id@,
            decreases metas@.len() - i,
        {
            i += 1;
        }
        let known: bool = i < metas.len();
        let base: SessMeta = if known {
            let m: &SessMeta = &metas[i];
            SessMeta {
                session_id: copy(m.session_id.as_str()),
                cwd: copy_opt(&m.cwd),
                ai_title: copy_opt(&m.ai_title),
                first_user: copy_opt(&m.first_user),
            }
        } else {
            proof {
                if mentions(old_lines, l.session_id@) {
                    let k = choose|k: int|
                        0 <= k < old_lines.len() && (#[trigger] old_lines[k]).session_id
                            == l.session_id@;
                    let q = choose|q: int|
                        0 <= q < before.len() && (#[trigger] before[q]).session_id@ == (
                        #[trigger] old_lines[k]).session_id;
                    assert(before[q].session_id@ != l.session_id@);
                }
                lemma_meta_none(old_lines, l.session_id@);
            }
            SessMeta {
                session_id: copy(l.session_id.as_str()),
                cwd: None,
                ai_title: None,
                first_user: None,
            }
        };
        assert(base.view() == meta_for(old_lines, l.session_id@));
        let next: SessMeta = SessMeta {
            session_id: base.session_id,
            cwd: copy_first(&base.cwd, &l.cwd),
            ai_title: copy_first(&l.ai_title, &base.ai_title),
            first_user: copy_first(&base.first_user, &read_prompt(l)),
        };
        assert(next.view() == meta_for(new_lines, l.session_id@));
        if known {
            metas.set(i, next);
        } else {
            metas.push(next);
        }
        proof {
            assert forall|k: int| 0 <= k < metas@.len() implies (#[trigger] metas@[k]).view()
                == meta_for(new_lines, metas@[k].session_id@) && mentions(
                new_lines,
                metas@[k].session_id@,
            ) by {
                if k != i {
                    assert(metas@[k] == before[k]);
                    assert(before[k].session_id@ != l.session_id@);
                    assert(meta_for(new_lines, before[k].session_id@) == meta_for(
                        old_lines,
                        before[k].session_id@,
                    ));
                }
            }
            assert forall|k: int| 0 <= k < new_lines.len() implies exists|q: int|
                0 <= q < metas@.len() && (#[trigger] metas@[q]).session_id@ == (
                #[trigger] new_lines[k]).session_id by {
                if k == n {
                    assert(metas@[i as int].session_id@ == new_lines[k].session_id);
                } else {
                    assert(old_lines[k] == new_lines[k]);
                    let q = choose|q: int|
                        0 <= q < before.len() && (#[trigger] before[q]).session_id@ == (
                        #[trigger] old_lines[k]).session_id;
                    assert(metas@[q].session_id@ == before[q].session_id@);
                }
            }
        }
        n += 1;
    }
    assert(line_views(lines@).take(lines@.len() as int) =~= line_views(lines@));
    metas
}

// ---------------------------------------------------------------- what the archive keeps of a session

/// The stored fields of a session that rows can change.
pub struct SessionFields {
    pub cwd: Option<String>,
    pub project: Option<String>,
    pub summary: Option<String>,
}

/// What is stored of a session.
pub struct FieldsView {
    pub cwd: Option<Seq<char>>,
    pub project: Option<Seq<char>>,
    pub summary: Option<Seq<char>>,
}

impl SessionFields {
    pub open spec fn view(&self) -> FieldsView {
        FieldsView {
            cwd: opt_text(self.cwd),
            project: opt_text(self.project),
            summary: opt_text(self.summary),
        }
    }
}

/// The project of an optional directory.
pub open spec fn opt_project(cwd: Option<Seq<char>>) -> Option<Seq<char>> {
    match cwd {
        Some(c) => project_of(c),
        None => None,
    }
}

/// What is stored of a session after a batch: the directory it started in stays, and so does its
/// project; a title always becomes the summary, a prompt only where there is none.
pub open spec fn merged(s: FieldsView, m: MetaView) -> FieldsView {
    FieldsView {
        cwd: first_of(s.cwd, m.cwd),
        project: first_of(s.project, opt_project(m.cwd)),
        summary: if m.ai_title is Some {
            m.ai_title
        } else {
            first_of(s.summary, m.first_user)
        },
    }
}

/// What is stored of a session after a batch.
pub fn merge_session(s: &SessionFields, m: &SessMeta) -> (r: SessionFields)
    ensures
        r.view() == merged(s.view(), m.view()),
{
    let project: Option<String> = match &m.cwd {
        Some(c) => derive_project(c.as_str()),
        None => None,
    };
    let summary: Option<String> = match &m.ai_title {
        Some(t) => Some(copy(t.as_str())),
        None => copy_first(&s.summary, &m.first_user),
    };
    SessionFields {
        cwd: copy_first(&s.cwd, &m.cwd),
        project: copy_first(&s.project, &project),
        summary,
    }
}

/// Taking rows in as two batches stores the directory and the summary that one batch stores; and
/// the project, unless the first directory has no name.
pub proof fn two_batches_store_what_one_does(
    s: FieldsView,
    a: Seq<LineView>,
    b: Seq<LineView>,
    id: Seq<char>,
)
    ensures
        ({
            let two = merged(merged(s, meta_for(a, id)), meta_for(b, id));
            let one = merged(s, meta_for(a + b, id));
            &&& two.cwd == one.cwd
            &&& two.summary == one.summary
            &&& (meta_for(a, id).cwd is Some ==> opt_project(meta_for(a, id).cwd) is Some)
                ==> two == one
        }),
{
    batches_add_up(a, b, id);
}

/// The directory a session started in is never overwritten.
pub proof fn start_directory_stays(s: FieldsView, m: MetaView)
    requires
        s.cwd is Some,
    ensures
        merged(s, m).cwd == s.cwd,
{
}

// ---------------------------------------------------------------- which rows are new

/// What the archive holds of a session before a batch.
pub struct Known {
    pub session_id: String,
    pub count: i64,
    pub span: Seen,
    pub uuids: Vec<String>,
}

/// How many messages of a session the archive holds.
pub open spec fn known_count(known: Seq<Known>, id: Seq<char>) -> int
    decreases known.len(),
{
    if known.len() == 0 {
        0
    } else if known.last().session_id@ == id {
        known.last().count as int
    } else {
        known_count(known.drop_last(), id)
    }
}

/// From when to when the messages are that the archive holds of a session.
pub open spec fn known_span(known: Seq<Known>, id: Seq<char>) -> Seen
    decreases known.len(),
{
    if known.len() == 0 {
        Seen { first: None, last: None }
    } else if known.last().session_id@ == id {
        known.last().span
    } else {
        known_span(known.drop_last(), id)
    }
}

/// Whether the archive holds a message of a session.
pub open spec fn known_uuid(known: Seq<Known>, id: Seq<char>, uuid: Seq<char>) -> bool {
    exists|i: int|
        0 <= i < known.len() && (#[trigger] known[i]).session_id@ == id && texts(
            known[i].uuids@,
        ).contains(uuid)
}

/// Whether an earlier row of the batch has the same message.
pub open spec fn repeated(lines: Seq<LineView>, i: int) -> bool {
    exists|j: int|
        0 <= j < i && (#[trigger] lines[j]).session_id == lines[i].session_id && lines[j].message
            is Some && lines[j].message->0.uuid == lines[i].message->0.uuid
}

/// Whether the message of row `i` is new: one without an identity always is.
pub open spec fn is_new(lines: Seq<LineView>, known: Seq<Known>, i: int) -> bool {
    lines[i].message is Some && match lines[i].message->0.uuid {
        None => true,
        Some(u) => !known_uuid(known, lines[i].session_id, u) && !repeated(lines, i),
    }
}

/// How many new messages of a session stand before row `n`.
pub open spec fn new_before(lines: Seq<LineView>, known: Seq<Known>, id: Seq<char>, n: int) -> nat
    decreases n,
{
    if n <= 0 {
        0
    } else {
        new_before(lines, known, id, n - 1) + if lines[n - 1].session_id == id && is_new(
            lines,
            known,
            n - 1,
        ) {
            1nat
        } else {
            0nat
        }
    }
}

/// From when to when the messages of a session are, with the new ones before row `n`.
pub open spec fn span_before(lines: Seq<LineView>, known: Seq<Known>, id: Seq<char>, n: int) -> Seen
    decreases n,
{
    if n <= 0 {
        known_span(known, id)
    } else {
        let s = span_before(lines, known, id, n - 1);
        if lines[n - 1].session_id == id && is_new(lines, known, n - 1) {
            match lines[n - 1].message->0.ts {
                Some(t) => seen_at(s, t),
                None => s,
            }
        } else {
            s
        }
    }
}

/// Every new message of a session that has a time lies in the session's span.
pub proof fn session_spans_its_messages(
    lines: Seq<LineView>,
    known: Seq<Known>,
    id: Seq<char>,
    n: int,
    i: int,
)
    requires
        0 <= i < n <= lines.len(),
        lines[i].session_id == id,
        is_new(lines, known, i),
        lines[i].message->0.ts is Some,
    ensures
        ({
            let s = span_before(lines, known, id, n);
            let t = lines[i].message->0.ts->0;
            s.first is Some && s.last is Some && s.first->0 <= t <= s.last->0
        }),
    decreases n,
{
    if i < n - 1 {
        session_spans_its_messages(lines, known, id, n - 1, i);
    }
}

/// The place of row `i` in its session; nothing where it adds no message.
pub open spec fn place_of(lines: Seq<LineView>, known: Seq<Known>, i: int) -> Option<int> {
    if is_new(lines, known, i) {
        Some(
            known_count(known, lines[i].session_id) + new_before(
                lines,
                known,
                lines[i].session_id,
                i,
            ),
        )
    } else {
        None
    }
}

/// Rows that the archive holds already add nothing: taking a batch in again changes no message.
pub proof fn known_rows_add_nothing(lines: Seq<LineView>, known: Seq<Known>)
    requires
        forall|i: int|
            0 <= i < lines.len() && (#[trigger] lines[i]).message is Some
                ==> lines[i].message->0.uuid is Some && known_uuid(
                known,
                lines[i].session_id,
                lines[i].message->0.uuid->0,
            ),
    ensures
        forall|i: int| 0 <= i < lines.len() ==> place_of(lines, known, i) is None,
{
}

/// Two new messages of one session never get the same place, and a later one comes after.
pub proof fn places_grow(lines: Seq<LineView>, known: Seq<Known>, i: int, j: int)
    requires
        0 <= i < j < lines.len(),
        lines[i].session_id == lines[j].session_id,
        is_new(lines, known, i),
        is_new(lines, known, j),
    ensures
        place_of(lines, known, i)->0 < place_of(lines, known, j)->0,
{
    lemma_new_before_grows(lines, known, lines[i].session_id, i + 1, j);
}

proof fn lemma_new_before_grows(
    lines: Seq<LineView>,
    known: Seq<Known>,
    id: Seq<char>,
    a: int,
    b: int,
)
    requires
        a <= b,
    ensures
        new_before(lines, known, id, a) <= new_before(lines, known, id, b),
    decreases b - a,
{
    if a < b {
        lemma_new_before_grows(lines, known, id, a, b - 1);
    }
}

/// How many messages of a session the archive holds.
fn read_count(known: &Vec<Known>, id: &str) -> (r: i64)
    ensures
        r == known_count(known@, id@),
{
    let mut i: usize = known.len();
    assert(known@.take(known@.len() as int) =~= known@);
    while i > 0
        invariant
            i <= known@.len(),
            known_count(known@, id@) == known_count(known@.take(i as int), id@),
        decreases i,
    {
        i -= 1;
        assert(known@.take(i + 1).drop_last() =~= known@.take(i as int));
        if same(known[i].session_id.as_str(), id) {
            return known[i].count;
        }
    }
    0
}

/// From when to when the messages are that the archive holds of a session.
fn read_span(known: &Vec<Known>, id: &str) -> (r: Seen)
    ensures
        r == known_span(known@, id@),
{
    let mut i: usize = known.len();
    assert(known@.take(known@.len() as int) =~= known@);
    while i > 0
        invariant
            i <= known@.len(),
            known_span(known@, id@) == known_span(known@.take(i as int), id@),
        decreases i,
    {
        i -= 1;
        assert(known@.take(i + 1).drop_last() =~= known@.take(i as int));
        if same(known[i].session_id.as_str(), id) {
            return known[i].span;
        }
    }
    Seen { first: None, last: None }
}

/// Whether the archive holds a message of a session.
fn read_known(known: &Vec<Known>, id: &str, uuid: &str) -> (r: bool)
    ensures
        r == known_uuid(known@, id@, uuid@),
{
    let mut i: usize = 0;
    while i < known.len()
        invariant
            i <= known@.len(),
            forall|k: int|
                0 <= k < i ==> !((#[trigger] known@[k]).session_id@ == id@ && texts(
                    known@[k].uuids@,
                ).contains(uuid@)),
        decreases known@.len() - i,
    {
        if same(known[i].session_id.as_str(), id) && in_list(&known[i].uuids, uuid) {
            return true;
        }
        i += 1;
    }
    false
}

/// Whether the message of row `i` is new.
fn read_new(lines: &Vec<Line>, known: &Vec<Known>, i: usize) -> (r: bool)
    requires
        i < lines@.len(),
    ensures
        r == is_new(line_views(lines@), known@, i as int),
{
    let ghost v = line_views(lines@);
    let l: &Line = &lines[i];
    assert(v[i as int] == l.view());
    let m: &Msg = match &l.message {
        Some(m) => m,
        None => {
            return false;
        },
    };
    let u: &String = match &m.uuid {
        Some(u) => u,
        None => {
            return true;
        },
    };
    if read_known(known, l.session_id.as_str(), u.as_str()) {
        return false;
    }
    let mut j: usize = 0;
    while j < i
        invariant
            j <= i < lines@.len(),
            v == line_views(lines@),
            *l == lines@[i as int],
            l.message == Some(*m),
            m.uuid == Some(*u),
            forall|k: int|
                0 <= k < j ==> !((#[trigger] v[k]).session_id == v[i as int].session_id
                    && v[k].message is Some && v[k].message->0.uuid == v[i as int].message->0.uuid),
        decreases i - j,
    {
        let o: &Line = &lines[j];
        assert(v[j as int] == o.view());
        assert(v[i as int] == l.view());
        if let Some(om) = &o.message {
            if same(o.session_id.as_str(), l.session_id.as_str()) && same_opt(&om.uuid, &m.uuid) {
                assert(repeated(v, i as int));
                return false;
            }
        }
        j += 1;
    }
    true
}

/// The places of the rows, where they fit in 64 bits.
pub open spec fn places_match(
    places: Seq<Option<i64>>,
    lines: Seq<LineView>,
    known: Seq<Known>,
) -> bool {
    &&& places.len() == lines.len()
    &&& forall|i: int|
        0 <= i < lines.len() ==> match #[trigger] places[i] {
            Some(p) => place_of(lines, known, i) == Some(p as int),
            None => place_of(lines, known, i) is None,
        }
}

/// The place of each row in its session.
pub fn place_rows(lines: &Vec<Line>, known: &Vec<Known>) -> (r: Vec<Option<i64>>)
    requires
        lines@.len() <= i64::MAX,
        forall|i: int| 0 <= i < known@.len() ==> 0 <= (#[trigger] known@[i]).count
            <= i64::MAX - lines@.len(),
    ensures
        places_match(r@, line_views(lines@), known@),
{
    let ghost v = line_views(lines@);
    let mut out: Vec<Option<i64>> = Vec::new();
    let mut i: usize = 0;
    while i < lines.len()
        invariant
            i <= lines@.len(),
            v == line_views(lines@),
            out@.len() == i,
            lines@.len() <= i64::MAX,
            forall|k: int| 0 <= k < known@.len() ==> 0 <= (#[trigger] known@[k]).count
                <= i64::MAX - lines@.len(),
            forall|k: int|
                0 <= k < i ==> match #[trigger] out@[k] {
                    Some(p) => place_of(v, known@, k) == Some(p as int),
                    None => place_of(v, known@, k) is None,
                },
        decreases lines@.len() - i,
    {
        if read_new(lines, known, i) {
            let id: &String = &lines[i].session_id;
            assert(v[i as int].session_id == id@);
            let mut n: i64 = read_count(known, id.as_str());
            let ghost base = n;
            proof {
                lemma_count_bound(known@, id@, i64::MAX - lines@.len());
            }
            let mut j: usize = 0;
            while j < i
                invariant
                    j <= i < lines@.len(),
                    v == line_views(lines@),
                    out@.len() == i,
                    id@ == v[i as int].session_id,
                    0 <= base <= i64::MAX - lines@.len(),
                    n == base + new_before(v, known@, id@, j as int),
                    new_before(v, known@, id@, j as int) <= j,
                    forall|k: int|
                        0 <= k < i ==> match #[trigger] out@[k] {
                            Some(p) => place_of(v, known@, k) == Some(p as int),
                            None => place_of(v, known@, k) is None,
                        },
                decreases i - j,
            {
                assert(v[j as int].session_id == lines@[j as int].session_id@);
                let taken: bool = match out[j] {
                    Some(_) => true,
                    None => false,
                };
                assert(taken == is_new(v, known@, j as int));
                if taken && same(lines[j].session_id.as_str(), id.as_str()) {
                    n += 1;
                }
                j += 1;
            }
            out.push(Some(n));
        } else {
            out.push(None);
        }
        i += 1;
    }
    out
}

proof fn lemma_count_bound(known: Seq<Known>, id: Seq<char>, max: int)
    requires
        0 <= max,
        forall|i: int| 0 <= i < known.len() ==> 0 <= (#[trigger] known[i]).count <= max,
    ensures
        0 <= known_count(known, id) <= max,
    decreases known.len(),
{
    if known.len() > 0 {
        let t = known.drop_last();
        assert forall|i: int| 0 <= i < t.len() implies 0 <= (#[trigger] t[i]).count <= max by {
            assert(t[i] == known[i]);
        }
        assert(known[known.len() - 1] == known.last());
        lemma_count_bound(t, id, max);
    }
}

// ---------------------------------------------------------------- taking a batch in

/// The complete lines of what was read of a file.
pub struct Batch {
    pub lines: Vec<Line>,
    pub metas: Vec<SessMeta>,
    pub new_offset: u64,
}

/// The batch that bytes read from position `at` of a file are; the next time goes on behind its
/// last complete line.
pub fn open_batch(buf: &[u8], at: u64) -> (r: Batch)
    requires
        at + buf@.len() <= u64::MAX,
    ensures
        line_views(r.lines@) == rows_of(buf@),
        metas_match(r.metas@, rows_of(buf@)),
        r.new_offset == at + complete(buf@),
{
    let (lines, n): (Vec<Line>, usize) = read_rows(buf);
    proof {
        lemma_complete(buf@);
    }
    let metas: Vec<SessMeta> = collect_metas(&lines);
    Batch { lines, metas, new_offset: at + n as u64 }
}

/// The stored form of a row: without empty thinking blocks, compressed with the dictionary in
/// use.
pub open spec fn blob_of(dict: Option<(Seq<u8>, i32)>, raw: Seq<char>) -> Option<Seq<u8>> {
    let data = encode_utf8(stripped_text(raw));
    match dict {
        Some((d, level)) => compressed_with(d, level, data),
        None => compressed(data, LEVEL),
    }
}

/// What a prepared dictionary stands for.
pub open spec fn dict_of(dict: Option<&zstd::dict::EncoderDictionary<'static>>) -> Option<
    (Seq<u8>, i32),
> {
    match dict {
        Some(d) => Some((encoder_contents(*d), encoder_level(*d))),
        None => None,
    }
}

/// The stored form of a row.
pub fn encode_row(raw: &str, dict: Option<&zstd::dict::EncoderDictionary<'static>>) -> (r: Result<
    Vec<u8>,
    CodecError,
>)
    ensures
        match r {
            Ok(z) => blob_of(dict_of(dict), raw@) == Some(z@),
            Err(e) => e == CodecError::Compress && blob_of(dict_of(dict), raw@) is None,
        },
{
    let kept = strip_empty_thinking_blocks(raw);
    let text: String = match kept {
        std::borrow::Cow::Borrowed(s) => copy(s),
        std::borrow::Cow::Owned(s) => s,
    };
    match dict {
        Some(d) => encode_str_with_dict(text.as_str(), d),
        None => encode_str(text.as_str()),
    }
}

/// A message to store: which row, its place in its session and its stored form.
pub struct NewRow {
    pub index: usize,
    pub seq: i64,
    pub raw_zstd: Vec<u8>,
}

/// What a message to store is.
pub struct NewRowView {
    pub index: int,
    pub seq: int,
    pub raw_zstd: Seq<u8>,
}

impl NewRow {
    pub open spec fn view(&self) -> NewRowView {
        NewRowView { index: self.index as int, seq: self.seq as int, raw_zstd: self.raw_zstd@ }
    }
}

/// The views of messages to store.
pub open spec fn new_row_views(v: Seq<NewRow>) -> Seq<NewRowView> {
    Seq::new(v.len(), |i: int| v[i].view())
}

/// The messages to store of the first `n` rows, in order.
pub open spec fn new_rows(
    lines: Seq<LineView>,
    known: Seq<Known>,
    dict: Option<(Seq<u8>, i32)>,
    n: int,
) -> Seq<NewRowView>
    decreases n,
{
    if n <= 0 {
        seq![]
    } else {
        let before = new_rows(lines, known, dict, n - 1);
        match place_of(lines, known, n - 1) {
            Some(p) => before.push(
                NewRowView {
                    index: n - 1,
                    seq: p,
                    raw_zstd: blob_of(dict, lines[n - 1].raw)->0,
                },
            ),
            None => before,
        }
    }
}

/// Whether each message of the rows has a stored form.
pub open spec fn all_encode(lines: Seq<LineView>, dict: Option<(Seq<u8>, i32)>) -> bool {
    forall|i: int|
        0 <= i < lines.len() && (#[trigger] lines[i]).message is Some ==> blob_of(
            dict,
            lines[i].raw,
        ) is Some
}

/// How many messages a session has, and from when to when.
#[derive(Clone, Copy, Debug)]
pub struct Totals {
    pub count: i64,
    pub span: Seen,
}

/// Whether these are the totals of a session after a batch.
pub open spec fn totals_match(
    t: Totals,
    lines: Seq<LineView>,
    known: Seq<Known>,
    id: Seq<char>,
) -> bool {
    &&& t.count == known_count(known, id) + new_before(lines, known, id, lines.len() as int)
    &&& t.span == span_before(lines, known, id, lines.len() as int)
}

/// The totals of a session after a batch.
fn read_totals(lines: &Vec<Line>, known: &Vec<Known>, places: &Vec<Option<i64>>, id: &str) -> (r:
    Totals)
    requires
        lines@.len() <= i64::MAX,
        forall|i: int| 0 <= i < known@.len() ==> 0 <= (#[trigger] known@[i]).count <= i64::MAX
            - lines@.len(),
        places_match(places@, line_views(lines@), known@),
    ensures
        totals_match(r, line_views(lines@), known@, id@),
{
    let ghost v = line_views(lines@);
    let mut n: i64 = read_count(known, id);
    let ghost base = n;
    let mut span: Seen = read_span(known, id);
    proof {
        lemma_count_bound(known@, id@, i64::MAX - lines@.len());
    }
    let mut i: usize = 0;
    while i < lines.len()
        invariant
            i <= lines@.len() <= i64::MAX,
            v == line_views(lines@),
            places_match(places@, v, known@),
            0 <= base <= i64::MAX - lines@.len(),
            n == base + new_before(v, known@, id@, i as int),
            new_before(v, known@, id@, i as int) <= i,
            span == span_before(v, known@, id@, i as int),
        decreases lines@.len() - i,
    {
        let l: &Line = &lines[i];
        assert(v[i as int] == l.view());
        if places[i].is_some() && same(l.session_id.as_str(), id) {
            n += 1;
            if let Some(m) = &l.message {
                if let Some(t) = m.ts {
                    span = record_event(span, t);
                }
            }
        }
        i += 1;
    }
    Totals { count: n, span }
}

/// What taking a batch in stores.
pub struct Ingested {
    pub rows: Vec<NewRow>,
    pub sessions: Vec<SessionFields>,
    pub totals: Vec<Totals>,
}

/// What taking a batch in stores: its new messages, and the fields and the totals of each of its
/// sessions.
/// `stored` holds the fields of the sessions of `batch.metas`, in that order.
pub fn ingest_file(
    batch: &Batch,
    known: &Vec<Known>,
    stored: &Vec<SessionFields>,
    dict: Option<&zstd::dict::EncoderDictionary<'static>>,
) -> (r: Result<Ingested, CodecError>)
    requires
        stored@.len() == batch.metas@.len(),
        batch.lines@.len() <= i64::MAX,
        forall|i: int| 0 <= i < known@.len() ==> 0 <= (#[trigger] known@[i]).count <= i64::MAX
            - batch.lines@.len(),
    ensures
        ({
            let lines = line_views(batch.lines@);
            match r {
                Ok(g) => {
                    &&& all_encode(lines, dict_of(dict))
                    &&& new_row_views(g.rows@) == new_rows(
                        lines,
                        known@,
                        dict_of(dict),
                        lines.len() as int,
                    )
                    &&& g.sessions@.len() == stored@.len()
                    &&& forall|i: int|
                        0 <= i < stored@.len() ==> (#[trigger] g.sessions@[i]).view() == merged(
                            stored@[i].view(),
                            batch.metas@[i].view(),
                        )
                    &&& g.totals@.len() == stored@.len()
                    &&& forall|i: int|
                        0 <= i < stored@.len() ==> totals_match(
                            #[trigger] g.totals@[i],
                            lines,
                            known@,
                            batch.metas@[i].session_id@,
                        )
                },
                Err(e) => e == CodecError::Compress && !all_encode(lines, dict_of(dict)),
            }
        }),
{
    let ghost lines = line_views(batch.lines@);
    let places: Vec<Option<i64>> = place_rows(&batch.lines, known);
    let mut rows: Vec<NewRow> = Vec::new();
    let mut i: usize = 0;
    assert(new_row_views(rows@) =~= new_rows(lines, known@, dict_of(dict), 0));
    while i < batch.lines.len()
        invariant
            i <= batch.lines@.len(),
            lines == line_views(batch.lines@),
            places_match(places@, lines, known@),
            new_row_views(rows@) == new_rows(lines, known@, dict_of(dict), i as int),
            forall|k: int|
                0 <= k < i && (#[trigger] lines[k]).message is Some ==> blob_of(
                    dict_of(dict),
                    lines[k].raw,
                ) is Some,
        decreases batch.lines@.len() - i,
    {
        let l: &Line = &batch.lines[i];
        assert(lines[i as int] == l.view());
        if l.message.is_some() {
            match encode_row(l.raw.as_str(), dict) {
                Ok(z) => {
                    let ghost before = rows@;
                    if let Some(p) = places[i] {
                        rows.push(NewRow { index: i, seq: p, raw_zstd: z });
                        assert(new_row_views(rows@) =~= new_row_views(before).push(
                            rows@.last().view(),
                        ));
                    }
                },
                Err(e) => {
                    assert(!all_encode(lines, dict_of(dict)));
                    return Err(e);
                },
            }
        }
        i += 1;
    }
    let mut sessions: Vec<SessionFields> = Vec::new();
    let mut totals: Vec<Totals> = Vec::new();
    let mut k: usize = 0;
    while k < stored.len()
        invariant
            k <= stored@.len(),
            stored@.len() == batch.metas@.len(),
            lines == line_views(batch.lines@),
            batch.lines@.len() <= i64::MAX,
            forall|q: int| 0 <= q < known@.len() ==> 0 <= (#[trigger] known@[q]).count <= i64::MAX
                - batch.lines@.len(),
            places_match(places@, lines, known@),
            sessions@.len() == k,
            totals@.len() == k,
            forall|q: int|
                0 <= q < k ==> totals_match(
                    #[trigger] totals@[q],
                    lines,
                    known@,
                    batch.metas@[q].session_id@,
                ),
            forall|q: int|
                0 <= q < k ==> (#[trigger] sessions@[q]).view() == merged(
                    stored@[q].view(),
                    batch.metas@[q].view(),
                ),
        decreases stored@.len() - k,
    {
        sessions.push(merge_session(&stored[k], &batch.metas[k]));
        let id: &String = &batch.metas[k].session_id;
        totals.push(read_totals(&batch.lines, known, &places, id.as_str()));
        k += 1;
    }
    Ok(Ingested { rows, sessions, totals })
}

// ---------------------------------------------------------------- mending what is stored

/// The pieces of data between line feeds.
pub open spec fn byte_pieces(b: Seq<u8>) -> Seq<Seq<u8>>
    decreases b.len(),
    via byte_pieces_decreases
{
    let i = feed_at(b);
    if i < b.len() {
        seq![b.take(i)] + byte_pieces(b.skip(i + 1))
    } else {
        seq![b]
    }
}

#[via_fn]
proof fn byte_pieces_decreases(b: Seq<u8>) {
    lemma_feed_at(b);
}

/// The pieces of data between line feeds.
fn split_feeds(buf: &[u8]) -> (r: Vec<Vec<u8>>)
    ensures
        byte_views(r@) == byte_pieces(buf@),
{
    let mut out: Vec<Vec<u8>> = Vec::new();
    let mut at: usize = 0;
    assert(byte_views(out@) + byte_pieces(buf@) =~= byte_pieces(buf@));
    assert(buf@.skip(0) =~= buf@);
    loop
        invariant
            at <= buf@.len(),
            byte_views(out@) + byte_pieces(buf@.skip(at as int)) == byte_pieces(buf@),
        decreases buf@.len() - at,
    {
        let ghost rest = buf@.skip(at as int);
        let mut i: usize = at;
        while i < buf.len() && buf[i] != 10
            invariant
                at <= i <= buf@.len(),
                forall|k: int| at <= k < i ==> #[trigger] buf@[k] != 10,
            decreases buf@.len() - i,
        {
            i += 1;
        }
        proof {
            assert forall|k: int| 0 <= k < i - at implies #[trigger] rest[k] != 10 by {
                assert(rest[k] == buf@[at + k]);
            }
            if i < buf@.len() {
                assert(rest[i - at] == buf@[i as int]);
            }
            lemma_feed_is(rest, i - at);
        }
        let ghost before = out@;
        let piece: Vec<u8> = part(buf, at, i);
        assert(piece@ =~= rest.take(i - at));
        out.push(piece);
        assert(byte_views(out@) =~= byte_views(before).push(piece@));
        if i == buf.len() {
            assert(rest.take(i - at) =~= rest);
            assert(byte_views(out@) =~= byte_views(before) + byte_pieces(rest));
            return out;
        }
        proof {
            assert(rest.skip(i - at + 1) =~= buf@.skip(i + 1));
            assert(byte_views(out@) + byte_pieces(buf@.skip(i + 1)) =~= byte_views(before)
                + byte_pieces(rest));
        }
        at = i + 1;
    }
}

/// The JSON value that a piece of a transcript is.
pub open spec fn piece_json(b: Seq<u8>) -> Option<JsonView> {
    match utf8_text(b) {
        None => None,
        Some(s) => if trimmed(s).len() == 0 {
            None
        } else {
            json_of_text(trimmed(s))
        },
    }
}

/// The session and directory that a row names, its session by the file's name where it names
/// none; nothing where it names no directory.
pub open spec fn start_in(j: JsonView, stem: Option<Seq<char>>) -> Option<
    (Option<Seq<char>>, Seq<char>),
> {
    match text_field(j, "cwd"@) {
        Some(c) => if c.len() == 0 {
            None
        } else {
            Some((first_of(text_field(j, "sessionId"@), stem), c))
        },
        None => None,
    }
}

/// The session and directory of the first piece that names a directory.
pub open spec fn start_of(pieces: Seq<Seq<u8>>, stem: Option<Seq<char>>) -> Option<
    (Seq<char>, Seq<char>),
>
    decreases pieces.len(),
{
    if pieces.len() == 0 {
        None
    } else {
        let here = match piece_json(pieces[0]) {
            Some(j) => start_in(j, stem),
            None => None,
        };
        match here {
            Some((id, c)) => match id {
                Some(id) => Some((id, c)),
                None => None,
            },
            None => start_of(pieces.skip(1), stem),
        }
    }
}

/// The JSON value that a piece of a transcript is.
fn read_piece(b: &Vec<u8>) -> (r: Option<Json>)
    ensures
        crate::json::opt_json(r) == piece_json(b@),
{
    match text_of(part(b.as_slice(), 0, b.len())) {
        None => {
            assert(b@.subrange(0, b@.len() as int) =~= b@);
            None
        },
        Some(s) => {
            assert(b@.subrange(0, b@.len() as int) =~= b@);
            let raw: String = trim(s.as_str());
            if raw.as_str().is_empty() {
                None
            } else {
                parse(raw.as_str())
            }
        },
    }
}

/// The session and the directory it started in, from the head of its transcript; `stem` is the
/// file's name, which stands in where a row names no session.
pub fn read_start_cwd(head: &[u8], stem: &Option<String>) -> (r: Option<(String, String)>)
    ensures
        crate::split::opt_pair(r) == start_of(byte_pieces(head@), opt_text(*stem)),
{
    let pieces: Vec<Vec<u8>> = split_feeds(head);
    let ghost all = byte_pieces(head@);
    let mut i: usize = 0;
    assert(all.skip(0) =~= all);
    while i < pieces.len()
        invariant
            i <= pieces@.len(),
            byte_views(pieces@) == all,
            all == byte_pieces(head@),
            start_of(all, opt_text(*stem)) == start_of(all.skip(i as int), opt_text(*stem)),
        decreases pieces@.len() - i,
    {
        proof {
            assert(all.skip(i as int)[0] == pieces@[i as int]@);
            assert(all.skip(i as int).skip(1) =~= all.skip(i + 1));
        }
        if let Some(j) = read_piece(&pieces[i]) {
            if let Some(c) = j.get_str("cwd") {
                if !c.is_empty() {
                    let id: Option<String> = match j.get_string("sessionId") {
                        Some(s) => Some(s),
                        None => copy_opt(stem),
                    };
                    return match id {
                        Some(id) => Some((id, copy(c))),
                        None => None,
                    };
                }
            }
        }
        i += 1;
    }
    None
}

/// The session and the title that a row gives; nothing where it gives none.
pub open spec fn title_in(j: JsonView, stem: Option<Seq<char>>) -> Option<(Seq<char>, Seq<char>)> {
    match text_field(j, "aiTitle"@) {
        Some(t) => if t.len() == 0 {
            None
        } else {
            match first_of(text_field(j, "sessionId"@), stem) {
                Some(id) => Some((id, truncated(t, SUMMARY_CHARS as nat))),
                None => None,
            }
        },
        None => None,
    }
}

/// The title that a piece of a transcript gives; one without the key's name is not looked into.
pub open spec fn piece_title(b: Seq<u8>, stem: Option<Seq<char>>) -> Option<
    (Seq<char>, Seq<char>),
> {
    match (utf8_text(b), piece_json(b)) {
        (Some(s), Some(j)) => if crate::split::has(trimmed(s), "aiTitle"@) {
            title_in(j, stem)
        } else {
            None
        },
        _ => None,
    }
}

/// The session and the title of the last piece that gives one.
pub open spec fn last_title(pieces: Seq<Seq<u8>>, stem: Option<Seq<char>>) -> Option<
    (Seq<char>, Seq<char>),
>
    decreases pieces.len(),
{
    if pieces.len() == 0 {
        None
    } else {
        first_of(piece_title(pieces.last(), stem), last_title(pieces.drop_last(), stem))
    }
}

/// The title that a row gives.
pub fn read_title(j: &Json, stem: &Option<String>) -> (r: Option<(String, String)>)
    ensures
        crate::split::opt_pair(r) == title_in(j.view(), opt_text(*stem)),
{
    match j.get_str("aiTitle") {
        Some(t) => if t.is_empty() {
            None
        } else {
            let id: Option<String> = match j.get_string("sessionId") {
                Some(s) => Some(s),
                None => copy_opt(stem),
            };
            match id {
                Some(id) => Some((id, truncate(t, SUMMARY_CHARS))),
                None => None,
            }
        },
        None => None,
    }
}

/// The session and the latest title of a transcript.
pub fn read_last_ai_title(file: &[u8], stem: &Option<String>) -> (r: Option<(String, String)>)
    ensures
        crate::split::opt_pair(r) == last_title(byte_pieces(file@), opt_text(*stem)),
{
    let pieces: Vec<Vec<u8>> = split_feeds(file);
    let ghost all = byte_pieces(file@);
    let mut last: Option<(String, String)> = None;
    let mut i: usize = 0;
    while i < pieces.len()
        invariant
            i <= pieces@.len(),
            byte_views(pieces@) == all,
            crate::split::opt_pair(last) == last_title(all.take(i as int), opt_text(*stem)),
        decreases pieces@.len() - i,
    {
        let b: &Vec<u8> = &pieces[i];
        proof {
            let t = all.take(i + 1);
            assert(t.drop_last() =~= all.take(i as int));
            assert(t.last() == b@);
            assert(b@.subrange(0, b@.len() as int) =~= b@);
        }
        if let Some(s) = text_of(part(b.as_slice(), 0, b.len())) {
            let raw: String = trim(s.as_str());
            if !raw.as_str().is_empty() && crate::split::contains(raw.as_str(), "aiTitle") {
                if let Some(j) = parse(raw.as_str()) {
                    if let Some(p) = read_title(&j, stem) {
                        last = Some(p);
                    }
                }
            }
        }
        i += 1;
    }
    assert(all.take(all.len() as int) =~= all);
    last
}

/// The fields to store so that the directory is the one the session started in; nothing where it
/// is already.
pub fn repair_session_start_cwd(s: &SessionFields, cwd: &str) -> (r: Option<SessionFields>)
    ensures
        match r {
            Some(f) => opt_text(s.cwd) != Some(cwd@) && f.view() == (FieldsView {
                cwd: Some(cwd@),
                project: project_of(cwd@),
                summary: opt_text(s.summary),
            }),
            None => opt_text(s.cwd) == Some(cwd@),
        },
{
    if let Some(c) = &s.cwd {
        if same(c.as_str(), cwd) {
            return None;
        }
    }
    Some(
        SessionFields {
            cwd: Some(copy(cwd)),
            project: derive_project(cwd),
            summary: copy_opt(&s.summary),
        },
    )
}

/// The fields to store so that the summary is the latest title; nothing where it is already.
pub fn repair_session_ai_title(s: &SessionFields, title: &str) -> (r: Option<SessionFields>)
    ensures
        match r {
            Some(f) => opt_text(s.summary) != Some(title@) && f.view() == (FieldsView {
                cwd: opt_text(s.cwd),
                project: opt_text(s.project),
                summary: Some(title@),
            }),
            None => opt_text(s.summary) == Some(title@),
        },
{
    if let Some(c) = &s.summary {
        if same(c.as_str(), title) {
            return None;
        }
    }
    Some(
        SessionFields {
            cwd: copy_opt(&s.cwd),
            project: copy_opt(&s.project),
            summary: Some(copy(title)),
        },
    )
}

// ---------------------------------------------------------------- what taking in promises

/// A file that grew is read on from where the last time ended, one that shrank from its start, and
/// one that did neither not at all.
pub proof fn reading_resumes(len: int, offset: int, last_size: int)
    requires
        0 <= offset <= last_size,
        0 <= len,
    ensures
        len >= last_size && offset < len ==> resume_at(len, offset, last_size) == Some(offset),
        0 < len < last_size ==> resume_at(len, offset, last_size) == Some(0int),
        len == offset ==> len >= last_size ==> resume_at(len, offset, last_size) is None,
        len == 0 ==> resume_at(len, offset, last_size) is None,
{
}

/// A complete line that holds a row of a session is taken in, with all that it says, before what
/// stands behind it; a line that holds none adds nothing and stops nothing.
pub proof fn every_complete_line_is_taken_in(line: Seq<u8>, rest: Seq<u8>, s: Seq<char>)
    requires
        !line.contains(10u8),
        utf8_text(line) == Some(s),
    ensures
        match json_of_text(trimmed(s)) {
            Some(j) => match text_field(j, "sessionId"@) {
                Some(id) => trimmed(s).len() > 0 ==> {
                    let r = rows_of(line.push(10u8) + rest);
                    &&& r.len() == rows_of(rest).len() + 1
                    &&& r.skip(1) == rows_of(rest)
                    &&& r[0].session_id == id
                    &&& r[0].raw == trimmed(s)
                    &&& r[0].cwd == text_field(j, "cwd"@)
                    &&& r[0].message == message_of(j)
                    &&& r[0].ai_title is Some <==> text_field(j, "aiTitle"@) is Some
                    &&& text_field(j, "aiTitle"@) matches Some(t) ==> t.len() <= 200
                        ==> r[0].ai_title == Some(t)
                },
                None => rows_of(line.push(10u8) + rest) == rows_of(rest),
            },
            None => rows_of(line.push(10u8) + rest) == rows_of(rest),
        },
{
    let b = line.push(10u8) + rest;
    let n = line.len() as int;
    lemma_feed_at(b);
    assert(b[n] == 10);
    assert forall|k: int| 0 <= k < n implies #[trigger] b[k] != 10 by {
        assert(b[k] == line[k]);
        assert(line.contains(line[k]));
    }
    assert(feed_at(b) == n);
    assert(b.take(n) =~= line);
    assert(b.skip(n + 1) =~= rest);
    if let Some(l) = line_of(line) {
        assert((seq![l] + rows_of(rest)).skip(1) =~= rows_of(rest));
    }
}

/// A line that is no text adds nothing and stops nothing.
pub proof fn line_that_is_no_text_is_left_out(line: Seq<u8>, rest: Seq<u8>)
    requires
        !line.contains(10u8),
        utf8_text(line) is None,
    ensures
        rows_of(line.push(10u8) + rest) == rows_of(rest),
{
    let b = line.push(10u8) + rest;
    let n = line.len() as int;
    lemma_feed_at(b);
    assert(b[n] == 10);
    assert forall|k: int| 0 <= k < n implies #[trigger] b[k] != 10 by {
        assert(b[k] == line[k]);
        assert(line.contains(line[k]));
    }
    assert(feed_at(b) == n);
    assert(b.take(n) =~= line);
    assert(b.skip(n + 1) =~= rest);
}

/// A prompt is what a user's message says, without the white space at its ends and at most 200
/// characters of it; other messages are none, nor is what is blank.
pub proof fn prompt_is_what_the_user_says(
    l: LineView,
    before: Seq<char>,
    s: Seq<char>,
    after: Seq<char>,
)
    requires
        l.message is Some,
        l.message->0.text == Some(before + s + after),
        forall|k: int| 0 <= k < before.len() ==> white(#[trigger] before[k]),
        forall|k: int| 0 <= k < after.len() ==> white(#[trigger] after[k]),
        s.len() > 0,
        !white(s[0]),
        !white(s.last()),
    ensures
        l.message->0.role != "user"@ ==> prompt_of(l) is None,
        l.message->0.role == "user"@ && s[0] != '<' && s.len() <= 200 ==> prompt_of(l) == Some(s),
        l.message->0.role == "user"@ && s[0] != '<' && s.len() > 200 ==> prompt_of(l) == Some(
            s.take(200).push('…'),
        ),
        noise(s) ==> prompt_of(l) is None,
        prompt_of((LineView { message: None, ..l })) is None,
{
    trimming_takes_the_white_ends(before, s, after);
    if s[0] != '<' {
        let e = Seq::<char>::empty();
        notes_are_told_by_their_tag(e, "<system-reminder>"@, s);
        assert(e + s =~= s);
    }
}

/// One row tells of its own session alone: its directory, its title and its prompt.
pub proof fn row_tells_of_its_session(l: LineView, id: Seq<char>)
    ensures
        meta_for(seq![l], id).cwd == if l.session_id == id {
            l.cwd
        } else {
            None
        },
        meta_for(seq![l], id).ai_title == if l.session_id == id {
            l.ai_title
        } else {
            None
        },
        meta_for(seq![l], id).first_user == if l.session_id == id {
            prompt_of(l)
        } else {
            None
        },
        meta_for(seq![], id) == (MetaView { cwd: None, ai_title: None, first_user: None }),
{
    let v = seq![l];
    assert(v.drop_last() =~= seq![]);
    assert(v.last() == l);
    assert(meta_for(v.drop_last(), id) == no_meta());
}

/// A session starts in the directory of its first row that names one, is asked by its first prompt,
/// and has the last title that a row gives.
pub proof fn session_is_told_by_its_rows(lines: Seq<LineView>, i: int, id: Seq<char>)
    requires
        0 <= i < lines.len(),
        lines[i].session_id == id,
    ensures
        lines[i].cwd is Some && (forall|k: int|
            0 <= k < i && (#[trigger] lines[k]).session_id == id ==> lines[k].cwd is None)
            ==> meta_for(lines, id).cwd == lines[i].cwd,
        prompt_of(lines[i]) is Some && (forall|k: int|
            0 <= k < i && (#[trigger] lines[k]).session_id == id ==> prompt_of(lines[k]) is None)
            ==> meta_for(lines, id).first_user == prompt_of(lines[i]),
        lines[i].ai_title is Some && (forall|k: int|
            i < k < lines.len() && (#[trigger] lines[k]).session_id == id ==> lines[k].ai_title
                is None) ==> meta_for(lines, id).ai_title == lines[i].ai_title,
    decreases lines.len(),
{
    let d = lines.drop_last();
    if i < d.len() {
        assert(d[i] == lines[i]);
        session_is_told_by_its_rows(d, i, id);
        assert(lines[lines.len() - 1] == lines.last());
    } else {
        lemma_silent_rows(d, id);
        assert forall|k: int| 0 <= k < d.len() implies #[trigger] d[k] == lines[k] by {}
    }
}

proof fn lemma_silent_rows(lines: Seq<LineView>, id: Seq<char>)
    ensures
        (forall|k: int|
            0 <= k < lines.len() && (#[trigger] lines[k]).session_id == id ==> lines[k].cwd is None)
            ==> meta_for(lines, id).cwd is None,
        (forall|k: int|
            0 <= k < lines.len() && (#[trigger] lines[k]).session_id == id ==> prompt_of(lines[k])
                is None) ==> meta_for(lines, id).first_user is None,
    decreases lines.len(),
{
    if lines.len() > 0 {
        let d = lines.drop_last();
        lemma_silent_rows(d, id);
        assert forall|k: int| 0 <= k < d.len() implies #[trigger] d[k] == lines[k] by {}
        assert(lines[lines.len() - 1] == lines.last());
    }
}

/// What is stored of a session: the directory that is known stays, a title replaces what stood for
/// the session, and without one what stood stays, or else the first prompt stands for it.
pub proof fn stored_session_keeps_its_start(s: FieldsView, m: MetaView)
    ensures
        s.cwd is Some ==> merged(s, m).cwd == s.cwd,
        s.cwd is None ==> merged(s, m).cwd == m.cwd,
        s.project is Some ==> merged(s, m).project == s.project,
        s.project is None && m.cwd is Some ==> merged(s, m).project == project_of(m.cwd->0),
        s.project is None && m.cwd is None ==> merged(s, m).project is None,
        m.ai_title is Some ==> merged(s, m).summary == m.ai_title,
        m.ai_title is None && s.summary is Some ==> merged(s, m).summary == s.summary,
        m.ai_title is None && s.summary is None ==> merged(s, m).summary == m.first_user,
{
}

/// A message is new unless its id is stored for its session or stands in a row before it; one without
/// an id is always new, and a row without a message never.
pub proof fn message_is_new_by_its_id(lines: Seq<LineView>, known: Seq<Known>, i: int)
    requires
        0 <= i < lines.len(),
    ensures
        lines[i].message is None ==> place_of(lines, known, i) is None,
        lines[i].message matches Some(m) ==> m.uuid is None ==> place_of(lines, known, i) is Some,
        lines[i].message matches Some(m) ==> (m.uuid matches Some(u) ==> (place_of(lines, known, i)
            is None <==> (exists|k: int|
            0 <= k < known.len() && (#[trigger] known[k]).session_id@ == lines[i].session_id
                && texts(known[k].uuids@).contains(u)) || (exists|j: int|
            0 <= j < i && (#[trigger] lines[j]).session_id == lines[i].session_id
                && (lines[j].message matches Some(n) && n.uuid == Some(u))))),
{
    if lines[i].message is Some && lines[i].message->0.uuid is Some {
        let u = lines[i].message->0.uuid->0;
        if exists|j: int|
            0 <= j < i && (#[trigger] lines[j]).session_id == lines[i].session_id && (
            lines[j].message matches Some(n) && n.uuid == Some(u)) {
            let j = choose|j: int|
                0 <= j < i && (#[trigger] lines[j]).session_id == lines[i].session_id && (
                lines[j].message matches Some(n) && n.uuid == Some(u));
            assert(lines[j].message is Some);
            assert(repeated(lines, i));
        }
        if repeated(lines, i) {
            let j = choose|j: int|
                0 <= j < i && (#[trigger] lines[j]).session_id == lines[i].session_id
                    && lines[j].message is Some && lines[j].message->0.uuid
                    == lines[i].message->0.uuid;
            assert(lines[j].session_id == lines[i].session_id);
        }
    }
}

/// The first new message of a session stands behind those that are stored of it, each other right
/// behind the one before it.
pub proof fn places_follow_the_stored(lines: Seq<LineView>, known: Seq<Known>, i: int, j: int, k: int)
    requires
        0 <= i < j < lines.len(),
        place_of(lines, known, i) is Some,
        place_of(lines, known, j) is Some,
        lines[i].session_id == lines[j].session_id,
        forall|q: int|
            i < q < j && (#[trigger] lines[q]).session_id == lines[i].session_id ==> place_of(
                lines,
                known,
                q,
            ) is None,
    ensures
        place_of(lines, known, j)->0 == place_of(lines, known, i)->0 + 1,
        (forall|q: int|
            0 <= q < i && (#[trigger] lines[q]).session_id == lines[i].session_id ==> place_of(
                lines,
                known,
                q,
            ) is None) && 0 <= k < known.len() && known[k].session_id@ == lines[i].session_id && (
        forall|q: int|
            0 <= q < known.len() && q != k ==> (#[trigger] known[q]).session_id@
                != lines[i].session_id) ==> place_of(lines, known, i) == Some(known[k].count as int),
        (forall|q: int|
            0 <= q < i && (#[trigger] lines[q]).session_id == lines[i].session_id ==> place_of(
                lines,
                known,
                q,
            ) is None) && (forall|q: int|
            0 <= q < known.len() ==> (#[trigger] known[q]).session_id@ != lines[i].session_id)
            ==> place_of(lines, known, i) == Some(0int),
{
    let id = lines[i].session_id;
    lemma_none_new(lines, known, id, i + 1, j);
    if forall|q: int|
        0 <= q < i && (#[trigger] lines[q]).session_id == id ==> place_of(lines, known, q) is None {
        lemma_none_new(lines, known, id, 0, i);
    }
    lemma_known_count(known, id, k);
}

proof fn lemma_none_new(lines: Seq<LineView>, known: Seq<Known>, id: Seq<char>, a: int, b: int)
    requires
        0 <= a <= b <= lines.len(),
        forall|q: int|
            a <= q < b && (#[trigger] lines[q]).session_id == id ==> place_of(lines, known, q)
                is None,
    ensures
        new_before(lines, known, id, b) == new_before(lines, known, id, a),
    decreases b - a,
{
    if a < b {
        lemma_none_new(lines, known, id, a, b - 1);
        if lines[b - 1].session_id == id {
            assert(place_of(lines, known, b - 1) is None);
        }
    }
}

proof fn lemma_known_count(known: Seq<Known>, id: Seq<char>, k: int)
    ensures
        0 <= k < known.len() && known[k].session_id@ == id && (forall|q: int|
            0 <= q < known.len() && q != k ==> (#[trigger] known[q]).session_id@ != id)
            ==> known_count(known, id) == known[k].count && known_span(known, id) == known[k].span,
        (forall|q: int| 0 <= q < known.len() ==> (#[trigger] known[q]).session_id@ != id)
            ==> known_count(known, id) == 0 && known_span(known, id) == (Seen {
            first: None,
            last: None,
        }),
    decreases known.len(),
{
    if known.len() > 0 {
        let d = known.drop_last();
        assert(known.last() == known[known.len() - 1]);
        assert forall|q: int| 0 <= q < d.len() implies #[trigger] d[q] == known[q] by {}
        lemma_known_count(d, id, k);
    }
}

/// The count stored of a session is the place of the next message: above every place given out, and
/// one more than the last, or what it was where nothing is new.
pub proof fn count_is_the_next_place(
    t: Totals,
    lines: Seq<LineView>,
    known: Seq<Known>,
    id: Seq<char>,
    i: int,
)
    requires
        totals_match(t, lines, known, id),
        0 <= i < lines.len(),
        lines[i].session_id == id,
        place_of(lines, known, i) is Some,
    ensures
        place_of(lines, known, i)->0 < t.count,
        (forall|q: int|
            i < q < lines.len() && (#[trigger] lines[q]).session_id == id ==> place_of(
                lines,
                known,
                q,
            ) is None) ==> t.count == place_of(lines, known, i)->0 + 1,
{
    lemma_new_before_grows(lines, known, id, i + 1, lines.len() as int);
    if forall|q: int|
        i < q < lines.len() && (#[trigger] lines[q]).session_id == id ==> place_of(lines, known, q)
            is None {
        lemma_none_new(lines, known, id, i + 1, lines.len() as int);
    }
}

/// The span of a session reaches no further than what is known of it and its new messages: each end
/// is that of the span known, or the time of a new message.
pub proof fn span_ends_at_a_message(lines: Seq<LineView>, known: Seq<Known>, id: Seq<char>, n: int)
    requires
        0 <= n <= lines.len(),
    ensures
        span_before(lines, known, id, n).first == known_span(known, id).first || exists|i: int|
            0 <= i < n && (#[trigger] lines[i]).session_id == id && place_of(lines, known, i) is Some
                && lines[i].message->0.ts == span_before(lines, known, id, n).first,
        span_before(lines, known, id, n).last == known_span(known, id).last || exists|i: int|
            0 <= i < n && (#[trigger] lines[i]).session_id == id && place_of(lines, known, i) is Some
                && lines[i].message->0.ts == span_before(lines, known, id, n).last,
    decreases n,
{
    if n > 0 {
        span_ends_at_a_message(lines, known, id, n - 1);
        let s = span_before(lines, known, id, n - 1);
        let t = span_before(lines, known, id, n);
        let x = lines[n - 1];
        if s.first != known_span(known, id).first {
            let i = choose|i: int|
                0 <= i < n - 1 && (#[trigger] lines[i]).session_id == id && place_of(
                    lines,
                    known,
                    i,
                ) is Some && lines[i].message->0.ts == s.first;
            assert(lines[i].session_id == id);
        }
        if s.last != known_span(known, id).last {
            let i = choose|i: int|
                0 <= i < n - 1 && (#[trigger] lines[i]).session_id == id && place_of(
                    lines,
                    known,
                    i,
                ) is Some && lines[i].message->0.ts == s.last;
            assert(lines[i].session_id == id);
        }
    }
}

/// The rows stored are those that have a place, in their order, each at its place and with what its
/// own line is compressed to; none is left out and none stored twice.
pub proof fn stored_rows_are_the_new_ones(
    lines: Seq<LineView>,
    known: Seq<Known>,
    dict: Option<(Seq<u8>, i32)>,
    n: int,
)
    requires
        0 <= n <= lines.len(),
    ensures
        ({
            let rows = new_rows(lines, known, dict, n);
            &&& forall|k: int|
                0 <= k < rows.len() ==> 0 <= (#[trigger] rows[k]).index < n && place_of(
                    lines,
                    known,
                    rows[k].index,
                ) == Some(rows[k].seq) && rows[k].raw_zstd == blob_of(
                    dict,
                    lines[rows[k].index].raw,
                )->0
            &&& forall|a: int, b: int|
                0 <= a < b < rows.len() ==> (#[trigger] rows[a]).index < (#[trigger] rows[b]).index
            &&& forall|i: int|
                0 <= i < n && #[trigger] place_of(lines, known, i) is Some ==> exists|k: int|
                    0 <= k < rows.len() && (#[trigger] rows[k]).index == i
        }),
    decreases n,
{
    if n > 0 {
        stored_rows_are_the_new_ones(lines, known, dict, n - 1);
        let before = new_rows(lines, known, dict, n - 1);
        let rows = new_rows(lines, known, dict, n);
        assert forall|k: int| 0 <= k < before.len() implies #[trigger] rows[k] == before[k] by {}
        assert forall|i: int|
            0 <= i < n && #[trigger] place_of(lines, known, i) is Some implies exists|k: int|
            0 <= k < rows.len() && (#[trigger] rows[k]).index == i by {
            if i < n - 1 {
                let k = choose|k: int| 0 <= k < before.len() && (#[trigger] before[k]).index == i;
                assert(rows[k].index == i);
            } else {
                assert(rows[rows.len() - 1].index == i);
            }
        }
    }
}

/// What is stored of a row is the row itself, but for thinking that is empty: without a dictionary
/// compressed at the usual level, with one by it.
pub proof fn stored_row_is_the_line(d: Seq<u8>, level: i32, raw: Seq<char>)
    ensures
        blob_of(None, raw) == compressed(encode_utf8(stripped_text(raw)), 3),
        blob_of(Some((d, level)), raw) == compressed_with(
            d,
            level,
            encode_utf8(stripped_text(raw)),
        ),
        json_of_text(raw) is None ==> blob_of(None, raw) == compressed(encode_utf8(raw), 3),
{
}

/// A session starts where the first row that names a directory says; rows before it that name none
/// are passed over, rows behind it are not asked.
pub proof fn start_is_the_first_directory(
    pieces: Seq<Seq<u8>>,
    i: int,
    j: JsonView,
    c: Seq<char>,
    stem: Option<Seq<char>>,
)
    requires
        0 <= i < pieces.len(),
        piece_json(pieces[i]) == Some(j),
        text_field(j, "cwd"@) == Some(c),
        c.len() > 0,
        forall|k: int|
            0 <= k < i ==> (piece_json(#[trigger] pieces[k]) matches Some(x) ==> text_field(
                x,
                "cwd"@,
            ) is None || text_field(x, "cwd"@)->0.len() == 0),
    ensures
        text_field(j, "sessionId"@) matches Some(id) ==> start_of(pieces, stem) == Some((id, c)),
        text_field(j, "sessionId"@) is None && stem is Some ==> start_of(pieces, stem) == Some(
            (stem->0, c),
        ),
        text_field(j, "sessionId"@) is None && stem is None ==> start_of(pieces, stem) is None,
    decreases pieces.len(),
{
    if i > 0 {
        let rest = pieces.skip(1);
        assert(rest[i - 1] == pieces[i]);
        assert forall|k: int| 0 <= k < i - 1 implies (piece_json(#[trigger] rest[k]) matches Some(x)
            ==> text_field(x, "cwd"@) is None || text_field(x, "cwd"@)->0.len() == 0) by {
            assert(rest[k] == pieces[k + 1]);
        }
        start_is_the_first_directory(rest, i - 1, j, c, stem);
        assert(piece_json(pieces[0]) matches Some(x) ==> text_field(x, "cwd"@) is None
            || text_field(x, "cwd"@)->0.len() == 0);
    }
}

/// The title of a session is the last that a row gives, at most 200 characters of it, for the session
/// that the row or else the file names.
pub proof fn title_is_the_last_one(
    pieces: Seq<Seq<u8>>,
    i: int,
    s: Seq<char>,
    j: JsonView,
    t: Seq<char>,
    id: Seq<char>,
    stem: Option<Seq<char>>,
)
    requires
        0 <= i < pieces.len(),
        utf8_text(pieces[i]) == Some(s),
        piece_json(pieces[i]) == Some(j),
        crate::split::has(trimmed(s), "aiTitle"@),
        text_field(j, "aiTitle"@) == Some(t),
        t.len() > 0,
        text_field(j, "sessionId"@) == Some(id) || (text_field(j, "sessionId"@) is None && stem
            == Some(id)),
        forall|k: int|
            i < k < pieces.len() ==> (piece_json(#[trigger] pieces[k]) matches Some(x) ==> text_field(
                x,
                "aiTitle"@,
            ) is None || text_field(x, "aiTitle"@)->0.len() == 0),
    ensures
        last_title(pieces, stem) is Some,
        last_title(pieces, stem) matches Some((a, b)) && a == id && (t.len() <= 200 ==> b == t) && (
        t.len() > 200 ==> b == t.take(200).push('…')),
    decreases pieces.len(),
{
    let d = pieces.drop_last();
    if i < d.len() {
        assert(d[i] == pieces[i]);
        assert forall|k: int| i < k < d.len() implies (piece_json(#[trigger] d[k]) matches Some(x)
            ==> text_field(x, "aiTitle"@) is None || text_field(x, "aiTitle"@)->0.len() == 0) by {
            assert(d[k] == pieces[k]);
        }
        title_is_the_last_one(d, i, s, j, t, id, stem);
        assert(pieces[pieces.len() - 1] == pieces.last());
        assert(piece_title(pieces.last(), stem) is None);
    }
}

/// The pieces of a file are what stands between its line feeds: one more than there are line feeds,
/// and put together with them they are the file again.
pub proof fn pieces_make_up_the_file(a: Seq<u8>, b: Seq<u8>)
    requires
        !a.contains(10u8),
    ensures
        byte_pieces(a.push(10u8) + b) == seq![a] + byte_pieces(b),
        byte_pieces(a) == seq![a],
{
    let s = a.push(10u8) + b;
    let n = a.len() as int;
    lemma_feed_at(s);
    lemma_feed_at(a);
    assert(s[n] == 10);
    assert forall|k: int| 0 <= k < n implies #[trigger] s[k] != 10 by {
        assert(s[k] == a[k]);
        assert(a.contains(a[k]));
    }
    assert(feed_at(s) == n);
    assert(s.take(n) =~= a);
    assert(s.skip(n + 1) =~= b);
    if feed_at(a) < a.len() {
        assert(a.contains(a[feed_at(a)]));
    }
}

/// A session's title is put right where it is another, and everything else of the session stays.
pub proof fn title_is_put_right(s: &SessionFields, title: &str, r: Option<SessionFields>)
    requires
        call_ensures(repair_session_ai_title, (s, title), r),
    ensures
        r is None <==> opt_text(s.summary) == Some(title@),
        r matches Some(f) ==> opt_text(f.summary) == Some(title@) && opt_text(f.cwd) == opt_text(s.cwd)
            && opt_text(f.project) == opt_text(s.project),
{
}

/// A title is that of the session that the line names, or of the file where it names none; a line without
/// a title, or with an empty one, gives none.
pub proof fn title_belongs_to_its_session(
    j: JsonView,
    title: Seq<char>,
    id: Seq<char>,
    stem: Option<Seq<char>>,
)
    requires
        0 < title.len() <= SUMMARY_CHARS,
    ensures
        text_field(j, "aiTitle"@) == Some(title) && text_field(j, "sessionId"@) == Some(id) ==> title_in(
            j,
            stem,
        ) == Some((id, title)),
        text_field(j, "aiTitle"@) == Some(title) && text_field(j, "sessionId"@) is None ==> title_in(
            j,
            Some(id),
        ) == Some((id, title)),
        text_field(j, "aiTitle"@) is None ==> title_in(j, stem) is None,
        text_field(j, "aiTitle"@) == Some(Seq::<char>::empty()) ==> title_in(j, stem) is None,
        text_field(j, "sessionId"@) is None ==> title_in(j, None) is None,
{
}

} // verus!
