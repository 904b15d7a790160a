//! What a search with ripgrep found.

use crate::archive::transcript::{truncate, truncated};
use crate::bytes::{text_of, utf8_text};
use crate::explorer::types::SearchHit;
use crate::json::{field, json_of_text, opt_as_text, parse, views, whole, Json, JsonView};
use crate::split::{lines, lines_of, strip_prefix};
use crate::text::{
    blank, copy, is_blank, only, opt_text, same, strip_back, texts, trim_end_char,
};
use vstd::prelude::*;
use vstd::slice::slice_to_vec;

verus! {

/// Whether the head of a file shows that it is no text: it holds a byte 0.
pub fn is_binary_head(head: &[u8]) -> (r: bool)
    ensures
        r == head@.contains(0u8),
{
    let mut i: usize = 0;
    while i < head.len()
        invariant
            i <= head@.len(),
            forall|k: int| 0 <= k < i ==> #[trigger] head@[k] != 0,
        decreases head@.len() - i,
    {
        if head[i] == 0 {
            assert(head@[i as int] == 0);
            return true;
        }
        i += 1;
    }
    false
}

/// A path from the root: what stands behind the root and a slash, or behind `./`; else the path as
/// it is.
pub open spec fn relative(abs: Seq<char>, root: Seq<char>) -> Seq<char> {
    let clean = strip_back(root, only('/'));
    if (clean + "/"@).is_prefix_of(abs) {
        abs.skip((clean + "/"@).len() as int)
    } else if abs == clean {
        seq![]
    } else if "./"@.is_prefix_of(abs) {
        abs.skip("./"@.len() as int)
    } else {
        abs
    }
}

/// A path from the root.
pub fn relativize(abs: &str, root: &str) -> (r: String)
    ensures
        r@ == relative(abs@, root@),
{
    let clean: String = trim_end_char(root, '/');
    let mut prefix: String = copy(clean.as_str());
    prefix.append("/");
    if let Some(s) = strip_prefix(abs, prefix.as_str()) {
        return s;
    }
    if same(abs, clean.as_str()) {
        let e: String = String::new();
        assert(e@ =~= seq![]);
        return e;
    }
    match strip_prefix(abs, "./") {
        Some(s) => s,
        None => copy(abs),
    }
}

/// Part `i` of a record with `n` parts: an object's entry under the part's name, or an item of a
/// list that gives the parts in order and may leave out the last ones.
pub open spec fn part(j: JsonView, n: int, i: int, name: Seq<char>) -> Option<JsonView> {
    match j {
        JsonView::Array(v) => if i < v.len() <= n {
            Some(v[i])
        } else {
            None
        },
        _ => field(j, name),
    }
}

fn read_part<'a>(j: &'a Json, n: usize, i: usize, name: &str) -> (r: Option<&'a Json>)
    ensures
        ref_view(r) == part(j.view(), n as int, i as int, name@),
{
    match j {
        Json::Array(v) => {
            proof {
                crate::json::lemma_array_view(*v);
            }
            if i < v.len() && v.len() <= n {
                Some(&v[i])
            } else {
                None
            }
        },
        _ => j.get(name),
    }
}

/// The whole number that a value is.
pub open spec fn whole_of(j: Option<JsonView>) -> Option<u64> {
    match j {
        Some(JsonView::Number(n)) => whole(n),
        _ => None,
    }
}

fn read_whole(j: Option<&Json>) -> (r: Option<u64>)
    ensures
        r == whole_of(ref_view(j)),
{
    match j {
        Some(Json::Number(n)) => n.as_u64(),
        _ => None,
    }
}

/// The text of a record that holds one, where it has the form of such: its one part `text` is a
/// text, null or missing.
pub open spec fn text_object(j: Option<JsonView>) -> Option<Option<Seq<char>>> {
    match j {
        Some(o) => if o is Object || (o is Array && o->Array_0.len() <= 1) {
            match part(o, 1, 0, "text"@) {
                Some(JsonView::Text(t)) => Some(Some(t)),
                Some(JsonView::Null) => Some(None),
                None => Some(None),
                _ => None,
            }
        } else {
            None
        },
        None => None,
    }
}

fn read_text_object(j: Option<&Json>) -> (r: Option<Option<String>>)
    ensures
        match r {
            Some(t) => text_object(ref_view(j)) == Some(opt_text(t)),
            None => text_object(ref_view(j)) is None,
        },
{
    let o: &Json = match j {
        Some(o) => o,
        None => {
            return None;
        },
    };
    match o {
        Json::Object(_) => {},
        Json::Array(v) => {
            proof {
                crate::json::lemma_array_view(*v);
            }
            if v.len() > 1 {
                return None;
            }
        },
        _ => {
            return None;
        },
    }
    match read_part(o, 1, 0, "text") {
        Some(t) => match t {
            Json::Text(s) => Some(Some(copy(s.as_str()))),
            Json::Null => Some(None),
            _ => None,
        },
        None => Some(None),
    }
}

/// The value behind a reference, if there is one.
pub open spec fn ref_view(j: Option<&Json>) -> Option<JsonView> {
    match j {
        Some(v) => Some(v.view()),
        None => None,
    }
}

/// Where a match begins and ends, where the value has the form of such.
pub open spec fn span(j: JsonView) -> Option<(usize, usize)> {
    match (whole_of(part(j, 2, 0, "start"@)), whole_of(part(j, 2, 1, "end"@))) {
        (Some(a), Some(b)) => if a <= usize::MAX && b <= usize::MAX {
            Some((a as usize, b as usize))
        } else {
            None
        },
        _ => None,
    }
}

fn read_span(j: &Json) -> (r: Option<(usize, usize)>)
    ensures
        r == span(j.view()),
{
    match (read_whole(read_part(j, 2, 0, "start")), read_whole(read_part(j, 2, 1, "end"))) {
        (Some(a), Some(b)) => if a <= usize::MAX as u64 && b <= usize::MAX as u64 {
            Some((a as usize, b as usize))
        } else {
            None
        },
        _ => None,
    }
}

/// The first match of a line, where the value lists matches; a line without any has the empty one
/// at its start.
pub open spec fn first_span(j: Option<JsonView>) -> Option<(usize, usize)> {
    match j {
        None => Some((0, 0)),
        Some(JsonView::Array(v)) => if exists|i: int| 0 <= i < v.len() && span(#[trigger] v[i]) is None {
            None
        } else if v.len() == 0 {
            Some((0, 0))
        } else {
            span(v[0])
        },
        Some(_) => None,
    }
}

fn read_first_span(j: Option<&Json>) -> (r: Option<(usize, usize)>)
    ensures
        r == first_span(ref_view(j)),
{
    let v: &Vec<Json> = match j {
        None => {
            return Some((0, 0));
        },
        Some(a) => match a {
            Json::Array(v) => {
                proof {
                    crate::json::lemma_array_view(*v);
                }
                v
            },
            _ => {
                return None;
            },
        },
    };
    let ghost all = views(v@);
    let mut first: (usize, usize) = (0, 0);
    let mut i: usize = 0;
    while i < v.len()
        invariant
            i <= v@.len(),
            all == views(v@),
            ref_view(j) == Some(JsonView::Array(all)),
            forall|k: int| 0 <= k < i ==> span(#[trigger] all[k]) is Some,
            i == 0 ==> first == (0usize, 0usize),
            i > 0 ==> span(all[0]) == Some(first),
        decreases v@.len() - i,
    {
        assert(all[i as int] == v@[i as int].view());
        match read_span(&v[i]) {
            Some(s) => {
                if i == 0 {
                    first = s;
                }
            },
            None => {
                assert(span(all[i as int]) is None);
                return None;
            },
        }
        i += 1;
    }
    Some(first)
}

/// A hit as text.
pub struct HitView {
    pub path: Seq<char>,
    pub line_number: u64,
    pub line: Seq<char>,
    pub match_start: usize,
    pub match_end: usize,
}

impl SearchHit {
    pub open spec fn view(&self) -> HitView {
        HitView {
            path: self.path@,
            line_number: self.line_number,
            line: self.line@,
            match_start: self.match_start,
            match_end: self.match_end,
        }
    }
}

/// A text, or an empty one.
pub open spec fn or_nothing(t: Option<Seq<char>>) -> Seq<char> {
    match t {
        Some(s) => s,
        None => seq![],
    }
}

/// The hit that the data of a message tells of, where it has the form of such. The line is shown
/// without its end, and at most 300 characters of it.
pub open spec fn data_hit(d: JsonView, root: Seq<char>) -> Option<HitView> {
    match (
        text_object(part(d, 4, 0, "path"@)),
        whole_of(part(d, 4, 1, "line_number"@)),
        text_object(part(d, 4, 2, "lines"@)),
        first_span(part(d, 4, 3, "submatches"@)),
    ) {
        (Some(path), Some(n), Some(line), Some((a, b))) => Some(
            HitView {
                path: relative(or_nothing(path), root),
                line_number: n,
                line: truncated(strip_back(or_nothing(line), only('\n')), 300),
                match_start: a,
                match_end: b,
            },
        ),
        _ => None,
    }
}

fn text_or_empty(t: Option<String>) -> (r: String)
    ensures
        r@ == or_nothing(opt_text(t)),
{
    match t {
        Some(s) => s,
        None => {
            let e: String = String::new();
            assert(e@ =~= seq![]);
            e
        },
    }
}

fn read_data(d: &Json, root: &str) -> (r: Option<SearchHit>)
    ensures
        opt_hit(r) == data_hit(d.view(), root@),
{
    let path: Option<String> = match read_text_object(read_part(d, 4, 0, "path")) {
        Some(p) => p,
        None => {
            return None;
        },
    };
    let line_number: u64 = match read_whole(read_part(d, 4, 1, "line_number")) {
        Some(n) => n,
        None => {
            return None;
        },
    };
    let line: Option<String> = match read_text_object(read_part(d, 4, 2, "lines")) {
        Some(l) => l,
        None => {
            return None;
        },
    };
    let (match_start, match_end): (usize, usize) = match read_first_span(read_part(d, 4, 3, "submatches")) {
        Some(s) => s,
        None => {
            return None;
        },
    };
    let text: String = trim_end_char(text_or_empty(line).as_str(), '\n');
    Some(
        SearchHit {
            path: relativize(text_or_empty(path).as_str(), root),
            line_number,
            line: truncate(text.as_str(), 300),
            match_start,
            match_end,
        },
    )
}

/// A hit as text, if there is one.
pub open spec fn opt_hit(h: Option<SearchHit>) -> Option<HitView> {
    match h {
        Some(x) => Some(x@),
        None => None,
    }
}

/// The hit that a line of output tells of: one of the kind `match` whose data has the form of a
/// hit. Other lines tell of none. A line is read as a value first: of a key that an object repeats
/// the last entry counts, and a line that is no value tells of none, whichever entry is at fault.
pub open spec fn line_hit(row: Seq<char>, root: Seq<char>) -> Option<HitView> {
    if blank(row) {
        None
    } else {
        match json_of_text(row) {
            Some(j) => if opt_as_text(part(j, 2, 0, "type"@)) == Some("match"@) {
                match part(j, 2, 1, "data"@) {
                    Some(d) => data_hit(d, root),
                    None => None,
                }
            } else {
                None
            },
            None => None,
        }
    }
}

/// The hit that a line of output tells of.
fn read_hit(row: &str, root: &str) -> (r: Option<SearchHit>)
    ensures
        opt_hit(r) == line_hit(row@, root@),
{
    if is_blank(row) {
        return None;
    }
    let j: Json = match parse(row) {
        Some(j) => j,
        None => {
            return None;
        },
    };
    match read_part(&j, 2, 0, "type") {
        Some(Json::Text(t)) => {
            if !same(t.as_str(), "match") {
                return None;
            }
        },
        _ => {
            return None;
        },
    }
    match read_part(&j, 2, 1, "data") {
        Some(d) => read_data(d, root),
        None => None,
    }
}

/// The hits that lines of output tell of.
pub open spec fn all_hits(rows: Seq<Seq<char>>, root: Seq<char>) -> Seq<HitView>
    decreases rows.len(),
{
    if rows.len() == 0 {
        seq![]
    } else {
        match line_hit(rows.last(), root) {
            Some(h) => all_hits(rows.drop_last(), root).push(h),
            None => all_hits(rows.drop_last(), root),
        }
    }
}

/// The first hits, at most `max`.
pub open spec fn first_hits(h: Seq<HitView>, max: nat) -> Seq<HitView> {
    if h.len() <= max {
        h
    } else {
        h.take(max as int)
    }
}

/// The hits as text.
pub open spec fn hit_views(v: Seq<SearchHit>) -> Seq<HitView> {
    Seq::new(v.len(), |i: int| v[i]@)
}

/// The output of ripgrep is no text.
#[derive(Clone, Copy, PartialEq, Eq, Debug, Structural)]
pub struct NotText;

proof fn lemma_hits_grow(rows: Seq<Seq<char>>, root: Seq<char>, n: int)
    requires
        0 <= n <= rows.len(),
    ensures
        all_hits(rows.take(n), root).is_prefix_of(all_hits(rows, root)),
    decreases rows.len() - n,
{
    let a = all_hits(rows.take(n), root);
    if n == rows.len() {
        assert(rows.take(n) =~= rows);
        assert(a =~= a.subrange(0, a.len() as int));
    } else {
        lemma_hits_grow(rows, root, n + 1);
        let b = all_hits(rows.take(n + 1), root);
        let c = all_hits(rows, root);
        assert(rows.take(n + 1).drop_last() =~= rows.take(n));
        assert(b.len() >= a.len() && b.subrange(0, a.len() as int) =~= a);
        assert(c.subrange(0, b.len() as int) =~= b);
        assert(c.subrange(0, a.len() as int) =~= b.subrange(0, a.len() as int));
    }
}

/// The first hits in the output of `rg --json`, with paths from the root.
pub fn parse_rg_json(stdout: &[u8], root: &str, max_results: usize) -> (r: Result<
    Vec<SearchHit>,
    NotText,
>)
    ensures
        match utf8_text(stdout@) {
            None => r == Err::<Vec<SearchHit>, NotText>(NotText),
            Some(t) => r is Ok && hit_views(r->Ok_0@) == first_hits(
                all_hits(lines_of(t), root@),
                max_results as nat,
            ),
        },
{
    let text: String = match text_of(slice_to_vec(stdout)) {
        Some(t) => t,
        None => {
            return Err(NotText);
        },
    };
    let rows: Vec<String> = lines(text.as_str());
    let ghost all = texts(rows@);
    let mut hits: Vec<SearchHit> = Vec::new();
    let mut i: usize = 0;
    assert(hit_views(hits@) =~= all_hits(all.take(0), root@));
    while i < rows.len() && hits.len() < max_results
        invariant
            i <= rows@.len(),
            all == texts(rows@),
            hits@.len() <= max_results,
            hit_views(hits@) == all_hits(all.take(i as int), root@),
        decreases rows@.len() - i,
    {
        proof {
            assert(all.take(i + 1).drop_last() =~= all.take(i as int));
            assert(all.take(i + 1).last() == rows@[i as int]@);
        }
        if let Some(h) = read_hit(rows[i].as_str(), root) {
            let ghost before = hits@;
            let ghost hv = h@;
            hits.push(h);
            assert(hit_views(hits@) =~= hit_views(before).push(hv));
        }
        i += 1;
    }
    proof {
        lemma_hits_grow(all, root@, i as int);
        let got = hit_views(hits@);
        let full = all_hits(all, root@);
        assert(got.len() == hits@.len());
        if i == rows@.len() {
            assert(all.take(i as int) =~= all);
        } else {
            assert(hits@.len() == max_results);
        }
        assert(got =~= first_hits(full, max_results as nat));
    }
    Ok(hits)
}

// ---------------------------------------------------------------- what a search promises

/// A hit is named by its path below the root, however ripgrep wrote it.
pub proof fn path_is_told_from_the_root(x: Seq<char>, slashes: Seq<char>, rel: Seq<char>)
    requires
        forall|k: int| 0 <= k < slashes.len() ==> #[trigger] slashes[k] == '/',
        x.len() > 0,
        x.last() != '/',
        x[0] == '/',
    ensures
        relative(x + "/"@ + rel, x + slashes) == rel,
        relative("./"@ + rel, x + slashes) == rel,
        relative(x, x + slashes) == Seq::<char>::empty(),
        rel.len() > 0 && rel[0] != '/' && rel[0] != '.' ==> relative(rel, x + slashes) == rel,
{
    reveal_strlit("/");
    reveal_strlit("./");
    let root = x + slashes;
    assert(root[root.len() - slashes.len() - 1] == x.last());
    crate::text::lemma_trail_is(root, only('/'), slashes.len());
    assert(strip_back(root, only('/')) =~= x);
    let p = x + "/"@;
    let a = p + rel;
    assert(a =~= x + "/"@ + rel);
    assert(a.subrange(0, p.len() as int) =~= p);
    assert(a.skip(p.len() as int) =~= rel);
    let b = "./"@ + rel;
    if p.is_prefix_of(b) {
        assert(b.subrange(0, p.len() as int)[0] == b[0]);
        assert(p[0] == '/');
    }
    assert(b[0] == '.');
    assert(b.subrange(0, 2) =~= "./"@);
    assert(b.skip(2) =~= rel);
    if p.is_prefix_of(x) {
        assert(p.len() <= x.len());
    }
    if rel.len() > 0 && rel[0] != '/' && rel[0] != '.' {
        if p.is_prefix_of(rel) {
            assert(rel.subrange(0, p.len() as int)[0] == rel[0]);
            assert(p[0] == '/');
        }
        if "./"@.is_prefix_of(rel) {
            assert(rel.subrange(0, 2)[0] == rel[0]);
        }
    }
}

/// A line of the kind `match` that names a file, a line, its number and where it matches is a hit with
/// just these: the path from the root, the line without its end, and the first of the matches.
pub proof fn match_is_a_hit(
    row: Seq<char>,
    root: Seq<char>,
    j: JsonView,
    d: JsonView,
    path: JsonView,
    lines: JsonView,
    p: Seq<char>,
    t: Seq<char>,
    n: u64,
    v: Seq<JsonView>,
    a: u64,
    b: u64,
)
    requires
        json_of_text(row) == Some(j),
        !blank(row),
        j is Object,
        d is Object,
        path is Object,
        lines is Object,
        field(j, "type"@) == Some(JsonView::Text("match"@)),
        field(j, "data"@) == Some(d),
        field(d, "path"@) == Some(path),
        field(path, "text"@) == Some(JsonView::Text(p)),
        field(d, "lines"@) == Some(lines),
        field(lines, "text"@) == Some(JsonView::Text(t)),
        t.len() > 0 ==> t.last() != '\n',
        whole_of(field(d, "line_number"@)) == Some(n),
        field(d, "submatches"@) == Some(JsonView::Array(v)),
        v.len() > 0,
        forall|i: int|
            0 <= i < v.len() ==> (#[trigger] v[i]) is Object && whole_of(field(v[i], "start"@))
                is Some && whole_of(field(v[i], "end"@)) is Some,
        forall|i: int|
            0 <= i < v.len() ==> whole_of(field(#[trigger] v[i], "start"@))->0 <= usize::MAX
                && whole_of(field(v[i], "end"@))->0 <= usize::MAX,
        whole_of(field(v[0], "start"@)) == Some(a),
        whole_of(field(v[0], "end"@)) == Some(b),
    ensures
        line_hit(row, root) matches Some(h) && h.path == relative(p, root) && h.line_number == n
            && h.match_start == a && h.match_end == b && (t.len() <= 300 ==> h.line == t) && (t.len()
            > 300 ==> h.line == t.take(300).push('…')),
{
    crate::text::lemma_trail_is(t, only('\n'), 0);
    assert(strip_back(t, only('\n')) =~= t);
    assert forall|i: int| 0 <= i < v.len() implies span(#[trigger] v[i]) is Some by {
        assert(v[i] is Object);
        assert(whole_of(field(v[i], "start"@))->0 <= usize::MAX);
    }
    assert(first_span(Some(JsonView::Array(v))) == span(v[0]));
}

/// A line of another kind is no hit, nor is one that is no JSON.
pub proof fn other_lines_are_no_hits(row: Seq<char>, root: Seq<char>)
    ensures
        json_of_text(row) is None ==> line_hit(row, root) is None,
        json_of_text(row) matches Some(j) ==> j is Object ==> field(j, "type"@) != Some(
            JsonView::Text("match"@),
        ) ==> line_hit(row, root) is None,
{
}

/// The hits stand in the order of the lines, none left out, up to as many as are asked for.
pub proof fn hits_stand_in_order(
    rows: Seq<Seq<char>>,
    row: Seq<char>,
    root: Seq<char>,
    max: nat,
)
    ensures
        line_hit(row, root) matches Some(h) ==> all_hits(rows.push(row), root) == all_hits(
            rows,
            root,
        ).push(h),
        line_hit(row, root) is None ==> all_hits(rows.push(row), root) == all_hits(rows, root),
        all_hits(Seq::empty(), root).len() == 0,
        first_hits(all_hits(rows, root), max).len() == if all_hits(rows, root).len() <= max {
            all_hits(rows, root).len()
        } else {
            max
        },
        forall|i: int|
            0 <= i < first_hits(all_hits(rows, root), max).len() ==> #[trigger] first_hits(
                all_hits(rows, root),
                max,
            )[i] == all_hits(rows, root)[i],
{
    assert(rows.push(row).drop_last() =~= rows);
}

/// A file counts as binary where a zero byte stands at its front, wherever there, and not otherwise.
pub proof fn zero_byte_makes_it_binary(head: &[u8], r: bool, i: int)
    requires
        call_ensures(is_binary_head, (head,), r),
        0 <= i < head@.len(),
    ensures
        head@[i] == 0 ==> r,
        (forall|k: int| 0 <= k < head@.len() ==> #[trigger] head@[k] != 0) ==> !r,
{
}

} // verus!
