//! Cutting strings into pieces and putting them together again.

use crate::text::{
    chars_of, same, is_white, lead, lemma_lead_bounds, lemma_lead_is, lemma_texts_push, string_of, texts,
    white, whites,
};
use vstd::prelude::*;

verus! {

/// Position of the first `c` in `s`; the length of `s` where there is none.
pub open spec fn index_of(s: Seq<char>, c: char) -> int
    decreases s.len(),
{
    if s.len() == 0 || s[0] == c {
        0
    } else {
        1 + index_of(s.skip(1), c)
    }
}

/// Position of the last `c` in `s`; -1 where there is none.
pub open spec fn last_index_of(s: Seq<char>, c: char) -> int
    decreases s.len(),
{
    if s.len() == 0 || s.last() == c {
        s.len() - 1
    } else {
        last_index_of(s.drop_last(), c)
    }
}

pub proof fn lemma_index_of(s: Seq<char>, c: char)
    ensures
        0 <= index_of(s, c) <= s.len(),
        forall|k: int| 0 <= k < index_of(s, c) ==> #[trigger] s[k] != c,
        index_of(s, c) < s.len() ==> s[index_of(s, c)] == c,
    decreases s.len(),
{
    if s.len() > 0 && s[0] != c {
        lemma_index_of(s.skip(1), c);
        assert forall|k: int| 0 <= k < index_of(s, c) implies #[trigger] s[k] != c by {
            if k > 0 {
                assert(s.skip(1)[k - 1] == s[k]);
            }
        }
        if index_of(s, c) < s.len() {
            assert(s.skip(1)[index_of(s.skip(1), c)] == s[index_of(s, c)]);
        }
    }
}

/// The first position of `c` is the one `n` with these bounds.
pub proof fn lemma_index_is(s: Seq<char>, c: char, n: int)
    requires
        0 <= n <= s.len(),
        forall|k: int| 0 <= k < n ==> #[trigger] s[k] != c,
        n < s.len() ==> s[n] == c,
    ensures
        index_of(s, c) == n,
{
    lemma_index_of(s, c);
    if index_of(s, c) < n {
        assert(s[index_of(s, c)] != c);
    } else if n < index_of(s, c) {
        assert(s[n] != c);
    }
}

pub proof fn lemma_last_index_of(s: Seq<char>, c: char)
    ensures
        -1 <= last_index_of(s, c) < s.len(),
        forall|k: int| last_index_of(s, c) < k < s.len() ==> #[trigger] s[k] != c,
        last_index_of(s, c) >= 0 ==> s[last_index_of(s, c)] == c,
    decreases s.len(),
{
    if s.len() > 0 && s.last() != c {
        let t = s.drop_last();
        lemma_last_index_of(t, c);
        assert forall|k: int| last_index_of(s, c) < k < s.len() implies #[trigger] s[k] != c by {
            if k < s.len() - 1 {
                assert(t[k] == s[k]);
            }
        }
    }
}

/// The last position of `c` is the one `n` with these bounds.
pub proof fn lemma_last_index_is(s: Seq<char>, c: char, n: int)
    requires
        -1 <= n < s.len(),
        forall|k: int| n < k < s.len() ==> #[trigger] s[k] != c,
        n >= 0 ==> s[n] == c,
    ensures
        last_index_of(s, c) == n,
{
    lemma_last_index_of(s, c);
    if last_index_of(s, c) < n {
        assert(s[n] != c);
    } else if n < last_index_of(s, c) {
        assert(s[last_index_of(s, c)] != c);
    }
}

/// Position of the first `c` at or after `from`; the length where there is none.
pub fn find_char(cs: &Vec<char>, c: char, from: usize) -> (r: usize)
    requires
        from <= cs@.len(),
    ensures
        from <= r <= cs@.len(),
        r - from == index_of(cs@.skip(from as int), c),
{
    let mut i: usize = from;
    while i < cs.len() && cs[i] != c
        invariant
            from <= i <= cs@.len(),
            forall|k: int| from <= k < i ==> #[trigger] cs@[k] != c,
        decreases cs@.len() - i,
    {
        i += 1;
    }
    proof {
        let t = cs@.skip(from as int);
        assert forall|k: int| 0 <= k < i - from implies #[trigger] t[k] != c by {
            assert(t[k] == cs@[from + k]);
        }
        if i < cs@.len() {
            assert(t[i - from] == cs@[i as int]);
        }
        lemma_index_is(t, c, i - from);
    }
    i
}

/// One past the position of the last `c`; zero where there is none.
pub fn rfind_char(cs: &Vec<char>, c: char) -> (r: usize)
    ensures
        r <= cs@.len(),
        r - 1 == last_index_of(cs@, c),
{
    let mut i: usize = cs.len();
    while i > 0 && cs[i - 1] != c
        invariant
            i <= cs@.len(),
            forall|k: int| i <= k < cs@.len() ==> #[trigger] cs@[k] != c,
        decreases i,
    {
        i -= 1;
    }
    proof {
        lemma_last_index_is(cs@, c, i - 1);
    }
    i
}

/// The two sides of the first `c` in `s`.
pub open spec fn cut(s: Seq<char>, c: char) -> Option<(Seq<char>, Seq<char>)> {
    let i = index_of(s, c);
    if i < s.len() {
        Some((s.take(i), s.skip(i + 1)))
    } else {
        None
    }
}

/// The two sides of the last `c` in `s`.
pub open spec fn rcut(s: Seq<char>, c: char) -> Option<(Seq<char>, Seq<char>)> {
    let i = last_index_of(s, c);
    if i >= 0 {
        Some((s.take(i), s.skip(i + 1)))
    } else {
        None
    }
}

/// The character sequences of an optional pair of strings.
pub open spec fn opt_pair(o: Option<(String, String)>) -> Option<(Seq<char>, Seq<char>)> {
    match o {
        Some(p) => Some((p.0@, p.1@)),
        None => None,
    }
}

/// `str::split_once` with one character.
pub fn split_once(s: &str, c: char) -> (r: Option<(String, String)>)
    ensures
        opt_pair(r) == cut(s@, c),
{
    let cs: Vec<char> = chars_of(s);
    let i: usize = find_char(&cs, c, 0);
    assert(cs@.skip(0) =~= cs@);
    if i < cs.len() {
        let a: String = string_of(&cs, 0, i);
        let b: String = string_of(&cs, i + 1, cs.len());
        assert(a@ =~= s@.take(i as int));
        assert(b@ =~= s@.skip(i + 1));
        Some((a, b))
    } else {
        None
    }
}

/// `str::rsplit_once` with one character.
pub fn rsplit_once(s: &str, c: char) -> (r: Option<(String, String)>)
    ensures
        opt_pair(r) == rcut(s@, c),
{
    let cs: Vec<char> = chars_of(s);
    let i: usize = rfind_char(&cs, c);
    if i > 0 {
        let a: String = string_of(&cs, 0, i - 1);
        let b: String = string_of(&cs, i, cs.len());
        assert(a@ =~= s@.take(i - 1));
        assert(b@ =~= s@.skip(i as int));
        Some((a, b))
    } else {
        None
    }
}

/// The pieces of `s` between the characters `c`.
pub open spec fn fields(s: Seq<char>, c: char) -> Seq<Seq<char>>
    decreases s.len(),
    via fields_decreases
{
    let i = index_of(s, c);
    if i < s.len() {
        seq![s.take(i)] + fields(s.skip(i + 1), c)
    } else {
        seq![s]
    }
}

#[via_fn]
proof fn fields_decreases(s: Seq<char>, c: char) {
    lemma_index_of(s, c);
}

/// The first piece ends at the first `c`.
pub proof fn lemma_fields_first(a: Seq<char>, rest: Seq<char>, c: char)
    requires
        !a.contains(c),
    ensures
        fields(a.push(c) + rest, c) == seq![a] + fields(rest, c),
        fields(a, c) == seq![a],
{
    let s = a.push(c) + rest;
    assert forall|k: int| 0 <= k < a.len() implies #[trigger] a[k] != c by {
        assert(a.contains(a[k]));
    }
    assert forall|k: int| 0 <= k < a.len() implies #[trigger] s[k] != c by {
        assert(s[k] == a[k]);
    }
    lemma_index_is(s, c, a.len() as int);
    lemma_index_is(a, c, a.len() as int);
    assert(s.take(a.len() as int) =~= a);
    assert(s.skip(a.len() as int + 1) =~= rest);
}

/// The last piece begins behind the last `c`.
pub proof fn lemma_fields_last(a: Seq<char>, b: Seq<char>, c: char)
    requires
        !b.contains(c),
    ensures
        fields(a.push(c) + b, c) == fields(a, c).push(b),
    decreases a.len(),
{
    let i = index_of(a, c);
    lemma_index_of(a, c);
    if i < a.len() {
        let head = a.take(i);
        let rest = a.skip(i + 1);
        assert(!head.contains(c)) by {
            if head.contains(c) {
                let k = choose|k: int| 0 <= k < head.len() && head[k] == c;
                assert(a[k] == c);
            }
        }
        lemma_fields_last(rest, b, c);
        lemma_fields_first(head, rest.push(c) + b, c);
        assert(a.push(c) + b =~= head.push(c) + (rest.push(c) + b));
        assert(fields(a, c) == seq![head] + fields(rest, c));
        assert(seq![head] + fields(rest, c).push(b) =~= (seq![head] + fields(rest, c)).push(b));
    } else {
        assert(!a.contains(c)) by {
            if a.contains(c) {
                let k = choose|k: int| 0 <= k < a.len() && a[k] == c;
                assert(a[k] == c);
            }
        }
        lemma_fields_first(a, b, c);
        lemma_fields_first(b, seq![], c);
        assert(seq![a] + seq![b] =~= seq![a].push(b));
    }
}

/// No piece holds the character it is cut at.
pub proof fn lemma_fields_free(s: Seq<char>, c: char)
    ensures
        forall|k: int| 0 <= k < fields(s, c).len() ==> !(#[trigger] fields(s, c)[k]).contains(c),
    decreases s.len(),
{
    lemma_index_of(s, c);
    let i = index_of(s, c);
    if i < s.len() {
        let rest = fields(s.skip(i + 1), c);
        lemma_fields_free(s.skip(i + 1), c);
        assert(!s.take(i).contains(c)) by {
            if s.take(i).contains(c) {
                let k = choose|k: int| 0 <= k < i && s.take(i)[k] == c;
                assert(s[k] == c);
            }
        }
        assert forall|k: int| 0 <= k < fields(s, c).len() implies !(#[trigger] fields(s, c)[k]).contains(
            c,
        ) by {
            if k > 0 {
                assert(fields(s, c)[k] == rest[k - 1]);
            }
        }
    } else {
        assert(!s.contains(c)) by {
            if s.contains(c) {
                let k = choose|k: int| 0 <= k < s.len() && s[k] == c;
                assert(s[k] == c);
            }
        }
    }
}

/// The pieces of two texts with `c` between them are the pieces of both.
pub proof fn lemma_fields_join(a: Seq<char>, b: Seq<char>, c: char)
    ensures
        fields(a.push(c) + b, c) == fields(a, c) + fields(b, c),
    decreases a.len(),
{
    let i = index_of(a, c);
    lemma_index_of(a, c);
    if i < a.len() {
        let head = a.take(i);
        let rest = a.skip(i + 1);
        assert(!head.contains(c)) by {
            if head.contains(c) {
                let k = choose|k: int| 0 <= k < head.len() && head[k] == c;
                assert(a[k] == c);
            }
        }
        lemma_fields_join(rest, b, c);
        lemma_fields_first(head, rest.push(c) + b, c);
        assert(a.push(c) + b =~= head.push(c) + (rest.push(c) + b));
        assert(seq![head] + (fields(rest, c) + fields(b, c)) =~= (seq![head] + fields(rest, c))
            + fields(b, c));
    } else {
        assert(!a.contains(c)) by {
            if a.contains(c) {
                let k = choose|k: int| 0 <= k < a.len() && a[k] == c;
                assert(a[k] == c);
            }
        }
        lemma_fields_first(a, b, c);
    }
}

/// `str::split` with one character.
pub fn split(s: &str, c: char) -> (r: Vec<String>)
    ensures
        texts(r@) == fields(s@, c),
{
    let cs: Vec<char> = chars_of(s);
    let mut out: Vec<String> = Vec::new();
    let mut at: usize = 0;
    assert(texts(out@) + fields(s@, c) =~= fields(s@, c));
    assert(s@.skip(0) =~= s@);
    loop
        invariant
            at <= cs@.len(),
            cs@ == s@,
            texts(out@) + fields(s@.skip(at as int), c) == fields(s@, c),
        decreases cs@.len() - at,
    {
        let rest: Ghost<Seq<char>> = Ghost(s@.skip(at as int));
        let i: usize = find_char(&cs, c, at);
        let piece: String = string_of(&cs, at, i);
        let before: Ghost<Seq<String>> = Ghost(out@);
        out.push(piece);
        proof {
            lemma_texts_push(before@, piece);
            assert(piece@ =~= rest@.take(i - at));
        }
        if i < cs.len() {
            proof {
                assert(rest@.skip(i - at + 1) =~= s@.skip(i + 1));
                assert(texts(out@) + fields(s@.skip(i + 1), c) =~= texts(before@) + fields(rest@, c));
            }
            at = i + 1;
        } else {
            proof {
                assert(piece@ =~= rest@);
                assert(texts(out@) =~= texts(before@) + fields(rest@, c));
            }
            return out;
        }
    }
}

/// A line without the carriage return that ended it.
pub open spec fn strip_cr(s: Seq<char>) -> Seq<char> {
    if s.len() > 0 && s.last() == '\r' {
        s.drop_last()
    } else {
        s
    }
}

/// The lines of `s`: each ends at a line feed, which a carriage return may precede; text after
/// the last line feed is a line too, unless there is none.
pub open spec fn lines_of(s: Seq<char>) -> Seq<Seq<char>>
    decreases s.len(),
    via lines_of_decreases
{
    let i = index_of(s, '\n');
    if s.len() == 0 {
        seq![]
    } else if i < s.len() {
        seq![strip_cr(s.take(i))] + lines_of(s.skip(i + 1))
    } else {
        seq![s]
    }
}

#[via_fn]
proof fn lines_of_decreases(s: Seq<char>) {
    lemma_index_of(s, '\n');
}

/// `str::lines`.
pub fn lines(s: &str) -> (r: Vec<String>)
    ensures
        texts(r@) == lines_of(s@),
{
    let cs: Vec<char> = chars_of(s);
    let mut out: Vec<String> = Vec::new();
    let mut at: usize = 0;
    assert(texts(out@) + lines_of(s@) =~= lines_of(s@));
    assert(s@.skip(0) =~= s@);
    while at < cs.len()
        invariant
            at <= cs@.len(),
            cs@ == s@,
            texts(out@) + lines_of(s@.skip(at as int)) == lines_of(s@),
        decreases cs@.len() - at,
    {
        let rest: Ghost<Seq<char>> = Ghost(s@.skip(at as int));
        let i: usize = find_char(&cs, '\n', at);
        let before: Ghost<Seq<String>> = Ghost(out@);
        if i < cs.len() {
            let end: usize = if i > at && cs[i - 1] == '\r' {
                i - 1
            } else {
                i
            };
            let piece: String = string_of(&cs, at, end);
            out.push(piece);
            proof {
                lemma_texts_push(before@, piece);
                let line = rest@.take(i - at);
                if i > at {
                    assert(line.last() == cs@[i - 1]);
                }
                assert(piece@ =~= strip_cr(line));
                assert(rest@.skip(i - at + 1) =~= s@.skip(i + 1));
                assert(texts(out@) + lines_of(s@.skip(i + 1)) =~= texts(before@) + lines_of(rest@));
            }
            at = i + 1;
        } else {
            let piece: String = string_of(&cs, at, i);
            out.push(piece);
            proof {
                lemma_texts_push(before@, piece);
                assert(piece@ =~= rest@);
                assert(s@.skip(i as int) =~= seq![]);
                assert(texts(out@) + lines_of(s@.skip(i as int)) =~= texts(before@) + lines_of(
                    rest@,
                ));
            }
            at = i;
        }
    }
    assert(s@.skip(at as int) =~= seq![]);
    assert(texts(out@) =~= lines_of(s@));
    out
}

/// The predicate of not being white space.
pub open spec fn blacks() -> spec_fn(char) -> bool {
    |c: char| !white(c)
}

/// The longest pieces of `s` that hold no white space.
pub open spec fn words_of(s: Seq<char>) -> Seq<Seq<char>>
    decreases s.len(),
    via words_of_decreases
{
    let t = s.skip(lead(s, whites()) as int);
    let n = lead(t, blacks()) as int;
    if t.len() == 0 {
        seq![]
    } else {
        seq![t.take(n)] + words_of(t.skip(n))
    }
}

#[via_fn]
proof fn words_of_decreases(s: Seq<char>) {
    lemma_lead_bounds(s, whites());
    let t = s.skip(lead(s, whites()) as int);
    lemma_lead_bounds(t, blacks());
    if t.len() > 0 {
        assert(t[0] == s[lead(s, whites()) as int]);
        assert(!whites()(t[0]));
        assert(blacks()(t[0]));
    }
}

/// `str::split_whitespace`.
pub fn words(s: &str) -> (r: Vec<String>)
    ensures
        texts(r@) == words_of(s@),
{
    let cs: Vec<char> = chars_of(s);
    let mut out: Vec<String> = Vec::new();
    let mut at: usize = 0;
    assert(texts(out@) + words_of(s@) =~= words_of(s@));
    assert(s@.skip(0) =~= s@);
    loop
        invariant
            at <= cs@.len(),
            cs@ == s@,
            texts(out@) + words_of(s@.skip(at as int)) == words_of(s@),
        decreases cs@.len() - at,
    {
        let rest: Ghost<Seq<char>> = Ghost(s@.skip(at as int));
        let mut a: usize = at;
        while a < cs.len() && is_white(cs[a])
            invariant
                at <= a <= cs@.len(),
                forall|k: int| at <= k < a ==> white(#[trigger] cs@[k]),
            decreases cs@.len() - a,
        {
            a += 1;
        }
        let t: Ghost<Seq<char>> = Ghost(s@.skip(a as int));
        proof {
            let p = whites();
            assert forall|k: int| 0 <= k < a - at implies p(#[trigger] rest@[k]) by {
                assert(rest@[k] == cs@[at + k]);
            }
            if a < cs@.len() {
                assert(rest@[a - at] == cs@[a as int]);
            }
            lemma_lead_is(rest@, p, (a - at) as nat);
            assert(rest@.skip(a - at) =~= t@);
        }
        if a == cs.len() {
            assert(texts(out@) + words_of(rest@) =~= texts(out@));
            return out;
        }
        let mut b: usize = a;
        while b < cs.len() && !is_white(cs[b])
            invariant
                a <= b <= cs@.len(),
                forall|k: int| a <= k < b ==> !white(#[trigger] cs@[k]),
            decreases cs@.len() - b,
        {
            b += 1;
        }
        let piece: String = string_of(&cs, a, b);
        let before: Ghost<Seq<String>> = Ghost(out@);
        out.push(piece);
        proof {
            let p = blacks();
            assert forall|k: int| 0 <= k < b - a implies p(#[trigger] t@[k]) by {
                assert(t@[k] == cs@[a + k]);
            }
            if b < cs@.len() {
                assert(t@[b - a] == cs@[b as int]);
            }
            lemma_lead_is(t@, p, (b - a) as nat);
            lemma_texts_push(before@, piece);
            assert(piece@ =~= t@.take(b - a));
            assert(t@.skip(b - a) =~= s@.skip(b as int));
            assert(texts(out@) + words_of(s@.skip(b as int)) =~= texts(before@) + words_of(rest@));
            assert(blacks()(t@[0])) by {
                assert(t@[0] == cs@[a as int]);
            }
        }
        at = b;
    }
}

/// `str::starts_with`.
pub fn starts_with(s: &str, p: &str) -> (r: bool)
    ensures
        r == p@.is_prefix_of(s@),
{
    let cs: Vec<char> = chars_of(s);
    let ps: Vec<char> = chars_of(p);
    is_at(&cs, &ps, 0)
}

/// Whether `ps` stands in `cs` at position `at`.
pub fn is_at(cs: &Vec<char>, ps: &Vec<char>, at: usize) -> (r: bool)
    requires
        at <= cs@.len(),
    ensures
        r == ps@.is_prefix_of(cs@.skip(at as int)),
        at == 0 ==> r == ps@.is_prefix_of(cs@),
{
    assert(at == 0 ==> cs@.skip(at as int) =~= cs@);
    let n: usize = cs.len();
    if ps.len() > n - at {
        return false;
    }
    let mut i: usize = 0;
    while i < ps.len()
        invariant
            i <= ps@.len(),
            at + ps@.len() <= cs@.len(),
            cs@.len() == n,
            at == 0 ==> cs@.skip(at as int) == cs@,
            forall|k: int| 0 <= k < i ==> cs@[at + k] == #[trigger] ps@[k],
        decreases ps@.len() - i,
    {
        if cs[at + i] != ps[i] {
            proof {
                let t = cs@.skip(at as int);
                assert(t[i as int] == cs@[at + i]);
                if ps@.is_prefix_of(t) {
                    assert(t.subrange(0, ps@.len() as int)[i as int] == ps@[i as int]);
                }
            }
            return false;
        }
        i += 1;
    }
    assert(ps@ =~= cs@.skip(at as int).subrange(0, ps@.len() as int));
    true
}

/// `str::ends_with`.
pub fn ends_with(s: &str, p: &str) -> (r: bool)
    ensures
        r == p@.is_suffix_of(s@),
{
    let cs: Vec<char> = chars_of(s);
    let ps: Vec<char> = chars_of(p);
    if ps.len() > cs.len() {
        return false;
    }
    let at: usize = cs.len() - ps.len();
    let r: bool = is_at(&cs, &ps, at);
    proof {
        let t = cs@.skip(at as int);
        assert(t.subrange(0, ps@.len() as int) =~= t);
        assert(cs@.subrange((cs@.len() - ps@.len()) as int, cs@.len() as int) =~= t);
    }
    r
}

/// `str::strip_prefix`.
pub fn strip_prefix(s: &str, p: &str) -> (r: Option<String>)
    ensures
        r is Some <==> p@.is_prefix_of(s@),
        r matches Some(t) ==> t@ == s@.skip(p@.len() as int),
{
    let cs: Vec<char> = chars_of(s);
    let ps: Vec<char> = chars_of(p);
    if is_at(&cs, &ps, 0) {
        let t: String = string_of(&cs, ps.len(), cs.len());
        assert(t@ =~= s@.skip(p@.len() as int));
        Some(t)
    } else {
        None
    }
}

/// Whether `p` stands somewhere in `s`.
pub open spec fn has(s: Seq<char>, p: Seq<char>) -> bool {
    exists|i: int| 0 <= i <= s.len() && #[trigger] p.is_prefix_of(s.skip(i))
}

/// `str::contains` with a string.
pub fn contains(s: &str, p: &str) -> (r: bool)
    ensures
        r == has(s@, p@),
{
    let cs: Vec<char> = chars_of(s);
    let ps: Vec<char> = chars_of(p);
    let mut i: usize = 0;
    loop
        invariant
            i <= cs@.len(),
            cs@ == s@,
            ps@ == p@,
            forall|k: int| 0 <= k < i ==> !#[trigger] p@.is_prefix_of(s@.skip(k)),
        decreases cs@.len() - i,
    {
        if is_at(&cs, &ps, i) {
            return true;
        }
        if i == cs.len() {
            return false;
        }
        i += 1;
    }
}

/// `str::contains` with a character.
pub fn contains_char(s: &str, c: char) -> (r: bool)
    ensures
        r == s@.contains(c),
{
    let cs: Vec<char> = chars_of(s);
    let i: usize = find_char(&cs, c, 0);
    proof {
        assert(cs@.skip(0) =~= s@);
        lemma_index_of(s@, c);
    }
    i < cs.len()
}

/// Position of the first occurrence of `p` in `s` from `i` on; -1 where there is none.
pub open spec fn first_at(s: Seq<char>, p: Seq<char>, i: int) -> int
    decreases s.len() + 1 - i,
{
    if i > s.len() {
        -1
    } else if p.is_prefix_of(s.skip(i)) {
        i
    } else {
        first_at(s, p, i + 1)
    }
}

/// The two sides of the first occurrence of `p` in `s`.
pub open spec fn cut_str(s: Seq<char>, p: Seq<char>) -> Option<(Seq<char>, Seq<char>)> {
    let i = first_at(s, p, 0);
    if i >= 0 {
        Some((s.take(i), s.skip(i + p.len())))
    } else {
        None
    }
}

/// `str::split_once` with a string.
pub fn split_once_str(s: &str, p: &str) -> (r: Option<(String, String)>)
    ensures
        opt_pair(r) == cut_str(s@, p@),
{
    let cs: Vec<char> = chars_of(s);
    let ps: Vec<char> = chars_of(p);
    let n: usize = cs.len();
    let mut i: usize = 0;
    loop
        invariant
            i <= n == cs@.len(),
            cs@ == s@,
            ps@ == p@,
            first_at(s@, p@, 0) == first_at(s@, p@, i as int),
        decreases n - i,
    {
        if is_at(&cs, &ps, i) {
            let a: String = string_of(&cs, 0, i);
            let b: String = string_of(&cs, i + ps.len(), n);
            assert(a@ =~= s@.take(i as int));
            assert(b@ =~= s@.skip(i + p@.len()));
            return Some((a, b));
        }
        if i == n {
            assert(first_at(s@, p@, n + 1) == -1);
            return None;
        }
        i += 1;
    }
}

/// Position of the last occurrence of `p` in `s`; -1 where there is none.
pub open spec fn last_at(s: Seq<char>, p: Seq<char>, upto: int) -> int
    decreases upto + 1,
{
    if upto < 0 || p.is_prefix_of(s.skip(upto)) {
        if upto < 0 {
            -1
        } else {
            upto
        }
    } else {
        last_at(s, p, upto - 1)
    }
}

/// The two sides of the last occurrence of `p` in `s`.
pub open spec fn rcut_str(s: Seq<char>, p: Seq<char>) -> Option<(Seq<char>, Seq<char>)> {
    let i = last_at(s, p, s.len() as int);
    if i >= 0 {
        Some((s.take(i), s.skip(i + p.len())))
    } else {
        None
    }
}

/// `str::rsplit_once` with a string.
pub fn rsplit_once_str(s: &str, p: &str) -> (r: Option<(String, String)>)
    ensures
        opt_pair(r) == rcut_str(s@, p@),
{
    let cs: Vec<char> = chars_of(s);
    let ps: Vec<char> = chars_of(p);
    let mut i: usize = cs.len();
    loop
        invariant
            i <= cs@.len(),
            cs@ == s@,
            ps@ == p@,
            last_at(s@, p@, s@.len() as int) == last_at(s@, p@, i as int),
        decreases i,
    {
        if is_at(&cs, &ps, i) {
            let n: usize = cs.len();
            let a: String = string_of(&cs, 0, i);
            let b: String = string_of(&cs, i + ps.len(), n);
            assert(a@ =~= s@.take(i as int));
            assert(b@ =~= s@.skip(i + p@.len()));
            return Some((a, b));
        }
        if i == 0 {
            assert(last_at(s@, p@, -1) == -1);
            return None;
        }
        i -= 1;
    }
}

/// `s` with each character mapped by `f`.
pub open spec fn mapped(s: Seq<char>, f: spec_fn(char) -> Seq<char>) -> Seq<char>
    decreases s.len(),
{
    if s.len() == 0 {
        seq![]
    } else {
        mapped(s.drop_last(), f) + f(s.last())
    }
}

/// The map that puts `by` in the place of `x`.
pub open spec fn swap(x: char, by: Seq<char>) -> spec_fn(char) -> Seq<char> {
    |c: char|
        if c == x {
            by
        } else {
            seq![c]
        }
}

/// `str::replace` of one character.
pub fn replace_char(s: &str, x: char, by: &str) -> (r: String)
    ensures
        r@ == mapped(s@, swap(x, by@)),
{
    let cs: Vec<char> = chars_of(s);
    let mut out: String = String::new();
    let mut i: usize = 0;
    while i < cs.len()
        invariant
            i <= cs@.len(),
            cs@ == s@,
            out@ == mapped(s@.take(i as int), swap(x, by@)),
        decreases cs@.len() - i,
    {
        let ghost before = out@;
        if cs[i] == x {
            out.append(by);
        } else {
            out.push(cs[i]);
        }
        i += 1;
        proof {
            let t = s@.take(i as int);
            assert(t.drop_last() =~= s@.take(i - 1));
            assert(out@ =~= before + swap(x, by@)(t.last()));
        }
    }
    assert(s@.take(s@.len() as int) =~= s@);
    out
}

/// The pieces with `sep` between them.
pub open spec fn joined(v: Seq<Seq<char>>, sep: Seq<char>) -> Seq<char>
    decreases v.len(),
{
    if v.len() == 0 {
        seq![]
    } else if v.len() == 1 {
        v[0]
    } else {
        joined(v.drop_last(), sep) + sep + v.last()
    }
}

/// `[String]::join`.
pub fn join(v: &Vec<String>, sep: &str) -> (r: String)
    ensures
        r@ == joined(texts(v@), sep@),
{
    let mut out: String = String::new();
    let mut i: usize = 0;
    while i < v.len()
        invariant
            i <= v@.len(),
            out@ == joined(texts(v@).take(i as int), sep@),
        decreases v@.len() - i,
    {
        let ghost before = out@;
        if i > 0 {
            out.append(sep);
        }
        out.append(v[i].as_str());
        i += 1;
        proof {
            let t = texts(v@).take(i as int);
            assert(t.drop_last() =~= texts(v@).take(i - 1));
            assert(t.last() == v@[i - 1]@);
            if i == 1 {
                assert(before =~= seq![]);
                assert(out@ =~= t[0]);
            } else {
                assert(out@ =~= before + sep@ + t.last());
            }
        }
    }
    assert(texts(v@).take(v@.len() as int) =~= texts(v@));
    out
}

/// Whether the texts of `a` come first among those of `b`.
pub fn is_head(a: &Vec<String>, b: &Vec<String>) -> (r: bool)
    ensures
        r == texts(a@).is_prefix_of(texts(b@)),
{
    if a.len() > b.len() {
        assert(texts(a@).len() > texts(b@).len());
        return false;
    }
    let mut i: usize = 0;
    while i < a.len()
        invariant
            i <= a@.len() <= b@.len(),
            forall|k: int| 0 <= k < i ==> #[trigger] texts(a@)[k] == texts(b@)[k],
        decreases a@.len() - i,
    {
        assert(texts(a@)[i as int] == a@[i as int]@);
        assert(texts(b@)[i as int] == b@[i as int]@);
        if !same(a[i].as_str(), b[i].as_str()) {
            assert(texts(b@).subrange(0, a@.len() as int)[i as int] == texts(b@)[i as int]);
            return false;
        }
        i += 1;
    }
    assert(texts(a@) =~= texts(b@).subrange(0, a@.len() as int));
    true
}

/// Joining two lists of pieces is joining each and putting the separator between.
pub proof fn joining_goes_by_parts(a: Seq<Seq<char>>, b: Seq<Seq<char>>, sep: Seq<char>)
    requires
        a.len() > 0,
        b.len() > 0,
    ensures
        joined(a + b, sep) == joined(a, sep) + sep + joined(b, sep),
        joined(seq![a[0]], sep) == a[0],
    decreases b.len(),
{
    let c = a + b;
    assert(c.drop_last() =~= a + b.drop_last());
    assert(c.last() == b.last());
    if b.len() == 1 {
        assert(a + b.drop_last() =~= a);
        assert(joined(c, sep) =~= joined(a, sep) + sep + b[0]);
    } else {
        joining_goes_by_parts(a, b.drop_last(), sep);
        assert(joined(c, sep) =~= joined(a, sep) + sep + (joined(b.drop_last(), sep) + sep
            + b.last()));
    }
}

/// Each piece stands in what the pieces are joined to.
pub proof fn joined_holds_each(v: Seq<Seq<char>>, sep: Seq<char>, i: int)
    requires
        0 <= i < v.len(),
    ensures
        exists|a: Seq<char>, b: Seq<char>| joined(v, sep) == #[trigger] (a + v[i] + b),
{
    let none = Seq::<char>::empty();
    let one = seq![v[i]];
    let front = v.take(i);
    let back = v.skip(i + 1);
    let a = if i > 0 {
        joined(front, sep) + sep
    } else {
        none
    };
    let b = if back.len() > 0 {
        sep + joined(back, sep)
    } else {
        none
    };
    assert(joined(one, sep) == v[i]);
    if back.len() > 0 {
        joining_goes_by_parts(one, back, sep);
        if i > 0 {
            joining_goes_by_parts(front, one + back, sep);
            assert(front + (one + back) =~= v);
        } else {
            assert(one + back =~= v);
        }
    } else if i > 0 {
        joining_goes_by_parts(front, one, sep);
        assert(front + one =~= v);
    } else {
        assert(v =~= one);
    }
    assert(joined(v, sep) =~= a + v[i] + b);
}

// ---------------------------------------------------------------- how texts are taken apart

/// A text is cut at the first such character, which neither side keeps; from behind, at the last.
pub proof fn text_is_cut_once(a: Seq<char>, b: Seq<char>, c: char)
    ensures
        !a.contains(c) ==> cut(a.push(c) + b, c) == Some((a, b)),
        !b.contains(c) ==> rcut(a.push(c) + b, c) == Some((a, b)),
        !a.contains(c) ==> cut(a, c) is None && rcut(a, c) is None,
{
    let s = a.push(c) + b;
    let n = a.len() as int;
    assert(s.take(n) =~= a);
    assert(s.skip(n + 1) =~= b);
    if !a.contains(c) {
        assert forall|k: int| 0 <= k < n implies #[trigger] s[k] != c && a[k] != c by {
            assert(s[k] == a[k]);
            assert(a.contains(a[k]));
        }
        lemma_index_is(s, c, n);
        lemma_index_is(a, c, n);
        lemma_last_index_of(a, c);
        if last_index_of(a, c) >= 0 {
            assert(a.contains(a[last_index_of(a, c)]));
        }
    }
    if !b.contains(c) {
        assert forall|k: int| n < k < s.len() implies #[trigger] s[k] != c by {
            assert(s[k] == b[k - n - 1]);
            assert(b.contains(b[k - n - 1]));
        }
        lemma_last_index_is(s, c, n);
    }
}

/// A text is cut at the first place where another stands in it, and from behind at the last.
pub proof fn text_is_cut_at_a_text(a: Seq<char>, p: Seq<char>, b: Seq<char>)
    ensures
        (forall|i: int| 0 <= i < a.len() ==> !p.is_prefix_of(#[trigger] (a + p + b).skip(i))) ==> cut_str(
            a + p + b,
            p,
        ) == Some((a, b)),
        (forall|i: int| a.len() < i <= (a + p + b).len() ==> !p.is_prefix_of(
            #[trigger] (a + p + b).skip(i),
        )) ==> rcut_str(a + p + b, p) == Some((a, b)),
        !(has(a, p)) ==> cut_str(a, p) is None && rcut_str(a, p) is None,
{
    let s = a + p + b;
    let n = a.len() as int;
    assert(s.skip(n) =~= p + b);
    assert((p + b).subrange(0, p.len() as int) =~= p);
    assert(p.is_prefix_of(s.skip(n)));
    assert(s.take(n) =~= a);
    assert(s.skip(n + p.len()) =~= b);
    if forall|i: int| 0 <= i < a.len() ==> !p.is_prefix_of(#[trigger] s.skip(i)) {
        lemma_first_at_is(s, p, 0, n);
    }
    if forall|i: int| a.len() < i <= s.len() ==> !p.is_prefix_of(#[trigger] s.skip(i)) {
        lemma_last_at_is(s, p, s.len() as int, n);
    }
    if !(has(a, p)) {
        assert forall|i: int| 0 <= i <= a.len() implies !p.is_prefix_of(#[trigger] a.skip(i)) by {
        }
        lemma_first_at_none(a, p, 0);
        lemma_last_at_is(a, p, a.len() as int, -1);
    }
}

proof fn lemma_first_at_is(s: Seq<char>, p: Seq<char>, from: int, n: int)
    requires
        0 <= from <= n <= s.len(),
        p.is_prefix_of(s.skip(n)),
        forall|i: int| from <= i < n ==> !p.is_prefix_of(#[trigger] s.skip(i)),
    ensures
        first_at(s, p, from) == n,
    decreases n - from,
{
    if from < n {
        assert(!p.is_prefix_of(s.skip(from)));
        lemma_first_at_is(s, p, from + 1, n);
    }
}

proof fn lemma_first_at_none(s: Seq<char>, p: Seq<char>, from: int)
    requires
        0 <= from,
        forall|i: int| from <= i <= s.len() ==> !p.is_prefix_of(#[trigger] s.skip(i)),
    ensures
        first_at(s, p, from) == -1,
    decreases s.len() + 1 - from,
{
    if from <= s.len() {
        assert(!p.is_prefix_of(s.skip(from)));
        lemma_first_at_none(s, p, from + 1);
    }
}

proof fn lemma_last_at_is(s: Seq<char>, p: Seq<char>, upto: int, n: int)
    requires
        -1 <= n <= upto <= s.len(),
        n >= 0 ==> p.is_prefix_of(s.skip(n)),
        forall|i: int| n < i <= upto ==> !p.is_prefix_of(#[trigger] s.skip(i)),
    ensures
        last_at(s, p, upto) == n,
    decreases upto - n,
{
    if n < upto {
        assert(!p.is_prefix_of(s.skip(upto)));
        lemma_last_at_is(s, p, upto - 1, n);
    }
}

/// Each character is replaced by itself, or by the other text where it is the one to replace.
pub proof fn characters_are_replaced_one_by_one(s: Seq<char>, c: char, x: char, by: Seq<char>)
    ensures
        c == x ==> mapped(s.push(c), swap(x, by)) == mapped(s, swap(x, by)) + by,
        c != x ==> mapped(s.push(c), swap(x, by)) == mapped(s, swap(x, by)).push(c),
        mapped(Seq::empty(), swap(x, by)).len() == 0,
{
    assert(s.push(c).drop_last() =~= s);
    assert(mapped(s, swap(x, by)) + seq![c] =~= mapped(s, swap(x, by)).push(c));
}

/// A text that ends in a line feed has the line before it, without a carriage return there, and then the
/// lines that follow; what is left without one is a line, unless it is nothing.
pub proof fn lines_end_at_line_feeds(a: Seq<char>, rest: Seq<char>)
    requires
        !a.contains('\n'),
    ensures
        a.len() == 0 || a.last() != '\r' ==> lines_of(a.push('\n') + rest) == seq![a] + lines_of(rest),
        lines_of(a.push('\r').push('\n') + rest) == seq![a] + lines_of(rest),
        a.len() > 0 ==> lines_of(a) == seq![a],
        lines_of(Seq::empty()).len() == 0,
{
    let s = a.push('\n') + rest;
    let n = a.len() as int;
    assert forall|k: int| 0 <= k < n implies #[trigger] a[k] != '\n' by {
        assert(a.contains(a[k]));
    }
    assert forall|k: int| 0 <= k < n implies #[trigger] s[k] != '\n' by {
        assert(s[k] == a[k]);
    }
    lemma_index_is(s, '\n', n);
    assert(s.take(n) =~= a);
    assert(s.skip(n + 1) =~= rest);
    lemma_index_is(a, '\n', n);
    let b = a.push('\r');
    let t = b.push('\n') + rest;
    assert forall|k: int| 0 <= k < n + 1 implies #[trigger] t[k] != '\n' by {
        assert(t[k] == b[k]);
    }
    lemma_index_is(t, '\n', n + 1);
    assert(t.take(n + 1) =~= b);
    assert(b.drop_last() =~= a);
    assert(t.skip(n + 2) =~= rest);
}

/// Words are what stands between white space, however much of it.
pub proof fn words_stand_between_white_space(before: Seq<char>, word: Seq<char>, rest: Seq<char>)
    requires
        forall|k: int| 0 <= k < before.len() ==> crate::text::white(#[trigger] before[k]),
        word.len() > 0,
        forall|k: int| 0 <= k < word.len() ==> !crate::text::white(#[trigger] word[k]),
        rest.len() > 0 ==> crate::text::white(rest[0]),
    ensures
        words_of(before + word + rest) == seq![word] + words_of(rest),
        words_of(before).len() == 0,
{
    let s = before + word + rest;
    let n = before.len();
    assert forall|k: int| 0 <= k < n implies whites()(#[trigger] s[k]) by {
        assert(s[k] == before[k]);
    }
    assert(s[n as int] == word[0]);
    crate::text::lemma_lead_is(s, whites(), n);
    let t = s.skip(n as int);
    assert(t =~= word + rest);
    assert forall|k: int| 0 <= k < word.len() implies blacks()(#[trigger] t[k]) by {
        assert(t[k] == word[k]);
    }
    if rest.len() > 0 {
        assert(t[word.len() as int] == rest[0]);
    }
    crate::text::lemma_lead_is(t, blacks(), word.len());
    assert(t.take(word.len() as int) =~= word);
    assert(t.skip(word.len() as int) =~= rest);
    crate::text::lemma_lead_is(before, whites(), n);
    assert(before.skip(n as int).len() == 0);
}

} // verus!
