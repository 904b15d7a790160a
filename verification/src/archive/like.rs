//! Patterns with wildcards, as SQL's `LIKE` reads them.
//!
//! `%` stands for any characters, `_` for one; letters match in either case of ASCII; behind an
//! escape character stands the character itself.

use crate::split::has;
use crate::text::{chars_of, lower, lower_char, lowered};
use vstd::prelude::*;

verus! {

/// What a place of a pattern stands for; a character is its code in lower case.
#[derive(Clone, Copy, PartialEq, Eq, Debug, Structural)]
pub enum Tok {
    Any,
    One,
    Lit(u32),
}

/// What a pattern stands for; nothing where it ends in an escape character.
pub open spec fn tokens(p: Seq<char>, esc: Option<char>) -> Option<Seq<Tok>>
    decreases p.len(),
{
    if p.len() == 0 {
        Some(seq![])
    } else {
        let escaped = esc == Some(p[0]);
        if escaped && p.len() == 1 {
            None
        } else {
            let head = if escaped {
                Tok::Lit(lower(p[1]) as u32)
            } else if p[0] == '%' {
                Tok::Any
            } else if p[0] == '_' {
                Tok::One
            } else {
                Tok::Lit(lower(p[0]) as u32)
            };
            let rest = tokens(
                p.skip(
                    if escaped {
                        2
                    } else {
                        1
                    },
                ),
                esc,
            );
            match rest {
                Some(t) => Some(seq![head] + t),
                None => None,
            }
        }
    }
}

/// Whether a text is of the form that the places stand for.
pub open spec fn matched(t: Seq<Tok>, s: Seq<char>) -> bool
    decreases t.len(), s.len(),
{
    if t.len() == 0 {
        s.len() == 0
    } else {
        match t[0] {
            Tok::Any => matched(t.skip(1), s) || (s.len() > 0 && matched(t, s.skip(1))),
            Tok::One => s.len() > 0 && matched(t.skip(1), s.skip(1)),
            Tok::Lit(c) => s.len() > 0 && lower(s[0]) as u32 == c && matched(t.skip(1), s.skip(1)),
        }
    }
}

/// Whether a text matches a pattern.
pub open spec fn like(p: Seq<char>, s: Seq<char>, esc: Option<char>) -> bool {
    match tokens(p, esc) {
        Some(t) => matched(t, s),
        None => false,
    }
}

/// A text with an escape character before each character that a pattern would read otherwise.
pub open spec fn escaped(s: Seq<char>) -> Seq<char>
    decreases s.len(),
{
    if s.len() == 0 {
        seq![]
    } else if special(s.last()) {
        escaped(s.drop_last()).push('\\').push(s.last())
    } else {
        escaped(s.drop_last()).push(s.last())
    }
}

/// Whether a pattern reads a character otherwise.
pub open spec fn special(c: char) -> bool {
    c == '%' || c == '_' || c == '\\'
}

/// A text with an escape character before each character that a pattern would read otherwise.
pub fn escape_like(s: &str) -> (r: String)
    ensures
        r@ == escaped(s@),
{
    let cs: Vec<char> = chars_of(s);
    let mut out: String = String::new();
    let mut i: usize = 0;
    while i < cs.len()
        invariant
            i <= cs@.len(),
            cs@ == s@,
            out@ == escaped(s@.take(i as int)),
        decreases cs@.len() - i,
    {
        let c: char = cs[i];
        if c == '%' || c == '_' || c == '\\' {
            out.push('\\');
        }
        out.push(c);
        i += 1;
        assert(s@.take(i as int).drop_last() =~= s@.take(i - 1));
    }
    assert(s@.take(s@.len() as int) =~= s@);
    out
}

/// A character for itself.
pub open spec fn literal(c: char) -> Tok {
    Tok::Lit(lower(c) as u32)
}

/// Each character for itself.
pub open spec fn literals(s: Seq<char>) -> Seq<Tok> {
    Seq::new(s.len(), |i: int| literal(s[i]))
}

proof fn lemma_tokens_append(s: Seq<char>, rest: Seq<char>)
    requires
        tokens(rest, Some('\\')) is Some,
    ensures
        tokens(escaped(s) + rest, Some('\\')) == Some(
            literals(s) + tokens(rest, Some('\\'))->0,
        ),
    decreases s.len(),
{
    let e = Some('\\');
    if s.len() == 0 {
        assert(escaped(s) + rest =~= rest);
        assert(literals(s) + tokens(rest, e)->0 =~= tokens(rest, e)->0);
    } else {
        let t = s.drop_last();
        let c = s.last();
        let tail = if special(c) {
            seq!['\\', c] + rest
        } else {
            seq![c] + rest
        };
        assert(tokens(tail, e) == Some(seq![literal(c)] + tokens(rest, e)->0)) by {
            if special(c) {
                assert(tail.skip(2) =~= rest);
            } else {
                assert(tail.skip(1) =~= rest);
            }
        }
        lemma_tokens_append(t, tail);
        assert(escaped(s) + rest =~= escaped(t) + tail);
        assert(literals(t) + (seq![literal(c)] + tokens(rest, e)->0) =~= literals(s) + tokens(
            rest,
            e,
        )->0);
    }
}

proof fn lemma_any_end(s: Seq<char>)
    ensures
        matched(seq![Tok::Any], s),
    decreases s.len(),
{
    let t = seq![Tok::Any];
    assert(t.skip(1) =~= seq![]);
    if s.len() == 0 {
        assert(matched(t.skip(1), s));
    } else {
        lemma_any_end(s.skip(1));
    }
}

proof fn lemma_literals_then_any(q: Seq<char>, s: Seq<char>)
    ensures
        matched(literals(q) + seq![Tok::Any], s) == lowered(q).is_prefix_of(lowered(s)),
    decreases q.len(),
{
    let t = literals(q) + seq![Tok::Any];
    if q.len() == 0 {
        assert(t =~= seq![Tok::Any]);
        lemma_any_end(s);
        assert(lowered(q) =~= lowered(s).subrange(0, 0));
    } else {
        assert(t.skip(1) =~= literals(q.skip(1)) + seq![Tok::Any]);
        assert(t[0] == literal(q[0]));
        if s.len() > 0 {
            lemma_literals_then_any(q.skip(1), s.skip(1));
            let a = lowered(q);
            let b = lowered(s);
            assert(lowered(q.skip(1)) =~= a.skip(1));
            assert(lowered(s.skip(1)) =~= b.skip(1));
            if a.is_prefix_of(b) {
                assert(b.subrange(0, a.len() as int)[0] == a[0]);
                assert(a.skip(1) =~= b.skip(1).subrange(0, a.len() - 1));
            }
            if a[0] == b[0] && a.skip(1).is_prefix_of(b.skip(1)) {
                assert(a =~= b.subrange(0, a.len() as int)) by {
                    assert forall|i: int| 0 <= i < a.len() implies a[i] == b.subrange(
                        0,
                        a.len() as int,
                    )[i] by {
                        if i > 0 {
                            assert(a.skip(1)[i - 1] == b.skip(1).subrange(0, a.len() - 1)[i - 1]);
                        }
                    }
                }
            }
        }
    }
}

proof fn lemma_any_first(q: Seq<char>, s: Seq<char>)
    ensures
        matched(seq![Tok::Any] + (literals(q) + seq![Tok::Any]), s) == has(lowered(s), lowered(q)),
    decreases s.len(),
{
    let inner = literals(q) + seq![Tok::Any];
    let t = seq![Tok::Any] + inner;
    let a = lowered(q);
    let b = lowered(s);
    assert(t.skip(1) =~= inner);
    lemma_literals_then_any(q, s);
    assert(b.skip(0) =~= b);
    if s.len() > 0 {
        lemma_any_first(q, s.skip(1));
        let b1 = lowered(s.skip(1));
        assert(b1 =~= b.skip(1));
        if has(b1, a) {
            let i = choose|i: int| 0 <= i <= b1.len() && #[trigger] a.is_prefix_of(b1.skip(i));
            assert(b1.skip(i) =~= b.skip(i + 1));
            assert(a.is_prefix_of(b.skip(i + 1)));
        }
    }
    if a.is_prefix_of(b) {
        assert(a.is_prefix_of(b.skip(0)));
    }
    if has(b, a) {
        let i = choose|i: int| 0 <= i <= b.len() && #[trigger] a.is_prefix_of(b.skip(i));
        if i > 0 {
            let b1 = lowered(s.skip(1));
            assert(b1.skip(i - 1) =~= b.skip(i));
            assert(a.is_prefix_of(b1.skip(i - 1)));
        }
    }
}

/// A text matches `%` + an escaped text + `%` exactly where it holds that text, in either case:
/// no character of the text acts as a wildcard.
pub proof fn escaped_pattern_finds_the_text(q: Seq<char>, s: Seq<char>)
    ensures
        like(seq!['%'] + escaped(q) + seq!['%'], s, Some('\\')) == has(lowered(s), lowered(q)),
{
    let e = Some('\\');
    let end = seq!['%'];
    assert(end.skip(1) =~= seq![]);
    assert(tokens(end, e) == Some(seq![Tok::Any])) by {
        assert(tokens(end.skip(1), e) == Some(Seq::<Tok>::empty()));
        assert(seq![Tok::Any] + Seq::<Tok>::empty() =~= seq![Tok::Any]);
    }
    lemma_tokens_append(q, end);
    let p = seq!['%'] + escaped(q) + end;
    assert(p.skip(1) =~= escaped(q) + end);
    assert(p[0] == '%');
    assert(tokens(p, e) == Some(seq![Tok::Any] + (literals(q) + seq![Tok::Any])));
    lemma_any_first(q, s);
}

/// What a pattern stands for.
fn read_tokens(p: &Vec<char>, esc: Option<char>) -> (r: Option<Vec<Tok>>)
    ensures
        match r {
            Some(t) => tokens(p@, esc) == Some(t@),
            None => tokens(p@, esc) is None,
        },
{
    let mut out: Vec<Tok> = Vec::new();
    let mut i: usize = 0;
    assert(p@.skip(0) =~= p@);
    let n: usize = p.len();
    while i < n
        invariant
            i <= n == p@.len(),
            match tokens(p@.skip(i as int), esc) {
                Some(t) => tokens(p@, esc) == Some(out@ + t),
                None => tokens(p@, esc) is None,
            },
        decreases n - i,
    {
        let ghost rest = p@.skip(i as int);
        let c: char = p[i];
        assert(rest[0] == c);
        let is_esc: bool = match esc {
            Some(e) => e == c,
            None => false,
        };
        let ghost before = out@;
        if is_esc {
            if i + 1 == n {
                return None;
            }
            assert(rest[1] == p@[i + 1]);
            assert(rest.skip(2) =~= p@.skip(i + 2));
            let t: Tok = Tok::Lit(lower_char(p[i + 1]) as u32);
            out.push(t);
            proof {
                if let Some(u) = tokens(p@.skip(i + 2), esc) {
                    assert(before + (seq![t] + u) =~= out@ + u);
                }
            }
            i += 2;
        } else {
            let t: Tok = if c == '%' {
                Tok::Any
            } else if c == '_' {
                Tok::One
            } else {
                Tok::Lit(lower_char(c) as u32)
            };
            assert(rest.skip(1) =~= p@.skip(i + 1));
            out.push(t);
            proof {
                if let Some(u) = tokens(p@.skip(i + 1), esc) {
                    assert(before + (seq![t] + u) =~= out@ + u);
                }
            }
            i += 1;
        }
    }
    assert(p@.skip(i as int) =~= seq![]);
    assert(out@ + Seq::<Tok>::empty() =~= out@);
    Some(out)
}

/// Whether a text is of the form that the places stand for.
fn check_matched(t: &Vec<Tok>, s: &Vec<char>) -> (r: bool)
    ensures
        r == matched(t@, s@),
{
    let n: usize = s.len();
    // `row[k]` tells whether the last `k` characters match the places from `j` on.
    let mut row: Vec<bool> = Vec::new();
    let mut k: usize = 0;
    let mut j: usize = t.len();
    row.push(true);
    assert(t@.skip(t@.len() as int) =~= seq![]);
    assert(s@.skip(n as int) =~= seq![]);
    while k < n
        invariant
            k <= n == s@.len(),
            j == t@.len(),
            t@.skip(j as int) == Seq::<Tok>::empty(),
            row@.len() == k + 1,
            forall|q: int|
                0 <= q <= k ==> #[trigger] row@[q] == matched(t@.skip(j as int), s@.skip(n - q)),
        decreases n - k,
    {
        row.push(false);
        k += 1;
    }
    while j > 0
        invariant
            j <= t@.len(),
            n == s@.len(),
            row@.len() == n + 1,
            forall|q: int|
                0 <= q <= n ==> #[trigger] row@[q] == matched(t@.skip(j as int), s@.skip(n - q)),
        decreases j,
    {
        let ghost rest = t@.skip(j - 1);
        assert(rest.skip(1) =~= t@.skip(j as int));
        let tok: Tok = t[j - 1];
        assert(rest[0] == tok);
        let mut next: Vec<bool> = Vec::new();
        let mut q: usize = 0;
        while next.len() <= n
            invariant
                0 < j <= t@.len(),
                n == s@.len(),
                q <= n + 1,
                row@.len() == n + 1,
                rest == t@.skip(j - 1),
                rest.skip(1) == t@.skip(j as int),
                rest[0] == tok,
                forall|x: int|
                    0 <= x <= n ==> #[trigger] row@[x] == matched(
                        t@.skip(j as int),
                        s@.skip(n - x),
                    ),
                next@.len() == q,
                forall|x: int|
                    0 <= x < q ==> #[trigger] next@[x] == matched(rest, s@.skip(n - x)),
            decreases n + 1 - q,
        {
            let ghost u = s@.skip(n - q);
            if q > 0 {
                assert(u.skip(1) =~= s@.skip(n - (q - 1)));
                assert(u[0] == s@[n - q]);
            }
            let b: bool = match tok {
                Tok::Any => row[q] || (q > 0 && next[q - 1]),
                Tok::One => q > 0 && row[q - 1],
                Tok::Lit(c) => q > 0 && lower_char(s[n - q]) as u32 == c && row[q - 1],
            };
            assert(b == matched(rest, u));
            next.push(b);
            q = next.len();
        }
        row = next;
        j -= 1;
    }
    assert(t@.skip(0) =~= t@);
    assert(s@.skip(0) =~= s@);
    row[n]
}

/// Whether a text matches a pattern.
pub fn is_like(p: &str, s: &str, esc: Option<char>) -> (r: bool)
    ensures
        r == like(p@, s@, esc),
{
    match read_tokens(&chars_of(p), esc) {
        Some(t) => check_matched(&t, &chars_of(s)),
        None => false,
    }
}

proof fn lemma_tokens_plain(q: Seq<char>)
    requires
        !q.contains('%'),
    ensures
        tokens(q + seq!['%'], None) is Some,
        ({
            let t = tokens(q + seq!['%'], None)->0;
            &&& t.len() == q.len() + 1
            &&& t.last() == Tok::Any
            &&& forall|i: int|
                0 <= i < q.len() ==> #[trigger] t[i] == if q[i] == '_' {
                    Tok::One
                } else {
                    literal(q[i])
                }
        }),
    decreases q.len(),
{
    let p = q + seq!['%'];
    if q.len() == 0 {
        assert(p =~= seq!['%']);
        assert(p.skip(1) =~= seq![]);
        assert(tokens(p.skip(1), None) == Some(Seq::<Tok>::empty()));
    } else {
        let r = q.skip(1);
        assert(!r.contains('%')) by {
            if r.contains('%') {
                let k = choose|k: int| 0 <= k < r.len() && r[k] == '%';
                assert(q[k + 1] == '%');
            }
        }
        assert(q.contains(q[0]));
        lemma_tokens_plain(r);
        assert(p.skip(1) =~= r + seq!['%']);
        let t = tokens(p, None)->0;
        let u = tokens(p.skip(1), None)->0;
        assert forall|i: int| 0 <= i < q.len() implies #[trigger] t[i] == if q[i] == '_' {
            Tok::One
        } else {
            literal(q[i])
        } by {
            if i > 0 {
                assert(t[i] == u[i - 1]);
                assert(r[i - 1] == q[i]);
            }
        }
    }
}

/// A pattern that ends with a percent sign, and holds no other, finds what begins with it.
pub proof fn pattern_finds_what_begins_with_it(q: Seq<char>, rest: Seq<char>)
    requires
        !q.contains('%'),
    ensures
        like(q + seq!['%'], q + rest, None),
{
    lemma_tokens_plain(q);
    lemma_own_text(tokens(q + seq!['%'], None)->0, q, rest);
}

proof fn lemma_own_text(t: Seq<Tok>, q: Seq<char>, rest: Seq<char>)
    requires
        t.len() == q.len() + 1,
        t.last() == Tok::Any,
        forall|i: int|
            0 <= i < q.len() ==> #[trigger] t[i] == if q[i] == '_' {
                Tok::One
            } else {
                literal(q[i])
            },
    ensures
        matched(t, q + rest),
    decreases q.len(),
{
    let s = q + rest;
    if q.len() == 0 {
        assert(t =~= seq![Tok::Any]);
        lemma_any_end(s);
    } else {
        let u = t.skip(1);
        let r = q.skip(1);
        assert forall|i: int| 0 <= i < r.len() implies #[trigger] u[i] == if r[i] == '_' {
            Tok::One
        } else {
            literal(r[i])
        } by {
            assert(u[i] == t[i + 1]);
        }
        lemma_own_text(u, r, rest);
        assert(s.skip(1) =~= r + rest);
        assert(t[0] == if q[0] == '_' {
            Tok::One
        } else {
            literal(q[0])
        });
    }
}

/// A pattern without wildcards that ends with a percent sign finds nothing else: what it finds begins
/// with it, in either case.
pub proof fn plain_pattern_finds_nothing_else(q: Seq<char>, s: Seq<char>)
    requires
        !q.contains('%'),
        !q.contains('_'),
    ensures
        like(q + seq!['%'], s, None) <==> lowered(q).is_prefix_of(lowered(s)),
{
    lemma_tokens_plain(q);
    let t = tokens(q + seq!['%'], None)->0;
    assert forall|i: int| 0 <= i < q.len() implies #[trigger] t[i] == literal(q[i]) by {
        assert(q.contains(q[i]));
    }
    assert(t =~= literals(q) + seq![Tok::Any]);
    lemma_literals_then_any(q, s);
}

/// A pattern that begins with a percent sign, and holds no other, finds what ends with it.
pub proof fn pattern_finds_what_ends_with_it(before: Seq<char>, q: Seq<char>)
    requires
        !q.contains('%'),
    ensures
        like(seq!['%'] + q, before + q, None),
{
    let p = seq!['%'] + q;
    assert(p.skip(1) =~= q);
    lemma_tokens_bare(q);
    let t = tokens(q, None)->0;
    let u = tokens(p, None)->0;
    assert(u =~= seq![Tok::Any] + t);
    lemma_bare_text(t, q);
    lemma_any_before(u, t, before, q);
}

proof fn lemma_tokens_bare(q: Seq<char>)
    requires
        !q.contains('%'),
    ensures
        tokens(q, None) is Some,
        tokens(q, None)->0.len() == q.len(),
        forall|i: int|
            0 <= i < q.len() ==> #[trigger] tokens(q, None)->0[i] == if q[i] == '_' {
                Tok::One
            } else {
                literal(q[i])
            },
    decreases q.len(),
{
    if q.len() > 0 {
        let r = q.skip(1);
        assert(!r.contains('%')) by {
            if r.contains('%') {
                let k = choose|k: int| 0 <= k < r.len() && r[k] == '%';
                assert(q[k + 1] == '%');
            }
        }
        assert(q.contains(q[0]));
        lemma_tokens_bare(r);
        let t = tokens(q, None)->0;
        let u = tokens(r, None)->0;
        assert forall|i: int| 0 <= i < q.len() implies #[trigger] t[i] == if q[i] == '_' {
            Tok::One
        } else {
            literal(q[i])
        } by {
            if i > 0 {
                assert(t[i] == u[i - 1]);
                assert(r[i - 1] == q[i]);
            }
        }
    }
}

proof fn lemma_bare_text(t: Seq<Tok>, q: Seq<char>)
    requires
        t.len() == q.len(),
        forall|i: int|
            0 <= i < q.len() ==> #[trigger] t[i] == if q[i] == '_' {
                Tok::One
            } else {
                literal(q[i])
            },
    ensures
        matched(t, q),
    decreases q.len(),
{
    if q.len() > 0 {
        let u = t.skip(1);
        let r = q.skip(1);
        assert forall|i: int| 0 <= i < r.len() implies #[trigger] u[i] == if r[i] == '_' {
            Tok::One
        } else {
            literal(r[i])
        } by {
            assert(u[i] == t[i + 1]);
        }
        lemma_bare_text(u, r);
        assert(t[0] == if q[0] == '_' {
            Tok::One
        } else {
            literal(q[0])
        });
    }
}

proof fn lemma_any_before(u: Seq<Tok>, t: Seq<Tok>, before: Seq<char>, q: Seq<char>)
    requires
        u == seq![Tok::Any] + t,
        matched(t, q),
    ensures
        matched(u, before + q),
    decreases before.len(),
{
    assert(u.skip(1) =~= t);
    if before.len() == 0 {
        assert(before + q =~= q);
    } else {
        lemma_any_before(u, t, before.skip(1), q);
        assert((before + q).skip(1) =~= before.skip(1) + q);
    }
}

} // verus!
