//! Character sequences: the string operations the rest of the library is built from.
//!
//! A string is modelled by the sequence of its characters, `s@`. Each operation has a
//! specification function on such sequences and an executable function proved against it.

use vstd::prelude::*;

verus! {

/// `String::push` appends one character.
pub assume_specification[ String::push ](s: &mut String, c: char)
    ensures
        final(s)@ == old(s)@.push(c),
;

/// `<str as PartialEq>::eq` compares two strings character by character.
pub assume_specification[ <str as PartialEq>::eq ](a: &str, b: &str) -> (r: bool)
    ensures
        r == (a@ == b@),
;

/// The character sequences of a list of strings.
pub open spec fn texts(v: Seq<String>) -> Seq<Seq<char>> {
    Seq::new(v.len(), |i: int| v[i]@)
}

/// The character sequence of an optional string.
pub open spec fn opt_text(o: Option<String>) -> Option<Seq<char>> {
    match o {
        Some(s) => Some(s@),
        None => None,
    }
}

pub proof fn lemma_texts_push(v: Seq<String>, s: String)
    ensures
        texts(v.push(s)) == texts(v).push(s@),
{
    assert(texts(v.push(s)) =~= texts(v).push(s@));
}

/// The characters of a string, one by one.
pub fn chars_of(s: &str) -> (r: Vec<char>)
    ensures
        r@ == s@,
{
    let mut out: Vec<char> = Vec::new();
    for c in it: s.chars()
        invariant
            out@ == s@.take(it.index() as int),
            it.seq() == s@,
    {
        proof {
            assert(s@.take(it.index() + 1) =~= s@.take(it.index() as int).push(c));
        }
        out.push(c);
    }
    assert(s@.take(s@.len() as int) =~= s@);
    out
}

/// The string made of the characters `cs[from..to]`.
pub fn string_of(cs: &Vec<char>, from: usize, to: usize) -> (r: String)
    requires
        from <= to <= cs@.len(),
    ensures
        r@ == cs@.subrange(from as int, to as int),
{
    let mut out: String = String::new();
    let mut i: usize = from;
    while i < to
        invariant
            from <= i <= to <= cs@.len(),
            out@ == cs@.subrange(from as int, i as int),
        decreases to - i,
    {
        out.push(cs[i]);
        i += 1;
        assert(cs@.subrange(from as int, i as int) =~= cs@.subrange(from as int, i - 1).push(
            cs@[i - 1],
        ));
    }
    out
}

/// Whether two strings hold the same characters.
pub fn same(a: &str, b: &str) -> (r: bool)
    ensures
        r == (a@ == b@),
{
    a.eq(b)
}

/// An owned copy of a string.
pub fn copy(a: &str) -> (r: String)
    ensures
        r@ == a@,
{
    a.to_owned()
}

/// An owned copy of an optional string.
pub fn copy_opt(a: &Option<String>) -> (r: Option<String>)
    ensures
        opt_text(r) == opt_text(*a),
{
    match a {
        Some(s) => Some(copy(s.as_str())),
        None => None,
    }
}

/// The first of two values, where there is one.
pub open spec fn first_of<A>(a: Option<A>, b: Option<A>) -> Option<A> {
    if a is Some {
        a
    } else {
        b
    }
}

/// An owned copy of the first of two optional strings.
pub fn copy_first(a: &Option<String>, b: &Option<String>) -> (r: Option<String>)
    ensures
        opt_text(r) == first_of(opt_text(*a), opt_text(*b)),
{
    match a {
        Some(s) => Some(copy(s.as_str())),
        None => copy_opt(b),
    }
}

/// Whether two optional strings are the same.
pub fn same_opt(a: &Option<String>, b: &Option<String>) -> (r: bool)
    ensures
        r == (opt_text(*a) == opt_text(*b)),
{
    match (a, b) {
        (Some(x), Some(y)) => same(x.as_str(), y.as_str()),
        (None, None) => true,
        _ => false,
    }
}

/// Owned copies of a list of strings.
pub fn copy_all(v: &Vec<String>) -> (r: Vec<String>)
    ensures
        texts(r@) == texts(v@),
{
    let mut out: Vec<String> = Vec::new();
    let mut i: usize = 0;
    while i < v.len()
        invariant
            i <= v@.len(),
            out@.len() == i,
            forall|k: int| 0 <= k < i ==> (#[trigger] out@[k])@ == v@[k]@,
        decreases v@.len() - i,
    {
        out.push(copy(v[i].as_str()));
        i += 1;
    }
    assert(texts(out@) =~= texts(v@));
    out
}

/// Whether `v` holds a string with the characters of `s`.
pub fn in_list(v: &Vec<String>, s: &str) -> (r: bool)
    ensures
        r == texts(v@).contains(s@),
{
    let mut i: usize = 0;
    while i < v.len()
        invariant
            i <= v@.len(),
            forall|k: int| 0 <= k < i ==> texts(v@)[k] != s@,
        decreases v@.len() - i,
    {
        if same(v[i].as_str(), s) {
            assert(texts(v@)[i as int] == s@);
            return true;
        }
        assert(texts(v@)[i as int] != s@);
        i += 1;
    }
    false
}

// ---------------------------------------------------------------- characters

/// Unicode's White_Space property.
pub open spec fn white(c: char) -> bool {
    let n = c as u32;
    ||| 9 <= n <= 13
    ||| n == 0x20
    ||| n == 0x85
    ||| n == 0xa0
    ||| n == 0x1680
    ||| 0x2000 <= n <= 0x200a
    ||| n == 0x2028
    ||| n == 0x2029
    ||| n == 0x202f
    ||| n == 0x205f
    ||| n == 0x3000
}

/// Whether a character is white space.
pub fn is_white(c: char) -> (r: bool)
    ensures
        r == white(c),
{
    let n: u32 = c as u32;
    (9 <= n && n <= 13) || n == 0x20 || n == 0x85 || n == 0xa0 || n == 0x1680 || (0x2000 <= n && n
        <= 0x200a) || n == 0x2028 || n == 0x2029 || n == 0x202f || n == 0x205f || n == 0x3000
}

/// An ASCII letter in lower case; any other character as it is.
pub open spec fn lower(c: char) -> char {
    if 'A' <= c <= 'Z' {
        (c as u32 + 32) as char
    } else {
        c
    }
}

/// Each character in ASCII lower case.
pub open spec fn lowered(s: Seq<char>) -> Seq<char> {
    Seq::new(s.len(), |i: int| lower(s[i]))
}

/// A character in ASCII lower case.
pub fn lower_char(c: char) -> (r: char)
    ensures
        r == lower(c),
{
    if 'A' <= c && c <= 'Z' {
        let b: u8 = c as u8;
        (b + 32) as char
    } else {
        c
    }
}

/// A string in ASCII lower case.
pub fn to_lower(s: &str) -> (r: String)
    ensures
        r@ == lowered(s@),
{
    let cs: Vec<char> = chars_of(s);
    let mut out: String = String::new();
    let mut i: usize = 0;
    while i < cs.len()
        invariant
            i <= cs@.len(),
            cs@ == s@,
            out@ == lowered(s@.take(i as int)),
        decreases cs@.len() - i,
    {
        out.push(lower_char(cs[i]));
        i += 1;
        assert(lowered(s@.take(i as int)) =~= lowered(s@.take(i - 1)).push(lower(s@[i - 1])));
    }
    assert(s@.take(s@.len() as int) =~= s@);
    out
}

// ---------------------------------------------------------------- trimming

/// How many characters at the front satisfy `p`.
pub open spec fn lead(s: Seq<char>, p: spec_fn(char) -> bool) -> nat
    decreases s.len(),
{
    if s.len() > 0 && p(s[0]) {
        1 + lead(s.skip(1), p)
    } else {
        0
    }
}

/// How many characters at the back satisfy `p`.
pub open spec fn trail(s: Seq<char>, p: spec_fn(char) -> bool) -> nat
    decreases s.len(),
{
    if s.len() > 0 && p(s.last()) {
        1 + trail(s.drop_last(), p)
    } else {
        0
    }
}

/// `s` without the characters at the front that satisfy `p`.
pub open spec fn strip_front(s: Seq<char>, p: spec_fn(char) -> bool) -> Seq<char> {
    s.skip(lead(s, p) as int)
}

/// `s` without the characters at the back that satisfy `p`.
pub open spec fn strip_back(s: Seq<char>, p: spec_fn(char) -> bool) -> Seq<char> {
    s.take(s.len() - trail(s, p))
}

/// The predicate of being white space.
pub open spec fn whites() -> spec_fn(char) -> bool {
    |c: char| white(c)
}

/// The predicate of being the character `x`.
pub open spec fn only(x: char) -> spec_fn(char) -> bool {
    |c: char| c == x
}

/// `s` without white space at either end.
pub open spec fn trimmed(s: Seq<char>) -> Seq<char> {
    strip_back(strip_front(s, whites()), whites())
}

/// Whether `s` holds nothing but white space.
pub open spec fn blank(s: Seq<char>) -> bool {
    trimmed(s).len() == 0
}

pub proof fn lemma_lead_bounds(s: Seq<char>, p: spec_fn(char) -> bool)
    ensures
        lead(s, p) <= s.len(),
        forall|k: int| 0 <= k < lead(s, p) ==> p(#[trigger] s[k]),
        lead(s, p) < s.len() ==> !p(s[lead(s, p) as int]),
    decreases s.len(),
{
    if s.len() > 0 && p(s[0]) {
        lemma_lead_bounds(s.skip(1), p);
        assert forall|k: int| 0 <= k < lead(s, p) implies p(#[trigger] s[k]) by {
            if k > 0 {
                assert(s.skip(1)[k - 1] == s[k]);
            }
        }
        if lead(s, p) < s.len() {
            assert(s.skip(1)[lead(s.skip(1), p) as int] == s[lead(s, p) as int]);
        }
    }
}

/// The number of leading characters that satisfy `p` is the one `n` with these bounds.
pub proof fn lemma_lead_is(s: Seq<char>, p: spec_fn(char) -> bool, n: nat)
    requires
        n <= s.len(),
        forall|k: int| 0 <= k < n ==> p(#[trigger] s[k]),
        n < s.len() ==> !p(s[n as int]),
    ensures
        lead(s, p) == n,
{
    lemma_lead_bounds(s, p);
    if lead(s, p) < n {
        assert(p(s[lead(s, p) as int]));
    } else if n < lead(s, p) {
        assert(p(s[n as int]));
    }
}

pub proof fn lemma_trail_bounds(s: Seq<char>, p: spec_fn(char) -> bool)
    ensures
        trail(s, p) <= s.len(),
        forall|k: int| s.len() - trail(s, p) <= k < s.len() ==> p(#[trigger] s[k]),
        trail(s, p) < s.len() ==> !p(s[s.len() - trail(s, p) - 1]),
    decreases s.len(),
{
    if s.len() > 0 && p(s.last()) {
        let t = s.drop_last();
        lemma_trail_bounds(t, p);
        assert forall|k: int| s.len() - trail(s, p) <= k < s.len() implies p(#[trigger] s[k]) by {
            if k < s.len() - 1 {
                assert(t[k] == s[k]);
            }
        }
        if trail(s, p) < s.len() {
            assert(t[t.len() - trail(t, p) - 1] == s[s.len() - trail(s, p) - 1]);
        }
    }
}

/// The number of trailing characters that satisfy `p` is the one `n` with these bounds.
pub proof fn lemma_trail_is(s: Seq<char>, p: spec_fn(char) -> bool, n: nat)
    requires
        n <= s.len(),
        forall|k: int| s.len() - n <= k < s.len() ==> p(#[trigger] s[k]),
        n < s.len() ==> !p(s[s.len() - n - 1]),
    ensures
        trail(s, p) == n,
{
    lemma_trail_bounds(s, p);
    if trail(s, p) < n {
        assert(p(s[s.len() - trail(s, p) - 1]));
    } else if n < trail(s, p) {
        assert(p(s[s.len() - n - 1]));
    }
}

/// A sequence is blank exactly when each of its characters is white space.
pub proof fn lemma_blank(s: Seq<char>)
    ensures
        blank(s) <==> (forall|k: int| 0 <= k < s.len() ==> white(#[trigger] s[k])),
{
    let p = whites();
    let t = strip_front(s, p);
    lemma_lead_bounds(s, p);
    lemma_trail_bounds(t, p);
    if blank(s) {
        if t.len() > 0 {
            assert(p(t[0]));
            assert(t[0] == s[lead(s, p) as int]);
        }
        assert forall|k: int| 0 <= k < s.len() implies white(#[trigger] s[k]) by {
            assert(p(s[k]));
        }
    }
    if forall|k: int| 0 <= k < s.len() ==> white(#[trigger] s[k]) {
        if lead(s, p) < s.len() {
            assert(white(s[lead(s, p) as int]));
        }
    }
}

/// What is left after trimming begins and ends with a character that is not white space.
pub proof fn lemma_trimmed_ends(s: Seq<char>)
    ensures
        trimmed(s).len() <= s.len(),
        trimmed(s).len() > 0 ==> !white(trimmed(s)[0]) && !white(trimmed(s).last()),
{
    let p = whites();
    let t = strip_front(s, p);
    lemma_lead_bounds(s, p);
    lemma_trail_bounds(t, p);
    if trimmed(s).len() > 0 {
        assert(t[0] == s[lead(s, p) as int]);
        assert(trimmed(s)[0] == t[0]);
        assert(trimmed(s).last() == t[t.len() - trail(t, p) - 1]);
        assert(!p(t[t.len() - trail(t, p) - 1]));
        assert(!p(s[lead(s, p) as int]));
    }
}

/// Trimming twice is trimming once.
pub proof fn lemma_trim_idempotent(s: Seq<char>)
    ensures
        trimmed(trimmed(s)) == trimmed(s),
{
    let t = trimmed(s);
    lemma_trimmed_ends(s);
    let p = whites();
    if t.len() > 0 {
        assert(!p(t[0]));
        assert(!p(t.last()));
    }
    lemma_lead_is(t, p, 0);
    assert(strip_front(t, p) =~= t);
    lemma_trail_is(t, p, 0);
    assert(trimmed(t) =~= t);
}

/// Index of the first character that is not white space.
fn white_lead(cs: &Vec<char>) -> (n: usize)
    ensures
        n == lead(cs@, whites()),
        n <= cs@.len(),
{
    let mut i: usize = 0;
    while i < cs.len() && is_white(cs[i])
        invariant
            i <= cs@.len(),
            forall|k: int| 0 <= k < i ==> white(#[trigger] cs@[k]),
        decreases cs@.len() - i,
    {
        i += 1;
    }
    proof {
        let p = whites();
        assert forall|k: int| 0 <= k < i implies p(#[trigger] cs@[k]) by {
            assert(white(cs@[k]));
        }
        lemma_lead_is(cs@, p, i as nat);
    }
    i
}

/// `str::trim`: no white space at either end.
pub fn trim(s: &str) -> (r: String)
    ensures
        r@ == trimmed(s@),
{
    let cs: Vec<char> = chars_of(s);
    let a: usize = white_lead(&cs);
    let mut b: usize = cs.len();
    while b > a && is_white(cs[b - 1])
        invariant
            a <= b <= cs@.len(),
            forall|k: int| b <= k < cs@.len() ==> white(#[trigger] cs@[k]),
        decreases b,
    {
        b -= 1;
    }
    proof {
        let p = whites();
        let t = strip_front(s@, p);
        lemma_lead_bounds(s@, p);
        let n = (cs@.len() - b) as nat;
        assert forall|k: int| t.len() - n <= k < t.len() implies p(#[trigger] t[k]) by {
            assert(t[k] == cs@[a + k]);
        }
        if n < t.len() {
            assert(t[t.len() - n - 1] == cs@[b - 1]);
        }
        lemma_trail_is(t, p, n);
        assert(trimmed(s@) =~= cs@.subrange(a as int, b as int));
    }
    string_of(&cs, a, b)
}

/// Whether a string holds nothing but white space.
pub fn is_blank(s: &str) -> (r: bool)
    ensures
        r == blank(s@),
{
    let cs: Vec<char> = chars_of(s);
    let n: usize = white_lead(&cs);
    proof {
        lemma_blank(s@);
        lemma_lead_bounds(s@, whites());
        if n == s@.len() {
            assert forall|k: int| 0 <= k < s@.len() implies white(#[trigger] s@[k]) by {
                assert(whites()(s@[k]));
            }
        } else {
            assert(!whites()(s@[n as int]));
        }
    }
    n == cs.len()
}

/// `str::trim_end_matches` with one character.
pub fn trim_end_char(s: &str, x: char) -> (r: String)
    ensures
        r@ == strip_back(s@, only(x)),
{
    let cs: Vec<char> = chars_of(s);
    let mut b: usize = cs.len();
    while b > 0 && cs[b - 1] == x
        invariant
            b <= cs@.len(),
            forall|k: int| b <= k < cs@.len() ==> #[trigger] cs@[k] == x,
        decreases b,
    {
        b -= 1;
    }
    proof {
        let p = only(x);
        let n = (cs@.len() - b) as nat;
        assert forall|k: int| cs@.len() - n <= k < cs@.len() implies p(#[trigger] cs@[k]) by {
            assert(cs@[k] == x);
        }
        lemma_trail_is(s@, p, n);
        assert(strip_back(s@, p) =~= cs@.subrange(0, b as int));
    }
    string_of(&cs, 0, b)
}

/// `str::trim_start_matches` with one character.
pub fn trim_start_char(s: &str, x: char) -> (r: String)
    ensures
        r@ == strip_front(s@, only(x)),
{
    let cs: Vec<char> = chars_of(s);
    let mut a: usize = 0;
    while a < cs.len() && cs[a] == x
        invariant
            a <= cs@.len(),
            forall|k: int| 0 <= k < a ==> #[trigger] cs@[k] == x,
        decreases cs@.len() - a,
    {
        a += 1;
    }
    proof {
        let p = only(x);
        assert forall|k: int| 0 <= k < a implies p(#[trigger] cs@[k]) by {
            assert(cs@[k] == x);
        }
        lemma_lead_is(s@, p, a as nat);
        assert(strip_front(s@, p) =~= cs@.subrange(a as int, cs@.len() as int));
    }
    string_of(&cs, a, cs.len())
}

/// `n` spaces.
pub open spec fn spaces(n: int) -> Seq<char> {
    Seq::new(
        if n < 0 {
            0
        } else {
            n as nat
        },
        |i: int| ' ',
    )
}

/// `s` with spaces in front up to a width of `n`.
pub open spec fn pad_front(s: Seq<char>, n: int) -> Seq<char> {
    spaces(n - s.len()) + s
}

/// `s` with spaces behind up to a width of `n`.
pub open spec fn pad_behind(s: Seq<char>, n: int) -> Seq<char> {
    s + spaces(n - s.len())
}

/// Appends spaces as if to widen what has `have` characters to `want`.
fn push_spaces(out: &mut String, have: usize, want: usize)
    ensures
        final(out)@ == old(out)@ + spaces(want - have),
{
    let ghost before = out@;
    let mut i: usize = have;
    assert(before + spaces(0) =~= before);
    if have >= want {
        assert(spaces(want - have) =~= spaces(0));
        return;
    }
    while i < want
        invariant
            have <= i <= want,
            out@ == before + spaces(i - have),
        decreases want - i,
    {
        out.push(' ');
        i += 1;
        assert(before + spaces(i - have) =~= (before + spaces(i - 1 - have)).push(' '));
    }
}

/// `format!("{s:>n$}")`.
pub fn pad_left(s: &str, n: usize) -> (r: String)
    ensures
        r@ == pad_front(s@, n as int),
{
    let cs: Vec<char> = chars_of(s);
    let mut out: String = String::new();
    push_spaces(&mut out, cs.len(), n);
    out.append(s);
    assert(out@ =~= pad_front(s@, n as int));
    out
}

/// `format!("{s:<n$}")`.
pub fn pad_right(s: &str, n: usize) -> (r: String)
    ensures
        r@ == pad_behind(s@, n as int),
{
    let cs: Vec<char> = chars_of(s);
    let mut out: String = copy(s);
    push_spaces(&mut out, cs.len(), n);
    out
}

/// Trimming takes the white space from both ends and nothing else.
pub proof fn trimming_takes_the_white_ends(before: Seq<char>, s: Seq<char>, after: Seq<char>)
    requires
        forall|k: int| 0 <= k < before.len() ==> white(#[trigger] before[k]),
        forall|k: int| 0 <= k < after.len() ==> white(#[trigger] after[k]),
        s.len() > 0,
        !white(s[0]),
        !white(s.last()),
    ensures
        trimmed(before + s + after) == s,
        !blank(before + s + after),
        trimmed(before) == Seq::<char>::empty(),
        blank(before),
{
    let p = whites();
    let t = before + s + after;
    assert(t[before.len() as int] == s[0]);
    assert forall|k: int| 0 <= k < before.len() implies p(#[trigger] t[k]) by {
        assert(t[k] == before[k]);
    }
    lemma_lead_is(t, p, before.len());
    let u = strip_front(t, p);
    assert(u =~= s + after);
    assert(u[s.len() - 1] == s.last());
    assert forall|k: int| u.len() - after.len() <= k < u.len() implies p(#[trigger] u[k]) by {
        assert(u[k] == after[k - s.len()]);
    }
    lemma_trail_is(u, p, after.len());
    assert(strip_back(u, p) =~= s);
    lemma_blank(before);
    assert(trimmed(before) =~= Seq::<char>::empty());
}

/// The capital letters of ASCII are made small, each by itself, and nothing else changes.
pub proof fn capitals_are_made_small(s: Seq<char>, i: int, k: int)
    requires
        0 <= i < s.len(),
        0 <= k < 26,
    ensures
        lowered(s).len() == s.len(),
        s[i] == "ABCDEFGHIJKLMNOPQRSTUVWXYZ"@[k] ==> lowered(s)[i] == "abcdefghijklmnopqrstuvwxyz"@[k],
        !('A' <= s[i] <= 'Z') ==> lowered(s)[i] == s[i],
{
    reveal_strlit("ABCDEFGHIJKLMNOPQRSTUVWXYZ");
    reveal_strlit("abcdefghijklmnopqrstuvwxyz");
    assert("ABCDEFGHIJKLMNOPQRSTUVWXYZ"@[k] as u32 == 65 + k);
    assert("abcdefghijklmnopqrstuvwxyz"@[k] as u32 == 97 + k);
}

/// A text is filled up with spaces to its width, in front or behind; a wider one stays.
pub proof fn spaces_fill_up(s: Seq<char>, n: int)
    ensures
        s.len() >= n ==> pad_front(s, n) == s && pad_behind(s, n) == s,
        s.len() < n ==> pad_front(s, n).len() == n && pad_behind(s, n).len() == n,
        s.is_suffix_of(pad_front(s, n)),
        s.is_prefix_of(pad_behind(s, n)),
        forall|i: int| 0 <= i < pad_front(s, n).len() - s.len() ==> #[trigger] pad_front(s, n)[i] == ' ',
        forall|i: int| s.len() <= i < pad_behind(s, n).len() ==> #[trigger] pad_behind(s, n)[i] == ' ',
{
    let a = pad_front(s, n);
    let b = pad_behind(s, n);
    assert(a.subrange(a.len() - s.len(), a.len() as int) =~= s);
    assert(b.subrange(0, s.len() as int) =~= s);
    if s.len() >= n {
        assert(a =~= s);
        assert(b =~= s);
    }
}

/// What stands before or behind the rest of a text is taken off as far as it goes.
pub proof fn ends_are_taken_off(ends: Seq<char>, s: Seq<char>, p: spec_fn(char) -> bool)
    requires
        forall|k: int| 0 <= k < ends.len() ==> p(#[trigger] ends[k]),
        s.len() > 0,
        !p(s[0]),
        !p(s.last()),
    ensures
        strip_front(ends + s, p) == s,
        strip_back(s + ends, p) == s,
        strip_front(ends, p).len() == 0,
        strip_back(ends, p).len() == 0,
{
    let a = ends + s;
    let b = s + ends;
    assert forall|k: int| 0 <= k < ends.len() implies p(#[trigger] a[k]) by {
        assert(a[k] == ends[k]);
    }
    assert(a[ends.len() as int] == s[0]);
    lemma_lead_is(a, p, ends.len());
    assert(a.skip(ends.len() as int) =~= s);
    assert forall|k: int| b.len() - ends.len() <= k < b.len() implies p(#[trigger] b[k]) by {
        assert(b[k] == ends[k - s.len()]);
    }
    assert(b[b.len() - ends.len() - 1] == s.last());
    lemma_trail_is(b, p, ends.len());
    assert(b.take(s.len() as int) =~= s);
    lemma_lead_is(ends, p, ends.len());
    lemma_trail_is(ends, p, ends.len());
}

/// The white space of the usual characters: spaces, tabs and line ends, and no letter or digit.
pub proof fn spaces_and_line_ends_are_white(c: char)
    ensures
        white(' ') && white('\t') && white('\n') && white('\r') && white('\u{3000}') && white('\u{a0}'),
        '!' <= c <= '~' ==> !white(c),
{
}

} // verus!
