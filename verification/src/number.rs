//! Integers as text: decimal and hexadecimal digits.

use crate::text::chars_of;
use vstd::prelude::*;

verus! {

/// The character of a decimal digit.
pub open spec fn digit_char(d: nat) -> char {
    (48 + d) as char
}

/// Whether a character is a decimal digit.
pub open spec fn is_digit(c: char) -> bool {
    '0' <= c <= '9'
}

/// What a decimal digit stands for.
pub open spec fn digit(c: char) -> nat {
    (c as u32 - 48) as nat
}

/// `n` in decimal, without leading zeros.
pub open spec fn decimal(n: nat) -> Seq<char>
    decreases n,
{
    if n < 10 {
        seq![digit_char(n)]
    } else {
        decimal(n / 10).push(digit_char(n % 10))
    }
}

/// `n` in decimal, with a minus sign where it is negative.
pub open spec fn signed_decimal(n: int) -> Seq<char> {
    if n < 0 {
        seq!['-'] + decimal((-n) as nat)
    } else {
        decimal(n as nat)
    }
}

/// Whether `s` is one or more decimal digits.
pub open spec fn all_digits(s: Seq<char>) -> bool {
    s.len() > 0 && (forall|i: int| 0 <= i < s.len() ==> is_digit(#[trigger] s[i]))
}

/// What a sequence of decimal digits stands for.
pub open spec fn value_of(s: Seq<char>) -> nat
    decreases s.len(),
{
    if s.len() == 0 {
        0
    } else {
        value_of(s.drop_last()) * 10 + digit(s.last())
    }
}

/// `s` without one leading plus sign.
pub open spec fn unplus(s: Seq<char>) -> Seq<char> {
    if s.len() > 0 && s[0] == '+' {
        s.skip(1)
    } else {
        s
    }
}

/// The number up to `max` that `s` writes in decimal, with or without a plus sign.
pub open spec fn unsigned(s: Seq<char>, max: nat) -> Option<nat> {
    let d = unplus(s);
    if all_digits(d) && value_of(d) <= max {
        Some(value_of(d))
    } else {
        None
    }
}

/// The 64-bit number that `s` writes in decimal, with or without a sign.
pub open spec fn signed(s: Seq<char>) -> Option<int> {
    if s.len() > 0 && s[0] == '-' {
        let d = s.skip(1);
        if all_digits(d) && value_of(d) <= 0x8000_0000_0000_0000 {
            Some(-(value_of(d) as int))
        } else {
            None
        }
    } else {
        match unsigned(s, 0x7fff_ffff_ffff_ffff) {
            Some(n) => Some(n as int),
            None => None,
        }
    }
}

/// Reading what was written gives the number back.
pub proof fn decimal_round_trip(n: nat)
    ensures
        all_digits(decimal(n)),
        value_of(decimal(n)) == n,
    decreases n,
{
    if n < 10 {
        let s = decimal(n);
        reveal_with_fuel(value_of, 2);
        assert(s.drop_last() =~= seq![]);
        assert(digit(digit_char(n)) == n);
    } else {
        decimal_round_trip(n / 10);
        let s = decimal(n);
        let t = decimal(n / 10);
        assert(s.drop_last() =~= t);
        assert(s.last() == digit_char(n % 10));
        assert(digit(digit_char(n % 10)) == n % 10);
        assert forall|i: int| 0 <= i < s.len() implies is_digit(#[trigger] s[i]) by {
            if i < t.len() {
                assert(s[i] == t[i]);
            }
        }
    }
}

/// Reading what was written gives the number back, whatever bound it is within.
pub proof fn unsigned_round_trip(n: nat, max: nat)
    requires
        n <= max,
    ensures
        unsigned(decimal(n), max) == Some(n),
{
    decimal_round_trip(n);
    assert(is_digit(decimal(n)[0]));
}

/// Reading what was written gives the signed number back.
pub proof fn signed_round_trip(n: int)
    requires
        -0x8000_0000_0000_0000 <= n <= 0x7fff_ffff_ffff_ffff,
    ensures
        signed(signed_decimal(n)) == Some(n),
{
    if n < 0 {
        decimal_round_trip((-n) as nat);
        assert(signed_decimal(n).skip(1) =~= decimal((-n) as nat));
    } else {
        unsigned_round_trip(n as nat, 0x7fff_ffff_ffff_ffff);
        decimal_round_trip(n as nat);
        assert(is_digit(decimal(n as nat)[0]));
    }
}

pub proof fn lemma_value_prefix(s: Seq<char>, i: int)
    requires
        0 <= i <= s.len(),
    ensures
        value_of(s.take(i)) <= value_of(s),
    decreases s.len(),
{
    if i < s.len() {
        lemma_value_prefix(s.drop_last(), i);
        assert(s.drop_last().take(i) =~= s.take(i));
    } else {
        assert(s.take(i) =~= s);
    }
}

/// Appends `n` in decimal.
pub fn push_u64(out: &mut String, n: u64)
    ensures
        final(out)@ == old(out)@ + decimal(n as nat),
    decreases n,
{
    if n >= 10 {
        push_u64(out, n / 10);
    }
    let d: u8 = (n % 10) as u8;
    let ghost mid = out@;
    out.push((48 + d) as char);
    proof {
        assert((48 + d) as char == digit_char(n as nat % 10));
        if n < 10 {
            assert(out@ =~= old(out)@ + decimal(n as nat));
        } else {
            assert(out@ =~= old(out)@ + decimal(n as nat));
        }
    }
}

/// `n` in decimal.
pub fn show_u64(n: u64) -> (r: String)
    ensures
        r@ == decimal(n as nat),
{
    let mut out: String = String::new();
    push_u64(&mut out, n);
    assert(out@ =~= decimal(n as nat));
    out
}

/// `n` in decimal, with a minus sign where it is negative.
pub fn show_i64(n: i64) -> (r: String)
    ensures
        r@ == signed_decimal(n as int),
{
    let mut out: String = String::new();
    if n < 0 {
        out.push('-');
        let m: u64 = if n == i64::MIN {
            0x8000_0000_0000_0000
        } else {
            (-n) as u64
        };
        push_u64(&mut out, m);
        assert(out@ =~= signed_decimal(n as int));
    } else {
        push_u64(&mut out, n as u64);
        assert(out@ =~= signed_decimal(n as int));
    }
    out
}

/// The number up to `max` that the characters `cs[from..]` write in decimal.
fn digits_from(cs: &Vec<char>, from: usize, max: u64) -> (r: Option<u64>)
    requires
        from <= cs@.len(),
    ensures
        ({
            let d = cs@.skip(from as int);
            match r {
                Some(n) => all_digits(d) && value_of(d) == n && n <= max,
                None => !(all_digits(d) && value_of(d) <= max),
            }
        }),
{
    if from == cs.len() {
        return None;
    }
    let ghost d = cs@.skip(from as int);
    let mut v: u64 = 0;
    let mut i: usize = from;
    while i < cs.len()
        invariant
            from <= i <= cs@.len(),
            from < cs@.len(),
            d == cs@.skip(from as int),
            v == value_of(d.take(i - from)),
            v <= max,
            forall|k: int| 0 <= k < i - from ==> is_digit(#[trigger] d[k]),
        decreases cs@.len() - i,
    {
        let c: char = cs[i];
        assert(d[i - from] == c);
        if !('0' <= c && c <= '9') {
            return None;
        }
        let x: u64 = (c as u32 - 48) as u64;
        let w: u128 = v as u128 * 10 + x as u128;
        proof {
            let t = d.take(i - from + 1);
            assert(t.drop_last() =~= d.take(i - from));
            assert(t.last() == c);
            assert(value_of(t) == v * 10 + x);
            lemma_value_prefix(d, i - from + 1);
        }
        if w > max as u128 {
            return None;
        }
        v = w as u64;
        i += 1;
    }
    assert(d.take(i - from) =~= d);
    Some(v)
}

/// `str::parse` to an unsigned integer type whose largest value is `max`.
pub fn parse_max(s: &str, max: u64) -> (r: Option<u64>)
    ensures
        match r {
            Some(n) => unsigned(s@, max as nat) == Some(n as nat),
            None => unsigned(s@, max as nat) is None,
        },
{
    let cs: Vec<char> = chars_of(s);
    if cs.len() > 0 && cs[0] == '+' {
        digits_from(&cs, 1, max)
    } else {
        assert(cs@.skip(0) =~= cs@);
        digits_from(&cs, 0, max)
    }
}

/// `str::parse::<u64>`.
pub fn parse_u64(s: &str) -> (r: Option<u64>)
    ensures
        match r {
            Some(n) => unsigned(s@, u64::MAX as nat) == Some(n as nat),
            None => unsigned(s@, u64::MAX as nat) is None,
        },
{
    parse_max(s, u64::MAX)
}

/// `str::parse::<u32>`.
pub fn parse_u32(s: &str) -> (r: Option<u32>)
    ensures
        match r {
            Some(n) => unsigned(s@, u32::MAX as nat) == Some(n as nat),
            None => unsigned(s@, u32::MAX as nat) is None,
        },
{
    match parse_max(s, u32::MAX as u64) {
        Some(n) => Some(n as u32),
        None => None,
    }
}

/// `str::parse::<u16>`.
pub fn parse_u16(s: &str) -> (r: Option<u16>)
    ensures
        match r {
            Some(n) => unsigned(s@, u16::MAX as nat) == Some(n as nat),
            None => unsigned(s@, u16::MAX as nat) is None,
        },
{
    match parse_max(s, u16::MAX as u64) {
        Some(n) => Some(n as u16),
        None => None,
    }
}

/// `str::parse::<i64>`.
pub fn parse_i64(s: &str) -> (r: Option<i64>)
    ensures
        match r {
            Some(n) => signed(s@) == Some(n as int),
            None => signed(s@) is None,
        },
{
    let cs: Vec<char> = chars_of(s);
    if cs.len() > 0 && cs[0] == '-' {
        match digits_from(&cs, 1, 0x8000_0000_0000_0000) {
            Some(n) => {
                if n == 0x8000_0000_0000_0000 {
                    Some(i64::MIN)
                } else {
                    Some(-(n as i64))
                }
            },
            None => None,
        }
    } else {
        match parse_max(s, 0x7fff_ffff_ffff_ffff) {
            Some(n) => Some(n as i64),
            None => None,
        }
    }
}

/// A hexadecimal digit in lower case.
pub open spec fn hex_char(d: nat) -> char {
    if d < 10 {
        (48 + d) as char
    } else {
        (87 + d) as char
    }
}

/// Two hexadecimal digits for each byte.
pub open spec fn hex(b: Seq<u8>) -> Seq<char>
    decreases b.len(),
{
    if b.len() == 0 {
        seq![]
    } else {
        hex(b.drop_last()).push(hex_char(b.last() as nat / 16)).push(hex_char(b.last() as nat % 16))
    }
}

/// The length of the hexadecimal form.
pub proof fn lemma_hex_len(b: Seq<u8>)
    ensures
        hex(b).len() == 2 * b.len(),
    decreases b.len(),
{
    if b.len() > 0 {
        lemma_hex_len(b.drop_last());
    }
}

fn hex_digit(d: u8) -> (c: char)
    requires
        d < 16,
    ensures
        c == hex_char(d as nat),
{
    if d < 10 {
        (48 + d) as char
    } else {
        (87 + d) as char
    }
}

/// The bytes `b[..n]` in hexadecimal, two lower-case digits each.
pub fn show_hex(b: &[u8], n: usize) -> (r: String)
    requires
        n <= b@.len(),
    ensures
        r@ == hex(b@.take(n as int)),
{
    let mut out: String = String::new();
    let mut i: usize = 0;
    while i < n
        invariant
            i <= n <= b@.len(),
            out@ == hex(b@.take(i as int)),
        decreases n - i,
    {
        let x: u8 = b[i];
        out.push(hex_digit(x / 16));
        out.push(hex_digit(x % 16));
        i += 1;
        assert(b@.take(i as int).drop_last() =~= b@.take(i - 1));
    }
    out
}

/// `n` in decimal with zeros in front, at least `w` characters wide.
pub open spec fn padded(n: nat, w: nat) -> Seq<char> {
    let d = decimal(n);
    if d.len() < w {
        Seq::new((w - d.len()) as nat, |i: int| '0') + d
    } else {
        d
    }
}

/// `format!("{:0w$}")` of an unsigned number.
pub fn show_padded(n: u64, w: usize) -> (r: String)
    ensures
        r@ == padded(n as nat, w as nat),
{
    let d: String = show_u64(n);
    let cs: Vec<char> = chars_of(d.as_str());
    if cs.len() >= w {
        return d;
    }
    let gap: usize = w - cs.len();
    let mut out: String = String::new();
    let mut i: usize = 0;
    while i < gap
        invariant
            i <= gap,
            out@ == Seq::new(i as nat, |k: int| '0'),
        decreases gap - i,
    {
        out.push('0');
        i += 1;
        assert(out@ =~= Seq::new(i as nat, |k: int| '0'));
    }
    out.append(d.as_str());
    assert(out@ =~= padded(n as nat, w as nat));
    out
}

// ---------------------------------------------------------------- what numbers look like

/// A number has the digits of a tenth of it, and behind them the one that is left.
pub proof fn digit_is_put_behind(n: nat, d: nat)
    requires
        d < 10,
        n > 0,
    ensures
        decimal(10 * n + d) == decimal(n).push("0123456789"@[d as int]),
        decimal(d) == seq!["0123456789"@[d as int]],
{
    reveal_strlit("0123456789");
    assert((10 * n + d) / 10 == n);
    assert((10 * n + d) % 10 == d);
}

/// A negative number has a minus in front of its amount.
pub proof fn minus_stands_in_front(n: nat)
    requires
        n > 0,
    ensures
        signed_decimal(-(n as int)) == seq!['-'] + decimal(n),
        signed_decimal(n as int) == decimal(n),
{
}

/// A number is filled up with zeros in front to its width, which keeps its value; a wider one stays.
pub proof fn zeros_fill_up(n: nat, w: nat)
    ensures
        padded(n, w).len() >= w,
        decimal(n).len() >= w ==> padded(n, w) == decimal(n),
        decimal(n).len() < w ==> padded(n, w).len() == w,
        decimal(n).is_suffix_of(padded(n, w)),
        all_digits(padded(n, w)),
        value_of(padded(n, w)) == n,
{
    let d = decimal(n);
    let p = padded(n, w);
    decimal_round_trip(n);
    assert(p.subrange(p.len() - d.len(), p.len() as int) =~= d);
    if d.len() < w {
        let z = Seq::new((w - d.len()) as nat, |i: int| '0');
        lemma_zeros_in_front(z, d);
        assert forall|i: int| 0 <= i < p.len() implies is_digit(#[trigger] p[i]) by {
            if i >= z.len() {
                assert(p[i] == d[i - z.len()]);
            }
        }
    }
}

proof fn lemma_zeros_in_front(z: Seq<char>, d: Seq<char>)
    requires
        forall|i: int| 0 <= i < z.len() ==> #[trigger] z[i] == '0',
    ensures
        value_of(z + d) == value_of(d),
    decreases z.len() + d.len(),
{
    let s = z + d;
    if d.len() > 0 {
        assert(s.drop_last() =~= z + d.drop_last());
        assert(s.last() == d.last());
        lemma_zeros_in_front(z, d.drop_last());
    } else if z.len() > 0 {
        assert(s.drop_last() =~= z.drop_last() + d);
        assert(s.last() == '0');
        lemma_zeros_in_front(z.drop_last(), d);
    }
}

/// Only digits are read as a number, with at most a plus in front, up to the largest that is asked for.
pub proof fn only_digits_are_read(s: Seq<char>, max: nat, i: int)
    ensures
        0 <= i < s.len() && !is_digit(s[i]) && (i > 0 || s[0] != '+') ==> unsigned(s, max) is None,
        s.len() == 0 ==> unsigned(s, max) is None,
        unsigned(s, max) matches Some(n) ==> n <= max,
        all_digits(s) && value_of(s) > max ==> unsigned(s, max) is None,
        all_digits(s) ==> unsigned(seq!['+'] + s, max) == unsigned(s, max),
        all_digits(s) && value_of(s) <= max ==> unsigned(s, max) == Some(value_of(s)),
{
    let p = seq!['+'] + s;
    assert(p.skip(1) =~= s);
    if s.len() > 0 && is_digit(s[0]) {
        assert(s[0] != '+');
    }
    if 0 <= i < s.len() && !is_digit(s[i]) && (i > 0 || s[0] != '+') {
        if s[0] == '+' {
            assert(s.skip(1)[i - 1] == s[i]);
        }
    }
}

/// A byte is two digits of sixteen, the higher half first, behind those of the bytes before it.
pub proof fn byte_is_two_digits(b: Seq<u8>, x: u8)
    ensures
        hex(b.push(x)) == hex(b) + seq![
            "0123456789abcdef"@[x as int / 16],
            "0123456789abcdef"@[x as int % 16],
        ],
        hex(Seq::empty()).len() == 0,
{
    reveal_strlit("0123456789abcdef");
    assert(b.push(x).drop_last() =~= b);
    lemma_hex_char(x as nat / 16);
    lemma_hex_char(x as nat % 16);
    assert(hex(b.push(x)) =~= hex(b) + seq![
        "0123456789abcdef"@[x as int / 16],
        "0123456789abcdef"@[x as int % 16],
    ]);
}

proof fn lemma_hex_char(d: nat)
    requires
        d < 16,
    ensures
        hex_char(d) == "0123456789abcdef"@[d as int],
{
    reveal_strlit("0123456789abcdef");
}

} // verus!
