//! Base64: bytes as letters, three bytes to four letters.

use crate::text::chars_of;
use vstd::prelude::*;

verus! {

/// The letter for a number below 64.
pub open spec fn letter(n: int) -> char {
    if n < 26 {
        (n + 65) as char
    } else if n < 52 {
        (n + 71) as char
    } else if n < 62 {
        (n - 4) as char
    } else if n == 62 {
        '+'
    } else {
        '/'
    }
}

/// The number that a letter stands for, where it stands for one.
pub open spec fn number(c: char) -> Option<int> {
    if 'A' <= c <= 'Z' {
        Some(c as int - 65)
    } else if 'a' <= c <= 'z' {
        Some(c as int - 71)
    } else if '0' <= c <= '9' {
        Some(c as int + 4)
    } else if c == '+' {
        Some(62)
    } else if c == '/' {
        Some(63)
    } else {
        None
    }
}

/// The letters for bytes, with `=` where the last three are not complete.
pub open spec fn encoded(b: Seq<u8>) -> Seq<char>
    decreases b.len(),
{
    if b.len() == 0 {
        seq![]
    } else if b.len() == 1 {
        seq![letter(b[0] as int / 4), letter(b[0] as int % 4 * 16), '=', '=']
    } else if b.len() == 2 {
        seq![
            letter(b[0] as int / 4),
            letter(b[0] as int % 4 * 16 + b[1] as int / 16),
            letter(b[1] as int % 16 * 4),
            '=',
        ]
    } else {
        seq![
            letter(b[0] as int / 4),
            letter(b[0] as int % 4 * 16 + b[1] as int / 16),
            letter(b[1] as int % 16 * 4 + b[2] as int / 64),
            letter(b[2] as int % 64),
        ] + encoded(b.skip(3))
    }
}

/// The numbers that letters stand for, up to the first `=`; any other character is passed over.
pub open spec fn numbers(s: Seq<char>) -> Seq<int>
    decreases s.len(),
{
    if s.len() == 0 || s[0] == '=' {
        seq![]
    } else {
        match number(s[0]) {
            Some(n) => seq![n] + numbers(s.skip(1)),
            None => numbers(s.skip(1)),
        }
    }
}

/// The bytes that numbers below 64 stand for, four to three bytes; what is left over and makes no
/// byte is passed over.
pub open spec fn bytes_of(n: Seq<int>) -> Seq<u8>
    decreases n.len(),
{
    if n.len() < 2 {
        seq![]
    } else if n.len() == 2 {
        seq![(n[0] * 4 + n[1] / 16) as u8]
    } else if n.len() == 3 {
        seq![(n[0] * 4 + n[1] / 16) as u8, (n[1] % 16 * 16 + n[2] / 4) as u8]
    } else {
        seq![
            (n[0] * 4 + n[1] / 16) as u8,
            (n[1] % 16 * 16 + n[2] / 4) as u8,
            (n[2] % 4 * 64 + n[3]) as u8,
        ] + bytes_of(n.skip(4))
    }
}

/// The bytes that letters stand for.
pub open spec fn decoded(s: Seq<char>) -> Seq<u8> {
    bytes_of(numbers(s))
}

proof fn lemma_letter(n: int)
    requires
        0 <= n < 64,
    ensures
        number(letter(n)) == Some(n),
        letter(n) != '=',
{
}

proof fn lemma_numbers_first(n: int, rest: Seq<char>)
    requires
        0 <= n < 64,
    ensures
        numbers(seq![letter(n)] + rest) == seq![n] + numbers(rest),
{
    lemma_letter(n);
    assert((seq![letter(n)] + rest).skip(1) =~= rest);
}

/// Reading the letters gives the bytes back.
pub proof fn encoded_is_read_back(b: Seq<u8>)
    ensures
        decoded(encoded(b)) == b,
    decreases b.len(),
{
    let e = encoded(b);
    if b.len() == 0 {
        assert(numbers(e) =~= seq![]);
        assert(decoded(e) =~= b);
    } else if b.len() == 1 {
        let n0 = b[0] as int / 4;
        let n1 = b[0] as int % 4 * 16;
        lemma_numbers_first(n0, seq![letter(n1), '=', '=']);
        lemma_numbers_first(n1, seq!['=', '=']);
        assert(e =~= seq![letter(n0)] + seq![letter(n1), '=', '=']);
        assert(seq![letter(n1), '=', '='] =~= seq![letter(n1)] + seq!['=', '=']);
        assert(numbers(e) =~= seq![n0, n1]);
        assert(n0 * 4 + n1 / 16 == b[0]);
        assert(decoded(e) =~= b);
    } else if b.len() == 2 {
        let n0 = b[0] as int / 4;
        let n1 = b[0] as int % 4 * 16 + b[1] as int / 16;
        let n2 = b[1] as int % 16 * 4;
        lemma_numbers_first(n0, seq![letter(n1), letter(n2), '=']);
        lemma_numbers_first(n1, seq![letter(n2), '=']);
        lemma_numbers_first(n2, seq!['=']);
        assert(e =~= seq![letter(n0)] + seq![letter(n1), letter(n2), '=']);
        assert(seq![letter(n1), letter(n2), '='] =~= seq![letter(n1)] + seq![letter(n2), '=']);
        assert(seq![letter(n2), '='] =~= seq![letter(n2)] + seq!['=']);
        assert(numbers(e) =~= seq![n0, n1, n2]);
        assert(n0 * 4 + n1 / 16 == b[0]);
        assert(n1 % 16 * 16 + n2 / 4 == b[1]);
        assert(decoded(e) =~= b);
    } else {
        let rest = b.skip(3);
        let n0 = b[0] as int / 4;
        let n1 = b[0] as int % 4 * 16 + b[1] as int / 16;
        let n2 = b[1] as int % 16 * 4 + b[2] as int / 64;
        let n3 = b[2] as int % 64;
        let t = encoded(rest);
        encoded_is_read_back(rest);
        lemma_numbers_first(n0, seq![letter(n1), letter(n2), letter(n3)] + t);
        lemma_numbers_first(n1, seq![letter(n2), letter(n3)] + t);
        lemma_numbers_first(n2, seq![letter(n3)] + t);
        lemma_numbers_first(n3, t);
        assert(e =~= seq![letter(n0)] + (seq![letter(n1), letter(n2), letter(n3)] + t));
        assert(seq![letter(n1), letter(n2), letter(n3)] + t =~= seq![letter(n1)] + (seq![
            letter(n2),
            letter(n3),
        ] + t));
        assert(seq![letter(n2), letter(n3)] + t =~= seq![letter(n2)] + (seq![letter(n3)] + t));
        assert(numbers(e) =~= seq![n0, n1, n2, n3] + numbers(t));
        assert(numbers(e).skip(4) =~= numbers(t));
        assert(n0 * 4 + n1 / 16 == b[0]);
        assert(n1 % 16 * 16 + n2 / 4 == b[1]);
        assert(n2 % 4 * 64 + n3 == b[2]);
        assert(decoded(e) =~= seq![b[0], b[1], b[2]] + rest);
        assert(b =~= seq![b[0], b[1], b[2]] + rest);
    }
}

/// Characters that are no letters do not change what is read, unless they come behind an `=`: line
/// breaks in particular.
pub proof fn other_characters_are_passed_over(a: Seq<char>, c: char, b: Seq<char>)
    requires
        number(c) is None,
        c != '=',
    ensures
        decoded(a.push(c) + b) == decoded(a + b),
{
    lemma_numbers_skip(a, c, b);
}

proof fn lemma_numbers_skip(a: Seq<char>, c: char, b: Seq<char>)
    requires
        number(c) is None,
        c != '=',
    ensures
        numbers(a.push(c) + b) == numbers(a + b),
    decreases a.len(),
{
    let x = a.push(c) + b;
    let y = a + b;
    if a.len() == 0 {
        assert(x.skip(1) =~= b);
        assert(y =~= b);
    } else {
        lemma_numbers_skip(a.skip(1), c, b);
        assert(x.skip(1) =~= a.skip(1).push(c) + b);
        assert(y.skip(1) =~= a.skip(1) + b);
        assert(x[0] == y[0]);
    }
}

fn letter_for(n: u8) -> (r: char)
    requires
        n < 64,
    ensures
        r == letter(n as int),
{
    if n < 26 {
        (n + 65) as char
    } else if n < 52 {
        (n + 71) as char
    } else if n < 62 {
        (n - 4) as char
    } else if n == 62 {
        '+'
    } else {
        '/'
    }
}

/// The letters for bytes.
pub fn base64_encode(bytes: &[u8]) -> (r: String)
    ensures
        r@ == encoded(bytes@),
{
    let mut out: String = String::new();
    let n: usize = bytes.len();
    let mut i: usize = 0;
    assert(bytes@.skip(0) =~= bytes@);
    assert(out@ + encoded(bytes@) =~= encoded(bytes@));
    while n - i >= 3
        invariant
            i <= n == bytes@.len(),
            out@ + encoded(bytes@.skip(i as int)) == encoded(bytes@),
        decreases n - i,
    {
        let b0: u8 = bytes[i];
        let b1: u8 = bytes[i + 1];
        let b2: u8 = bytes[i + 2];
        let ghost before = out@;
        let ghost rest = bytes@.skip(i as int);
        out.push(letter_for(b0 / 4));
        out.push(letter_for(b0 % 4 * 16 + b1 / 16));
        out.push(letter_for(b1 % 16 * 4 + b2 / 64));
        out.push(letter_for(b2 % 64));
        i += 3;
        proof {
            assert(rest.skip(3) =~= bytes@.skip(i as int));
            assert(out@ + encoded(bytes@.skip(i as int)) =~= before + encoded(rest));
        }
    }
    let ghost before = out@;
    let ghost rest = bytes@.skip(i as int);
    if n - i == 1 {
        let b0: u8 = bytes[i];
        out.push(letter_for(b0 / 4));
        out.push(letter_for(b0 % 4 * 16));
        out.push('=');
        out.push('=');
    } else if n - i == 2 {
        let b0: u8 = bytes[i];
        let b1: u8 = bytes[i + 1];
        out.push(letter_for(b0 / 4));
        out.push(letter_for(b0 % 4 * 16 + b1 / 16));
        out.push(letter_for(b1 % 16 * 4));
        out.push('=');
    }
    assert(out@ =~= before + encoded(rest));
    out
}

/// The numbers as integers.
pub open spec fn ints(v: Seq<u8>) -> Seq<int> {
    Seq::new(v.len(), |i: int| v[i] as int)
}

fn number_of(c: char) -> (r: Option<u8>)
    ensures
        match r {
            Some(n) => n < 64 && number(c) == Some(n as int),
            None => number(c) is None,
        },
{
    if 'A' <= c && c <= 'Z' {
        Some(c as u8 - 65)
    } else if 'a' <= c && c <= 'z' {
        Some(c as u8 - 71)
    } else if '0' <= c && c <= '9' {
        Some(c as u8 + 4)
    } else if c == '+' {
        Some(62)
    } else if c == '/' {
        Some(63)
    } else {
        None
    }
}

fn read_numbers(s: &str) -> (r: Vec<u8>)
    ensures
        ints(r@) == numbers(s@),
        forall|i: int| 0 <= i < r@.len() ==> #[trigger] r@[i] < 64,
{
    let cs: Vec<char> = chars_of(s);
    let mut out: Vec<u8> = Vec::new();
    let mut i: usize = 0;
    assert(s@.skip(0) =~= s@);
    assert(ints(out@) + numbers(s@) =~= numbers(s@));
    while i < cs.len()
        invariant
            i <= cs@.len(),
            cs@ == s@,
            forall|k: int| 0 <= k < out@.len() ==> #[trigger] out@[k] < 64,
            ints(out@) + numbers(s@.skip(i as int)) == numbers(s@),
        decreases cs@.len() - i,
    {
        let ghost rest = s@.skip(i as int);
        assert(rest.skip(1) =~= s@.skip(i + 1));
        assert(rest[0] == cs@[i as int]);
        if cs[i] == '=' {
            assert(ints(out@) + numbers(rest) =~= ints(out@));
            return out;
        }
        if let Some(n) = number_of(cs[i]) {
            let ghost before = out@;
            out.push(n);
            assert(ints(out@) =~= ints(before).push(n as int));
            assert(ints(out@) + numbers(s@.skip(i + 1)) =~= ints(before) + numbers(rest));
        }
        i += 1;
    }
    assert(ints(out@) + numbers(s@.skip(i as int)) =~= ints(out@));
    out
}

/// The bytes that letters stand for.
pub fn base64_decode(s: &str) -> (r: Vec<u8>)
    ensures
        r@ == decoded(s@),
{
    let v: Vec<u8> = read_numbers(s);
    let ghost all = ints(v@);
    let n: usize = v.len();
    let mut out: Vec<u8> = Vec::new();
    let mut i: usize = 0;
    assert(all.skip(0) =~= all);
    assert(out@ + bytes_of(all) =~= bytes_of(all));
    while n - i >= 4
        invariant
            i <= n == v@.len(),
            all == ints(v@),
            forall|k: int| 0 <= k < v@.len() ==> #[trigger] v@[k] < 64,
            out@ + bytes_of(all.skip(i as int)) == bytes_of(all),
        decreases n - i,
    {
        let a: u8 = v[i];
        let b: u8 = v[i + 1];
        let c: u8 = v[i + 2];
        let d: u8 = v[i + 3];
        let ghost before = out@;
        let ghost rest = all.skip(i as int);
        out.push(a * 4 + b / 16);
        out.push(b % 16 * 16 + c / 4);
        out.push(c % 4 * 64 + d);
        i += 4;
        proof {
            assert(rest.skip(4) =~= all.skip(i as int));
            assert(rest[0] == a && rest[1] == b && rest[2] == c && rest[3] == d);
            assert(out@ + bytes_of(all.skip(i as int)) =~= before + bytes_of(rest));
        }
    }
    let ghost before = out@;
    let ghost rest = all.skip(i as int);
    if n - i == 2 {
        let a: u8 = v[i];
        let b: u8 = v[i + 1];
        assert(rest[0] == a && rest[1] == b);
        out.push(a * 4 + b / 16);
    } else if n - i == 3 {
        let a: u8 = v[i];
        let b: u8 = v[i + 1];
        let c: u8 = v[i + 2];
        assert(rest[0] == a && rest[1] == b && rest[2] == c);
        out.push(a * 4 + b / 16);
        out.push(b % 16 * 16 + c / 4);
    }
    assert(out@ =~= before + bytes_of(rest));
    out
}

/// The letters are those that everyone uses: the upper case ones, the lower case ones, the digits, a plus
/// and a slash.
pub proof fn letters_are_the_usual_ones(n: int)
    requires
        0 <= n < 64,
    ensures
        n < 26 ==> letter(n) as int == 'A' as int + n,
        26 <= n < 52 ==> letter(n) as int == 'a' as int + (n - 26),
        52 <= n < 62 ==> letter(n) as int == '0' as int + (n - 52),
        n == 62 ==> letter(n) == '+',
        n == 63 ==> letter(n) == '/',
        number(letter(n)) == Some(n),
{
}

/// Three bytes become four letters, the highest bits first; what is left at the end is filled up with
/// equals signs.
pub proof fn three_bytes_are_four_letters(b: Seq<u8>)
    ensures
        encoded(b).len() == (b.len() + 2) / 3 * 4,
        b.len() >= 3 ==> {
            let e = encoded(b);
            let n = |i: int| number(e[i])->0;
            &&& number(e[0]) is Some && number(e[1]) is Some && number(e[2]) is Some && number(e[3])
                is Some
            &&& n(0) * 262144 + n(1) * 4096 + n(2) * 64 + n(3) == b[0] as int * 65536 + b[1] as int
                * 256 + b[2]
            &&& e.skip(4) == encoded(b.skip(3))
        },
        b.len() == 2 ==> encoded(b)[3] == '=' && encoded(b)[2] != '=',
        b.len() == 1 ==> encoded(b)[3] == '=' && encoded(b)[2] == '=' && encoded(b)[1] != '=',
    decreases b.len(),
{
    if b.len() >= 3 {
        three_bytes_are_four_letters(b.skip(3));
        let e = encoded(b);
        let x = b[0] as int;
        let y = b[1] as int;
        let z = b[2] as int;
        letters_are_the_usual_ones(x / 4);
        letters_are_the_usual_ones(x % 4 * 16 + y / 16);
        letters_are_the_usual_ones(y % 16 * 4 + z / 64);
        letters_are_the_usual_ones(z % 64);
        assert(e.skip(4) =~= encoded(b.skip(3)));
        assert((b.len() + 2) / 3 == (b.skip(3).len() + 2) / 3 + 1);
    } else if b.len() == 2 {
        letters_are_the_usual_ones(b[1] as int % 16 * 4);
    } else if b.len() == 1 {
        letters_are_the_usual_ones(b[0] as int % 4 * 16);
    }
}

} // verus!
