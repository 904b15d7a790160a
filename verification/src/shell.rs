//! Words of a POSIX shell.

use crate::split::{mapped, replace_char, swap};
use crate::text::copy;
use vstd::prelude::*;

verus! {

/// `s` as one word of a shell: in single quotes, each quote within closed, escaped and reopened.
pub open spec fn quoted(s: Seq<char>) -> Seq<char> {
    "'"@ + mapped(s, swap('\'', "'\\''"@)) + "'"@
}

/// `s` as one word of a shell.
pub fn quote(s: &str) -> (r: String)
    ensures
        r@ == quoted(s@),
{
    let mut out: String = copy("'");
    out.append(replace_char(s, '\'', "'\\''").as_str());
    out.append("'");
    out
}

/// How far a shell has read a word, and what it has read.
pub enum Reading {
    /// Outside quotes.
    Open(Seq<char>),
    /// Inside single quotes.
    Quoted(Seq<char>),
    /// Behind a backslash outside quotes.
    Escaped(Seq<char>),
    /// At a character that means something else than itself.
    Other,
}

/// What reading one more character leads to.
pub open spec fn read_on(at: Reading, c: char) -> Reading {
    match at {
        Reading::Open(t) => if c == '\'' {
            Reading::Quoted(t)
        } else if c == '\\' {
            Reading::Escaped(t)
        } else {
            Reading::Other
        },
        Reading::Quoted(t) => if c == '\'' {
            Reading::Open(t)
        } else {
            Reading::Quoted(t.push(c))
        },
        Reading::Escaped(t) => Reading::Open(t.push(c)),
        Reading::Other => Reading::Other,
    }
}

/// What a shell reads `s` as.
pub open spec fn shell_reads(s: Seq<char>) -> Reading
    decreases s.len(),
{
    if s.len() == 0 {
        Reading::Open(seq![])
    } else {
        read_on(shell_reads(s.drop_last()), s.last())
    }
}

proof fn lemma_reads_push(s: Seq<char>, c: char)
    ensures
        shell_reads(s.push(c)) == read_on(shell_reads(s), c),
{
    assert(s.push(c).drop_last() =~= s);
}

proof fn lemma_reads_body(s: Seq<char>)
    ensures
        shell_reads("'"@ + mapped(s, swap('\'', "'\\''"@))) == Reading::Quoted(s),
    decreases s.len(),
{
    reveal_strlit("'");
    reveal_strlit("'\\''");
    let f = swap('\'', "'\\''"@);
    if s.len() == 0 {
        assert(Seq::<char>::empty() =~= s);
        lemma_reads_push(seq![], '\'');
        assert("'"@ + mapped(s, f) =~= Seq::<char>::empty().push('\''));
    } else {
        let d = s.drop_last();
        let c = s.last();
        lemma_reads_body(d);
        let a = "'"@ + mapped(d, f);
        assert(s =~= d.push(c));
        if c == '\'' {
            lemma_reads_push(a, '\'');
            lemma_reads_push(a.push('\''), '\\');
            lemma_reads_push(a.push('\'').push('\\'), '\'');
            lemma_reads_push(a.push('\'').push('\\').push('\''), '\'');
            assert("'"@ + mapped(s, f) =~= a.push('\'').push('\\').push('\'').push('\''));
        } else {
            lemma_reads_push(a, c);
            assert("'"@ + mapped(s, f) =~= a.push(c));
        }
    }
}

/// A shell reads a quoted string as that string, whatever it holds.
pub proof fn quoted_is_read_back(s: Seq<char>)
    ensures
        shell_reads(quoted(s)) == Reading::Open(s),
{
    lemma_reads_body(s);
    reveal_strlit("'");
    let a = "'"@ + mapped(s, swap('\'', "'\\''"@));
    lemma_reads_push(a, '\'');
    assert(quoted(s) =~= a.push('\''));
}

} // verus!
