//! The names that go with an agent: each is made from the word the agent is called by.

use crate::text::{chars_of, copy};
use vstd::prelude::*;

verus! {

/// An ASCII letter in upper case; any other character as it is.
pub open spec fn upper(c: char) -> char {
    if 'a' <= c <= 'z' {
        (c as u32 - 32) as char
    } else {
        c
    }
}

/// A character in ASCII upper case.
fn upper_char(c: char) -> (r: char)
    ensures
        r == upper(c),
{
    if 'a' <= c && c <= 'z' {
        let b: u8 = c as u8;
        (b - 32) as char
    } else {
        c
    }
}

/// A word with its first `n` letters in upper case.
pub open spec fn raised(s: Seq<char>, n: int) -> Seq<char> {
    Seq::new(
        s.len(),
        |i: int|
            if i < n {
                upper(s[i])
            } else {
                s[i]
            },
    )
}

fn raise(s: &str, n: usize) -> (r: String)
    ensures
        r@ == raised(s@, n as int),
{
    let cs: Vec<char> = chars_of(s);
    let mut out: String = String::new();
    let mut i: usize = 0;
    while i < cs.len()
        invariant
            i <= cs@.len(),
            cs@ == s@,
            out@ == raised(s@, n as int).take(i as int),
        decreases cs@.len() - i,
    {
        if i < n {
            out.push(upper_char(cs[i]));
        } else {
            out.push(cs[i]);
        }
        i += 1;
        assert(raised(s@, n as int).take(i as int) =~= raised(s@, n as int).take(i - 1).push(
            raised(s@, n as int)[i - 1],
        ));
    }
    assert(raised(s@, n as int).take(i as int) =~= raised(s@, n as int));
    out
}

/// The name of the file with the agent's memory: the word in upper case, and `.md`.
pub open spec fn memory_name(agent: Seq<char>) -> Seq<char> {
    raised(agent, agent.len() as int) + ".md"@
}

/// The name of the file with the agent's memory.
pub fn memory_file(agent: &str) -> (r: String)
    ensures
        r@ == memory_name(agent@),
{
    let cs: Vec<char> = chars_of(agent);
    let mut s: String = raise(agent, cs.len());
    s.append(".md");
    s
}

/// The name of the binary that passes the agent's hooks on.
pub open spec fn binary_name(agent: Seq<char>) -> Seq<char> {
    "ccc-"@ + agent + "-code-hook"@
}

/// The name of the binary that passes the agent's hooks on.
pub fn hook_binary(agent: &str) -> (r: String)
    ensures
        r@ == binary_name(agent@),
{
    let mut s: String = copy("ccc-");
    s.append(agent);
    s.append("-code-hook");
    s
}

/// What the agent's credentials are kept under, before the mark of the directory.
pub open spec fn service_prefix(agent: Seq<char>) -> Seq<char> {
    raised(agent, 1) + " Code-credentials-"@
}

/// What the agent's credentials are kept under, before the mark of the directory.
pub fn credential_service(agent: &str) -> (r: String)
    ensures
        r@ == service_prefix(agent@),
{
    let mut s: String = raise(agent, 1);
    s.append(" Code-credentials-");
    s
}

/// The agent's memory file is its name in capitals, and its keychain service begins with its name with a
/// capital letter in front; every other character stays.
pub proof fn names_are_made_of_the_agents(agent: Seq<char>, i: int)
    requires
        0 <= i < agent.len(),
    ensures
        memory_name(agent).len() == agent.len() + 3,
        ".md"@.is_suffix_of(memory_name(agent)),
        'a' <= agent[i] <= 'z' ==> memory_name(agent)[i] as int == agent[i] as int - ('a' as int
            - 'A' as int),
        !('a' <= agent[i] <= 'z') ==> memory_name(agent)[i] == agent[i],
        i > 0 ==> service_prefix(agent)[i] == agent[i],
        'a' <= agent[0] <= 'z' ==> service_prefix(agent)[0] as int == agent[0] as int - ('a' as int
            - 'A' as int),
        " Code-credentials-"@.is_suffix_of(service_prefix(agent)),
        binary_name(agent) == "ccc-"@ + agent + "-code-hook"@,
{
    reveal_strlit(".md");
    let m = memory_name(agent);
    let s = service_prefix(agent);
    let e = " Code-credentials-"@;
    assert(m.subrange(m.len() - 3, m.len() as int) =~= ".md"@);
    assert(s.subrange(s.len() - e.len(), s.len() as int) =~= e);
}

} // verus!
