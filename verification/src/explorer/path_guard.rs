//! Keeping paths below a root.
//!
//! Here a path is resolved and then seen to lie below the resolved root. On a remote machine it
//! cannot be resolved, so only its text is looked at.

use crate::pathname::{
    begins_at_root, climbs, components, is_absolute, join_path, lemma_components_join,
    path_components, path_join,
};
use crate::split::is_head;
use crate::text::{
    copy, in_list, only, opt_text, strip_back, strip_front, trim_end_char, trim_start_char,
};
use vstd::prelude::*;

verus! {

/// Why a path is refused.
#[derive(Clone, Copy, PartialEq, Eq, Debug, Structural)]
pub enum GuardError {
    /// The root does not begin at the root of the file system.
    RelativeRoot,
    /// The root cannot be resolved.
    UnresolvedRoot,
    /// The path leads to a directory above.
    Climbs,
    /// The path begins at the root of the file system.
    Absolute,
    /// The path leads out of the root.
    Outside,
}

/// A path from the root, without slashes in front.
pub open spec fn from_root(rel: Seq<char>) -> Seq<char> {
    strip_front(rel, only('/'))
}

/// What is wrong with the text of a path.
pub open spec fn flaw(rel: Seq<char>) -> Option<GuardError> {
    if is_absolute(rel) {
        Some(GuardError::Absolute)
    } else if climbs(rel) {
        Some(GuardError::Climbs)
    } else {
        None
    }
}

/// Refuses a path that begins at the root of the file system or leads to a directory above.
pub fn check_no_escape_syntax(rel: &str) -> (r: Result<(), GuardError>)
    ensures
        match r {
            Ok(_) => flaw(rel@) is None,
            Err(e) => flaw(rel@) == Some(e),
        },
{
    if begins_at_root(rel) {
        return Err(GuardError::Absolute);
    }
    let c: Vec<String> = path_components(rel);
    if in_list(&c, "..") {
        return Err(GuardError::Climbs);
    }
    Ok(())
}

/// A path on a remote machine: the root, and below it the path given.
pub open spec fn remote_path(root: Seq<char>, rel: Seq<char>) -> Result<Seq<char>, GuardError> {
    let t = from_root(rel);
    match flaw(t) {
        Some(e) => Err(e),
        None => if t.len() == 0 {
            Ok(root)
        } else {
            Ok(strip_back(root, only('/')) + "/"@ + t)
        },
    }
}

/// A path as text, where it is not refused.
pub open spec fn guarded(r: Result<String, GuardError>) -> Result<Seq<char>, GuardError> {
    match r {
        Ok(p) => Ok(p@),
        Err(e) => Err(e),
    }
}

/// A path on a remote machine: the root, and below it the path given.
pub fn join_within_root_remote(root: &str, rel: &str) -> (r: Result<String, GuardError>)
    ensures
        guarded(r) == remote_path(root@, rel@),
{
    let t: String = trim_start_char(rel, '/');
    if let Err(e) = check_no_escape_syntax(t.as_str()) {
        return Err(e);
    }
    if t.as_str().is_empty() {
        return Ok(copy(root));
    }
    let mut p: String = trim_end_char(root, '/');
    p.append("/");
    p.append(t.as_str());
    Ok(p)
}

/// A remote path that is not refused lies below the root: it has the root's components and then
/// those of the path given, none of which leads to a directory above.
pub proof fn remote_path_stays_below(root: Seq<char>, rel: Seq<char>)
    ensures
        remote_path(root, rel) matches Ok(p) ==> components(p) == components(root) + components(
            from_root(rel),
        ) && !components(from_root(rel)).contains(".."@),
{
    if remote_path(root, rel) is Ok {
        let t = from_root(rel);
        let clean = strip_back(root, only('/'));
        reveal_strlit("/");
        lemma_components_slashes(root);
        if t.len() == 0 {
            crate::pathname::lemma_components_empty();
            assert(t =~= Seq::<char>::empty());
            assert(components(root) + components(t) =~= components(root));
        } else {
            lemma_components_join(clean, t);
            assert(clean + "/"@ + t =~= clean.push('/') + t);
        }
    }
}

/// Slashes at the end of a path do not change its components.
proof fn lemma_components_slashes(p: Seq<char>)
    ensures
        components(strip_back(p, only('/'))) == components(p),
    decreases p.len(),
{
    crate::text::lemma_trail_bounds(p, only('/'));
    if p.len() > 0 && p.last() == '/' {
        let d = p.drop_last();
        assert(only('/')(p.last()));
        crate::text::lemma_trail_bounds(d, only('/'));
        lemma_components_slashes(d);
        assert(strip_back(p, only('/')) =~= strip_back(d, only('/')));
        let e = Seq::<char>::empty();
        lemma_components_join(d, e);
        crate::pathname::lemma_components_empty();
        assert(p =~= d.push('/') + e);
        assert(components(d) + components(e) =~= components(d));
    } else {
        assert(!(p.len() > 0 && only('/')(p.last())));
        assert(strip_back(p, only('/')) =~= p);
    }
}

/// Whether a path lies below a root, component by component, or is the root.
pub open spec fn inside(p: Seq<char>, root: Seq<char>) -> bool {
    is_absolute(p) == is_absolute(root) && components(root).is_prefix_of(components(p))
}

fn is_inside(p: &str, root: &str) -> (r: bool)
    ensures
        r == inside(p@, root@),
{
    if begins_at_root(p) != begins_at_root(root) {
        return false;
    }
    let a: Vec<String> = path_components(p);
    let b: Vec<String> = path_components(root);
    is_head(&b, &a)
}

/// The path to resolve for a path below a resolved root.
pub fn local_candidate(canon_root: &str, rel: &str) -> (r: String)
    ensures
        r@ == path_join(canon_root@, from_root(rel@)),
{
    join_path(canon_root, trim_start_char(rel, '/').as_str())
}

/// A path here: resolved, where it is there, and below the resolved root.
pub open spec fn local_path(
    root: Seq<char>,
    rel: Seq<char>,
    canon_root: Option<Seq<char>>,
    canon: Option<Seq<char>>,
) -> Result<Seq<char>, GuardError> {
    if !is_absolute(root) {
        Err(GuardError::RelativeRoot)
    } else if canon_root is None {
        Err(GuardError::UnresolvedRoot)
    } else if flaw(from_root(rel)) is Some {
        Err(flaw(from_root(rel))->0)
    } else {
        let p = match canon {
            Some(c) => c,
            None => path_join(canon_root->0, from_root(rel)),
        };
        if inside(p, canon_root->0) {
            Ok(p)
        } else {
            Err(GuardError::Outside)
        }
    }
}

/// A path here. `canon_root` is the root resolved, and `canon` the candidate below it resolved,
/// where these are there.
pub fn join_within_root_local(
    root: &str,
    rel: &str,
    canon_root: &Option<String>,
    canon: &Option<String>,
) -> (r: Result<String, GuardError>)
    ensures
        guarded(r) == local_path(root@, rel@, opt_text(*canon_root), opt_text(*canon)),
{
    if !begins_at_root(root) {
        return Err(GuardError::RelativeRoot);
    }
    let cr: &String = match canon_root {
        Some(c) => c,
        None => {
            return Err(GuardError::UnresolvedRoot);
        },
    };
    let t: String = trim_start_char(rel, '/');
    if let Err(e) = check_no_escape_syntax(t.as_str()) {
        return Err(e);
    }
    let p: String = match canon {
        Some(c) => copy(c.as_str()),
        None => join_path(cr.as_str(), t.as_str()),
    };
    if is_inside(p.as_str(), cr.as_str()) {
        Ok(p)
    } else {
        Err(GuardError::Outside)
    }
}

/// A path here that is not refused lies below the resolved root, wherever links lead.
pub proof fn local_path_stays_below(
    root: Seq<char>,
    rel: Seq<char>,
    canon_root: Option<Seq<char>>,
    canon: Option<Seq<char>>,
)
    ensures
        local_path(root, rel, canon_root, canon) matches Ok(p) ==> canon_root is Some && inside(
            p,
            canon_root->0,
        ),
{
}

/// A path below the root of a remote machine is the root, slashes at its end left aside, a slash and the
/// path; slashes before the path count for nothing, and no path at all is the root itself.
pub proof fn remote_path_is_root_and_path(
    x: Seq<char>,
    slashes: Seq<char>,
    rel: Seq<char>,
    lead: Seq<char>,
)
    requires
        forall|k: int| 0 <= k < slashes.len() ==> #[trigger] slashes[k] == '/',
        forall|k: int| 0 <= k < lead.len() ==> #[trigger] lead[k] == '/',
        x.len() > 0 ==> x.last() != '/',
        rel.len() > 0 ==> rel[0] != '/',
    ensures
        ({
            let root = x + slashes;
            &&& rel.len() == 0 ==> remote_path(root, lead + rel) == Ok::<Seq<char>, GuardError>(root)
            &&& rel.len() > 0 && !components(rel).contains(".."@) ==> remote_path(root, lead + rel)
                == Ok::<Seq<char>, GuardError>(x + "/"@ + rel)
            &&& components(rel).contains(".."@) ==> remote_path(root, lead + rel) == Err::<
                Seq<char>,
                GuardError,
            >(GuardError::Climbs)
        }),
{
    let root = x + slashes;
    let p = only('/');
    if x.len() > 0 {
        assert(root[root.len() - slashes.len() - 1] == x.last());
    }
    crate::text::lemma_trail_is(root, p, slashes.len());
    assert(strip_back(root, p) =~= x);
    let t = lead + rel;
    if rel.len() > 0 {
        assert(t[lead.len() as int] == rel[0]);
    }
    crate::text::lemma_lead_is(t, p, lead.len());
    assert(from_root(t) =~= rel);
    if rel.len() == 0 {
        assert(rel =~= Seq::<char>::empty());
        crate::pathname::lemma_components_empty();
    }
}

/// A path on this machine is what it resolves to, where that lies below the root, and else refused; one
/// that does not exist yet is the root with the path below it.
pub proof fn local_path_is_what_it_resolves_to(
    root: Seq<char>,
    rel: Seq<char>,
    r: Seq<char>,
    rest: Seq<char>,
    other: Seq<char>,
)
    requires
        is_absolute(root),
        is_absolute(r),
        !components(from_root(rel)).contains(".."@),
    ensures
        local_path(root, rel, Some(r), Some(r + "/"@ + rest)) == Ok::<Seq<char>, GuardError>(
            r + "/"@ + rest,
        ),
        local_path(root, rel, Some(r), Some(r)) == Ok::<Seq<char>, GuardError>(r),
        !components(r).is_prefix_of(components(other)) ==> local_path(
            root,
            rel,
            Some(r),
            Some(other),
        ) == Err::<Seq<char>, GuardError>(GuardError::Outside),
        local_path(root, rel, None, Some(r)) == Err::<Seq<char>, GuardError>(
            GuardError::UnresolvedRoot,
        ),
        inside(path_join(r, from_root(rel)), r) ==> local_path(root, rel, Some(r), None) == Ok::<
            Seq<char>,
            GuardError,
        >(path_join(r, from_root(rel))),
{
    reveal_strlit("/");
    assert(r + "/"@ + rest =~= r.push('/') + rest);
    lemma_components_join(r, rest);
    let a = components(r);
    let b = components(rest);
    assert((a + b).subrange(0, a.len() as int) =~= a);
    assert(a.subrange(0, a.len() as int) =~= a);
    crate::text::lemma_lead_bounds(rel, only('/'));
    let t = from_root(rel);
    if t.len() > 0 {
        assert(t[0] == rel[crate::text::lead(rel, only('/')) as int]);
    }
}

} // verus!
