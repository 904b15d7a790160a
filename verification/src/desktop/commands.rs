//! What the program's smaller commands answer.

use crate::order::{ascending, lemma_text_asymmetric, sorted_texts, text_before};
use crate::split::starts_with;
use crate::text::{copy, copy_all, same, texts};
use vstd::prelude::*;

verus! {

// ---------------------------------------------------------------- profiles

/// Whether a directory's name is a profile's: hidden ones are none.
pub open spec fn visible(name: Seq<char>) -> bool {
    !(name.len() > 0 && name[0] == '.')
}

/// The visible ones among the first `n` names.
pub open spec fn visible_names(v: Seq<Seq<char>>, n: int) -> Seq<Seq<char>>
    decreases n,
{
    if n <= 0 {
        seq![]
    } else if visible(v[n - 1]) {
        visible_names(v, n - 1).push(v[n - 1])
    } else {
        visible_names(v, n - 1)
    }
}

fn keep_visible(names: &Vec<String>) -> (r: Vec<String>)
    ensures
        texts(r@) == visible_names(texts(names@), names@.len() as int),
{
    proof {
        reveal_strlit(".");
    }
    let mut out: Vec<String> = Vec::new();
    let mut i: usize = 0;
    assert(texts(out@) =~= visible_names(texts(names@), 0));
    while i < names.len()
        invariant
            i <= names@.len(),
            "."@ =~= seq!['.'],
            texts(out@) == visible_names(texts(names@), i as int),
        decreases names@.len() - i,
    {
        assert(texts(names@)[i as int] == names@[i as int]@);
        let hidden: bool = starts_with(names[i].as_str(), ".");
        assert(hidden == !visible(names@[i as int]@)) by {
            let n = names@[i as int]@;
            if n.len() > 0 {
                assert(n.take(1)[0] == n[0]);
            }
        }
        if !hidden {
            let ghost before = out@;
            out.push(copy(names[i].as_str()));
            assert(texts(out@) =~= texts(before).push(names@[i as int]@));
        }
        i += 1;
    }
    out
}

/// Whether profiles are listed as they should be: every one once, in order, but for `default`,
/// which comes first.
pub open spec fn lists_profiles(r: Seq<Seq<char>>, names: Seq<Seq<char>>) -> bool {
    if names.len() == 0 {
        r == seq!["default"@]
    } else if names.contains("default"@) {
        &&& r.len() > 0
        &&& r[0] == "default"@
        &&& ascending(r.skip(1))
        &&& !r.skip(1).contains("default"@)
        &&& forall|x: Seq<char>| r.contains(x) <==> names.contains(x)
    } else {
        &&& ascending(r)
        &&& forall|x: Seq<char>| r.contains(x) <==> names.contains(x)
    }
}

/// The texts without one of them.
fn without(v: &Vec<String>, at: usize) -> (r: Vec<String>)
    requires
        at < v@.len(),
        ascending(texts(v@)),
    ensures
        ascending(texts(r@)),
        !texts(r@).contains(texts(v@)[at as int]),
        forall|x: Seq<char>|
            texts(r@).contains(x) || x == texts(v@)[at as int] <==> texts(v@).contains(x),
{
    let mut r: Vec<String> = copy_all(v);
    let _ = r.remove(at);
    proof {
        let t = texts(v@);
        let u = texts(r@);
        assert(u =~= t.remove(at as int));
        assert forall|i: int, j: int| 0 <= i < j < u.len() implies text_before(
            #[trigger] u[i],
            #[trigger] u[j],
        ) by {
            let a = if i < at {
                i
            } else {
                i + 1
            };
            let b = if j < at {
                j
            } else {
                j + 1
            };
            assert(u[i] == t[a] && u[j] == t[b]);
        }
        assert(!u.contains(t[at as int])) by {
            if u.contains(t[at as int]) {
                let i = choose|i: int| 0 <= i < u.len() && u[i] == t[at as int];
                let a = if i < at {
                    i
                } else {
                    i + 1
                };
                assert(u[i] == t[a]);
                if a < at {
                    lemma_text_asymmetric(t[a], t[at as int]);
                } else {
                    lemma_text_asymmetric(t[at as int], t[a]);
                }
            }
        }
        assert forall|x: Seq<char>|
            u.contains(x) || x == t[at as int] <==> t.contains(x) by {
            if u.contains(x) {
                let i = choose|i: int| 0 <= i < u.len() && u[i] == x;
                assert(t[if i < at {
                    i
                } else {
                    i + 1
                }] == x);
            }
            if t.contains(x) {
                let i = choose|i: int| 0 <= i < t.len() && t[i] == x;
                if i < at {
                    assert(u[i] == x);
                } else if i > at {
                    assert(u[i - 1] == x);
                }
            }
        }
    }
    r
}

fn find_text(v: &Vec<String>, s: &str) -> (r: Option<usize>)
    ensures
        match r {
            Some(i) => i < v@.len() && texts(v@)[i as int] == s@,
            None => !texts(v@).contains(s@),
        },
{
    let mut i: usize = 0;
    while i < v.len()
        invariant
            i <= v@.len(),
            forall|k: int| 0 <= k < i ==> #[trigger] texts(v@)[k] != s@,
        decreases v@.len() - i,
    {
        if same(v[i].as_str(), s) {
            return Some(i);
        }
        assert(texts(v@)[i as int] == v@[i as int]@);
        i += 1;
    }
    None
}

/// The profiles, from the names of the directories that hold them: in order, `default` before the
/// others; `default` alone where there are none or they cannot be read.
pub fn list_claude_profiles(names: &Option<Vec<String>>) -> (r: Vec<String>)
    ensures
        lists_profiles(
            texts(r@),
            match *names {
                Some(v) => visible_names(texts(v@), v@.len() as int),
                None => seq![],
            },
        ),
{
    let kept: Vec<String> = match names {
        Some(v) => keep_visible(v),
        None => Vec::new(),
    };
    if kept.len() == 0 {
        let r: Vec<String> = vec![copy("default")];
        assert(texts(r@) =~= seq!["default"@]);
        assert(texts(kept@).len() == 0);
        assert(texts(kept@) =~= seq![]);
        return r;
    }
    let sorted: Vec<String> = sorted_texts(&kept);
    assert(texts(kept@).len() > 0);
    match find_text(&sorted, "default") {
        Some(at) => {
            let mut rest: Vec<String> = without(&sorted, at);
            let ghost tail = texts(rest@);
            rest.insert(0, copy("default"));
            proof {
                let r = texts(rest@);
                assert(r =~= seq!["default"@] + tail);
                assert(r.skip(1) =~= tail);
                assert(texts(sorted@).contains("default"@));
                assert forall|x: Seq<char>| r.contains(x) <==> texts(kept@).contains(x) by {
                    if r.contains(x) {
                        let i = choose|i: int| 0 <= i < r.len() && r[i] == x;
                        if i > 0 {
                            assert(tail[i - 1] == x);
                        }
                    }
                    if texts(kept@).contains(x) {
                        if x == "default"@ {
                            assert(r[0] == x);
                        } else {
                            let i = choose|i: int| 0 <= i < tail.len() && tail[i] == x;
                            assert(r[i + 1] == x);
                        }
                    }
                }
            }
            rest
        },
        None => sorted,
    }
}

// ---------------------------------------------------------------- fonts

/// The families of the fonts that were found, in order, each once.
pub fn list_system_fonts(families: &Vec<String>) -> (r: Vec<String>)
    ensures
        ascending(texts(r@)),
        forall|x: Seq<char>| texts(r@).contains(x) <==> texts(families@).contains(x),
{
    sorted_texts(families)
}

/// Why a font cannot be handed out.
#[derive(Clone, Copy, PartialEq, Eq, Debug, Structural)]
pub enum FontError {
    /// No font of that family.
    NotFound,
    /// The font has no data.
    NoFace,
    /// It is not the first of its file, and the others cannot be named.
    InCollection(u32),
}

/// Whether a font can be handed out: whether it was found, and its place in its file.
pub fn read_font_face(found: bool, place: Option<u32>) -> (r: Result<(), FontError>)
    ensures
        r is Ok <==> found && place == Some(0u32),
        r matches Err(e) ==> e == if !found {
            FontError::NotFound
        } else if place is None {
            FontError::NoFace
        } else {
            FontError::InCollection(place->0)
        },
{
    if !found {
        return Err(FontError::NotFound);
    }
    match place {
        None => Err(FontError::NoFace),
        Some(n) => if n != 0 {
            Err(FontError::InCollection(n))
        } else {
            Ok(())
        },
    }
}

// ---------------------------------------------------------------- credentials

/// Credentials that could be copied from an instance. Instances share those of their profile, so
/// there are none to copy.
pub struct AuthInfo {
    pub id: String,
    pub name: String,
    pub has_credentials: bool,
    pub copied_from: Option<String>,
}

/// The instances whose credentials could be copied: none.
pub fn list_auth_sources() -> (r: Vec<AuthInfo>)
    ensures
        r@.len() == 0,
{
    Vec::new()
}

// ---------------------------------------------------------------- what the lists promise

/// Names that begin with a dot are left out, and no other.
pub proof fn hidden_names_are_left_out(v: Seq<Seq<char>>, n: int, x: Seq<char>)
    requires
        0 <= n <= v.len(),
    ensures
        visible_names(v, n).contains(x) <==> v.take(n).contains(x) && (x.len() == 0 || x[0] != '.'),
    decreases n,
{
    if n > 0 {
        hidden_names_are_left_out(v, n - 1, x);
        let a = visible_names(v, n - 1);
        assert(v.take(n) =~= v.take(n - 1).push(v[n - 1]));
        lemma_push_contains(v.take(n - 1), v[n - 1], x);
        lemma_push_contains(a, v[n - 1], x);
    }
}

proof fn lemma_push_contains(s: Seq<Seq<char>>, y: Seq<char>, x: Seq<char>)
    ensures
        s.push(y).contains(x) <==> s.contains(x) || x == y,
{
    assert(s.push(y)[s.len() as int] == y);
    if s.contains(x) {
        let i = choose|i: int| 0 <= i < s.len() && s[i] == x;
        assert(s.push(y)[i] == x);
    }
    if s.push(y).contains(x) {
        let i = choose|i: int| 0 <= i < s.push(y).len() && s.push(y)[i] == x;
        if i < s.len() {
            assert(s[i] == x);
        }
    }
}

/// The profiles listed are the visible names that were found, none lost and none made up, with `default`
/// in front of the others where it is one of them; where there are none, `default` is listed alone.
pub proof fn profiles_are_the_visible_names(found: &Option<Vec<String>>, r: Vec<String>, x: Seq<char>)
    requires
        call_ensures(list_claude_profiles, (found,), r),
    ensures
        found is None ==> texts(r@) == seq!["default"@],
        found matches Some(v) ==> (texts(v@).contains(x) && (x.len() == 0 || x[0] != '.') ==> texts(
            r@,
        ).contains(x)),
        found matches Some(v) ==> (texts(r@).contains(x) && x != "default"@ ==> texts(v@).contains(x)
            && (x.len() == 0 || x[0] != '.')),
        found matches Some(v) ==> (texts(v@).contains("default"@) ==> r@.len() > 0 && texts(r@)[0]
            == "default"@),
        r@.len() > 0,
{
    reveal_strlit("default");
    let d = "default"@;
    assert(d.len() == 7 && d[0] == 'd');
    let names = match *found {
        Some(v) => visible_names(texts(v@), v@.len() as int),
        None => seq![],
    };
    if let Some(v) = *found {
        hidden_names_are_left_out(texts(v@), v@.len() as int, x);
        hidden_names_are_left_out(texts(v@), v@.len() as int, d);
        assert(texts(v@).take(v@.len() as int) =~= texts(v@));
        if names.len() == 0 {
            assert(!names.contains(x));
            if texts(r@).contains(x) {
                let i = choose|i: int| 0 <= i < texts(r@).len() && texts(r@)[i] == x;
                assert(texts(r@)[i] == d);
            }
            assert(!names.contains(d));
        } else {
            assert(names.contains(names[0]));
            assert(texts(r@).contains(names[0]));
        }
    }
    assert(texts(r@).len() == r@.len());
}

/// A font can be read where it was found and is the first of its file; every failure says which of these
/// did not hold.
pub proof fn font_is_the_first_of_its_file(found: bool, place: Option<u32>, r: Result<(), FontError>)
    requires
        call_ensures(read_font_face, (found, place), r),
    ensures
        !found ==> r == Err::<(), FontError>(FontError::NotFound),
        found && place is None ==> r == Err::<(), FontError>(FontError::NoFace),
        found && place == Some(0u32) ==> r is Ok,
        found ==> (place matches Some(n) ==> n != 0 ==> r == Err::<(), FontError>(
            FontError::InCollection(n),
        )),
{
}

} // verus!
