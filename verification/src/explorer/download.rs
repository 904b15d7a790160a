//! The name that a downloaded file is saved under.

use crate::number::{decimal, decimal_round_trip, push_u64};
use crate::pathname::{
    components, file_name, join_path, lemma_components_empty, lemma_components_join,
    lemma_join_component, path_file_name, path_join, plain,
};
use crate::split::{lemma_last_index_is, rcut, rsplit_once};
use crate::text::{copy, opt_text};
use vstd::prelude::*;

verus! {

/// The name of the file at `rel`, or `download` where it has none.
pub open spec fn base_name(rel: Seq<char>) -> Seq<char> {
    match file_name(rel) {
        Some(n) => n,
        None => "download"@,
    }
}

/// A name before its last dot, and from that dot on; a name without a dot, or with one in front
/// only, has no second part.
pub open spec fn stem_and_rest(name: Seq<char>) -> (Seq<char>, Seq<char>) {
    match rcut(name, '.') {
        Some((s, e)) => if s.len() > 0 {
            (s, "."@ + e)
        } else {
            (name, seq![])
        },
        None => (name, seq![]),
    }
}

/// How many names are tried.
pub const CANDIDATES: u64 = 1000;

/// The name that is tried after `n` others: the name itself, and then with ` (n)` before its
/// extension.
pub open spec fn candidate(name: Seq<char>, n: nat) -> Seq<char> {
    if n == 0 {
        name
    } else {
        let (stem, rest) = stem_and_rest(name);
        stem + " ("@ + decimal(n) + ")"@ + rest
    }
}

/// The path that is tried after `n` others for saving the file at `rel` below `home`; none where
/// all names were tried.
pub fn unique_download_path(home: &str, rel: &str, n: u64) -> (r: Option<String>)
    ensures
        opt_text(r) == if n < CANDIDATES {
            Some(
                path_join(path_join(home@, "Downloads"@), candidate(base_name(rel@), n as nat)),
            )
        } else {
            None::<Seq<char>>
        },
{
    if n >= CANDIDATES {
        return None;
    }
    let name: String = match path_file_name(rel) {
        Some(x) => x,
        None => copy("download"),
    };
    let dir: String = join_path(home, "Downloads");
    if n == 0 {
        return Some(join_path(dir.as_str(), name.as_str()));
    }
    let (stem, rest): (String, String) = match rsplit_once(name.as_str(), '.') {
        Some((s, e)) => if s.as_str().is_empty() {
            let none: String = String::new();
            assert(none@ =~= seq![]);
            (copy(name.as_str()), none)
        } else {
            let mut dotted: String = copy(".");
            dotted.append(e.as_str());
            (s, dotted)
        },
        None => {
            let none: String = String::new();
            assert(none@ =~= seq![]);
            (copy(name.as_str()), none)
        },
    };
    let mut t: String = stem;
    t.append(" (");
    push_u64(&mut t, n);
    t.append(")");
    t.append(rest.as_str());
    assert(t@ =~= candidate(name@, n as nat));
    Some(join_path(dir.as_str(), t.as_str()))
}

/// No two tries are for the same name.
pub proof fn candidates_differ(name: Seq<char>, m: nat, n: nat)
    requires
        m != n,
    ensures
        candidate(name, m) != candidate(name, n),
{
    let (stem, rest) = stem_and_rest(name);
    reveal_strlit(" (");
    reveal_strlit(")");
    reveal_strlit(".");
    crate::split::lemma_last_index_of(name, '.');
    assert(name =~= stem + rest);
    let a = candidate(name, m);
    let b = candidate(name, n);
    if a == b {
        if m == 0 {
            assert(b.len() > name.len());
        } else if n == 0 {
            assert(a.len() > name.len());
        } else {
            let k = stem.len() as int + 2;
            let da = decimal(m);
            let db = decimal(n);
            assert(a.len() == k + da.len() + 1 + rest.len());
            assert(b.len() == k + db.len() + 1 + rest.len());
            assert(a.subrange(k, k + da.len()) =~= da);
            assert(b.subrange(k, k + db.len()) =~= db);
            decimal_round_trip(m);
            decimal_round_trip(n);
        }
    }
}

/// A file is saved under its own name; where that is taken, under its stem, the number of the try in
/// brackets, and its extension.
pub proof fn download_keeps_name_and_extension(stem: Seq<char>, ext: Seq<char>, n: nat)
    requires
        stem.len() > 0,
        !ext.contains('.'),
        n > 0,
    ensures
        candidate(stem + "."@ + ext, 0) == stem + "."@ + ext,
        candidate(stem + "."@ + ext, n) == stem + " ("@ + decimal(n) + ")"@ + "."@ + ext,
        !stem.contains('.') ==> candidate(stem, n) == stem + " ("@ + decimal(n) + ")"@,
{
    reveal_strlit(".");
    let name = stem + "."@ + ext;
    let at = stem.len() as int;
    assert(name[at] == '.');
    assert forall|k: int| at < k < name.len() implies #[trigger] name[k] != '.' by {
        assert(name[k] == ext[k - at - 1]);
        assert(ext.contains(ext[k - at - 1]));
    }
    lemma_last_index_is(name, '.', at);
    assert(name.take(at) =~= stem);
    assert(name.skip(at + 1) =~= ext);
    assert(candidate(name, n) =~= stem + " ("@ + decimal(n) + ")"@ + "."@ + ext);
    if !stem.contains('.') {
        assert forall|k: int| -1 < k < stem.len() implies #[trigger] stem[k] != '.' by {
            assert(stem.contains(stem[k]));
        }
        lemma_last_index_is(stem, '.', -1);
        assert(candidate(stem, n) =~= stem + " ("@ + decimal(n) + ")"@);
    }
}

/// The name is the last component of the path.
pub proof fn download_is_named_after_the_file(dir: Seq<char>, name: Seq<char>)
    requires
        plain(name),
    ensures
        base_name(dir + "/"@ + name) == name,
        base_name(Seq::empty()) == "download"@,
{
    reveal_strlit("/");
    assert(dir + "/"@ + name =~= dir.push('/') + name);
    lemma_components_join(dir, name);
    let e = Seq::<char>::empty();
    lemma_join_component(e, name);
    assert(path_join(e, name) =~= name) by {
        assert(name.contains(name[0]));
    }
    lemma_components_empty();
    assert(components(name) =~= seq![name]);
    assert(components(dir.push('/') + name).last() == name);
}

} // verus!
