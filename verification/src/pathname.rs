//! Names of files on a Unix system, taken apart and put together as text.

use crate::split::{
    fields, last_index_of, lemma_fields_first, lemma_fields_free, lemma_fields_join,
    lemma_fields_last, lemma_last_index_is, lemma_last_index_of, rcut, rsplit_once, split,
    starts_with,
};
use crate::text::{chars_of, copy, lemma_texts_push, opt_text, same, texts};
use vstd::prelude::*;

verus! {

/// Whether a path begins at the root.
pub open spec fn is_absolute(p: Seq<char>) -> bool {
    p.len() > 0 && p[0] == '/'
}

/// `b` below `a`; `b` alone where it begins at the root.
pub open spec fn path_join(a: Seq<char>, b: Seq<char>) -> Seq<char> {
    if is_absolute(b) {
        b
    } else if a.len() > 0 && a.last() != '/' {
        a.push('/') + b
    } else {
        a + b
    }
}

/// The components of a path but for the root: what stands between slashes, neither empty nor a
/// single dot.
pub open spec fn pieces(f: Seq<Seq<char>>) -> Seq<Seq<char>>
    decreases f.len(),
{
    if f.len() == 0 {
        seq![]
    } else if f.last().len() == 0 || f.last() == "."@ {
        pieces(f.drop_last())
    } else {
        pieces(f.drop_last()).push(f.last())
    }
}

/// The components of a path but for the root.
pub open spec fn components(p: Seq<char>) -> Seq<Seq<char>> {
    pieces(fields(p, '/'))
}

/// Whether a component leads to the directory above.
pub open spec fn climbs(p: Seq<char>) -> bool {
    components(p).contains(".."@)
}

/// The last component of a path, unless that leads to the directory above.
pub open spec fn file_name(p: Seq<char>) -> Option<Seq<char>> {
    let c = components(p);
    if c.len() == 0 || c.last() == ".."@ {
        None
    } else {
        Some(c.last())
    }
}

/// What a file's name holds before its last dot and behind it; a name that begins with its only
/// dot has no extension.
pub open spec fn name_parts(name: Seq<char>) -> (Seq<char>, Option<Seq<char>>) {
    match rcut(name, '.') {
        Some((a, b)) => if a.len() == 0 {
            (name, None)
        } else {
            (a, Some(b))
        },
        None => (name, None),
    }
}

/// The extension of a path's file name.
pub open spec fn extension(p: Seq<char>) -> Option<Seq<char>> {
    match file_name(p) {
        Some(n) => name_parts(n).1,
        None => None,
    }
}

/// Leaving out empty pieces and single dots loses no other piece.
pub proof fn lemma_pieces_contain(f: Seq<Seq<char>>, x: Seq<char>)
    requires
        x.len() > 0,
        x != "."@,
    ensures
        pieces(f).contains(x) == f.contains(x),
    decreases f.len(),
{
    if f.len() > 0 {
        let t = f.drop_last();
        lemma_pieces_contain(t, x);
        if f.contains(x) {
            let i = choose|i: int| 0 <= i < f.len() && f[i] == x;
            if i < t.len() {
                assert(t[i] == x);
                assert(pieces(t).contains(x));
                let k = choose|k: int| 0 <= k < pieces(t).len() && pieces(t)[k] == x;
                assert(pieces(f)[k] == x);
            } else {
                assert(pieces(f).last() == x);
                assert(pieces(f)[pieces(f).len() - 1] == x);
            }
        }
        if pieces(f).contains(x) {
            let k = choose|k: int| 0 <= k < pieces(f).len() && pieces(f)[k] == x;
            if pieces(f) == pieces(t) || k < pieces(t).len() {
                assert(pieces(t)[k] == x);
                assert(t.contains(x));
                let i = choose|i: int| 0 <= i < t.len() && t[i] == x;
                assert(f[i] == x);
            } else {
                assert(f[f.len() - 1] == x);
            }
        }
    }
}

/// `Path::join` on text.
pub fn join_path(a: &str, b: &str) -> (r: String)
    ensures
        r@ == path_join(a@, b@),
{
    let bs: Vec<char> = chars_of(b);
    if bs.len() > 0 && bs[0] == '/' {
        return copy(b);
    }
    let aa: Vec<char> = chars_of(a);
    let mut out: String = copy(a);
    if aa.len() > 0 && aa[aa.len() - 1] != '/' {
        out.push('/');
    }
    out.append(b);
    out
}

/// Whether a path begins at the root.
pub fn begins_at_root(p: &str) -> (r: bool)
    ensures
        r == is_absolute(p@),
{
    let cs: Vec<char> = chars_of(p);
    cs.len() > 0 && cs[0] == '/'
}

/// The components of a path but for the root.
pub fn path_components(p: &str) -> (r: Vec<String>)
    ensures
        texts(r@) == components(p@),
{
    let f: Vec<String> = split(p, '/');
    let mut out: Vec<String> = Vec::new();
    let mut i: usize = 0;
    while i < f.len()
        invariant
            i <= f@.len(),
            texts(out@) == pieces(texts(f@).take(i as int)),
        decreases f@.len() - i,
    {
        proof {
            let t = texts(f@).take(i + 1);
            assert(t.drop_last() =~= texts(f@).take(i as int));
            assert(t.last() == f@[i as int]@);
        }
        if !(f[i].as_str().is_empty() || same(f[i].as_str(), ".")) {
            let s: String = copy(f[i].as_str());
            proof {
                lemma_texts_push(out@, s);
            }
            out.push(s);
        }
        i += 1;
    }
    assert(texts(f@).take(f@.len() as int) =~= texts(f@));
    out
}

/// `Path::file_name` on text.
pub fn path_file_name(p: &str) -> (r: Option<String>)
    ensures
        opt_text(r) == file_name(p@),
{
    let c: Vec<String> = path_components(p);
    assert(texts(c@).len() == c@.len());
    if c.len() == 0 {
        return None;
    }
    let last: &String = &c[c.len() - 1];
    assert(texts(c@).last() == last@);
    if same(last.as_str(), "..") {
        None
    } else {
        Some(copy(last.as_str()))
    }
}

/// A file's name before its last dot and behind it.
pub fn split_name(name: &str) -> (r: (String, Option<String>))
    ensures
        (r.0@, opt_text(r.1)) == name_parts(name@),
{
    match rsplit_once(name, '.') {
        Some((a, b)) => if a.as_str().is_empty() {
            (copy(name), None)
        } else {
            (a, Some(b))
        },
        None => (copy(name), None),
    }
}

/// `Path::extension` on text.
pub fn path_extension(p: &str) -> (r: Option<String>)
    ensures
        opt_text(r) == extension(p@),
{
    match path_file_name(p) {
        Some(n) => split_name(n.as_str()).1,
        None => None,
    }
}

/// Whether a name stands for an entry of a directory: it is neither empty, nor a single dot, nor
/// the directory above, and holds no slash.
pub open spec fn plain(name: Seq<char>) -> bool {
    name.len() > 0 && name != "."@ && name != ".."@ && !name.contains('/')
}

/// An entry of a directory is the directory's path with one component more.
pub proof fn lemma_join_component(a: Seq<char>, name: Seq<char>)
    requires
        plain(name),
    ensures
        components(path_join(a, name)) == components(a).push(name),
        is_absolute(a) ==> is_absolute(path_join(a, name)),
        a.is_prefix_of(path_join(a, name)),
{
    assert(name.contains(name[0]));
    assert(!is_absolute(name));
    let p = path_join(a, name);
    if a.len() == 0 {
        assert(p =~= name);
        lemma_fields_first(name, seq![], '/');
        lemma_fields_first(a, seq![], '/');
        assert(fields(name, '/').drop_last() =~= seq![]);
        assert(fields(a, '/').drop_last() =~= seq![]);
        reveal_with_fuel(pieces, 3);
        assert(pieces(seq![name]) =~= seq![name]);
        assert(pieces(seq![a]) =~= seq![]);
    } else if a.last() != '/' {
        lemma_fields_last(a, name, '/');
        assert(fields(a, '/').push(name).drop_last() =~= fields(a, '/'));
        assert(p[0] == a[0]);
    } else {
        let b = a.drop_last();
        let empty = Seq::<char>::empty();
        assert(a =~= b.push('/') + empty);
        assert(p =~= b.push('/') + name);
        lemma_fields_last(b, name, '/');
        lemma_fields_last(b, empty, '/');
        assert(fields(b, '/').push(name).drop_last() =~= fields(b, '/'));
        assert(fields(b, '/').push(empty).drop_last() =~= fields(b, '/'));
        assert(p[0] == a[0]);
    }
}

/// `root` with entries below it, one within the other.
pub open spec fn below(root: Seq<char>, names: Seq<Seq<char>>) -> Seq<char>
    decreases names.len(),
{
    if names.len() == 0 {
        root
    } else {
        path_join(below(root, names.drop_last()), names.last())
    }
}

/// `root` with entries below it, one within the other.
pub fn join_all(root: &str, names: &Vec<String>) -> (r: String)
    ensures
        r@ == below(root@, texts(names@)),
{
    let mut out: String = copy(root);
    let mut i: usize = 0;
    assert(out@ == below(root@, texts(names@).take(0)));
    while i < names.len()
        invariant
            i <= names@.len(),
            out@ == below(root@, texts(names@).take(i as int)),
        decreases names@.len() - i,
    {
        proof {
            assert(texts(names@).take(i + 1).drop_last() =~= texts(names@).take(i as int));
            assert(texts(names@).take(i + 1).last() == names@[i as int]@);
        }
        out = join_path(out.as_str(), names[i].as_str());
        i += 1;
    }
    assert(texts(names@).take(names@.len() as int) =~= texts(names@));
    out
}

/// Entries below a directory stay below it.
pub proof fn lemma_below(root: Seq<char>, names: Seq<Seq<char>>)
    requires
        forall|k: int| 0 <= k < names.len() ==> plain(#[trigger] names[k]),
    ensures
        components(below(root, names)) == components(root) + names,
        root.is_prefix_of(below(root, names)),
        is_absolute(root) ==> is_absolute(below(root, names)),
    decreases names.len(),
{
    if names.len() > 0 {
        let d = names.drop_last();
        assert forall|k: int| 0 <= k < d.len() implies plain(#[trigger] d[k]) by {
            assert(plain(names[k]));
        }
        lemma_below(root, d);
        assert(plain(names[names.len() - 1]));
        lemma_join_component(below(root, d), names.last());
        assert((components(root) + d).push(names.last()) =~= components(root) + names);
    } else {
        assert(components(root) + names =~= components(root));
    }
}

/// A component is plain unless it leads to the directory above.
pub proof fn lemma_components_plain(p: Seq<char>)
    ensures
        forall|k: int|
            0 <= k < components(p).len() ==> plain(#[trigger] components(p)[k])
                || components(p)[k] == ".."@,
{
    lemma_fields_free(p, '/');
    lemma_pieces_plain(fields(p, '/'));
}

proof fn lemma_pieces_plain(f: Seq<Seq<char>>)
    requires
        forall|k: int| 0 <= k < f.len() ==> !(#[trigger] f[k]).contains('/'),
    ensures
        forall|k: int|
            0 <= k < pieces(f).len() ==> plain(#[trigger] pieces(f)[k]) || pieces(f)[k] == ".."@,
    decreases f.len(),
{
    if f.len() > 0 {
        let d = f.drop_last();
        assert forall|k: int| 0 <= k < d.len() implies !(#[trigger] d[k]).contains('/') by {
            assert(!f[k].contains('/'));
        }
        lemma_pieces_plain(d);
        assert(!f[f.len() - 1].contains('/'));
        assert forall|k: int| 0 <= k < pieces(f).len() implies plain(#[trigger] pieces(f)[k])
            || pieces(f)[k] == ".."@ by {
            if k < pieces(d).len() {
                assert(pieces(f)[k] == pieces(d)[k]);
            }
        }
    }
}

/// The components of two paths with a slash between them are the components of both.
pub proof fn lemma_components_join(a: Seq<char>, b: Seq<char>)
    ensures
        components(a.push('/') + b) == components(a) + components(b),
{
    lemma_fields_join(a, b, '/');
    lemma_pieces_join(fields(a, '/'), fields(b, '/'));
}

proof fn lemma_pieces_join(f: Seq<Seq<char>>, g: Seq<Seq<char>>)
    ensures
        pieces(f + g) == pieces(f) + pieces(g),
    decreases g.len(),
{
    if g.len() == 0 {
        assert(f + g =~= f);
        assert(pieces(f) + pieces(g) =~= pieces(f));
    } else {
        lemma_pieces_join(f, g.drop_last());
        assert((f + g).drop_last() =~= f + g.drop_last());
        assert((f + g).last() == g.last());
        assert(pieces(f + g) =~= pieces(f) + pieces(g));
    }
}

/// An empty path has no components.
pub proof fn lemma_components_empty()
    ensures
        components(Seq::<char>::empty()) == Seq::<Seq<char>>::empty(),
{
    let e = Seq::<char>::empty();
    lemma_fields_first(e, e, '/');
    assert(fields(e, '/').drop_last() =~= seq![]);
    reveal_with_fuel(pieces, 3);
    assert(components(e) =~= seq![]);
}

/// Whether a path begins at the directory it is taken from, with a dot.
pub open spec fn begins_here(p: Seq<char>) -> bool {
    p == "."@ || "./"@.is_prefix_of(p)
}

/// Whether a path begins at the directory it is taken from, with a dot.
pub fn starts_here(p: &str) -> (r: bool)
    ensures
        r == begins_here(p@),
{
    same(p, ".") || starts_with(p, "./")
}

// ---------------------------------------------------------------- what paths promise

/// A path below another stands behind it with one slash between; one from the root stands alone.
pub proof fn one_slash_stands_between(a: Seq<char>, b: Seq<char>)
    ensures
        b.len() > 0 && b[0] == '/' ==> path_join(a, b) == b,
        (b.len() == 0 || b[0] != '/') && a.len() > 0 && a.last() != '/' ==> path_join(a, b) == a + seq!['/']
            + b,
        (b.len() == 0 || b[0] != '/') && a.len() > 0 && a.last() == '/' ==> path_join(a, b) == a + b,
        b.len() == 0 || b[0] != '/' ==> path_join(Seq::empty(), b) == b,
{
    assert(a.push('/') + b =~= a + seq!['/'] + b);
    assert(Seq::<char>::empty() + b =~= b);
}

/// A file has the name that was put behind its directory, and its extension is what follows the last dot
/// in it; a dot in front of the name begins none.
pub proof fn file_has_its_name(dir: Seq<char>, stem: Seq<char>, ext: Seq<char>)
    requires
        plain(stem),
        !stem.contains('.'),
        plain(ext),
        !ext.contains('.'),
    ensures
        file_name(path_join(dir, stem)) == Some(stem),
        extension(path_join(dir, stem)) is None,
        file_name(path_join(dir, stem.push('.') + ext)) == Some(stem.push('.') + ext),
        extension(path_join(dir, stem.push('.') + ext)) == Some(ext),
        name_parts(stem.push('.') + ext) == (stem, Some(ext)),
        name_parts(seq!['.'] + stem) == (seq!['.'] + stem, None::<Seq<char>>),
        name_parts(stem) == (stem, None::<Seq<char>>),
{
    reveal_strlit(".");
    reveal_strlit("..");
    let n = stem.push('.') + ext;
    let k = stem.len() as int;
    assert forall|i: int| k < i < n.len() implies #[trigger] n[i] != '.' by {
        assert(n[i] == ext[i - k - 1]);
        assert(ext.contains(ext[i - k - 1]));
    }
    lemma_last_index_is(n, '.', k);
    assert(n.take(k) =~= stem);
    assert(n.skip(k + 1) =~= ext);
    let h = seq!['.'] + stem;
    assert forall|i: int| 0 < i < h.len() implies #[trigger] h[i] != '.' by {
        assert(h[i] == stem[i - 1]);
        assert(stem.contains(stem[i - 1]));
    }
    lemma_last_index_is(h, '.', 0);
    lemma_last_index_of(stem, '.');
    if last_index_of(stem, '.') >= 0 {
        assert(stem.contains(stem[last_index_of(stem, '.')]));
    }
    assert(!n.contains('/')) by {
        if n.contains('/') {
            let i = choose|i: int| 0 <= i < n.len() && n[i] == '/';
            if i < k {
                assert(stem.contains(stem[i]));
            } else {
                assert(i > k);
                assert(ext.contains(ext[i - k - 1]));
            }
        }
    }
    assert(stem.contains(stem[0]));
    assert(n[0] == stem[0] && n[0] != '.');
    assert(n != "."@ && n != ".."@) by {
        assert("."@[0] == '.' && ".."@[0] == '.');
    }
    assert(stem != ".."@);
    lemma_join_component(dir, stem);
    lemma_join_component(dir, n);
}

/// Parts of a path are what stands between slashes; empty ones and single dots are none.
pub proof fn parts_stand_between_slashes(a: Seq<char>, name: Seq<char>)
    requires
        plain(name),
    ensures
        components(a.push('/') + name) == components(a).push(name),
        components(a.push('/')) == components(a),
        components(a.push('/') + "."@) == components(a),
        components(name) == seq![name],
        climbs(a.push('/') + ".."@),
{
    reveal_strlit(".");
    reveal_strlit("..");
    let e = Seq::<char>::empty();
    assert(a.push('/') + e =~= a.push('/'));
    lemma_components_join(a, name);
    lemma_components_join(a, e);
    lemma_components_join(a, "."@);
    lemma_components_join(a, ".."@);
    lemma_components_empty();
    lemma_fields_first(name, name, '/');
    lemma_fields_first("."@, name, '/');
    lemma_fields_first(".."@, name, '/');
    reveal_with_fuel(pieces, 2);
    assert(seq![name].drop_last() =~= Seq::<Seq<char>>::empty());
    assert(components(name) =~= seq![name]);
    assert(seq!["."@].drop_last() =~= Seq::<Seq<char>>::empty());
    assert(components("."@) =~= Seq::<Seq<char>>::empty());
    assert(seq![".."@].drop_last() =~= Seq::<Seq<char>>::empty());
    assert("."@.len() == 1 && ".."@.len() == 2);
    assert(components(".."@) =~= seq![".."@]);
    assert(components(a) + seq![name] =~= components(a).push(name));
    assert(components(a) + Seq::<Seq<char>>::empty() =~= components(a));
    let c = components(a) + seq![".."@];
    assert(c[components(a).len() as int] == ".."@);
}

} // verus!
