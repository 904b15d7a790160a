//! The order of a list: sorting it by a key that keeps the order of equals, and turning it round.

use crate::text::{chars_of, copy, same, texts};
use vstd::prelude::*;

verus! {

/// A key to sort by.
pub trait Key: Sized {
    /// Whether this key comes strictly before the other.
    spec fn before(&self, other: &Self) -> bool;

    /// Nothing comes before itself.
    proof fn irreflexive(a: Self)
        ensures
            !a.before(&a),
    ;

    /// What does not come before a key that does not come before a third does not come before
    /// the third either.
    proof fn weak(a: Self, b: Self, c: Self)
        requires
            !b.before(&a),
            !c.before(&b),
        ensures
            !c.before(&a),
    ;

    /// Two keys never come before each other.
    proof fn asymmetric(a: Self, b: Self)
        requires
            a.before(&b),
        ensures
            !b.before(&a),
    ;

    /// Whether this key comes strictly before the other.
    fn is_before(&self, other: &Self) -> (r: bool)
        ensures
            r == self.before(other),
    ;
}

/// Whether `r` lists the positions of `keys` in sorted order, equals in the order they had.
pub open spec fn sorts<K: Key>(keys: Seq<K>, r: Seq<int>) -> bool {
    &&& r.len() == keys.len()
    &&& forall|i: int| 0 <= i < r.len() ==> 0 <= #[trigger] r[i] < keys.len()
    &&& forall|i: int, j: int|
        0 <= i < j < r.len() ==> follows(keys, #[trigger] r[i], #[trigger] r[j])
}

/// Whether position `b` may stand behind position `a`: its key does not come before, and where
/// neither comes before the other, it stood behind already.
pub open spec fn follows<K: Key>(keys: Seq<K>, a: int, b: int) -> bool {
    keys[a].before(&keys[b]) || (!keys[b].before(&keys[a]) && a < b)
}

/// Positions as integers.
pub open spec fn positions(v: Seq<usize>) -> Seq<int> {
    Seq::new(v.len(), |i: int| v[i] as int)
}

proof fn lemma_follows_chain<K: Key>(keys: Seq<K>, a: int, b: int, c: int)
    requires
        follows(keys, a, b),
        follows(keys, b, c),
    ensures
        follows(keys, a, c),
{
    if keys[a].before(&keys[b]) {
        K::asymmetric(keys[a], keys[b]);
    }
    if keys[b].before(&keys[c]) {
        K::asymmetric(keys[b], keys[c]);
    }
    K::weak(keys[a], keys[b], keys[c]);
    if !keys[a].before(&keys[c]) {
        if keys[a].before(&keys[b]) {
            K::weak(keys[b], keys[c], keys[a]);
        }
        if keys[b].before(&keys[c]) {
            K::weak(keys[c], keys[a], keys[b]);
        }
    }
}

/// Every position occurs: a sorted list of positions leaves none out.
pub proof fn sorted_holds_every_position<K: Key>(keys: Seq<K>, r: Seq<int>, x: int)
    requires
        sorts(keys, r),
        0 <= x < keys.len(),
    ensures
        r.contains(x),
{
    assert(r.no_duplicates()) by {
        assert forall|i: int, j: int| 0 <= i < r.len() && 0 <= j < r.len() && i != j implies r[i]
            != r[j] by {
            if i < j {
                assert(follows(keys, r[i], r[j]));
                K::irreflexive(keys[r[i]]);
            } else {
                assert(follows(keys, r[j], r[i]));
                K::irreflexive(keys[r[i]]);
            }
        }
    }
    let n = keys.len() as int;
    let all = vstd::set_lib::set_int_range(0, n);
    vstd::set_lib::lemma_int_range(0, n);
    r.unique_seq_to_set();
    assert(r.to_set().subset_of(all)) by {
        assert forall|y: int| r.to_set().contains(y) implies all.contains(y) by {
            let i = choose|i: int| 0 <= i < r.len() && r[i] == y;
            assert(0 <= r[i] < keys.len());
        }
    }
    vstd::set_lib::lemma_subset_equality(r.to_set(), all);
    assert(all.contains(x));
    assert(r.to_set().contains(x));
}

/// The sorted order of a list of keys.
pub fn sort_keys<K: Key>(keys: &Vec<K>) -> (r: Vec<usize>)
    ensures
        sorts(keys@, positions(r@)),
{
    let mut out: Vec<usize> = Vec::new();
    let mut n: usize = 0;
    while n < keys.len()
        invariant
            n <= keys@.len(),
            out@.len() == n,
            forall|i: int| 0 <= i < out@.len() ==> #[trigger] out@[i] < n,
            forall|i: int, j: int|
                0 <= i < j < out@.len() ==> follows(
                    keys@,
                    #[trigger] out@[i] as int,
                    #[trigger] out@[j] as int,
                ),
        decreases keys@.len() - n,
    {
        let mut at: usize = out.len();
        let ghost all = out@;
        while at > 0 && keys[n].is_before(&keys[out[at - 1]])
            invariant
                at <= out@.len(),
                out@ == all,
                out@.len() == n,
                n < keys@.len(),
                forall|i: int| 0 <= i < out@.len() ==> #[trigger] out@[i] < n,
                forall|i: int|
                    at <= i < out@.len() ==> keys@[n as int].before(
                        &keys@[#[trigger] out@[i] as int],
                    ),
            decreases at,
        {
            at -= 1;
        }
        proof {
            assert forall|i: int| 0 <= i < at implies follows(
                keys@,
                #[trigger] all[i] as int,
                n as int,
            ) by {
                let b = all[at - 1] as int;
                assert(follows(keys@, b, n as int));
                if i < at - 1 {
                    assert(follows(keys@, all[i] as int, all[at - 1] as int));
                    lemma_follows_chain(keys@, all[i] as int, b, n as int);
                }
            }
            assert forall|i: int| at <= i < all.len() implies follows(
                keys@,
                n as int,
                #[trigger] all[i] as int,
            ) by {
                assert(keys@[n as int].before(&keys@[all[i] as int]));
            }
        }
        out.insert(at, n);
        proof {
            assert(out@ =~= all.insert(at as int, n));
            assert forall|i: int, j: int| 0 <= i < j < out@.len() implies follows(
                keys@,
                #[trigger] out@[i] as int,
                #[trigger] out@[j] as int,
            ) by {
                if j < at {
                    assert(out@[i] == all[i] && out@[j] == all[j]);
                } else if i > at {
                    assert(out@[i] == all[i - 1] && out@[j] == all[j - 1]);
                } else if i < at && j > at {
                    assert(out@[i] == all[i] && out@[j] == all[j - 1]);
                } else if i == at {
                    assert(out@[j] == all[j - 1]);
                } else {
                    assert(out@[i] == all[i]);
                }
            }
            assert forall|i: int| 0 <= i < out@.len() implies #[trigger] out@[i] < n + 1 by {
                if i < at {
                    assert(out@[i] == all[i]);
                } else if i > at {
                    assert(out@[i] == all[i - 1]);
                }
            }
        }
        n += 1;
    }
    assert(sorts(keys@, positions(out@))) by {
        let r = positions(out@);
        assert forall|i: int, j: int| 0 <= i < j < r.len() implies follows(
            keys@,
            #[trigger] r[i],
            #[trigger] r[j],
        ) by {
            assert(r[i] == out@[i] as int && r[j] == out@[j] as int);
        }
    }
    out
}

// ---------------------------------------------------------------- text as a key

/// Whether `a` comes before `b`, character by character.
pub open spec fn text_before(a: Seq<char>, b: Seq<char>) -> bool
    decreases a.len(),
{
    if b.len() == 0 {
        false
    } else if a.len() == 0 {
        true
    } else if a[0] != b[0] {
        a[0] < b[0]
    } else {
        text_before(a.skip(1), b.skip(1))
    }
}

pub proof fn lemma_text_irreflexive(a: Seq<char>)
    ensures
        !text_before(a, a),
    decreases a.len(),
{
    if a.len() > 0 {
        lemma_text_irreflexive(a.skip(1));
    }
}

pub proof fn lemma_text_asymmetric(a: Seq<char>, b: Seq<char>)
    requires
        text_before(a, b),
    ensures
        !text_before(b, a),
    decreases a.len(),
{
    if a.len() > 0 && b.len() > 0 && a[0] == b[0] {
        lemma_text_asymmetric(a.skip(1), b.skip(1));
    }
}

pub proof fn lemma_text_weak(a: Seq<char>, b: Seq<char>, c: Seq<char>)
    requires
        !text_before(b, a),
        !text_before(c, b),
    ensures
        !text_before(c, a),
    decreases a.len(),
{
    if a.len() > 0 && b.len() > 0 && c.len() > 0 {
        if a[0] == b[0] && b[0] == c[0] {
            lemma_text_weak(a.skip(1), b.skip(1), c.skip(1));
        }
    }
}

/// Texts of which neither comes before the other are the same.
pub proof fn lemma_text_total(a: Seq<char>, b: Seq<char>)
    requires
        !text_before(a, b),
        !text_before(b, a),
    ensures
        a == b,
    decreases a.len(),
{
    if a.len() > 0 && b.len() > 0 {
        if a[0] == b[0] {
            lemma_text_total(a.skip(1), b.skip(1));
            assert(a =~= seq![a[0]] + a.skip(1));
            assert(b =~= seq![b[0]] + b.skip(1));
        }
    } else {
        assert(a =~= b);
    }
}

/// Whether `a` comes before `b`, character by character.
pub fn is_text_before(a: &str, b: &str) -> (r: bool)
    ensures
        r == text_before(a@, b@),
{
    let x: Vec<char> = chars_of(a);
    let y: Vec<char> = chars_of(b);
    let mut i: usize = 0;
    assert(x@.skip(0) =~= x@ && y@.skip(0) =~= y@);
    while i < x.len() && i < y.len() && x[i] == y[i]
        invariant
            i <= x@.len(),
            i <= y@.len(),
            x@ == a@,
            y@ == b@,
            text_before(a@, b@) == text_before(x@.skip(i as int), y@.skip(i as int)),
        decreases x@.len() - i,
    {
        assert(x@.skip(i as int).skip(1) =~= x@.skip(i + 1));
        assert(y@.skip(i as int).skip(1) =~= y@.skip(i + 1));
        i += 1;
    }
    if i == y.len() {
        false
    } else if i == x.len() {
        true
    } else {
        x[i] < y[i]
    }
}

/// A text to sort by.
pub struct TextKey {
    pub text: String,
}

impl Key for TextKey {
    open spec fn before(&self, other: &Self) -> bool {
        text_before(self.text@, other.text@)
    }

    proof fn irreflexive(a: Self) {
        lemma_text_irreflexive(a.text@);
    }

    proof fn weak(a: Self, b: Self, c: Self) {
        lemma_text_weak(a.text@, b.text@, c.text@);
    }

    proof fn asymmetric(a: Self, b: Self) {
        lemma_text_asymmetric(a.text@, b.text@);
    }

    fn is_before(&self, other: &Self) -> (r: bool) {
        is_text_before(self.text.as_str(), other.text.as_str())
    }
}

/// Whether texts are in order and none occurs twice.
pub open spec fn ascending(v: Seq<Seq<char>>) -> bool {
    forall|i: int, j: int| 0 <= i < j < v.len() ==> text_before(#[trigger] v[i], #[trigger] v[j])
}

/// Where a text stands or belongs among texts in order.
fn place_of(v: &Vec<String>, s: &str) -> (r: usize)
    requires
        ascending(texts(v@)),
    ensures
        r <= v@.len(),
        forall|i: int| 0 <= i < r ==> text_before(#[trigger] texts(v@)[i], s@),
        forall|i: int| r <= i < v@.len() ==> !text_before(#[trigger] texts(v@)[i], s@),
{
    let mut i: usize = 0;
    while i < v.len() && is_text_before(v[i].as_str(), s)
        invariant
            i <= v@.len(),
            forall|k: int| 0 <= k < i ==> text_before(#[trigger] texts(v@)[k], s@),
        decreases v@.len() - i,
    {
        assert(texts(v@)[i as int] == v@[i as int]@);
        i += 1;
    }
    proof {
        let t = texts(v@);
        assert forall|k: int| i <= k < v@.len() implies !text_before(#[trigger] t[k], s@) by {
            assert(t[i as int] == v@[i as int]@);
            if k > i {
                assert(text_before(t[i as int], t[k]));
                lemma_text_asymmetric(t[i as int], t[k]);
                lemma_text_weak(s@, t[i as int], t[k]);
            }
        }
    }
    i
}

/// Adds a text to texts in order, unless it is there already.
pub fn add_text(v: &mut Vec<String>, s: String)
    requires
        ascending(texts(old(v)@)),
    ensures
        ascending(texts(final(v)@)),
        forall|x: Seq<char>|
            texts(final(v)@).contains(x) <==> texts(old(v)@).contains(x) || x == s@,
{
    let at: usize = place_of(v, s.as_str());
    let ghost t = texts(v@);
    if at < v.len() && same(v[at].as_str(), s.as_str()) {
        assert(t[at as int] == s@);
        assert(t.contains(s@));
        return;
    }
    proof {
        if at < v@.len() {
            assert(t[at as int] == v@[at as int]@);
            if !text_before(s@, t[at as int]) {
                lemma_text_total(s@, t[at as int]);
            }
        }
    }
    v.insert(at, s);
    let ghost u = texts(v@);
    proof {
        assert(u =~= t.insert(at as int, s@));
        assert forall|i: int, j: int| 0 <= i < j < u.len() implies text_before(
            #[trigger] u[i],
            #[trigger] u[j],
        ) by {
            if j < at {
                assert(u[i] == t[i] && u[j] == t[j]);
            } else if j == at {
                assert(u[i] == t[i]);
            } else if i > at {
                assert(u[i] == t[i - 1] && u[j] == t[j - 1]);
            } else if i == at {
                assert(u[j] == t[j - 1]);
                if j - 1 > at {
                    assert(text_before(t[at as int], t[j - 1]));
                    lemma_text_chain(s@, t[at as int], t[j - 1]);
                }
            } else {
                assert(u[i] == t[i] && u[j] == t[j - 1]);
            }
        }
        assert forall|x: Seq<char>| u.contains(x) <==> t.contains(x) || x == s@ by {
            if u.contains(x) {
                let k = choose|k: int| 0 <= k < u.len() && u[k] == x;
                if k < at {
                    assert(t[k] == x);
                } else if k > at {
                    assert(t[k - 1] == x);
                }
            }
            if t.contains(x) {
                let k = choose|k: int| 0 <= k < t.len() && t[k] == x;
                if k < at {
                    assert(u[k] == x);
                } else {
                    assert(u[k + 1] == x);
                }
            }
            if x == s@ {
                assert(u[at as int] == x);
            }
        }
    }
}

pub proof fn lemma_text_chain(a: Seq<char>, b: Seq<char>, c: Seq<char>)
    requires
        text_before(a, b),
        text_before(b, c),
    ensures
        text_before(a, c),
{
    lemma_text_asymmetric(a, b);
    lemma_text_asymmetric(b, c);
    if !text_before(a, c) {
        lemma_text_weak(c, a, b);
    }
}

/// The texts of a list in order, each once.
pub fn sorted_texts(v: &Vec<String>) -> (r: Vec<String>)
    ensures
        ascending(texts(r@)),
        forall|x: Seq<char>| texts(r@).contains(x) <==> texts(v@).contains(x),
{
    let mut out: Vec<String> = Vec::new();
    let mut i: usize = 0;
    while i < v.len()
        invariant
            i <= v@.len(),
            ascending(texts(out@)),
            forall|x: Seq<char>|
                texts(out@).contains(x) <==> texts(v@).take(i as int).contains(x),
        decreases v@.len() - i,
    {
        let ghost before = texts(out@);
        add_text(&mut out, copy(v[i].as_str()));
        proof {
            let a = texts(v@).take(i as int);
            let b = texts(v@).take(i + 1);
            assert(b =~= a.push(v@[i as int]@));
            assert forall|x: Seq<char>| texts(out@).contains(x) <==> b.contains(x) by {
                if a.contains(x) {
                    let k = choose|k: int| 0 <= k < a.len() && a[k] == x;
                    assert(b[k] == x);
                }
                if b.contains(x) {
                    let k = choose|k: int| 0 <= k < b.len() && b[k] == x;
                    if k < a.len() {
                        assert(a[k] == x);
                    }
                }
                if x == v@[i as int]@ {
                    assert(b[i as int] == x);
                }
            }
        }
        i += 1;
    }
    assert(texts(v@).take(v@.len() as int) =~= texts(v@));
    out
}

/// The same items in the opposite order.
pub fn reversed<T>(v: Vec<T>) -> (r: Vec<T>)
    ensures
        r@ == v@.reverse(),
{
    let ghost all = v@;
    let mut v: Vec<T> = v;
    let mut out: Vec<T> = Vec::new();
    while v.len() > 0
        invariant
            v@.len() + out@.len() == all.len(),
            v@ == all.take(v@.len() as int),
            forall|k: int| 0 <= k < out@.len() ==> #[trigger] out@[k] == all[all.len() - 1 - k],
        decreases v@.len(),
    {
        if let Some(x) = v.pop() {
            out.push(x);
        }
        assert(v@ =~= all.take(v@.len() as int));
    }
    assert(out@ =~= all.reverse());
    out
}

/// Texts stand in the order of their first different characters, and one that begins another before it.
pub proof fn first_difference_decides(p: Seq<char>, a: Seq<char>, b: Seq<char>)
    ensures
        text_before(p + a, p + b) == text_before(a, b),
        a.len() > 0 && b.len() > 0 && a[0] < b[0] ==> text_before(p + a, p + b),
        a.len() > 0 ==> text_before(p, p + a) && !text_before(p + a, p),
    decreases p.len(),
{
    let e = Seq::<char>::empty();
    assert(p + e =~= p);
    if p.len() == 0 {
        assert(p + a =~= a);
        assert(p + b =~= b);
    } else {
        let q = p.skip(1);
        assert((p + a).skip(1) =~= q + a);
        assert((p + b).skip(1) =~= q + b);
        assert((p + a)[0] == p[0] && (p + b)[0] == p[0]);
        first_difference_decides(q, a, b);
    }
}

} // verus!
