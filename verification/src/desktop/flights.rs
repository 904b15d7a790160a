//! Which pulls are under way, and which hosts wait for one.

use crate::text::copy;
use dashmap::DashMap;
use vstd::prelude::*;

verus! {

/// A concurrent hash map of the `dashmap` crate.
#[verifier::external_type_specification]
#[verifier::external_body]
#[verifier::reject_recursive_types(K)]
#[verifier::reject_recursive_types(V)]
#[verifier::reject_recursive_types(S)]
pub struct ExDashMap<K, V, S>(DashMap<K, V, S>);

/// What a map of pairs of texts holds.
pub uninterp spec fn held(m: DashMap<String, (String, String)>) -> Map<
    Seq<char>,
    (Seq<char>, Seq<char>),
>;

/// `DashMap::new`: a map that holds nothing.
#[verifier::external_body]
fn new_map() -> (r: DashMap<String, (String, String)>)
    ensures
        held(r).dom() == Set::<Seq<char>>::empty(),
{
    DashMap::new()
}

/// `DashMap::insert`: the map holds the value under the key, everything else stays, and what the
/// key held before comes back. The call can only block on references into the map that the
/// caller holds, and a caller of this function holds none.
#[verifier::external_body]
fn insert(m: &mut DashMap<String, (String, String)>, key: String, value: (String, String)) -> (r:
    Option<(String, String)>)
    ensures
        held(*final(m)) == held(*old(m)).insert(key@, (value.0@, value.1@)),
        r is Some <==> held(*old(m)).dom().contains(key@),
        r matches Some(v) ==> held(*old(m))[key@] == (v.0@, v.1@),
{
    m.insert(key, value)
}

/// `DashMap::remove`: the map no longer holds the key, everything else stays, and what the key
/// held comes back with it.
#[verifier::external_body]
fn remove(m: &mut DashMap<String, (String, String)>, key: &str) -> (r: Option<
    (String, (String, String)),
>)
    ensures
        held(*final(m)) == held(*old(m)).remove(key@),
        r is Some <==> held(*old(m)).dom().contains(key@),
        r matches Some(e) ==> e.0@ == key@ && held(*old(m))[key@] == (e.1.0@, e.1.1@),
{
    m.remove(key)
}

/// `DashMap::iter`: every key that the map holds comes once, with its value, in no order that is
/// promised.
#[verifier::external_body]
fn entries(m: &DashMap<String, (String, String)>) -> (r: Vec<(String, (String, String))>)
    ensures
        forall|i: int|
            0 <= i < r@.len() ==> held(*m).dom().contains((#[trigger] r@[i]).0@) && held(
                *m,
            )[r@[i].0@] == (r@[i].1.0@, r@[i].1.1@),
        forall|k: Seq<char>|
            held(*m).dom().contains(k) ==> exists|i: int|
                0 <= i < r@.len() && (#[trigger] r@[i]).0@ == k,
        forall|i: int, j: int|
            0 <= i < j < r@.len() ==> (#[trigger] r@[i]).0@ != (#[trigger] r@[j]).0@,
{
    m.iter().map(|e| (e.key().clone(), e.value().clone())).collect()
}

// ---------------------------------------------------------------- keys

/// The key of a host's profile.
pub open spec fn fly_key_of(host: Seq<char>, profile: Seq<char>) -> Seq<char> {
    host.push('\0') + profile
}

/// The key of a host's profile: the two with a NUL between them.
pub fn fly_key(host: &str, profile: &str) -> (r: String)
    ensures
        r@ == fly_key_of(host@, profile@),
{
    let mut s: String = copy(host);
    s.push('\0');
    s.append(profile);
    s
}

/// Different profiles have different keys, as long as no host's name holds a NUL.
pub proof fn keys_differ(h: Seq<char>, p: Seq<char>, g: Seq<char>, q: Seq<char>)
    requires
        !h.contains('\0'),
        !g.contains('\0'),
        fly_key_of(h, p) == fly_key_of(g, q),
    ensures
        h == g,
        p == q,
{
    let a = fly_key_of(h, p);
    let b = fly_key_of(g, q);
    assert(a[h.len() as int] == '\0');
    assert(b[g.len() as int] == '\0');
    if h.len() < g.len() {
        assert(b[h.len() as int] == g[h.len() as int]);
    }
    if g.len() < h.len() {
        assert(a[g.len() as int] == h[g.len() as int]);
    }
    assert(h =~= a.take(h.len() as int));
    assert(g =~= b.take(g.len() as int));
    assert(p =~= a.skip(h.len() as int + 1));
    assert(q =~= b.skip(g.len() as int + 1));
}

// ---------------------------------------------------------------- flights

/// The pulls that are under way, and the profiles with activity since their last pull.
pub struct FlightsView {
    /// The keys of the pulls under way.
    pub flying: Set<Seq<char>>,
    /// The profiles that wait for a pull, by their keys.
    pub waiting: Map<Seq<char>, (Seq<char>, Seq<char>)>,
}

/// The pulls that are under way, and the profiles with activity since their last pull.
pub struct Flights {
    pulling: DashMap<String, (String, String)>,
    dirty: DashMap<String, (String, String)>,
}

/// What a pull's start does.
pub open spec fn begun(f: FlightsView, key: Seq<char>) -> FlightsView {
    FlightsView { flying: f.flying.insert(key), ..f }
}

/// What a pull's end does.
pub open spec fn ended(f: FlightsView, key: Seq<char>) -> FlightsView {
    FlightsView { flying: f.flying.remove(key), ..f }
}

/// What activity on a host does.
pub open spec fn marked(f: FlightsView, host: Seq<char>, profile: Seq<char>) -> FlightsView {
    FlightsView { waiting: f.waiting.insert(fly_key_of(host, profile), (host, profile)), ..f }
}

/// What is left when the pull of a waiting profile has started, or could not be started.
pub open spec fn settled(f: FlightsView, key: Seq<char>, started: bool) -> FlightsView {
    if started {
        FlightsView { waiting: f.waiting.remove(key), ..f }
    } else {
        ended(f, key)
    }
}

/// Whether every waiting profile stands under its own key.
pub open spec fn keyed(f: FlightsView) -> bool {
    forall|k: Seq<char>| #[trigger]
        f.waiting.dom().contains(k) ==> k == fly_key_of(f.waiting[k].0, f.waiting[k].1)
}

/// Of one profile there is one pull at a time: while one is under way none begins, and when it
/// has ended the next can.
pub proof fn one_pull_at_a_time(f: FlightsView, key: Seq<char>)
    ensures
        begun(f, key).flying.contains(key),
        !ended(begun(f, key), key).flying.contains(key),
        !f.flying.contains(key) ==> ended(begun(f, key), key) == f,
{
    if !f.flying.contains(key) {
        assert(ended(begun(f, key), key).flying =~= f.flying);
    }
}

/// A pull that could not be started leaves everything as it was, so that it is tried again.
pub proof fn failed_start_is_undone(f: FlightsView, key: Seq<char>)
    requires
        !f.flying.contains(key),
    ensures
        settled(begun(f, key), key, false) == f,
{
    one_pull_at_a_time(f, key);
}

/// Activity is not forgotten until a pull has started.
pub proof fn activity_waits_for_a_pull(f: FlightsView, host: Seq<char>, profile: Seq<char>, key: Seq<char>)
    ensures
        marked(f, host, profile).waiting.dom().contains(fly_key_of(host, profile)),
        begun(marked(f, host, profile), key).waiting == marked(f, host, profile).waiting,
        ended(marked(f, host, profile), key).waiting == marked(f, host, profile).waiting,
        settled(marked(f, host, profile), key, false).waiting == marked(f, host, profile).waiting,
        key != fly_key_of(host, profile) ==> settled(
            marked(f, host, profile),
            key,
            true,
        ).waiting.dom().contains(fly_key_of(host, profile)),
{
}

impl Flights {
    /// What is under way, and what waits.
    pub closed spec fn view(&self) -> FlightsView {
        FlightsView { flying: held(self.pulling).dom(), waiting: held(self.dirty) }
    }

    /// Nothing under way, nothing waiting.
    pub fn new() -> (r: Flights)
        ensures
            r.view().flying == Set::<Seq<char>>::empty(),
            r.view().waiting == Map::<Seq<char>, (Seq<char>, Seq<char>)>::empty(),
            keyed(r.view()),
    {
        let r: Flights = Flights { pulling: new_map(), dirty: new_map() };
        assert(r.view().waiting =~= Map::<Seq<char>, (Seq<char>, Seq<char>)>::empty());
        r
    }

    /// Begins a pull, unless one of the same profile is under way; tells whether it did.
    pub fn begin(&mut self, host: &str, profile: &str) -> (r: bool)
        ensures
            r == !old(self).view().flying.contains(fly_key_of(host@, profile@)),
            final(self).view() == begun(old(self).view(), fly_key_of(host@, profile@)),
    {
        let before: Option<(String, String)> = insert(
            &mut self.pulling,
            fly_key(host, profile),
            (copy(host), copy(profile)),
        );
        assert(self.view().flying =~= begun(
            old(self).view(),
            fly_key_of(host@, profile@),
        ).flying);
        before.is_none()
    }

    /// Ends a pull.
    pub fn end(&mut self, host: &str, profile: &str)
        ensures
            final(self).view() == ended(old(self).view(), fly_key_of(host@, profile@)),
    {
        let key: String = fly_key(host, profile);
        let _ = remove(&mut self.pulling, key.as_str());
        assert(self.view().flying =~= ended(
            old(self).view(),
            fly_key_of(host@, profile@),
        ).flying);
    }

    /// Notes activity on a host.
    pub fn mark(&mut self, host: &str, profile: &str)
        ensures
            final(self).view() == marked(old(self).view(), host@, profile@),
            keyed(old(self).view()) ==> keyed(final(self).view()),
    {
        let _ = insert(&mut self.dirty, fly_key(host, profile), (copy(host), copy(profile)));
        proof {
            let was = old(self).view().waiting;
            let now = self.view().waiting;
            if keyed(old(self).view()) {
                assert forall|k: Seq<char>| #[trigger] now.dom().contains(k) implies k
                    == fly_key_of(now[k].0, now[k].1) by {
                    assert(k == fly_key_of(host@, profile@) || was.dom().contains(k));
                }
            }
        }
    }

    /// Notes whether the pull of a waiting profile could be started.
    pub fn settle(&mut self, host: &str, profile: &str, started: bool)
        ensures
            final(self).view() == settled(
                old(self).view(),
                fly_key_of(host@, profile@),
                started,
            ),
            keyed(old(self).view()) ==> keyed(final(self).view()),
    {
        if started {
            let key: String = fly_key(host, profile);
            let _ = remove(&mut self.dirty, key.as_str());
        } else {
            self.end(host, profile);
        }
    }

    /// The profiles that wait for a pull, each once.
    pub fn due(&self) -> (r: Vec<(String, String)>)
        requires
            keyed(self.view()),
        ensures
            forall|i: int|
                0 <= i < r@.len() ==> {
                    let k = fly_key_of((#[trigger] r@[i]).0@, r@[i].1@);
                    self.view().waiting.dom().contains(k) && self.view().waiting[k] == (
                        r@[i].0@,
                        r@[i].1@,
                    )
                },
            forall|k: Seq<char>| #[trigger]
                self.view().waiting.dom().contains(k) ==> exists|i: int|
                    0 <= i < r@.len() && fly_key_of((#[trigger] r@[i]).0@, r@[i].1@) == k,
            forall|i: int, j: int|
                0 <= i < j < r@.len() ==> fly_key_of((#[trigger] r@[i]).0@, r@[i].1@)
                    != fly_key_of((#[trigger] r@[j]).0@, r@[j].1@),
    {
        let es: Vec<(String, (String, String))> = entries(&self.dirty);
        let mut out: Vec<(String, String)> = Vec::new();
        let mut i: usize = 0;
        while i < es.len()
            invariant
                i <= es@.len(),
                out@.len() == i,
                forall|k: int|
                    0 <= k < i ==> (#[trigger] out@[k]).0@ == es@[k].1.0@ && out@[k].1@
                        == es@[k].1.1@,
            decreases es@.len() - i,
        {
            out.push((copy(es[i].1.0.as_str()), copy(es[i].1.1.as_str())));
            i += 1;
        }
        proof {
            let w = self.view().waiting;
            assert forall|i: int| 0 <= i < out@.len() implies fly_key_of(
                (#[trigger] out@[i]).0@,
                out@[i].1@,
            ) == es@[i].0@ by {
                assert(w.dom().contains(es@[i].0@));
            }
            assert forall|k: Seq<char>| #[trigger] w.dom().contains(k) implies exists|i: int|
                0 <= i < out@.len() && fly_key_of((#[trigger] out@[i]).0@, out@[i].1@) == k by {
                let i = choose|i: int| 0 <= i < es@.len() && (#[trigger] es@[i]).0@ == k;
                assert(fly_key_of(out@[i].0@, out@[i].1@) == k);
            }
        }
        out
    }

    /// Begins the pulls that are due, but for those of profiles whose pull is under way; what
    /// waits goes on waiting until its pull is settled.
    pub fn begin_due(&mut self) -> (r: Vec<(String, String)>)
        requires
            keyed(old(self).view()),
        ensures
            keyed(final(self).view()),
            final(self).view().waiting == old(self).view().waiting,
            forall|k: Seq<char>|
                final(self).view().flying.contains(k) <==> old(self).view().flying.contains(k) || old(
                    self,
                ).view().waiting.dom().contains(k),
            forall|i: int|
                0 <= i < r@.len() ==> {
                    let k = fly_key_of((#[trigger] r@[i]).0@, r@[i].1@);
                    &&& !old(self).view().flying.contains(k)
                    &&& old(self).view().waiting.dom().contains(k)
                    &&& old(self).view().waiting[k] == (r@[i].0@, r@[i].1@)
                },
            forall|k: Seq<char>| #[trigger]
                old(self).view().waiting.dom().contains(k) && !old(self).view().flying.contains(k)
                    ==> exists|i: int|
                    0 <= i < r@.len() && fly_key_of((#[trigger] r@[i]).0@, r@[i].1@) == k,
            forall|i: int, j: int|
                0 <= i < j < r@.len() ==> fly_key_of((#[trigger] r@[i]).0@, r@[i].1@)
                    != fly_key_of((#[trigger] r@[j]).0@, r@[j].1@),
    {
        let all: Vec<(String, String)> = self.due();
        let ghost was = self.view();
        let ghost key = |i: int| fly_key_of(all@[i].0@, all@[i].1@);
        let mut out: Vec<(String, String)> = Vec::new();
        let ghost mut at: Seq<int> = seq![];
        let mut i: usize = 0;
        while i < all.len()
            invariant
                i <= all@.len(),
                key == (|i: int| fly_key_of(all@[i].0@, all@[i].1@)),
                forall|a: int, b: int|
                    0 <= a < b < all@.len() ==> #[trigger] key(a) != #[trigger] key(b),
                self.view().waiting == was.waiting,
                forall|k: Seq<char>|
                    self.view().flying.contains(k) <==> was.flying.contains(k) || exists|a: int|
                        0 <= a < i && #[trigger] key(a) == k,
                at.len() == out@.len(),
                forall|n: int|
                    0 <= n < at.len() ==> {
                        &&& 0 <= #[trigger] at[n] < i
                        &&& !was.flying.contains(key(at[n]))
                        &&& out@[n].0@ == all@[at[n]].0@
                        &&& out@[n].1@ == all@[at[n]].1@
                    },
                forall|m: int, n: int|
                    0 <= m < n < at.len() ==> #[trigger] at[m] < #[trigger] at[n],
                forall|a: int|
                    0 <= a < i && !was.flying.contains(#[trigger] key(a)) ==> at.contains(a),
            decreases all@.len() - i,
        {
            let ghost before = at;
            let ghost flying = self.view().flying;
            let begun: bool = self.begin(all[i].0.as_str(), all[i].1.as_str());
            proof {
                let here = key(i as int);
                assert(begun == !flying.contains(here));
                assert(begun == !was.flying.contains(here));
                if begun {
                    at = at.push(i as int);
                }
                assert forall|k: Seq<char>|
                    self.view().flying.contains(k) <==> was.flying.contains(k) || exists|a: int|
                        0 <= a < i + 1 && #[trigger] key(a) == k by {
                    if k == here {
                        assert(key(i as int) == k);
                    }
                }
                assert forall|a: int|
                    0 <= a < i + 1 && !was.flying.contains(#[trigger] key(a)) implies at.contains(
                    a,
                ) by {
                    if a < i {
                        let n = choose|n: int| 0 <= n < before.len() && before[n] == a;
                        assert(at[n] == a);
                    } else {
                        assert(at[at.len() - 1] == a);
                    }
                }
            }
            if begun {
                out.push((copy(all[i].0.as_str()), copy(all[i].1.as_str())));
            }
            i += 1;
        }
        proof {
            assert forall|n: int| 0 <= n < out@.len() implies fly_key_of(
                (#[trigger] out@[n]).0@,
                out@[n].1@,
            ) == key(at[n]) by {}
            assert forall|k: Seq<char>|
                self.view().flying.contains(k) <==> was.flying.contains(k)
                    || was.waiting.dom().contains(k) by {
                if exists|a: int| 0 <= a < all@.len() && #[trigger] key(a) == k {
                    let a = choose|a: int| 0 <= a < all@.len() && #[trigger] key(a) == k;
                    assert(was.waiting.dom().contains(fly_key_of(all@[a].0@, all@[a].1@)));
                }
                if was.waiting.dom().contains(k) {
                    let a = choose|a: int|
                        0 <= a < all@.len() && fly_key_of((#[trigger] all@[a]).0@, all@[a].1@) == k;
                    assert(key(a) == k);
                }
            }
            assert forall|k: Seq<char>| #[trigger]
                was.waiting.dom().contains(k) && !was.flying.contains(k) implies exists|i: int|
                0 <= i < out@.len() && fly_key_of((#[trigger] out@[i]).0@, out@[i].1@) == k by {
                let a = choose|a: int|
                    0 <= a < all@.len() && fly_key_of((#[trigger] all@[a]).0@, all@[a].1@) == k;
                assert(key(a) == k);
                let n = choose|n: int| 0 <= n < at.len() && at[n] == a;
                assert(fly_key_of(out@[n].0@, out@[n].1@) == k);
            }
            assert forall|i: int, j: int| 0 <= i < j < out@.len() implies fly_key_of(
                (#[trigger] out@[i]).0@,
                out@[i].1@,
            ) != fly_key_of((#[trigger] out@[j]).0@, out@[j].1@) by {
                assert(at[i] < at[j]);
                assert(key(at[i]) != key(at[j]));
            }
        }
        out
    }
}

/// Beginning, ending, marking and settling change what they are called for and nothing else.
pub proof fn each_call_changes_its_own(
    f: FlightsView,
    key: Seq<char>,
    host: Seq<char>,
    profile: Seq<char>,
    other: Seq<char>,
)
    ensures
        begun(f, key).waiting == f.waiting,
        ended(f, key).waiting == f.waiting,
        settled(f, key, false).waiting == f.waiting,
        marked(f, host, profile).flying == f.flying,
        settled(f, key, true).flying == f.flying,
        !settled(f, key, true).waiting.dom().contains(key),
        !settled(f, key, false).flying.contains(key),
        marked(f, host, profile).waiting.dom().contains(host + seq!['\0'] + profile),
        marked(f, host, profile).waiting[host + seq!['\0'] + profile] == (host, profile),
        other != key ==> begun(f, key).flying.contains(other) == f.flying.contains(other),
        other != key ==> ended(f, key).flying.contains(other) == f.flying.contains(other),
        other != key ==> settled(f, key, true).waiting.dom().contains(other)
            == f.waiting.dom().contains(other),
        other != key ==> settled(f, key, false).flying.contains(other) == f.flying.contains(other),
        other != host + seq!['\0'] + profile ==> marked(f, host, profile).waiting.dom().contains(other)
            == f.waiting.dom().contains(other) && (f.waiting.dom().contains(other) ==> marked(
            f,
            host,
            profile,
        ).waiting[other] == f.waiting[other]),
{
    assert(host.push('\0') + profile =~= host + seq!['\0'] + profile);
}

} // verus!
