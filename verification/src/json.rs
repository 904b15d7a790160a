//! JSON values as plain data, and the text they are read from and written to.

use crate::order::reversed;
use crate::text::same;
use vstd::prelude::*;

verus! {

/// A number of a JSON text; the library carries it and only asks whether it is whole.
#[verifier::external_type_specification]
#[verifier::external_body]
pub struct ExNumber(serde_json::Number);

/// A parsed JSON value as `serde_json` holds it.
#[verifier::external_type_specification]
#[verifier::external_body]
pub struct ExValue(serde_json::Value);

/// A JSON value. An object is the list of its entries; of two with one key the later counts.
pub enum Json {
    Null,
    Bool(bool),
    Number(serde_json::Number),
    Text(String),
    Array(Vec<Json>),
    Object(Vec<(String, Json)>),
}

/// What a JSON value is, whatever order its objects were written in.
pub enum JsonView {
    Null,
    Bool(bool),
    Number(serde_json::Number),
    Text(Seq<char>),
    Array(Seq<JsonView>),
    Object(Map<Seq<char>, JsonView>),
}

/// One level of a value: what `serde_json` holds below it is still its own.
pub enum Layer {
    Null,
    Bool(bool),
    Number(serde_json::Number),
    Text(String),
    Array(Vec<serde_json::Value>),
    Object(Vec<(String, serde_json::Value)>),
}

/// The object that a list of entries makes.
pub open spec fn object_of(e: Seq<(String, Json)>) -> Map<Seq<char>, JsonView>
    decreases e,
{
    if e.len() == 0 {
        Map::empty()
    } else {
        object_of(e.drop_last()).insert(e.last().0@, e.last().1.view())
    }
}

/// The values of a list.
pub open spec fn views(v: Seq<Json>) -> Seq<JsonView> {
    Seq::new(v.len(), |i: int| v[i].view())
}

impl Json {
    pub open spec fn view(&self) -> JsonView
        decreases self,
    {
        match self {
            Json::Null => JsonView::Null,
            Json::Bool(b) => JsonView::Bool(*b),
            Json::Number(n) => JsonView::Number(*n),
            Json::Text(s) => JsonView::Text(s@),
            Json::Array(v) => JsonView::Array(
                Seq::new(
                    v@.len(),
                    |i: int|
                        if 0 <= i < v@.len() {
                            v@[i].view()
                        } else {
                            JsonView::Null
                        },
                ),
            ),
            Json::Object(e) => JsonView::Object(object_of(e@)),
        }
    }
}

/// The value that `serde_json` holds.
pub uninterp spec fn value_json(v: serde_json::Value) -> JsonView;

/// The object that a list of entries makes, over values `serde_json` holds.
pub open spec fn value_object(e: Seq<(String, serde_json::Value)>) -> Map<Seq<char>, JsonView>
    decreases e.len(),
{
    if e.len() == 0 {
        Map::empty()
    } else {
        value_object(e.drop_last()).insert(e.last().0@, value_json(e.last().1))
    }
}

/// Whether no two entries have the same key.
pub open spec fn distinct_keys(e: Seq<(String, serde_json::Value)>) -> bool {
    forall|i: int, j: int| 0 <= i < j < e.len() ==> #[trigger] e[i].0@ != #[trigger] e[j].0@
}

/// What one level and the values below it make.
pub open spec fn layer_json(l: Layer) -> JsonView {
    match l {
        Layer::Null => JsonView::Null,
        Layer::Bool(b) => JsonView::Bool(b),
        Layer::Number(n) => JsonView::Number(n),
        Layer::Text(s) => JsonView::Text(s@),
        Layer::Array(v) => JsonView::Array(Seq::new(v@.len(), |i: int| value_json(v@[i]))),
        Layer::Object(e) => JsonView::Object(value_object(e@)),
    }
}

/// What `serde_json::from_str` makes of a text; nothing where it reports an error.
pub uninterp spec fn json_of_text(text: Seq<char>) -> Option<JsonView>;

/// The text that `serde_json::to_string` writes for a value.
pub uninterp spec fn compact(j: JsonView) -> Seq<char>;

/// The text that `serde_json::to_string_pretty` writes for a value; nothing where it reports an
/// error.
pub uninterp spec fn pretty(j: JsonView) -> Option<Seq<char>>;

/// The unsigned 64-bit integer that a number is, where it is one.
pub uninterp spec fn whole(n: serde_json::Number) -> Option<u64>;

/// `serde_json::from_str`, read as a `serde_json::Value`: the outcome is a function of the text.
#[verifier::external_body]
fn read_value(text: &str) -> (r: Option<serde_json::Value>)
    ensures
        match r {
            Some(v) => json_of_text(text@) == Some(value_json(v)),
            None => json_of_text(text@) is None,
        },
{
    serde_json::from_str(text).ok()
}

/// Takes a `serde_json::Value` apart, one level. Its map yields each key once, so the entries
/// make the same object.
#[verifier::external_body]
fn open_value(v: serde_json::Value) -> (l: Layer)
    ensures
        layer_json(l) == value_json(v),
        l matches Layer::Object(e) ==> distinct_keys(e@),
{
    match v {
        serde_json::Value::Null => Layer::Null,
        serde_json::Value::Bool(b) => Layer::Bool(b),
        serde_json::Value::Number(n) => Layer::Number(n),
        serde_json::Value::String(s) => Layer::Text(s),
        serde_json::Value::Array(a) => Layer::Array(a),
        serde_json::Value::Object(m) => Layer::Object(m.into_iter().collect()),
    }
}

/// Puts a `serde_json::Value` together, one level. `serde_json::Map` keeps the later of two
/// entries with one key.
#[verifier::external_body]
fn close_value(l: Layer) -> (v: serde_json::Value)
    ensures
        value_json(v) == layer_json(l),
{
    match l {
        Layer::Null => serde_json::Value::Null,
        Layer::Bool(b) => serde_json::Value::Bool(b),
        Layer::Number(n) => serde_json::Value::Number(n),
        Layer::Text(s) => serde_json::Value::String(s),
        Layer::Array(a) => serde_json::Value::Array(a),
        Layer::Object(e) => serde_json::Value::Object(e.into_iter().collect()),
    }
}

/// `serde_json::Value`'s text form, which is compact; it is a function of the value.
#[verifier::external_body]
fn value_text(v: &serde_json::Value) -> (r: String)
    ensures
        r@ == compact(value_json(*v)),
{
    v.to_string()
}

/// `serde_json::to_string_pretty`: the outcome is a function of the value.
#[verifier::external_body]
fn value_pretty(v: &serde_json::Value) -> (r: Option<String>)
    ensures
        match r {
            Some(s) => pretty(value_json(*v)) == Some(s@),
            None => pretty(value_json(*v)) is None,
        },
{
    serde_json::to_string_pretty(v).ok()
}

/// `serde_json::Number::as_u64` answers from the number alone.
pub assume_specification[ serde_json::Number::as_u64 ](n: &serde_json::Number) -> (r: Option<u64>)
    ensures
        r == whole(*n),
;

/// A copy of a `serde_json::Number` is the same number.
pub assume_specification[ <serde_json::Number as Clone>::clone ](n: &serde_json::Number) -> (r:
    serde_json::Number)
    ensures
        r == *n,
;

// ---------------------------------------------------------------- conversion

pub proof fn lemma_array_view(v: Vec<Json>)
    ensures
        Json::Array(v).view() == JsonView::Array(views(v@)),
{
    assert(Json::Array(v).view()->Array_0 =~= views(v@));
}

proof fn lemma_value_object(e: Seq<(String, serde_json::Value)>)
    ensures
        value_object(e).dom().finite(),
        forall|k: Seq<char>| #[trigger] value_object(e).contains_key(k) ==> exists|i: int|
            0 <= i < e.len() && #[trigger] e[i].0@ == k,
        distinct_keys(e) ==> forall|i: int|
            0 <= i < e.len() ==> value_object(e).contains_key(#[trigger] e[i].0@) && value_object(
                e,
            )[e[i].0@] == value_json(e[i].1),
    decreases e.len(),
{
    if e.len() > 0 {
        let t = e.drop_last();
        lemma_value_object(t);
        assert forall|k: Seq<char>| #[trigger] value_object(e).contains_key(k) implies exists|
            i: int,
        |
            0 <= i < e.len() && #[trigger] e[i].0@ == k by {
            if k == e.last().0@ {
                assert(e[e.len() - 1].0@ == k);
            } else {
                assert(value_object(t).contains_key(k));
                let i = choose|i: int| 0 <= i < t.len() && #[trigger] t[i].0@ == k;
                assert(e[i].0@ == k);
            }
        }
        if distinct_keys(e) {
            assert forall|i: int, j: int| 0 <= i < j < t.len() implies #[trigger] t[i].0@
                != #[trigger] t[j].0@ by {
                assert(e[i].0@ != e[j].0@);
            }
            assert forall|i: int| 0 <= i < e.len() implies value_object(e).contains_key(
                #[trigger] e[i].0@,
            ) && value_object(e)[e[i].0@] == value_json(e[i].1) by {
                if i < t.len() {
                    assert(t[i].0@ == e[i].0@);
                    assert(e[i].0@ != e[e.len() - 1].0@);
                }
            }
        }
    }
}

/// A value of the library from one that `serde_json` holds.
fn json_from(v: serde_json::Value) -> (j: Json)
    ensures
        j.view() == value_json(v),
    decreases value_json(v),
{
    match open_value(v) {
        Layer::Null => Json::Null,
        Layer::Bool(b) => Json::Bool(b),
        Layer::Number(n) => Json::Number(n),
        Layer::Text(s) => Json::Text(s),
        Layer::Array(a) => {
            let ghost all = a@;
            let ghost below = Seq::new(all.len(), |i: int| value_json(all[i]));
            let mut rest: Vec<serde_json::Value> = reversed(a);
            let mut out: Vec<Json> = Vec::new();
            while rest.len() > 0
                invariant
                    rest@.len() + out@.len() == all.len(),
                    rest@ == all.skip(out@.len() as int).reverse(),
                    views(out@) == below.take(out@.len() as int),
                    below == Seq::new(all.len(), |i: int| value_json(all[i])),
                    value_json(v) == JsonView::Array(below),
                decreases rest@.len(),
            {
                let ghost n = out@.len() as int;
                if let Some(x) = rest.pop() {
                    proof {
                        assert(x == all[n]);
                        assert(below[n] == value_json(x));
                        assert(decreases_to!(value_json(v) => value_json(v)->Array_0));
                        assert(decreases_to!(below => below[n]));
                    }
                    out.push(json_from(x));
                    proof {
                        assert(views(out@) =~= below.take(n + 1));
                        assert(rest@ =~= all.skip(n + 1).reverse());
                    }
                }
            }
            proof {
                lemma_array_view(out);
                assert(below.take(out@.len() as int) =~= below);
            }
            Json::Array(out)
        },
        Layer::Object(e) => {
            let ghost all = e@;
            proof {
                lemma_value_object(all);
            }
            let mut rest: Vec<(String, serde_json::Value)> = reversed(e);
            let mut out: Vec<(String, Json)> = Vec::new();
            assert(all.take(0) =~= seq![]);
            while rest.len() > 0
                invariant
                    rest@.len() + out@.len() == all.len(),
                    rest@ == all.skip(out@.len() as int).reverse(),
                    object_of(out@) == value_object(all.take(out@.len() as int)),
                    value_json(v) == JsonView::Object(value_object(all)),
                    value_object(all).dom().finite(),
                    forall|i: int|
                        0 <= i < all.len() ==> value_object(all).contains_key(#[trigger] all[i].0@)
                            && value_object(all)[all[i].0@] == value_json(all[i].1),
                decreases rest@.len(),
            {
                let ghost n = out@.len() as int;
                if let Some(p) = rest.pop() {
                    let (k, x): (String, serde_json::Value) = p;
                    proof {
                        assert((k, x) == all[n]);
                        let m = value_object(all);
                        assert(m.contains_key(all[n].0@) && m[all[n].0@] == value_json(x));
                        assert(decreases_to!(value_json(v) => value_json(v)->Object_0));
                        assert(decreases_to!(m => m[all[n].0@]));
                    }
                    let y: Json = json_from(x);
                    let ghost before = out@;
                    out.push((k, y));
                    proof {
                        assert(out@.drop_last() =~= before);
                        assert(out@.last() == (k, y));
                        assert(all.take(n + 1).drop_last() =~= all.take(n));
                        assert(all.take(n + 1).last() == all[n]);
                        assert(rest@ =~= all.skip(n + 1).reverse());
                    }
                }
            }
            assert(all.take(all.len() as int) =~= all);
            Json::Object(out)
        },
    }
}

/// A value that `serde_json` holds from one of the library.
fn json_to(j: &Json) -> (v: serde_json::Value)
    ensures
        value_json(v) == j.view(),
    decreases j,
{
    match j {
        Json::Null => close_value(Layer::Null),
        Json::Bool(b) => close_value(Layer::Bool(*b)),
        Json::Number(n) => close_value(Layer::Number(n.clone())),
        Json::Text(s) => close_value(Layer::Text(s.clone())),
        Json::Array(a) => {
            let mut out: Vec<serde_json::Value> = Vec::new();
            let mut i: usize = 0;
            while i < a.len()
                invariant
                    i <= a@.len(),
                    out@.len() == i,
                    *j == Json::Array(*a),
                    forall|k: int| 0 <= k < i ==> value_json(#[trigger] out@[k]) == a@[k].view(),
                decreases a@.len() - i,
            {
                proof {
                    assert(decreases_to!(j => j->Array_0));
                    assert(decreases_to!(a => a@[i as int]));
                }
                out.push(json_to(&a[i]));
                i += 1;
            }
            proof {
                lemma_array_view(*a);
                assert(Seq::new(out@.len(), |k: int| value_json(out@[k])) =~= views(a@));
            }
            close_value(Layer::Array(out))
        },
        Json::Object(e) => {
            let mut out: Vec<(String, serde_json::Value)> = Vec::new();
            let mut i: usize = 0;
            while i < e.len()
                invariant
                    i <= e@.len(),
                    out@.len() == i,
                    *j == Json::Object(*e),
                    value_object(out@) == object_of(e@.take(i as int)),
                decreases e@.len() - i,
            {
                proof {
                    assert(decreases_to!(j => j->Object_0));
                    assert(decreases_to!(e => e@[i as int]));
                    assert(decreases_to!(e@[i as int] => e@[i as int].1));
                }
                let x: serde_json::Value = json_to(&e[i].1);
                let ghost before = out@;
                out.push((e[i].0.clone(), x));
                i += 1;
                proof {
                    assert(out@.drop_last() =~= before);
                    assert(out@.last().1 == x);
                    assert(e@.take(i as int).drop_last() =~= e@.take(i - 1));
                    assert(e@.take(i as int).last() == e@[i - 1]);
                }
            }
            assert(e@.take(e@.len() as int) =~= e@);
            close_value(Layer::Object(out))
        },
    }
}

/// The view of an optional value.
pub open spec fn opt_json(o: Option<Json>) -> Option<JsonView> {
    match o {
        Some(j) => Some(j.view()),
        None => None,
    }
}

/// Reads a JSON text; nothing where it is not one.
pub fn parse(text: &str) -> (r: Option<Json>)
    ensures
        opt_json(r) == json_of_text(text@),
{
    match read_value(text) {
        Some(v) => Some(json_from(v)),
        None => None,
    }
}

/// The compact text of a value.
pub fn to_text(j: &Json) -> (r: String)
    ensures
        r@ == compact(j.view()),
{
    value_text(&json_to(j))
}

/// The indented text of a value.
pub fn to_pretty(j: &Json) -> (r: Option<String>)
    ensures
        crate::text::opt_text(r) == pretty(j.view()),
{
    value_pretty(&json_to(j))
}

// ---------------------------------------------------------------- access

/// The value of an object's entry; nothing where the value is no object or lacks the key.
pub open spec fn field(j: JsonView, key: Seq<char>) -> Option<JsonView> {
    match j {
        JsonView::Object(m) => if m.contains_key(key) {
            Some(m[key])
        } else {
            None
        },
        _ => None,
    }
}

/// The characters of a text value.
pub open spec fn as_text(j: JsonView) -> Option<Seq<char>> {
    match j {
        JsonView::Text(s) => Some(s),
        _ => None,
    }
}

/// The characters of an optional text value.
pub open spec fn opt_as_text(j: Option<JsonView>) -> Option<Seq<char>> {
    match j {
        Some(v) => as_text(v),
        None => None,
    }
}

/// The characters of an object's entry, where that is a text.
pub open spec fn text_field(j: JsonView, key: Seq<char>) -> Option<Seq<char>> {
    opt_as_text(field(j, key))
}

/// The items of an object's entry, where that is an array.
pub open spec fn array_field(j: JsonView, key: Seq<char>) -> Option<Seq<JsonView>> {
    match field(j, key) {
        Some(JsonView::Array(v)) => Some(v),
        _ => None,
    }
}

/// Whether an object's entry is the boolean `true`.
pub open spec fn true_field(j: JsonView, key: Seq<char>) -> bool {
    field(j, key) == Some(JsonView::Bool(true))
}

/// The unsigned integer of an object's entry, where that is one.
pub open spec fn whole_field(j: JsonView, key: Seq<char>) -> Option<u64> {
    match field(j, key) {
        Some(JsonView::Number(n)) => whole(n),
        _ => None,
    }
}

pub proof fn lemma_object_get(e: Seq<(String, Json)>, i: int)
    requires
        0 <= i < e.len(),
        forall|k: int| i < k < e.len() ==> #[trigger] e[k].0@ != e[i].0@,
    ensures
        object_of(e).contains_key(e[i].0@),
        object_of(e)[e[i].0@] == e[i].1.view(),
    decreases e.len(),
{
    if i < e.len() - 1 {
        let t = e.drop_last();
        assert forall|k: int| i < k < t.len() implies #[trigger] t[k].0@ != t[i].0@ by {
            assert(e[k].0@ != e[i].0@);
        }
        lemma_object_get(t, i);
        assert(e[e.len() - 1].0@ != e[i].0@);
    }
}

pub proof fn lemma_object_lacks(e: Seq<(String, Json)>, key: Seq<char>)
    requires
        forall|k: int| 0 <= k < e.len() ==> #[trigger] e[k].0@ != key,
    ensures
        !object_of(e).contains_key(key),
    decreases e.len(),
{
    if e.len() > 0 {
        let t = e.drop_last();
        assert forall|k: int| 0 <= k < t.len() implies #[trigger] t[k].0@ != key by {
            assert(e[k].0@ != key);
        }
        lemma_object_lacks(t, key);
        assert(e[e.len() - 1].0@ != key);
    }
}

/// The keys of an object are those of its entries.
pub proof fn lemma_object_finite(e: Seq<(String, Json)>)
    ensures
        object_of(e).dom().finite(),
    decreases e.len(),
{
    if e.len() > 0 {
        lemma_object_finite(e.drop_last());
    }
}

impl Json {
    /// The value of an object's entry.
    pub fn get(&self, key: &str) -> (r: Option<&Json>)
        ensures
            match r {
                Some(j) => field(self.view(), key@) == Some(j.view()),
                None => field(self.view(), key@) is None,
            },
            r matches Some(j) ==> decreases_to!(self => j),
    {
        match self {
            Json::Object(e) => {
                let mut i: usize = e.len();
                while i > 0
                    invariant
                        i <= e@.len(),
                        *self == Json::Object(*e),
                        forall|k: int| i <= k < e@.len() ==> #[trigger] e@[k].0@ != key@,
                    decreases i,
                {
                    i -= 1;
                    if same(e[i].0.as_str(), key) {
                        proof {
                            lemma_object_get(e@, i as int);
                            assert(decreases_to!(self => self->Object_0));
                            assert(decreases_to!(e => e@[i as int]));
                            assert(decreases_to!(e@[i as int] => e@[i as int].1));
                        }
                        return Some(&e[i].1);
                    }
                }
                proof {
                    lemma_object_lacks(e@, key@);
                }
                None
            },
            _ => None,
        }
    }

    /// The characters of a text value.
    pub fn as_str(&self) -> (r: Option<&str>)
        ensures
            match r {
                Some(s) => as_text(self.view()) == Some(s@),
                None => as_text(self.view()) is None,
            },
    {
        match self {
            Json::Text(s) => Some(s.as_str()),
            _ => None,
        }
    }

    /// The characters of an object's entry, where that is a text.
    pub fn get_str(&self, key: &str) -> (r: Option<&str>)
        ensures
            match r {
                Some(s) => text_field(self.view(), key@) == Some(s@),
                None => text_field(self.view(), key@) is None,
            },
    {
        match self.get(key) {
            Some(j) => j.as_str(),
            None => None,
        }
    }

    /// An owned copy of the characters of an object's entry, where that is a text.
    pub fn get_string(&self, key: &str) -> (r: Option<String>)
        ensures
            crate::text::opt_text(r) == text_field(self.view(), key@),
    {
        match self.get_str(key) {
            Some(s) => Some(crate::text::copy(s)),
            None => None,
        }
    }

    /// The items of an object's entry, where that is an array.
    pub fn get_array(&self, key: &str) -> (r: Option<&Vec<Json>>)
        ensures
            match r {
                Some(v) => array_field(self.view(), key@) == Some(views(v@)),
                None => array_field(self.view(), key@) is None,
            },
            r matches Some(v) ==> decreases_to!(self => v),
    {
        match self.get(key) {
            Some(j) => match j {
                Json::Array(v) => {
                    proof {
                        lemma_array_view(*v);
                        assert(decreases_to!(j => j->Array_0));
                    }
                    Some(v)
                },
                _ => None,
            },
            None => None,
        }
    }

    /// Whether an object's entry is the boolean `true`.
    pub fn get_true(&self, key: &str) -> (r: bool)
        ensures
            r == true_field(self.view(), key@),
    {
        match self.get(key) {
            Some(j) => match j {
                Json::Bool(b) => *b,
                _ => false,
            },
            None => false,
        }
    }

    /// The unsigned integer of an object's entry, where that is one.
    pub fn get_whole(&self, key: &str) -> (r: Option<u64>)
        ensures
            r == whole_field(self.view(), key@),
    {
        match self.get(key) {
            Some(j) => match j {
                Json::Number(n) => n.as_u64(),
                _ => None,
            },
            None => None,
        }
    }

    /// A copy of a value.
    pub fn copied(&self) -> (r: Json)
        ensures
            r.view() == self.view(),
        decreases self,
    {
        match self {
            Json::Null => Json::Null,
            Json::Bool(b) => Json::Bool(*b),
            Json::Number(n) => Json::Number(n.clone()),
            Json::Text(s) => Json::Text(s.clone()),
            Json::Array(a) => {
                let mut out: Vec<Json> = Vec::new();
                let mut i: usize = 0;
                while i < a.len()
                    invariant
                        i <= a@.len(),
                        out@.len() == i,
                        *self == Json::Array(*a),
                        forall|k: int| 0 <= k < i ==> (#[trigger] out@[k]).view() == a@[k].view(),
                    decreases a@.len() - i,
                {
                    proof {
                        assert(decreases_to!(self => self->Array_0));
                        assert(decreases_to!(a => a@[i as int]));
                    }
                    out.push(a[i].copied());
                    i += 1;
                }
                proof {
                    lemma_array_view(*a);
                    lemma_array_view(out);
                    assert(views(out@) =~= views(a@));
                }
                Json::Array(out)
            },
            Json::Object(e) => {
                let mut out: Vec<(String, Json)> = Vec::new();
                let mut i: usize = 0;
                while i < e.len()
                    invariant
                        i <= e@.len(),
                        out@.len() == i,
                        *self == Json::Object(*e),
                        object_of(out@) == object_of(e@.take(i as int)),
                    decreases e@.len() - i,
                {
                    proof {
                        assert(decreases_to!(self => self->Object_0));
                        assert(decreases_to!(e => e@[i as int]));
                        assert(decreases_to!(e@[i as int] => e@[i as int].1));
                    }
                    let x: Json = e[i].1.copied();
                    let ghost before = out@;
                    out.push((e[i].0.clone(), x));
                    i += 1;
                    proof {
                        assert(out@.drop_last() =~= before);
                        assert(out@.last().1 == x);
                        assert(e@.take(i as int).drop_last() =~= e@.take(i - 1));
                        assert(e@.take(i as int).last() == e@[i - 1]);
                    }
                }
                assert(e@.take(e@.len() as int) =~= e@);
                Json::Object(out)
            },
        }
    }
}

/// The entry that counts for `key`; the number of entries where there is none.
pub fn find_entry(e: &Vec<(String, Json)>, key: &str) -> (i: usize)
    ensures
        i <= e@.len(),
        i < e@.len() ==> e@[i as int].0@ == key@ && object_of(e@).contains_key(key@) && object_of(
            e@,
        )[key@] == e@[i as int].1.view() && (forall|k: int|
            i < k < e@.len() ==> #[trigger] e@[k].0@ != key@),
        i == e@.len() ==> !object_of(e@).contains_key(key@),
{
    let mut i: usize = e.len();
    while i > 0
        invariant
            i <= e@.len(),
            forall|k: int| i <= k < e@.len() ==> #[trigger] e@[k].0@ != key@,
        decreases i,
    {
        i -= 1;
        if same(e[i].0.as_str(), key) {
            proof {
                lemma_object_get(e@, i as int);
            }
            return i;
        }
    }
    proof {
        lemma_object_lacks(e@, key@);
    }
    e.len()
}

/// Replacing the entry that counts for a key replaces the object's value for it.
pub proof fn lemma_object_update(e: Seq<(String, Json)>, i: int, x: Json)
    requires
        0 <= i < e.len(),
        forall|k: int| i < k < e.len() ==> #[trigger] e[k].0@ != e[i].0@,
    ensures
        object_of(e.update(i, (e[i].0, x))) == object_of(e).insert(e[i].0@, x.view()),
    decreases e.len(),
{
    let f = e.update(i, (e[i].0, x));
    if i == e.len() - 1 {
        assert(f.drop_last() =~= e.drop_last());
        assert(object_of(f) =~= object_of(e).insert(e[i].0@, x.view()));
    } else {
        let t = e.drop_last();
        assert forall|k: int| i < k < t.len() implies #[trigger] t[k].0@ != t[i].0@ by {
            assert(e[k].0@ != e[i].0@);
        }
        lemma_object_update(t, i, x);
        assert(f.drop_last() =~= t.update(i, (t[i].0, x)));
        assert(e[e.len() - 1].0@ != e[i].0@);
        assert(object_of(f) =~= object_of(e).insert(e[i].0@, x.view()));
    }
}

/// Gives an object's entry a value.
pub fn put(e: &mut Vec<(String, Json)>, key: &str, x: Json)
    ensures
        object_of(final(e)@) == object_of(old(e)@).insert(key@, x.view()),
{
    let i: usize = find_entry(e, key);
    let ghost before = e@;
    if i < e.len() {
        proof {
            lemma_object_update(before, i as int, x);
        }
        let name: String = e[i].0.clone();
        e.set(i, (name, x));
    } else {
        e.push((crate::text::copy(key), x));
        assert(e@.drop_last() =~= before);
    }
}

/// `j` with an entry's value changed, where `j` is an object.
pub open spec fn with_field(j: JsonView, key: Seq<char>, x: JsonView) -> JsonView {
    match j {
        JsonView::Object(m) => JsonView::Object(m.insert(key, x)),
        _ => j,
    }
}

/// A copy of a value with an entry's value changed, where it is an object.
pub fn copied_with(j: &Json, key: &str, x: Json) -> (r: Json)
    ensures
        r.view() == with_field(j.view(), key@, x.view()),
{
    let mut c: Json = j.copied();
    match c {
        Json::Object(e) => {
            let mut e: Vec<(String, Json)> = e;
            put(&mut e, key, x);
            Json::Object(e)
        },
        other => other,
    }
}

/// An entry of an object is read by its key, as what it is: a text as a text, a list as a list, and the
/// like; of anything but an object nothing is.
pub proof fn entry_is_read_by_its_key(j: JsonView, key: Seq<char>, other: Seq<char>, x: JsonView)
    requires
        j is Object,
        other != key,
    ensures
        field(with_field(j, key, x), key) == Some(x),
        field(with_field(j, key, x), other) == field(j, other),
        x matches JsonView::Text(s) ==> text_field(with_field(j, key, x), key) == Some(s),
        !(x is Text) ==> text_field(with_field(j, key, x), key) is None,
        x matches JsonView::Array(v) ==> array_field(with_field(j, key, x), key) == Some(v),
        !(x is Array) ==> array_field(with_field(j, key, x), key) is None,
        true_field(with_field(j, key, x), key) <==> x == JsonView::Bool(true),
        x matches JsonView::Number(n) ==> whole_field(with_field(j, key, x), key) == whole(n),
        !(x is Number) ==> whole_field(with_field(j, key, x), key) is None,
        field(JsonView::Text(key), key) is None,
        field(JsonView::Null, key) is None,
{
}

} // verus!
