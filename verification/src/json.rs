//! JSON values: a plain model, field access, and the way in and out of text.

use vstd::prelude::*;

use crate::text;

verus! {

// ---------------------------------------------------------------------------
// Numbers
// ---------------------------------------------------------------------------

/// `serde_json::Number`, carried through unopened.
#[verifier::external_type_specification]
#[verifier::external_body]
pub struct ExNumber(serde_json::Number);

/// What `serde_json::Number::as_u64` gives for a number.
pub uninterp spec fn number_natural(n: serde_json::Number) -> Option<u64>;

/// `serde_json::Number::as_u64`: the number as a `u64`, where it is one.
pub assume_specification[ serde_json::Number::as_u64 ](n: &serde_json::Number) -> (r: Option<u64>)
    ensures
        r == number_natural(*n),
;

/// `Clone` of `serde_json::Number`: the same number.
pub assume_specification[ <serde_json::Number as Clone>::clone ](n: &serde_json::Number) -> (r:
    serde_json::Number)
    ensures
        r == *n,
;

// ---------------------------------------------------------------------------
// Values
// ---------------------------------------------------------------------------

/// What a JSON value means. An object is a map: the order of its fields does
/// not count.
pub ghost enum JsonView {
    Null,
    Bool(bool),
    UInt(u64),
    OtherNumber(serde_json::Number),
    Str(Seq<char>),
    Arr(Seq<JsonView>),
    Obj(Map<Seq<char>, JsonView>),
}

/// A JSON value. In an object the last field of a name counts.
#[derive(Debug)]
pub enum Json {
    Null,
    Bool(bool),
    UInt(u64),
    Number(serde_json::Number),
    Str(String),
    Arr(Vec<Json>),
    Obj(Vec<(String, Json)>),
}

pub open spec fn number_view(n: serde_json::Number) -> JsonView {
    match number_natural(n) {
        Some(u) => JsonView::UInt(u),
        None => JsonView::OtherNumber(n),
    }
}

impl Json {
    pub open spec fn model(self) -> JsonView
        decreases self,
    {
        match self {
            Json::Null => JsonView::Null,
            Json::Bool(b) => JsonView::Bool(b),
            Json::UInt(u) => JsonView::UInt(u),
            Json::Number(n) => number_view(n),
            Json::Str(s) => JsonView::Str(s@),
            Json::Arr(v) => JsonView::Arr(items_model(v@)),
            Json::Obj(v) => JsonView::Obj(fields_model(v@)),
        }
    }
}

pub open spec fn items_model(v: Seq<Json>) -> Seq<JsonView>
    decreases v,
{
    if v.len() == 0 {
        Seq::empty()
    } else {
        items_model(v.drop_last()).push(v.last().model())
    }
}

pub open spec fn fields_model(v: Seq<(String, Json)>) -> Map<Seq<char>, JsonView>
    decreases v,
{
    if v.len() == 0 {
        Map::empty()
    } else {
        fields_model(v.drop_last()).insert(v.last().0@, v.last().1.model())
    }
}

impl View for Json {
    type V = JsonView;

    open spec fn view(&self) -> JsonView {
        self.model()
    }
}

pub proof fn lemma_items_push(v: Seq<Json>, x: Json)
    ensures
        items_model(v.push(x)) == items_model(v).push(x@),
{
    assert(v.push(x).drop_last() =~= v);
}

pub proof fn lemma_items(v: Seq<Json>)
    ensures
        items_model(v).len() == v.len(),
        forall|i: int| 0 <= i < v.len() ==> #[trigger] items_model(v)[i] == v[i]@,
    decreases v.len(),
{
    if v.len() > 0 {
        lemma_items(v.drop_last());
        assert forall|i: int| 0 <= i < v.len() implies #[trigger] items_model(v)[i] == v[i]@ by {
            if i < v.len() - 1 {
                assert(v.drop_last()[i] == v[i]);
                assert(items_model(v.drop_last())[i] == v[i]@);
            }
        }
    }
}

pub proof fn lemma_fields_push(v: Seq<(String, Json)>, key: String, x: Json)
    ensures
        fields_model(v.push((key, x))) == fields_model(v).insert(key@, x@),
{
    assert(v.push((key, x)).drop_last() =~= v);
}

/// The field of a name: the last one that has it.
pub proof fn lemma_field(v: Seq<(String, Json)>, key: Seq<char>)
    ensures
        fields_model(v).dom().contains(key) <==> exists|i: int|
            0 <= i < v.len() && (#[trigger] v[i]).0@ == key,
    decreases v.len(),
{
    if v.len() > 0 {
        let init = v.drop_last();
        lemma_field(init, key);
        if exists|i: int| 0 <= i < v.len() && (#[trigger] v[i]).0@ == key {
            let i = choose|i: int| 0 <= i < v.len() && (#[trigger] v[i]).0@ == key;
            if i < v.len() - 1 {
                assert(init[i].0@ == key);
            }
        }
        if fields_model(init).dom().contains(key) {
            let i = choose|i: int| 0 <= i < init.len() && (#[trigger] init[i]).0@ == key;
            assert(v[i].0@ == key);
        }
    }
}

// ---------------------------------------------------------------------------
// Access
// ---------------------------------------------------------------------------

/// The field `key`, if the value is an object that has it.
pub open spec fn field(j: JsonView, key: Seq<char>) -> Option<JsonView> {
    match j {
        JsonView::Obj(m) => if m.dom().contains(key) {
            Some(m[key])
        } else {
            None
        },
        _ => None,
    }
}

/// The field `key`, or null.
pub open spec fn field_or_null(j: JsonView, key: Seq<char>) -> JsonView {
    match field(j, key) {
        Some(v) => v,
        None => JsonView::Null,
    }
}

pub open spec fn string_of(j: JsonView) -> Option<Seq<char>> {
    match j {
        JsonView::Str(s) => Some(s),
        _ => None,
    }
}

pub open spec fn natural_of(j: JsonView) -> Option<u64> {
    match j {
        JsonView::UInt(u) => Some(u),
        _ => None,
    }
}

/// The string in field `key`, if there is one.
pub open spec fn string_field(j: JsonView, key: Seq<char>) -> Option<Seq<char>> {
    match field(j, key) {
        Some(v) => string_of(v),
        None => None,
    }
}

/// The natural number in field `key`, if there is one.
pub open spec fn natural_field(j: JsonView, key: Seq<char>) -> Option<u64> {
    match field(j, key) {
        Some(v) => natural_of(v),
        None => None,
    }
}

pub open spec fn or_empty(s: Option<Seq<char>>) -> Seq<char> {
    match s {
        Some(t) => t,
        None => Seq::empty(),
    }
}

/// The view of an optional value.
pub open spec fn opt_json(o: Option<Json>) -> Option<JsonView> {
    match o {
        Some(j) => Some(j@),
        None => None,
    }
}

impl Json {
    /// An object without fields.
    pub fn object() -> (r: Json)
        ensures
            r@ == JsonView::Obj(Map::empty()),
    {
        Json::Obj(Vec::new())
    }

    pub fn str(s: &str) -> (r: Json)
        ensures
            r@ == JsonView::Str(s@),
    {
        Json::Str(s.to_string())
    }

    /// This object with the field `key` set; a value that is no object is left
    /// as it is.
    pub fn with(self, key: &str, value: Json) -> (r: Json)
        ensures
            match self@ {
                JsonView::Obj(m) => r@ == JsonView::Obj(m.insert(key@, value@)),
                _ => r@ == self@,
            },
    {
        match self {
            Json::Obj(mut v) => {
                let name: String = key.to_string();
                proof {
                    lemma_fields_push(v@, name, value);
                }
                v.push((name, value));
                Json::Obj(v)
            },
            other => other,
        }
    }

    /// This object without the field `key`; a value that is no object is left
    /// as it is.
    pub fn without(self, key: &str) -> (r: Json)
        ensures
            match self@ {
                JsonView::Obj(m) => r@ == JsonView::Obj(m.remove(key@)),
                _ => r@ == self@,
            },
    {
        match self {
            Json::Obj(v) => {
                let mut out: Vec<(String, Json)> = Vec::new();
                let mut i: usize = 0;
                assert(v@.take(0) =~= Seq::empty());
                assert(fields_model(out@) =~= fields_model(v@.take(0)).remove(key@));
                while i < v.len()
                    invariant
                        i <= v@.len(),
                        fields_model(out@) == fields_model(v@.take(i as int)).remove(key@),
                    decreases v@.len() - i,
                {
                    let ghost before = fields_model(v@.take(i as int));
                    assert(v@.take(i + 1).drop_last() =~= v@.take(i as int));
                    assert(v@.take(i + 1).last() == v@[i as int]);
                    let name: String = v[i].0.clone();
                    if !text::same(name.as_str(), key) {
                        let x: Json = v[i].1.clone();
                        proof {
                            lemma_fields_push(out@, name, x);
                            assert(before.remove(key@).insert(name@, x@) =~= before.insert(
                                name@,
                                x@,
                            ).remove(key@));
                        }
                        out.push((name, x));
                    } else {
                        assert(before.insert(key@, v@[i as int].1@).remove(key@) =~= before.remove(
                            key@,
                        ));
                    }
                    i += 1;
                }
                assert(v@.take(v@.len() as int) =~= v@);
                Json::Obj(out)
            },
            other => other,
        }
    }

    /// The field `key` of an object.
    pub fn get(&self, key: &str) -> (r: Option<&Json>)
        ensures
            match r {
                Some(v) => field(self@, key@) == Some(v@),
                None => field(self@, key@) is None,
            },
    {
        match self {
            Json::Obj(v) => {
                let mut i: usize = v.len();
                assert(v@.take(v@.len() as int) =~= v@);
                while i > 0
                    invariant
                        i <= v@.len(),
                        field(JsonView::Obj(fields_model(v@.take(i as int))), key@) == field(
                            JsonView::Obj(fields_model(v@)),
                            key@,
                        ),
                        self@ == JsonView::Obj(fields_model(v@)),
                    decreases i,
                {
                    let ghost part = v@.take(i as int);
                    assert(part.drop_last() =~= v@.take(i - 1));
                    assert(part.last() == v@[i - 1]);
                    if text::same(v[i - 1].0.as_str(), key) {
                        return Some(&v[i - 1].1);
                    }
                    i -= 1;
                }
                assert(v@.take(0) =~= Seq::empty());
                None
            },
            _ => None,
        }
    }

    pub fn as_str(&self) -> (r: Option<&str>)
        ensures
            match r {
                Some(s) => string_of(self@) == Some(s@),
                None => string_of(self@) is None,
            },
    {
        match self {
            Json::Str(s) => Some(s.as_str()),
            _ => None,
        }
    }

    pub fn as_u64(&self) -> (r: Option<u64>)
        ensures
            r == natural_of(self@),
    {
        match self {
            Json::UInt(u) => Some(*u),
            Json::Number(n) => n.as_u64(),
            _ => None,
        }
    }

    pub fn is_null(&self) -> (r: bool)
        ensures
            r == (self@ is Null),
    {
        match self {
            Json::Null => true,
            _ => false,
        }
    }

    pub fn is_object(&self) -> (r: bool)
        ensures
            r == (self@ is Obj),
    {
        match self {
            Json::Obj(_) => true,
            _ => false,
        }
    }

    /// The items of an array.
    pub fn as_array(&self) -> (r: Option<&Vec<Json>>)
        ensures
            match r {
                Some(v) => self@ == JsonView::Arr(items_model(v@)),
                None => !(self@ is Arr),
            },
    {
        match self {
            Json::Arr(v) => Some(v),
            _ => None,
        }
    }

    /// The string in field `key`.
    pub fn string_at(&self, key: &str) -> (r: Option<&str>)
        ensures
            match r {
                Some(s) => string_field(self@, key@) == Some(s@),
                None => string_field(self@, key@) is None,
            },
    {
        match self.get(key) {
            Some(v) => v.as_str(),
            None => None,
        }
    }

    /// The natural number in field `key`.
    pub fn natural_at(&self, key: &str) -> (r: Option<u64>)
        ensures
            r == natural_field(self@, key@),
    {
        match self.get(key) {
            Some(v) => v.as_u64(),
            None => None,
        }
    }

    /// The string in field `key`, or the empty string.
    pub fn string_or_empty(&self, key: &str) -> (r: String)
        ensures
            r@ == or_empty(string_field(self@, key@)),
    {
        match self.string_at(key) {
            Some(s) => s.to_string(),
            None => String::new(),
        }
    }

    /// A copy of the field `key`, or null.
    pub fn field_copy(&self, key: &str) -> (r: Json)
        ensures
            r@ == field_or_null(self@, key@),
    {
        match self.get(key) {
            Some(v) => v.clone(),
            None => Json::Null,
        }
    }
}

impl Clone for Json {
    fn clone(&self) -> (r: Json)
        ensures
            r@ == self@,
        decreases *self,
    {
        match self {
            Json::Null => Json::Null,
            Json::Bool(b) => Json::Bool(*b),
            Json::UInt(u) => Json::UInt(*u),
            Json::Number(n) => Json::Number(n.clone()),
            Json::Str(s) => Json::Str(s.clone()),
            Json::Arr(v) => {
                let mut out: Vec<Json> = Vec::new();
                let mut i: usize = 0;
                while i < v.len()
                    invariant
                        *self == Json::Arr(*v),
                        i <= v@.len(),
                        items_model(out@) == items_model(v@.take(i as int)),
                    decreases v@.len() - i,
                {
                    assert(decreases_to!(*self => self->Arr_0@[i as int]));
                    let x: Json = v[i].clone();
                    proof {
                        lemma_items_push(out@, x);
                        lemma_items_push(v@.take(i as int), v@[i as int]);
                        assert(v@.take(i + 1) =~= v@.take(i as int).push(v@[i as int]));
                    }
                    out.push(x);
                    i += 1;
                }
                assert(v@.take(v@.len() as int) =~= v@);
                Json::Arr(out)
            },
            Json::Obj(v) => {
                let mut out: Vec<(String, Json)> = Vec::new();
                let mut i: usize = 0;
                while i < v.len()
                    invariant
                        *self == Json::Obj(*v),
                        i <= v@.len(),
                        fields_model(out@) == fields_model(v@.take(i as int)),
                    decreases v@.len() - i,
                {
                    assert(decreases_to!(*self => self->Obj_0@[i as int].1));
                    let x: Json = v[i].1.clone();
                    let key: String = v[i].0.clone();
                    proof {
                        lemma_fields_push(out@, key, x);
                        assert(v@[i as int] == (v@[i as int].0, v@[i as int].1));
                        lemma_fields_push(v@.take(i as int), v@[i as int].0, v@[i as int].1);
                        assert(v@.take(i + 1) =~= v@.take(i as int).push(v@[i as int]));
                    }
                    out.push((key, x));
                    i += 1;
                }
                assert(v@.take(v@.len() as int) =~= v@);
                Json::Obj(out)
            },
        }
    }
}

// ---------------------------------------------------------------------------
// In and out of text
// ---------------------------------------------------------------------------

/// `serde_json::Value`, opened and built one level at a time.
#[verifier::external_type_specification]
#[verifier::external_body]
pub struct ExValue(serde_json::Value);

/// What a `serde_json::Value` holds.
pub uninterp spec fn value_view(v: serde_json::Value) -> JsonView;

/// What `serde_json::from_str` makes of a text: the value that it holds, or
/// nothing where it is no JSON.
pub uninterp spec fn json_parsed(s: Seq<char>) -> Option<JsonView>;

/// How `serde_json` writes a value.
pub uninterp spec fn json_written(j: JsonView) -> Seq<char>;

/// One level of a `serde_json::Value`.
pub enum Parts {
    Null,
    Bool(bool),
    UInt(u64),
    Number(serde_json::Number),
    Str(String),
    Arr(Vec<serde_json::Value>),
    Obj(Vec<(String, serde_json::Value)>),
}

pub open spec fn value_fields(v: Seq<(String, serde_json::Value)>) -> Map<Seq<char>, JsonView>
    decreases v.len(),
{
    if v.len() == 0 {
        Map::empty()
    } else {
        value_fields(v.drop_last()).insert(v.last().0@, value_view(v.last().1))
    }
}

impl Parts {
    pub open spec fn shape(self) -> JsonView {
        match self {
            Parts::Null => JsonView::Null,
            Parts::Bool(b) => JsonView::Bool(b),
            Parts::UInt(u) => JsonView::UInt(u),
            Parts::Number(n) => number_view(n),
            Parts::Str(s) => JsonView::Str(s@),
            Parts::Arr(v) => JsonView::Arr(v@.map_values(|x: serde_json::Value| value_view(x))),
            Parts::Obj(v) => JsonView::Obj(value_fields(v@)),
        }
    }

    /// No two fields have the same name.
    pub open spec fn distinct(self) -> bool {
        self matches Parts::Obj(v) ==> forall|i: int, j: int|
            0 <= i < j < v@.len() ==> (#[trigger] v@[i]).0@ != (#[trigger] v@[j]).0@
    }
}

/// `serde_json::from_str` on a text: the value that `json_parsed` names.
#[verifier::external_body]
fn parse_value(s: &str) -> (r: Option<serde_json::Value>)
    ensures
        match r {
            Some(v) => json_parsed(s@) == Some(value_view(v)),
            None => json_parsed(s@) is None,
        },
{
    serde_json::from_str::<serde_json::Value>(s).ok()
}

/// The variant of a `serde_json::Value` and what it holds. A `serde_json::Map`
/// has each key once.
#[verifier::external_body]
fn open_value(v: serde_json::Value) -> (r: Parts)
    ensures
        r.shape() == value_view(v),
        r.distinct(),
{
    match v {
        serde_json::Value::Null => Parts::Null,
        serde_json::Value::Bool(b) => Parts::Bool(b),
        serde_json::Value::Number(n) => Parts::Number(n),
        serde_json::Value::String(s) => Parts::Str(s),
        serde_json::Value::Array(a) => Parts::Arr(a),
        serde_json::Value::Object(m) => Parts::Obj(m.into_iter().collect()),
    }
}

/// A `serde_json::Value` of the given variant. Of fields with the same key a
/// `serde_json::Map` keeps the last; a number made from a `u64` is that `u64`.
#[verifier::external_body]
fn close_value(p: Parts) -> (r: serde_json::Value)
    ensures
        value_view(r) == p.shape(),
{
    match p {
        Parts::Null => serde_json::Value::Null,
        Parts::Bool(b) => serde_json::Value::Bool(b),
        Parts::UInt(u) => serde_json::Value::from(u),
        Parts::Number(n) => serde_json::Value::Number(n),
        Parts::Str(s) => serde_json::Value::String(s),
        Parts::Arr(a) => serde_json::Value::Array(a),
        Parts::Obj(v) => serde_json::Value::Object(v.into_iter().collect()),
    }
}

/// `ToString` of a `serde_json::Value`: the text that `json_written` names.
#[verifier::external_body]
fn write_value(v: &serde_json::Value) -> (r: String)
    ensures
        r@ == json_written(value_view(*v)),
{
    v.to_string()
}

/// A field of distinct fields is in their map.
proof fn lemma_value_field(v: Seq<(String, serde_json::Value)>, i: int)
    requires
        0 <= i < v.len(),
        forall|i: int, j: int|
            0 <= i < j < v.len() ==> (#[trigger] v[i]).0@ != (#[trigger] v[j]).0@,
    ensures
        value_fields(v).dom().contains(v[i].0@),
        value_fields(v)[v[i].0@] == value_view(v[i].1),
        value_fields(v).dom().finite(),
    decreases v.len(),
{
    let init = v.drop_last();
    assert forall|a: int, b: int| 0 <= a < b < init.len() implies (#[trigger] init[a]).0@ != (
    #[trigger] init[b]).0@ by {
        assert(v[a].0@ != v[b].0@);
    }
    if init.len() > 0 {
        if i < v.len() - 1 {
            lemma_value_field(init, i);
            assert(v[i].0@ != v[v.len() - 1].0@);
        } else {
            lemma_value_field(init, 0);
        }
    }
}

fn from_value(v: serde_json::Value) -> (r: Json)
    ensures
        r@ == value_view(v),
    decreases value_view(v),
{
    let ghost whole = value_view(v);
    match open_value(v) {
        Parts::Null => Json::Null,
        Parts::Bool(b) => Json::Bool(b),
        Parts::UInt(u) => Json::UInt(u),
        Parts::Number(n) => Json::Number(n),
        Parts::Str(s) => Json::Str(s),
        Parts::Arr(a) => {
            let ghost all = a@;
            let ghost views = all.map_values(|x: serde_json::Value| value_view(x));
            let mut rest: Vec<serde_json::Value> = a;
            let mut back: Vec<Json> = Vec::new();
            while rest.len() > 0
                invariant
                    rest@.len() + back@.len() == all.len(),
                    rest@ == all.take(rest@.len() as int),
                    views == all.map_values(|x: serde_json::Value| value_view(x)),
                    whole == value_view(v),
                    whole == JsonView::Arr(views),
                    forall|k: int|
                        0 <= k < back@.len() ==> (#[trigger] back@[k])@ == views[all.len() - 1 - k],
                decreases rest@.len(),
            {
                let ghost n = rest@.len();
                match rest.pop() {
                    Some(x) => {
                        assert(x == all[n - 1]);
                        assert(value_view(x) == views[n - 1]);
                        assert(decreases_to!(whole => whole->Arr_0[n - 1]));
                        assert(rest@ =~= all.take(n - 1));
                        back.push(from_value(x));
                    },
                    None => {},
                }
            }
            let mut out: Vec<Json> = Vec::new();
            let total: usize = back.len();
            while back.len() > 0
                invariant
                    total == all.len(),
                    views.len() == total,
                    out@.len() + back@.len() == total,
                    forall|k: int|
                        0 <= k < back@.len() ==> (#[trigger] back@[k])@ == views[all.len() - 1 - k],
                    items_model(out@) == views.take(out@.len() as int),
                decreases back@.len(),
            {
                let ghost m = out@.len() as int;
                let ghost kept = back@;
                match back.pop() {
                    Some(x) => {
                        proof {
                            assert(x == kept[kept.len() - 1]);
                            assert(x@ == views[m]);
                            lemma_items_push(out@, x);
                            assert(views.take(m + 1) =~= views.take(m).push(views[m]));
                        }
                        out.push(x);
                    },
                    None => {},
                }
            }
            assert(views.take(total as int) =~= views);
            Json::Arr(out)
        },
        Parts::Obj(f) => {
            let ghost all = f@;
            let mut rest: Vec<(String, serde_json::Value)> = f;
            let mut back: Vec<(String, Json)> = Vec::new();
            while rest.len() > 0
                invariant
                    rest@.len() + back@.len() == all.len(),
                    rest@ == all.take(rest@.len() as int),
                    whole == value_view(v),
                    whole == JsonView::Obj(value_fields(all)),
                    forall|i: int, j: int|
                        0 <= i < j < all.len() ==> (#[trigger] all[i]).0@ != (
                        #[trigger] all[j]).0@,
                    forall|k: int|
                        #![trigger back@[k]]
                        0 <= k < back@.len() ==> back@[k].0@ == all[all.len() - 1 - k].0@
                            && back@[k].1@ == value_view(all[all.len() - 1 - k].1),
                decreases rest@.len(),
            {
                let ghost n = rest@.len();
                match rest.pop() {
                    Some((key, x)) => {
                        proof {
                            assert((key, x) == all[n - 1]);
                            lemma_value_field(all, n - 1);
                            assert(decreases_to!(whole => whole->Obj_0[key@]));
                            assert(rest@ =~= all.take(n - 1));
                        }
                        back.push((key, from_value(x)));
                    },
                    None => {},
                }
            }
            let mut out: Vec<(String, Json)> = Vec::new();
            let total: usize = back.len();
            while back.len() > 0
                invariant
                    total == all.len(),
                    out@.len() + back@.len() == total,
                    forall|k: int|
                        #![trigger back@[k]]
                        0 <= k < back@.len() ==> back@[k].0@ == all[all.len() - 1 - k].0@
                            && back@[k].1@ == value_view(all[all.len() - 1 - k].1),
                    fields_model(out@) == value_fields(all.take(out@.len() as int)),
                decreases back@.len(),
            {
                let ghost m = out@.len() as int;
                let ghost kept = back@;
                match back.pop() {
                    Some((key, x)) => {
                        proof {
                            assert((key, x) == kept[kept.len() - 1]);
                            lemma_fields_push(out@, key, x);
                            assert(all.take(m + 1).drop_last() =~= all.take(m));
                            assert(all.take(m + 1).last() == all[m]);
                        }
                        out.push((key, x));
                    },
                    None => {},
                }
            }
            assert(all.take(total as int) =~= all);
            Json::Obj(out)
        },
    }
}

fn to_value(j: &Json) -> (r: serde_json::Value)
    ensures
        value_view(r) == j@,
    decreases *j,
{
    let parts: Parts = match j {
        Json::Null => Parts::Null,
        Json::Bool(b) => Parts::Bool(*b),
        Json::UInt(u) => Parts::UInt(*u),
        Json::Number(n) => Parts::Number(n.clone()),
        Json::Str(s) => Parts::Str(s.clone()),
        Json::Arr(v) => {
            let mut out: Vec<serde_json::Value> = Vec::new();
            let mut i: usize = 0;
            proof {
                lemma_items(v@);
            }
            while i < v.len()
                invariant
                    *j == Json::Arr(*v),
                    i <= v@.len(),
                    out@.len() == i,
                    items_model(v@).len() == v@.len(),
                    forall|k: int| 0 <= k < v@.len() ==> #[trigger] items_model(v@)[k] == v@[k]@,
                    forall|k: int| 0 <= k < i ==> value_view(#[trigger] out@[k]) == v@[k]@,
                decreases v@.len() - i,
            {
                assert(decreases_to!(*j => j->Arr_0@[i as int]));
                out.push(to_value(&v[i]));
                i += 1;
            }
            assert(out@.map_values(|x: serde_json::Value| value_view(x)) =~= items_model(v@));
            Parts::Arr(out)
        },
        Json::Obj(v) => {
            let mut out: Vec<(String, serde_json::Value)> = Vec::new();
            let mut i: usize = 0;
            while i < v.len()
                invariant
                    *j == Json::Obj(*v),
                    i <= v@.len(),
                    value_fields(out@) == fields_model(v@.take(i as int)),
                decreases v@.len() - i,
            {
                assert(decreases_to!(*j => j->Obj_0@[i as int].1));
                let x: serde_json::Value = to_value(&v[i].1);
                let key: String = v[i].0.clone();
                proof {
                    assert(out@.push((key, x)).drop_last() =~= out@);
                    assert(v@.take(i + 1).drop_last() =~= v@.take(i as int));
                    assert(v@.take(i + 1).last() == v@[i as int]);
                }
                out.push((key, x));
                i += 1;
            }
            assert(v@.take(v@.len() as int) =~= v@);
            Parts::Obj(out)
        },
    };
    close_value(parts)
}

/// Parse a text as JSON.
pub fn parse(s: &str) -> (r: Option<Json>)
    ensures
        opt_json(r) == json_parsed(s@),
{
    match parse_value(s) {
        Some(v) => Some(from_value(v)),
        None => None,
    }
}

/// Write a value as compact JSON.
pub fn write(j: &Json) -> (r: String)
    ensures
        r@ == json_written(j@),
{
    let v: serde_json::Value = to_value(j);
    write_value(&v)
}

// ---------------------------------------------------------------------------
// Reading fields
// ---------------------------------------------------------------------------

/// `j` is an object whose field `key` is `value`.
pub open spec fn holds(j: JsonView, key: Seq<char>, value: JsonView) -> bool {
    match j {
        JsonView::Obj(m) => m.dom().contains(key) && m[key] == value,
        _ => false,
    }
}

/// `j` has no field `key`.
pub open spec fn lacks(j: JsonView, key: Seq<char>) -> bool {
    match j {
        JsonView::Obj(m) => !m.dom().contains(key),
        _ => true,
    }
}

/// Reading a field gives what the object holds under that key: nothing where
/// there is no such field, a string where it is one, a number where it is a
/// natural one.
pub proof fn law_fields_are_read_as_they_stand(j: JsonView, key: Seq<char>, value: JsonView)
    ensures
        holds(j, key, value) <==> field(j, key) == Some(value),
        lacks(j, key) <==> field(j, key) is None,
        holds(j, key, value) ==> field_or_null(j, key) == value,
        lacks(j, key) ==> field_or_null(j, key) == JsonView::Null,
        holds(j, key, value) ==> string_field(j, key) == (match value {
            JsonView::Str(s) => Some(s),
            _ => None,
        }),
        holds(j, key, value) ==> natural_field(j, key) == (match value {
            JsonView::UInt(n) => Some(n),
            _ => None,
        }),
        lacks(j, key) ==> string_field(j, key) is None && natural_field(j, key) is None,
{
}

/// Nothing stands for an empty text.
pub proof fn law_nothing_stands_for_an_empty_text(t: Seq<char>)
    ensures
        or_empty(Some(t)) == t,
        or_empty(None).len() == 0,
{
}

} // verus!
