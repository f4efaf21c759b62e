//! The configuration files' own shape: a JSON value, held so that every key a file has survives being edited.
//!
//! The window edits applets, menus and themes as the files' own JSON rather than as parsed structures, so a key
//! this build does not know is still there when the file is written back. `Json` is that value; `JsonV` is what
//! the contracts say about it. Reading text into one and writing one out as text is `serde_json`'s work, done
//! through the two functions at the end of this file.

use vstd::prelude::*;
use crate::text::{is_before, owned, same_text, text_before};

verus! {

/// A JSON number as the file holds it.
#[derive(Debug, Clone, PartialEq)]
pub enum Numeral {
    /// A whole number that is not negative.
    PosInt(u64),
    /// A negative whole number.
    NegInt(i64),
    /// Any other number, as the text it is written as.
    Float(String),
}

/// A JSON value. An object keeps its keys in order, each once, the order `serde_json` reads them in.
#[derive(Debug, PartialEq)]
pub enum Json {
    /// `null`.
    Null,
    /// `true` or `false`.
    Bool(bool),
    /// A number.
    Number(Numeral),
    /// A string.
    Str(String),
    /// A list of values.
    Array(Vec<Json>),
    /// Keys and their values.
    Object(Vec<(String, Json)>),
}

/// What the contracts say a number is.
pub enum NumberV {
    PosInt(u64),
    NegInt(i64),
    Float(Seq<char>),
}

/// What the contracts say a JSON value is.
pub enum JsonV {
    Null,
    Bool(bool),
    Number(NumberV),
    Str(Seq<char>),
    Array(Seq<JsonV>),
    Object(Seq<(Seq<char>, JsonV)>),
}

impl View for Numeral {
    type V = NumberV;

    open spec fn view(&self) -> NumberV {
        match self {
            Numeral::PosInt(n) => NumberV::PosInt(*n),
            Numeral::NegInt(n) => NumberV::NegInt(*n),
            Numeral::Float(t) => NumberV::Float(t@),
        }
    }
}

/// A value's meaning.
pub open spec fn json_view(j: Json) -> JsonV
    decreases j,
{
    match j {
        Json::Null => JsonV::Null,
        Json::Bool(b) => JsonV::Bool(b),
        Json::Number(n) => JsonV::Number(n@),
        Json::Str(s) => JsonV::Str(s@),
        Json::Array(items) => JsonV::Array(items_view(items@)),
        Json::Object(fields) => JsonV::Object(fields_view(fields@)),
    }
}

/// The meaning of each value of a list.
pub open spec fn items_view(s: Seq<Json>) -> Seq<JsonV>
    decreases s,
{
    if s.len() == 0 {
        Seq::empty()
    } else {
        items_view(s.drop_last()).push(json_view(s.last()))
    }
}

/// The meaning of each key and value of an object.
pub open spec fn fields_view(s: Seq<(String, Json)>) -> Seq<(Seq<char>, JsonV)>
    decreases s,
{
    if s.len() == 0 {
        Seq::empty()
    } else {
        fields_view(s.drop_last()).push((s.last().0@, json_view(s.last().1)))
    }
}

impl View for Json {
    type V = JsonV;

    open spec fn view(&self) -> JsonV {
        json_view(*self)
    }
}

/// A list's values, one for one.
pub broadcast proof fn lemma_items_view(s: Seq<Json>)
    ensures
        #[trigger] items_view(s).len() == s.len(),
        forall|i: int| 0 <= i < s.len() ==> #[trigger] items_view(s)[i] == json_view(s[i]),
    decreases s.len(),
{
    if s.len() > 0 {
        lemma_items_view(s.drop_last());
    }
}

/// An object's keys and values, one for one.
pub broadcast proof fn lemma_fields_view(s: Seq<(String, Json)>)
    ensures
        #[trigger] fields_view(s).len() == s.len(),
        forall|i: int|
            0 <= i < s.len() ==> #[trigger] fields_view(s)[i] == (s[i].0@, json_view(s[i].1)),
    decreases s.len(),
{
    if s.len() > 0 {
        lemma_fields_view(s.drop_last());
    }
}

/// Two lists of values mean the same when each value does.
pub proof fn lemma_items_view_ext(a: Seq<Json>, b: Seq<Json>)
    requires
        a.len() == b.len(),
        forall|i: int| 0 <= i < a.len() ==> json_view(a[i]) == json_view(b[i]),
    ensures
        items_view(a) == items_view(b),
{
    lemma_items_view(a);
    lemma_items_view(b);
    assert(items_view(a) =~= items_view(b));
}

/// Two objects mean the same when each key and value does.
pub proof fn lemma_fields_view_ext(a: Seq<(String, Json)>, b: Seq<(String, Json)>)
    requires
        a.len() == b.len(),
        forall|i: int|
            0 <= i < a.len() ==> a[i].0@ == b[i].0@ && json_view(a[i].1) == json_view(b[i].1),
    ensures
        fields_view(a) == fields_view(b),
{
    lemma_fields_view(a);
    lemma_fields_view(b);
    assert(fields_view(a) =~= fields_view(b));
}

/// The value under a key, the first one with it.
pub open spec fn field_get<V>(f: Seq<(Seq<char>, V)>, key: Seq<char>) -> Option<V>
    decreases f.len(),
{
    if f.len() == 0 {
        None
    } else if f[0].0 == key {
        Some(f[0].1)
    } else {
        field_get(f.subrange(1, f.len() as int), key)
    }
}

/// Where a key is in an object's fields, if it is there.
pub open spec fn field_index<V>(f: Seq<(Seq<char>, V)>, key: Seq<char>) -> Option<int>
    decreases f.len(),
{
    if f.len() == 0 {
        None
    } else if f[0].0 == key {
        Some(0)
    } else {
        match field_index(f.subrange(1, f.len() as int), key) {
            Some(i) => Some(i + 1),
            None => None,
        }
    }
}

/// The fields with a key set: in its place if it is there, or else before the first key that sorts after it.
pub open spec fn field_put<V>(f: Seq<(Seq<char>, V)>, key: Seq<char>, v: V) -> Seq<(Seq<char>, V)>
    decreases f.len(),
{
    if f.len() == 0 {
        seq![(key, v)]
    } else if f[0].0 == key {
        f.update(0, (key, v))
    } else if text_before(key, f[0].0) {
        seq![(key, v)] + f
    } else {
        seq![f[0]] + field_put(f.subrange(1, f.len() as int), key, v)
    }
}

/// The fields with a key taken out, the first one with it.
pub open spec fn field_del<V>(f: Seq<(Seq<char>, V)>, key: Seq<char>) -> Seq<(Seq<char>, V)>
    decreases f.len(),
{
    if f.len() == 0 {
        f
    } else if f[0].0 == key {
        f.subrange(1, f.len() as int)
    } else {
        seq![f[0]] + field_del(f.subrange(1, f.len() as int), key)
    }
}

/// The value under a key of an object; nothing for anything else.
pub open spec fn jget(j: JsonV, key: Seq<char>) -> Option<JsonV> {
    match j {
        JsonV::Object(f) => field_get(f, key),
        _ => None,
    }
}

/// A string's text; nothing for anything else.
pub open spec fn jstr(j: JsonV) -> Option<Seq<char>> {
    match j {
        JsonV::Str(s) => Some(s),
        _ => None,
    }
}

/// A list's values; nothing for anything else.
pub open spec fn jarray(j: JsonV) -> Option<Seq<JsonV>> {
    match j {
        JsonV::Array(s) => Some(s),
        _ => None,
    }
}

/// An object's fields; nothing for anything else.
pub open spec fn jobject(j: JsonV) -> Option<Seq<(Seq<char>, JsonV)>> {
    match j {
        JsonV::Object(f) => Some(f),
        _ => None,
    }
}

/// A number that fits `u64`, as `Value::as_u64` reads one; nothing for anything else.
pub open spec fn ju64(j: JsonV) -> Option<u64> {
    match j {
        JsonV::Number(NumberV::PosInt(n)) => Some(n),
        _ => None,
    }
}

/// A flag; nothing for anything else.
pub open spec fn jbool(j: JsonV) -> Option<bool> {
    match j {
        JsonV::Bool(b) => Some(b),
        _ => None,
    }
}

/// The text under a key, when the key holds a string.
pub open spec fn jget_str(j: JsonV, key: Seq<char>) -> Option<Seq<char>> {
    match jget(j, key) {
        Some(v) => jstr(v),
        None => None,
    }
}

/// The list under a key, when the key holds a list.
pub open spec fn jget_array(j: JsonV, key: Seq<char>) -> Option<Seq<JsonV>> {
    match jget(j, key) {
        Some(v) => jarray(v),
        None => None,
    }
}

/// The object under a key, when the key holds one.
pub open spec fn jget_object(j: JsonV, key: Seq<char>) -> Option<Seq<(Seq<char>, JsonV)>> {
    match jget(j, key) {
        Some(v) => jobject(v),
        None => None,
    }
}

/// An object with one key set, when it is an object; anything else is left as it is.
pub open spec fn jset(j: JsonV, key: Seq<char>, v: JsonV) -> JsonV {
    match j {
        JsonV::Object(f) => JsonV::Object(field_put(f, key, v)),
        _ => j,
    }
}

/// An object with one key taken out, when it is an object; anything else is left as it is.
pub open spec fn jdel(j: JsonV, key: Seq<char>) -> JsonV {
    match j {
        JsonV::Object(f) => JsonV::Object(field_del(f, key)),
        _ => j,
    }
}

/// An object with an object put under `outer` when it has nothing there - what is already there is kept - and
/// one key of that inner object set, or taken away for nothing. An `outer` that holds something other than an
/// object is left as it is.
pub open spec fn jset_inner(j: JsonV, outer: Seq<char>, inner: Seq<char>, value: Option<JsonV>) -> JsonV {
    let w = if jget(j, outer) is Some {
        j
    } else {
        jset(j, outer, JsonV::Object(Seq::empty()))
    };
    match jget(w, outer) {
        Some(JsonV::Object(f)) => jset(
            w,
            outer,
            JsonV::Object(
                match value {
                    Some(v) => field_put(f, inner, v),
                    None => field_del(f, inner),
                },
            ),
        ),
        _ => w,
    }
}

/// The keys of an object's fields, in order.
pub open spec fn field_keys<V>(f: Seq<(Seq<char>, V)>) -> Seq<Seq<char>> {
    f.map_values(|e: (Seq<char>, V)| e.0)
}

/// Keys in strictly increasing order: the shape `serde_json` gives an object.
pub open spec fn keys_sorted<V>(f: Seq<(Seq<char>, V)>) -> bool {
    forall|i: int, k: int| 0 <= i < k < f.len() ==> text_before(#[trigger] f[i].0, #[trigger] f[k].0)
}

/// A value of the shape that reads back as itself once written, when it is not nested too deep: every object's
/// keys in order and each once, every number a whole one written in the variant `serde_json` reads it back as.
pub open spec fn canonical(j: JsonV) -> bool
    decreases j,
{
    match j {
        JsonV::Number(NumberV::NegInt(n)) => n < 0,
        JsonV::Number(NumberV::Float(_)) => false,
        JsonV::Array(s) => forall|i: int| 0 <= i < s.len() ==> canonical(#[trigger] s[i]),
        JsonV::Object(f) => keys_sorted(f) && forall|i: int|
            0 <= i < f.len() ==> canonical(#[trigger] f[i].1),
        _ => true,
    }
}

/// No more than `d` arrays and objects nested one inside another anywhere in the value; `serde_json` refuses to
/// read a text nested deeper than its limit.
pub open spec fn nested_within(j: JsonV, d: nat) -> bool
    decreases j,
{
    match j {
        JsonV::Array(s) => d > 0 && forall|i: int|
            0 <= i < s.len() ==> nested_within(#[trigger] s[i], (d - 1) as nat),
        JsonV::Object(f) => d > 0 && forall|i: int|
            0 <= i < f.len() ==> nested_within(#[trigger] f[i].1, (d - 1) as nat),
        _ => true,
    }
}

/// How deep `serde_json` reads: a text with more arrays and objects nested than this is refused.
pub open spec fn read_depth() -> nat {
    127
}

pub proof fn lemma_field_get_index<V>(f: Seq<(Seq<char>, V)>, key: Seq<char>)
    ensures
        field_get(f, key) is Some <==> field_index(f, key) is Some,
        field_index(f, key) matches Some(i) ==> 0 <= i < f.len() && f[i].0 == key && field_get(
            f,
            key,
        ) == Some(f[i].1) && forall|k: int| 0 <= k < i ==> f[k].0 != key,
        field_index(f, key) is None ==> forall|k: int| 0 <= k < f.len() ==> f[k].0 != key,
    decreases f.len(),
{
    if f.len() > 0 && f[0].0 != key {
        let rest = f.subrange(1, f.len() as int);
        lemma_field_get_index(rest, key);
        if field_index(rest, key) is None {
            assert forall|k: int| 0 <= k < f.len() implies f[k].0 != key by {
                if k > 0 {
                    assert(f[k] == rest[k - 1]);
                }
            }
        } else {
            let i = field_index(rest, key).unwrap();
            assert(f[i + 1] == rest[i]);
            assert forall|k: int| 0 <= k < i + 1 implies f[k].0 != key by {
                if k > 0 {
                    assert(f[k] == rest[k - 1]);
                }
            }
        }
    }
}

/// Where a key is, found from the front.
fn find_field(fields: &Vec<(String, Json)>, key: &str) -> (r: Option<usize>)
    ensures
        r matches Some(i) ==> field_index(fields_view(fields@), key@) == Some(i as int),
        r is None ==> field_index(fields_view(fields@), key@) is None,
{
    let ghost f = fields_view(fields@);
    proof {
        lemma_fields_view(fields@);
        lemma_field_get_index(f, key@);
    }
    let mut i: usize = 0;
    while i < fields.len()
        invariant
            f == fields_view(fields@),
            f.len() == fields@.len(),
            i <= fields.len(),
            forall|k: int| 0 <= k < i ==> #[trigger] f[k].0 != key@,
            forall|k: int| 0 <= k < fields@.len() ==> #[trigger] f[k] == (fields@[k].0@, json_view(fields@[k].1)),
        decreases fields.len() - i,
    {
        if same_text(fields[i].0.as_str(), key) {
            proof {
                lemma_field_index_first(f, key@, i as int);
            }
            return Some(i);
        }
        i += 1;
    }
    proof {
        lemma_field_index_none(f, key@);
    }
    None
}

pub proof fn lemma_field_index_first<V>(f: Seq<(Seq<char>, V)>, key: Seq<char>, i: int)
    requires
        0 <= i < f.len(),
        f[i].0 == key,
        forall|k: int| 0 <= k < i ==> #[trigger] f[k].0 != key,
    ensures
        field_index(f, key) == Some(i),
    decreases i,
{
    if i > 0 {
        let rest = f.subrange(1, f.len() as int);
        assert forall|k: int| 0 <= k < i - 1 implies #[trigger] rest[k].0 != key by {
            assert(rest[k] == f[k + 1]);
        }
        lemma_field_index_first(rest, key, i - 1);
    }
}

pub proof fn lemma_field_index_none<V>(f: Seq<(Seq<char>, V)>, key: Seq<char>)
    requires
        forall|k: int| 0 <= k < f.len() ==> #[trigger] f[k].0 != key,
    ensures
        field_index(f, key) is None,
        field_get(f, key) is None,
    decreases f.len(),
{
    if f.len() > 0 {
        let rest = f.subrange(1, f.len() as int);
        assert forall|k: int| 0 <= k < rest.len() implies #[trigger] rest[k].0 != key by {
            assert(rest[k] == f[k + 1]);
        }
        lemma_field_index_none(rest, key);
        assert(f[0].0 != key);
    }
}

/// Where `field_put` puts a key: the first place that has it or sorts after it.
pub proof fn lemma_field_put_at<V>(f: Seq<(Seq<char>, V)>, key: Seq<char>, v: V, i: int)
    requires
        0 <= i <= f.len(),
        forall|k: int| 0 <= k < i ==> #[trigger] f[k].0 != key && !text_before(key, f[k].0),
        i == f.len() || f[i].0 == key || text_before(key, f[i].0),
    ensures
        i == f.len() ==> field_put(f, key, v) == f.push((key, v)),
        i < f.len() && f[i].0 == key ==> field_put(f, key, v) == f.update(i, (key, v)),
        i < f.len() && f[i].0 != key ==> field_put(f, key, v) == f.insert(i, (key, v)),
    decreases i,
{
    if i == 0 {
        if f.len() == 0 {
            assert(seq![(key, v)] =~= f.push((key, v)));
        } else if f[0].0 != key {
            assert(seq![(key, v)] + f =~= f.insert(0, (key, v)));
        }
    } else {
        let rest = f.subrange(1, f.len() as int);
        assert forall|k: int| 0 <= k < i - 1 implies #[trigger] rest[k].0 != key && !text_before(
            key,
            rest[k].0,
        ) by {
            assert(rest[k] == f[k + 1]);
        }
        if i - 1 < rest.len() {
            assert(rest[i - 1] == f[i]);
        }
        lemma_field_put_at(rest, key, v, i - 1);
        assert(f[0].0 != key && !text_before(key, f[0].0));
        if i == f.len() {
            assert(seq![f[0]] + rest.push((key, v)) =~= f.push((key, v)));
        } else if f[i].0 == key {
            assert(seq![f[0]] + rest.update(i - 1, (key, v)) =~= f.update(i, (key, v)));
        } else {
            assert(seq![f[0]] + rest.insert(i - 1, (key, v)) =~= f.insert(i, (key, v)));
        }
    }
}

/// Where `field_del` takes a key out: the first place that has it.
pub proof fn lemma_field_del_at<V>(f: Seq<(Seq<char>, V)>, key: Seq<char>)
    ensures
        field_index(f, key) matches Some(i) ==> field_del(f, key) == f.remove(i),
        field_index(f, key) is None ==> field_del(f, key) == f,
    decreases f.len(),
{
    if f.len() > 0 {
        let rest = f.subrange(1, f.len() as int);
        lemma_field_del_at(rest, key);
        lemma_field_get_index(rest, key);
        if f[0].0 == key {
            assert(rest =~= f.remove(0));
        } else {
            match field_index(rest, key) {
                Some(i) => {
                    assert(seq![f[0]] + rest.remove(i) =~= f.remove(i + 1));
                },
                None => {
                    assert(seq![f[0]] + rest =~= f);
                },
            }
        }
    }
}

/// Set a key of an object's fields: replaced where it is, or put in its place in the order.
pub fn fields_put(fields: &mut Vec<(String, Json)>, key: String, v: Json)
    ensures
        fields_view(final(fields)@) == field_put(fields_view(old(fields)@), key@, v@),
{
    let ghost f = fields_view(fields@);
    proof {
        lemma_fields_view(fields@);
    }
    let mut i: usize = 0;
    while i < fields.len() && !same_text(fields[i].0.as_str(), key.as_str()) && !is_before(
        key.as_str(),
        fields[i].0.as_str(),
    )
        invariant
            f == fields_view(fields@),
            f.len() == fields@.len(),
            i <= fields.len(),
            forall|k: int| 0 <= k < fields@.len() ==> #[trigger] f[k] == (fields@[k].0@, json_view(fields@[k].1)),
            forall|k: int| 0 <= k < i ==> #[trigger] f[k].0 != key@ && !text_before(key@, f[k].0),
        decreases fields.len() - i,
    {
        i += 1;
    }
    let ghost kv = key@;
    let ghost vv = v@;
    proof {
        lemma_field_put_at(f, kv, vv, i as int);
    }
    let ghost before = fields@;
    if i == fields.len() {
        fields.push((key, v));
        proof {
            lemma_fields_view(fields@);
            assert(fields_view(fields@) =~= f.push((kv, vv)));
        }
    } else if same_text(fields[i].0.as_str(), key.as_str()) {
        fields.set(i, (key, v));
        proof {
            lemma_fields_view(fields@);
            assert(fields_view(fields@) =~= f.update(i as int, (kv, vv)));
        }
    } else {
        fields.insert(i, (key, v));
        proof {
            lemma_fields_view(fields@);
            assert(fields_view(fields@) =~= f.insert(i as int, (kv, vv)));
        }
    }
}

/// Take a key out of an object's fields, if it is there.
pub fn fields_del(fields: &mut Vec<(String, Json)>, key: &str)
    ensures
        fields_view(final(fields)@) == field_del(fields_view(old(fields)@), key@),
{
    let ghost f = fields_view(fields@);
    proof {
        lemma_field_del_at(f, key@);
        lemma_field_get_index(f, key@);
        lemma_fields_view(fields@);
    }
    match find_field(fields, key) {
        Some(i) => {
            fields.remove(i);
            proof {
                lemma_fields_view(fields@);
                assert(fields_view(fields@) =~= f.remove(i as int));
            }
        },
        None => {},
    }
}

/// The value under a key of an object's fields, if it is there.
pub fn fields_get<'a>(fields: &'a Vec<(String, Json)>, key: &str) -> (r: Option<&'a Json>)
    ensures
        r matches Some(v) ==> field_get(fields_view(fields@), key@) == Some(v@),
        r is None ==> field_get(fields_view(fields@), key@) is None,
{
    proof {
        lemma_fields_view(fields@);
        lemma_field_get_index(fields_view(fields@), key@);
    }
    match find_field(fields, key) {
        Some(i) => Some(&fields[i].1),
        None => None,
    }
}

impl Json {
    /// The value under a key, when this is an object that has it (`Value::get`).
    pub fn get(&self, key: &str) -> (r: Option<&Json>)
        ensures
            r matches Some(v) ==> jget(self@, key@) == Some(v@),
            r is None ==> jget(self@, key@) is None,
    {
        match self {
            Json::Object(fields) => fields_get(fields, key),
            _ => None,
        }
    }

    /// The text, when this is a string (`Value::as_str`).
    pub fn as_str(&self) -> (r: Option<&String>)
        ensures
            r matches Some(s) ==> jstr(self@) == Some(s@),
            r is None ==> jstr(self@) is None,
    {
        match self {
            Json::Str(s) => Some(s),
            _ => None,
        }
    }

    /// The values, when this is a list (`Value::as_array`).
    pub fn as_array(&self) -> (r: Option<&Vec<Json>>)
        ensures
            r matches Some(a) ==> jarray(self@) == Some(items_view(a@)),
            r is None ==> jarray(self@) is None,
    {
        match self {
            Json::Array(a) => Some(a),
            _ => None,
        }
    }

    /// The fields, when this is an object (`Value::as_object`).
    pub fn as_object(&self) -> (r: Option<&Vec<(String, Json)>>)
        ensures
            r matches Some(f) ==> jobject(self@) == Some(fields_view(f@)),
            r is None ==> jobject(self@) is None,
    {
        match self {
            Json::Object(f) => Some(f),
            _ => None,
        }
    }

    /// The number, when this is a whole number that fits `u64` (`Value::as_u64`).
    pub fn as_u64(&self) -> (r: Option<u64>)
        ensures
            r == ju64(self@),
    {
        match self {
            Json::Number(Numeral::PosInt(n)) => Some(*n),
            _ => None,
        }
    }

    /// The flag, when this is one (`Value::as_bool`).
    pub fn as_bool(&self) -> (r: Option<bool>)
        ensures
            r == jbool(self@),
    {
        match self {
            Json::Bool(b) => Some(*b),
            _ => None,
        }
    }

    /// Whether this is an object.
    pub fn is_object(&self) -> (r: bool)
        ensures
            r == (jobject(self@) is Some),
    {
        match self {
            Json::Object(_) => true,
            _ => false,
        }
    }

    /// Whether this is `null`.
    pub fn is_null(&self) -> (r: bool)
        ensures
            r == (self@ == JsonV::Null),
    {
        match self {
            Json::Null => true,
            _ => false,
        }
    }

    /// A copy, all the way down.
    pub fn deep_clone(&self) -> (r: Json)
        ensures
            r@ == self@,
        decreases self,
    {
        match self {
            Json::Null => Json::Null,
            Json::Bool(b) => Json::Bool(*b),
            Json::Number(Numeral::PosInt(n)) => Json::Number(Numeral::PosInt(*n)),
            Json::Number(Numeral::NegInt(n)) => Json::Number(Numeral::NegInt(*n)),
            Json::Number(Numeral::Float(t)) => Json::Number(Numeral::Float(t.clone())),
            Json::Str(s) => Json::Str(s.clone()),
            Json::Array(items) => {
                let mut out: Vec<Json> = Vec::new();
                let mut i: usize = 0;
                while i < items.len()
                    invariant
                        *self == Json::Array(*items),
                        i <= items.len(),
                        out@.len() == i,
                        forall|k: int| 0 <= k < i ==> json_view(#[trigger] out@[k]) == json_view(items@[k]),
                    decreases items.len() - i,
                {
                    proof {
                        assert(decreases_to!(*self => (*self)->Array_0));
                        assert(decreases_to!(*items => items[i as int]));
                        assert(decreases_to!(*self => items[i as int]));
                    }
                    let c = items[i].deep_clone();
                    out.push(c);
                    i += 1;
                }
                proof {
                    lemma_items_view_ext(out@, items@);
                }
                Json::Array(out)
            },
            Json::Object(fields) => {
                let mut out: Vec<(String, Json)> = Vec::new();
                let mut i: usize = 0;
                while i < fields.len()
                    invariant
                        *self == Json::Object(*fields),
                        i <= fields.len(),
                        out@.len() == i,
                        forall|k: int|
                            0 <= k < i ==> (#[trigger] out@[k]).0@ == fields@[k].0@ && json_view(out@[k].1)
                                == json_view(fields@[k].1),
                    decreases fields.len() - i,
                {
                    proof {
                        assert(decreases_to!(*self => (*self)->Object_0));
                        assert(decreases_to!(*fields => fields[i as int]));
                        assert(decreases_to!(fields[i as int] => fields[i as int].1));
                        assert(decreases_to!(*self => fields[i as int].1));
                    }
                    let c = fields[i].1.deep_clone();
                    out.push((fields[i].0.clone(), c));
                    i += 1;
                }
                proof {
                    lemma_fields_view_ext(out@, fields@);
                }
                Json::Object(out)
            },
        }
    }

    /// Set a key, when this is an object; anything else is left as it is.
    pub fn set(&mut self, key: String, v: Json)
        ensures
            final(self)@ == jset(old(self)@, key@, v@),
    {
        match self {
            Json::Object(fields) => fields_put(fields, key, v),
            _ => {},
        }
    }

    /// Take a key out, when this is an object; anything else is left as it is.
    pub fn remove(&mut self, key: &str)
        ensures
            final(self)@ == jdel(old(self)@, key@),
    {
        match self {
            Json::Object(fields) => fields_del(fields, key),
            _ => {},
        }
    }

    /// Set a key of the object under `outer`, putting an empty object there first when there is nothing, or take
    /// the key away for nothing (`jset_inner`).
    pub fn set_inner(&mut self, outer: &str, inner: &str, value: Option<Json>)
        ensures
            final(self)@ == jset_inner(
                old(self)@,
                outer@,
                inner@,
                match value {
                    Some(v) => Some(v@),
                    None => None,
                },
            ),
    {
        if self.get(outer).is_none() {
            self.set(owned(outer), Json::empty_object());
        }
        let held = match self.get(outer) {
            Some(a) => a.deep_clone(),
            None => return ,
        };
        match held {
            Json::Object(mut f) => {
                match value {
                    Some(v) => fields_put(&mut f, owned(inner), v),
                    None => fields_del(&mut f, inner),
                }
                self.set(owned(outer), Json::Object(f));
            },
            _ => {},
        }
    }

    /// A string value.
    pub fn text(s: &str) -> (r: Json)
        ensures
            r@ == JsonV::Str(s@),
    {
        Json::Str(owned(s))
    }

    /// An object with nothing in it.
    pub fn empty_object() -> (r: Json)
        ensures
            r@ == JsonV::Object(Seq::empty()),
    {
        let f: Vec<(String, Json)> = Vec::new();
        proof {
            assert(f@.len() == 0);
        }
        Json::Object(f)
    }

    /// A list with nothing in it.
    pub fn empty_array() -> (r: Json)
        ensures
            r@ == JsonV::Array(Seq::empty()),
    {
        let a: Vec<Json> = Vec::new();
        Json::Array(a)
    }
}

/// `serde_json::Value`, which the text of a file is read into and written out of.
#[verifier::external_type_specification]
#[verifier::external_body]
pub struct ExValue(serde_json::Value);

/// `serde_json::Number`, a number inside a `Value`.
#[verifier::external_type_specification]
#[verifier::external_body]
pub struct ExNumber(serde_json::Number);

/// A `serde_json::Number` as this library holds it: as `u64` when it is one, as `i64` when it is one, or else
/// as its text.
#[verifier::external_body]
fn number_from(n: &serde_json::Number) -> Numeral {
    match (n.as_u64(), n.as_i64()) {
        (Some(u), _) => Numeral::PosInt(u),
        (None, Some(i)) => Numeral::NegInt(i),
        _ => Numeral::Float(n.to_string()),
    }
}

/// This library's number as a `serde_json::Number`: a whole one as itself, any other read back from its text.
#[verifier::external_body]
fn number_to(n: &Numeral) -> Option<serde_json::Number> {
    match n {
        Numeral::PosInt(u) => Some((*u).into()),
        Numeral::NegInt(i) => Some((*i).into()),
        Numeral::Float(t) => t.parse::<serde_json::Number>().ok(),
    }
}

/// A `serde_json::Value` as this library holds it: each variant for its own, an object's keys in the order the
/// map walks them.
#[verifier::external_body]
fn from_value(v: &serde_json::Value) -> Json {
    match v {
        serde_json::Value::Null => Json::Null,
        serde_json::Value::Bool(b) => Json::Bool(*b),
        serde_json::Value::Number(n) => Json::Number(number_from(n)),
        serde_json::Value::String(s) => Json::Str(s.clone()),
        serde_json::Value::Array(a) => Json::Array(a.iter().map(from_value).collect()),
        serde_json::Value::Object(m) => Json::Object(m.iter().map(|(k, x)| (k.clone(), from_value(x))).collect()),
    }
}

/// This library's value as a `serde_json::Value`, variant for variant.
#[verifier::external_body]
fn to_value(j: &Json) -> serde_json::Value {
    match j {
        Json::Null => serde_json::Value::Null,
        Json::Bool(b) => serde_json::Value::Bool(*b),
        Json::Number(n) => number_to(n).map(serde_json::Value::Number).unwrap_or(serde_json::Value::Null),
        Json::Str(s) => serde_json::Value::String(s.clone()),
        Json::Array(a) => serde_json::Value::Array(a.iter().map(to_value).collect()),
        Json::Object(f) => serde_json::Value::Object(f.iter().map(|(k, x)| (k.clone(), to_value(x))).collect()),
    }
}

/// What `serde_json::from_str::<Value>` reads out of a text, or nothing when the text is not JSON.
pub uninterp spec fn parsed_json(text: Seq<char>) -> Option<JsonV>;

/// `serde_json::from_str::<Value>`: succeeds exactly when the text is JSON, and gives what `parsed_json` names;
/// the error is `serde_json::Error`'s own message. Nothing is claimed about that message's words.
#[verifier::external_body]
fn serde_parse(text: &str) -> (r: Result<Json, String>)
    ensures
        r is Ok <==> parsed_json(text@) is Some,
        r matches Ok(j) ==> parsed_json(text@) == Some(j@),
{
    match serde_json::from_str::<serde_json::Value>(text) {
        Ok(v) => Ok(from_value(&v)),
        Err(problem) => Err(problem.to_string()),
    }
}

/// A text read as JSON: the value, when the text is JSON, or why it is not.
pub fn parse_json(text: &str) -> (r: Result<Json, String>)
    ensures
        r is Ok <==> parsed_json(text@) is Some,
        r matches Ok(j) ==> parsed_json(text@) == Some(j@),
{
    serde_parse(text)
}

/// What `serde_json::to_string_pretty` writes for a value.
pub uninterp spec fn pretty_json(v: JsonV) -> Seq<char>;

/// `serde_json::to_string_pretty` on a value, which cannot fail for a `Value`: the text `pretty_json` names. A
/// canonical value (keys in order and once, whole numbers in the variant they read back as) that is nested no
/// deeper than the reader's limit reads back as itself, which is what `serde_json`'s `Value` round trip is; a
/// newline after the text changes nothing, since the reader skips white space after a value.
#[verifier::external_body]
fn serde_pretty(v: &Json) -> (r: String)
    ensures
        r@ == pretty_json(v@),
        canonical(v@) && nested_within(v@, read_depth()) ==> parsed_json(r@) == Some(v@) && parsed_json(
            r@ + "\n"@,
        ) == Some(v@),
{
    serde_json::to_string_pretty(&to_value(v)).unwrap_or_default()
}

/// A value written as pretty JSON, the way the files are written.
pub fn to_pretty(v: &Json) -> (r: String)
    ensures
        r@ == pretty_json(v@),
        canonical(v@) && nested_within(v@, read_depth()) ==> parsed_json(r@) == Some(v@) && parsed_json(
            r@ + "\n"@,
        ) == Some(v@),
{
    serde_pretty(v)
}

/// What `Value`'s `Display` writes: the compact JSON text.
pub uninterp spec fn compact_json(v: JsonV) -> Seq<char>;

/// `<serde_json::Value as Display>::fmt`, through `to_string`: the text `compact_json` names.
#[verifier::external_body]
fn serde_compact(v: &Json) -> (r: String)
    ensures
        r@ == compact_json(v@),
{
    to_value(v).to_string()
}

/// A value written as compact JSON, on one line.
pub fn to_compact(v: &Json) -> (r: String)
    ensures
        r@ == compact_json(v@),
{
    serde_compact(v)
}

/// Reading a key of fields just set: the value set, under the key that was set, and what was there before under
/// any other.
pub proof fn lemma_get_put<V>(f: Seq<(Seq<char>, V)>, k: Seq<char>, v: V, k2: Seq<char>)
    ensures
        field_get(field_put(f, k, v), k2) == (if k2 == k {
            Some(v)
        } else {
            field_get(f, k2)
        }),
    decreases f.len(),
{
    let p = field_put(f, k, v);
    if f.len() == 0 {
        assert(p == seq![(k, v)]);
        assert(p[0] == (k, v));
        assert(p.subrange(1, p.len() as int) =~= Seq::<(Seq<char>, V)>::empty());
        assert(field_get(p, k2) == (if k2 == k { Some(v) } else { field_get(f, k2) }));
    } else if f[0].0 == k {
        assert(p == f.update(0, (k, v)));
        assert(p[0] == (k, v));
        assert(p.subrange(1, p.len() as int) =~= f.subrange(1, f.len() as int));
        assert(field_get(p, k2) == (if k2 == k { Some(v) } else { field_get(f, k2) }));
    } else if text_before(k, f[0].0) {
        assert(p == seq![(k, v)] + f);
        assert(p[0] == (k, v));
        assert(p.subrange(1, p.len() as int) =~= f);
        assert(field_get(p, k2) == (if k2 == k { Some(v) } else { field_get(f, k2) }));
    } else {
        let rest = f.subrange(1, f.len() as int);
        lemma_get_put(rest, k, v, k2);
        assert(p == seq![f[0]] + field_put(rest, k, v));
        assert(p[0] == f[0]);
        assert(p.subrange(1, p.len() as int) =~= field_put(rest, k, v));
        assert(field_get(p, k2) == (if k2 == k { Some(v) } else { field_get(f, k2) }));
    }
}

/// Whether two values are the same value, all the way down.
pub fn json_eq(a: &Json, b: &Json) -> (r: bool)
    ensures
        r == (a@ == b@),
    decreases a,
{
    match (a, b) {
        (Json::Null, Json::Null) => true,
        (Json::Bool(x), Json::Bool(y)) => *x == *y,
        (Json::Number(Numeral::PosInt(x)), Json::Number(Numeral::PosInt(y))) => *x == *y,
        (Json::Number(Numeral::NegInt(x)), Json::Number(Numeral::NegInt(y))) => *x == *y,
        (Json::Number(Numeral::Float(x)), Json::Number(Numeral::Float(y))) => same_text(x.as_str(), y.as_str()),
        (Json::Str(x), Json::Str(y)) => same_text(x.as_str(), y.as_str()),
        (Json::Array(x), Json::Array(y)) => {
            proof {
                lemma_items_view(x@);
                lemma_items_view(y@);
            }
            if x.len() != y.len() {
                return false;
            }
            let mut i: usize = 0;
            while i < x.len()
                invariant
                    *a == Json::Array(*x),
                    *b == Json::Array(*y),
                    x.len() == y.len(),
                    i <= x.len(),
                    forall|k: int| 0 <= k < i ==> json_view(#[trigger] x@[k]) == json_view(y@[k]),
                decreases x.len() - i,
            {
                proof {
                    assert(decreases_to!(*a => (*a)->Array_0));
                    assert(decreases_to!(*x => x[i as int]));
                    assert(decreases_to!(*a => x[i as int]));
                }
                if !json_eq(&x[i], &y[i]) {
                    proof {
                        lemma_items_view(x@);
                        lemma_items_view(y@);
                        assert(items_view(x@)[i as int] != items_view(y@)[i as int]);
                    }
                    return false;
                }
                i += 1;
            }
            proof {
                lemma_items_view_ext(x@, y@);
            }
            true
        },
        (Json::Object(x), Json::Object(y)) => {
            proof {
                lemma_fields_view(x@);
                lemma_fields_view(y@);
            }
            if x.len() != y.len() {
                return false;
            }
            let mut i: usize = 0;
            while i < x.len()
                invariant
                    *a == Json::Object(*x),
                    *b == Json::Object(*y),
                    x.len() == y.len(),
                    i <= x.len(),
                    forall|k: int| 0 <= k < i ==> (#[trigger] x@[k]).0@ == y@[k].0@ && json_view(x@[k].1) == json_view(
                        y@[k].1,
                    ),
                decreases x.len() - i,
            {
                proof {
                    assert(decreases_to!(*a => (*a)->Object_0));
                    assert(decreases_to!(*x => x[i as int]));
                    assert(decreases_to!(x[i as int] => x[i as int].1));
                    assert(decreases_to!(*a => x[i as int].1));
                }
                if !same_text(x[i].0.as_str(), y[i].0.as_str()) || !json_eq(&x[i].1, &y[i].1) {
                    proof {
                        lemma_fields_view(x@);
                        lemma_fields_view(y@);
                        assert(fields_view(x@)[i as int] != fields_view(y@)[i as int]);
                    }
                    return false;
                }
                i += 1;
            }
            proof {
                lemma_fields_view_ext(x@, y@);
            }
            true
        },
        _ => false,
    }
}

/// Reading a key of fields with a key taken out: nothing under a key that was there only once, and what was there
/// before under any other.
pub proof fn lemma_get_del<V>(f: Seq<(Seq<char>, V)>, k: Seq<char>, k2: Seq<char>)
    requires
        field_keys(f).no_duplicates(),
    ensures
        field_get(field_del(f, k), k2) == (if k2 == k {
            None
        } else {
            field_get(f, k2)
        }),
    decreases f.len(),
{
    let d = field_del(f, k);
    if f.len() > 0 {
        let rest = f.subrange(1, f.len() as int);
        assert(field_keys(rest).no_duplicates()) by {
            assert forall|i: int, j: int| 0 <= i < j < field_keys(rest).len() implies field_keys(rest)[i]
                != field_keys(rest)[j] by {
                assert(field_keys(rest)[i] == field_keys(f)[i + 1]);
                assert(field_keys(rest)[j] == field_keys(f)[j + 1]);
            }
        }
        if f[0].0 == k {
            assert(d == rest);
            if k2 == k {
                assert forall|i: int| 0 <= i < rest.len() implies #[trigger] rest[i].0 != k by {
                    assert(field_keys(f)[i + 1] == rest[i].0);
                    assert(field_keys(f)[0] == f[0].0);
                }
                lemma_field_index_none(rest, k);
            }
        } else {
            lemma_get_del(rest, k, k2);
            assert(d == seq![f[0]] + field_del(rest, k));
            assert(d[0] == f[0]);
            assert(d.subrange(1, d.len() as int) =~= field_del(rest, k));
        }
    }
}

/// Setting a key twice is setting it the second time.
pub proof fn lemma_put_put<V>(f: Seq<(Seq<char>, V)>, k: Seq<char>, v1: V, v2: V)
    ensures
        field_put(field_put(f, k, v1), k, v2) == field_put(f, k, v2),
    decreases f.len(),
{
    let p = field_put(f, k, v1);
    if f.len() == 0 {
        assert(p == seq![(k, v1)]);
        assert(p.subrange(1, p.len() as int) =~= Seq::<(Seq<char>, V)>::empty());
        assert(field_put(p, k, v2) =~= seq![(k, v2)]);
    } else if f[0].0 == k {
        assert(p == f.update(0, (k, v1)));
        assert(field_put(p, k, v2) =~= f.update(0, (k, v2)));
    } else if text_before(k, f[0].0) {
        assert(p == seq![(k, v1)] + f);
        assert(field_put(p, k, v2) =~= seq![(k, v2)] + f);
    } else {
        let rest = f.subrange(1, f.len() as int);
        lemma_put_put(rest, k, v1, v2);
        assert(p == seq![f[0]] + field_put(rest, k, v1));
        assert(p[0] == f[0]);
        assert(p.subrange(1, p.len() as int) =~= field_put(rest, k, v1));
    }
}

/// In fields whose keys are in order, setting a key to what it holds changes nothing.
pub proof fn lemma_put_same<V>(f: Seq<(Seq<char>, V)>, k: Seq<char>)
    requires
        keys_sorted(f),
        field_get(f, k) is Some,
    ensures
        field_put(f, k, field_get(f, k).unwrap()) == f,
    decreases f.len(),
{
    let v = field_get(f, k).unwrap();
    if f[0].0 == k {
        assert(field_put(f, k, v) == f.update(0, (k, v)));
        assert(f.update(0, (k, v)) =~= f);
    } else {
        let rest = f.subrange(1, f.len() as int);
        lemma_field_get_index(f, k);
        let i = field_index(f, k).unwrap();
        if text_before(k, f[0].0) {
            assert(text_before(f[0].0, f[i].0));
            crate::text::lemma_text_before_asymmetric(k, f[0].0);
        }
        assert(keys_sorted(rest)) by {
            assert forall|a: int, b: int| 0 <= a < b < rest.len() implies text_before(#[trigger] rest[a].0, #[trigger] rest[b].0) by {
                assert(rest[a] == f[a + 1]);
                assert(rest[b] == f[b + 1]);
            }
        }
        assert(field_get(rest, k) == Some(v));
        lemma_put_same(rest, k);
        assert(field_put(f, k, v) == seq![f[0]] + field_put(rest, k, v));
        assert(seq![f[0]] + rest =~= f);
    }
}

/// Setting a key of fields whose keys all sort after some text keeps them so, when the key does too.
proof fn lemma_put_bounded<V>(f: Seq<(Seq<char>, V)>, k: Seq<char>, v: V, x: Seq<char>)
    requires
        text_before(x, k),
        forall|j: int| 0 <= j < f.len() ==> text_before(x, #[trigger] f[j].0),
    ensures
        forall|i: int| 0 <= i < field_put(f, k, v).len() ==> text_before(x, #[trigger] field_put(f, k, v)[i].0),
    decreases f.len(),
{
    let p = field_put(f, k, v);
    if f.len() == 0 {
    } else if f[0].0 == k {
        assert forall|i: int| 0 <= i < p.len() implies text_before(x, #[trigger] p[i].0) by {
            assert(p[i].0 == f[i].0);
        }
    } else if text_before(k, f[0].0) {
        assert forall|i: int| 0 <= i < p.len() implies text_before(x, #[trigger] p[i].0) by {
            if i > 0 {
                assert(p[i] == f[i - 1]);
            }
        }
    } else {
        let rest = f.subrange(1, f.len() as int);
        assert forall|j: int| 0 <= j < rest.len() implies text_before(x, #[trigger] rest[j].0) by {
            assert(rest[j] == f[j + 1]);
        }
        lemma_put_bounded(rest, k, v, x);
        let q = field_put(rest, k, v);
        assert forall|i: int| 0 <= i < p.len() implies text_before(x, #[trigger] p[i].0) by {
            if i > 0 {
                assert(p[i] == q[i - 1]);
            }
        }
    }
}

/// Setting a key of fields whose keys are in order keeps them in order.
pub proof fn lemma_put_keeps_sorted<V>(f: Seq<(Seq<char>, V)>, k: Seq<char>, v: V)
    requires
        keys_sorted(f),
    ensures
        keys_sorted(field_put(f, k, v)),
    decreases f.len(),
{
    let p = field_put(f, k, v);
    if f.len() == 0 {
    } else if f[0].0 == k {
        assert forall|a: int, b: int| 0 <= a < b < p.len() implies text_before(#[trigger] p[a].0, #[trigger] p[b].0) by {
            assert(p[a].0 == f[a].0);
            assert(p[b].0 == f[b].0);
        }
    } else if text_before(k, f[0].0) {
        assert forall|a: int, b: int| 0 <= a < b < p.len() implies text_before(#[trigger] p[a].0, #[trigger] p[b].0) by {
            assert(p[b] == f[b - 1]);
            if a == 0 {
                if b > 1 {
                    crate::text::lemma_text_before_transitive(k, f[0].0, f[b - 1].0);
                }
            } else {
                assert(p[a] == f[a - 1]);
            }
        }
    } else {
        let rest = f.subrange(1, f.len() as int);
        assert(keys_sorted(rest)) by {
            assert forall|a: int, b: int| 0 <= a < b < rest.len() implies text_before(#[trigger] rest[a].0, #[trigger] rest[b].0) by {
                assert(rest[a] == f[a + 1]);
                assert(rest[b] == f[b + 1]);
            }
        }
        lemma_put_keeps_sorted(rest, k, v);
        crate::text::lemma_text_before_total(f[0].0, k);
        assert forall|j: int| 0 <= j < rest.len() implies text_before(f[0].0, #[trigger] rest[j].0) by {
            assert(rest[j] == f[j + 1]);
        }
        lemma_put_bounded(rest, k, v, f[0].0);
        let q = field_put(rest, k, v);
        assert forall|a: int, b: int| 0 <= a < b < p.len() implies text_before(#[trigger] p[a].0, #[trigger] p[b].0) by {
            assert(p[b] == q[b - 1]);
            if a > 0 {
                assert(p[a] == q[a - 1]);
            }
        }
    }
}

/// In fields whose keys are in order, a key is not there when the first place that does not sort before it
/// holds another key, or there is no such place.
pub proof fn lemma_sorted_absent<V>(f: Seq<(Seq<char>, V)>, key: Seq<char>, i: int)
    requires
        keys_sorted(f),
        0 <= i <= f.len(),
        forall|k: int| 0 <= k < i ==> #[trigger] f[k].0 != key,
        i == f.len() || text_before(key, f[i].0),
    ensures
        field_get(f, key) is None,
{
    assert forall|j: int| 0 <= j < f.len() implies #[trigger] f[j].0 != key by {
        if j >= i {
            if j > i {
                crate::text::lemma_text_before_transitive(key, f[i].0, f[j].0);
            }
            crate::text::lemma_text_before_irreflexive(key);
        }
    }
    lemma_field_index_none(f, key);
}

/// Setting a key a table does not have, and taking it out again, leaves the table as it was.
pub proof fn lemma_del_put<V>(f: Seq<(Seq<char>, V)>, k: Seq<char>, v: V)
    requires
        field_get(f, k) is None,
    ensures
        field_del(field_put(f, k, v), k) == f,
    decreases f.len(),
{
    let p = field_put(f, k, v);
    if f.len() == 0 {
        assert(p == seq![(k, v)]);
        assert(p.subrange(1, 1) =~= f);
    } else if text_before(k, f[0].0) {
        assert(p == seq![(k, v)] + f);
        assert(p[0].0 == k);
        assert(p.subrange(1, p.len() as int) =~= f);
    } else {
        let rest = f.subrange(1, f.len() as int);
        lemma_del_put(rest, k, v);
        assert(p == seq![f[0]] + field_put(rest, k, v));
        assert(p[0] == f[0]);
        assert(p.subrange(1, p.len() as int) =~= field_put(rest, k, v));
        assert(seq![f[0]] + rest =~= f);
    }
}

/// Setting a key keeps every key to a property when the key has it too: a key of the result is the key set, or
/// one that was there.
pub proof fn lemma_put_keys<V>(f: Seq<(Seq<char>, V)>, k: Seq<char>, v: V, p: spec_fn(Seq<char>) -> bool)
    requires
        forall|i: int| 0 <= i < f.len() ==> p(#[trigger] f[i].0),
        p(k),
    ensures
        forall|i: int| 0 <= i < field_put(f, k, v).len() ==> p(#[trigger] field_put(f, k, v)[i].0),
    decreases f.len(),
{
    let q = field_put(f, k, v);
    if f.len() == 0 {
    } else if f[0].0 == k {
        assert forall|i: int| 0 <= i < q.len() implies p(#[trigger] q[i].0) by {
            assert(q[i].0 == f[i].0);
        }
    } else if text_before(k, f[0].0) {
        assert forall|i: int| 0 <= i < q.len() implies p(#[trigger] q[i].0) by {
            if i > 0 {
                assert(q[i] == f[i - 1]);
            }
        }
    } else {
        let rest = f.subrange(1, f.len() as int);
        assert forall|j: int| 0 <= j < rest.len() implies p(#[trigger] rest[j].0) by {
            assert(rest[j] == f[j + 1]);
        }
        lemma_put_keys(rest, k, v, p);
        let r = field_put(rest, k, v);
        assert forall|i: int| 0 <= i < q.len() implies p(#[trigger] q[i].0) by {
            if i > 0 {
                assert(q[i] == r[i - 1]);
            }
        }
    }
}

/// Setting a key keeps every entry to a property when the new entry has it too: an entry of the result is the
/// one set, or one that was there.
pub proof fn lemma_put_entries<V>(f: Seq<(Seq<char>, V)>, k: Seq<char>, v: V, p: spec_fn((Seq<char>, V)) -> bool)
    requires
        forall|i: int| 0 <= i < f.len() ==> p(#[trigger] f[i]),
        p((k, v)),
    ensures
        forall|i: int| 0 <= i < field_put(f, k, v).len() ==> p(#[trigger] field_put(f, k, v)[i]),
    decreases f.len(),
{
    let q = field_put(f, k, v);
    if f.len() == 0 {
    } else if f[0].0 == k {
        assert forall|i: int| 0 <= i < q.len() implies p(#[trigger] q[i]) by {
            if i > 0 {
                assert(q[i] == f[i]);
            }
        }
    } else if text_before(k, f[0].0) {
        assert forall|i: int| 0 <= i < q.len() implies p(#[trigger] q[i]) by {
            if i > 0 {
                assert(q[i] == f[i - 1]);
            }
        }
    } else {
        let rest = f.subrange(1, f.len() as int);
        assert forall|j: int| 0 <= j < rest.len() implies p(#[trigger] rest[j]) by {
            assert(rest[j] == f[j + 1]);
        }
        lemma_put_entries(rest, k, v, p);
        let r = field_put(rest, k, v);
        assert forall|i: int| 0 <= i < q.len() implies p(#[trigger] q[i]) by {
            if i > 0 {
                assert(q[i] == r[i - 1]);
            }
        }
    }
}

/// Taking one key out leaves what any other key reads.
pub proof fn lemma_get_del_other<V>(f: Seq<(Seq<char>, V)>, k: Seq<char>, k2: Seq<char>)
    requires
        k2 != k,
    ensures
        field_get(field_del(f, k), k2) == field_get(f, k2),
    decreases f.len(),
{
    if f.len() > 0 {
        let rest = f.subrange(1, f.len() as int);
        let d = field_del(f, k);
        if f[0].0 == k {
            assert(d == rest);
        } else {
            lemma_get_del_other(rest, k, k2);
            assert(d == seq![f[0]] + field_del(rest, k));
            assert(d[0] == f[0]);
            assert(d.subrange(1, d.len() as int) =~= field_del(rest, k));
        }
    }
}

/// In fields whose keys are in order, taking a key out and setting it again to what it held changes nothing.
pub proof fn lemma_put_del_same<V>(f: Seq<(Seq<char>, V)>, k: Seq<char>, v: V)
    requires
        keys_sorted(f),
        field_get(f, k) == Some(v),
    ensures
        field_put(field_del(f, k), k, v) == f,
    decreases f.len(),
{
    let rest = f.subrange(1, f.len() as int);
    assert(keys_sorted(rest)) by {
        assert forall|a: int, b: int| 0 <= a < b < rest.len() implies text_before(#[trigger] rest[a].0, #[trigger] rest[b].0) by {
            assert(rest[a] == f[a + 1]);
            assert(rest[b] == f[b + 1]);
        }
    }
    if f[0].0 == k {
        assert(field_del(f, k) == rest);
        assert(f[0] == (k, v));
        if rest.len() == 0 {
            assert(seq![(k, v)] =~= f);
        } else {
            assert(rest[0] == f[1]);
            assert(text_before(k, rest[0].0));
            crate::text::lemma_text_before_irreflexive(k);
            assert(rest[0].0 != k);
            assert(field_put(rest, k, v) == seq![(k, v)] + rest);
            assert(seq![(k, v)] + rest =~= f);
        }
    } else {
        lemma_field_get_index(f, k);
        let i = field_index(f, k).unwrap();
        assert(text_before(f[0].0, f[i].0));
        crate::text::lemma_text_before_asymmetric(f[0].0, k);
        assert(field_get(rest, k) == Some(v));
        lemma_put_del_same(rest, k, v);
        let d = field_del(f, k);
        assert(d == seq![f[0]] + field_del(rest, k));
        assert(d[0] == f[0]);
        assert(d.subrange(1, d.len() as int) =~= field_del(rest, k));
        assert(field_put(d, k, v) == seq![d[0]] + field_put(d.subrange(1, d.len() as int), k, v));
        assert(seq![f[0]] + rest =~= f);
    }
}

} // verus!
