//! JSON values, as far as the bridge looks into them.

use vstd::prelude::*;
use crate::text;

verus! {

/// A JSON value.
#[derive(Debug, PartialEq)]
pub enum Json {
    Null,
    Bool(bool),
    /// An integer that is not negative.
    PosInt(u64),
    /// A negative integer.
    NegInt(i64),
    /// Any other number, by the bits of its double.
    Float(u64),
    Text(String),
    Array(Vec<Json>),
    /// The fields of an object. Of two fields with one name the first counts.
    Object(Vec<(String, Json)>),
}

/// What a `Json` value is: an object maps names to values.
pub enum JsonModel {
    Null,
    Bool(bool),
    PosInt(u64),
    NegInt(i64),
    Float(u64),
    Text(Seq<char>),
    Array(Seq<JsonModel>),
    Object(Map<Seq<char>, JsonModel>),
}

/// What `json` is.
pub open spec fn model(json: Json) -> JsonModel
    decreases json,
{
    match json {
        Json::Null => JsonModel::Null,
        Json::Bool(b) => JsonModel::Bool(b),
        Json::PosInt(n) => JsonModel::PosInt(n),
        Json::NegInt(n) => JsonModel::NegInt(n),
        Json::Float(bits) => JsonModel::Float(bits),
        Json::Text(s) => JsonModel::Text(s@),
        Json::Array(items) => JsonModel::Array(item_models(items@)),
        Json::Object(fields) => JsonModel::Object(field_models(fields@)),
    }
}

/// What each of `items` is.
pub open spec fn item_models(items: Seq<Json>) -> Seq<JsonModel>
    decreases items,
{
    if items.len() == 0 {
        Seq::empty()
    } else {
        item_models(items.drop_last()).push(model(items.last()))
    }
}

/// What each named field is; the first of a name counts.
pub open spec fn field_models(fields: Seq<(String, Json)>) -> Map<Seq<char>, JsonModel>
    decreases fields,
{
    if fields.len() == 0 {
        Map::empty()
    } else {
        field_models(fields.drop_first()).insert(fields[0].0@, model(fields[0].1))
    }
}

impl View for Json {
    type V = JsonModel;

    open spec fn view(&self) -> JsonModel {
        model(*self)
    }
}

impl JsonModel {
    /// The field `name` of an object.
    pub open spec fn field(self, name: Seq<char>) -> Option<JsonModel> {
        match self {
            JsonModel::Object(fields) => if fields.contains_key(name) {
                Some(fields[name])
            } else {
                None
            },
            _ => None,
        }
    }

    /// The text of a string.
    pub open spec fn text(self) -> Option<Seq<char>> {
        match self {
            JsonModel::Text(s) => Some(s),
            _ => None,
        }
    }

    /// The value of an integer that is not negative.
    pub open spec fn number(self) -> Option<u64> {
        match self {
            JsonModel::PosInt(n) => Some(n),
            _ => None,
        }
    }

    /// The items of an array.
    pub open spec fn items(self) -> Option<Seq<JsonModel>> {
        match self {
            JsonModel::Array(items) => Some(items),
            _ => None,
        }
    }

    /// The text of the field `name`.
    pub open spec fn text_field(self, name: Seq<char>) -> Option<Seq<char>> {
        match self.field(name) {
            Some(value) => value.text(),
            None => None,
        }
    }

    /// The value of the integer field `name`.
    pub open spec fn number_field(self, name: Seq<char>) -> Option<u64> {
        match self.field(name) {
            Some(value) => value.number(),
            None => None,
        }
    }

    /// The value with the field `name` of an object set to `value`.
    pub open spec fn with(self, name: Seq<char>, value: JsonModel) -> JsonModel {
        match self {
            JsonModel::Object(fields) => JsonModel::Object(fields.insert(name, value)),
            other => other,
        }
    }

    /// The value without the field `name` of an object.
    pub open spec fn without(self, name: Seq<char>) -> JsonModel {
        match self {
            JsonModel::Object(fields) => JsonModel::Object(fields.remove(name)),
            other => other,
        }
    }
}

/// The models of items, one for one.
pub proof fn lemma_item_models(items: Seq<Json>)
    ensures
        item_models(items).len() == items.len(),
        forall|k: int| 0 <= k < items.len() ==> #[trigger] item_models(items)[k] == items[k]@,
    decreases items.len(),
{
    if items.len() > 0 {
        lemma_item_models(items.drop_last());
        assert forall|k: int| 0 <= k < items.len() implies #[trigger] item_models(items)[k]
            == items[k]@ by {
            if k < items.len() - 1 {
                assert(item_models(items.drop_last())[k] == items.drop_last()[k]@);
            }
        }
    }
}

/// The models of items, one more.
pub proof fn lemma_item_models_push(items: Seq<Json>, item: Json)
    ensures
        item_models(items.push(item)) == item_models(items).push(item@),
{
    assert(items.push(item).drop_last() =~= items);
}

/// What a name stands for among the fields: the first of that name.
pub proof fn lemma_field_at(fields: Seq<(String, Json)>, name: Seq<char>, p: int)
    requires
        0 <= p <= fields.len(),
        forall|k: int| 0 <= k < p ==> (#[trigger] fields[k]).0@ != name,
        p < fields.len() ==> fields[p].0@ == name,
    ensures
        p < fields.len() ==> field_models(fields).contains_key(name) && field_models(fields)[name]
            == fields[p].1@,
        p == fields.len() ==> !field_models(fields).contains_key(name),
    decreases fields.len(),
{
    if fields.len() > 0 && p > 0 {
        let rest = fields.drop_first();
        assert forall|k: int| 0 <= k < p - 1 implies (#[trigger] rest[k]).0@ != name by {
            assert(rest[k] == fields[k + 1]);
        }
        assert(fields[0].0@ != name);
        lemma_field_at(rest, name, p - 1);
    }
}

impl Json {
    /// Where the first field `name` stands among `fields`, or their number.
    fn position(fields: &Vec<(String, Json)>, name: &str) -> (p: usize)
        ensures
            p <= fields@.len(),
            forall|k: int| 0 <= k < p ==> (#[trigger] fields@[k]).0@ != name@,
            p < fields@.len() ==> fields@[p as int].0@ == name@,
    {
        let mut p: usize = 0;
        while p < fields.len() && !text::same(fields[p].0.as_str(), name)
            invariant
                p <= fields@.len(),
                forall|k: int| 0 <= k < p ==> (#[trigger] fields@[k]).0@ != name@,
            decreases fields@.len() - p,
        {
            p = p + 1;
        }
        p
    }

    /// The field `name` of an object.
    pub fn get(&self, name: &str) -> (r: Option<&Json>)
        ensures
            match (r, self@.field(name@)) {
                (Some(value), Some(expected)) => value@ == expected,
                (None, None) => true,
                _ => false,
            },
    {
        match self {
            Json::Object(fields) => {
                let p: usize = Json::position(fields, name);
                proof {
                    lemma_field_at(fields@, name@, p as int);
                }
                if p < fields.len() {
                    Some(&fields[p].1)
                } else {
                    None
                }
            },
            _ => None,
        }
    }

    /// The text of a string.
    pub fn as_str(&self) -> (r: Option<&str>)
        ensures
            match (r, self@.text()) {
                (Some(s), Some(expected)) => s@ == expected,
                (None, None) => true,
                _ => false,
            },
    {
        match self {
            Json::Text(s) => Some(s.as_str()),
            _ => None,
        }
    }

    /// The value of an integer that is not negative.
    pub fn as_u64(&self) -> (r: Option<u64>)
        ensures
            r == self@.number(),
    {
        match self {
            Json::PosInt(n) => Some(*n),
            _ => None,
        }
    }

    /// The items of an array.
    pub fn as_array(&self) -> (r: Option<&Vec<Json>>)
        ensures
            match (r, self@.items()) {
                (Some(items), Some(expected)) => item_models(items@) == expected,
                (None, None) => true,
                _ => false,
            },
    {
        match self {
            Json::Array(items) => Some(items),
            _ => None,
        }
    }

    /// Whether the value is `null`.
    pub fn is_null(&self) -> (r: bool)
        ensures
            r == (self@ == JsonModel::Null),
    {
        match self {
            Json::Null => true,
            _ => false,
        }
    }

    /// The text of the field `name`.
    pub fn text_field(&self, name: &str) -> (r: Option<&str>)
        ensures
            match (r, self@.text_field(name@)) {
                (Some(s), Some(expected)) => s@ == expected,
                (None, None) => true,
                _ => false,
            },
    {
        match self.get(name) {
            Some(value) => value.as_str(),
            None => None,
        }
    }

    /// The value of the integer field `name`.
    pub fn number_field(&self, name: &str) -> (r: Option<u64>)
        ensures
            r == self@.number_field(name@),
    {
        match self.get(name) {
            Some(value) => value.as_u64(),
            None => None,
        }
    }

    /// Set the field `name` of an object; any other value stays as it is.
    pub fn set(&mut self, name: &str, value: Json)
        ensures
            final(self)@ == old(self)@.with(name@, value@),
    {
        if let Json::Object(fields) = self {
            let ghost before = fields@;
            let p: usize = Json::position(fields, name);
            if p < fields.len() {
                fields[p].1 = value;
                proof {
                    lemma_field_set(before, p as int, value);
                    assert(fields@ =~= before.update(p as int, (before[p as int].0, value)));
                }
            } else {
                let field: (String, Json) = (name.to_owned(), value);
                proof {
                    lemma_field_push(before, field);
                }
                fields.push(field);
            }
        }
    }

    /// Remove the field `name` of an object; any other value stays as it is.
    pub fn unset(&mut self, name: &str)
        ensures
            final(self)@ == old(self)@.without(name@),
    {
        if let Json::Object(fields) = self {
            let ghost before = fields@;
            let mut k: usize = 0;
            while k < fields.len()
                invariant
                    k <= fields@.len(),
                    forall|j: int| 0 <= j < k ==> (#[trigger] fields@[j]).0@ != name@,
                    field_models(fields@).remove(name@) == field_models(before).remove(name@),
                decreases fields@.len() - k,
            {
                if text::same(fields[k].0.as_str(), name) {
                    proof {
                        lemma_field_removed(fields@, k as int);
                    }
                    fields.remove(k);
                } else {
                    k = k + 1;
                }
            }
            proof {
                lemma_field_at(fields@, name@, k as int);
                assert(field_models(fields@).remove(name@) =~= field_models(fields@));
            }
        }
    }
}

impl Clone for Json {
    /// A value of its own that is the same.
    fn clone(&self) -> (r: Json)
        ensures
            r@ == self@,
        decreases self,
    {
        match self {
            Json::Null => Json::Null,
            Json::Bool(b) => Json::Bool(*b),
            Json::PosInt(n) => Json::PosInt(*n),
            Json::NegInt(n) => Json::NegInt(*n),
            Json::Float(bits) => Json::Float(*bits),
            Json::Text(s) => Json::Text(s.clone()),
            Json::Array(items) => {
                let mut copies: Vec<Json> = Vec::new();
                let mut k: usize = 0;
                while k < items.len()
                    invariant
                        *self == Json::Array(*items),
                        k <= items@.len(),
                        item_models(copies@) == item_models(items@.take(k as int)),
                    decreases items@.len() - k,
                {
                    assert(decreases_to!(*self => self->Array_0));
                    assert(decreases_to!(*items => items@));
                    assert(decreases_to!(items@ => items@[k as int]));
                    let copy = items[k].clone();
                    proof {
                        lemma_item_models_push(copies@, copy);
                        lemma_item_models_push(items@.take(k as int), items@[k as int]);
                        assert(items@.take(k + 1) =~= items@.take(k as int).push(items@[k as int]));
                    }
                    copies.push(copy);
                    k = k + 1;
                }
                assert(items@.take(k as int) =~= items@);
                Json::Array(copies)
            },
            Json::Object(fields) => {
                let mut copies: Vec<(String, Json)> = Vec::new();
                let mut k: usize = 0;
                while k < fields.len()
                    invariant
                        *self == Json::Object(*fields),
                        k <= fields@.len(),
                        copies@.len() == k,
                        forall|j: int|
                            0 <= j < k ==> (#[trigger] copies@[j]).0@ == fields@[j].0@
                                && copies@[j].1@ == fields@[j].1@,
                    decreases fields@.len() - k,
                {
                    assert(decreases_to!(*self => self->Object_0));
                    assert(decreases_to!(*fields => fields@));
                    assert(decreases_to!(fields@ => fields@[k as int]));
                    assert(decreases_to!(fields@[k as int] => fields@[k as int].1));
                    let copy: (String, Json) = (fields[k].0.clone(), fields[k].1.clone());
                    copies.push(copy);
                    k = k + 1;
                }
                proof {
                    lemma_same_fields(copies@, fields@);
                }
                Json::Object(copies)
            },
        }
    }
}

/// Fields with the same names and values are the same object.
pub proof fn lemma_same_fields(a: Seq<(String, Json)>, b: Seq<(String, Json)>)
    requires
        a.len() == b.len(),
        forall|k: int|
            0 <= k < a.len() ==> (#[trigger] a[k]).0@ == b[k].0@ && a[k].1@ == b[k].1@,
    ensures
        field_models(a) == field_models(b),
    decreases a.len(),
{
    if a.len() > 0 {
        assert(a[0].0@ == b[0].0@);
        assert forall|k: int| 0 <= k < a.len() - 1 implies (#[trigger] a.drop_first()[k]).0@
            == b.drop_first()[k].0@ && a.drop_first()[k].1@ == b.drop_first()[k].1@ by {
            assert(a[k + 1].0@ == b[k + 1].0@);
        }
        lemma_same_fields(a.drop_first(), b.drop_first());
    }
}

/// Setting the first field of a name sets what the name stands for.
pub proof fn lemma_field_set(fields: Seq<(String, Json)>, p: int, value: Json)
    requires
        0 <= p < fields.len(),
        forall|k: int| 0 <= k < p ==> (#[trigger] fields[k]).0@ != fields[p].0@,
    ensures
        field_models(fields.update(p, (fields[p].0, value))) == field_models(fields).insert(
            fields[p].0@,
            value@,
        ),
    decreases fields.len(),
{
    let name = fields[p].0@;
    let rest = fields.drop_first();
    let changed = fields.update(p, (fields[p].0, value));
    if p == 0 {
        assert(changed.drop_first() =~= rest);
    } else {
        assert forall|k: int| 0 <= k < p - 1 implies (#[trigger] rest[k]).0@ != name by {
            assert(rest[k] == fields[k + 1]);
        }
        assert(fields[0].0@ != name);
        lemma_field_set(rest, p - 1, value);
        assert(changed.drop_first() =~= rest.update(p - 1, (rest[p - 1].0, value)));
    }
    assert(field_models(changed) =~= field_models(fields).insert(name, value@));
}

/// Adding a field of a new name behind all others adds what the name stands for.
pub proof fn lemma_field_push(fields: Seq<(String, Json)>, field: (String, Json))
    requires
        forall|k: int| 0 <= k < fields.len() ==> (#[trigger] fields[k]).0@ != field.0@,
    ensures
        field_models(fields.push(field)) == field_models(fields).insert(field.0@, field.1@),
    decreases fields.len(),
{
    let longer = fields.push(field);
    if fields.len() == 0 {
        assert(longer.drop_first() =~= fields);
    } else {
        let rest = fields.drop_first();
        assert forall|k: int| 0 <= k < rest.len() implies (#[trigger] rest[k]).0@ != field.0@ by {
            assert(rest[k] == fields[k + 1]);
        }
        assert(fields[0].0@ != field.0@);
        lemma_field_push(rest, field);
        assert(longer.drop_first() =~= rest.push(field));
    }
    assert(field_models(longer) =~= field_models(fields).insert(field.0@, field.1@));
}

/// Without a field of a name, all other names stand for what they did.
pub proof fn lemma_field_removed(fields: Seq<(String, Json)>, p: int)
    requires
        0 <= p < fields.len(),
    ensures
        field_models(fields.remove(p)).remove(fields[p].0@) == field_models(fields).remove(
            fields[p].0@,
        ),
    decreases fields.len(),
{
    let name = fields[p].0@;
    let rest = fields.drop_first();
    if p == 0 {
        assert(fields.remove(0) =~= rest);
    } else {
        lemma_field_removed(rest, p - 1);
        assert(fields.remove(p).drop_first() =~= rest.remove(p - 1));
        assert(fields.remove(p)[0] == fields[0]);
        let a = field_models(rest.remove(p - 1));
        let b = field_models(rest);
        assert(a.insert(fields[0].0@, fields[0].1@).remove(name) =~= a.remove(name).insert(
            fields[0].0@,
            fields[0].1@,
        ).remove(name));
        assert(b.insert(fields[0].0@, fields[0].1@).remove(name) =~= b.remove(name).insert(
            fields[0].0@,
            fields[0].1@,
        ).remove(name));
    }
    assert(field_models(fields.remove(p)).remove(name) =~= field_models(fields).remove(name));
}

// ---------------------------------------------------------------------------
// Laws
// ---------------------------------------------------------------------------

/// A field that was set is what it was set to, one that was taken out is not there,
/// and every other field stays as it was. Nothing but an object has fields, and
/// setting or taking out a field leaves anything else alone.
pub proof fn law_fields(json: JsonModel, name: Seq<char>, value: JsonModel)
    ensures
        json is Object ==> json.with(name, value).field(name) == Some(value),
        json.without(name).field(name) is None,
        forall|other: Seq<char>|
            other != name ==> #[trigger] json.with(name, value).field(other) == json.field(other),
        forall|other: Seq<char>|
            other != name ==> #[trigger] json.without(name).field(other) == json.field(other),
        json !is Object ==> json.field(name) is None && json.with(name, value) == json
            && json.without(name) == json,
{
}

/// Only a text has a text, only an integer that is not negative has a number, and only
/// an array has items; each has what it was made of.
pub proof fn law_contents(
    json: JsonModel,
    name: Seq<char>,
    text: Seq<char>,
    n: u64,
    items: Seq<JsonModel>,
)
    ensures
        json.text() == Some(text) <==> json == JsonModel::Text(text),
        json.number() == Some(n) <==> json == JsonModel::PosInt(n),
        json.items() == Some(items) <==> json == JsonModel::Array(items),
        json.text_field(name) == Some(text) <==> json.field(name) == Some(JsonModel::Text(text)),
        json.number_field(name) == Some(n) <==> json.field(name) == Some(JsonModel::PosInt(n)),
{
}

/// Values in an array keep their number and their order.
pub proof fn law_items_keep_their_order(items: Seq<Json>, k: int)
    requires
        0 <= k < items.len(),
    ensures
        item_models(items).len() == items.len(),
        item_models(items)[k] == items[k]@,
{
    lemma_item_models(items);
}

/// Of the fields with one name the first counts, and a name that no field has is not
/// there.
pub proof fn law_first_field_counts(fields: Seq<(String, Json)>, name: Seq<char>)
    ensures
        field_models(fields).contains_key(name) <==> exists|k: int|
            0 <= k < fields.len() && (#[trigger] fields[k]).0@ == name,
        forall|k: int|
            0 <= k < fields.len() && (#[trigger] fields[k]).0@ == name && (forall|j: int|
                0 <= j < k ==> (#[trigger] fields[j]).0@ != name) ==> field_models(fields)[name]
                == fields[k].1@,
    decreases fields.len(),
{
    if fields.len() > 0 {
        let rest = fields.drop_first();
        law_first_field_counts(rest, name);
        assert forall|k: int|
            0 <= k < fields.len() && (#[trigger] fields[k]).0@ == name && (forall|j: int|
                0 <= j < k ==> (#[trigger] fields[j]).0@
                    != name) implies field_models(fields)[name] == fields[k].1@ by {
            if k > 0 {
                assert(fields[0].0@ != name);
                assert(rest[k - 1] == fields[k]);
                assert forall|j: int| 0 <= j < k - 1 implies (#[trigger] rest[j]).0@ != name by {
                    assert(rest[j] == fields[j + 1]);
                }
            }
        }
        if field_models(rest).contains_key(name) {
            let k = choose|k: int| 0 <= k < rest.len() && (#[trigger] rest[k]).0@ == name;
            assert(fields[k + 1] == rest[k]);
        }
        if exists|k: int| 0 <= k < fields.len() && (#[trigger] fields[k]).0@ == name {
            let k = choose|k: int| 0 <= k < fields.len() && (#[trigger] fields[k]).0@ == name;
            if k > 0 {
                assert(rest[k - 1] == fields[k]);
            }
        }
    }
}

} // verus!
