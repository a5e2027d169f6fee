//! The decoded value tree and its mathematical model.
//!
//! A numeric literal whose text contains `.`, `e` or `E` is kept as its
//! validated lexeme rather than converted to machine floating point; every
//! other JSON value is held directly. The spec-level model [`ValueModel`]
//! mirrors the tree over `Seq` and `int`, and is what all parser contracts
//! speak of.

use vstd::prelude::*;

verus! {

/// Spec-level model of a JSON value: the shape every contract in this crate
/// is stated over.
pub enum ValueModel {
    /// The JSON literal `null`.
    Null,
    /// A JSON boolean.
    Bool(bool),
    /// A number without `.`, `e` or `E`, as the mathematical integer it
    /// denotes (always within `i64` range).
    Int(int),
    /// A number whose lexeme contains `.`, `e` or `E`: the lexeme itself,
    /// valid per [`crate::parser::float_lexeme_valid`].
    Float(Seq<u8>),
    /// A string body, after escape substitution, as raw bytes.
    Str(Seq<u8>),
    /// An array of values in element order.
    Arr(Seq<ValueModel>),
    /// An object as an association list in key insertion order; keys are
    /// unique (duplicates overwrite in place: last write wins).
    Obj(Seq<(Seq<u8>, ValueModel)>),
}

/// A decoded JSON value.
#[derive(Debug, PartialEq)]
pub enum JsonValue {
    /// The JSON literal `null`.
    Null,
    /// A JSON boolean.
    Bool(bool),
    /// A number without `.`, `e` or `E`.
    Int(i64),
    /// A number containing `.`, `e` or `E`, kept as its validated lexeme.
    Float(Vec<u8>),
    /// A string body after escape substitution, as raw bytes (the source
    /// buffer is assumed valid UTF-8, so the bytes are too).
    Str(Vec<u8>),
    /// An array of values in element order.
    Array(Vec<JsonValue>),
    /// An object as key/value pairs in key insertion order.
    Object(Vec<(Vec<u8>, JsonValue)>),
}

impl JsonValue {
    /// The model of this value.
    pub open spec fn model(self) -> ValueModel
        decreases self,
    {
        match self {
            JsonValue::Null => ValueModel::Null,
            JsonValue::Bool(b) => ValueModel::Bool(b),
            JsonValue::Int(n) => ValueModel::Int(n as int),
            JsonValue::Float(lex) => ValueModel::Float(lex@),
            JsonValue::Str(s) => ValueModel::Str(s@),
            JsonValue::Array(items) => ValueModel::Arr(
                Seq::new(
                    items@.len(),
                    |k: int|
                        if 0 <= k < items@.len() {
                            items@[k].model()
                        } else {
                            ValueModel::Null
                        },
                ),
            ),
            JsonValue::Object(members) => ValueModel::Obj(
                Seq::new(
                    members@.len(),
                    |k: int|
                        if 0 <= k < members@.len() {
                            (members@[k].0@, members@[k].1.model())
                        } else {
                            (Seq::empty(), ValueModel::Null)
                        },
                ),
            ),
        }
    }
}

impl View for JsonValue {
    type V = ValueModel;

    open spec fn view(&self) -> ValueModel {
        self.model()
    }
}

/// The models of a sequence of values, element by element.
pub open spec fn models_of(s: Seq<JsonValue>) -> Seq<ValueModel> {
    Seq::new(s.len(), |k: int| if 0 <= k < s.len() {
        s[k].model()
    } else {
        ValueModel::Null
    })
}

/// The models of a sequence of object members, element by element.
pub open spec fn member_models(s: Seq<(Vec<u8>, JsonValue)>) -> Seq<(Seq<u8>, ValueModel)> {
    Seq::new(s.len(), |k: int| if 0 <= k < s.len() {
        (s[k].0@, s[k].1.model())
    } else {
        (Seq::<u8>::empty(), ValueModel::Null)
    })
}

/// The model of an array value is the element-wise model of its items.
pub proof fn lemma_array_model(items: Vec<JsonValue>)
    ensures
        JsonValue::Array(items).model() == ValueModel::Arr(models_of(items@)),
{
    assert(JsonValue::Array(items).model()->Arr_0 =~= models_of(items@));
}

/// The model of an object value is the element-wise model of its members.
pub proof fn lemma_object_model(members: Vec<(Vec<u8>, JsonValue)>)
    ensures
        JsonValue::Object(members).model() == ValueModel::Obj(member_models(members@)),
{
    assert(JsonValue::Object(members).model()->Obj_0 =~= member_models(members@));
}

/// Index of the first member of `members` whose key is `key`, or `-1` when
/// no member has that key.
pub open spec fn key_index(members: Seq<(Seq<u8>, ValueModel)>, key: Seq<u8>) -> int
    decreases members.len(),
{
    if members.len() == 0 {
        -1
    } else if members[0].0 == key {
        0
    } else {
        let rest = key_index(members.drop_first(), key);
        if rest < 0 {
            -1
        } else {
            rest + 1
        }
    }
}

/// Insertion into an object model: last write wins, and a key keeps the
/// position of its first insertion.
pub open spec fn object_insert(
    members: Seq<(Seq<u8>, ValueModel)>,
    key: Seq<u8>,
    value: ValueModel,
) -> Seq<(Seq<u8>, ValueModel)> {
    let j = key_index(members, key);
    if j < 0 {
        members.push((key, value))
    } else {
        members.update(j, (key, value))
    }
}

/// `key_index` finds exactly the first position holding `key`, and `-1`
/// exactly when no position holds it.
pub proof fn lemma_key_index_char(members: Seq<(Seq<u8>, ValueModel)>, key: Seq<u8>)
    ensures
        key_index(members, key) == -1 <==> (forall|t: int|
            0 <= t < members.len() ==> members[t].0 != key),
        key_index(members, key) >= 0 ==> {
            let j = key_index(members, key);
            &&& 0 <= j < members.len()
            &&& members[j].0 == key
            &&& forall|t: int| 0 <= t < j ==> members[t].0 != key
        },
    decreases members.len(),
{
    if members.len() == 0 {
    } else if members[0].0 == key {
    } else {
        let rest = members.drop_first();
        lemma_key_index_char(rest, key);
        assert(forall|t: int| 1 <= t < members.len() ==> members[t] == rest[t - 1]);
    }
}

} // verus!
