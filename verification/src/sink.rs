//! The output-sink capability and its reference implementation.
//!
//! A sink receives construction events from the parser and builds an output
//! representation on a stack of partially-built values. Any type meeting the
//! [`ValueSink`] contract can be driven by the parser with identical
//! observable parsing behavior; [`TermSink`] is the reference
//! implementation, building the [`JsonValue`] tree.
//!
//! The sink stack and the parser's frame stack are kept consistent in shape
//! by the parser; they must be saved and restored together across a
//! suspension, never independently.

use vstd::prelude::*;

use crate::value::JsonValue;
use crate::value::ValueModel;
use crate::value::key_index;
use crate::value::lemma_array_model;
use crate::value::lemma_key_index_char;
use crate::value::lemma_object_model;
use crate::value::member_models;
use crate::value::models_of;
use crate::value::object_insert;

verus! {

/// The capability contract through which the parser reports construction
/// events. All obligations are stated over `stack_model`, the sink's stack
/// of partially-built values as spec-level JSON values.
pub trait ValueSink: Sized {
    /// The models of the values on the sink's stack, bottom first.
    spec fn stack_model(&self) -> Seq<ValueModel>;

    /// Open an empty object on top of the stack.
    fn push_map(&mut self)
        ensures
            final(self).stack_model() == old(self).stack_model().push(
                ValueModel::Obj(Seq::empty()),
            ),
    ;

    /// Open an empty array on top of the stack.
    fn push_array(&mut self)
        ensures
            final(self).stack_model() == old(self).stack_model().push(
                ValueModel::Arr(Seq::empty()),
            ),
    ;

    /// Push a string scalar.
    fn push_string(&mut self, string: Vec<u8>)
        ensures
            final(self).stack_model() == old(self).stack_model().push(ValueModel::Str(string@)),
    ;

    /// Push an integer scalar.
    fn push_integer(&mut self, integer: i64)
        ensures
            final(self).stack_model() == old(self).stack_model().push(
                ValueModel::Int(integer as int),
            ),
    ;

    /// Push a floating-point scalar, kept as its lexeme.
    fn push_float(&mut self, float: Vec<u8>)
        ensures
            final(self).stack_model() == old(self).stack_model().push(ValueModel::Float(float@)),
    ;

    /// Push a boolean scalar.
    fn push_bool(&mut self, boolean: bool)
        ensures
            final(self).stack_model() == old(self).stack_model().push(ValueModel::Bool(boolean)),
    ;

    /// Push the null scalar.
    fn push_nil(&mut self)
        ensures
            final(self).stack_model() == old(self).stack_model().push(ValueModel::Null),
    ;

    /// Hook called when an object closes. Must leave the stack's model
    /// unchanged; available to implementations needing post-processing.
    fn finalize_map(&mut self)
        ensures
            final(self).stack_model() == old(self).stack_model(),
    ;

    /// Hook called when an array closes. Must leave the stack's model
    /// unchanged: an implementation accumulating elements in another
    /// physical order restores element order here.
    fn finalize_array(&mut self)
        ensures
            final(self).stack_model() == old(self).stack_model(),
    ;

    /// Pop the finished value and the object under it, insert the value
    /// under `key` (last write wins, first-insertion position kept), and
    /// push the object back.
    fn pop_insert_map(&mut self, key: Vec<u8>)
        requires
            old(self).stack_model().len() >= 2,
            old(self).stack_model()[old(self).stack_model().len() - 2] is Obj,
        ensures
            ({
                let m0 = old(self).stack_model();
                let members = m0[m0.len() - 2]->Obj_0;
                final(self).stack_model() == m0.take(m0.len() - 2).push(
                    ValueModel::Obj(object_insert(members, key@, m0.last())),
                )
            }),
    ;

    /// Pop the finished value and the array under it, append the value, and
    /// push the array back.
    fn pop_insert_array(&mut self)
        requires
            old(self).stack_model().len() >= 2,
            old(self).stack_model()[old(self).stack_model().len() - 2] is Arr,
        ensures
            ({
                let m0 = old(self).stack_model();
                let items = m0[m0.len() - 2]->Arr_0;
                final(self).stack_model() == m0.take(m0.len() - 2).push(
                    ValueModel::Arr(items.push(m0.last())),
                )
            }),
    ;
}

/// Whether two byte vectors hold the same bytes.
fn bytes_eq(a: &Vec<u8>, b: &Vec<u8>) -> (r: bool)
    ensures
        r == (a@ == b@),
{
    if a.len() != b.len() {
        return false;
    }
    let mut k: usize = 0;
    while k < a.len()
        invariant
            a@.len() == b@.len(),
            0 <= k <= a@.len(),
            forall|t: int| 0 <= t < k ==> a@[t] == b@[t],
        decreases a@.len() - k,
    {
        if a[k] != b[k] {
            return false;
        }
        k = k + 1;
    }
    proof {
        assert(a@ =~= b@);
    }
    true
}

/// Position of the first member keyed by `key`, per `key_index` on the
/// member models.
fn key_position(members: &Vec<(Vec<u8>, JsonValue)>, key: &Vec<u8>) -> (r: Option<usize>)
    ensures
        ({
            let j = key_index(member_models(members@), key@);
            match r {
                Some(p) => j == p,
                None => j == -1,
            }
        }),
{
    proof {
        lemma_key_index_char(member_models(members@), key@);
    }
    let mut k: usize = 0;
    while k < members.len()
        invariant
            0 <= k <= members@.len(),
            forall|t: int| 0 <= t < k ==> member_models(members@)[t].0 != key@,
        decreases members@.len() - k,
    {
        if bytes_eq(&members[k].0, key) {
            proof {
                assert(member_models(members@)[k as int].0 == key@);
                lemma_key_index_char(member_models(members@), key@);
            }
            return Some(k);
        }
        k = k + 1;
    }
    proof {
        lemma_key_index_char(member_models(members@), key@);
    }
    None
}

/// The reference sink: builds the [`JsonValue`] tree on a plain stack.
pub struct TermSink {
    /// Partially-built values, bottom first.
    stack: Vec<JsonValue>,
}

impl TermSink {
    /// A sink over an existing stack of partial values (empty for a fresh
    /// decode; the stack returned by a suspension to resume one).
    pub fn new(stack: Vec<JsonValue>) -> (r: TermSink)
        ensures
            r.stack_model() == models_of(stack@),
    {
        TermSink { stack }
    }

    /// Hand the stack of partial values back, for saving across a
    /// suspension.
    pub fn to_stack(self) -> (r: Vec<JsonValue>)
        ensures
            models_of(r@) == self.stack_model(),
    {
        self.stack
    }

    /// Pop the finished value off the stack.
    pub fn pop(&mut self) -> (r: JsonValue)
        requires
            old(self).stack_model().len() > 0,
        ensures
            r.model() == old(self).stack_model().last(),
            final(self).stack_model() == old(self).stack_model().drop_last(),
    {
        let r = self.stack.pop().unwrap();
        proof {
            assert(self.stack_model() =~= old(self).stack_model().drop_last());
        }
        r
    }
}

impl ValueSink for TermSink {
    closed spec fn stack_model(&self) -> Seq<ValueModel> {
        models_of(self.stack@)
    }

    fn push_map(&mut self) {
        let members: Vec<(Vec<u8>, JsonValue)> = Vec::new();
        proof {
            lemma_object_model(members);
            assert(member_models(members@) =~= Seq::<(Seq<u8>, ValueModel)>::empty());
        }
        self.stack.push(JsonValue::Object(members));
        proof {
            assert(self.stack_model() =~= old(self).stack_model().push(
                ValueModel::Obj(Seq::empty()),
            ));
        }
    }

    fn push_array(&mut self) {
        let items: Vec<JsonValue> = Vec::new();
        proof {
            lemma_array_model(items);
            assert(models_of(items@) =~= Seq::<ValueModel>::empty());
        }
        self.stack.push(JsonValue::Array(items));
        proof {
            assert(self.stack_model() =~= old(self).stack_model().push(
                ValueModel::Arr(Seq::empty()),
            ));
        }
    }

    fn push_string(&mut self, string: Vec<u8>) {
        let ghost sm = string@;
        self.stack.push(JsonValue::Str(string));
        proof {
            assert(self.stack_model() =~= old(self).stack_model().push(
                ValueModel::Str(sm),
            ));
        }
    }

    fn push_integer(&mut self, integer: i64) {
        self.stack.push(JsonValue::Int(integer));
        proof {
            assert(self.stack_model() =~= old(self).stack_model().push(
                ValueModel::Int(integer as int),
            ));
        }
    }

    fn push_float(&mut self, float: Vec<u8>) {
        let ghost fm = float@;
        self.stack.push(JsonValue::Float(float));
        proof {
            assert(self.stack_model() =~= old(self).stack_model().push(
                ValueModel::Float(fm),
            ));
        }
    }

    fn push_bool(&mut self, boolean: bool) {
        self.stack.push(JsonValue::Bool(boolean));
        proof {
            assert(self.stack_model() =~= old(self).stack_model().push(
                ValueModel::Bool(boolean),
            ));
        }
    }

    fn push_nil(&mut self) {
        self.stack.push(JsonValue::Null);
        proof {
            assert(self.stack_model() =~= old(self).stack_model().push(ValueModel::Null));
        }
    }

    fn finalize_map(&mut self) {
    }

    fn finalize_array(&mut self) {
    }

    fn pop_insert_map(&mut self, key: Vec<u8>) {
        let ghost m0 = self.stack_model();
        let ghost km = key@;
        let value = self.stack.pop().unwrap();
        let map = self.stack.pop().unwrap();
        proof {
            assert(value.model() == m0.last());
            assert(map.model() == m0[m0.len() - 2]);
        }
        match map {
            JsonValue::Object(mut members) => {
                proof {
                    lemma_object_model(members);
                }
                let ghost mm0 = member_models(members@);
                let ghost vm = value.model();
                let pos = key_position(&members, &key);
                match pos {
                    Some(j) => {
                        proof {
                            lemma_key_index_char(mm0, km);
                        }
                        members.set(j, (key, value));
                        proof {
                            assert(member_models(members@) =~= object_insert(
                                mm0,
                                km,
                                m0.last(),
                            ));
                        }
                    },
                    None => {
                        members.push((key, value));
                        proof {
                            assert(member_models(members@) =~= object_insert(
                                mm0,
                                km,
                                m0.last(),
                            ));
                        }
                    },
                }
                proof {
                    lemma_object_model(members);
                }
                self.stack.push(JsonValue::Object(members));
                proof {
                    assert(self.stack_model() =~= m0.take(m0.len() - 2).push(
                        ValueModel::Obj(object_insert(m0[m0.len() - 2]->Obj_0, km, m0.last())),
                    ));
                }
            },
            other => {
                proof {
                    assert(other.model() == m0[m0.len() - 2]);
                    assert(false);
                }
                self.stack.push(other);
            },
        }
    }

    fn pop_insert_array(&mut self) {
        let ghost m0 = self.stack_model();
        let value = self.stack.pop().unwrap();
        let arr = self.stack.pop().unwrap();
        proof {
            assert(value.model() == m0.last());
            assert(arr.model() == m0[m0.len() - 2]);
        }
        match arr {
            JsonValue::Array(mut items) => {
                proof {
                    lemma_array_model(items);
                }
                let ghost im0 = models_of(items@);
                items.push(value);
                proof {
                    assert(models_of(items@) =~= im0.push(m0.last()));
                    lemma_array_model(items);
                }
                self.stack.push(JsonValue::Array(items));
                proof {
                    assert(self.stack_model() =~= m0.take(m0.len() - 2).push(
                        ValueModel::Arr(m0[m0.len() - 2]->Arr_0.push(m0.last())),
                    ));
                }
            },
            other => {
                proof {
                    assert(other.model() == m0[m0.len() - 2]);
                    assert(false);
                }
                self.stack.push(other);
            },
        }
    }
}

} // verus!
