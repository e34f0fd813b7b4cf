//! The generic value representation used by models: a closed, recursively
//! structured sum type. Maps and sets are kept in a canonical form (entries
//! strictly sorted by a total order on values) so that structurally equal
//! values have equal representations and deterministic encodings.

use vstd::prelude::*;
use crate::order::{
    canon_entries, canon_vals, canonicalize_entries, canonicalize_vals, lemma_canon_entries,
    lemma_canon_entries_wf, lemma_canon_vals, lemma_canon_vals_wf, wf,
};

verus! {

/// Sentinel values for partial state matching in model-based testing.
#[derive(Debug, Clone, Copy, PartialEq, Eq, Structural)]
pub enum Sentinel {
    /// Field should be ignored during comparison.
    Ignore,
}

/// The mathematical model of a [`Value`]: the same shape, with text as a
/// sequence of characters and collections as sequences.
pub enum ValueModel {
    Int(i64),
    Str(Seq<char>),
    Bool(bool),
    MapVal(Seq<(ValueModel, ValueModel)>),
    ListVal(Seq<ValueModel>),
    SetVal(Seq<ValueModel>),
    Sentinel(Sentinel),
    NoneVal,
}

/// A generic value exchanged between the test bridge and the user's model.
///
/// A map is a list of key/value entries and a set is a list of elements; both
/// are well formed only when strictly sorted by the total order on values
/// (see [`crate::order`]), which makes keys unique and representations
/// canonical. The constructors [`Value::from_map`] and [`Value::from_set`]
/// establish that form.
#[derive(Debug, PartialEq, Eq)]
pub enum Value {
    Int(i64),
    Str(String),
    Bool(bool),
    MapVal(Vec<(Value, Value)>),
    ListVal(Vec<Value>),
    SetVal(Vec<Value>),
    Sentinel(Sentinel),
    NoneVal,
}

/// The models of a sequence of values.
pub open spec fn models_of(s: Seq<Value>) -> Seq<ValueModel>
    decreases s,
{
    if s.len() == 0 {
        Seq::empty()
    } else {
        seq![value_model(s[0])] + models_of(s.skip(1))
    }
}

/// The models of a sequence of key/value entries.
pub open spec fn entry_models_of(s: Seq<(Value, Value)>) -> Seq<(ValueModel, ValueModel)>
    decreases s,
{
    if s.len() == 0 {
        Seq::empty()
    } else {
        seq![(value_model(s[0].0), value_model(s[0].1))] + entry_models_of(s.skip(1))
    }
}

/// The model of a value.
pub open spec fn value_model(v: Value) -> ValueModel
    decreases v,
{
    match v {
        Value::Int(i) => ValueModel::Int(i),
        Value::Str(s) => ValueModel::Str(s@),
        Value::Bool(b) => ValueModel::Bool(b),
        Value::MapVal(es) => ValueModel::MapVal(entry_models_of(es@)),
        Value::ListVal(xs) => ValueModel::ListVal(models_of(xs@)),
        Value::SetVal(xs) => ValueModel::SetVal(models_of(xs@)),
        Value::Sentinel(s) => ValueModel::Sentinel(s),
        Value::NoneVal => ValueModel::NoneVal,
    }
}

impl View for Value {
    type V = ValueModel;

    open spec fn view(&self) -> ValueModel {
        value_model(*self)
    }
}

/// `models_of` maps each element to its model.
pub proof fn lemma_models_of(s: Seq<Value>)
    ensures
        models_of(s).len() == s.len(),
        forall|i: int| 0 <= i < s.len() ==> models_of(s)[i] == value_model(#[trigger] s[i]),
    decreases s,
{
    if s.len() > 0 {
        lemma_models_of(s.skip(1));
        assert forall|i: int| 0 <= i < s.len() implies models_of(s)[i] == value_model(
            #[trigger] s[i],
        ) by {
            if i > 0 {
                assert(s.skip(1)[i - 1] == s[i]);
            }
        }
    }
}

/// `entry_models_of` maps each entry to the pair of its models.
pub proof fn lemma_entry_models_of(s: Seq<(Value, Value)>)
    ensures
        entry_models_of(s).len() == s.len(),
        forall|i: int| 0 <= i < s.len() ==> entry_models_of(s)[i] == (
            value_model(#[trigger] s[i].0),
            value_model(s[i].1),
        ),
    decreases s,
{
    if s.len() > 0 {
        lemma_entry_models_of(s.skip(1));
        assert forall|i: int| 0 <= i < s.len() implies entry_models_of(s)[i] == (
            value_model(#[trigger] s[i].0),
            value_model(s[i].1),
        ) by {
            if i > 0 {
                assert(s.skip(1)[i - 1] == s[i]);
            }
        }
    }
}

impl Value {
    /// Returns the integer value if this is a `Value::Int`, else `None`.
    pub fn as_int(&self) -> (r: Option<i64>)
        ensures
            r == (match self@ {
                ValueModel::Int(v) => Some(v),
                _ => None::<i64>,
            }),
    {
        if let Value::Int(v) = self {
            Some(*v)
        } else {
            None
        }
    }

    /// Returns the string value if this is a `Value::Str`, else `None`.
    pub fn as_str(&self) -> (r: Option<&str>)
        ensures
            match self@ {
                ValueModel::Str(s) => r matches Some(t) && t@ == s,
                _ => r is None,
            },
    {
        if let Value::Str(s) = self {
            Some(s.as_str())
        } else {
            None
        }
    }

    /// Returns the bool value if this is a `Value::Bool`, else `None`.
    pub fn as_bool(&self) -> (r: Option<bool>)
        ensures
            r == (match self@ {
                ValueModel::Bool(b) => Some(b),
                _ => None::<bool>,
            }),
    {
        if let Value::Bool(b) = self {
            Some(*b)
        } else {
            None
        }
    }

    /// Convenience constructor for maps. The entries are brought into
    /// canonical form: sorted by key, a later entry for a key overriding an
    /// earlier one, as in ordinary map insertion order.
    pub fn from_map(map: Vec<(Value, Value)>) -> (r: Value)
        requires
            forall|i: int| #![auto] 0 <= i < map@.len() ==> wf(map@[i].0@) && wf(map@[i].1@),
        ensures
            r@ == ValueModel::MapVal(canon_entries(entry_models_of(map@))),
            wf(r@),
    {
        let ghost orig = entry_models_of(map@);
        proof {
            lemma_entry_models_of(map@);
            assert forall|i: int| #![auto] 0 <= i < orig.len() implies wf(orig[i].0) && wf(
                orig[i].1,
            ) by {
                assert(orig[i] == (value_model(map@[i].0), value_model(map@[i].1)));
            }
        }
        let entries = canonicalize_entries(map);
        proof {
            lemma_canon_entries(orig);
            lemma_canon_entries_wf(orig);
        }
        Value::MapVal(entries)
    }

    /// Convenience constructor for sets. The elements are brought into
    /// canonical form: sorted, duplicates dropped.
    pub fn from_set(set: Vec<Value>) -> (r: Value)
        requires
            forall|i: int| #![auto] 0 <= i < set@.len() ==> wf(set@[i]@),
        ensures
            r@ == ValueModel::SetVal(canon_vals(models_of(set@))),
            wf(r@),
    {
        let ghost orig = models_of(set@);
        proof {
            lemma_models_of(set@);
            assert forall|i: int| #![auto] 0 <= i < orig.len() implies wf(orig[i]) by {
                assert(orig[i] == value_model(set@[i]));
            }
        }
        let vals = canonicalize_vals(set);
        proof {
            lemma_canon_vals(orig);
            lemma_canon_vals_wf(orig);
        }
        Value::SetVal(vals)
    }

    /// Convenience constructor for lists.
    pub fn from_list(list: Vec<Value>) -> (r: Value)
        ensures
            r@ == ValueModel::ListVal(models_of(list@)),
            (forall|i: int| #![auto] 0 <= i < list@.len() ==> wf(list@[i]@)) ==> wf(r@),
    {
        proof {
            lemma_models_of(list@);
            if forall|i: int| #![auto] 0 <= i < list@.len() ==> wf(list@[i]@) {
                assert forall|i: int| #![auto] 0 <= i < models_of(list@).len() implies wf(
                    models_of(list@)[i],
                ) by {
                    assert(models_of(list@)[i] == value_model(list@[i]));
                }
            }
        }
        Value::ListVal(list)
    }
}

/// Produces the deterministic ordering of map entries (useful before
/// serializing to the wire or comparing states): the canonical, key-sorted,
/// deduplicated form.
pub fn sorted_map_entries(map: Vec<(Value, Value)>) -> (r: Vec<(Value, Value)>)
    ensures
        entry_models_of(r@) == canon_entries(entry_models_of(map@)),
{
    canonicalize_entries(map)
}


impl Value {
    /// An owned structural copy, equal at the model level. The usual derive
    /// of a clone cannot carry a specification for this recursive shape, so
    /// the copy is spelled out and verified instead.
    #[verifier::loop_isolation(false)]
    pub fn duplicate(&self) -> (r: Value)
        ensures
            r@ == self@,
        decreases *self, 1int,
    {
        match self {
            Value::Int(i) => Value::Int(*i),
            Value::Str(s) => Value::Str(s.clone()),
            Value::Bool(b) => Value::Bool(*b),
            Value::Sentinel(s) => Value::Sentinel(*s),
            Value::NoneVal => Value::NoneVal,
            Value::MapVal(es) => {
                let mut out: Vec<(Value, Value)> = Vec::new();
                let n = es.len();
                let mut i: usize = 0;
                while i < n
                    invariant
                        i <= n,
                        n == es@.len(),
                        out@.len() == i,
                        forall|p: int|
                            0 <= p < i ==> (#[trigger] out@[p]).0@ == es@[p].0@ && out@[p].1@
                                == es@[p].1@,
                    decreases n - i,
                {
                    proof {
                        assert(decreases_to!(*self => (*self)->MapVal_0));
                        assert(decreases_to!((*self)->MapVal_0 => (*self)->MapVal_0@));
                        assert((*self)->MapVal_0@ == es@);
                        assert(decreases_to!(es@ => es@[i as int]));
                        assert(decreases_to!(es@[i as int] => es@[i as int].0));
                        assert(decreases_to!(es@[i as int] => es@[i as int].1));
                    }
                    let k = es[i].0.duplicate();
                    let val = es[i].1.duplicate();
                    let ghost pre = out@;
                    out.push((k, val));
                    proof {
                        assert forall|p: int|
                            0 <= p < i + 1 implies (#[trigger] out@[p]).0@ == es@[p].0@
                            && out@[p].1@ == es@[p].1@ by {
                            if p < i {
                                assert(out@[p] == pre[p]);
                            }
                        }
                    }
                    i = i + 1;
                }
                proof {
                    lemma_entry_models_of(out@);
                    lemma_entry_models_of(es@);
                    assert(entry_models_of(out@) =~= entry_models_of(es@)) by {
                        assert forall|p: int|
                            0 <= p < n implies entry_models_of(out@)[p] == entry_models_of(
                            es@,
                        )[p] by {
                            assert(entry_models_of(out@)[p] == (
                                value_model(out@[p].0),
                                value_model(out@[p].1),
                            ));
                            assert(entry_models_of(es@)[p] == (
                                value_model(es@[p].0),
                                value_model(es@[p].1),
                            ));
                        }
                    }
                }
                Value::MapVal(out)
            },
            Value::ListVal(xs) => Value::ListVal(duplicate_all(xs, Ghost(*self))),
            Value::SetVal(xs) => Value::SetVal(duplicate_all(xs, Ghost(*self))),
        }
    }
}

/// Copies every element of a value vector; the ghost parent ties the
/// recursion to the value the vector came from.
#[verifier::loop_isolation(false)]
fn duplicate_all(xs: &Vec<Value>, parent: Ghost<Value>) -> (r: Vec<Value>)
    requires
        decreases_to!(parent@ => xs@),
    ensures
        models_of(r@) == models_of(xs@),
    decreases parent@, 0int,
{
    let mut out: Vec<Value> = Vec::new();
    let n = xs.len();
    let mut i: usize = 0;
    while i < n
        invariant
            i <= n,
            n == xs@.len(),
            out@.len() == i,
            forall|p: int| 0 <= p < i ==> (#[trigger] out@[p])@ == xs@[p]@,
        decreases n - i,
    {
        proof {
            assert(decreases_to!(xs@ => xs@[i as int]));
        }
        let x = xs[i].duplicate();
        let ghost pre = out@;
        out.push(x);
        proof {
            assert forall|p: int| 0 <= p < i + 1 implies (#[trigger] out@[p])@ == xs@[p]@ by {
                if p < i {
                    assert(out@[p] == pre[p]);
                }
            }
        }
        i = i + 1;
    }
    proof {
        lemma_models_of(out@);
        lemma_models_of(xs@);
        assert(models_of(out@) =~= models_of(xs@)) by {
            assert forall|p: int|
                0 <= p < n implies models_of(out@)[p] == models_of(xs@)[p] by {
                assert(models_of(out@)[p] == value_model(out@[p]));
                assert(models_of(xs@)[p] == value_model(xs@[p]));
            }
        }
    }
    out
}

} // verus!
