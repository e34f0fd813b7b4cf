//! The wire codec: a flat, tagged wire representation of values and the
//! lossless conversion to and from it. Encoding is deterministic because map
//! and set values are canonical; decoding inverts encoding for every
//! constructible value that contains no set (a set is sent as a list and
//! comes back as one).

use vstd::prelude::*;
use vstd::string::StringExecFns;
use crate::error::{ErrorModel, MbtError};
use crate::order::{
    canon_entries, canon_vals, lemma_canon_entries, lemma_canon_entries_wf, lemma_canon_vals,
    lemma_canon_sorted_id, lemma_sorted_entries_unique, lemma_sorted_vals_unique, map_of, set_of,
    wf,
};
use crate::value::{
    entry_models_of, lemma_entry_models_of, lemma_models_of, models_of, Sentinel, Value,
    ValueModel,
};

verus! {

/// The model of a [`WireValue`].
pub enum WireModel {
    IntValue(i64),
    StrValue(Seq<char>),
    BoolValue(bool),
    MapValue(Seq<WireEntryModel>),
    ListValue(Seq<WireModel>),
    SetValue(Seq<WireModel>),
    SentinelValue(Sentinel),
    Absent,
}

/// The model of a [`WireEntry`].
pub struct WireEntryModel {
    pub key: Option<WireModel>,
    pub value: Option<WireModel>,
}

/// A tagged wire value, mirroring the wire schema's value message: one kind
/// per value variant, with `Absent` for a message whose kind is not set.
#[derive(Debug, PartialEq, Eq)]
pub enum WireValue {
    IntValue(i64),
    StrValue(String),
    BoolValue(bool),
    MapValue(Vec<WireEntry>),
    ListValue(Vec<WireValue>),
    SetValue(Vec<WireValue>),
    SentinelValue(Sentinel),
    Absent,
}

/// One key/value entry of a wire map; both fields are optional on the wire.
#[derive(Debug, PartialEq, Eq)]
pub struct WireEntry {
    pub key: Option<WireValue>,
    pub value: Option<WireValue>,
}

/// The models of a sequence of wire values.
pub open spec fn wire_models_of(s: Seq<WireValue>) -> Seq<WireModel>
    decreases s,
{
    if s.len() == 0 {
        Seq::empty()
    } else {
        seq![wire_model(s[0])] + wire_models_of(s.skip(1))
    }
}

/// The models of a sequence of wire entries.
pub open spec fn wire_entry_models_of(s: Seq<WireEntry>) -> Seq<WireEntryModel>
    decreases s,
{
    if s.len() == 0 {
        Seq::empty()
    } else {
        seq![wire_entry_model(s[0])] + wire_entry_models_of(s.skip(1))
    }
}

/// The model of an optional wire value.
pub open spec fn opt_wire_model(o: Option<WireValue>) -> Option<WireModel>
    decreases o,
{
    match o {
        Some(w) => Some(wire_model(w)),
        None => None,
    }
}

/// The model of a wire entry.
pub open spec fn wire_entry_model(e: WireEntry) -> WireEntryModel
    decreases e,
{
    WireEntryModel { key: opt_wire_model(e.key), value: opt_wire_model(e.value) }
}

/// The model of a wire value.
pub open spec fn wire_model(w: WireValue) -> WireModel
    decreases w,
{
    match w {
        WireValue::IntValue(i) => WireModel::IntValue(i),
        WireValue::StrValue(s) => WireModel::StrValue(s@),
        WireValue::BoolValue(b) => WireModel::BoolValue(b),
        WireValue::MapValue(es) => WireModel::MapValue(wire_entry_models_of(es@)),
        WireValue::ListValue(xs) => WireModel::ListValue(wire_models_of(xs@)),
        WireValue::SetValue(xs) => WireModel::SetValue(wire_models_of(xs@)),
        WireValue::SentinelValue(s) => WireModel::SentinelValue(s),
        WireValue::Absent => WireModel::Absent,
    }
}

impl View for WireValue {
    type V = WireModel;

    open spec fn view(&self) -> WireModel {
        wire_model(*self)
    }
}

impl View for WireEntry {
    type V = WireEntryModel;

    open spec fn view(&self) -> WireEntryModel {
        wire_entry_model(*self)
    }
}

/// `wire_models_of` maps each element to its model.
pub proof fn lemma_wire_models_of(s: Seq<WireValue>)
    ensures
        wire_models_of(s).len() == s.len(),
        forall|i: int| 0 <= i < s.len() ==> wire_models_of(s)[i] == wire_model(#[trigger] s[i]),
    decreases s,
{
    if s.len() > 0 {
        lemma_wire_models_of(s.skip(1));
        assert forall|i: int| 0 <= i < s.len() implies wire_models_of(s)[i] == wire_model(
            #[trigger] s[i],
        ) by {
            if i > 0 {
                assert(s.skip(1)[i - 1] == s[i]);
            }
        }
    }
}

/// `wire_entry_models_of` maps each entry to its model.
pub proof fn lemma_wire_entry_models_of(s: Seq<WireEntry>)
    ensures
        wire_entry_models_of(s).len() == s.len(),
        forall|i: int|
            0 <= i < s.len() ==> wire_entry_models_of(s)[i] == wire_entry_model(#[trigger] s[i]),
    decreases s,
{
    if s.len() > 0 {
        lemma_wire_entry_models_of(s.skip(1));
        assert forall|i: int| 0 <= i < s.len() implies wire_entry_models_of(s)[i]
            == wire_entry_model(#[trigger] s[i]) by {
            if i > 0 {
                assert(s.skip(1)[i - 1] == s[i]);
            }
        }
    }
}

/// What encoding produces for each value: maps become entry lists in their
/// canonical (key-sorted) order, sets become plain lists, absence stands for
/// the none value.
pub open spec fn encode_model(v: ValueModel) -> WireModel
    decreases v,
{
    match v {
        ValueModel::Int(i) => WireModel::IntValue(i),
        ValueModel::Str(s) => WireModel::StrValue(s),
        ValueModel::Bool(b) => WireModel::BoolValue(b),
        ValueModel::MapVal(es) => WireModel::MapValue(encode_entries(es)),
        ValueModel::ListVal(xs) => WireModel::ListValue(encode_list(xs)),
        ValueModel::SetVal(xs) => WireModel::ListValue(encode_list(xs)),
        ValueModel::Sentinel(s) => WireModel::SentinelValue(s),
        ValueModel::NoneVal => WireModel::Absent,
    }
}

/// Elementwise encoding of a value sequence.
pub open spec fn encode_list(xs: Seq<ValueModel>) -> Seq<WireModel>
    decreases xs,
{
    if xs.len() == 0 {
        Seq::empty()
    } else {
        seq![encode_model(xs[0])] + encode_list(xs.skip(1))
    }
}

/// Entrywise encoding of an entry sequence; both fields are present.
pub open spec fn encode_entries(es: Seq<(ValueModel, ValueModel)>) -> Seq<WireEntryModel>
    decreases es,
{
    if es.len() == 0 {
        Seq::empty()
    } else {
        seq![
            WireEntryModel {
                key: Some(encode_model(es[0].0)),
                value: Some(encode_model(es[0].1)),
            },
        ] + encode_entries(es.skip(1))
    }
}

/// `encode_list` maps each element to its encoding.
pub proof fn lemma_encode_list(xs: Seq<ValueModel>)
    ensures
        encode_list(xs).len() == xs.len(),
        forall|i: int|
            0 <= i < xs.len() ==> encode_list(xs)[i] == encode_model(#[trigger] xs[i]),
    decreases xs,
{
    if xs.len() > 0 {
        lemma_encode_list(xs.skip(1));
        assert forall|i: int| 0 <= i < xs.len() implies encode_list(xs)[i] == encode_model(
            #[trigger] xs[i],
        ) by {
            if i > 0 {
                assert(xs.skip(1)[i - 1] == xs[i]);
            }
        }
    }
}

/// `encode_entries` maps each entry to its encoding.
pub proof fn lemma_encode_entries(es: Seq<(ValueModel, ValueModel)>)
    ensures
        encode_entries(es).len() == es.len(),
        forall|i: int|
            0 <= i < es.len() ==> encode_entries(es)[i] == (WireEntryModel {
                key: Some(encode_model((#[trigger] es[i]).0)),
                value: Some(encode_model(es[i].1)),
            }),
    decreases es,
{
    if es.len() > 0 {
        lemma_encode_entries(es.skip(1));
        assert forall|i: int| 0 <= i < es.len() implies encode_entries(es)[i] == (WireEntryModel {
            key: Some(encode_model((#[trigger] es[i]).0)),
            value: Some(encode_model(es[i].1)),
        }) by {
            if i > 0 {
                assert(es.skip(1)[i - 1] == es[i]);
            }
        }
    }
}

/// The message of a decoder error on a map entry without a key.
pub open spec fn key_missing_msg() -> Seq<char> {
    "MapEntry key is missing."@
}

/// The message of a decoder error on a map entry without a value.
pub open spec fn value_missing_msg() -> Seq<char> {
    "MapEntry value is missing."@
}

/// The message of the decoder's refusal of a wire kind it does not support.
pub open spec fn unsupported_kind_msg() -> Seq<char> {
    "Unsupported wire value kind for conversion."@
}

/// What decoding produces for each wire value. Absence decodes to the none
/// value, never to an error; a set kind on the wire is refused with the
/// deliberate-refusal error kind, so a caller can tell "malformed" from "not
/// yet supported"; a decoded map is brought into canonical form, a later
/// entry for a key overriding an earlier one.
pub open spec fn decode_model(w: WireModel) -> Result<ValueModel, ErrorModel>
    decreases w,
{
    match w {
        WireModel::IntValue(i) => Ok(ValueModel::Int(i)),
        WireModel::StrValue(s) => Ok(ValueModel::Str(s)),
        WireModel::BoolValue(b) => Ok(ValueModel::Bool(b)),
        WireModel::MapValue(entries) => match decode_entries(entries) {
            Ok(es) => Ok(ValueModel::MapVal(canon_entries(es))),
            Err(e) => Err(e),
        },
        WireModel::ListValue(items) => match decode_list(items) {
            Ok(xs) => Ok(ValueModel::ListVal(xs)),
            Err(e) => Err(e),
        },
        WireModel::SetValue(_) => Err(ErrorModel::NotImplemented(unsupported_kind_msg())),
        WireModel::SentinelValue(s) => Ok(ValueModel::Sentinel(s)),
        WireModel::Absent => Ok(ValueModel::NoneVal),
    }
}

/// Entrywise decoding; the first failure wins, a missing key or value is an
/// ordinary (critical) error.
pub open spec fn decode_entries(entries: Seq<WireEntryModel>) -> Result<
    Seq<(ValueModel, ValueModel)>,
    ErrorModel,
>
    decreases entries,
{
    if entries.len() == 0 {
        Ok(Seq::empty())
    } else {
        match entries[0].key {
            None => Err(ErrorModel::Other(key_missing_msg())),
            Some(kw) => match entries[0].value {
                None => Err(ErrorModel::Other(value_missing_msg())),
                Some(vw) => match decode_model(kw) {
                    Err(e) => Err(e),
                    Ok(k) => match decode_model(vw) {
                        Err(e) => Err(e),
                        Ok(v) => match decode_entries(entries.skip(1)) {
                            Err(e) => Err(e),
                            Ok(rest) => Ok(seq![(k, v)] + rest),
                        },
                    },
                },
            },
        }
    }
}

/// Elementwise decoding; the first failure wins.
pub open spec fn decode_list(items: Seq<WireModel>) -> Result<Seq<ValueModel>, ErrorModel>
    decreases items,
{
    if items.len() == 0 {
        Ok(Seq::empty())
    } else {
        match decode_model(items[0]) {
            Err(e) => Err(e),
            Ok(v) => match decode_list(items.skip(1)) {
                Err(e) => Err(e),
                Ok(rest) => Ok(seq![v] + rest),
            },
        }
    }
}

/// The decoder result and its model agree: same success or the same error.
pub open spec fn decode_results_match(
    r: Result<Value, MbtError>,
    m: Result<ValueModel, ErrorModel>,
) -> bool {
    match (r, m) {
        (Ok(v), Ok(vm)) => v@ == vm,
        (Err(e), Err(em)) => e@ == em,
        _ => false,
    }
}


/// Prepends already decoded entries to the outcome of decoding the rest.
pub open spec fn prepend_entries_ok(
    ds: Seq<(ValueModel, ValueModel)>,
    r: Result<Seq<(ValueModel, ValueModel)>, ErrorModel>,
) -> Result<Seq<(ValueModel, ValueModel)>, ErrorModel> {
    match r {
        Ok(rest) => Ok(ds + rest),
        Err(e) => Err(e),
    }
}

/// Prepends already decoded elements to the outcome of decoding the rest.
pub open spec fn prepend_list_ok(
    ds: Seq<ValueModel>,
    r: Result<Seq<ValueModel>, ErrorModel>,
) -> Result<Seq<ValueModel>, ErrorModel> {
    match r {
        Ok(rest) => Ok(ds + rest),
        Err(e) => Err(e),
    }
}

/// Whatever decoding accepts is well formed: decoded maps and lists are
/// canonical.
pub proof fn lemma_decode_wf(w: WireModel)
    ensures
        decode_model(w) matches Ok(m) ==> wf(m),
    decreases w,
{
    match w {
        WireModel::MapValue(entries) => {
            lemma_decode_entries_wf(entries);
            if decode_entries(entries) is Ok {
                let es = decode_entries(entries)->Ok_0;
                lemma_canon_entries(es);
                lemma_canon_entries_wf(es);
            }
        },
        WireModel::ListValue(items) => {
            lemma_decode_list_wf(items);
        },
        _ => {},
    }
}

/// Every entry of a successfully decoded entry sequence is well formed.
pub proof fn lemma_decode_entries_wf(entries: Seq<WireEntryModel>)
    ensures
        decode_entries(entries) matches Ok(es) ==> forall|i: int|
            #![auto]
            0 <= i < es.len() ==> wf(es[i].0) && wf(es[i].1),
    decreases entries,
{
    if entries.len() > 0 {
        match entries[0].key {
            Some(kw) => {
                lemma_decode_wf(kw);
                match entries[0].value {
                    Some(vw) => {
                        lemma_decode_wf(vw);
                        lemma_decode_entries_wf(entries.skip(1));
                        if decode_entries(entries) is Ok {
                            let es = decode_entries(entries)->Ok_0;
                            let rest = decode_entries(entries.skip(1))->Ok_0;
                            assert forall|i: int|
                                #![auto]
                                0 <= i < es.len() implies wf(es[i].0) && wf(es[i].1) by {
                                if i > 0 {
                                    assert(es[i] == rest[i - 1]);
                                }
                            }
                        }
                    },
                    None => {},
                }
            },
            None => {},
        }
    }
}

/// Every element of a successfully decoded value sequence is well formed.
pub proof fn lemma_decode_list_wf(items: Seq<WireModel>)
    ensures
        decode_list(items) matches Ok(xs) ==> forall|i: int|
            #![auto]
            0 <= i < xs.len() ==> wf(xs[i]),
    decreases items,
{
    if items.len() > 0 {
        lemma_decode_wf(items[0]);
        lemma_decode_list_wf(items.skip(1));
        if decode_list(items) is Ok {
            let xs = decode_list(items)->Ok_0;
            let rest = decode_list(items.skip(1))->Ok_0;
            assert forall|i: int| #![auto] 0 <= i < xs.len() implies wf(xs[i]) by {
                if i > 0 {
                    assert(xs[i] == rest[i - 1]);
                }
            }
        }
    }
}

/// Converts an internal value into its wire representation.
pub fn rust_value_to_proto_value(rust_value: Value) -> (r: WireValue)
    ensures
        r@ == encode_model(rust_value@),
{
    encode_value(&rust_value)
}

/// Recursive encoder over a borrowed value.
#[verifier::loop_isolation(false)]
fn encode_value(v: &Value) -> (r: WireValue)
    ensures
        r@ == encode_model(v@),
    decreases *v,
{
    match v {
        Value::Int(i) => WireValue::IntValue(*i),
        Value::Str(s) => WireValue::StrValue(s.clone()),
        Value::Bool(b) => WireValue::BoolValue(*b),
        Value::Sentinel(s) => WireValue::SentinelValue(*s),
        Value::NoneVal => WireValue::Absent,
        Value::MapVal(es) => {
            let mut items: Vec<WireEntry> = Vec::new();
            let n = es.len();
            let mut i: usize = 0;
            while i < n
                invariant
                    i <= n,
                    n == es@.len(),
                    items@.len() == i,
                    forall|p: int|
                        0 <= p < i ==> wire_entry_model(#[trigger] items@[p]) == (WireEntryModel {
                            key: Some(encode_model(es@[p].0@)),
                            value: Some(encode_model(es@[p].1@)),
                        }),
                decreases n - i,
            {
                proof {
                    assert(decreases_to!(*v => (*v)->MapVal_0));
                    assert(decreases_to!((*v)->MapVal_0 => (*v)->MapVal_0@));
                    assert((*v)->MapVal_0@ == es@);
                    assert(decreases_to!(*v => es@));
                    assert(decreases_to!(es@ => es@[i as int]));
                    assert(decreases_to!(es@[i as int] => es@[i as int].0));
                    assert(decreases_to!(es@[i as int] => es@[i as int].1));
                }
                let k = encode_value(&es[i].0);
                let val = encode_value(&es[i].1);
                let ghost pre = items@;
                items.push(WireEntry { key: Some(k), value: Some(val) });
                proof {
                    assert forall|p: int|
                        0 <= p < i + 1 implies wire_entry_model(#[trigger] items@[p])
                        == (WireEntryModel {
                        key: Some(encode_model(es@[p].0@)),
                        value: Some(encode_model(es@[p].1@)),
                    }) by {
                        if p < i {
                            assert(items@[p] == pre[p]);
                        }
                    }
                }
                i = i + 1;
            }
            proof {
                lemma_wire_entry_models_of(items@);
                lemma_entry_models_of(es@);
                lemma_encode_entries(entry_models_of(es@));
                let ems = entry_models_of(es@);
                assert(wire_entry_models_of(items@) =~= encode_entries(ems)) by {
                    assert forall|p: int|
                        0 <= p < n implies wire_entry_models_of(items@)[p] == encode_entries(
                        ems,
                    )[p] by {
                        assert(wire_entry_models_of(items@)[p] == wire_entry_model(items@[p]));
                        assert(ems[p] == (es@[p].0@, es@[p].1@));
                    }
                }
            }
            WireValue::MapValue(items)
        },
        Value::ListVal(xs) => {
            let mut items: Vec<WireValue> = Vec::new();
            let n = xs.len();
            let mut i: usize = 0;
            while i < n
                invariant
                    i <= n,
                    n == xs@.len(),
                    items@.len() == i,
                    forall|p: int|
                        0 <= p < i ==> wire_model(#[trigger] items@[p]) == encode_model(xs@[p]@),
                decreases n - i,
            {
                proof {
                    if v is ListVal {
                        assert(decreases_to!(*v => (*v)->ListVal_0));
                        assert(decreases_to!((*v)->ListVal_0 => (*v)->ListVal_0@));
                        assert((*v)->ListVal_0@ == xs@);
                    } else {
                        assert(decreases_to!(*v => (*v)->SetVal_0));
                        assert(decreases_to!((*v)->SetVal_0 => (*v)->SetVal_0@));
                        assert((*v)->SetVal_0@ == xs@);
                    }
                    assert(decreases_to!(*v => xs@));
                    assert(decreases_to!(xs@ => xs@[i as int]));
                }
                let w = encode_value(&xs[i]);
                let ghost pre = items@;
                items.push(w);
                proof {
                    assert forall|p: int|
                        0 <= p < i + 1 implies wire_model(#[trigger] items@[p]) == encode_model(
                        xs@[p]@,
                    ) by {
                        if p < i {
                            assert(items@[p] == pre[p]);
                        }
                    }
                }
                i = i + 1;
            }
            proof {
                lemma_wire_models_of(items@);
                lemma_models_of(xs@);
                lemma_encode_list(models_of(xs@));
                let ms = models_of(xs@);
                assert(wire_models_of(items@) =~= encode_list(ms)) by {
                    assert forall|p: int|
                        0 <= p < n implies wire_models_of(items@)[p] == encode_list(ms)[p] by {
                        assert(wire_models_of(items@)[p] == wire_model(items@[p]));
                        assert(ms[p] == xs@[p]@);
                    }
                }
            }
            WireValue::ListValue(items)
        },
        Value::SetVal(xs) => {
            let mut items: Vec<WireValue> = Vec::new();
            let n = xs.len();
            let mut i: usize = 0;
            while i < n
                invariant
                    i <= n,
                    n == xs@.len(),
                    items@.len() == i,
                    forall|p: int|
                        0 <= p < i ==> wire_model(#[trigger] items@[p]) == encode_model(xs@[p]@),
                decreases n - i,
            {
                proof {
                    if v is ListVal {
                        assert(decreases_to!(*v => (*v)->ListVal_0));
                        assert(decreases_to!((*v)->ListVal_0 => (*v)->ListVal_0@));
                        assert((*v)->ListVal_0@ == xs@);
                    } else {
                        assert(decreases_to!(*v => (*v)->SetVal_0));
                        assert(decreases_to!((*v)->SetVal_0 => (*v)->SetVal_0@));
                        assert((*v)->SetVal_0@ == xs@);
                    }
                    assert(decreases_to!(*v => xs@));
                    assert(decreases_to!(xs@ => xs@[i as int]));
                }
                let w = encode_value(&xs[i]);
                let ghost pre = items@;
                items.push(w);
                proof {
                    assert forall|p: int|
                        0 <= p < i + 1 implies wire_model(#[trigger] items@[p]) == encode_model(
                        xs@[p]@,
                    ) by {
                        if p < i {
                            assert(items@[p] == pre[p]);
                        }
                    }
                }
                i = i + 1;
            }
            proof {
                lemma_wire_models_of(items@);
                lemma_models_of(xs@);
                lemma_encode_list(models_of(xs@));
                let ms = models_of(xs@);
                assert(wire_models_of(items@) =~= encode_list(ms)) by {
                    assert forall|p: int|
                        0 <= p < n implies wire_models_of(items@)[p] == encode_list(ms)[p] by {
                        assert(wire_models_of(items@)[p] == wire_model(items@[p]));
                        assert(ms[p] == xs@[p]@);
                    }
                }
            }
            // A set is sent as a plain list: order carries no meaning on the
            // wire and the stored order is already canonical.
            WireValue::ListValue(items)
        },
    }
}

/// Converts a wire value back into an internal value, or reports why it
/// cannot be.
pub fn proto_value_to_rust_value(proto_value: WireValue) -> (r: Result<Value, MbtError>)
    ensures
        decode_results_match(r, decode_model(proto_value@)),
{
    decode_value(&proto_value)
}

/// Converts a borrowed wire value back into an internal value.
pub fn proto_value_to_rust_value_ref(w: &WireValue) -> (r: Result<Value, MbtError>)
    ensures
        decode_results_match(r, decode_model(w@)),
{
    decode_value(w)
}

/// Recursive decoder over a borrowed wire value.
#[verifier::loop_isolation(false)]
fn decode_value(w: &WireValue) -> (r: Result<Value, MbtError>)
    ensures
        decode_results_match(r, decode_model(w@)),
    decreases *w,
{
    match w {
        WireValue::IntValue(i) => Ok(Value::Int(*i)),
        WireValue::StrValue(s) => Ok(Value::Str(s.clone())),
        WireValue::BoolValue(b) => Ok(Value::Bool(*b)),
        WireValue::SentinelValue(s) => Ok(Value::Sentinel(*s)),
        WireValue::Absent => Ok(Value::NoneVal),
        WireValue::SetValue(_) => Err(
            MbtError::not_implemented(
                String::from_str("Unsupported wire value kind for conversion."),
            ),
        ),
        WireValue::MapValue(entries) => {
            let ghost wems = wire_entry_models_of(entries@);
            proof {
                lemma_wire_entry_models_of(entries@);
            }
            let mut decoded: Vec<(Value, Value)> = Vec::new();
            let n = entries.len();
            let mut i: usize = 0;
            proof {
                assert(entry_models_of(decoded@) == Seq::<(ValueModel, ValueModel)>::empty());
                assert(wems.skip(0) =~= wems);
                match decode_entries(wems) {
                    Ok(rest) => {
                        assert(Seq::<(ValueModel, ValueModel)>::empty() + rest =~= rest);
                    },
                    Err(_) => {},
                }
            }
            while i < n
                invariant
                    i <= n,
                    n == entries@.len(),
                    wems == wire_entry_models_of(entries@),
                    wems.len() == n,
                    decoded@.len() == i,
                    decode_entries(wems) == prepend_entries_ok(
                        entry_models_of(decoded@),
                        decode_entries(wems.skip(i as int)),
                    ),
                    forall|p: int| #![auto] 0 <= p < i ==> wf(decoded@[p].0@) && wf(decoded@[p].1@),
                decreases n - i,
            {
                proof {
                    lemma_wire_entry_models_of(entries@);
                    lemma_entry_models_of(decoded@);
                    assert(wems.skip(i as int)[0] == wems[i as int]);
                    assert(wems[i as int] == wire_entry_model(entries@[i as int]));
                }
                let ghost ds = entry_models_of(decoded@);
                let entry = &entries[i];
                let kw = match &entry.key {
                    Some(kw) => kw,
                    None => {
                        let msg = String::from_str("MapEntry key is missing.");
                        proof {
                            assert(wems[i as int].key is None);
                            assert(decode_entries(wems.skip(i as int)) == Err::<
                                Seq<(ValueModel, ValueModel)>,
                                ErrorModel,
                            >(ErrorModel::Other(key_missing_msg())));
                            assert(msg@ == key_missing_msg());
                        }
                        return Err(MbtError::other(msg));
                    },
                };
                let vw = match &entry.value {
                    Some(vw) => vw,
                    None => {
                        let msg = String::from_str("MapEntry value is missing.");
                        proof {
                            assert(wems[i as int].key == Some(wire_model(*kw)));
                            assert(wems[i as int].value is None);
                            assert(decode_entries(wems.skip(i as int)) == Err::<
                                Seq<(ValueModel, ValueModel)>,
                                ErrorModel,
                            >(ErrorModel::Other(value_missing_msg())));
                            assert(msg@ == value_missing_msg());
                        }
                        return Err(MbtError::other(msg));
                    },
                };
                proof {
                    assert(wems[i as int].key == Some(wire_model(*kw)));
                    assert(wems[i as int].value == Some(wire_model(*vw)));
                    assert(decreases_to!(*w => (*w)->MapValue_0));
                    assert(decreases_to!((*w)->MapValue_0 => (*w)->MapValue_0@));
                    assert((*w)->MapValue_0@ == entries@);
                    assert(decreases_to!(*w => entries@));
                    assert(decreases_to!(entries@ => entries@[i as int]));
                    assert(decreases_to!(entries@[i as int] => entries@[i as int].key));
                    assert(decreases_to!(entries@[i as int].key => entries@[i as int].key->0));
                    assert(decreases_to!(entries@[i as int] => entries@[i as int].value));
                    assert(decreases_to!(entries@[i as int].value => entries@[i as int].value->0));
                }
                let k = match decode_value(kw) {
                    Ok(k) => k,
                    Err(e) => {
                        proof {
                            assert(decode_model(wire_model(*kw)) == Err::<ValueModel, ErrorModel>(
                                e@,
                            ));
                            assert(decode_entries(wems.skip(i as int)) == Err::<
                                Seq<(ValueModel, ValueModel)>,
                                ErrorModel,
                            >(e@));
                        }
                        return Err(e);
                    },
                };
                proof {
                    lemma_decode_wf(kw@);
                }
                let vv = match decode_value(vw) {
                    Ok(vv) => vv,
                    Err(e) => {
                        proof {
                            assert(decode_model(wire_model(*kw)) == Ok::<ValueModel, ErrorModel>(
                                k@,
                            ));
                            assert(decode_model(wire_model(*vw)) == Err::<ValueModel, ErrorModel>(
                                e@,
                            ));
                            assert(decode_entries(wems.skip(i as int)) == Err::<
                                Seq<(ValueModel, ValueModel)>,
                                ErrorModel,
                            >(e@));
                        }
                        return Err(e);
                    },
                };
                proof {
                    lemma_decode_wf(vw@);
                }
                let ghost pre = decoded@;
                decoded.push((k, vv));
                proof {
                    lemma_entry_models_of(decoded@);
                    assert(entry_models_of(decoded@) =~= ds + seq![(k@, vv@)]) by {
                        assert forall|p: int|
                            0 <= p < decoded@.len() implies entry_models_of(decoded@)[p] == (ds
                            + seq![(k@, vv@)])[p] by {
                            assert(entry_models_of(decoded@)[p] == (
                                decoded@[p].0@,
                                decoded@[p].1@,
                            ));
                            if p < i {
                                assert(decoded@[p] == pre[p]);
                                assert(ds[p] == (pre[p].0@, pre[p].1@));
                            } else {
                                assert(decoded@[p] == (k, vv));
                            }
                        }
                    }
                    assert forall|p: int| #![auto] 0 <= p < i + 1 implies wf(decoded@[p].0@) && wf(
                        decoded@[p].1@,
                    ) by {
                        if p < i {
                            assert(decoded@[p] == pre[p]);
                        } else {
                            assert(decoded@[p] == (k, vv));
                        }
                    }
                    assert(wems.skip(i as int).skip(1) =~= wems.skip(i as int + 1));
                    assert(decode_entries(wems.skip(i as int)) == prepend_entries_ok(
                        seq![(k@, vv@)],
                        decode_entries(wems.skip(i as int + 1)),
                    ));
                    match decode_entries(wems.skip(i as int + 1)) {
                        Ok(rest) => {
                            assert((ds + (seq![(k@, vv@)] + rest)) =~= ((ds + seq![(k@, vv@)])
                                + rest));
                        },
                        Err(_) => {},
                    }
                }
                i = i + 1;
            }
            proof {
                assert(wems.skip(n as int) =~= Seq::<WireEntryModel>::empty());
                assert(decode_entries(wems.skip(n as int)) == Ok::<
                    Seq<(ValueModel, ValueModel)>,
                    ErrorModel,
                >(Seq::empty()));
                assert(entry_models_of(decoded@) + Seq::<(ValueModel, ValueModel)>::empty()
                    =~= entry_models_of(decoded@));
            }
            let mv = Value::from_map(decoded);
            Ok(mv)
        },
        WireValue::ListValue(items) => {
            let ghost wms = wire_models_of(items@);
            proof {
                lemma_wire_models_of(items@);
            }
            let mut decoded: Vec<Value> = Vec::new();
            let n = items.len();
            let mut i: usize = 0;
            proof {
                assert(models_of(decoded@) == Seq::<ValueModel>::empty());
                assert(wms.skip(0) =~= wms);
                match decode_list(wms) {
                    Ok(rest) => {
                        assert(Seq::<ValueModel>::empty() + rest =~= rest);
                    },
                    Err(_) => {},
                }
            }
            while i < n
                invariant
                    i <= n,
                    n == items@.len(),
                    wms == wire_models_of(items@),
                    wms.len() == n,
                    decoded@.len() == i,
                    decode_list(wms) == prepend_list_ok(
                        models_of(decoded@),
                        decode_list(wms.skip(i as int)),
                    ),
                decreases n - i,
            {
                proof {
                    lemma_wire_models_of(items@);
                    lemma_models_of(decoded@);
                    assert(wms.skip(i as int)[0] == wms[i as int]);
                    assert(wms[i as int] == wire_model(items@[i as int]));
                    assert(decreases_to!(*w => (*w)->ListValue_0));
                    assert(decreases_to!((*w)->ListValue_0 => (*w)->ListValue_0@));
                    assert((*w)->ListValue_0@ == items@);
                    assert(decreases_to!(*w => items@));
                    assert(decreases_to!(items@ => items@[i as int]));
                }
                let ghost ds = models_of(decoded@);
                let x = match decode_value(&items[i]) {
                    Ok(x) => x,
                    Err(e) => {
                        proof {
                            assert(decode_model(wire_model(items@[i as int])) == Err::<
                                ValueModel,
                                ErrorModel,
                            >(e@));
                            assert(decode_list(wms.skip(i as int)) == Err::<
                                Seq<ValueModel>,
                                ErrorModel,
                            >(e@));
                        }
                        return Err(e);
                    },
                };
                let ghost pre = decoded@;
                decoded.push(x);
                proof {
                    lemma_models_of(decoded@);
                    assert(models_of(decoded@) =~= ds + seq![x@]) by {
                        assert forall|p: int|
                            0 <= p < decoded@.len() implies models_of(decoded@)[p] == (ds
                            + seq![x@])[p] by {
                            if p < i {
                                assert(decoded@[p] == pre[p]);
                            } else {
                                assert(decoded@[p] == x);
                            }
                        }
                    }
                    assert(wms.skip(i as int).skip(1) =~= wms.skip(i as int + 1));
                    assert(decode_list(wms.skip(i as int)) == prepend_list_ok(
                        seq![x@],
                        decode_list(wms.skip(i as int + 1)),
                    ));
                    match decode_list(wms.skip(i as int + 1)) {
                        Ok(rest) => {
                            assert((ds + (seq![x@] + rest)) =~= ((ds + seq![x@]) + rest));
                        },
                        Err(_) => {},
                    }
                }
                i = i + 1;
            }
            proof {
                assert(wms.skip(n as int) =~= Seq::<WireModel>::empty());
                assert(decode_list(wms.skip(n as int)) == Ok::<Seq<ValueModel>, ErrorModel>(
                    Seq::empty(),
                ));
                assert(models_of(decoded@) + Seq::<ValueModel>::empty() =~= models_of(decoded@));
            }
            let lv = Value::from_list(decoded);
            Ok(lv)
        },
    }
}


/// No set value occurs anywhere in the model: the one shape the codec does
/// not round-trip, since a set is sent as a plain list.
pub open spec fn set_free(v: ValueModel) -> bool
    decreases v,
{
    match v {
        ValueModel::MapVal(es) => forall|i: int|
            #![auto]
            0 <= i < es.len() ==> set_free(es[i].0) && set_free(es[i].1),
        ValueModel::ListVal(xs) => forall|i: int| #![auto] 0 <= i < xs.len() ==> set_free(xs[i]),
        ValueModel::SetVal(_) => false,
        _ => true,
    }
}

/// Round trip: decoding an encoded value gives the value back, for every
/// well-formed value that contains no set.
pub proof fn lemma_round_trip(v: ValueModel)
    requires
        wf(v),
        set_free(v),
    ensures
        decode_model(encode_model(v)) == Ok::<ValueModel, ErrorModel>(v),
    decreases v,
{
    match v {
        ValueModel::MapVal(es) => {
            lemma_round_trip_entries(es);
            lemma_canon_sorted_id(es);
        },
        ValueModel::ListVal(xs) => {
            lemma_round_trip_list(xs);
        },
        _ => {},
    }
}

/// Round trip of an entry sequence, entry by entry.
pub proof fn lemma_round_trip_entries(es: Seq<(ValueModel, ValueModel)>)
    requires
        forall|i: int|
            #![auto]
            0 <= i < es.len() ==> wf(es[i].0) && wf(es[i].1) && set_free(es[i].0) && set_free(
                es[i].1,
            ),
    ensures
        decode_entries(encode_entries(es)) == Ok::<Seq<(ValueModel, ValueModel)>, ErrorModel>(es),
    decreases es,
{
    if es.len() == 0 {
        assert(decode_entries(encode_entries(es)) == Ok::<
            Seq<(ValueModel, ValueModel)>,
            ErrorModel,
        >(Seq::empty()));
        assert(es =~= Seq::<(ValueModel, ValueModel)>::empty());
    } else {
        lemma_round_trip(es[0].0);
        lemma_round_trip(es[0].1);
        assert forall|i: int|
            #![auto]
            0 <= i < es.skip(1).len() implies wf(es.skip(1)[i].0) && wf(es.skip(1)[i].1)
            && set_free(es.skip(1)[i].0) && set_free(es.skip(1)[i].1) by {
            assert(es.skip(1)[i] == es[i + 1]);
        }
        lemma_round_trip_entries(es.skip(1));
        let ws = encode_entries(es);
        assert(ws[0] == (WireEntryModel {
            key: Some(encode_model(es[0].0)),
            value: Some(encode_model(es[0].1)),
        }));
        assert(ws.skip(1) =~= encode_entries(es.skip(1)));
        assert(seq![(es[0].0, es[0].1)] + es.skip(1) =~= es);
    }
}

/// Round trip of a value sequence, element by element.
pub proof fn lemma_round_trip_list(xs: Seq<ValueModel>)
    requires
        forall|i: int| #![auto] 0 <= i < xs.len() ==> wf(xs[i]) && set_free(xs[i]),
    ensures
        decode_list(encode_list(xs)) == Ok::<Seq<ValueModel>, ErrorModel>(xs),
    decreases xs,
{
    if xs.len() == 0 {
        assert(decode_list(encode_list(xs)) == Ok::<Seq<ValueModel>, ErrorModel>(Seq::empty()));
        assert(xs =~= Seq::<ValueModel>::empty());
    } else {
        lemma_round_trip(xs[0]);
        assert forall|i: int|
            #![auto]
            0 <= i < xs.skip(1).len() implies wf(xs.skip(1)[i]) && set_free(xs.skip(1)[i]) by {
            assert(xs.skip(1)[i] == xs[i + 1]);
        }
        lemma_round_trip_list(xs.skip(1));
        let ws = encode_list(xs);
        assert(ws[0] == encode_model(xs[0]));
        assert(ws.skip(1) =~= encode_list(xs.skip(1)));
        assert(seq![xs[0]] + xs.skip(1) =~= xs);
    }
}

/// Map-encoding determinism: entry sequences that spell out the same
/// key-to-value mapping - the same entries, in any insertion order - have
/// one canonical form, so the map values built from them are equal and
/// encode to identical ordered entry lists.
pub proof fn lemma_map_encoding_deterministic(
    e1: Seq<(ValueModel, ValueModel)>,
    e2: Seq<(ValueModel, ValueModel)>,
)
    requires
        map_of(e1) == map_of(e2),
    ensures
        canon_entries(e1) == canon_entries(e2),
        encode_model(ValueModel::MapVal(canon_entries(e1))) == encode_model(
            ValueModel::MapVal(canon_entries(e2)),
        ),
{
    lemma_canon_entries(e1);
    lemma_canon_entries(e2);
    lemma_sorted_entries_unique(canon_entries(e1), canon_entries(e2));
}

/// Set encoding is order-insensitive: element sequences with the same
/// elements, in any order and with any repetitions, have one canonical form,
/// so the set values built from them are equal and encode identically.
pub proof fn lemma_set_encoding_order_insensitive(x1: Seq<ValueModel>, x2: Seq<ValueModel>)
    requires
        set_of(x1) == set_of(x2),
    ensures
        canon_vals(x1) == canon_vals(x2),
        encode_model(ValueModel::SetVal(canon_vals(x1))) == encode_model(
            ValueModel::SetVal(canon_vals(x2)),
        ),
{
    lemma_canon_vals(x1);
    lemma_canon_vals(x2);
    lemma_sorted_vals_unique(canon_vals(x1), canon_vals(x2));
}

/// A set value is encoded as a plain list of exactly its elements, and that
/// encoding decodes as the list of them (never back into a set).
pub proof fn lemma_set_encodes_as_list(xs: Seq<ValueModel>)
    requires
        forall|i: int| #![auto] 0 <= i < xs.len() ==> wf(xs[i]) && set_free(xs[i]),
    ensures
        encode_model(ValueModel::SetVal(xs)) == WireModel::ListValue(encode_list(xs)),
        encode_list(xs).len() == xs.len(),
        forall|i: int|
            0 <= i < xs.len() ==> encode_list(xs)[i] == encode_model(#[trigger] xs[i]),
        decode_model(encode_model(ValueModel::SetVal(xs))) == Ok::<ValueModel, ErrorModel>(
            ValueModel::ListVal(xs),
        ),
{
    lemma_encode_list(xs);
    lemma_round_trip_list(xs);
}

} // verus!
