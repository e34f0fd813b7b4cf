//! The wire schema of the RPC channel, as plain data: role references,
//! statuses, requests and responses, and the conversions between wire
//! messages and the bridge's own types.

use vstd::prelude::*;
use vstd::string::StringExecFns;
use crate::codec::{
    decode_model, lemma_decode_wf, WireModel, WireValue, wire_model,
};
use crate::error::{ErrorModel, MbtError};
use crate::order::wf;
use crate::types::{Arg, RoleId};
use crate::value::ValueModel;

verus! {

/// A reference to one role instance on the wire.
#[derive(Debug, PartialEq, Eq)]
pub struct RoleRef {
    pub role_name: String,
    pub role_id: i32,
}

impl RoleRef {
    /// An owned copy of the reference.
    pub fn duplicate(&self) -> (r: RoleRef)
        ensures
            r.role_name@ == self.role_name@,
            r.role_id == self.role_id,
    {
        RoleRef { role_name: self.role_name.clone(), role_id: self.role_id }
    }
}

/// The status codes of the wire protocol.
#[derive(Debug, Clone, Copy, PartialEq, Eq, Structural)]
pub enum StatusCode {
    StatusOk,
    StatusNotImplemented,
    StatusExecutionFailed,
}

/// A status message: a code and a human-readable message.
#[derive(Debug, PartialEq, Eq)]
pub struct WireStatus {
    pub code: StatusCode,
    pub message: String,
}

/// A half-open time interval in nanoseconds since the run-start instant.
#[derive(Debug, Clone, Copy, PartialEq, Eq, Structural)]
pub struct Interval {
    pub start_unix_nano: i64,
    pub end_unix_nano: i64,
}

/// One named argument on the wire; the value is optional in the schema.
#[derive(Debug, PartialEq, Eq)]
pub struct WireArg {
    pub name: String,
    pub value: Option<WireValue>,
}

/// A request to execute one named action on one role.
#[derive(Debug, PartialEq, Eq)]
pub struct ExecuteActionRequest {
    pub role: Option<RoleRef>,
    pub action_name: String,
    pub args: Vec<WireArg>,
}

/// One ordered sequence of action requests.
#[derive(Debug, PartialEq, Eq)]
pub struct ActionSequence {
    pub requests: Vec<ExecuteActionRequest>,
}

/// A request to execute several independent action sequences.
#[derive(Debug, PartialEq, Eq)]
pub struct ExecuteActionSequencesRequest {
    pub action_sequence: Vec<ActionSequence>,
}

/// The outcome of one action: its return values, its time interval, a
/// status, and the refreshed role list where one is carried.
#[derive(Debug, PartialEq, Eq)]
pub struct ExecuteActionResponse {
    pub return_values: Vec<WireValue>,
    pub exec_time: Option<Interval>,
    pub status: Option<WireStatus>,
    pub roles: Vec<RoleRef>,
}

/// The outcomes of one action sequence, in request order.
#[derive(Debug, PartialEq, Eq)]
pub struct ActionSequenceResult {
    pub responses: Vec<ExecuteActionResponse>,
}

/// The outcomes of all sequences of a batched request, in submission order.
#[derive(Debug, PartialEq, Eq)]
pub struct ExecuteActionSequencesResponse {
    pub results: Vec<ActionSequenceResult>,
}

/// The (empty) initialization request.
#[derive(Debug, PartialEq, Eq)]
pub struct InitRequest {

}

/// The response to initialization: a status and the discovered roles.
#[derive(Debug, PartialEq, Eq)]
pub struct InitResponse {
    pub status: Option<WireStatus>,
    pub roles: Vec<RoleRef>,
}

/// The (empty) teardown request.
#[derive(Debug, PartialEq, Eq)]
pub struct CleanupRequest {

}

/// The response to teardown: a status only.
#[derive(Debug, PartialEq, Eq)]
pub struct CleanupResponse {
    pub status: Option<WireStatus>,
}

/// Converts a wire role reference into the bridge's role id. The conversion
/// is total; the fallible signature mirrors the wire boundary.
pub fn proto_ref_to_role_id(proto_ref: RoleRef) -> (r: Result<RoleId, MbtError>)
    ensures
        r matches Ok(id) && id.role_name@ == proto_ref.role_name@ && id.index
            == proto_ref.role_id,
{
    Ok(RoleId { role_name: proto_ref.role_name, index: proto_ref.role_id })
}

/// Converts the bridge's role id into a wire role reference.
pub fn role_id_to_proto_ref(role_id: RoleId) -> (r: RoleRef)
    ensures
        r.role_name@ == role_id.role_name@,
        r.role_id == role_id.index,
{
    RoleRef { role_name: role_id.role_name, role_id: role_id.index }
}

/// Converts a whole role id list into wire references, in order.
pub fn role_ids_to_proto_refs(ids: Vec<RoleId>) -> (r: Vec<RoleRef>)
    ensures
        r@.len() == ids@.len(),
        forall|i: int|
            0 <= i < ids@.len() ==> (#[trigger] r@[i]).role_name@ == ids@[i].role_name@
                && r@[i].role_id == ids@[i].index,
{
    let mut refs: Vec<RoleRef> = Vec::new();
    let mut input = ids;
    let ghost orig = input@;
    let n = input.len();
    let mut i: usize = 0;
    while i < n
        invariant
            i <= n,
            n == orig.len(),
            input@ == orig.skip(i as int),
            refs@.len() == i,
            forall|p: int|
                0 <= p < i ==> (#[trigger] refs@[p]).role_name@ == orig[p].role_name@
                    && refs@[p].role_id == orig[p].index,
        decreases n - i,
    {
        proof {
            assert(input@[0] == orig[i as int]);
        }
        let id = input.remove(0);
        let rr = role_id_to_proto_ref(id);
        refs.push(rr);
        proof {
            assert(input@ =~= orig.skip(i as int + 1));
        }
        i = i + 1;
    }
    refs
}

/// The status reported for success.
pub fn proto_status_ok() -> (r: WireStatus)
    ensures
        r.code == StatusCode::StatusOk,
        r.message@ == "OK"@,
{
    WireStatus { code: StatusCode::StatusOk, message: String::from_str("OK") }
}

/// The status code that reports an error of the given kind.
pub open spec fn code_of_error(e: ErrorModel) -> StatusCode {
    match e {
        ErrorModel::NotImplemented(_) => StatusCode::StatusNotImplemented,
        ErrorModel::Other(_) => StatusCode::StatusExecutionFailed,
    }
}

/// The status message that reports an error.
pub open spec fn status_message_of(e: ErrorModel) -> Seq<char> {
    match e {
        ErrorModel::NotImplemented(m) => "Not Implemented: "@ + m,
        ErrorModel::Other(m) => "Execution Failed: "@ + m,
    }
}

/// Converts an error into the status that reports it: the deliberate-refusal
/// kind gets its own status code, everything else is a generic execution
/// failure.
pub fn mbt_error_to_proto_status(err: MbtError) -> (r: WireStatus)
    ensures
        r.code == code_of_error(err@),
        r.message@ == status_message_of(err@),
{
    if err.is_not_implemented() {
        let message = String::from_str("Not Implemented: ").concat(err.message());
        WireStatus { code: StatusCode::StatusNotImplemented, message }
    } else {
        let message = String::from_str("Execution Failed: ").concat(err.message());
        WireStatus { code: StatusCode::StatusExecutionFailed, message }
    }
}

/// The model of a wire argument: its name and its optional value.
pub open spec fn wire_arg_models_of(s: Seq<WireArg>) -> Seq<(Seq<char>, Option<WireModel>)>
    decreases s,
{
    if s.len() == 0 {
        Seq::empty()
    } else {
        seq![(s[0].name@, opt_model(s[0].value))] + wire_arg_models_of(s.skip(1))
    }
}

/// The model of an optional wire value.
pub open spec fn opt_model(o: Option<WireValue>) -> Option<WireModel> {
    match o {
        Some(w) => Some(wire_model(w)),
        None => None,
    }
}

/// The models of decoded arguments: each name with its decoded value.
pub open spec fn arg_models_of(s: Seq<Arg>) -> Seq<(Seq<char>, ValueModel)>
    decreases s,
{
    if s.len() == 0 {
        Seq::empty()
    } else {
        seq![(s[0].name@, s[0].value@)] + arg_models_of(s.skip(1))
    }
}

/// `wire_arg_models_of`, pointwise.
pub proof fn lemma_wire_arg_models_of(s: Seq<WireArg>)
    ensures
        wire_arg_models_of(s).len() == s.len(),
        forall|i: int|
            0 <= i < s.len() ==> wire_arg_models_of(s)[i] == ((#[trigger] s[i]).name@, opt_model(
                s[i].value,
            )),
    decreases s,
{
    if s.len() > 0 {
        lemma_wire_arg_models_of(s.skip(1));
        assert forall|i: int| 0 <= i < s.len() implies wire_arg_models_of(s)[i] == ((
        #[trigger] s[i]).name@, opt_model(s[i].value)) by {
            if i > 0 {
                assert(s.skip(1)[i - 1] == s[i]);
            }
        }
    }
}

/// `arg_models_of`, pointwise.
pub proof fn lemma_arg_models_of(s: Seq<Arg>)
    ensures
        arg_models_of(s).len() == s.len(),
        forall|i: int|
            0 <= i < s.len() ==> arg_models_of(s)[i] == ((#[trigger] s[i]).name@, s[i].value@),
    decreases s,
{
    if s.len() > 0 {
        lemma_arg_models_of(s.skip(1));
        assert forall|i: int| 0 <= i < s.len() implies arg_models_of(s)[i] == ((
        #[trigger] s[i]).name@, s[i].value@) by {
            if i > 0 {
                assert(s.skip(1)[i - 1] == s[i]);
            }
        }
    }
}

/// The message of the decoder error for an argument without a value.
pub open spec fn missing_arg_value_msg(name: Seq<char>) -> Seq<char> {
    "Value is missing for argument '"@ + name + "'."@
}

/// What argument decoding produces: each value decoded in order, the first
/// failure winning; a missing value is an ordinary (critical) error naming
/// the argument.
pub open spec fn decode_args_model(s: Seq<(Seq<char>, Option<WireModel>)>) -> Result<
    Seq<(Seq<char>, ValueModel)>,
    ErrorModel,
>
    decreases s,
{
    if s.len() == 0 {
        Ok(Seq::empty())
    } else {
        match s[0].1 {
            None => Err(ErrorModel::Other(missing_arg_value_msg(s[0].0))),
            Some(w) => match decode_model(w) {
                Err(e) => Err(e),
                Ok(v) => match decode_args_model(s.skip(1)) {
                    Err(e) => Err(e),
                    Ok(rest) => Ok(seq![(s[0].0, v)] + rest),
                },
            },
        }
    }
}

/// Prepends already decoded arguments to the outcome of decoding the rest.
pub open spec fn prepend_args_ok(
    ds: Seq<(Seq<char>, ValueModel)>,
    r: Result<Seq<(Seq<char>, ValueModel)>, ErrorModel>,
) -> Result<Seq<(Seq<char>, ValueModel)>, ErrorModel> {
    match r {
        Ok(rest) => Ok(ds + rest),
        Err(e) => Err(e),
    }
}

/// Converts a vector of wire arguments into the bridge's arguments, decoding
/// each value; the first failure is reported and every decoded value is well
/// formed.
#[verifier::loop_isolation(false)]
pub fn proto_args_to_rust_args(proto_args: Vec<WireArg>) -> (r: Result<Vec<Arg>, MbtError>)
    ensures
        match (r, decode_args_model(wire_arg_models_of(proto_args@))) {
            (Ok(args), Ok(ms)) => arg_models_of(args@) == ms && forall|i: int|
                #![auto]
                0 <= i < args@.len() ==> wf(args@[i].value@),
            (Err(e), Err(em)) => e@ == em,
            _ => false,
        },
{
    let ghost wams = wire_arg_models_of(proto_args@);
    proof {
        lemma_wire_arg_models_of(proto_args@);
    }
    let mut rust_args: Vec<Arg> = Vec::new();
    let n = proto_args.len();
    let mut i: usize = 0;
    proof {
        assert(arg_models_of(rust_args@) == Seq::<(Seq<char>, ValueModel)>::empty());
        assert(wams.skip(0) =~= wams);
        match decode_args_model(wams) {
            Ok(rest) => {
                assert(Seq::<(Seq<char>, ValueModel)>::empty() + rest =~= rest);
            },
            Err(_) => {},
        }
    }
    while i < n
        invariant
            i <= n,
            n == proto_args@.len(),
            wams == wire_arg_models_of(proto_args@),
            wams.len() == n,
            rust_args@.len() == i,
            decode_args_model(wams) == prepend_args_ok(
                arg_models_of(rust_args@),
                decode_args_model(wams.skip(i as int)),
            ),
            forall|p: int| #![auto] 0 <= p < i ==> wf(rust_args@[p].value@),
        decreases n - i,
    {
        proof {
            lemma_wire_arg_models_of(proto_args@);
            lemma_arg_models_of(rust_args@);
            assert(wams.skip(i as int)[0] == wams[i as int]);
            assert(wams[i as int] == (proto_args@[i as int].name@, opt_model(
                proto_args@[i as int].value,
            )));
        }
        let ghost ds = arg_models_of(rust_args@);
        let a = &proto_args[i];
        let w = match &a.value {
            Some(w) => w,
            None => {
                let msg = String::from_str("Value is missing for argument '").concat(
                    a.name.as_str(),
                ).concat("'.");
                proof {
                    assert(msg@ == missing_arg_value_msg(proto_args@[i as int].name@));
                    assert(decode_args_model(wams.skip(i as int)) == Err::<
                        Seq<(Seq<char>, ValueModel)>,
                        ErrorModel,
                    >(ErrorModel::Other(missing_arg_value_msg(proto_args@[i as int].name@))));
                }
                return Err(MbtError::other(msg));
            },
        };
        let v = match crate::codec::proto_value_to_rust_value_ref(w) {
            Ok(v) => v,
            Err(e) => {
                proof {
                    assert(decode_model(wire_model(*w)) == Err::<ValueModel, ErrorModel>(e@));
                    assert(decode_args_model(wams.skip(i as int)) == Err::<
                        Seq<(Seq<char>, ValueModel)>,
                        ErrorModel,
                    >(e@));
                }
                return Err(e);
            },
        };
        proof {
            lemma_decode_wf(wire_model(*w));
        }
        let ghost pre = rust_args@;
        rust_args.push(Arg { name: a.name.clone(), value: v });
        proof {
            lemma_arg_models_of(rust_args@);
            assert(arg_models_of(rust_args@) =~= ds + seq![
                (proto_args@[i as int].name@, v@),
            ]) by {
                assert forall|p: int|
                    0 <= p < rust_args@.len() implies arg_models_of(rust_args@)[p] == (ds + seq![
                    (proto_args@[i as int].name@, v@),
                ])[p] by {
                    assert(arg_models_of(rust_args@)[p] == (
                        rust_args@[p].name@,
                        rust_args@[p].value@,
                    ));
                    if p < i {
                        assert(rust_args@[p] == pre[p]);
                        assert(ds[p] == (pre[p].name@, pre[p].value@));
                    }
                }
            }
            assert(wams.skip(i as int).skip(1) =~= wams.skip(i as int + 1));
            assert(decode_args_model(wams.skip(i as int)) == prepend_args_ok(
                seq![(proto_args@[i as int].name@, v@)],
                decode_args_model(wams.skip(i as int + 1)),
            ));
            match decode_args_model(wams.skip(i as int + 1)) {
                Ok(rest) => {
                    assert((ds + (seq![(proto_args@[i as int].name@, v@)] + rest)) =~= ((ds
                        + seq![(proto_args@[i as int].name@, v@)]) + rest));
                },
                Err(_) => {},
            }
        }
        i = i + 1;
    }
    proof {
        assert(wams.skip(n as int) =~= Seq::<(Seq<char>, Option<WireModel>)>::empty());
        assert(decode_args_model(wams.skip(n as int)) == Ok::<
            Seq<(Seq<char>, ValueModel)>,
            ErrorModel,
        >(Seq::empty()));
        assert(arg_models_of(rust_args@) + Seq::<(Seq<char>, ValueModel)>::empty()
            =~= arg_models_of(rust_args@));
    }
    Ok(rust_args)
}

} // verus!
