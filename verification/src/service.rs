//! The service façade over a user's model: one dispatcher guarded by Rust's
//! borrow discipline. Lifecycle, teardown and role enumeration take the
//! model exclusively (`&mut`); action execution shares it (`&`), mirroring
//! the reader/writer-lock contract that the surrounding server enforces at
//! run time.

use vstd::prelude::*;
use vstd::string::StringExecFns;
use crate::clock::instant_now;
use crate::codec::{rust_value_to_proto_value, WireValue};
use crate::engine::{
    batch_args_decode_ok, bundle_critical, cmd_from_request, deserialize_sequences,
    first_decode_error, run_sequences, serialize_sequence_results, status_is_ok, status_reports,
};
use crate::error::{ErrorModel, MbtError};
use crate::traits::{DispatchModel, Model};
use crate::value::{Value, ValueModel};
use crate::codec::encode_model;
use crate::wire::{
    decode_args_model, mbt_error_to_proto_status, proto_args_to_rust_args, proto_ref_to_role_id,
    proto_status_ok, role_ids_to_proto_refs, wire_arg_models_of, CleanupRequest, CleanupResponse,
    ExecuteActionRequest, ExecuteActionResponse, ExecuteActionSequencesRequest,
    ExecuteActionSequencesResponse, InitRequest, InitResponse, RoleRef,
};

verus! {

/// The message reported when an action request carries no role reference.
pub open spec fn missing_role_msg() -> Seq<char> {
    "RoleRef is missing in request."@
}

/// Builds the response reporting one successfully executed action: the
/// canonical none value sends no values, anything else sends exactly its
/// encoding; the status is ok and the refreshed role list rides along.
pub fn action_success_response(returned: Value, roles: Vec<RoleRef>) -> (r: ExecuteActionResponse)
    ensures
        r.roles == roles,
        r.exec_time is None,
        status_is_ok(r.status),
        returned@ == ValueModel::NoneVal ==> r.return_values@.len() == 0,
        returned@ != ValueModel::NoneVal ==> r.return_values@.len() == 1 && r.return_values@[0]@
            == encode_model(returned@),
{
    let return_values = match returned {
        Value::NoneVal => Vec::new(),
        value => {
            let mut vs: Vec<WireValue> = Vec::new();
            vs.push(rust_value_to_proto_value(value));
            vs
        },
    };
    ExecuteActionResponse {
        return_values,
        exec_time: None,
        status: Some(proto_status_ok()),
        roles,
    }
}

/// Builds the response reporting a model error from one action: no values,
/// no roles, and the status that reports exactly that error.
pub fn action_error_response(err: MbtError) -> (r: ExecuteActionResponse)
    ensures
        r.return_values@.len() == 0,
        r.exec_time is None,
        r.roles@.len() == 0,
        status_reports(r.status, err@),
{
    ExecuteActionResponse {
        return_values: Vec::new(),
        exec_time: None,
        status: Some(mbt_error_to_proto_status(err)),
        roles: Vec::new(),
    }
}

/// The dispatch bridge: one user model and the run-start instant that all
/// recorded action timestamps are relative to.
pub struct FizzBeeServiceImpl<D: Model + DispatchModel> {
    dispatcher: D,
    base_instant: std::time::Instant,
}

impl<D: Model + DispatchModel> FizzBeeServiceImpl<D> {
    /// Wraps a model, fixing the run-start instant now.
    pub fn new(dispatcher: D) -> FizzBeeServiceImpl<D> {
        FizzBeeServiceImpl { dispatcher, base_instant: instant_now() }
    }

    /// Enumerates roles under exclusive access and converts them to wire
    /// references; an error from the model is passed through verbatim.
    fn get_and_convert_roles(model: &mut D) -> Result<Vec<RoleRef>, MbtError> {
        match model.get_roles() {
            Ok(ids) => Ok(role_ids_to_proto_refs(ids)),
            Err(e) => Err(e),
        }
    }

    /// Initializes the model under exclusive access and, still under it,
    /// enumerates the roles; on success the response carries the ok status
    /// and the discovered roles.
    pub fn init(&mut self, _request: InitRequest) -> (r: Result<InitResponse, MbtError>)
        ensures
            r matches Ok(resp) ==> status_is_ok(resp.status),
    {
        match self.dispatcher.init() {
            Ok(_) => match Self::get_and_convert_roles(&mut self.dispatcher) {
                Ok(refs) => Ok(InitResponse { status: Some(proto_status_ok()), roles: refs }),
                Err(e) => Err(e),
            },
            Err(e) => Err(e),
        }
    }

    /// Tears the model down under exclusive access; terminal. On success
    /// the response carries the ok status.
    pub fn cleanup(&mut self, _request: CleanupRequest) -> (r: Result<CleanupResponse, MbtError>)
        ensures
            r matches Ok(resp) ==> status_is_ok(resp.status),
    {
        match self.dispatcher.cleanup() {
            Ok(_) => Ok(CleanupResponse { status: Some(proto_status_ok()) }),
            Err(e) => Err(e),
        }
    }

    /// Executes one action under shared access, then takes exclusive access
    /// solely to refresh the role list for the response. A request without
    /// a role reference, or with an argument that does not decode, is
    /// rejected with exactly that error; a model error is reported inside
    /// an ok response as its status.
    pub fn execute_action(&mut self, request: ExecuteActionRequest) -> (r: Result<
        ExecuteActionResponse,
        MbtError,
    >)
        ensures
            request.role is None ==> (r matches Err(e) && e@ == ErrorModel::Other(
                missing_role_msg(),
            )),
            (match decode_args_model(wire_arg_models_of(request.args@)) {
                Err(em) => request.role is Some ==> (r matches Err(e) && e@ == em),
                Ok(_) => true,
            }),
            r matches Ok(resp) ==> resp.exec_time is None && ((status_is_ok(resp.status)
                && resp.return_values@.len() <= 1) || (resp.return_values@.len() == 0
                && resp.roles@.len() == 0 && exists|em: ErrorModel|
                status_reports(resp.status, em))),
    {
        let ExecuteActionRequest { role, action_name, args } = request;
        let role_ref = match role {
            Some(rr) => rr,
            None => {
                return Err(MbtError::other(String::from_str("RoleRef is missing in request.")));
            },
        };
        let role_id = match proto_ref_to_role_id(role_ref) {
            Ok(id) => id,
            Err(e) => {
                return Err(e);
            },
        };
        let rust_args = match proto_args_to_rust_args(args) {
            Ok(a) => a,
            Err(e) => {
                return Err(e);
            },
        };
        let result = self.dispatcher.execute(&role_id, action_name.as_str(), rust_args.as_slice());
        match result {
            Ok(returned) => {
                let refs = match Self::get_and_convert_roles(&mut self.dispatcher) {
                    Ok(refs) => refs,
                    Err(e) => {
                        return Err(e);
                    },
                };
                Ok(action_success_response(returned, refs))
            },
            Err(e) => {
                let ghost ge = e@;
                let resp = action_error_response(e);
                proof {
                    assert(status_reports(resp.status, ge));
                }
                Ok(resp)
            },
        }
    }

    /// Executes a batched request: deserializes every sequence up front,
    /// runs them through the engine under shared access, and serializes the
    /// results in submission order — unless any sequence failed critically,
    /// in which case the whole batch fails with that one error and partial
    /// results are discarded. An argument that does not decode fails the
    /// call with exactly the first such error, before anything executes; a
    /// batch with nothing to execute succeeds.
    pub fn execute_action_sequences(&self, request: ExecuteActionSequencesRequest) -> (r: Result<
        ExecuteActionSequencesResponse,
        MbtError,
    >)
        ensures
            r matches Ok(resp) ==> resp.results@.len() == request.action_sequence@.len()
                && forall|i: int|
                0 <= i < resp.results@.len() ==> (#[trigger] resp.results@[i]).responses@.len()
                    == request.action_sequence@[i].requests@.len(),
            !batch_args_decode_ok(request) ==> (r matches Err(e) && first_decode_error(
                request,
                e@,
            )),
            (forall|i: int|
                0 <= i < request.action_sequence@.len()
                    ==> (#[trigger] request.action_sequence@[i]).requests@.len() == 0) ==> r is Ok,
    {
        let bundles = match deserialize_sequences(request) {
            Ok(b) => b,
            Err(e) => {
                proof {
                    // The first failing argument exists, so some sequence is
                    // nonempty and the all-empty case cannot be here.
                    let (i, j) = choose|i: int, j: int|
                        crate::engine::decode_error_at(request, e@, i, j);
                    assert(request.action_sequence@[i].requests@.len() > 0);
                }
                return Err(e);
            },
        };
        proof {
            assert(batch_args_decode_ok(request)) by {
                assert forall|i: int, j: int|
                    0 <= i < request.action_sequence@.len() && 0 <= j
                        < request.action_sequence@[i].requests@.len() implies crate::engine::args_decode_ok(
                    #[trigger] request.action_sequence@[i].requests@[j],
                ) by {
                    assert(cmd_from_request(
                        bundles@[i]@[j],
                        request.action_sequence@[i].requests@[j],
                    ));
                }
            }
        }
        let (done, failure) = run_sequences(&self.dispatcher, &self.base_instant, bundles);
        match failure {
            Some(e) => {
                proof {
                    // A critical outcome lives in some nonempty bundle, so
                    // some sequence had a request to run.
                    let i = choose|i: int|
                        0 <= i < done@.len() && bundle_critical((#[trigger] done@[i])@);
                    let j = choose|j: int|
                        0 <= j < done@[i]@.len() && crate::engine::cmd_critical(
                            #[trigger] done@[i]@[j],
                        );
                    assert(request.action_sequence@[i].requests@.len() > 0);
                }
                Err(e)
            },
            None => Ok(serialize_sequence_results(done)),
        }
    }
}

} // verus!
