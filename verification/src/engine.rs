//! The sequence-execution engine. Each sequence of action commands executes
//! strictly in order against the dispatcher; a command whose error is not
//! the deliberate-refusal kind is a critical failure that aborts its
//! sequence at once, leaving the trailing commands unexecuted. Sequences are
//! independent of each other: every sequence runs to its own end or its own
//! critical failure, and the batch as a whole fails with the first critical
//! error, in submission order, discarding the siblings' results.

use vstd::prelude::*;
use vstd::string::StringExecFns;
use crate::clock::nanos_since;
use crate::codec::{encode_model, rust_value_to_proto_value, WireValue};
use crate::error::{ErrorModel, MbtError};
use crate::traits::DispatchModel;
use crate::types::{Arg, RoleId};
use crate::value::{Value, ValueModel};
use crate::wire::{
    arg_models_of, decode_args_model, proto_args_to_rust_args, proto_ref_to_role_id,
    proto_status_ok, mbt_error_to_proto_status, wire_arg_models_of,
    ActionSequenceResult, ExecuteActionRequest, ExecuteActionResponse,
    ExecuteActionSequencesRequest, ExecuteActionSequencesResponse, Interval, StatusCode,
    WireStatus, code_of_error, status_message_of,
};
use crate::order::wf;

verus! {

/// One action command with room for its outcome: created by
/// deserialization, filled exactly once by execution, and serialized into
/// the response.
#[derive(Debug)]
pub struct ExecuteActionCommand {
    pub request: ExecuteActionRequest,
    pub args: Vec<Arg>,
    pub start_time: Option<i64>,
    pub end_time: Option<i64>,
    pub return_value: Option<Value>,
    pub error: Option<MbtError>,
}

/// A command that has not been executed yet.
pub open spec fn cmd_fresh(c: ExecuteActionCommand) -> bool {
    &&& c.start_time is None
    &&& c.end_time is None
    &&& c.return_value is None
    &&& c.error is None
}

/// Two commands carry the same request and arguments.
pub open spec fn cmd_same_request(c: ExecuteActionCommand, d: ExecuteActionCommand) -> bool {
    c.request == d.request && c.args == d.args
}

/// A command that execution has reached: both timestamps are recorded and
/// exactly one of return value and error is present.
pub open spec fn cmd_attempted(c: ExecuteActionCommand) -> bool {
    &&& c.start_time is Some
    &&& c.end_time is Some
    &&& (c.return_value is Some <==> c.error is None)
}

/// A command whose recorded error is a critical failure: any error that is
/// not the deliberate-refusal kind.
pub open spec fn cmd_critical(c: ExecuteActionCommand) -> bool {
    match c.error {
        Some(e) => !(e@ is NotImplemented),
        None => false,
    }
}

/// A bundle holds some command whose outcome is a critical failure.
pub open spec fn bundle_critical(b: Seq<ExecuteActionCommand>) -> bool {
    exists|j: int| 0 <= j < b.len() && cmd_critical(#[trigger] b[j])
}

/// The bundle `done` is `orig` executed up to mark `k`: the commands before
/// the mark ran (request kept, outcome and timestamps recorded), everything
/// from the mark on is untouched, only the command right before the mark
/// may be critical, and a mark short of the end stands right after a
/// critical command.
pub open spec fn bundle_executed_to(
    done: Seq<ExecuteActionCommand>,
    orig: Seq<ExecuteActionCommand>,
    k: int,
) -> bool {
    &&& done.len() == orig.len()
    &&& 0 <= k <= orig.len()
    &&& forall|j: int|
        0 <= j < k ==> cmd_same_request(#[trigger] done[j], orig[j]) && cmd_attempted(done[j])
    &&& forall|j: int| k <= j < orig.len() ==> #[trigger] done[j] == orig[j]
    &&& forall|j: int| 0 <= j < k - 1 ==> !cmd_critical(#[trigger] done[j])
    &&& k < orig.len() ==> k > 0 && cmd_critical(done[k - 1])
}

/// The bundle `done` is `orig` executed in order up to some mark.
pub open spec fn bundle_executed(
    done: Seq<ExecuteActionCommand>,
    orig: Seq<ExecuteActionCommand>,
) -> bool {
    exists|k: int| bundle_executed_to(done, orig, k)
}

/// Executes one sequence of commands strictly in order against the
/// dispatcher. The returned mark (ghost) counts the commands reached:
/// everything before it ran, with its request kept and its outcome and
/// timestamps recorded; everything from the mark on is untouched. A critical
/// failure stops the sequence right after being recorded and is also
/// returned; on a run without one the mark is the whole length.
pub fn execute_sequence<D: DispatchModel>(
    model: &D,
    base: &std::time::Instant,
    cmds: Vec<ExecuteActionCommand>,
) -> (r: (Vec<ExecuteActionCommand>, Option<MbtError>, Ghost<int>))
    ensures
        r.0@.len() == cmds@.len(),
        0 <= r.2@ <= cmds@.len(),
        forall|j: int|
            0 <= j < r.2@ ==> cmd_same_request(#[trigger] r.0@[j], cmds@[j]) && cmd_attempted(
                r.0@[j],
            ),
        forall|j: int| r.2@ <= j < cmds@.len() ==> #[trigger] r.0@[j] == cmds@[j],
        forall|j: int| 0 <= j < r.2@ - 1 ==> !cmd_critical(#[trigger] r.0@[j]),
        match r.1 {
            Some(e) => r.2@ > 0 && cmd_critical(r.0@[r.2@ - 1]) && (match r.0@[r.2@ - 1].error {
                Some(e2) => e2@ == e@,
                None => false,
            }),
            None => r.2@ == cmds@.len() && forall|j: int|
                0 <= j < cmds@.len() ==> !cmd_critical(#[trigger] r.0@[j]),
        },
{
    let ghost orig = cmds@;
    let mut input = cmds;
    let mut out: Vec<ExecuteActionCommand> = Vec::new();
    let mut failure: Option<MbtError> = None;
    let n = input.len();
    let mut i: usize = 0;
    proof {
        assert(input@ =~= orig.skip(0));
    }
    while i < n && failure.is_none()
        invariant
            i <= n,
            n == orig.len(),
            input@ == orig.skip(i as int),
            out@.len() == i,
            forall|j: int|
                0 <= j < i ==> cmd_same_request(#[trigger] out@[j], orig[j]) && cmd_attempted(
                    out@[j],
                ),
            forall|j: int| 0 <= j < i - 1 ==> !cmd_critical(#[trigger] out@[j]),
            match failure {
                Some(e) => i > 0 && cmd_critical(out@[i - 1]) && (match out@[i - 1].error {
                    Some(e2) => e2@ == e@,
                    None => false,
                }),
                None => forall|j: int| 0 <= j < i ==> !cmd_critical(#[trigger] out@[j]),
            },
        decreases n - i,
    {
        proof {
            assert(input@[0] == orig[i as int]);
        }
        let cmd = input.remove(0);
        proof {
            assert(input@ =~= orig.skip(i as int + 1));
        }
        // Resolve the role reference, falling back to the default role id.
        let role_id = match &cmd.request.role {
            Some(rr) => match proto_ref_to_role_id(rr.duplicate()) {
                Ok(id) => id,
                Err(_) => RoleId::default(),
            },
            None => RoleId::default(),
        };
        let start_time = nanos_since(base);
        let result = model.execute(&role_id, cmd.request.action_name.as_str(), cmd.args.as_slice());
        let end_time = nanos_since(base);
        let (return_value, error) = match result {
            Ok(val) => (Some(val), None),
            Err(e) => {
                if !e.is_not_implemented() {
                    failure = Some(e.duplicate());
                }
                (None, Some(e))
            },
        };
        let done = ExecuteActionCommand {
            request: cmd.request,
            args: cmd.args,
            start_time: Some(start_time),
            end_time: Some(end_time),
            return_value,
            error,
        };
        out.push(done);
        i = i + 1;
    }
    let ghost k = i as int;
    while input.len() > 0
        invariant
            n == orig.len(),
            out@.len() + input@.len() == n,
            out@.len() >= k,
            input@ == orig.skip(out@.len() as int),
            forall|j: int|
                0 <= j < k ==> cmd_same_request(#[trigger] out@[j], orig[j]) && cmd_attempted(
                    out@[j],
                ),
            forall|j: int| k <= j < out@.len() ==> #[trigger] out@[j] == orig[j],
            forall|j: int| 0 <= j < k - 1 ==> !cmd_critical(#[trigger] out@[j]),
            0 <= k <= n,
            match failure {
                Some(e) => k > 0 && cmd_critical(out@[k - 1]) && (match out@[k - 1].error {
                    Some(e2) => e2@ == e@,
                    None => false,
                }),
                None => k == n && forall|j: int| 0 <= j < k ==> !cmd_critical(#[trigger] out@[j]),
            },
        decreases input@.len(),
    {
        let ghost m = out@.len() as int;
        proof {
            assert(input@ == orig.skip(m));
            assert(orig.skip(m)[0] == orig[m]);
        }
        let cmd = input.remove(0);
        let ghost pre = out@;
        out.push(cmd);
        proof {
            assert(out@[m] == orig[m]);
            assert forall|j: int| 0 <= j < m implies out@[j] == pre[j] by {}
            assert(input@ =~= orig.skip(m + 1));
        }
    }
    (out, failure, Ghost(k))
}

/// Runs every sequence of the batch, each to its own end or critical
/// failure, and reports the first critical error in submission order; with
/// one present the whole batch is failed and the per-sequence results are
/// meant to be discarded.
pub fn run_sequences<D: DispatchModel>(
    model: &D,
    base: &std::time::Instant,
    bundles: Vec<Vec<ExecuteActionCommand>>,
) -> (r: (Vec<Vec<ExecuteActionCommand>>, Option<MbtError>))
    ensures
        r.0@.len() == bundles@.len(),
        forall|i: int| 0 <= i < bundles@.len() ==> (#[trigger] r.0@[i])@.len() == bundles@[i]@.len(),
        forall|i: int|
            0 <= i < bundles@.len() ==> bundle_executed((#[trigger] r.0@[i])@, bundles@[i]@),
        r.1 is Some ==> exists|i: int|
            0 <= i < r.0@.len() && bundle_critical((#[trigger] r.0@[i])@),
        match r.1 {
            Some(e) => exists|i: int|
                0 <= i < r.0@.len() && bundle_critical((#[trigger] r.0@[i])@) && (forall|i2: int|
                    0 <= i2 < i ==> !bundle_critical((#[trigger] r.0@[i2])@)) && (exists|j: int|
                    0 <= j < r.0@[i]@.len() && cmd_critical(#[trigger] r.0@[i]@[j]) && (
                    match r.0@[i]@[j].error {
                        Some(e2) => e2@ == e@,
                        None => false,
                    })),
            None => forall|i: int| 0 <= i < r.0@.len() ==> !bundle_critical((#[trigger] r.0@[i])@),
        },
{
    let ghost orig = bundles@;
    let mut input = bundles;
    let mut out: Vec<Vec<ExecuteActionCommand>> = Vec::new();
    let mut failure: Option<MbtError> = None;
    let n = input.len();
    let mut i: usize = 0;
    proof {
        assert(input@ =~= orig.skip(0));
    }
    while i < n
        invariant
            i <= n,
            n == orig.len(),
            input@ == orig.skip(i as int),
            out@.len() == i,
            forall|p: int| 0 <= p < i ==> (#[trigger] out@[p])@.len() == orig[p]@.len(),
            forall|p: int| 0 <= p < i ==> bundle_executed((#[trigger] out@[p])@, orig[p]@),
            failure is Some ==> exists|p: int|
                0 <= p < i && bundle_critical((#[trigger] out@[p])@),
            match failure {
                Some(e) => exists|p: int|
                    0 <= p < i && bundle_critical((#[trigger] out@[p])@) && (forall|p2: int|
                        0 <= p2 < p ==> !bundle_critical((#[trigger] out@[p2])@)) && (exists|
                    j: int|
                        0 <= j < out@[p]@.len() && cmd_critical(#[trigger] out@[p]@[j]) && (
                        match out@[p]@[j].error {
                            Some(e2) => e2@ == e@,
                            None => false,
                        })),
                None => forall|p: int| 0 <= p < i ==> !bundle_critical((#[trigger] out@[p])@),
            },
        decreases n - i,
    {
        proof {
            assert(input@[0] == orig[i as int]);
        }
        let bundle = input.remove(0);
        proof {
            assert(input@ =~= orig.skip(i as int + 1));
        }
        let ghost preout = out@;
        let ghost prefail = failure;
        let (done, fail, mark) = execute_sequence(model, base, bundle);
        let ghost gfail = fail;
        let ghost gdone = done@;
        out.push(done);
        match fail {
            Some(e) => {
                if failure.is_none() {
                    failure = Some(e);
                }
            },
            None => {},
        }
        proof {
            assert forall|p: int| 0 <= p < i implies out@[p] == preout[p] by {}
            assert(out@[i as int]@ == gdone);
            assert(bundle_executed_to(gdone, orig[i as int]@, mark@)) by {
                match gfail {
                    Some(_) => {},
                    None => {
                        assert(mark@ == orig[i as int]@.len());
                    },
                }
            }
            match gfail {
                Some(e) => {
                    assert(mark@ > 0 && cmd_critical(gdone[mark@ - 1]));
                    assert(bundle_critical(gdone));
                    match prefail {
                        Some(_) => {},
                        None => {
                            assert forall|p2: int|
                                0 <= p2 < i implies !bundle_critical(
                                (#[trigger] out@[p2])@,
                            ) by {}
                        },
                    }
                },
                None => {
                    assert(!bundle_critical(gdone)) by {
                        assert forall|j: int|
                            0 <= j < gdone.len() implies !cmd_critical(#[trigger] gdone[j]) by {}
                    }
                },
            }
        }
        i = i + 1;
    }
    (out, failure)
}


/// The request's arguments all decode.
pub open spec fn args_decode_ok(q: ExecuteActionRequest) -> bool {
    decode_args_model(wire_arg_models_of(q.args@)) is Ok
}

/// Every argument of every request in the batch decodes.
pub open spec fn batch_args_decode_ok(req: ExecuteActionSequencesRequest) -> bool {
    forall|i: int, j: int|
        0 <= i < req.action_sequence@.len() && 0 <= j
            < req.action_sequence@[i].requests@.len() ==> args_decode_ok(
            #[trigger] req.action_sequence@[i].requests@[j],
        )
}

/// The argument list of request `j` of sequence `i` is the first in
/// submission order that fails to decode, and it fails with `em`.
pub open spec fn decode_error_at(
    req: ExecuteActionSequencesRequest,
    em: ErrorModel,
    i: int,
    j: int,
) -> bool {
    &&& 0 <= i < req.action_sequence@.len()
    &&& 0 <= j < req.action_sequence@[i].requests@.len()
    &&& decode_args_model(wire_arg_models_of(req.action_sequence@[i].requests@[j].args@))
        == Err::<Seq<(Seq<char>, ValueModel)>, ErrorModel>(em)
    &&& forall|j2: int|
        0 <= j2 < j ==> args_decode_ok(#[trigger] req.action_sequence@[i].requests@[j2])
    &&& forall|i2: int, j2: int|
        0 <= i2 < i && 0 <= j2 < req.action_sequence@[i2].requests@.len() ==> args_decode_ok(
            #[trigger] req.action_sequence@[i2].requests@[j2],
        )
}

/// `em` is the error of the first argument in the batch that fails to
/// decode.
pub open spec fn first_decode_error(req: ExecuteActionSequencesRequest, em: ErrorModel) -> bool {
    exists|i: int, j: int| decode_error_at(req, em, i, j)
}

/// A command freshly built from one wire request: nothing executed yet, the
/// request kept with its arguments moved out and decoded.
pub open spec fn cmd_from_request(c: ExecuteActionCommand, q: ExecuteActionRequest) -> bool {
    &&& cmd_fresh(c)
    &&& c.request.role == q.role
    &&& c.request.action_name@ == q.action_name@
    &&& c.request.args@.len() == 0
    &&& decode_args_model(wire_arg_models_of(q.args@)) == Ok::<
        Seq<(Seq<char>, ValueModel)>,
        ErrorModel,
    >(arg_models_of(c.args@))
    &&& forall|p: int| #![auto] 0 <= p < c.args@.len() ==> wf(c.args@[p].value@)
}

/// Deserializes a batched request into command bundles, decoding every
/// argument up front; the first argument that fails to decode fails the
/// whole request.
pub fn deserialize_sequences(req: ExecuteActionSequencesRequest) -> (r: Result<
    Vec<Vec<ExecuteActionCommand>>,
    MbtError,
>)
    ensures
        match r {
            Ok(bundles) => {
                &&& bundles@.len() == req.action_sequence@.len()
                &&& forall|i: int|
                    0 <= i < bundles@.len() ==> (#[trigger] bundles@[i])@.len()
                        == req.action_sequence@[i].requests@.len()
                &&& forall|i: int, j: int|
                    0 <= i < bundles@.len() && 0 <= j < bundles@[i]@.len() ==> cmd_from_request(
                        #[trigger] bundles@[i]@[j],
                        req.action_sequence@[i].requests@[j],
                    )
            },
            Err(e) => first_decode_error(req, e@),
        },
{
    let ghost orig = req.action_sequence@;
    let mut seqs = req.action_sequence;
    let mut all_bundles: Vec<Vec<ExecuteActionCommand>> = Vec::new();
    let n = seqs.len();
    let mut i: usize = 0;
    proof {
        assert(seqs@ =~= orig.skip(0));
    }
    while i < n
        invariant
            orig == req.action_sequence@,
            i <= n,
            n == orig.len(),
            seqs@ == orig.skip(i as int),
            all_bundles@.len() == i,
            forall|p: int|
                0 <= p < i ==> (#[trigger] all_bundles@[p])@.len() == orig[p].requests@.len(),
            forall|p: int, j: int|
                0 <= p < i && 0 <= j < all_bundles@[p]@.len() ==> cmd_from_request(
                    #[trigger] all_bundles@[p]@[j],
                    orig[p].requests@[j],
                ),
        decreases n - i,
    {
        proof {
            assert(seqs@[0] == orig[i as int]);
        }
        let sequence = seqs.remove(0);
        proof {
            assert(seqs@ =~= orig.skip(i as int + 1));
        }
        let ghost qorig = sequence.requests@;
        let mut requests = sequence.requests;
        let mut bundle: Vec<ExecuteActionCommand> = Vec::new();
        let m = requests.len();
        let mut j: usize = 0;
        proof {
            assert(requests@ =~= qorig.skip(0));
        }
        while j < m
            invariant
                orig == req.action_sequence@,
                j <= m,
                m == qorig.len(),
                requests@ == qorig.skip(j as int),
                bundle@.len() == j,
                qorig == orig[i as int].requests@,
                0 <= i < orig.len(),
                all_bundles@.len() == i,
                forall|p: int|
                    0 <= p < i ==> (#[trigger] all_bundles@[p])@.len() == orig[p].requests@.len(),
                forall|p: int, j2: int|
                    0 <= p < i && 0 <= j2 < all_bundles@[p]@.len() ==> cmd_from_request(
                        #[trigger] all_bundles@[p]@[j2],
                        orig[p].requests@[j2],
                    ),
                forall|p: int|
                    0 <= p < j ==> cmd_from_request(#[trigger] bundle@[p], qorig[p]),
            decreases m - j,
        {
            proof {
                assert(requests@[0] == qorig[j as int]);
            }
            let request = requests.remove(0);
            proof {
                assert(requests@ =~= qorig.skip(j as int + 1));
            }
            let ExecuteActionRequest { role, action_name, args } = request;
            let rust_args = match proto_args_to_rust_args(args) {
                Ok(a) => a,
                Err(e) => {
                    proof {
                        assert(decode_args_model(
                            wire_arg_models_of(
                                (req.action_sequence@[i as int].requests@[j as int]).args@,
                            ),
                        ) == Err::<Seq<(Seq<char>, ValueModel)>, ErrorModel>(e@));
                        // Everything before this argument decoded: the whole
                        // prior sequences, and this sequence's prior requests.
                        assert forall|j2: int| 0 <= j2 < j implies args_decode_ok(
                            #[trigger] req.action_sequence@[i as int].requests@[j2],
                        ) by {
                            assert(cmd_from_request(bundle@[j2], qorig[j2]));
                        }
                        assert forall|i2: int, j2: int|
                            0 <= i2 < i && 0 <= j2
                                < req.action_sequence@[i2].requests@.len() implies args_decode_ok(
                            #[trigger] req.action_sequence@[i2].requests@[j2],
                        ) by {
                            assert(cmd_from_request(all_bundles@[i2]@[j2], orig[i2].requests@[j2]));
                        }
                        assert(decode_error_at(req, e@, i as int, j as int));
                    }
                    return Err(e);
                },
            };
            let ghost prebundle = bundle@;
            bundle.push(
                ExecuteActionCommand {
                    request: ExecuteActionRequest { role, action_name, args: Vec::new() },
                    args: rust_args,
                    start_time: None,
                    end_time: None,
                    return_value: None,
                    error: None,
                },
            );
            proof {
                assert forall|p: int| 0 <= p < j implies bundle@[p] == prebundle[p] by {}
            }
            j = j + 1;
        }
        let ghost pre = all_bundles@;
        all_bundles.push(bundle);
        proof {
            assert forall|p: int| 0 <= p < i implies all_bundles@[p] == pre[p] by {}
        }
        i = i + 1;
    }
    Ok(all_bundles)
}

/// A success status: the ok code with its fixed message.
pub open spec fn status_is_ok(st: Option<WireStatus>) -> bool {
    match st {
        Some(s) => s.code == StatusCode::StatusOk && s.message@ == "OK"@,
        None => false,
    }
}

/// A status reporting the given error.
pub open spec fn status_reports(st: Option<WireStatus>, em: ErrorModel) -> bool {
    match st {
        Some(s) => s.code == code_of_error(em) && s.message@ == status_message_of(em),
        None => false,
    }
}

/// The message used when a command carries neither a value nor an error.
pub open spec fn unknown_error_msg() -> Seq<char> {
    "Unknown error in sequence execution"@
}

/// What one serialized response says about its command: the recorded time
/// interval; the encoded return value, or no value for the canonical none;
/// the ok status on success and the reporting status on error.
pub open spec fn response_matches(resp: ExecuteActionResponse, cmd: ExecuteActionCommand) -> bool {
    &&& resp.roles@.len() == 0
    &&& (match (cmd.start_time, cmd.end_time) {
        (Some(s), Some(e)) => match resp.exec_time {
            Some(iv) => iv.start_unix_nano == s && iv.end_unix_nano == e,
            None => false,
        },
        _ => resp.exec_time is None,
    })
    &&& (match cmd.return_value {
        Some(v) => (if v@ == ValueModel::NoneVal {
            resp.return_values@.len() == 0
        } else {
            resp.return_values@.len() == 1 && resp.return_values@[0]@ == encode_model(v@)
        }) && status_is_ok(resp.status),
        None => resp.return_values@.len() == 0 && (match cmd.error {
            Some(e) => status_reports(resp.status, e@),
            None => status_reports(
                resp.status,
                ErrorModel::Other(unknown_error_msg()),
            ),
        }),
    })
}

/// Serializes executed command bundles into the batched response, in
/// submission order.
pub fn serialize_sequence_results(bundles: Vec<Vec<ExecuteActionCommand>>) -> (r:
    ExecuteActionSequencesResponse)
    ensures
        r.results@.len() == bundles@.len(),
        forall|i: int|
            0 <= i < bundles@.len() ==> (#[trigger] r.results@[i]).responses@.len()
                == bundles@[i]@.len(),
        forall|i: int, j: int|
            0 <= i < bundles@.len() && 0 <= j < bundles@[i]@.len() ==> response_matches(
                #[trigger] r.results@[i].responses@[j],
                bundles@[i]@[j],
            ),
{
    let ghost orig = bundles@;
    let mut input = bundles;
    let mut results: Vec<ActionSequenceResult> = Vec::new();
    let n = input.len();
    let mut i: usize = 0;
    proof {
        assert(input@ =~= orig.skip(0));
    }
    while i < n
        invariant
            i <= n,
            n == orig.len(),
            input@ == orig.skip(i as int),
            results@.len() == i,
            forall|p: int|
                0 <= p < i ==> (#[trigger] results@[p]).responses@.len() == orig[p]@.len(),
            forall|p: int, j: int|
                0 <= p < i && 0 <= j < orig[p]@.len() ==> response_matches(
                    #[trigger] results@[p].responses@[j],
                    orig[p]@[j],
                ),
        decreases n - i,
    {
        proof {
            assert(input@[0] == orig[i as int]);
        }
        let bundle = input.remove(0);
        proof {
            assert(input@ =~= orig.skip(i as int + 1));
        }
        let ghost borig = bundle@;
        let mut cmds = bundle;
        let mut action_responses: Vec<ExecuteActionResponse> = Vec::new();
        let m = cmds.len();
        let mut j: usize = 0;
        proof {
            assert(cmds@ =~= borig.skip(0));
        }
        while j < m
            invariant
                j <= m,
                m == borig.len(),
                cmds@ == borig.skip(j as int),
                action_responses@.len() == j,
                borig == orig[i as int]@,
                0 <= i < orig.len(),
                forall|p: int|
                    0 <= p < j ==> response_matches(#[trigger] action_responses@[p], borig[p]),
            decreases m - j,
        {
            proof {
                assert(cmds@[0] == borig[j as int]);
            }
            let cmd = cmds.remove(0);
            proof {
                assert(cmds@ =~= borig.skip(j as int + 1));
            }
            let exec_time = match (cmd.start_time, cmd.end_time) {
                (Some(start), Some(end)) => Some(
                    Interval { start_unix_nano: start, end_unix_nano: end },
                ),
                _ => None,
            };
            let (return_values, status) = match cmd.return_value {
                Some(value) => match value {
                    Value::NoneVal => (Vec::new(), proto_status_ok()),
                    other => {
                        let proto_value = rust_value_to_proto_value(other);
                        let mut vs: Vec<WireValue> = Vec::new();
                        vs.push(proto_value);
                        (vs, proto_status_ok())
                    },
                },
                None => {
                    let error = match cmd.error {
                        Some(e) => e,
                        None => MbtError::other(
                            String::from_str("Unknown error in sequence execution"),
                        ),
                    };
                    (Vec::new(), mbt_error_to_proto_status(error))
                },
            };
            let ghost prer = action_responses@;
            action_responses.push(
                ExecuteActionResponse {
                    return_values,
                    exec_time,
                    status: Some(status),
                    roles: Vec::new(),
                },
            );
            proof {
                assert forall|p: int|
                    0 <= p < j implies action_responses@[p] == prer[p] by {}
            }
            j = j + 1;
        }
        let ghost pre = results@;
        results.push(ActionSequenceResult { responses: action_responses });
        proof {
            assert forall|p: int| 0 <= p < i implies results@[p] == pre[p] by {}
        }
        i = i + 1;
    }
    ExecuteActionSequencesResponse { results }
}


/// Combines per-sequence outcomes gathered by a runner that executed the
/// sequences as independent concurrent units: the finished bundles keep
/// their submission order, and the first critical error in that order fails
/// the whole batch.
pub fn combine_sequence_outcomes(
    results: Vec<(Vec<ExecuteActionCommand>, Option<MbtError>)>,
) -> (r: (Vec<Vec<ExecuteActionCommand>>, Option<MbtError>))
    ensures
        r.0@.len() == results@.len(),
        forall|i: int| 0 <= i < results@.len() ==> #[trigger] r.0@[i] == results@[i].0,
        match r.1 {
            Some(e) => exists|i: int|
                0 <= i < results@.len() && (match (#[trigger] results@[i]).1 {
                    Some(e2) => e2@ == e@,
                    None => false,
                }) && (forall|i2: int| 0 <= i2 < i ==> (#[trigger] results@[i2]).1 is None),
            None => forall|i: int| 0 <= i < results@.len() ==> (#[trigger] results@[i]).1 is None,
        },
{
    let ghost orig = results@;
    let mut input = results;
    let mut bundles: Vec<Vec<ExecuteActionCommand>> = Vec::new();
    let mut failure: Option<MbtError> = None;
    let n = input.len();
    let mut i: usize = 0;
    proof {
        assert(input@ =~= orig.skip(0));
    }
    while i < n
        invariant
            i <= n,
            n == orig.len(),
            input@ == orig.skip(i as int),
            bundles@.len() == i,
            forall|p: int| 0 <= p < i ==> #[trigger] bundles@[p] == orig[p].0,
            match failure {
                Some(e) => exists|p: int|
                    0 <= p < i && (match (#[trigger] orig[p]).1 {
                        Some(e2) => e2@ == e@,
                        None => false,
                    }) && (forall|p2: int| 0 <= p2 < p ==> (#[trigger] orig[p2]).1 is None),
                None => forall|p: int| 0 <= p < i ==> (#[trigger] orig[p]).1 is None,
            },
        decreases n - i,
    {
        proof {
            assert(input@[0] == orig[i as int]);
        }
        let (bundle, fail) = input.remove(0);
        proof {
            assert(input@ =~= orig.skip(i as int + 1));
        }
        let ghost pre = bundles@;
        bundles.push(bundle);
        proof {
            assert forall|p: int| 0 <= p < i implies bundles@[p] == pre[p] by {}
        }
        match fail {
            Some(e) => {
                if failure.is_none() {
                    failure = Some(e);
                }
            },
            None => {},
        }
        i = i + 1;
    }
    (bundles, failure)
}

} // verus!
