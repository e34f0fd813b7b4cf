use std::sync::{Arc, Mutex};

use fizzbee_mbt::engine::{combine_sequence_outcomes, execute_sequence, run_sequences};
use fizzbee_mbt::wire::{
    ActionSequence, ExecuteActionRequest, ExecuteActionSequencesRequest, InitRequest, RoleRef,
    StatusCode, WireArg,
};
use fizzbee_mbt::{Arg, DispatchModel, FizzBeeServiceImpl, MbtError, Model, RoleId, Value, WireValue};

/// A model that records every executed action and answers by action name:
/// "ok" succeeds, "nope" declines, "boom" fails.
struct ScriptedModel {
    log: Arc<Mutex<Vec<String>>>,
}

impl ScriptedModel {
    fn new() -> ScriptedModel {
        ScriptedModel { log: Arc::new(Mutex::new(Vec::new())) }
    }

    fn with_log(log: Arc<Mutex<Vec<String>>>) -> ScriptedModel {
        ScriptedModel { log }
    }

    fn executed(&self) -> Vec<String> {
        self.log.lock().unwrap().clone()
    }
}

impl Model for ScriptedModel {
    fn init(&mut self) -> Result<(), MbtError> {
        Ok(())
    }

    fn cleanup(&mut self) -> Result<(), MbtError> {
        Ok(())
    }
}

impl DispatchModel for ScriptedModel {
    fn execute(
        &self,
        _role_id: &RoleId,
        function_name: &str,
        _args: &[Arg],
    ) -> Result<Value, MbtError> {
        self.log.lock().unwrap().push(function_name.to_string());
        if function_name.starts_with("nope") {
            Err(MbtError::not_implemented("declined".to_string()))
        } else if function_name.starts_with("boom") {
            Err(MbtError::other("exploded".to_string()))
        } else {
            Ok(Value::Int(7))
        }
    }

    fn get_roles(&mut self) -> Result<Vec<RoleId>, MbtError> {
        Ok(vec![RoleId { role_name: "node".to_string(), index: 0 }])
    }
}

fn request(action: &str) -> ExecuteActionRequest {
    ExecuteActionRequest {
        role: Some(RoleRef { role_name: "node".to_string(), role_id: 0 }),
        action_name: action.to_string(),
        args: Vec::new(),
    }
}

fn batch(seqs: Vec<Vec<&str>>) -> ExecuteActionSequencesRequest {
    ExecuteActionSequencesRequest {
        action_sequence: seqs
            .into_iter()
            .map(|actions| ActionSequence {
                requests: actions.into_iter().map(request).collect(),
            })
            .collect(),
    }
}

#[test]
fn sequence_fail_fast_aborts_the_whole_batch() {
    let model = ScriptedModel::new();
    let service = FizzBeeServiceImpl::new(model);
    let result = service.execute_action_sequences(batch(vec![
        vec!["a1", "boom_a2", "a3"],
        vec!["b1", "b2"],
    ]));
    // A critical failure anywhere fails the entire batch with one error,
    // not a partial response.
    match result {
        Err(MbtError::Other(m)) => assert_eq!(m, "exploded"),
        other => panic!("expected the batch to fail critically, got {:?}", other),
    }
}

#[test]
fn sequence_fail_fast_skips_trailing_commands_but_not_sibling_sequences() {
    let model = ScriptedModel::new();
    let base = std::time::Instant::now();
    let req1 = batch(vec![vec!["a1", "boom_a2", "a3"], vec!["b1", "b2"]]);
    let bundles = fizzbee_mbt::engine::deserialize_sequences(req1).unwrap();
    let (done, failure) = run_sequences(&model, &base, bundles);
    assert!(failure.is_some());
    // First sequence: a1 completed, boom_a2 failed, a3 never attempted.
    assert!(done[0][0].return_value.is_some());
    assert!(done[0][1].error.is_some());
    assert!(done[0][2].start_time.is_none());
    assert!(done[0][2].return_value.is_none());
    assert!(done[0][2].error.is_none());
    // Second sequence completed normally: it is independent of the first.
    assert!(done[1][0].return_value.is_some());
    assert!(done[1][1].return_value.is_some());
    let log = model.executed();
    assert!(log.contains(&"a1".to_string()));
    assert!(log.contains(&"boom_a2".to_string()));
    assert!(!log.contains(&"a3".to_string()));
    assert!(log.contains(&"b1".to_string()));
    assert!(log.contains(&"b2".to_string()));
}

#[test]
fn not_implemented_is_tolerated_and_the_sequence_continues() {
    let model = ScriptedModel::new();
    let service = FizzBeeServiceImpl::new(model);
    let resp = service
        .execute_action_sequences(batch(vec![vec!["nope_a1", "a2"]]))
        .expect("a declined action must not fail the batch");
    assert_eq!(resp.results.len(), 1);
    let responses = &resp.results[0].responses;
    assert_eq!(responses.len(), 2);
    let st1 = responses[0].status.as_ref().unwrap();
    assert_eq!(st1.code, StatusCode::StatusNotImplemented);
    assert!(responses[0].exec_time.is_some());
    let st2 = responses[1].status.as_ref().unwrap();
    assert_eq!(st2.code, StatusCode::StatusOk);
    assert_eq!(responses[1].return_values, vec![WireValue::IntValue(7)]);
}

#[test]
fn execute_sequence_records_timing_and_outcomes_in_order() {
    let model = ScriptedModel::new();
    let base = std::time::Instant::now();
    let req = batch(vec![vec!["a1", "a2"]]);
    let bundles = fizzbee_mbt::engine::deserialize_sequences(req).unwrap();
    let bundle = bundles.into_iter().next().unwrap();
    let (done, failure, _) = execute_sequence(&model, &base, bundle);
    assert!(failure.is_none());
    assert_eq!(done.len(), 2);
    for cmd in &done {
        assert!(cmd.start_time.is_some());
        assert!(cmd.end_time.is_some());
        assert!(cmd.start_time.unwrap() <= cmd.end_time.unwrap());
        assert_eq!(cmd.return_value, Some(Value::Int(7)));
        assert!(cmd.error.is_none());
    }
    assert_eq!(model.executed(), vec!["a1".to_string(), "a2".to_string()]);
}

#[test]
fn deserialize_rejects_an_argument_without_a_value() {
    let mut req = batch(vec![vec!["a1"]]);
    req.action_sequence[0].requests[0].args =
        vec![WireArg { name: "n".to_string(), value: None }];
    match fizzbee_mbt::engine::deserialize_sequences(req) {
        Err(MbtError::Other(m)) => {
            assert_eq!(m, "Value is missing for argument 'n'.");
        }
        other => panic!("expected the missing-value error, got {:?}", other),
    }
}

#[test]
fn init_discovers_roles() {
    let model = ScriptedModel::new();
    let mut service = FizzBeeServiceImpl::new(model);
    let resp = service.init(InitRequest {}).unwrap();
    let st = resp.status.unwrap();
    assert_eq!(st.code, StatusCode::StatusOk);
    assert_eq!(st.message, "OK");
    assert_eq!(resp.roles.len(), 1);
    assert_eq!(resp.roles[0].role_name, "node");
    assert_eq!(resp.roles[0].role_id, 0);
}

#[test]
fn combining_outcomes_keeps_order_and_fails_on_the_first_error() {
    let model = ScriptedModel::new();
    let base = std::time::Instant::now();
    let req = batch(vec![vec!["a1"], vec!["boom_b1"], vec!["c1"]]);
    let bundles = fizzbee_mbt::engine::deserialize_sequences(req).unwrap();
    let mut results = Vec::new();
    for bundle in bundles {
        let (done, fail, _) = execute_sequence(&model, &base, bundle);
        results.push((done, fail));
    }
    let (combined, failure) = combine_sequence_outcomes(results);
    assert_eq!(combined.len(), 3);
    assert_eq!(combined[0][0].request.action_name, "a1");
    assert_eq!(combined[1][0].request.action_name, "boom_b1");
    assert_eq!(combined[2][0].request.action_name, "c1");
    match failure {
        Some(MbtError::Other(m)) => assert_eq!(m, "exploded"),
        other => panic!("expected the critical error, got {:?}", other),
    }
}

#[test]
fn an_empty_batch_succeeds() {
    let service = FizzBeeServiceImpl::new(ScriptedModel::new());
    let resp = service
        .execute_action_sequences(batch(vec![]))
        .expect("an empty batch has nothing that can fail");
    assert_eq!(resp.results.len(), 0);
}

#[test]
fn a_batch_of_empty_sequences_succeeds() {
    let service = FizzBeeServiceImpl::new(ScriptedModel::new());
    let resp = service
        .execute_action_sequences(batch(vec![vec![], vec![]]))
        .expect("sequences without requests have nothing that can fail");
    assert_eq!(resp.results.len(), 2);
    assert_eq!(resp.results[0].responses.len(), 0);
    assert_eq!(resp.results[1].responses.len(), 0);
}

#[test]
fn a_batched_argument_that_does_not_decode_fails_the_call_first() {
    let mut req = batch(vec![vec!["a1"], vec!["b1"]]);
    req.action_sequence[1].requests[0].args =
        vec![WireArg { name: "n".to_string(), value: None }];
    let log = Arc::new(Mutex::new(Vec::new()));
    let service = FizzBeeServiceImpl::new(ScriptedModel::with_log(log.clone()));
    match service.execute_action_sequences(req) {
        Err(MbtError::Other(m)) => assert_eq!(m, "Value is missing for argument 'n'."),
        other => panic!("expected the decode error, got {:?}", other),
    }
    // Decoding happens up front: nothing was executed.
    assert_eq!(log.lock().unwrap().len(), 0);
}
