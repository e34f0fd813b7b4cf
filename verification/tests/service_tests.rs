use fizzbee_mbt::wire::{
    mbt_error_to_proto_status, proto_args_to_rust_args, proto_ref_to_role_id, proto_status_ok,
    role_id_to_proto_ref, CleanupRequest, ExecuteActionRequest, RoleRef, StatusCode, WireArg,
};
use fizzbee_mbt::{
    Arg, DispatchModel, FizzBeeServiceImpl, MbtError, Model, RoleId, Value, WireValue,
};

struct EchoModel;

impl Model for EchoModel {
    fn init(&mut self) -> Result<(), MbtError> {
        Ok(())
    }

    fn cleanup(&mut self) -> Result<(), MbtError> {
        Err(MbtError::other("teardown failed".to_string()))
    }
}

impl DispatchModel for EchoModel {
    fn execute(
        &self,
        role_id: &RoleId,
        function_name: &str,
        args: &[Arg],
    ) -> Result<Value, MbtError> {
        if function_name == "first_arg" {
            match args.first() {
                Some(a) => match &a.value {
                    Value::Int(i) => Ok(Value::Int(*i)),
                    _ => Ok(Value::NoneVal),
                },
                None => Ok(Value::NoneVal),
            }
        } else if function_name == "who" {
            Ok(Value::Str(role_id.role_name.clone()))
        } else if function_name == "quiet" {
            Ok(Value::NoneVal)
        } else {
            Err(MbtError::not_implemented("unknown action".to_string()))
        }
    }

    fn get_roles(&mut self) -> Result<Vec<RoleId>, MbtError> {
        Ok(vec![
            RoleId { role_name: "a".to_string(), index: 0 },
            RoleId { role_name: "b".to_string(), index: 1 },
        ])
    }
}

fn action(name: &str, args: Vec<WireArg>) -> ExecuteActionRequest {
    ExecuteActionRequest {
        role: Some(RoleRef { role_name: "a".to_string(), role_id: 0 }),
        action_name: name.to_string(),
        args,
    }
}

#[test]
fn execute_action_returns_the_value_and_refreshed_roles() {
    let mut service = FizzBeeServiceImpl::new(EchoModel);
    let resp = service
        .execute_action(action(
            "first_arg",
            vec![WireArg { name: "n".to_string(), value: Some(WireValue::IntValue(41)) }],
        ))
        .unwrap();
    assert_eq!(resp.return_values, vec![WireValue::IntValue(41)]);
    assert_eq!(resp.status.unwrap().code, StatusCode::StatusOk);
    assert_eq!(resp.roles.len(), 2);
}

#[test]
fn execute_action_with_no_return_value_sends_an_empty_list() {
    let mut service = FizzBeeServiceImpl::new(EchoModel);
    let resp = service.execute_action(action("quiet", Vec::new())).unwrap();
    assert_eq!(resp.return_values.len(), 0);
    assert_eq!(resp.status.unwrap().code, StatusCode::StatusOk);
}

#[test]
fn execute_action_reports_a_model_error_as_a_status() {
    let mut service = FizzBeeServiceImpl::new(EchoModel);
    let resp = service.execute_action(action("missing", Vec::new())).unwrap();
    let st = resp.status.unwrap();
    assert_eq!(st.code, StatusCode::StatusNotImplemented);
    assert_eq!(st.message, "Not Implemented: unknown action");
    assert_eq!(resp.return_values.len(), 0);
}

#[test]
fn execute_action_without_a_role_is_rejected() {
    let mut service = FizzBeeServiceImpl::new(EchoModel);
    let req = ExecuteActionRequest {
        role: None,
        action_name: "who".to_string(),
        args: Vec::new(),
    };
    match service.execute_action(req) {
        Err(MbtError::Other(m)) => assert_eq!(m, "RoleRef is missing in request."),
        other => panic!("expected the missing-role error, got {:?}", other),
    }
}

#[test]
fn cleanup_passes_the_model_error_through_verbatim() {
    let mut service = FizzBeeServiceImpl::new(EchoModel);
    match service.cleanup(CleanupRequest {}) {
        Err(MbtError::Other(m)) => assert_eq!(m, "teardown failed"),
        other => panic!("expected the model's own error, got {:?}", other),
    }
}

#[test]
fn role_conversions_are_mutual_inverses() {
    let id = RoleId { role_name: "node".to_string(), index: 3 };
    let rr = role_id_to_proto_ref(id.clone());
    assert_eq!(rr.role_name, "node");
    assert_eq!(rr.role_id, 3);
    let back = proto_ref_to_role_id(rr).unwrap();
    assert_eq!(back, id);
}

#[test]
fn proto_args_decode_names_and_values() {
    let args = proto_args_to_rust_args(vec![
        WireArg { name: "x".to_string(), value: Some(WireValue::IntValue(1)) },
        WireArg { name: "y".to_string(), value: Some(WireValue::Absent) },
    ])
    .unwrap();
    assert_eq!(args.len(), 2);
    assert_eq!(args[0].name, "x");
    assert_eq!(args[0].value, Value::Int(1));
    assert_eq!(args[1].name, "y");
    assert_eq!(args[1].value, Value::NoneVal);
}

#[test]
fn proto_args_report_the_argument_that_lacks_a_value() {
    match proto_args_to_rust_args(vec![WireArg { name: "speed".to_string(), value: None }]) {
        Err(MbtError::Other(m)) => assert_eq!(m, "Value is missing for argument 'speed'."),
        other => panic!("expected the missing-value error, got {:?}", other),
    }
}

#[test]
fn statuses_carry_codes_and_messages() {
    let ok = proto_status_ok();
    assert_eq!(ok.code, StatusCode::StatusOk);
    assert_eq!(ok.message, "OK");
    let ni = mbt_error_to_proto_status(MbtError::not_implemented("later".to_string()));
    assert_eq!(ni.code, StatusCode::StatusNotImplemented);
    assert_eq!(ni.message, "Not Implemented: later");
    let failed = mbt_error_to_proto_status(MbtError::other("broke".to_string()));
    assert_eq!(failed.code, StatusCode::StatusExecutionFailed);
    assert_eq!(failed.message, "Execution Failed: broke");
}
