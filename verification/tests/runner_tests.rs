use fizzbee_mbt::runner::{
    build_child_args, get_arg_value, shutdown_outcome, u32_to_string, uds_path,
};
use fizzbee_mbt::{EnvOverrides, MbtError, RunEvent, TestOptions};

fn no_env() -> EnvOverrides {
    EnvOverrides {
        max_actions: None,
        max_seq_runs: None,
        max_parallel_runs: None,
        seq_seed: None,
        parallel_seed: None,
    }
}

#[test]
fn numbers_render_in_decimal() {
    assert_eq!(u32_to_string(0), "0");
    assert_eq!(u32_to_string(7), "7");
    assert_eq!(u32_to_string(10), "10");
    assert_eq!(u32_to_string(12345), "12345");
    assert_eq!(u32_to_string(u32::MAX), "4294967295");
}

#[test]
fn environment_value_wins_over_the_option() {
    // With MAX_ACTIONS=5 in the environment and max_actions = Some(9) in the
    // options, the environment's 5 is what the child sees.
    assert_eq!(get_arg_value(Some("5".to_string()), Some(9)), Some("5".to_string()));
    assert_eq!(get_arg_value(None, Some(9)), Some("9".to_string()));
    assert_eq!(get_arg_value(None, None), None);
}

#[test]
fn child_args_respect_environment_precedence() {
    let env = EnvOverrides { max_actions: Some("5".to_string()), ..no_env() };
    let options = TestOptions { max_actions: Some(9), ..TestOptions::default() };
    let args = build_child_args(env, options);
    assert!(args.contains(&"--max-actions=5".to_string()));
    assert!(!args.iter().any(|a| a.contains('9')));
}

#[test]
fn unset_flags_are_omitted_entirely() {
    let args = build_child_args(no_env(), TestOptions::default());
    assert_eq!(args, vec![format!("--plugin-addr={}", uds_path())]);
}

#[test]
fn all_flags_appear_in_a_fixed_order() {
    let env = EnvOverrides {
        max_actions: None,
        max_seq_runs: Some("3".to_string()),
        max_parallel_runs: None,
        seq_seed: Some("11".to_string()),
        parallel_seed: Some("13".to_string()),
    };
    let options = TestOptions {
        max_seq_runs: None,
        max_parallel_runs: Some(4),
        max_actions: Some(2),
    };
    let args = build_child_args(env, options);
    assert_eq!(
        args,
        vec![
            format!("--plugin-addr={}", uds_path()),
            "--max-actions=2".to_string(),
            "--max-seq-runs=3".to_string(),
            "--max-parallel-runs=4".to_string(),
            "--seq-seed=11".to_string(),
            "--parallel-seed=13".to_string(),
        ]
    );
}

#[test]
fn interrupt_kills_the_child_and_fails_the_run() {
    // An interrupt while the child runs: the child must be killed and
    // reaped, and the run reports an interruption error.
    let (kill_child, outcome) = shutdown_outcome(RunEvent::Interrupted);
    assert!(kill_child);
    match outcome {
        Err(MbtError::Other(m)) => assert_eq!(m, "Test interrupted by signal SIGINT"),
        other => panic!("expected an interruption error, got {:?}", other),
    }
}

#[test]
fn terminate_is_distinct_from_interrupt() {
    let (kill_child, outcome) = shutdown_outcome(RunEvent::Terminated);
    assert!(kill_child);
    match outcome {
        Err(MbtError::Other(m)) => assert_eq!(m, "Test interrupted by signal SIGTERM"),
        other => panic!("expected an interruption error, got {:?}", other),
    }
}

#[test]
fn a_successful_child_exit_is_the_only_success() {
    let (kill_child, outcome) =
        shutdown_outcome(RunEvent::ChildExited { success: true, status: "exit status: 0".to_string() });
    assert!(!kill_child);
    assert!(outcome.is_ok());
    let (kill_child, outcome) =
        shutdown_outcome(RunEvent::ChildExited { success: false, status: "exit status: 1".to_string() });
    assert!(!kill_child);
    match outcome {
        Err(MbtError::Other(m)) => {
            assert_eq!(m, "Child process failed with status: exit status: 1")
        }
        other => panic!("expected a child-failure error, got {:?}", other),
    }
}

#[test]
fn a_server_stop_is_always_a_failure_and_kills_the_child() {
    let (kill_child, outcome) = shutdown_outcome(RunEvent::ServerStopped { error: None });
    assert!(kill_child);
    match outcome {
        Err(MbtError::Other(m)) => {
            assert_eq!(m, "Server terminated unexpectedly before child process.")
        }
        other => panic!("expected a server-stop error, got {:?}", other),
    }
    let (kill_child, outcome) =
        shutdown_outcome(RunEvent::ServerStopped { error: Some("bind lost".to_string()) });
    assert!(kill_child);
    match outcome {
        Err(MbtError::Other(m)) => assert_eq!(m, "Server failed: bind lost"),
        other => panic!("expected a server-failure error, got {:?}", other),
    }
}
