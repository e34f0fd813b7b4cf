//! The decision logic of the process orchestrator: how the child process's
//! command line is assembled (environment overrides take precedence over the
//! programmatic options, and an unset option omits its flag), and what each
//! terminal event of the run means for the child and for the reported
//! outcome. The surrounding process plumbing — binding the socket, spawning
//! the child, listening for signals — acts on these decisions.

use vstd::prelude::*;
use vstd::string::StringExecFns;
use crate::config::TestOptions;
use crate::error::{ErrorModel, MbtError};

verus! {

/// The decimal digit character of a value below ten.
pub open spec fn digit_char(d: int) -> char {
    if d == 0 {
        '0'
    } else if d == 1 {
        '1'
    } else if d == 2 {
        '2'
    } else if d == 3 {
        '3'
    } else if d == 4 {
        '4'
    } else if d == 5 {
        '5'
    } else if d == 6 {
        '6'
    } else if d == 7 {
        '7'
    } else if d == 8 {
        '8'
    } else {
        '9'
    }
}

/// The decimal digits of a nonnegative number, most significant first.
pub open spec fn dec_chars(n: int) -> Seq<char>
    decreases n,
{
    if n < 10 {
        seq![digit_char(n)]
    } else {
        dec_chars(n / 10) + seq![digit_char(n % 10)]
    }
}

/// The one-character string of a decimal digit.
fn digit_str(d: u32) -> (r: &'static str)
    requires
        d < 10,
    ensures
        r@ == seq![digit_char(d as int)],
{
    let s: &'static str = if d == 0 {
        "0"
    } else if d == 1 {
        "1"
    } else if d == 2 {
        "2"
    } else if d == 3 {
        "3"
    } else if d == 4 {
        "4"
    } else if d == 5 {
        "5"
    } else if d == 6 {
        "6"
    } else if d == 7 {
        "7"
    } else if d == 8 {
        "8"
    } else {
        "9"
    };
    proof {
        reveal_strlit("0");
        reveal_strlit("1");
        reveal_strlit("2");
        reveal_strlit("3");
        reveal_strlit("4");
        reveal_strlit("5");
        reveal_strlit("6");
        reveal_strlit("7");
        reveal_strlit("8");
        reveal_strlit("9");
        assert(s@ =~= seq![digit_char(d as int)]);
    }
    s
}

/// Renders a number in decimal.
pub fn u32_to_string(n: u32) -> (r: String)
    ensures
        r@ == dec_chars(n as int),
    decreases n,
{
    if n < 10 {
        String::from_str(digit_str(n))
    } else {
        let front = u32_to_string(n / 10);
        front.concat(digit_str(n % 10))
    }
}

/// The value an optional child argument resolves to: the environment wins
/// over the programmatic option; with neither the argument is absent.
pub open spec fn resolved_arg(env_value: Option<String>, option_value: Option<u32>) -> Option<
    Seq<char>,
> {
    match env_value {
        Some(s) => Some(s@),
        None => match option_value {
            Some(n) => Some(dec_chars(n as int)),
            None => None,
        },
    }
}

/// Resolves one optional child argument: the environment variable's value
/// first, else the programmatic option rendered in decimal, else nothing.
pub fn get_arg_value(env_value: Option<String>, option_value: Option<u32>) -> (r: Option<String>)
    ensures
        match resolved_arg(env_value, option_value) {
            Some(s) => r matches Some(v) && v@ == s,
            None => r is None,
        },
{
    match env_value {
        Some(val) => Some(val),
        None => match option_value {
            Some(n) => Some(u32_to_string(n)),
            None => None,
        },
    }
}

/// The filesystem path of the local server socket.
pub open spec fn uds_path_spec() -> Seq<char> {
    "/tmp/fizzbee_mbt.sock"@
}

/// The filesystem path of the local server socket; any stale file here is
/// removed before binding.
pub fn uds_path() -> (r: &'static str)
    ensures
        r@ == uds_path_spec(),
{
    "/tmp/fizzbee_mbt.sock"
}

/// The environment's overrides for the child's tuning arguments, already
/// read from the process environment by the caller. The two seeds exist
/// only here: they have no programmatic equivalent.
pub struct EnvOverrides {
    pub max_actions: Option<String>,
    pub max_seq_runs: Option<String>,
    pub max_parallel_runs: Option<String>,
    pub seq_seed: Option<String>,
    pub parallel_seed: Option<String>,
}

/// One optional flag of the child's command line: `prefix` then the value,
/// or nothing at all when the value is absent.
pub open spec fn maybe_flag(prefix: Seq<char>, v: Option<Seq<char>>) -> Seq<Seq<char>> {
    match v {
        Some(s) => seq![prefix + s],
        None => Seq::empty(),
    }
}

/// The environment view of an optional string.
pub open spec fn opt_chars(o: Option<String>) -> Option<Seq<char>> {
    match o {
        Some(s) => Some(s@),
        None => None,
    }
}

/// The child's full argument list: the mandatory socket address, then each
/// tuning flag that resolves to a value (environment over options), then
/// the environment-only seeds.
pub open spec fn child_args_model(env: EnvOverrides, options: TestOptions) -> Seq<Seq<char>> {
    seq!["--plugin-addr="@ + uds_path_spec()] + maybe_flag(
        "--max-actions="@,
        resolved_arg(env.max_actions, options.max_actions),
    ) + maybe_flag("--max-seq-runs="@, resolved_arg(env.max_seq_runs, options.max_seq_runs))
        + maybe_flag(
        "--max-parallel-runs="@,
        resolved_arg(env.max_parallel_runs, options.max_parallel_runs),
    ) + maybe_flag("--seq-seed="@, opt_chars(env.seq_seed)) + maybe_flag(
        "--parallel-seed="@,
        opt_chars(env.parallel_seed),
    )
}

/// Builds the child's command-line arguments from the environment's
/// overrides and the programmatic options. An environment value takes
/// precedence over the corresponding option; a flag neither gives is
/// omitted entirely.
pub fn build_child_args(env: EnvOverrides, options: TestOptions) -> (r: Vec<String>)
    ensures
        r@.len() == child_args_model(env, options).len(),
        forall|i: int|
            0 <= i < r@.len() ==> (#[trigger] r@[i])@ == child_args_model(env, options)[i],
{
    let ghost m = child_args_model(env, options);
    let mut args: Vec<String> = Vec::new();
    args.push(String::from_str("--plugin-addr=").concat(uds_path()));
    let EnvOverrides { max_actions, max_seq_runs, max_parallel_runs, seq_seed, parallel_seed } =
        env;
    match get_arg_value(max_actions, options.max_actions) {
        Some(val) => {
            args.push(String::from_str("--max-actions=").concat(val.as_str()));
        },
        None => {},
    }
    match get_arg_value(max_seq_runs, options.max_seq_runs) {
        Some(val) => {
            args.push(String::from_str("--max-seq-runs=").concat(val.as_str()));
        },
        None => {},
    }
    match get_arg_value(max_parallel_runs, options.max_parallel_runs) {
        Some(val) => {
            args.push(String::from_str("--max-parallel-runs=").concat(val.as_str()));
        },
        None => {},
    }
    match seq_seed {
        Some(val) => {
            args.push(String::from_str("--seq-seed=").concat(val.as_str()));
        },
        None => {},
    }
    match parallel_seed {
        Some(val) => {
            args.push(String::from_str("--parallel-seed=").concat(val.as_str()));
        },
        None => {},
    }
    proof {
        assert forall|i: int| 0 <= i < args@.len() implies (#[trigger] args@[i])@ == m[i] by {}
        assert(args@.len() == m.len());
    }
    args
}

/// The terminal events the orchestrator's run races: the server stopping on
/// its own (with an error's text where it failed), the child exiting (with
/// its rendered exit status), the wait on the child itself failing, and the
/// two abort signals.
pub enum RunEvent {
    ServerStopped { error: Option<String> },
    ChildExited { success: bool, status: String },
    ChildWaitFailed { message: String },
    Interrupted,
    Terminated,
}

/// The message reported for each terminal event.
pub open spec fn outcome_message(event: RunEvent) -> Seq<char> {
    match event {
        RunEvent::ServerStopped { error } => match error {
            None => "Server terminated unexpectedly before child process."@,
            Some(m) => "Server failed: "@ + m@,
        },
        RunEvent::ChildExited { success, status } => "Child process failed with status: "@
            + status@,
        RunEvent::ChildWaitFailed { message } => message@,
        RunEvent::Interrupted => "Test interrupted by signal SIGINT"@,
        RunEvent::Terminated => "Test interrupted by signal SIGTERM"@,
    }
}

/// Decides the run's shutdown: whether the child must still be killed and
/// reaped, and the run's outcome. Only a child that exited on its own
/// succeeds, and only with a successful exit status; every other event
/// fails the run. On a server stop and on either signal the child is still
/// running and must be killed then waited for — it must never be left
/// behind; a child that already exited, or whose wait failed, is not
/// killed.
pub fn shutdown_outcome(event: RunEvent) -> (r: (bool, Result<(), MbtError>))
    ensures
        r.0 == match event {
            RunEvent::ServerStopped { .. } => true,
            RunEvent::ChildExited { .. } => false,
            RunEvent::ChildWaitFailed { .. } => false,
            RunEvent::Interrupted => true,
            RunEvent::Terminated => true,
        },
        match event {
            RunEvent::ChildExited { success: true, .. } => r.1 is Ok,
            _ => r.1 matches Err(e) && e@ == ErrorModel::Other(outcome_message(event)),
        },
{
    match event {
        RunEvent::ServerStopped { error } => match error {
            None => (
                true,
                Err(
                    MbtError::other(
                        String::from_str("Server terminated unexpectedly before child process."),
                    ),
                ),
            ),
            Some(m) => (
                true,
                Err(MbtError::other(String::from_str("Server failed: ").concat(m.as_str()))),
            ),
        },
        RunEvent::ChildExited { success, status } => {
            if success {
                (false, Ok(()))
            } else {
                (
                    false,
                    Err(
                        MbtError::other(
                            String::from_str("Child process failed with status: ").concat(
                                status.as_str(),
                            ),
                        ),
                    ),
                )
            }
        },
        RunEvent::ChildWaitFailed { message } => (false, Err(MbtError::other(message))),
        RunEvent::Interrupted => (
            true,
            Err(MbtError::other(String::from_str("Test interrupted by signal SIGINT"))),
        ),
        RunEvent::Terminated => (
            true,
            Err(MbtError::other(String::from_str("Test interrupted by signal SIGTERM"))),
        ),
    }
}

} // verus!
