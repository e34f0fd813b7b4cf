//! An interleaving exerciser for the lock discipline around the service:
//! action execution holds the lock shared, so two concurrent batched calls
//! proceed together (neither blocks the other), while initialization holds
//! it exclusively and cannot overlap any execution.

use std::sync::atomic::{AtomicUsize, Ordering};
use std::sync::{Arc, Barrier, RwLock};

use fizzbee_mbt::wire::{
    ActionSequence, ExecuteActionRequest, ExecuteActionSequencesRequest, RoleRef,
};
use fizzbee_mbt::{Arg, DispatchModel, FizzBeeServiceImpl, MbtError, Model, RoleId, Value};

/// A model whose actions rendezvous at a barrier: an action completes only
/// if another action runs at the same time. It also checks the invariant
/// that no action overlaps initialization or teardown.
struct RendezvousModel {
    barrier: Arc<Barrier>,
    in_lifecycle: Arc<AtomicUsize>,
    overlaps_seen: Arc<AtomicUsize>,
}

impl Model for RendezvousModel {
    fn init(&mut self) -> Result<(), MbtError> {
        self.in_lifecycle.fetch_add(1, Ordering::SeqCst);
        let start = std::time::Instant::now();
        while start.elapsed().as_millis() < 5 {}
        self.in_lifecycle.fetch_sub(1, Ordering::SeqCst);
        Ok(())
    }

    fn cleanup(&mut self) -> Result<(), MbtError> {
        Ok(())
    }
}

impl DispatchModel for RendezvousModel {
    fn execute(
        &self,
        _role_id: &RoleId,
        function_name: &str,
        _args: &[Arg],
    ) -> Result<Value, MbtError> {
        if self.in_lifecycle.load(Ordering::SeqCst) > 0 {
            self.overlaps_seen.fetch_add(1, Ordering::SeqCst);
        }
        if function_name == "rendezvous" {
            // Completes only when the sibling call reaches the same point:
            // concurrent executes must not block each other.
            self.barrier.wait();
        }
        Ok(Value::NoneVal)
    }

    fn get_roles(&mut self) -> Result<Vec<RoleId>, MbtError> {
        Ok(Vec::new())
    }
}

fn one_action_batch(name: &str) -> ExecuteActionSequencesRequest {
    ExecuteActionSequencesRequest {
        action_sequence: vec![ActionSequence {
            requests: vec![ExecuteActionRequest {
                role: Some(RoleRef { role_name: "r".to_string(), role_id: 0 }),
                action_name: name.to_string(),
                args: Vec::new(),
            }],
        }],
    }
}

#[test]
fn concurrent_executes_share_the_lock_and_do_not_block_each_other() {
    let barrier = Arc::new(Barrier::new(2));
    let in_lifecycle = Arc::new(AtomicUsize::new(0));
    let overlaps_seen = Arc::new(AtomicUsize::new(0));
    let model = RendezvousModel {
        barrier: barrier.clone(),
        in_lifecycle: in_lifecycle.clone(),
        overlaps_seen: overlaps_seen.clone(),
    };
    let service = Arc::new(RwLock::new(FizzBeeServiceImpl::new(model)));

    let runtime = tokio::runtime::Builder::new_multi_thread()
        .worker_threads(2)
        .build()
        .unwrap();
    let s1 = service.clone();
    let s2 = service.clone();
    runtime.block_on(async move {
        let t1 = tokio::task::spawn_blocking(move || {
            let guard = s1.read().unwrap();
            guard.execute_action_sequences(one_action_batch("rendezvous")).unwrap()
        });
        let t2 = tokio::task::spawn_blocking(move || {
            let guard = s2.read().unwrap();
            guard.execute_action_sequences(one_action_batch("rendezvous")).unwrap()
        });
        // Both calls hold the lock shared at once; if execution blocked the
        // sibling, the barrier would never release and the test would hang.
        let (r1, r2) = (t1.await.unwrap(), t2.await.unwrap());
        assert_eq!(r1.results.len(), 1);
        assert_eq!(r2.results.len(), 1);
    });
    assert_eq!(overlaps_seen.load(Ordering::SeqCst), 0);
}

#[test]
fn init_holds_the_lock_exclusively_against_executes() {
    let barrier = Arc::new(Barrier::new(1));
    let in_lifecycle = Arc::new(AtomicUsize::new(0));
    let overlaps_seen = Arc::new(AtomicUsize::new(0));
    let model = RendezvousModel {
        barrier,
        in_lifecycle: in_lifecycle.clone(),
        overlaps_seen: overlaps_seen.clone(),
    };
    let service = Arc::new(RwLock::new(FizzBeeServiceImpl::new(model)));

    let runtime = tokio::runtime::Builder::new_multi_thread()
        .worker_threads(4)
        .build()
        .unwrap();
    runtime.block_on(async {
        let mut tasks = Vec::new();
        for round in 0..4 {
            let s = service.clone();
            if round % 2 == 0 {
                tasks.push(tokio::task::spawn_blocking(move || {
                    let mut guard = s.write().unwrap();
                    guard.init(fizzbee_mbt::wire::InitRequest {}).unwrap();
                }));
            } else {
                tasks.push(tokio::task::spawn_blocking(move || {
                    let guard = s.read().unwrap();
                    guard.execute_action_sequences(one_action_batch("plain")).unwrap();
                }));
            }
        }
        for t in tasks {
            t.await.unwrap();
        }
    });
    // No action ever observed itself overlapping a lifecycle operation.
    assert_eq!(overlaps_seen.load(Ordering::SeqCst), 0);
}
