//! The tables behind a World, each on its own.
use runtime_core::activity::{ActivityPoll, ActivityRegistry};
use runtime_core::diagnostics::History;
use runtime_core::expiry::{ActorDeadlines, DeadlineIndex};
use runtime_core::failures::{EXCEPTION_MAX, FILE_MAX, FUNCTION_MAX, HANDLER_MAX, MAX_FRAMES};
use runtime_core::operations::OperationOwner;
use runtime_core::ordered::OrdSet;
use runtime_core::readiness::PythonReadyIndex;
use runtime_core::routing::{RouteTable, Sub};
use runtime_core::{
    ActorRef, Config, DiagnosticCode, Duration, EndpointKind, Envelope, Error, FailureDetails,
    FailureFrame, FailurePhase, Instant, MessageOptions, OperationFailure, OperationId,
    OperationStatus, OperationTable, Payload, PythonReadyPhase, SchemaIdentity, SchemaKind,
    TerminalOutcome, TraceContext, World,
};
use std::collections::BTreeMap;

/// The machine's time since the Unix epoch.
fn now() -> Instant {
    let elapsed = std::time::SystemTime::now()
        .duration_since(std::time::UNIX_EPOCH)
        .unwrap();
    Instant::from_nanos(elapsed.as_nanos())
}

fn later(at: Instant, by: Duration) -> Instant {
    at.checked_add(by).unwrap()
}

fn sooner(at: Instant, by: Duration) -> Instant {
    Instant::from_nanos(at.nanos - by.nanos)
}

fn micros(count: u64) -> Duration {
    Duration::from_nanos(u128::from(count) * 1000)
}

#[derive(Clone, Copy, Debug, PartialEq, Eq)]
enum ModelStatus {
    Pending,
    Cancelled,
    TimedOut,
    OwnerStopped,
    TargetStopped,
}

#[derive(Clone, Copy)]
struct ModelRecord {
    id: OperationId,
    owner: ActorRef,
    target: ActorRef,
    due: u64,
    status: ModelStatus,
}

fn model_observed(value: OperationStatus) -> ModelStatus {
    match value {
        OperationStatus::Pending(_) => ModelStatus::Pending,
        OperationStatus::Terminal(TerminalOutcome::Cancelled) => ModelStatus::Cancelled,
        OperationStatus::Terminal(TerminalOutcome::TimedOut) => ModelStatus::TimedOut,
        OperationStatus::Terminal(TerminalOutcome::OwnerStopped) => ModelStatus::OwnerStopped,
        OperationStatus::Terminal(TerminalOutcome::TargetStopped) => ModelStatus::TargetStopped,
        OperationStatus::Terminal(_) => panic!("unexpected model outcome"),
    }
}

fn model_random(state: &mut u64) -> u64 {
    *state = state
        .wrapping_mul(6364136223846793005)
        .wrapping_add(1442695040888963407);
    *state >> 16
}

#[test]
fn indexed_operations_match_independent_model_over_bounded_seeded_mutations() {
    for seed in [1, 7, 29, 1069] {
        let mut rng = seed;
        let epoch = now();
        let refs: Vec<_> = (0..8)
            .map(|slot| ActorRef {
                world: 7,
                slot,
                generation: 1,
            })
            .collect();
        let mut table = OperationTable::new(7, 32).unwrap();
        let mut model = BTreeMap::<(u32, u64), ModelRecord>::new();
        let mut retired = None;
        for step in 0..5000u64 {
            let action = model_random(&mut rng) % 10;
            let owner = refs[model_random(&mut rng) as usize % refs.len()];
            let chosen = if model.is_empty() {
                None
            } else {
                model
                    .values()
                    .nth(model_random(&mut rng) as usize % model.len())
                    .copied()
            };
            match (action, chosen) {
                (0..=2, _) => {
                    let target = refs[model_random(&mut rng) as usize % refs.len()];
                    let due = step + model_random(&mut rng) % 100;
                    let result = table.reserve(owner, target, later(epoch, micros(due)));
                    if model.len() == 32 {
                        assert_eq!(result, Err(Error::LimitExceeded));
                    } else {
                        let id = result.unwrap();
                        model.insert(
                            (id.slot, id.generation),
                            ModelRecord {
                                id,
                                owner,
                                target,
                                due,
                                status: ModelStatus::Pending,
                            },
                        );
                    }
                }
                (3, Some(record)) => {
                    let won = table
                        .complete(record.id, TerminalOutcome::Cancelled)
                        .unwrap();
                    assert_eq!(won, record.status == ModelStatus::Pending);
                    if won {
                        model
                            .get_mut(&(record.id.slot, record.id.generation))
                            .unwrap()
                            .status = ModelStatus::Cancelled;
                    }
                }
                (4, Some(record)) => {
                    let value = table.take(record.id).unwrap();
                    assert_eq!(value.is_some(), record.status != ModelStatus::Pending);
                    if let Some(value) = value {
                        assert_eq!(model_observed(OperationStatus::Terminal(&value)), record.status);
                        model.remove(&(record.id.slot, record.id.generation));
                        retired = Some(record.id);
                    }
                }
                (5, Some(record)) => {
                    let released = table.release_unsubmitted(record.id).unwrap();
                    assert_eq!(released, record.status == ModelStatus::Pending);
                    if released {
                        model.remove(&(record.id.slot, record.id.generation));
                        retired = Some(record.id);
                    }
                }
                (6, _) => {
                    let mut expected = Vec::new();
                    for record in model.values_mut() {
                        if record.status == ModelStatus::Pending && record.due <= step {
                            record.status = ModelStatus::TimedOut;
                            expected.push(record.id);
                        }
                    }
                    assert_eq!(
                        table.expire_ids(later(epoch, micros(step))),
                        expected,
                        "seed={seed} step={step}"
                    );
                }
                (7, _) => {
                    let expected = model.values().filter(|r| r.owner == owner).count();
                    assert_eq!(table.retire_owner(owner), expected);
                    model.retain(|_, r| r.owner != owner);
                }
                (8, _) => {
                    let mut expected = 0;
                    for record in model.values_mut() {
                        if record.owner == owner && record.status == ModelStatus::Pending {
                            record.status = ModelStatus::OwnerStopped;
                            expected += 1;
                        }
                    }
                    assert_eq!(table.cancel_owner(owner), expected);
                }
                (9, _) => {
                    let mut expected = 0;
                    for record in model.values_mut() {
                        if record.target == owner && record.status == ModelStatus::Pending {
                            record.status = ModelStatus::TargetStopped;
                            expected += 1;
                        }
                    }
                    assert_eq!(table.stop_target(owner), expected);
                }
                _ => (),
            }
            let pending = model
                .values()
                .filter(|r| r.status == ModelStatus::Pending)
                .count();
            assert_eq!(table.len(), model.len(), "seed={seed} step={step}");
            assert_eq!(table.pending_count(), pending);
            assert_eq!(table.retained_terminal_count(), model.len() - pending);
            for reference in &refs {
                assert_eq!(
                    table.pending_for(*reference),
                    model
                        .values()
                        .filter(|r| r.owner == *reference && r.status == ModelStatus::Pending)
                        .count()
                );
                assert_eq!(
                    table.pending_for_target(*reference),
                    model
                        .values()
                        .filter(|r| r.target == *reference && r.status == ModelStatus::Pending)
                        .count()
                );
            }
            for record in model.values() {
                assert_eq!(
                    model_observed(table.status(record.id).unwrap()),
                    record.status,
                    "seed={seed} step={step}"
                );
            }
            if let Some(id) = retired {
                assert!(matches!(table.status(id), Err(Error::StaleReference)));
                assert_eq!(
                    table.complete(id, TerminalOutcome::Cancelled),
                    Err(Error::StaleReference)
                );
            }
        }
        for reference in refs {
            table.retire_owner(reference);
        }
        assert!(table.is_empty());
        assert_eq!(table.pending_count(), 0);
        assert!(
            table
                .expire_ids(later(epoch, Duration::from_secs(3600)))
                .is_empty()
        );
    }
}

fn operations_refs() -> (ActorRef, ActorRef) {
    (
        ActorRef {
            world: 7,
            slot: 1,
            generation: 1,
        },
        ActorRef {
            world: 7,
            slot: 2,
            generation: 1,
        },
    )
}

#[test]
fn retained_failure_does_not_keep_oversized_string_capacity() {
    let (owner, target) = operations_refs();
    let mut table = OperationTable::new(7, 1).unwrap();
    let id = table.reserve(owner, target, now()).unwrap();
    let mut message = String::with_capacity(1_000_000);
    message.push_str("failure");
    table
        .complete(
            id,
            TerminalOutcome::Failed {
                code: OperationFailure::HandlerFailed,
                message,
            },
        )
        .unwrap();
    let OperationStatus::Terminal(TerminalOutcome::Failed { message, .. }) =
        table.status(id).unwrap()
    else {
        panic!("missing failure")
    };
    assert!(message.capacity() <= 1024);
}

#[test]
fn participant_metadata_tracks_pending_terminal_and_retired_states() {
    let (owner, target) = operations_refs();
    let mut table = OperationTable::new(7, 2).unwrap();
    let id = table
        .reserve(owner, target, later(now(), Duration::from_secs(1)))
        .unwrap();
    assert_eq!(table.participants(id).unwrap(), (owner, Some(target)));
    assert_eq!(
        table.pending_participants_for(owner),
        vec![OperationOwner { owner, target }]
    );
    assert!(table.complete(id, TerminalOutcome::TimedOut).unwrap());
    assert_eq!(table.participants(id).unwrap(), (owner, None));
    assert!(table.pending_participants_for(owner).is_empty());
    assert!(table.take(id).unwrap().is_some());
    assert_eq!(table.participants(id), Err(Error::StaleReference));
}

#[test]
fn participant_union_deduplicates_operation_touching_both_ends() {
    let (owner, target) = operations_refs();
    let mut table = OperationTable::new(7, 3).unwrap();
    let both = table
        .reserve(owner, owner, later(now(), Duration::from_secs(1)))
        .unwrap();
    let other = table
        .reserve(owner, target, later(now(), Duration::from_secs(1)))
        .unwrap();
    assert_eq!(
        table.pending_participants_for(owner),
        vec![
            OperationOwner {
                owner,
                target: owner,
            },
            OperationOwner { owner, target },
        ]
    );
    assert_eq!(
        table.pending_participants_for(target),
        vec![OperationOwner { owner, target }]
    );
    table.release_unsubmitted(both).unwrap();
    table.release_unsubmitted(other).unwrap();
}

#[test]
fn due_participants_use_deadline_index_and_exclude_future_entries() {
    let (owner, target) = operations_refs();
    let now = now();
    let mut table = OperationTable::new(7, 3).unwrap();
    let future = table
        .reserve(owner, target, later(now, Duration::from_secs(10)))
        .unwrap();
    let due_late_slot = table
        .reserve(target, owner, later(now, Duration::from_secs(1)))
        .unwrap();
    let due_early_slot = table.reserve(owner, owner, now).unwrap();
    assert_eq!(
        table.due_participants(later(now, Duration::from_secs(2))),
        vec![
            OperationOwner {
                owner: target,
                target: owner,
            },
            OperationOwner {
                owner,
                target: owner,
            },
        ]
    );
    assert_eq!(table.participants(future).unwrap(), (owner, Some(target)));
    table.release_unsubmitted(future).unwrap();
    table.release_unsubmitted(due_late_slot).unwrap();
    table.release_unsubmitted(due_early_slot).unwrap();
}

#[test]
fn indexed_counts_track_reuse_rollback_and_retirement() {
    let (owner, target) = operations_refs();
    let mut table = OperationTable::new(7, 3).unwrap();
    for _ in 0..100 {
        let a = table.reserve(owner, target, now()).unwrap();
        let b = table.reserve(owner, target, now()).unwrap();
        let c = table.reserve(target, owner, now()).unwrap();
        assert_eq!(
            (table.len(), table.pending_count(), table.pending_for(owner)),
            (3, 3, 2)
        );
        assert_eq!(table.deadline_count(), table.pending_count());
        table.release_unsubmitted(b).unwrap();
        assert_eq!(table.deadline_count(), table.pending_count());
        assert!(table.expire_one(a, now()).unwrap());
        assert_eq!(table.deadline_count(), table.pending_count());
        assert!(!table.expire_one(a, now()).unwrap());
        assert_eq!(
            (table.pending_for(owner), table.pending_for_target(target)),
            (0, 0)
        );
        assert_eq!(
            (table.pending_count(), table.retained_terminal_count()),
            (1, 1)
        );
        table.take(a).unwrap().unwrap();
        assert_eq!(table.deadline_count(), table.pending_count());
        assert_eq!(table.retire_owner(target), 1);
        assert_eq!(table.deadline_count(), table.pending_count());
        assert!(table.status(c).is_err());
        assert!(table.is_empty());
        assert_eq!(table.deadline_count(), 0);
        for actor in [owner, target] {
            assert_eq!(
                (table.pending_for(actor), table.pending_for_target(actor)),
                (0, 0)
            );
            assert!(table.pending_participants_for(actor).is_empty());
            assert_eq!(table.retire_owner(actor), 0);
        }
    }
}

#[test]
fn one_winner_and_terminal_retention() {
    let (a, b) = operations_refs();
    let mut t = OperationTable::new(7, 1).unwrap();
    let id = t.reserve(a, b, now()).unwrap();
    assert!(t.complete(id, TerminalOutcome::TimedOut).unwrap());
    assert!(!t.complete(id, TerminalOutcome::Cancelled).unwrap());
    assert!(matches!(
        t.status(id).unwrap(),
        OperationStatus::Terminal(TerminalOutcome::TimedOut)
    ));
    assert!(matches!(
        t.take(id).unwrap(),
        Some(TerminalOutcome::TimedOut)
    ));
}

#[test]
fn pending_limit_and_reuse_stale() {
    let (a, b) = operations_refs();
    let mut t = OperationTable::new(7, 1).unwrap();
    let id = t.reserve(a, b, now()).unwrap();
    assert_eq!(t.reserve(a, b, now()), Err(Error::LimitExceeded));
    t.complete(id, TerminalOutcome::Cancelled).unwrap();
    let old = t.take(id).unwrap();
    assert!(old.is_some());
    let n = t.reserve(a, b, now()).unwrap();
    assert_ne!(id.generation, n.generation);
    assert!(matches!(t.status(id), Err(Error::StaleReference)));
}

#[test]
fn indexes_cancel_and_expire() {
    let (a, b) = operations_refs();
    let mut t = OperationTable::new(7, 3).unwrap();
    let x = t
        .reserve(a, b, sooner(now(), Duration::from_secs(1)))
        .unwrap();
    let y = t
        .reserve(a, b, later(now(), Duration::from_secs(1)))
        .unwrap();
    assert_eq!(t.expire(now()), 1);
    assert_eq!(t.cancel_owner(a), 1);
    assert!(matches!(
        t.status(x).unwrap(),
        OperationStatus::Terminal(TerminalOutcome::TimedOut)
    ));
    assert!(matches!(
        t.status(y).unwrap(),
        OperationStatus::Terminal(TerminalOutcome::OwnerStopped)
    ));
}

#[test]
fn deadline_index_orders_equal_deadlines_and_removes_rollbacks() {
    let (a, b) = operations_refs();
    let mut table = OperationTable::new(7, 4).unwrap();
    let now = now();
    let later = later(now, Duration::from_secs(1));
    let first = table.reserve(a, b, later).unwrap();
    let second = table.reserve(b, a, later).unwrap();
    let third = table.reserve(a, b, now).unwrap();
    assert_eq!(table.deadline_count(), 3);
    assert_eq!(table.expire_ids(now), vec![third]);
    table.release_unsubmitted(first).unwrap();
    assert_eq!(table.deadline_count(), 1);
    assert_eq!(table.expire_ids(later), vec![second]);
    assert_eq!(table.deadline_count(), 0);
}

#[test]
fn old_generation_deadline_cannot_expire_reused_slot() {
    let (a, b) = operations_refs();
    let mut table = OperationTable::new(7, 2).unwrap();
    let old = table
        .reserve(a, b, sooner(now(), Duration::from_secs(1)))
        .unwrap();
    table.release_unsubmitted(old).unwrap();
    let replacement = table
        .reserve(a, b, later(now(), Duration::from_secs(1)))
        .unwrap();
    assert_ne!(old.generation, replacement.generation);
    assert!(table.expire_ids(now()).is_empty());
    assert!(matches!(
        table.status(replacement),
        Ok(OperationStatus::Pending(_))
    ));
    assert_eq!(table.deadline_count(), table.pending_count());
}

#[test]
fn completed_future_operations_do_not_accumulate_deadline_entries() {
    let (a, b) = operations_refs();
    let mut table = OperationTable::new(7, 3).unwrap();
    let future = later(now(), Duration::from_secs(60));
    let survivor = table.reserve(a, b, future).unwrap();
    for _ in 0..100 {
        let id = table.reserve(a, b, future).unwrap();
        assert_eq!(table.deadline_count(), table.pending_count());
        table.complete(id, TerminalOutcome::Cancelled).unwrap();
        table.take(id).unwrap();
        assert_eq!(table.deadline_count(), table.pending_count());
    }
    assert!(matches!(
        table.status(survivor),
        Ok(OperationStatus::Pending(_))
    ));
    assert_eq!(table.deadline_count(), 1);
}

#[test]
fn scope_counts_union_owner_and_target_once() {
    let (owner, target) = operations_refs();
    let mut table = OperationTable::new(7, 4).unwrap();
    let both = table.reserve(owner, target, now()).unwrap();
    let reverse = table.reserve(target, owner, now()).unwrap();
    let mut scope = OrdSet::new();
    scope.insert(owner);
    scope.insert(target);
    assert_eq!(table.counts_for_scope(&scope), (2, 0));
    table.complete(both, TerminalOutcome::Cancelled).unwrap();
    table.take(both).unwrap();
    assert_eq!(table.counts_for_scope(&scope), (1, 0));
    table.complete(reverse, TerminalOutcome::Cancelled).unwrap();
    assert_eq!(table.counts_for_scope(&scope), (0, 1));
}

#[test]
fn diagnostic_is_valid_utf8_and_bounded() {
    let (a, b) = operations_refs();
    let mut t = OperationTable::new(7, 1).unwrap();
    let id = t.reserve(a, b, now()).unwrap();
    let msg = "é".repeat(700);
    t.complete(
        id,
        TerminalOutcome::Failed {
            code: OperationFailure::HandlerFailed,
            message: msg,
        },
    )
    .unwrap();
    if let OperationStatus::Terminal(TerminalOutcome::Failed { message, .. }) =
        t.status(id).unwrap()
    {
        assert!(message.len() <= 1024);
        assert!(message.is_char_boundary(message.len()));
    }
}

#[test]
fn world_boundary() {
    let (a, b) = operations_refs();
    let mut t = OperationTable::new(7, 1).unwrap();
    let foreign = ActorRef { world: 8, ..a };
    assert_eq!(
        t.reserve(foreign, b, now()),
        Err(Error::CrossWorld)
    );
    let id = t.reserve(a, b, now()).unwrap();
    assert!(matches!(
        t.status(OperationId { world: 8, ..id }),
        Err(Error::CrossWorld)
    ));
}

#[test]
fn failed_loser_preserves_held_success_and_releases_on_take() {
    let (a, b) = operations_refs();
    let mut world = World::new(7, Config::default()).unwrap();
    let held = world.hold(Payload::Pulse(1)).unwrap();
    let mut t = OperationTable::new(world.id(), 1).unwrap();
    let id = t
        .reserve(
            ActorRef {
                world: world.id(),
                ..a
            },
            ActorRef {
                world: world.id(),
                ..b
            },
            now(),
        )
        .unwrap();
    assert!(t.complete(id, TerminalOutcome::Completed(held)).unwrap());
    assert!(!t
        .complete(
            id,
            TerminalOutcome::Failed {
                code: OperationFailure::HandlerFailed,
                message: "late".into()
            }
        )
        .unwrap());
    assert_eq!(world.snapshot().retained_payload_bytes, 8);
    let Some(TerminalOutcome::Completed(held)) = t.take(id).unwrap() else {
        panic!("success lost")
    };
    world.release_held(held);
    assert_eq!(world.snapshot().retained_payload_bytes, 0);
}

#[test]
fn generation_overflow_retires_slot_without_growth() {
    let (a, b) = operations_refs();
    let mut t = OperationTable::resumed(7, 1, vec![u64::MAX]).unwrap();
    let id = t.reserve(a, b, now()).unwrap();
    assert_eq!(id.generation, u64::MAX);
    t.complete(id, TerminalOutcome::Cancelled).unwrap();
    t.take(OperationId {
        generation: u64::MAX,
        ..id
    })
    .unwrap();
    assert_eq!(t.len(), 0);
    assert_eq!(t.reserve(a, b, now()), Err(Error::LimitExceeded));
}

#[test]
fn pending_context_is_attached_once_and_debug_is_payload_free() {
    let mut world = World::new(7, Config::default()).unwrap();
    let owner = world.allocate(EndpointKind::Native, None).unwrap();
    let target = world.allocate(EndpointKind::Native, None).unwrap();
    let mut table = OperationTable::new(world.id(), 1).unwrap();
    let id = table.reserve(owner, target, now()).unwrap();
    let context = world.hold(Payload::Pulse(7)).unwrap();
    table.set_context(id, context).unwrap();
    let second = world.hold(Payload::Pulse(8)).unwrap();
    assert_eq!(table.set_context(id, second), Err(Error::InvalidConfig));
    let OperationStatus::Pending(pending) = table.status(id).unwrap() else {
        panic!("not pending")
    };
    let debug = format!("context: {:?}", pending.context.as_ref().map(|_| "held"));
    assert!(debug.contains("context: Some(\"held\")"));
    assert!(!debug.contains("Pulse"));
    let third = world.hold(Payload::Pulse(9)).unwrap();
    assert_eq!(table.set_context(id, third), Err(Error::InvalidConfig));
}

fn routing_actor(slot: u32) -> ActorRef {
    ActorRef {
        world: 1,
        slot,
        generation: 1,
    }
}

fn routing_assert_consistent(routes: &RouteTable) {
    let ids = routes.ids();
    assert_eq!(ids.len(), routes.active_len());
    for id in &ids {
        let route = routes.get(id).unwrap();
        assert!(routes
            .source_ids(route.source, route.source_port)
            .contains(id));
        assert!(routes.source_actor_ids(route.source).contains(id));
        assert!(routes.actor_route_ids(route.owner).contains(id));
        assert!(routes.target_ids(route.target).contains(id));
        assert!(routes.contains_active(*id));
    }
}

#[test]
fn indexes_remain_consistent_through_insert_remove_reuse() {
    let source = routing_actor(1);
    let target = routing_actor(2);
    let mut routes = RouteTable::new();
    for id in 1..=64 {
        routes.insert(
            id,
            Sub {
                owner: source,
                source,
                target,
                source_port: Some((id % 4) as u16),
                target_port: Some((id % 2) as u16),
            },
        );
        routing_assert_consistent(&routes);
    }
    assert_eq!(routes.active_len(), 64);
    assert_eq!(routes.source_actor_ids(source).len(), 64);
    assert_eq!(routes.target_ids(target).len(), 64);
    for id in 1..=64 {
        assert!(routes.remove(&id).is_some());
        routing_assert_consistent(&routes);
    }
    assert_eq!(routes.active_len(), 0);
    assert!(routes.ids().is_empty());
    for port in 0..4 {
        assert!(routes.source_ids(source, Some(port)).is_empty());
    }
    assert!(routes.source_actor_ids(source).is_empty());
    assert!(routes.actor_route_ids(source).is_empty());
    assert!(routes.target_ids(target).is_empty());
    routes.insert(
        65,
        Sub {
            owner: source,
            source,
            target,
            source_port: None,
            target_port: None,
        },
    );
    assert_eq!(routes.source_ids(source, None), vec![65]);
    routing_assert_consistent(&routes);
}

#[test]
fn unrelated_routes_do_not_enter_source_or_owner_candidate_sets() {
    let mut routes = RouteTable::new();
    for id in 1..=256 {
        routes.insert(
            id,
            Sub {
                owner: routing_actor(10),
                source: routing_actor(11),
                target: routing_actor(12),
                source_port: Some(1),
                target_port: Some(0),
            },
        );
    }
    routes.insert(
        257,
        Sub {
            owner: routing_actor(1),
            source: routing_actor(2),
            target: routing_actor(3),
            source_port: Some(1),
            target_port: Some(0),
        },
    );
    routes.insert(
        258,
        Sub {
            owner: routing_actor(2),
            source: routing_actor(2),
            target: routing_actor(2),
            source_port: None,
            target_port: None,
        },
    );
    assert_eq!(routes.source_ids(routing_actor(2), Some(1)), vec![257]);
    assert_eq!(routes.target_ids(routing_actor(3)), vec![257]);
    assert_eq!(routes.actor_route_ids(routing_actor(1)), vec![257]);
    assert_eq!(routes.actor_route_ids(routing_actor(2)), vec![257, 258]);
    routing_assert_consistent(&routes);
    for id in routes.actor_route_ids(routing_actor(2)) {
        routes.remove(&id).unwrap();
    }
    assert_eq!(routes.active_len(), 256);
    routing_assert_consistent(&routes);
    let replacement = ActorRef {
        generation: 2,
        ..routing_actor(2)
    };
    assert!(routes.actor_route_ids(replacement).is_empty());
}

fn ready_actor(slot: u32) -> ActorRef {
    ActorRef {
        world: 9,
        slot,
        generation: 1,
    }
}

#[test]
fn phases_are_bounded_and_eagerly_removed() {
    let mut index = PythonReadyIndex::new();
    assert!(index.is_empty());
    assert!(index.set(1, ready_actor(1), true, false, true, false));
    assert!(index.set(2, ready_actor(2), false, true, false, true));
    assert_eq!(
        index.next(PythonReadyPhase::Start, None, 2),
        Some((1, ready_actor(1)))
    );
    assert_eq!(
        index.next(PythonReadyPhase::Failure, None, 2),
        Some((2, ready_actor(2)))
    );
    assert_eq!(
        index.next(PythonReadyPhase::Delivery, None, 2),
        Some((1, ready_actor(1)))
    );
    assert_eq!(
        index.next(PythonReadyPhase::Cleanup, None, 2),
        Some((2, ready_actor(2)))
    );
    assert!(!index.set(1, ready_actor(1), false, false, false, false));
    assert!(!index.set(2, ready_actor(2), false, false, false, false));
    assert!(index.is_empty());
}

#[test]
fn ascending_and_cleanup_bounds_are_generation_ordered() {
    let mut index = PythonReadyIndex::new();
    index.set(10, ready_actor(10), true, false, false, true);
    index.set(20, ready_actor(20), true, false, false, true);
    index.set(30, ready_actor(30), true, false, false, true);
    assert_eq!(
        index.next(PythonReadyPhase::Start, Some(10), 20),
        Some((20, ready_actor(20)))
    );
    assert_eq!(index.next(PythonReadyPhase::Start, Some(20), 20), None);
    assert_eq!(
        index.next(PythonReadyPhase::Cleanup, Some(30), 30),
        Some((20, ready_actor(20)))
    );
    assert_eq!(
        index.next(PythonReadyPhase::Cleanup, Some(20), 20),
        Some((10, ready_actor(10)))
    );
    assert_eq!(index.next(PythonReadyPhase::Cleanup, Some(10), 10), None);
}

#[test]
fn repeated_refresh_does_not_report_new_entry() {
    let mut index = PythonReadyIndex::new();
    assert!(index.set(7, ready_actor(7), false, true, false, false));
    assert!(!index.set(7, ready_actor(7), false, true, false, false));
    assert!(!index.set(7, ready_actor(7), false, true, false, false));
    assert!(!index.set(7, ready_actor(7), false, false, false, false));
}

fn expiry_actor(slot: u32, generation: u64) -> ActorRef {
    ActorRef {
        world: 7,
        slot,
        generation,
    }
}

#[test]
fn actor_deadlines_refcount_duplicate_entries_and_none() {
    let start = now();
    let later = later(start, Duration::from_secs(1));
    let mut deadlines = ActorDeadlines::new();
    deadlines.add(None);
    deadlines.add(Some(later));
    deadlines.add(Some(later));
    assert_eq!(deadlines.first(), Some(later));
    assert_eq!(deadlines.len(), 1);
    deadlines.remove(Some(later));
    assert_eq!(deadlines.first(), Some(later));
    deadlines.remove(Some(later));
    assert_eq!(deadlines.first(), None);
    deadlines.clear();
    assert_eq!(deadlines.len(), 0);
}

#[test]
fn deadline_replacements_keep_one_entry_and_generations_independent() {
    let start = now();
    let early = later(start, Duration::from_secs(1));
    let late = later(start, Duration::from_secs(2));
    let mut index = DeadlineIndex::new();
    let old = expiry_actor(3, 1);
    let replacement = expiry_actor(3, 2);
    index.set(old, Some(early));
    index.set(old, Some(late));
    index.set(replacement, Some(early));
    index.set(expiry_actor(4, 1), Some(early));
    assert_eq!(index.len(), 3);
    assert!(
        index
            .take_due(later(start, Duration::from_millis(1500)))
            .contains(&replacement)
    );
    assert!(
        !index
            .take_due(later(start, Duration::from_millis(1500)))
            .contains(&old)
    );
    assert_eq!(index.len(), 1);
    assert_eq!(index.take_due(late), vec![old]);
    assert_eq!(index.len(), 0);
    index.remove(old);
}

#[test]
fn due_order_is_slot_generation_world_and_cardinality_is_exact() {
    let start = now();
    let mut index = DeadlineIndex::new();
    for slot in 0..1000 {
        index.set(expiry_actor(slot, 1), Some(start));
        index.set(
            expiry_actor(slot, 1),
            Some(later(start, Duration::from_secs(1))),
        );
        index.set(expiry_actor(slot, 1), Some(start));
    }
    assert_eq!(index.len(), 1000);
    let due = index.take_due(start);
    assert_eq!(due.len(), 1000);
    assert!(due.windows(2).all(|pair| {
        (pair[0].slot, pair[0].generation, pair[0].world)
            <= (pair[1].slot, pair[1].generation, pair[1].world)
    }));
    assert_eq!(index.len(), 0);
}

fn activity_actor(slot: u32, generation: u64) -> ActorRef {
    ActorRef {
        world: 1,
        slot,
        generation,
    }
}

#[test]
fn dirty_marks_are_coalesced_and_isolated() {
    let mut registry = ActivityRegistry::new();
    let first = activity_actor(1, 1);
    let second = activity_actor(2, 1);
    assert_eq!(registry.version(first).0, Ok(1));
    assert_eq!(registry.version(second).0, Ok(1));
    registry.mark(first);
    registry.mark(first);
    assert!(registry.notify_marked().is_empty());
    assert_eq!(registry.version(first).0, Ok(3));
    assert_eq!(registry.version(second).0, Ok(1));
}

#[test]
fn overflow_is_scoped_to_one_actor() {
    let first = activity_actor(1, 1);
    let second = activity_actor(2, 1);
    let mut registry = ActivityRegistry::starting_at(first, u64::MAX);
    let _ = registry.version(first);
    let _ = registry.version(second);
    registry.mark(first);
    assert_eq!(registry.version(first).0, Err(Error::LimitExceeded));
    assert_eq!(registry.version(second).0, Ok(1));
    registry.mark(second);
    assert_eq!(registry.version(second).0, Ok(2));
}

#[test]
fn generation_replacement_clears_dirty_slot() {
    let mut registry = ActivityRegistry::new();
    let old = activity_actor(1, 1);
    let replacement = activity_actor(1, 2);
    let _ = registry.version(old);
    registry.mark(old);
    assert_eq!(registry.version(replacement).0, Ok(1));
    assert!(registry.notify_marked().is_empty());
}

#[test]
fn replacement_poll_retires_old_pending_observer_before_flush() {
    let mut registry = ActivityRegistry::new();
    let old = activity_actor(1, 1);
    let replacement = activity_actor(1, 2);
    assert_eq!(registry.version(old).0, Ok(1));
    assert_eq!(registry.poll(old, 1, 31).0, ActivityPoll::Pending);
    registry.mark(replacement);
    let (result, retired) = registry.poll(replacement, 1, 32);
    assert_eq!(result, ActivityPoll::Ready(Ok(1)));
    let retired = retired.expect("old observer must be retired");
    assert!(retired.wake);
    assert_eq!(retired.observer, 31);
}

#[test]
fn sequence_exhaustion_never_reuses_a_cursor() {
    let mut history = History::starting_at(2, now(), u64::MAX);
    history.record(now(), DiagnosticCode::QueueFull, None, None);
    history.record(now(), DiagnosticCode::HandlerFailed, None, None);
    assert_eq!(history.len(), 1);
    assert_eq!(history.read(0, 2).entries[0].sequence, u64::MAX);
    assert_eq!(history.dropped(), 1);
    assert!(history.read(u64::MAX, 2).entries.is_empty());
}

#[test]
fn disabled_history_allocates_no_records_and_counts_drops() {
    let mut history = History::new(0, now());
    history.record(now(), DiagnosticCode::QueueFull, None, None);
    assert_eq!(history.len(), 0);
    assert_eq!(history.dropped(), 1);
}

fn envelope_ids() -> ([u8; 16], [u8; 8]) {
    ([1; 16], [2; 8])
}

#[test]
fn trace_context_validates_and_charges_bounded_baggage() {
    let (trace, span) = envelope_ids();
    let context =
        TraceContext::new(trace, span, true, vec![("tenant".into(), "native".into())]).unwrap();
    assert_eq!(context.charged_bytes(), 24 + 1 + 12);
    assert_eq!(context.trace_id(), &trace);
    assert!(TraceContext::new([0; 16], span, false, Vec::new()).is_err());
    assert!(
        TraceContext::new(trace, span, false, vec![("bad/key".into(), "x".into())]).is_err()
    );
}

#[test]
fn baggage_is_unique_and_deeply_owned() {
    let (trace, span) = envelope_ids();
    let mut key = String::from("key");
    let mut value = String::from("value");
    let context =
        TraceContext::new(trace, span, false, vec![(key.clone(), value.clone())]).unwrap();
    key.push('x');
    value.push('x');
    assert_eq!(
        context.baggage()[0],
        (String::from("key"), String::from("value"))
    );
    assert!(
        TraceContext::new(
            trace,
            span,
            false,
            vec![("key".into(), "a".into()), ("key".into(), "b".into())]
        )
        .is_err()
    );
}

#[test]
fn options_reject_zero_ids_and_child_propagates_context() {
    let (trace, span) = envelope_ids();
    let context = TraceContext::new(trace, span, true, Vec::new()).unwrap();
    assert!(
        MessageOptions {
            correlation_id: Some(0),
            ..Default::default()
        }
        .validate()
        .is_err()
    );
    let actor = ActorRef {
        world: 1,
        slot: 2,
        generation: 3,
    };
    let envelope = Envelope {
        event_id: 9,
        schema: SchemaIdentity {
            kind: SchemaKind::Pulse,
            id: 1,
            version: 1,
        },
        source: None,
        destination: actor,
        dispatcher: None,
        destination_port: None,
        owner: actor,
        enqueued_at: now(),
        deadline: None,
        correlation_id: None,
        causation_id: None,
        trace: Some(context.clone()),
    };
    let child = envelope.child_options(actor);
    assert_eq!(child.correlation_id, Some(9));
    assert_eq!(child.causation_id, Some(9));
    assert_eq!(child.trace, Some(context));
}

#[test]
fn bounds_are_utf8_safe() {
    let details = FailureDetails::new(
        FailurePhase::Handler,
        &"é".repeat(200),
        &"λ".repeat(200),
        vec![FailureFrame::new(&"é".repeat(300), 7, &"λ".repeat(200))],
    );
    assert!(details.handler().len() <= HANDLER_MAX);
    assert!(details.exception_type().len() <= EXCEPTION_MAX);
    assert!(details.frames()[0].file().len() <= FILE_MAX);
    assert!(details.frames()[0].function().len() <= FUNCTION_MAX);
    assert!(details.handler().is_char_boundary(details.handler().len()));
    assert!(
        details.frames()[0]
            .file()
            .is_char_boundary(details.frames()[0].file().len())
    );
    assert!(details.frames()[0].truncated());
    assert!(details.truncated());
}

#[test]
fn frame_limit_and_boxed_storage() {
    let frames = (0..20)
        .map(|i| FailureFrame::new("f", i, "h"))
        .collect::<Vec<_>>();
    let details = FailureDetails::new(FailurePhase::Start, "h", "E", frames);
    assert_eq!(details.frames().len(), MAX_FRAMES);
    assert!(details.truncated());
}

#[test]
fn external_truncation_is_preserved() {
    let details = FailureDetails::new(FailurePhase::Stop, "handler", "Error", Vec::new());
    assert!(details.with_truncated(true).truncated());
}

#[test]
fn source_capacity_is_not_retained() {
    let mut handler = String::with_capacity(1 << 20);
    handler.push_str("short");
    let details = FailureDetails::new(FailurePhase::Configure, &handler, "E", Vec::new());
    assert_eq!(details.handler(), "short");
    assert_eq!(details.handler().len(), 5);
}
