//! What a World promises, on concrete values.
use runtime_core::payload::record_bytes;
use runtime_core::schema::{Field, FieldType, Schema, SchemaRegistry};
use runtime_core::{
    ActivityPoll, ActorRef, Clock, ComponentDescriptor, Config, DeliveryReport, Duration,
    EndpointKind, Error, FailureAction, FailureDetails, FailurePhase, Instant, InterfaceSpec,
    Lifecycle, MessageOptions, OperationStatus, Payload, PayloadType, PortDirection, PortSpec,
    PublicationOutcome, PythonReadyPhase, RoutingPoll, TerminalOutcome, TraceContext, Value, World,
};

fn at(seconds: u64) -> Instant {
    Instant::from_nanos(u128::from(seconds) * 1_000_000_000)
}

fn world(config: Config) -> World {
    World::with_clock(1, config, Clock::manual_at(at(100))).unwrap()
}

fn actor(world: &mut World, parent: Option<ActorRef>) -> ActorRef {
    let reference = world.allocate(EndpointKind::Native, parent).unwrap();
    world.activate(reference).unwrap();
    reference
}

fn expiring(deadline: Instant) -> MessageOptions {
    MessageOptions {
        deadline: Some(deadline),
        ..MessageOptions::default()
    }
}

fn pulses(ports: &[(&str, PortDirection)]) -> Vec<PortSpec> {
    ports
        .iter()
        .map(|(name, direction)| PortSpec {
            name: (*name).into(),
            direction: *direction,
            schema: PayloadType::Pulse,
        })
        .collect()
}

fn contract() -> InterfaceSpec {
    InterfaceSpec {
        name: "Echo".into(),
        version: 1,
        ports: pulses(&[("ask", PortDirection::Input), ("tell", PortDirection::Output)]),
    }
}

fn service(world: &mut World) -> ActorRef {
    let service = world.allocate(EndpointKind::Native, None).unwrap();
    world
        .register_component(
            service,
            ComponentDescriptor {
                name: "EchoService".into(),
                version: 1,
                ports: contract().ports,
                interfaces: vec![contract()],
            },
        )
        .unwrap();
    world.activate(service).unwrap();
    world.register_service("echo", service, &contract()).unwrap();
    service
}

#[test]
fn retained_bytes_never_exceed_the_budget() {
    let mut w = world(Config {
        native_payload_budget: 24,
        ..Config::default()
    });
    let a = actor(&mut w, None);
    for value in 0..3 {
        w.send(a, Payload::Pulse(value)).unwrap();
    }
    assert_eq!(w.snapshot().retained_payload_bytes, 24);
    assert_eq!(w.send(a, Payload::Pulse(3)), Err(Error::BudgetExceeded));
    assert_eq!(w.snapshot().retained_payload_bytes, 24);
}

#[test]
fn admitted_messages_join_the_end_under_ascending_numbers() {
    let mut w = world(Config::default());
    let a = actor(&mut w, None);
    let first = w.send(a, Payload::Pulse(7)).unwrap();
    let second = w.send(a, Payload::Pulse(8)).unwrap();
    assert_eq!((first, second), (1, 2));
    let lease = w.claim(a).unwrap().unwrap();
    assert_eq!((lease.event_id(), lease.payload()), (1, &Payload::Pulse(7)));
    lease.finish(&mut w, true);
    let lease = w.claim(a).unwrap().unwrap();
    assert_eq!((lease.event_id(), lease.payload()), (2, &Payload::Pulse(8)));
    lease.finish(&mut w, true);
    assert!(w.claim(a).unwrap().is_none());
}

#[test]
fn mailboxes_keep_their_entry_and_byte_limits() {
    let mut w = world(Config {
        mailbox_capacity: 3,
        mailbox_bytes: 16,
        ..Config::default()
    });
    let a = actor(&mut w, None);
    w.send(a, Payload::Pulse(1)).unwrap();
    w.send(a, Payload::Pulse(2)).unwrap();
    assert_eq!(w.send(a, Payload::Pulse(3)), Err(Error::QueueFull));
    let snapshot = w.snapshot();
    assert_eq!(snapshot.actors[0].queue_entries, 2);
    assert_eq!(snapshot.actors[0].queue_bytes, 16);
}

#[test]
fn a_refused_message_is_counted_and_leaves_the_rest() {
    let mut w = world(Config {
        mailbox_capacity: 1,
        ..Config::default()
    });
    let a = actor(&mut w, None);
    w.send(a, Payload::Pulse(1)).unwrap();
    let before = w.snapshot();
    assert_eq!(w.send(a, Payload::Pulse(2)), Err(Error::QueueFull));
    let after = w.snapshot();
    assert_eq!(after.retained_payload_bytes, before.retained_payload_bytes);
    assert_eq!(after.actors[0].queue_entries, 1);
    assert_eq!(after.metrics.rejected, before.metrics.rejected + 1);
    assert_eq!(after.metrics.submitted, before.metrics.submitted + 1);
    assert_eq!(after.metrics.admitted, before.metrics.admitted);
}

#[test]
fn held_payloads_count_once_until_the_last_holder_lets_go() {
    let mut w = world(Config::default());
    let held = w.hold(Payload::Pulse(5)).unwrap();
    assert_eq!(held.retained_bytes(), 8);
    let second = w.share_held(&held);
    assert_eq!(w.snapshot().retained_payload_bytes, 8);
    w.release_held(held);
    assert_eq!(w.snapshot().retained_payload_bytes, 8);
    w.release_held(second);
    assert_eq!(w.snapshot().retained_payload_bytes, 0);
}

#[test]
fn actors_run_only_under_running_owners() {
    let mut w = world(Config::default());
    let parent = w.allocate(EndpointKind::Native, None).unwrap();
    let child = w.allocate(EndpointKind::Native, Some(parent)).unwrap();
    w.activate(child).unwrap();
    assert_eq!(w.execution_state(child), Ok(Lifecycle::Starting));
    w.activate(parent).unwrap();
    assert_eq!(w.execution_state(child), Ok(Lifecycle::Active));
    let task = w.track_task(child).unwrap();
    w.stop(parent).unwrap();
    assert_eq!(w.execution_state(child), Ok(Lifecycle::Stopping));
    task.release(&mut w);
    assert_eq!(w.state(parent), Ok(Lifecycle::Stopped));
}

#[test]
fn a_reused_slot_refuses_the_old_reference() {
    let mut w = world(Config::default());
    let old = actor(&mut w, None);
    w.stop(old).unwrap();
    let new = actor(&mut w, None);
    assert_eq!((new.slot, new.generation), (old.slot, old.generation + 1));
    assert_eq!(w.state(old), Err(Error::StaleReference));
    assert_eq!(w.send(old, Payload::Pulse(1)), Err(Error::StaleReference));
    assert_eq!(w.state(new), Ok(Lifecycle::Active));
}

#[test]
fn route_numbers_ascend_and_are_not_reused() {
    let mut w = world(Config::default());
    let a = actor(&mut w, None);
    let b = actor(&mut w, None);
    let first = w.subscribe(a, b).unwrap();
    assert_eq!(w.subscribe(a, b), Err(Error::DuplicateSubscription));
    w.unsubscribe(first).unwrap();
    assert_eq!(w.unsubscribe(first), Err(Error::NotFound));
    assert_eq!((first, w.subscribe(a, b).unwrap()), (1, 2));
}

#[test]
fn a_request_is_answered_once() {
    let mut w = world(Config::default());
    let owner = actor(&mut w, None);
    let target = actor(&mut w, None);
    let id = w
        .request(owner, target, Payload::Pulse(1), at(200))
        .unwrap();
    assert_eq!(
        w.complete_operation(id, target, Payload::Pulse(2)),
        Ok(true)
    );
    assert_eq!(
        w.complete_operation(id, target, Payload::Pulse(3)),
        Ok(false)
    );
    assert_eq!(w.cancel_operation(id), Ok(false));
    match w.operation_status(id) {
        Ok(OperationStatus::Terminal(TerminalOutcome::Completed(held))) => {
            assert_eq!(held.payload(), &Payload::Pulse(2))
        }
        _ => panic!("no result"),
    }
    let Some(TerminalOutcome::Completed(held)) = w.take_operation(id).unwrap() else {
        panic!("no result")
    };
    assert_eq!(held.payload(), &Payload::Pulse(2));
    w.release_held(held);
    assert!(matches!(
        w.operation_status(id),
        Err(Error::StaleReference)
    ));
    assert!(matches!(w.take_operation(id), Err(Error::StaleReference)));
}

#[test]
fn waiting_failures_coalesce_behind_the_first() {
    let mut w = world(Config::default());
    let parent = actor(&mut w, None);
    let child = actor(&mut w, Some(parent));
    for event in 1..4 {
        w.report_failure(
            child,
            Some(event),
            None,
            None,
            FailureDetails::new(FailurePhase::Handler, "handler", "Error", Vec::new()),
            FailureAction::Continue,
        )
        .unwrap();
    }
    let lease = w.claim_failure(parent).unwrap().unwrap();
    assert_eq!(lease.failure().event_id, Some(1));
    assert_eq!(lease.coalesced(), 2);
    lease.finish(&mut w, None).unwrap();
    assert!(w.claim_failure(parent).unwrap().is_none());
    assert_eq!(w.snapshot().metrics.failures, 3);
}

#[test]
fn a_drain_only_gets_earlier() {
    let mut w = world(Config::default());
    let a = actor(&mut w, None);
    w.send(a, Payload::Pulse(1)).unwrap();
    w.request_drain(a, at(150)).unwrap();
    w.request_drain(a, at(170)).unwrap();
    assert_eq!(w.snapshot().actors[0].drain_deadline, Some(at(150)));
    w.request_drain(a, at(120)).unwrap();
    assert_eq!(w.snapshot().actors[0].drain_deadline, Some(at(120)));
}

#[test]
fn only_entries_that_are_due_expire_and_the_rest_keep_their_order() {
    let mut w = world(Config::default());
    let a = actor(&mut w, None);
    for (value, deadline) in [(1, 110), (2, 130), (3, 110), (4, 140)] {
        w.send_with(a, Payload::Pulse(value), expiring(at(deadline)))
            .unwrap();
    }
    w.advance_clock(Duration::from_secs(10)).unwrap();
    assert!(w.maintain(at(110)));
    let mut left = Vec::new();
    while let Some(lease) = w.claim(a).unwrap() {
        left.push(lease.event_id());
        lease.finish(&mut w, true);
    }
    assert_eq!(left, vec![2, 4]);
    assert_eq!(w.snapshot().metrics.expired, 2);
}

#[test]
fn routing_takes_turns_and_keeps_the_first_destinations() {
    let mut w = world(Config {
        routing_batch_size: 1,
        ..Config::default()
    });
    let first = actor(&mut w, None);
    let second = actor(&mut w, None);
    let sinks = [actor(&mut w, None), actor(&mut w, None)];
    for source in [first, second] {
        for sink in sinks {
            w.subscribe(source, sink).unwrap();
        }
    }
    let one = w.publish(first, Payload::Pulse(1)).unwrap();
    let two = w.publish(second, Payload::Pulse(2)).unwrap();
    w.route_batch();
    let late = actor(&mut w, None);
    w.subscribe(first, late).unwrap();
    w.route_batch();
    assert_eq!((one.report(&w), two.report(&w)), (None, None));
    w.route_batch();
    assert_eq!(
        one.report(&w),
        Some(DeliveryReport {
            admitted: 2,
            rejected: 0,
            staged: 0,
            matched: 2,
            outcome: PublicationOutcome::Routed,
        })
    );
    assert_eq!(two.report(&w), None);
    w.route_batch();
    assert!(two.report(&w).is_some());
    assert!(w.claim(late).unwrap().is_none());
    w.release_ticket(one);
    w.release_ticket(two);
    assert_eq!(w.snapshot().publications_retained, 0);
}

#[test]
fn a_stopped_actor_leaves_nothing_behind() {
    let mut w = world(Config::default());
    let a = actor(&mut w, None);
    let b = actor(&mut w, None);
    w.subscribe(a, b).unwrap();
    w.subscribe(b, a).unwrap();
    w.send(a, Payload::Pulse(1)).unwrap();
    let asked = w.request(b, a, Payload::Pulse(2), at(200)).unwrap();
    let ticket = w.publish(a, Payload::Pulse(3)).unwrap();
    let report = w.stop(a).unwrap();
    assert!(report.native_done && report.python_done);
    assert_eq!(report.discarded, 2);
    let snapshot = w.snapshot();
    assert_eq!(snapshot.subscriptions, 0);
    assert_eq!(snapshot.publications_pending, 0);
    assert_eq!(snapshot.operation_pending, 0);
    assert_eq!(snapshot.retained_payload_bytes, 0);
    assert!(matches!(
        w.operation_status(asked),
        Ok(OperationStatus::Terminal(TerminalOutcome::TargetStopped))
    ));
    assert_eq!(
        ticket.report(&w).unwrap().outcome,
        PublicationOutcome::Cancelled
    );
    assert_eq!(w.state(b), Ok(Lifecycle::Active));
}

#[test]
fn a_stopped_service_revokes_its_leases_and_spares_the_holder() {
    let mut w = world(Config::default());
    let echo = service(&mut w);
    let holder = actor(&mut w, None);
    let lease = w.acquire_service(holder, "echo", &contract()).unwrap();
    w.stop(echo).unwrap();
    assert!(w.services().is_empty());
    assert!(w.service_leases().is_empty());
    assert_eq!(w.state(holder), Ok(Lifecycle::Active));
    assert_eq!(w.release_service(lease), Ok(false));
    assert_eq!(
        w.acquire_service(holder, "echo", &contract()),
        Err(Error::NotFound)
    );
}

#[test]
fn marks_reach_the_actor_and_its_owners_only() {
    let mut w = world(Config::default());
    let parent = actor(&mut w, None);
    let child = actor(&mut w, Some(parent));
    let other = actor(&mut w, None);
    w.notify_activity();
    let seen: Vec<u64> = [parent, child, other]
        .iter()
        .map(|a| w.activity(*a).0.unwrap())
        .collect();
    assert_eq!(w.poll_activity(parent, seen[0], 9).0, ActivityPoll::Pending);
    w.send(child, Payload::Pulse(1)).unwrap();
    assert_eq!(w.notify_activity(), vec![9]);
    assert!(w.activity(parent).0.unwrap() > seen[0]);
    assert!(w.activity(child).0.unwrap() > seen[1]);
    assert_eq!(w.activity(other).0, Ok(seen[2]));
}

#[test]
fn a_route_and_an_operation_are_seen_at_both_ends() {
    let mut w = world(Config::default());
    let a = actor(&mut w, None);
    let b = actor(&mut w, None);
    let other = actor(&mut w, None);
    let seen = |w: &mut World| -> Vec<u64> {
        [a, b, other]
            .iter()
            .map(|x| w.activity(*x).0.unwrap())
            .collect()
    };
    let before = seen(&mut w);
    let route = w.subscribe(a, b).unwrap();
    let linked = seen(&mut w);
    assert!(linked[0] > before[0] && linked[1] > before[1]);
    w.unsubscribe(route).unwrap();
    let unlinked = seen(&mut w);
    assert!(unlinked[0] > linked[0] && unlinked[1] > linked[1]);
    let asked = w.request(a, b, Payload::Pulse(1), at(200)).unwrap();
    let pending = seen(&mut w);
    assert!(w.cancel_operation(asked).unwrap());
    let ended = seen(&mut w);
    assert!(ended[0] > pending[0] && ended[1] > pending[1]);
    assert_eq!(ended[2], before[2]);
}

#[test]
fn a_close_leaves_no_failure_waiting() {
    let mut w = world(Config::default());
    let parent = actor(&mut w, None);
    let child = actor(&mut w, Some(parent));
    let task = w.track_task(child).unwrap();
    w.report_failure(
        child,
        Some(1),
        None,
        None,
        FailureDetails::new(FailurePhase::Handler, "handler", "Error", Vec::new()),
        FailureAction::Continue,
    )
    .unwrap();
    assert_eq!(w.shutdown_report().pending_notifications, 1);
    let report = w.close();
    assert_eq!(report.pending_notifications, 0);
    assert_eq!(report.in_flight, 1);
    assert!(!report.native_done);
    task.release(&mut w);
    let report = w.close();
    assert_eq!(report.in_flight, 0);
    assert!(report.native_done);
}

#[test]
fn routing_observers_are_woken_once() {
    let mut w = world(Config::default());
    let a = actor(&mut w, None);
    assert_eq!(w.poll_routing_ready(4), (RoutingPoll::Pending, None));
    assert_eq!(w.poll_routing_ready(5), (RoutingPoll::Pending, Some(4)));
    w.publish(a, Payload::Pulse(1)).unwrap();
    assert_eq!(w.wake_routing(), Some(5));
    assert_eq!(w.wake_routing(), None);
    assert_eq!(w.poll_routing_ready(6).0, RoutingPoll::Ready(Ok(())));
    w.close();
    assert_eq!(
        w.poll_routing_ready(7).0,
        RoutingPoll::Ready(Err(Error::ActorStopped))
    );
}

#[test]
fn each_error_has_its_cause() {
    assert!(matches!(
        World::new(
            1,
            Config {
                max_actors: 0,
                ..Config::default()
            }
        ),
        Err(Error::InvalidConfig)
    ));
    let mut w = world(Config::default());
    let idle = w.allocate(EndpointKind::Native, None).unwrap();
    assert_eq!(w.send(idle, Payload::Pulse(1)), Err(Error::ActorNotReady));
    let a = actor(&mut w, None);
    let b = actor(&mut w, None);
    let foreign = ActorRef { world: 2, ..a };
    assert_eq!(w.send(foreign, Payload::Pulse(1)), Err(Error::CrossWorld));
    assert_eq!(
        w.send_with(a, Payload::Pulse(1), expiring(at(100))),
        Err(Error::DeadlineExpired)
    );
    assert_eq!(
        w.request_with(
            a,
            b,
            Payload::Pulse(1),
            at(200),
            MessageOptions {
                source: Some(b),
                ..MessageOptions::default()
            }
        ),
        Err(Error::InvalidMetadata)
    );
    assert_eq!(w.port(a, "missing"), Err(Error::InvalidPort));
    let echo = service(&mut w);
    let mut other = contract();
    other.version = 2;
    assert_eq!(
        w.acquire_service(a, "echo", &other),
        Err(Error::InterfaceMismatch)
    );
    assert_eq!(
        w.send(echo, Payload::CountSnapshot { count: 1, total: 1 }),
        Err(Error::SchemaMismatch)
    );
    w.stop(a).unwrap();
    assert_eq!(w.send(a, Payload::Pulse(1)), Err(Error::ActorStopped));
    assert_eq!(
        TraceContext::new([0; 16], [1; 8], false, Vec::new()).unwrap_err(),
        Error::InvalidMetadata
    );
}

#[test]
fn budgets_count_scratch_bytes_exactly() {
    let mut w = world(Config {
        native_payload_budget: 10,
        ..Config::default()
    });
    let budget = w.native_buffer_budget();
    let mut first = budget.reserve(6).unwrap();
    assert_eq!(budget.reserve(5).unwrap_err(), Error::BudgetExceeded);
    first.try_grow(budget, 2).unwrap();
    assert_eq!((first.bytes(), budget.used()), (8, 8));
    assert_eq!(first.try_grow(budget, 3), Err(Error::BudgetExceeded));
    assert_eq!((first.bytes(), budget.used()), (8, 8));
    budget.release(first);
    assert_eq!(budget.used(), 0);
}

#[test]
fn buffers_and_payloads_share_one_limit() {
    let mut w = world(Config {
        native_payload_budget: 16,
        ..Config::default()
    });
    let a = actor(&mut w, None);
    let permit = w.native_buffer_budget().reserve(8).unwrap();
    w.send(a, Payload::Pulse(1)).unwrap();
    assert_eq!(w.native_buffer_budget().used(), 16);
    assert_eq!(w.snapshot().retained_payload_bytes, 16);
    assert_eq!(w.send(a, Payload::Pulse(2)), Err(Error::BudgetExceeded));
    w.native_buffer_budget().release(permit);
    assert_eq!(w.native_buffer_budget().used(), 8);
    w.send(a, Payload::Pulse(2)).unwrap();
}

#[test]
fn a_permit_counts_in_its_own_budget_only() {
    let mut first = World::new(1, Config::default()).unwrap();
    let mut second = World::new(2, Config::default()).unwrap();
    let permit = first.native_buffer_budget().reserve(5).unwrap();
    let mut other = second.native_buffer_budget().reserve(7).unwrap();
    second.native_buffer_budget().release(permit);
    assert_eq!(first.native_buffer_budget().used(), 5);
    assert_eq!(second.native_buffer_budget().used(), 7);
    assert!(other.try_grow(first.native_buffer_budget(), 1).is_err());
    assert_eq!(other.bytes(), 7);
    second.native_buffer_budget().release(other);
    assert_eq!(second.native_buffer_budget().used(), 0);
}

#[test]
fn a_hold_that_a_world_has_not_given_out_is_refused() {
    let mut first = world(Config::default());
    let mut second = world(Config::default());
    let a = actor(&mut second, None);
    let held = first.hold(Payload::Pulse(3)).unwrap();
    assert_eq!(second.send_held(a, &held), Err(Error::StaleReference));
    assert_eq!(second.snapshot().retained_payload_bytes, 0);
    first.release_held(held);
    assert_eq!(first.snapshot().retained_payload_bytes, 0);
}

#[test]
fn a_record_is_charged_for_the_room_it_keeps() {
    assert_eq!(record_bytes(0), 4);
    assert_eq!(record_bytes(3), 28);
    assert_eq!(record_bytes(usize::MAX), usize::MAX);
    let mut integers = Vec::with_capacity(16);
    integers.push(1);
    let room = integers.capacity();
    let record = Payload::Record { schema: 1, integers };
    assert_eq!(record.bytes(), record_bytes(room));
}

#[test]
fn hints_come_and_go_with_what_an_actor_has_to_do() {
    let mut w = world(Config::default());
    let python = w.allocate(EndpointKind::Python, None).unwrap();
    let ready = |w: &World, phase| {
        w.python_ready_next(phase, None, u64::MAX).map(|(_, actor)| actor)
    };
    assert_eq!(ready(&w, PythonReadyPhase::Start), Some(python));
    w.activate(python).unwrap();
    assert_eq!(ready(&w, PythonReadyPhase::Start), None);
    w.send(python, Payload::Pulse(1)).unwrap();
    assert_eq!(ready(&w, PythonReadyPhase::Delivery), Some(python));
    let lease = w.claim(python).unwrap().unwrap();
    assert_eq!(ready(&w, PythonReadyPhase::Delivery), None);
    lease.finish(&mut w, true);
    let child = actor(&mut w, Some(python));
    let details = FailureDetails::new(FailurePhase::Handler, "handler", "Error", Vec::new());
    w.report_failure(child, None, None, None, details, FailureAction::Continue)
        .unwrap();
    assert_eq!(ready(&w, PythonReadyPhase::Failure), Some(python));
    w.stop(python).unwrap();
    assert_eq!(ready(&w, PythonReadyPhase::Failure), None);
    assert_eq!(ready(&w, PythonReadyPhase::Cleanup), Some(python));
    w.finish_python(python).unwrap();
    assert_eq!(ready(&w, PythonReadyPhase::Cleanup), None);
}

#[test]
fn a_drain_ends_at_its_deadline_and_leaves_routing_open() {
    let mut w = world(Config::default());
    let a = actor(&mut w, None);
    let other = actor(&mut w, None);
    w.send(a, Payload::Pulse(1)).unwrap();
    w.request_drain(a, at(110)).unwrap();
    assert!(!w.maintain(at(109)));
    assert_eq!(w.state(a), Ok(Lifecycle::Quiescing));
    assert!(w.maintain(at(110)));
    assert_eq!(w.state(a), Ok(Lifecycle::Stopped));
    assert!(!w.maintain(at(110)));
    assert_eq!(w.state(other), Ok(Lifecycle::Active));
    assert!(matches!(w.poll_routing_ready(1).0, RoutingPoll::Pending));
    w.close();
    assert!(matches!(
        w.poll_routing_ready(2).0,
        RoutingPoll::Ready(Err(Error::ActorStopped))
    ));
}

#[test]
fn every_late_entry_is_counted_once() {
    let mut w = world(Config::default());
    let a = actor(&mut w, None);
    for deadline in [105, 106, 120] {
        w.send_with(a, Payload::Pulse(deadline as i64), expiring(at(deadline)))
            .unwrap();
    }
    assert!(w.maintain(at(110)));
    assert_eq!(w.snapshot().metrics.expired, 2);
    assert_eq!(w.snapshot().retained_payload_bytes, 8);
}

#[test]
fn interfaces_outlast_the_actor_that_declared_them() {
    let mut w = world(Config::default());
    let first = service(&mut w);
    w.stop(first).unwrap();
    let second = w.allocate(EndpointKind::Native, None).unwrap();
    let changed = InterfaceSpec {
        name: "Echo".into(),
        version: 1,
        ports: pulses(&[("ask", PortDirection::Output)]),
    };
    assert_eq!(
        w.register_component(
            second,
            ComponentDescriptor {
                name: "Other".into(),
                version: 1,
                ports: changed.ports.clone(),
                interfaces: vec![changed],
            },
        ),
        Err(Error::InterfaceMismatch)
    );
}

#[test]
fn the_machine_clock_moves_forward() {
    let w = World::new(3, Config::default()).unwrap();
    let first = w.now();
    let mut second = w.now();
    while second == first {
        second = w.now();
    }
    assert!(second > first);
    assert!(!w.is_virtual());
    assert!(w.elapsed_ns() > 0);
}

#[test]
fn manual_clocks_move_only_by_hand() {
    let mut w = world(Config::default());
    assert_eq!((w.now(), w.now()), (at(100), at(100)));
    assert_eq!(w.advance_clock(Duration::from_millis(1500)), Ok(Instant::from_nanos(101_500_000_000)));
    assert_eq!(w.elapsed_ns(), 1_500_000_000);
    assert_eq!(w.instant_ns(at(99)), 0);
    assert_eq!(
        w.advance_clock(Duration::from_nanos(u128::MAX)),
        Err(Error::LimitExceeded)
    );
    assert_eq!(w.now(), Instant::from_nanos(101_500_000_000));
}

#[test]
fn encoding_and_decoding_undo_each_other() {
    let schema = Schema {
        name: "mixed".into(),
        version: 1,
        fields: vec![
            Field {
                name: "count".into(),
                ty: FieldType::Int { min: -5, max: 5 },
            },
            Field {
                name: "label".into(),
                ty: FieldType::String { max_bytes: 8 },
            },
            Field {
                name: "note".into(),
                ty: FieldType::Optional(Box::new(FieldType::Bool)),
            },
        ],
    };
    let value = Value::Record(vec![
        Value::Int(-5),
        Value::String("h\u{e9}".into()),
        Value::Optional(Some(Box::new(Value::Bool(true)))),
    ]);
    let bytes = schema.encode(&value, 64).unwrap();
    assert_eq!(
        bytes,
        vec![251, 255, 255, 255, 255, 255, 255, 255, 3, 0, 0, 0, 104, 195, 169, 1, 1]
    );
    assert_eq!(schema.decode(&bytes), Ok(value));
    assert_eq!(schema.validate_bytes(&bytes), Ok(()));
    assert!(schema.decode(&bytes[..16]).is_err());
}

#[test]
fn registering_twice_gives_the_same_number() {
    let schema = || Schema {
        name: "one".into(),
        version: 1,
        fields: vec![Field {
            name: "v".into(),
            ty: FieldType::Bool,
        }],
    };
    let mut registry = SchemaRegistry::new(2).unwrap();
    assert_eq!(registry.register(schema()), Ok(1));
    assert_eq!(registry.register_batch(vec![schema(), schema()]), Ok(vec![1, 1]));
    assert_eq!(registry.len(), 1);
}

#[test]
fn a_stop_reaches_what_is_owned_and_nothing_else() {
    let mut w = world(Config::default());
    let root = actor(&mut w, None);
    let child = actor(&mut w, Some(root));
    let leaf = actor(&mut w, Some(child));
    let sibling = actor(&mut w, Some(root));
    let task = w.track_task(leaf).unwrap();
    w.stop(child).unwrap();
    assert_eq!(w.state(leaf), Ok(Lifecycle::Stopping));
    assert_eq!(w.state(child), Ok(Lifecycle::Stopping));
    assert_eq!(w.state(root), Ok(Lifecycle::Active));
    assert_eq!(w.state(sibling), Ok(Lifecycle::Active));
    w.stop(root).unwrap();
    assert_eq!(w.state(root), Ok(Lifecycle::Stopping));
    task.release(&mut w);
    for stopped in [root, child, leaf, sibling] {
        assert_eq!(w.state(stopped), Ok(Lifecycle::Stopped));
        assert!(w.stop(stopped).is_ok());
    }
}

#[test]
fn readiness_orders_are_not_reused_with_a_slot() {
    let mut w = world(Config::default());
    let first = actor(&mut w, None);
    assert_eq!(w.python_ready_cutoff(), 1);
    w.stop(first).unwrap();
    let second = actor(&mut w, None);
    assert_eq!(second.slot, first.slot);
    assert_eq!(w.python_ready_cutoff(), 2);
}

#[test]
fn an_actor_handles_one_delivery_at_a_time() {
    let mut w = world(Config::default());
    let a = actor(&mut w, None);
    w.send(a, Payload::Pulse(1)).unwrap();
    w.send(a, Payload::Pulse(2)).unwrap();
    let lease = w.claim(a).unwrap().unwrap();
    assert!(w.claim(a).unwrap().is_none());
    lease.finish(&mut w, true);
    let lease = w.claim(a).unwrap().unwrap();
    assert_eq!(lease.payload(), &Payload::Pulse(2));
    lease.finish(&mut w, true);
}

#[test]
fn a_draining_actor_refuses_what_is_new_and_handles_what_it_has() {
    let mut w = world(Config::default());
    let a = actor(&mut w, None);
    w.send(a, Payload::Pulse(1)).unwrap();
    w.request_drain(a, at(200)).unwrap();
    assert_eq!(w.send(a, Payload::Pulse(2)), Err(Error::ActorStopped));
    let lease = w.claim(a).unwrap().unwrap();
    assert_eq!(lease.payload(), &Payload::Pulse(1));
    lease.finish(&mut w, true);
    assert!(w.claim(a).unwrap().is_none());
}

#[test]
fn the_failure_that_came_first_is_claimed_first() {
    let mut w = world(Config::default());
    let parent = actor(&mut w, None);
    let first = actor(&mut w, Some(parent));
    let second = actor(&mut w, Some(parent));
    for (child, event) in [(second, 8), (first, 9)] {
        w.report_failure(
            child,
            Some(event),
            None,
            None,
            FailureDetails::new(FailurePhase::Handler, "handler", "Error", Vec::new()),
            FailureAction::Continue,
        )
        .unwrap();
    }
    for event in [8, 9] {
        let lease = w.claim_failure(parent).unwrap().unwrap();
        assert_eq!(lease.failure().event_id, Some(event));
        lease.finish(&mut w, None).unwrap();
    }
}

#[test]
fn quotas_hold_for_each_source_and_each_owner() {
    let mut w = world(Config {
        max_publications: 3,
        max_publications_per_source: 2,
        max_service_leases: 2,
        max_leases_per_actor: 1,
        ..Config::default()
    });
    let source = actor(&mut w, None);
    let other = actor(&mut w, None);
    let one = w.publish(source, Payload::Pulse(1)).unwrap();
    w.publish(source, Payload::Pulse(2)).unwrap();
    assert_eq!(
        w.publish(source, Payload::Pulse(3)).err(),
        Some(Error::QueueFull)
    );
    w.publish(other, Payload::Pulse(4)).unwrap();
    assert_eq!(
        w.publish(other, Payload::Pulse(5)).err(),
        Some(Error::QueueFull)
    );
    w.release_ticket(one);
    assert_eq!(w.snapshot().publications_pending, 3);
    service(&mut w);
    w.acquire_service(source, "echo", &contract()).unwrap();
    assert_eq!(
        w.acquire_service(source, "echo", &contract()),
        Err(Error::LimitExceeded)
    );
    w.acquire_service(other, "echo", &contract()).unwrap();
    let third = actor(&mut w, None);
    assert_eq!(
        w.acquire_service(third, "echo", &contract()),
        Err(Error::LimitExceeded)
    );
}

#[test]
fn an_interface_is_kept_as_it_was_first_declared() {
    let mut w = world(Config::default());
    service(&mut w);
    let other = w.allocate(EndpointKind::Native, None).unwrap();
    let changed = InterfaceSpec {
        ports: pulses(&[("ask", PortDirection::Output)]),
        ..contract()
    };
    assert_eq!(
        w.register_component(
            other,
            ComponentDescriptor {
                name: "Changed".into(),
                version: 1,
                ports: changed.ports.clone(),
                interfaces: vec![changed.clone()],
            },
        ),
        Err(Error::InterfaceMismatch)
    );
}

#[test]
fn upkeep_goes_by_its_argument_and_records_by_the_clock() {
    let mut w = world(Config::default());
    let a = actor(&mut w, None);
    w.send_with(a, Payload::Pulse(1), expiring(at(110))).unwrap();
    w.advance_clock(Duration::from_secs(5)).unwrap();
    assert!(!w.maintain(at(109)));
    assert!(w.maintain(at(110)));
    let read = w.diagnostics(0, 8).unwrap();
    assert_eq!(read.entries.len(), 1);
    assert_eq!(read.entries[0].elapsed_ns, 5_000_000_000);
}

#[test]
fn a_failure_lease_of_another_world_changes_nothing() {
    let mut w = world(Config::default());
    let mut other = World::with_clock(2, Config::default(), Clock::manual_at(at(100))).unwrap();
    let parent = actor(&mut w, None);
    let child = actor(&mut w, Some(parent));
    let bystander = actor(&mut other, None);
    w.report_failure(
        child,
        None,
        None,
        None,
        FailureDetails::new(FailurePhase::Handler, "handler", "Error", Vec::new()),
        FailureAction::Continue,
    )
    .unwrap();
    let lease = w.claim_failure(parent).unwrap().unwrap();
    assert_eq!(
        lease.finish(&mut other, Some(FailureAction::StopWorld)),
        Err(Error::CrossWorld)
    );
    assert_eq!(other.state(bystander), Ok(Lifecycle::Active));
    assert!(other.allocate(EndpointKind::Native, None).is_ok());
}

#[test]
fn an_encoding_needs_its_own_length_and_no_more() {
    let schema = Schema {
        name: "label".into(),
        version: 1,
        fields: vec![Field {
            name: "text".into(),
            ty: FieldType::String { max_bytes: 8 },
        }],
    };
    let value = Value::Record(vec![Value::String("abc".into())]);
    assert_eq!(schema.encode(&value, 7), Ok(vec![3, 0, 0, 0, 97, 98, 99]));
    assert!(schema.encode(&value, 6).is_err());
    assert_eq!(schema.encode(&value, 7), schema.encode(&value, 700));
}

#[test]
fn structured_payloads_are_those_that_their_schema_validates() {
    let schema = Schema {
        name: "flag".into(),
        version: 1,
        fields: vec![Field {
            name: "on".into(),
            ty: FieldType::Bool,
        }],
    };
    let mut w = world(Config::default());
    let id = w.register_schemas(vec![schema.clone()]).unwrap()[0];
    for bytes in [vec![], vec![0], vec![1], vec![2], vec![1, 1]] {
        assert_eq!(
            w.structured(id, &bytes).is_ok(),
            schema.validate_bytes(&bytes).is_ok()
        );
    }
    assert!(w.structured(id + 1, &[1]).is_err());
    let mut other = World::with_clock(2, Config::default(), Clock::manual_at(at(100))).unwrap();
    let a = actor(&mut other, None);
    let foreign = w.structured(id, &[1]).unwrap();
    assert_eq!(other.send(a, foreign), Err(Error::CrossWorld));
}

#[test]
fn a_last_report_adds_up_and_stays() {
    let mut w = world(Config {
        mailbox_capacity: 1,
        ..Config::default()
    });
    let source = actor(&mut w, None);
    let full = actor(&mut w, None);
    let free = actor(&mut w, None);
    w.subscribe(source, full).unwrap();
    w.subscribe(source, free).unwrap();
    w.send(full, Payload::Pulse(0)).unwrap();
    let ticket = w.publish(source, Payload::Pulse(1)).unwrap();
    w.route_batch();
    let report = ticket.report(&w).unwrap();
    assert_eq!(
        (report.matched, report.admitted, report.rejected),
        (2, 1, 1)
    );
    assert_eq!(report.outcome, PublicationOutcome::Routed);
    w.stop(source).unwrap();
    w.close();
    assert_eq!(ticket.report(&w), Some(report));
}

#[test]
fn a_stop_ends_the_whole_tree_and_a_second_one_discards_nothing() {
    let mut w = world(Config::default());
    service(&mut w);
    let root = actor(&mut w, None);
    let child = actor(&mut w, Some(root));
    let grandchild = actor(&mut w, Some(child));
    w.acquire_service(grandchild, "echo", &contract()).unwrap();
    w.send(child, Payload::Pulse(1)).unwrap();
    let held = w.claim(child).unwrap().unwrap();
    w.send(child, Payload::Pulse(2)).unwrap();
    w.send(grandchild, Payload::Pulse(3)).unwrap();
    let report = w.stop(root).unwrap();
    assert_eq!((report.discarded, report.in_flight), (2, 1));
    assert!(!report.native_done);
    assert!(w.service_leases().is_empty());
    assert_eq!(w.state(child), Ok(Lifecycle::Stopping));
    assert_eq!(w.stop(root).unwrap().discarded, 0);
    held.finish(&mut w, true);
    let report = w.stop(root).unwrap();
    assert_eq!((report.discarded, report.native_done), (0, true));
}

#[test]
fn a_closed_world_is_empty_and_takes_nothing_in() {
    let mut w = world(Config::default());
    let echo = service(&mut w);
    let a = actor(&mut w, None);
    let b = actor(&mut w, Some(a));
    w.acquire_service(b, "echo", &contract()).unwrap();
    w.subscribe(a, b).unwrap();
    w.send(b, Payload::Pulse(1)).unwrap();
    w.request(a, echo, Payload::Pulse(2), at(200)).unwrap();
    w.publish(a, Payload::Pulse(3)).unwrap();
    assert_eq!(w.close().discarded, 2);
    let snapshot = w.snapshot();
    assert_eq!(snapshot.subscriptions, 0);
    assert_eq!(snapshot.operation_pending, 0);
    assert_eq!(snapshot.publications_pending, 0);
    assert_eq!(snapshot.retained_payload_bytes, 0);
    assert!(w.services().is_empty() && w.service_leases().is_empty());
    assert_eq!(
        w.allocate(EndpointKind::Native, None),
        Err(Error::ActorStopped)
    );
    assert!(matches!(
        w.hold(Payload::Pulse(4)),
        Err(Error::ActorStopped)
    ));
    assert_eq!(w.close().discarded, 0);
}

#[test]
fn upkeep_ends_what_is_due_and_is_done_once() {
    let mut w = world(Config::default());
    let a = actor(&mut w, None);
    let b = actor(&mut w, None);
    let early = w.request(a, b, Payload::Pulse(1), at(110)).unwrap();
    let late = w.request(a, b, Payload::Pulse(2), at(111)).unwrap();
    let gone = w
        .publish_with(a, Payload::Pulse(3), expiring(at(110)))
        .unwrap();
    let kept = w
        .publish_with(a, Payload::Pulse(4), expiring(at(111)))
        .unwrap();
    assert!(w.maintain(at(110)));
    assert!(matches!(
        w.operation_status(early),
        Ok(OperationStatus::Terminal(TerminalOutcome::TimedOut))
    ));
    assert!(matches!(
        w.operation_status(late),
        Ok(OperationStatus::Pending(_))
    ));
    assert_eq!(
        gone.report(&w).unwrap().outcome,
        PublicationOutcome::Expired
    );
    assert_eq!(kept.report(&w), None);
    let before = w.snapshot();
    assert!(!w.maintain(at(110)));
    assert_eq!(w.snapshot().metrics, before.metrics);
}

#[test]
fn refused_requests_and_publications_are_only_counted() {
    let mut w = world(Config {
        mailbox_capacity: 1,
        max_publications_per_source: 1,
        ..Config::default()
    });
    let a = actor(&mut w, None);
    let b = actor(&mut w, None);
    w.send(b, Payload::Pulse(0)).unwrap();
    let ticket = w.publish(a, Payload::Pulse(1)).unwrap();
    let before = w.snapshot();
    assert_eq!(
        w.request(a, b, Payload::Pulse(2), at(200)),
        Err(Error::QueueFull)
    );
    assert_eq!(
        w.publish(a, Payload::Pulse(3)).err(),
        Some(Error::QueueFull)
    );
    let after = w.snapshot();
    assert_eq!(after.retained_payload_bytes, before.retained_payload_bytes);
    assert_eq!((after.operation_pending, after.operation_retained), (0, 0));
    assert_eq!(after.publications_pending, 1);
    assert_eq!(after.actors[1].queue_entries, 1);
    assert_eq!(after.metrics.rejected, before.metrics.rejected + 2);
    assert_eq!(ticket.report(&w), None);
}

#[test]
fn spent_identities_do_not_come_back() {
    let mut w = world(Config::default());
    let a = actor(&mut w, None);
    let b = actor(&mut w, None);
    let mut seen = Vec::new();
    for value in 0..3 {
        let id = w.request(a, b, Payload::Pulse(value), at(200)).unwrap();
        assert!(!seen.contains(&id));
        w.cancel_operation(id).unwrap();
        w.take_operation(id).unwrap();
        seen.push(id);
    }
    for id in seen {
        assert!(matches!(
            w.operation_status(id),
            Err(Error::StaleReference)
        ));
    }
}

#[test]
fn a_removed_route_delivers_nothing() {
    let mut w = world(Config::default());
    let a = actor(&mut w, None);
    let b = actor(&mut w, None);
    let route = w.subscribe(a, b).unwrap();
    w.publish(a, Payload::Pulse(1)).unwrap();
    w.route_batch();
    assert_eq!(w.snapshot().actors[1].queue_entries, 1);
    w.unsubscribe(route).unwrap();
    assert_eq!(w.snapshot().subscriptions, 0);
    assert_ne!(w.subscribe(a, b), Ok(route));
    assert!(w.claim(b).unwrap().is_none());
}

#[test]
fn a_release_undoes_a_lease_once() {
    let mut w = world(Config::default());
    service(&mut w);
    let holder = actor(&mut w, None);
    let lease = w.acquire_service(holder, "echo", &contract()).unwrap();
    assert_eq!(w.service_leases(), vec![lease]);
    assert_eq!(w.release_service(lease), Ok(true));
    assert_eq!(w.services().len(), 1);
    assert!(w.service_leases().is_empty());
    assert_eq!(w.release_service(lease), Ok(false));
    assert_ne!(
        w.acquire_service(holder, "echo", &contract()),
        Ok(lease)
    );
}

#[test]
fn a_routing_turn_stays_within_its_batch() {
    let mut w = world(Config {
        routing_batch_size: 2,
        ..Config::default()
    });
    let a = actor(&mut w, None);
    for _ in 0..3 {
        let sink = actor(&mut w, None);
        w.subscribe(a, sink).unwrap();
    }
    w.publish(a, Payload::Pulse(1)).unwrap();
    let first = w.route_batch();
    assert_eq!(
        (first.destinations, first.publications, first.pending),
        (2, 0, 1)
    );
    assert!(first.ready);
    let second = w.route_batch();
    assert_eq!(
        (second.destinations, second.publications, second.pending),
        (1, 1, 0)
    );
    assert!(!second.ready);
    let idle = w.route_batch();
    assert_eq!((idle.destinations, idle.publications), (0, 0));
}
