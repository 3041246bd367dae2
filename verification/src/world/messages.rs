//! Messages from the sender to the handler: which are taken in, how they
//! arrive, and what their end counts as.
use vstd::prelude::*;
use super::laws;
use super::replies;
use super::{ActorView, World, WorldView};
use crate::clock::Instant;
use crate::components;
use crate::components::{PayloadType, PortDirection, PortRef, PortSpec};
use crate::diagnostics::DiagnosticCode;
use crate::envelope::{MessageOptions, SchemaKind};
use crate::held::{Delivery, HeldPayload, Stored};
use crate::operations::{EntryView, OperationFailure, OperationId, OpsView, OutcomeView};
use crate::payload::Payload;
use crate::types::{ActorRef, Error, Lifecycle, Metrics};
use std::sync::Arc;

verus! {

/// Whether a payload is of the type that a port declares.
pub open spec fn fits_port(port: PortSpec, p: Payload) -> bool {
    match p {
        Payload::Pulse(_) => port.schema == PayloadType::Pulse,
        Payload::CountSnapshot { .. } => port.schema == PayloadType::CountSnapshot,
        Payload::Structured(record) => port.schema == PayloadType::Structured(record.schema_id()),
        Payload::Record { .. } => false,
    }
}

/// Whether an actor without a component, or an input of its component, takes a
/// payload.
pub open spec fn has_use_for(a: ActorView, p: Payload) -> bool {
    a.component matches Some(c) ==> exists|i: int|
        0 <= i < c.ports@.len() && (#[trigger] c.ports@[i]).direction == PortDirection::Input
            && fits_port(c.ports@[i], p)
}

/// Whether a payload with its metadata may be kept in a World.
pub open spec fn may_keep(v: WorldView, p: Payload, charge: usize, options: MessageOptions) -> bool {
    &&& options.correlation_id != Some(0u64)
    &&& options.causation_id != Some(0u64)
    &&& options.source matches Some(s) ==> s.world == v.id
    &&& p matches Payload::Structured(record) ==> record.world_id() == v.id
    &&& charge + options.charge() <= v.cfg.max_event_bytes
    &&& v.budget.used() + charge + options.charge() <= v.budget.limit
    &&& v.budget.next < u64::MAX
}

/// Whether a mailbox has room for one more entry of some bytes.
pub open spec fn has_room(v: WorldView, a: ActorView, bytes: int) -> bool {
    a.queue.len() < v.cfg.mailbox_capacity && a.queue_bytes() + bytes <= v.cfg.mailbox_bytes
}

/// Whether an actor may be sent a message now.
pub open spec fn may_send(
    v: WorldView,
    now: Instant,
    r: ActorRef,
    p: Payload,
    charge: usize,
    options: MessageOptions,
) -> bool {
    &&& may_keep(v, p, charge, options)
    &&& options.deadline matches Some(d) ==> now.nanos < d.nanos
    &&& options.source matches Some(s) ==> v.execution(s) == Ok::<Lifecycle, Error>(
        Lifecycle::Active,
    )
    &&& v.next_event < u64::MAX
    &&& p matches Payload::Structured(record) ==> 1 <= record.schema_id()
        <= v.schemas.items.len()
    &&& v.execution(r) == Ok::<Lifecycle, Error>(Lifecycle::Active)
    &&& has_use_for(v.at(r), p)
    &&& has_room(v, v.at(r), charge + options.charge())
}

/// Whether the input that is chosen for a payload is the first that takes it.
spec fn input_is_first(a: ActorView, p: Payload) -> bool {
    a.component matches Some(c) ==> {
        &&& has_use_for(a, p) <==> super::mailbox::input_for(*c, p) is Some
        &&& super::mailbox::input_for(*c, p) matches Some(i) ==> {
            &&& 0 <= i < c.ports@.len()
            &&& c.ports@[i].direction == PortDirection::Input
            &&& fits_port(c.ports@[i], p)
            &&& forall|j: int|
                0 <= j < i ==> !((#[trigger] c.ports@[j]).direction == PortDirection::Input
                    && fits_port(c.ports@[j], p))
        }
    }
}

proof fn lemma_input(a: ActorView, p: Payload)
    ensures
        input_is_first(a, p),
{
    match a.component {
        Some(c) => {
            let f = |port: PortSpec| super::mailbox::takes(port, p);
            components::lemma_first_position_sound(c.ports@, f);
            assert forall|port: PortSpec| #[trigger] f(port) <==> port.direction
                == PortDirection::Input && fits_port(port, p) by {}
            match components::first_position(c.ports@, f) {
                Some(i) => {
                    assert(f(c.ports@[i]));
                    assert forall|j: int| 0 <= j < i implies !((#[trigger] c.ports@[j]).direction
                        == PortDirection::Input && fits_port(c.ports@[j], p)) by {
                        assert(!f(c.ports@[j]));
                    }
                },
                None => {
                    assert forall|j: int| 0 <= j < c.ports@.len() implies !((
                    #[trigger] c.ports@[j]).direction == PortDirection::Input && fits_port(
                        c.ports@[j],
                        p,
                    )) by {
                        assert(!f(c.ports@[j]));
                    }
                },
            }
        },
        None => {},
    }
}

/// Whether a payload is kept exactly if it may be, and why not.
proof fn lemma_keeping(v: WorldView, p: Payload, charge: usize, options: MessageOptions)
    ensures
        v.refuses_payload(p, charge, options) is None <==> may_keep(v, p, charge, options),
        v.refuses_payload(p, charge, options) matches Some(e) ==> {
            ||| e == Error::InvalidMetadata && (options.correlation_id == Some(0u64)
                || options.causation_id == Some(0u64))
            ||| e == Error::CrossWorld && ((options.source matches Some(s) && s.world != v.id) || (
            p matches Payload::Structured(record) && record.world_id() != v.id))
            ||| e == Error::LimitExceeded && (charge + options.charge() > v.cfg.max_event_bytes
                || v.budget.next == u64::MAX)
            ||| e == Error::BudgetExceeded && v.budget.used() + charge + options.charge()
                > v.budget.limit
        },
{
}

/// Whether what is stored may join the mailbox of an actor as things stand.
spec fn admissible(w: WorldView, now: Instant, r: ActorRef, stored: Stored) -> bool {
    let drawn = WorldView { next_event: (w.next_event + 1) as u64, ..w };
    &&& stored.options.deadline matches Some(d) ==> now.nanos < d.nanos
    &&& stored.options.correlation_id != Some(0u64)
    &&& stored.options.causation_id != Some(0u64)
    &&& stored.options.source matches Some(s) ==> w.execution(s) == Ok::<Lifecycle, Error>(
        Lifecycle::Active,
    )
    &&& w.next_event < u64::MAX
    &&& w.valid(r)
    &&& stored.payload matches Payload::Structured(record) ==> 1 <= record.schema_id()
        <= w.schemas.items.len()
    &&& drawn.execution(r) == Ok::<Lifecycle, Error>(Lifecycle::Active)
    &&& has_use_for(w.at(r), stored.payload)
    &&& has_room(w, w.at(r), stored.bytes as int)
}

proof fn lemma_admissible(
    w: WorldView,
    now: Instant,
    r: ActorRef,
    stored: Arc<Stored>,
    p: Payload,
    operation: Option<OperationId>,
)
    requires
        stored.payload == p,
    ensures
        w.admission(now, r, stored, None, false, operation).1 is Ok <==> admissible(
            w,
            now,
            r,
            *stored,
        ),
{
    lemma_input(w.at(r), p);
}

/// What a request asks for: an operation, room for the message, and a place for
/// it in the mailbox.
proof fn lemma_asking(
    u: WorldView,
    now: Instant,
    owner: ActorRef,
    target: ActorRef,
    p: Payload,
    charge: usize,
    options: MessageOptions,
    port: Option<PortRef>,
)
    ensures
        ({
            let w = u.with_ops(u.ops.reserved(owner, target, options.deadline->0));
            u.asking(now, owner, target, p, charge, options, port).1 is Ok <==> {
                &&& u.ops.refuses(owner, target) is None
                &&& w.refuses_payload(p, charge, options) is None
                &&& w.storing(charge, options).admission(
                    now,
                    target,
                    w.stored_next(p, charge, options, None),
                    None,
                    false,
                    Some(u.ops.next_id()),
                ).1 is Ok
            }
        }),
{
}

/// A message is taken in exactly if it may be sent.
pub proof fn a_message_is_taken_in_exactly_if_it_may_be(
    world: World,
    now: Instant,
    r: ActorRef,
    p: Payload,
    charge: usize,
    options: MessageOptions,
)
    requires
        world.inv(),
    ensures
        world@.sending(now, r, p, charge, options).1 is Ok <==> may_send(
            world@,
            now,
            r,
            p,
            charge,
            options,
        ),
{
    let v = world@;
    world.lemma_sound();
    super::lemma_sound_parts(v);
    let u = v.submitting();
    lemma_keeping(u, p, charge, options);
    let kept = u.storing(charge, options);
    let drawn = WorldView { next_event: (v.next_event + 1) as u64, ..kept };
    lemma_admissible(kept, now, r, u.stored_next(p, charge, options, None), p, None);
    laws::lemma_execution_alike(v, drawn, r, false, false);
    match options.source {
        Some(s) => {
            laws::lemma_execution_alike(v, kept, s, false, false);
        },
        None => {},
    }
}

/// What a refused message is told is what is wrong with it.
pub proof fn a_refused_message_is_told_why(
    world: World,
    now: Instant,
    r: ActorRef,
    p: Payload,
    charge: usize,
    options: MessageOptions,
)
    requires
        world.inv(),
        world@.sending(now, r, p, charge, options).1 is Err,
    ensures
        ({
            let v = world@;
            let (n, result) = v.sending(now, r, p, charge, options);
            let e = result->Err_0;
            &&& e == Error::InvalidMetadata ==> options.correlation_id == Some(0u64)
                || options.causation_id == Some(0u64)
            &&& e == Error::DeadlineExpired ==> (options.deadline matches Some(d) && d.nanos
                <= now.nanos)
            &&& e == Error::BudgetExceeded ==> v.budget.used() + charge + options.charge()
                > v.budget.limit
            &&& e == Error::QueueFull ==> !has_room(v, v.at(r), charge + options.charge())
            &&& e == Error::SchemaMismatch ==> !has_use_for(v.at(r), p) || (
            p matches Payload::Structured(record) && !(1 <= record.schema_id()
                <= v.schemas.items.len()))
            &&& e == Error::StaleReference ==> !v.valid(r) || (options.source matches Some(s)
                && v.execution(s) is Err)
            &&& e == Error::ActorNotReady || e == Error::ActorStopped ==> v.execution(r) != Ok::<
                Lifecycle,
                Error,
            >(Lifecycle::Active) || (options.source matches Some(s) && v.execution(s) != Ok::<
                Lifecycle,
                Error,
            >(Lifecycle::Active))
            &&& e == Error::LimitExceeded ==> charge + options.charge() > v.cfg.max_event_bytes
                || v.budget.next == u64::MAX || v.next_event == u64::MAX
            &&& e == Error::CrossWorld ==> r.world != v.id || (options.source matches Some(s)
                && s.world != v.id) || (p matches Payload::Structured(record)
                && record.world_id() != v.id)
            &&& e != Error::NotFound && e != Error::InvalidConfig && e
                != Error::DuplicateSubscription && e != Error::InvalidPort && e
                != Error::InterfaceMismatch
            &&& n.metrics == (Metrics {
                submitted: n.metrics.submitted,
                rejected: n.metrics.rejected,
                ..v.metrics
            })
            &&& v.metrics.submitted < u64::MAX ==> n.metrics.submitted == v.metrics.submitted + 1
            &&& v.metrics.rejected < u64::MAX ==> n.metrics.rejected == v.metrics.rejected + 1
            &&& v.history.capacity > 0 && !v.history.exhausted ==> {
                &&& n.history.entries.last().code == crate::diagnostics::code_of(e)
                &&& n.history.entries.last().actor == Some(r)
            }
        }),
{
    let v = world@;
    world.lemma_sound();
    super::lemma_sound_parts(v);
    let u = v.submitting();
    lemma_keeping(u, p, charge, options);
    let kept = u.storing(charge, options);
    let drawn = WorldView { next_event: (v.next_event + 1) as u64, ..kept };
    laws::lemma_execution_alike(v, drawn, r, false, false);
    laws::lemma_execution_errors(world, r);
    match options.source {
        Some(s) => {
            laws::lemma_execution_alike(v, kept, s, false, false);
            laws::lemma_execution_errors(world, s);
        },
        None => {},
    }
    lemma_input(v.at(r), p);
}

/// How an entry of a mailbox came there: under which number, from whom, with
/// which metadata, and at which port.
pub open spec fn arrived(
    d: Delivery,
    v: WorldView,
    now: Instant,
    r: ActorRef,
    stored: Stored,
    sub: Option<u64>,
) -> bool {
    &&& *d.payload == stored
    &&& d.event_id == v.next_event
    &&& d.subscription == sub
    &&& d.envelope.event_id == v.next_event
    &&& d.envelope.source == stored.options.source
    &&& d.envelope.destination == r
    &&& d.envelope.owner == r
    &&& d.envelope.dispatcher == stored.dispatcher
    &&& d.envelope.enqueued_at == now
    &&& d.envelope.deadline == stored.options.deadline
    &&& d.envelope.causation_id == stored.options.causation_id
    &&& d.envelope.trace == stored.options.trace
    &&& d.operation is None ==> d.envelope.correlation_id == stored.options.correlation_id
    &&& match stored.payload {
        Payload::Pulse(_) => d.envelope.schema.kind == SchemaKind::Pulse && d.envelope.schema.version
            == 1 && d.envelope.schema.id == 0,
        Payload::CountSnapshot { .. } => d.envelope.schema.kind == SchemaKind::CountSnapshot
            && d.envelope.schema.version == 1 && d.envelope.schema.id == 0,
        Payload::Record { schema, .. } => d.envelope.schema.kind == SchemaKind::Record
            && d.envelope.schema.id == schema && d.envelope.schema.version == 0,
        Payload::Structured(record) => {
            &&& d.envelope.schema.kind == SchemaKind::Structured
            &&& d.envelope.schema.id == record.schema_id()
            &&& d.envelope.schema.version == v.schemas.get(record.schema_id()).version
        },
    }
}

/// Whether a port is the input of an actor by which a payload comes in: the one
/// of the route, or the first that takes it.
pub open spec fn comes_in(
    port: Option<PortRef>,
    a: ActorView,
    r: ActorRef,
    p: Payload,
    routed: Option<u16>,
) -> bool {
    match routed {
        Some(index) => port == Some(PortRef { owner: r, index }),
        None => match a.component {
            Some(c) => {
                &&& port matches Some(at)
                &&& at.owner == r
                &&& (at.index as int) < c.ports@.len()
                &&& c.ports@[at.index as int].direction == PortDirection::Input
                &&& fits_port(c.ports@[at.index as int], p)
                &&& forall|j: int|
                    0 <= j < at.index ==> !((#[trigger] c.ports@[j]).direction
                        == PortDirection::Input && fits_port(c.ports@[j], p))
            },
            None => port is None,
        },
    }
}

/// What is admitted to a mailbox arrives as it was stored, at the end, and is
/// counted once.
pub proof fn what_is_admitted_arrives(
    v: WorldView,
    now: Instant,
    r: ActorRef,
    stored: Arc<Stored>,
    sub: Option<u64>,
    completion: bool,
    operation: Option<OperationId>,
)
    requires
        v.admission(now, r, stored, sub, completion, operation).1 is Ok,
    ensures
        ({
            let (n, result) = v.admission(now, r, stored, sub, completion, operation);
            let d = n.at(r).queue.last();
            &&& result == Ok::<u64, Error>(v.next_event)
            &&& n.at(r).queue == v.at(r).queue.push(d)
            &&& d.operation == operation
            &&& arrived(d, v, now, r, *stored, sub)
            &&& operation is Some && stored.options.correlation_id is None
                ==> d.envelope.correlation_id == Some(v.next_event)
            &&& stored.options.correlation_id is Some ==> d.envelope.correlation_id
                == stored.options.correlation_id
            &&& n.metrics == (Metrics { admitted: n.metrics.admitted, ..v.metrics })
            &&& v.metrics.admitted < u64::MAX ==> n.metrics.admitted == v.metrics.admitted + 1
            &&& n.history == v.history
            &&& n.next_event == v.next_event + 1
            &&& n.ops == v.ops
            &&& n.id == v.id
            &&& n.budget == v.budget
            &&& n.valid(r)
        }),
{
    let n = v.admission(now, r, stored, sub, completion, operation).0;
    let d = n.at(r).queue.last();
    assert(n.at(r).queue =~= v.at(r).queue.push(d));
}

/// What is admitted to a mailbox comes in at the port of its route, or at the
/// first that takes it.
pub proof fn what_is_admitted_comes_in_at_its_port(
    v: WorldView,
    now: Instant,
    r: ActorRef,
    stored: Arc<Stored>,
    sub: Option<u64>,
    completion: bool,
    operation: Option<OperationId>,
)
    requires
        v.admission(now, r, stored, sub, completion, operation).1 is Ok,
        v.at(r).component matches Some(c) ==> c.ports@.len() <= u16::MAX,
    ensures
        comes_in(
            v.admission(
                now,
                r,
                stored,
                sub,
                completion,
                operation,
            ).0.at(r).queue.last().envelope.destination_port,
            v.at(r),
            r,
            stored.payload,
            if sub is Some && v.subs.dom().contains(sub->0) {
                v.subs[sub->0].target_port
            } else {
                None
            },
        ),
{
    assert forall|p: Payload| p == stored.payload implies #[trigger] input_is_first(v.at(r), p) by {
        lemma_input(v.at(r), p);
    }
    assert(input_is_first(v.at(r), stored.payload));
}

/// A message that is taken in arrives as it was sent.
pub proof fn a_message_arrives_as_it_was_sent(
    v: WorldView,
    now: Instant,
    r: ActorRef,
    p: Payload,
    charge: usize,
    options: MessageOptions,
)
    requires
        v.sending(now, r, p, charge, options).1 is Ok,
        v.at(r).component matches Some(c) ==> c.ports@.len() <= u16::MAX,
    ensures
        ({
            let (n, result) = v.sending(now, r, p, charge, options);
            let d = n.at(r).queue.last();
            &&& n.at(r).queue == v.at(r).queue.push(d)
            &&& result == Ok::<u64, Error>(d.event_id)
            &&& arrived(d, v, now, r, *d.payload, None)
            &&& d.operation is None
            &&& d.payload.payload == p
            &&& d.payload.options == options
            &&& d.payload.dispatcher is None
            &&& d.payload.bytes == charge + options.charge()
            &&& comes_in(d.envelope.destination_port, v.at(r), r, p, None)
            &&& n.metrics == (Metrics {
                submitted: n.metrics.submitted,
                admitted: n.metrics.admitted,
                ..v.metrics
            })
            &&& v.metrics.submitted < u64::MAX ==> n.metrics.submitted == v.metrics.submitted + 1
            &&& v.metrics.admitted < u64::MAX ==> n.metrics.admitted == v.metrics.admitted + 1
            &&& n.history == v.history
        }),
{
    let u = v.submitting();
    lemma_keeping(u, p, charge, options);
    let stored = u.stored_next(p, charge, options, None);
    let kept = u.storing(charge, options);
    what_is_admitted_arrives(kept, now, r, stored, None, false, None);
    what_is_admitted_comes_in_at_its_port(kept, now, r, stored, None, false, None);
}

/// A message to a port arrives at that port, which is an input for what it
/// carries.
pub proof fn a_message_to_a_port_arrives_there(
    v: WorldView,
    now: Instant,
    port: PortRef,
    p: Payload,
    charge: usize,
    options: MessageOptions,
)
    requires
        v.sending_port(now, port, p, charge, options).1 is Ok,
    ensures
        ({
            let (n, result) = v.sending_port(now, port, p, charge, options);
            let d = n.at(port.owner).queue.last();
            &&& v.at(port.owner).component matches Some(c)
            &&& (port.index as int) < c.ports@.len()
            &&& c.ports@[port.index as int].direction == PortDirection::Input
            &&& fits_port(c.ports@[port.index as int], p)
            &&& n.at(port.owner).queue == v.at(port.owner).queue.push(d)
            &&& result == Ok::<u64, Error>(d.event_id)
            &&& d.envelope.destination_port == Some(port)
            &&& arrived(d, v, now, port.owner, *d.payload, None)
            &&& d.payload.payload == p
            &&& d.payload.options == options
        }),
{
    let u = v.submitting();
    lemma_keeping(u, p, charge, options);
    let stored = u.stored_next(p, charge, options, None);
    let kept = u.storing(charge, options);
    what_is_admitted_arrives(kept, now, port.owner, stored, None, false, None);
    let m = kept.admission(now, port.owner, stored, None, false, None).0;
    let n = v.sending_port(now, port, p, charge, options).0;
    let d = n.at(port.owner).queue.last();
    assert(n.at(port.owner).queue =~= v.at(port.owner).queue.push(d));
}

/// A payload that was stored before is sent with the metadata that it was
/// stored with, and stays stored.
pub proof fn a_held_payload_arrives_as_it_was_stored(
    v: WorldView,
    now: Instant,
    r: ActorRef,
    held: HeldPayload,
)
    requires
        v.sending_held(now, r, held).1 is Ok,
    ensures
        ({
            let (n, result) = v.sending_held(now, r, held);
            let d = n.at(r).queue.last();
            &&& held.of_world() == v.id
            &&& n.at(r).queue == v.at(r).queue.push(d)
            &&& result == Ok::<u64, Error>(d.event_id)
            &&& d.payload == held.kept()
            &&& d.operation is None
            &&& arrived(d, v, now, r, *held.kept(), None)
            &&& v.budget.shares.dom().contains(held.share())
            &&& n.budget.shares[held.share()].holders == v.budget.shares[held.share()].holders + 1
            &&& n.budget.shares[held.share()].bytes == v.budget.shares[held.share()].bytes
            &&& n.budget.shares[held.share()].lent == v.budget.shares[held.share()].lent
        }),
{
    let u = v.submitting();
    what_is_admitted_arrives(u.sharing(held.share()), now, r, held.kept(), None, false, None);
}

proof fn lemma_retired_keeps(a: OpsView, ids: Seq<OperationId>)
    requires
        a.slots.len() == a.generations.len(),
    ensures
        ({
            let b = a.retired_all(ids);
            &&& b.slots.len() == a.slots.len()
            &&& b.generations.len() == a.generations.len()
            &&& forall|x: OperationId| #[trigger]
                b.has(x) ==> a.has(x) && b.entry(x) == a.entry(x)
        }),
    decreases ids.len(),
{
    if ids.len() > 0 {
        let rest = ids.drop_last();
        lemma_retired_keeps(a, rest);
        let m = a.retired_all(rest);
        let id = ids.last();
        let done = m.completed(id, OutcomeView::OwnerStopped);
        let b = m.retired(id);
        assert forall|x: OperationId| #[trigger] b.has(x) implies m.has(x) && b.entry(x) == m.entry(
            x,
        ) by {
            if m.has(id) {
                assert(x.slot != id.slot);
            }
        }
        assert forall|x: OperationId| #[trigger] b.has(x) implies a.has(x) && b.entry(x) == a.entry(
            x,
        ) by {
            assert(m.has(x));
        }
    }
}

/// What settling the end of an actor leaves alone.
#[verifier::opaque]
pub open spec fn settled_only(v: WorldView, n: WorldView) -> bool {
    &&& n.id == v.id
    &&& n.cfg == v.cfg
    &&& n.metrics == v.metrics
    &&& n.history == v.history
    &&& n.subs == v.subs
    &&& n.pubs == v.pubs
    &&& n.services == v.services
    &&& n.next_event == v.next_event
    &&& n.actors.len() == v.actors.len()
    &&& n.ops.slots.len() == n.ops.generations.len()
    &&& forall|x: OperationId| #[trigger]
        n.ops.has(x) ==> v.ops.has(x) && n.ops.entry(x) == v.ops.entry(x)
    &&& forall|i: int|
        0 <= i < v.actors.len() ==> {
            &&& (#[trigger] n.actors[i]).reference == v.actors[i].reference
            &&& n.actors[i].parent == v.actors[i].parent
            &&& n.actors[i].queue == v.actors[i].queue
            &&& n.actors[i].staged == v.actors[i].staged
            &&& n.actors[i].in_flight == v.actors[i].in_flight
            &&& n.actors[i].control_in_flight == v.actors[i].control_in_flight
            &&& n.actors[i].native_tasks == v.actors[i].native_tasks
            &&& n.actors[i].python_done == v.actors[i].python_done
            &&& n.actors[i].notification == v.actors[i].notification
            &&& n.actors[i].pending_failures == v.actors[i].pending_failures
            &&& n.actors[i].state == v.actors[i].state || (v.actors[i].state == Lifecycle::Stopping
                && n.actors[i].state == Lifecycle::Stopped)
        }
}

proof fn lemma_settled_twice(a: WorldView, b: WorldView, c: WorldView)
    requires
        settled_only(a, b),
        settled_only(b, c),
    ensures
        settled_only(a, c),
{
    reveal(settled_only);
    assert forall|x: OperationId| #[trigger] c.ops.has(x) implies a.ops.has(x) && c.ops.entry(x)
        == a.ops.entry(x) by {
        assert(b.ops.has(x));
    }
    assert forall|i: int| 0 <= i < a.actors.len() implies {
        &&& (#[trigger] c.actors[i]).reference == a.actors[i].reference
        &&& c.actors[i].parent == a.actors[i].parent
        &&& c.actors[i].queue == a.actors[i].queue
        &&& c.actors[i].staged == a.actors[i].staged
        &&& c.actors[i].in_flight == a.actors[i].in_flight
        &&& c.actors[i].control_in_flight == a.actors[i].control_in_flight
        &&& c.actors[i].native_tasks == a.actors[i].native_tasks
        &&& c.actors[i].python_done == a.actors[i].python_done
        &&& c.actors[i].notification == a.actors[i].notification
        &&& c.actors[i].pending_failures == a.actors[i].pending_failures
        &&& c.actors[i].state == a.actors[i].state || (a.actors[i].state == Lifecycle::Stopping
            && c.actors[i].state == Lifecycle::Stopped)
    } by {
        assert(b.actors[i].reference == a.actors[i].reference);
    }
}

pub(super) proof fn lemma_finalized_settles(v: WorldView, r: ActorRef)
    requires
        v.ops.slots.len() == v.ops.generations.len(),
    ensures
        settled_only(v, v.finalized(r)),
    decreases v.order(r),
{
    reveal(WorldView::finalized);
    let seen = v.refreshed(r).marked(r);
    assert(settled_only(v, seen)) by {
        reveal(settled_only);
    }
    if v.valid(r) && seen.can_retire(r) {
        let gone = seen.retired(r).refreshed(r);
        let ids = crate::ordered::sorted(gone.ops.owned(r));
        lemma_retired_keeps(gone.ops, ids);
        super::actors::lemma_with_ops(gone, gone.ops.owner_retired(r));
        let settled = gone.with_ops(gone.ops.owner_retired(r));
        assert(settled_only(v, settled)) by {
            reveal(settled_only);
            assert forall|x: OperationId| #[trigger] settled.ops.has(x) implies v.ops.has(x)
                && settled.ops.entry(x) == v.ops.entry(x) by {
                assert(gone.ops.retired_all(ids).has(x));
            }
        }
        match v.at(r).parent {
            Some(p) => {
                let told = if settled.valid(p) {
                    settled.bereaved(p, r)
                } else {
                    settled
                };
                assert(settled_only(v, told)) by {
                    reveal(settled_only);
                }
                if told.order(p) < v.order(r) {
                    assert(told.ops.slots.len() == told.ops.generations.len()) by {
                        reveal(settled_only);
                    }
                    lemma_finalized_settles(told, p);
                    lemma_settled_twice(v, told, told.finalized(p));
                }
            },
            None => {},
        }
    }
}

/// A handler that comes back leaves its actor free for more work and is counted
/// as completed or failed; a request whose handler failed ends so.
pub proof fn a_handler_that_comes_back_is_counted(
    v: WorldView,
    now: Instant,
    r: ActorRef,
    d: Delivery,
    success: bool,
)
    requires
        v.valid(r),
        v.ops.slots.len() == v.ops.generations.len(),
    ensures
        ({
            let n = v.finishing(now, r, d, success);
            &&& n.valid(r)
            &&& !n.at(r).in_flight
            &&& n.at(r).queue == v.at(r).queue
            &&& success ==> {
                &&& v.metrics.completed < u64::MAX ==> n.metrics.completed == v.metrics.completed
                    + 1
                &&& n.metrics == (Metrics { completed: n.metrics.completed, ..v.metrics })
                &&& n.history == v.history
            }
            &&& !success ==> {
                &&& v.metrics.failed < u64::MAX ==> n.metrics.failed == v.metrics.failed + 1
                &&& n.metrics.completed == v.metrics.completed
                &&& v.history.capacity > 0 && !v.history.exhausted && v.at(r).reported_failure
                    != Some(d.event_id) ==> {
                    &&& n.history.entries.last().code == DiagnosticCode::HandlerFailed
                    &&& n.history.entries.last().actor == Some(r)
                    &&& n.history.entries.last().operation == d.operation
                }
                &&& v.at(r).reported_failure == Some(d.event_id) ==> n.history == v.history
                &&& d.operation matches Some(id) ==> (n.ops.has(id) && v.ops.has(id) && v.ops.entry(
                    id,
                ) is Pending ==> (n.ops.entry(id) matches EntryView::Terminal {
                    owner,
                    outcome: OutcomeView::Failed { code, .. },
                } && owner == v.ops.entry(id).owner() && code == OperationFailure::HandlerFailed))
            }
            &&& forall|id: OperationId|
                success || d.operation != Some(id) ==> #[trigger] n.ops.has(id) ==> v.ops.has(id)
                    && n.ops.entry(id) == v.ops.entry(id)
        }),
{
    reveal(settled_only);
    let u = v.returning(d.payload.id).landed(r);
    let n = v.finishing(now, r, d, success);
    if success {
        let m = WorldView {
            metrics: Metrics {
                completed: crate::types::bumped(u.metrics.completed),
                ..u.metrics
            },
            ..u
        };
        lemma_finalized_settles(m, r);
    } else {
        let m = WorldView {
            metrics: Metrics { failed: crate::types::bumped(u.metrics.failed), ..u.metrics },
            ..u
        };
        let told = if m.at(r).reported_failure != Some(d.event_id) {
            m.noted(now, DiagnosticCode::HandlerFailed, Some(r), d.operation)
        } else {
            m
        };
        match d.operation {
            Some(id) => {
                replies::lemma_op_completed(told, id, super::requests::handler_failed());
                lemma_finalized_settles(told.failing_op(id), r);
            },
            None => {
                lemma_finalized_settles(told, r);
            },
        }
    }
}

/// A delivery that is given up leaves its actor free for more work and is
/// counted as cancelled; a request that it was ends so.
pub proof fn a_delivery_that_is_given_up_is_cancelled(
    v: WorldView,
    now: Instant,
    r: ActorRef,
    d: Delivery,
)
    requires
        v.valid(r),
        v.ops.slots.len() == v.ops.generations.len(),
    ensures
        ({
            let n = v.abandoning(now, r, d);
            &&& n.valid(r)
            &&& !n.at(r).in_flight
            &&& n.at(r).queue == v.at(r).queue
            &&& v.metrics.cancelled < u64::MAX ==> n.metrics.cancelled == v.metrics.cancelled + 1
            &&& n.metrics.completed == v.metrics.completed
            &&& n.metrics.failed == v.metrics.failed
            &&& n.metrics.discarded == v.metrics.discarded
            &&& d.operation is None ==> n.history == v.history
            &&& d.operation matches Some(id) ==> (v.ops.has(id) && v.ops.entry(id) is Pending ==> {
                &&& v.metrics.operation_cancelled < u64::MAX ==> n.metrics.operation_cancelled
                    == v.metrics.operation_cancelled + 1
                &&& v.history.capacity > 0 && !v.history.exhausted ==> {
                    &&& n.history.entries.last().code == DiagnosticCode::Cancelled
                    &&& n.history.entries.last().operation == Some(id)
                }
                &&& n.ops.has(id) ==> n.ops.entry(id) == (EntryView::Terminal {
                    owner: v.ops.entry(id).owner(),
                    outcome: OutcomeView::Cancelled,
                })
            })
        }),
{
    reveal(settled_only);
    let u = v.returning(d.payload.id).landed(r).cancellation_counted();
    match d.operation {
        Some(id) => {
            replies::lemma_op_completed(u, id, OutcomeView::Cancelled);
            let m = u.op_completed(id, OutcomeView::Cancelled);
            if u.ops.completing(id, OutcomeView::Cancelled) == Ok::<bool, Error>(true) {
                lemma_finalized_settles(
                    m.op_cancellation_counted().noted(
                        now,
                        DiagnosticCode::Cancelled,
                        Some(r),
                        Some(id),
                    ),
                    r,
                );
            } else {
                lemma_finalized_settles(m, r);
            }
        },
        None => {
            lemma_finalized_settles(u, r);
        },
    }
}

/// One look at a mailbox takes its first delivery if somebody still waits for
/// it: its deadline has not come, its request is open, and the route by which
/// it came is there. Then the actor has it in hand.
pub proof fn what_is_taken_is_still_waited_for(v: WorldView, now: Instant, r: ActorRef)
    requires
        v.valid(r),
        v.at(r).queue.len() > 0,
    ensures
        ({
            let d = v.at(r).queue[0];
            let (n, end) = v.claim_step(now, r);
            let late = d.envelope.deadline matches Some(at) && at.nanos <= now.nanos;
            let asked = d.operation matches Some(id) ==> v.ops.has(id) && (v.ops.entry(
                id,
            ) matches EntryView::Pending(request) && now.nanos < request.deadline.nanos);
            let routed = d.subscription matches Some(id) ==> v.subs.dom().contains(id);
            &&& end is Some <==> !late && asked && routed
            &&& end is Some ==> {
                &&& end == Some(Some(d))
                &&& n.at(r).in_flight
                &&& v.metrics.started < u64::MAX ==> n.metrics.started == v.metrics.started + 1
                &&& n.metrics.expired == v.metrics.expired
                &&& n.metrics.cancelled == v.metrics.cancelled
            }
            &&& end is None ==> {
                &&& n.at(r).in_flight == v.at(r).in_flight
                &&& n.metrics.started == v.metrics.started
                &&& v.metrics.cancelled < u64::MAX ==> n.metrics.cancelled == v.metrics.cancelled
                    + 1
                &&& late && v.metrics.expired < u64::MAX ==> n.metrics.expired == v.metrics.expired
                    + 1
                &&& !late ==> n.metrics.expired == v.metrics.expired
            }
        }),
{
    reveal(WorldView::claim_step);
    let d = v.at(r).queue[0];
    let u = v.unqueued(r);
    match d.operation {
        Some(id) => {
            replies::lemma_op_completed(u, id, OutcomeView::TimedOut);
            let told = WorldView {
                metrics: (Metrics {
                    expired: crate::types::bumped(u.metrics.expired),
                    cancelled: crate::types::bumped(u.metrics.cancelled),
                    discarded: crate::types::bumped(u.metrics.discarded),
                    ..u.metrics
                }),
                history: crate::diagnostics::recorded(
                    u.history,
                    now,
                    DiagnosticCode::DeadlineExpired,
                    Some(d.envelope.destination),
                    d.operation,
                    None,
                    Some(d.envelope),
                ),
                ..u
            };
            replies::lemma_op_completed(told, id, OutcomeView::TimedOut);
        },
        None => {},
    }
}

/// A request is made exactly if nobody else is named as its source, there is room
/// for the operation, and its owner may send the message until the earlier of the
/// two deadlines.
pub proof fn a_request_is_made_exactly_if_it_may_be(
    world: World,
    now: Instant,
    owner: ActorRef,
    target: ActorRef,
    p: Payload,
    charge: usize,
    deadline: Instant,
    options: MessageOptions,
    port: Option<PortRef>,
)
    requires
        world.inv(),
    ensures
        world@.requesting(now, owner, target, p, charge, deadline, options, port).1 is Ok <==> {
            &&& options.source is None || options.source == Some(owner)
            &&& world@.ops.live_ids().len() < world@.ops.max
            &&& world@.ops.free.len() > 0 || world@.ops.slots.len() < world@.ops.max
            &&& may_send(
                world@,
                now,
                target,
                p,
                charge,
                (MessageOptions {
                    source: Some(owner),
                    deadline: if options.deadline matches Some(d) && d.nanos <= deadline.nanos {
                        options.deadline
                    } else {
                        Some(deadline)
                    },
                    ..options
                }),
            )
        },
{
    let v = world@;
    world.lemma_sound();
    world.lemma_operations();
    super::lemma_sound_parts(v);
    let u = v.submitting();
    let o = super::requests::request_options(owner, deadline, options);
    let reserved = u.ops.reserved(owner, target, o.deadline->0);
    super::actors::lemma_with_ops(u, reserved);
    let w = u.with_ops(reserved);
    assert(w.budget == v.budget);
    lemma_keeping(w, p, charge, o);
    let kept = w.storing(charge, o);
    let drawn = WorldView { next_event: (v.next_event + 1) as u64, ..kept };
    lemma_asking(u, now, owner, target, p, charge, o, port);
    lemma_admissible(
        kept,
        now,
        target,
        w.stored_next(p, charge, o, None),
        p,
        Some(u.ops.next_id()),
    );
    laws::lemma_execution_alike(v, u, owner, false, false);
    laws::lemma_execution_alike(v, u, target, false, false);
    laws::lemma_execution_alike(v, kept, owner, false, false);
    laws::lemma_execution_alike(v, drawn, target, false, false);
}

} // verus!
