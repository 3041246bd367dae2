//! A World behind cloneable handles. Leases, tickets and held payloads give
//! themselves back when they are dropped, and observers are wakers.
use runtime_core::schema::{Field, FieldType, Schema, SchemaError, SchemaRegistry};
use runtime_core::{
    ActivityPoll, ActorRef, ComponentDescriptor, Config, DeliveryReport, DiagnosticCode,
    DiagnosticRead, Duration, EndpointKind, Envelope, Error, FailureAction, FailureDetails,
    FailureFrame, FailurePhase, FailureRecord, Instant, InterfaceSpec, Lifecycle, LinkSnapshot,
    MessageOptions, Numbering, OperationFailure, OperationId, Payload, PayloadType, PortDirection,
    PortRef, PortSpec, PublicationOutcome, PublicationStatus, PythonReadyPhase, Retired,
    RoutingPoll, RoutingProgress, SchemaKind, ServiceLease, ServiceSnapshot, StopReport,
    TraceContext, World as Core, WorldSnapshot,
};
use std::collections::{BTreeMap, BTreeSet, VecDeque};
use std::sync::atomic::AtomicUsize;
use std::sync::{mpsc, Arc, Mutex};
use std::task::{Context, Poll, Wake, Waker};

/// The machine's time since the Unix epoch, on the timeline of `World::new`.
fn now() -> Instant {
    let elapsed = std::time::SystemTime::now()
        .duration_since(std::time::UNIX_EPOCH)
        .unwrap();
    Instant::from_nanos(elapsed.as_nanos())
}

fn later(at: Instant, by: Duration) -> Instant {
    at.checked_add(by).unwrap()
}

fn sooner(at: Instant, by: Duration) -> Instant {
    Instant::from_nanos(at.nanos - by.nanos)
}

fn system_clock() -> runtime_core::Clock {
    let reading = std::time::Instant::now();
    let elapsed = std::time::SystemTime::now()
        .duration_since(std::time::UNIX_EPOCH)
        .unwrap();
    runtime_core::Clock::System {
        origin: reading.checked_sub(elapsed).unwrap(),
    }
}

struct Shared {
    core: Mutex<Core>,
    observers: Mutex<BTreeMap<u64, Waker>>,
    enrolled: Mutex<u64>,
}

#[derive(Clone)]
struct World(Arc<Shared>);

struct Steered {
    held: runtime_core::VirtualClock,
    world: Option<World>,
}

struct Clock(Arc<Mutex<Steered>>);

struct VirtualClock(Arc<Mutex<Steered>>);

impl Clock {
    fn manual_at(initial: Instant) -> (Clock, VirtualClock) {
        let steered = Arc::new(Mutex::new(Steered {
            held: runtime_core::VirtualClock::at(initial),
            world: None,
        }));
        (Clock(steered.clone()), VirtualClock(steered))
    }
}

impl VirtualClock {
    fn current(&self) -> Instant {
        self.0.lock().unwrap().held.current()
    }

    fn advance(&self, by: Duration) -> Result<Instant, Error> {
        let mut steered = self.0.lock().unwrap();
        let reading = steered.held.advance(by)?;
        if let Some(world) = &steered.world {
            assert_eq!(world.with(|core| core.advance_clock(by)), Ok(reading));
        }
        Ok(reading)
    }
}

impl World {
    fn own(core: Core) -> World {
        World(Arc::new(Shared {
            core: Mutex::new(core),
            observers: Mutex::new(BTreeMap::new()),
            enrolled: Mutex::new(0),
        }))
    }

    fn fresh_id() -> u64 {
        now().nanos as u64
    }

    fn new(config: Config) -> Result<World, Error> {
        Ok(World::own(Core::with_clock(
            World::fresh_id(),
            config,
            system_clock(),
        )?))
    }

    fn with_clock(config: Config, clock: Clock) -> Result<World, Error> {
        let first = Numbering {
            ready_order: 1,
            publication: 1,
        };
        World::numbered_from(config, clock, first)
    }

    fn numbered_from(config: Config, clock: Clock, numbering: Numbering) -> Result<World, Error> {
        let mut steered = clock.0.lock().unwrap();
        let manual = runtime_core::Clock::Manual(steered.held);
        let core = Core::numbered_from(World::fresh_id(), config, manual, numbering)?;
        let world = World::own(core);
        steered.world = Some(world.clone());
        Ok(world)
    }

    /// Runs one operation and wakes whoever it concerns once the lock is free.
    fn with<R>(&self, run: impl FnOnce(&mut Core) -> R) -> R {
        let (result, woken) = {
            let mut core = self.0.core.lock().unwrap();
            let result = run(&mut core);
            let mut ids = core.notify_activity();
            ids.extend(core.wake_routing());
            let mut observers = self.0.observers.lock().unwrap();
            let woken: Vec<Waker> = ids.iter().filter_map(|id| observers.remove(id)).collect();
            (result, woken)
        };
        for waker in woken {
            waker.wake();
        }
        result
    }

    fn enroll(&self, cx: &Context) -> u64 {
        let mut enrolled = self.0.enrolled.lock().unwrap();
        *enrolled += 1;
        self.0
            .observers
            .lock()
            .unwrap()
            .insert(*enrolled, cx.waker().clone());
        *enrolled
    }

    fn dismiss(&self, id: u64) -> Option<Waker> {
        self.0.observers.lock().unwrap().remove(&id)
    }

    fn retire(&self, retired: Option<Retired>) {
        if let Some(retired) = retired {
            if let Some(waker) = self.dismiss(retired.observer) {
                if retired.wake {
                    waker.wake();
                }
            }
        }
    }

    fn id(&self) -> u64 {
        self.with(|core| core.id())
    }

    fn config(&self) -> Config {
        self.with(|core| *core.config())
    }

    fn now(&self) -> Instant {
        self.with(|core| core.now())
    }

    fn allocate(&self, kind: EndpointKind, parent: Option<ActorRef>) -> Result<ActorRef, Error> {
        self.with(|core| core.allocate(kind, parent))
    }

    fn activate(&self, actor: ActorRef) -> Result<(), Error> {
        self.with(|core| core.activate(actor))
    }

    fn state(&self, actor: ActorRef) -> Result<Lifecycle, Error> {
        self.with(|core| core.state(actor))
    }

    fn execution_state(&self, actor: ActorRef) -> Result<Lifecycle, Error> {
        self.with(|core| core.execution_state(actor))
    }

    fn stop(&self, actor: ActorRef) -> Result<StopReport, Error> {
        self.with(|core| core.stop(actor))
    }

    fn close(&self) -> StopReport {
        self.with(|core| core.close())
    }

    fn maintain(&self, at: Instant) {
        self.with(|core| core.maintain(at));
    }

    fn request_drain(&self, actor: ActorRef, deadline: Instant) -> Result<StopReport, Error> {
        self.with(|core| core.request_drain(actor, deadline))
    }

    fn drain_all(&self, deadline: Instant) -> StopReport {
        self.with(|core| core.drain_all(deadline))
    }

    fn finish_python(&self, actor: ActorRef) -> Result<(), Error> {
        self.with(|core| core.finish_python(actor))
    }

    fn stop_report(&self, actor: ActorRef) -> Result<StopReport, Error> {
        self.with(|core| core.stop_report(actor))
    }

    fn shutdown_report(&self) -> StopReport {
        self.with(|core| core.shutdown_report())
    }

    fn snapshot(&self) -> WorldSnapshot {
        self.with(|core| core.snapshot())
    }

    fn track_task(&self, owner: ActorRef) -> Result<TaskLease, Error> {
        let lease = self.with(|core| core.track_task(owner))?;
        Ok(TaskLease(Arc::new(TaskGuard {
            world: self.clone(),
            lease: Some(lease),
        })))
    }

    fn send(&self, target: ActorRef, payload: Payload) -> Result<u64, Error> {
        self.with(|core| core.send(target, payload))
    }

    fn send_with(
        &self,
        target: ActorRef,
        payload: Payload,
        options: MessageOptions,
    ) -> Result<u64, Error> {
        self.with(|core| core.send_with(target, payload, options))
    }

    fn send_port(&self, port: PortRef, payload: Payload) -> Result<u64, Error> {
        self.with(|core| core.send_port(port, payload))
    }

    fn send_held(&self, target: ActorRef, held: HeldPayload) -> Result<u64, Error> {
        self.with(|core| core.send_held(target, held.get()))
    }

    fn send_held_from(
        &self,
        owner: ActorRef,
        target: ActorRef,
        held: HeldPayload,
    ) -> Result<u64, Error> {
        self.with(|core| core.send_held_from(owner, target, held.get()))
    }

    fn hold(&self, payload: Payload) -> Result<HeldPayload, Error> {
        Ok(self.keep(self.with(|core| core.hold(payload))?))
    }

    fn hold_with(&self, payload: Payload, options: MessageOptions) -> Result<HeldPayload, Error> {
        Ok(self.keep(self.with(|core| core.hold_with(payload, options))?))
    }

    fn keep(&self, held: runtime_core::HeldPayload) -> HeldPayload {
        HeldPayload {
            world: self.clone(),
            held: Some(held),
        }
    }

    fn claim(&self, target: ActorRef) -> Result<Option<DeliveryLease>, Error> {
        let claimed = self.with(|core| core.claim(target))?;
        Ok(claimed.map(|lease| DeliveryLease {
            world: self.clone(),
            lease: Some(lease),
        }))
    }

    fn request(
        &self,
        owner: ActorRef,
        target: ActorRef,
        payload: Payload,
        deadline: Instant,
    ) -> Result<OperationId, Error> {
        self.with(|core| core.request(owner, target, payload, deadline))
    }

    fn request_with(
        &self,
        owner: ActorRef,
        target: ActorRef,
        payload: Payload,
        deadline: Instant,
        options: MessageOptions,
    ) -> Result<OperationId, Error> {
        self.with(|core| core.request_with(owner, target, payload, deadline, options))
    }

    fn complete_operation(
        &self,
        id: OperationId,
        target: ActorRef,
        payload: Payload,
    ) -> Result<bool, Error> {
        self.with(|core| core.complete_operation(id, target, payload))
    }

    fn cancel_operation(&self, id: OperationId) -> Result<bool, Error> {
        self.with(|core| core.cancel_operation(id))
    }

    fn operation_status(&self, id: OperationId) -> Result<OperationStatus, Error> {
        let outcome = self.with(|core| -> Result<Option<runtime_core::TerminalOutcome>, Error> {
            match core.operation_status(id)? {
                runtime_core::OperationStatus::Pending(_) => return Ok(None),
                runtime_core::OperationStatus::Terminal(outcome) => {
                    if let Some(outcome) = copied(outcome) {
                        return Ok(Some(outcome));
                    }
                }
            }
            match core.share_result(id) {
                Some(held) => Ok(Some(runtime_core::TerminalOutcome::Completed(held))),
                None => Err(Error::LimitExceeded),
            }
        })?;
        Ok(match outcome {
            None => OperationStatus::Pending(()),
            Some(outcome) => OperationStatus::Terminal(self.outcome(outcome)),
        })
    }

    fn take_operation(&self, id: OperationId) -> Result<Option<TerminalOutcome>, Error> {
        let taken = self.with(|core| core.take_operation(id))?;
        Ok(taken.map(|outcome| self.outcome(outcome)))
    }

    fn outcome(&self, outcome: runtime_core::TerminalOutcome) -> TerminalOutcome {
        match outcome {
            runtime_core::TerminalOutcome::Completed(held) => {
                TerminalOutcome::Completed(self.keep(held))
            }
            runtime_core::TerminalOutcome::Failed { code, message } => {
                TerminalOutcome::Failed { code, message }
            }
            runtime_core::TerminalOutcome::TimedOut => TerminalOutcome::TimedOut,
            runtime_core::TerminalOutcome::Cancelled => TerminalOutcome::Cancelled,
            runtime_core::TerminalOutcome::OwnerStopped => TerminalOutcome::OwnerStopped,
            runtime_core::TerminalOutcome::TargetStopped => TerminalOutcome::TargetStopped,
        }
    }

    fn ticket(
        &self,
        issued: Result<runtime_core::PublicationTicket, Error>,
    ) -> Result<PublicationTicket, Error> {
        Ok(PublicationTicket {
            world: self.clone(),
            ticket: Some(issued?),
        })
    }

    fn publish(&self, source: ActorRef, payload: Payload) -> Result<PublicationTicket, Error> {
        self.ticket(self.with(|core| core.publish(source, payload)))
    }

    fn publish_with(
        &self,
        source: ActorRef,
        payload: Payload,
        options: MessageOptions,
    ) -> Result<PublicationTicket, Error> {
        self.ticket(self.with(|core| core.publish_with(source, payload, options)))
    }

    fn publish_port(&self, source: PortRef, payload: Payload) -> Result<PublicationTicket, Error> {
        self.ticket(self.with(|core| core.publish_port(source, payload)))
    }

    fn publish_port_with(
        &self,
        source: PortRef,
        payload: Payload,
        options: MessageOptions,
    ) -> Result<PublicationTicket, Error> {
        self.ticket(self.with(|core| core.publish_port_with(source, payload, options)))
    }

    fn routing_pending(&self) -> usize {
        self.with(|core| core.routing_pending())
    }

    fn routing_ready(&self) -> bool {
        self.with(|core| core.routing_ready())
    }

    fn route_batch(&self) -> RoutingProgress {
        self.with(|core| core.route_batch())
    }

    fn register_component(
        &self,
        owner: ActorRef,
        descriptor: ComponentDescriptor,
    ) -> Result<Vec<PortRef>, Error> {
        self.with(|core| core.register_component(owner, descriptor))
    }

    fn component(&self, owner: ActorRef) -> Result<Option<Arc<ComponentDescriptor>>, Error> {
        self.with(|core| core.component(owner))
    }

    fn port(&self, owner: ActorRef, name: &str) -> Result<PortRef, Error> {
        self.with(|core| core.port(owner, name))
    }

    fn subscribe(&self, source: ActorRef, target: ActorRef) -> Result<u64, Error> {
        self.with(|core| core.subscribe(source, target))
    }

    fn unsubscribe(&self, id: u64) -> Result<(), Error> {
        self.with(|core| core.unsubscribe(id))
    }

    fn link(&self, owner: ActorRef, source: PortRef, target: PortRef) -> Result<u64, Error> {
        self.with(|core| core.link(owner, source, target))
    }

    fn links(&self) -> Vec<LinkSnapshot> {
        self.with(|core| core.links())
    }

    fn upstream_done(&self, target: ActorRef) -> Result<bool, Error> {
        self.with(|core| core.upstream_done(target))
    }

    fn register_service(
        &self,
        name: &str,
        target: ActorRef,
        contract: &InterfaceSpec,
    ) -> Result<(), Error> {
        self.with(|core| core.register_service(name, target, contract))
    }

    fn acquire_service(
        &self,
        owner: ActorRef,
        name: &str,
        required: &InterfaceSpec,
    ) -> Result<ServiceLease, Error> {
        self.with(|core| core.acquire_service(owner, name, required))
    }

    fn acquire_service_from(
        &self,
        owner: ActorRef,
        name: &str,
        required: &InterfaceSpec,
        expected: ActorRef,
    ) -> Result<ServiceLease, Error> {
        self.with(|core| core.acquire_service_from(owner, name, required, expected))
    }

    fn release_service(&self, lease: ServiceLease) -> Result<bool, Error> {
        self.with(|core| core.release_service(lease))
    }

    fn services(&self) -> Vec<ServiceSnapshot> {
        self.with(|core| core.services())
    }

    fn service_leases(&self) -> Vec<ServiceLease> {
        self.with(|core| core.service_leases())
    }

    fn service_request(
        &self,
        lease: ServiceLease,
        port: &str,
        payload: Payload,
        deadline: Instant,
        options: MessageOptions,
    ) -> Result<OperationId, Error> {
        self.with(|core| core.service_request(lease, port, payload, deadline, options))
    }

    fn service_link(
        &self,
        lease: ServiceLease,
        output: &str,
        target: PortRef,
    ) -> Result<u64, Error> {
        self.with(|core| core.service_link(lease, output, target))
    }

    fn report_failure(
        &self,
        actor: ActorRef,
        event_id: Option<u64>,
        schema: Option<u32>,
        operation: Option<OperationId>,
        details: FailureDetails,
        action: FailureAction,
    ) -> Result<Arc<FailureRecord>, Error> {
        self.with(|core| core.report_failure(actor, event_id, schema, operation, details, action))
    }

    fn claim_failure(&self, supervisor: ActorRef) -> Result<Option<FailureLease>, Error> {
        let claimed = self.with(|core| core.claim_failure(supervisor))?;
        Ok(claimed.map(|lease| FailureLease {
            world: self.clone(),
            lease: Some(lease),
        }))
    }

    fn callback(
        &self,
        claimed: Result<Option<runtime_core::NativeCallbackLease>, Error>,
    ) -> Result<Option<NativeCallbackLease>, Error> {
        Ok(claimed?.map(|lease| NativeCallbackLease {
            world: self.clone(),
            lease: Some(lease),
        }))
    }

    fn claim_native_callback(
        &self,
        owner: ActorRef,
        startup: bool,
    ) -> Result<Option<NativeCallbackLease>, Error> {
        self.callback(self.with(|core| core.claim_native_callback(owner, startup)))
    }

    fn claim_native_drain_callback(
        &self,
        owner: ActorRef,
    ) -> Result<Option<NativeCallbackLease>, Error> {
        self.callback(self.with(|core| core.claim_native_drain_callback(owner)))
    }

    fn activity(&self, actor: ActorRef) -> Result<u64, Error> {
        let (version, retired) = self.with(|core| core.activity(actor));
        self.retire(retired);
        version
    }

    fn poll_activity(
        &self,
        actor: ActorRef,
        observed: u64,
        cx: &mut Context,
    ) -> Poll<Result<u64, Error>> {
        let id = self.enroll(cx);
        let (poll, retired) = self.with(|core| core.poll_activity(actor, observed, id));
        self.retire(retired);
        match poll {
            ActivityPoll::Ready(version) => {
                self.dismiss(id);
                Poll::Ready(version)
            }
            ActivityPoll::Pending => Poll::Pending,
        }
    }

    fn poll_routing_ready(&self, cx: &mut Context) -> Poll<Result<(), Error>> {
        let id = self.enroll(cx);
        let (poll, replaced) = self.with(|core| core.poll_routing_ready(id));
        if let Some(replaced) = replaced {
            self.dismiss(replaced);
        }
        match poll {
            RoutingPoll::Ready(ready) => {
                self.dismiss(id);
                Poll::Ready(ready)
            }
            RoutingPoll::Pending => Poll::Pending,
        }
    }

    fn python_ready_cutoff(&self) -> u64 {
        self.with(|core| core.python_ready_cutoff())
    }

    fn python_ready_next(
        &self,
        phase: PythonReadyPhase,
        after: Option<u64>,
        through: u64,
    ) -> Option<(u64, ActorRef)> {
        self.with(|core| core.python_ready_next(phase, after, through))
    }

    fn register_schemas(&self, schemas: Vec<Schema>) -> Result<Vec<u32>, SchemaError> {
        self.with(|core| core.register_schemas(schemas))
    }

    fn structured(&self, id: u32, bytes: &[u8]) -> Result<Payload, SchemaError> {
        self.with(|core| core.structured(id, bytes))
    }

    fn diagnostics(&self, after: u64, limit: usize) -> Result<DiagnosticRead, Error> {
        self.with(|core| core.diagnostics(after, limit))
    }

    fn native_buffer_budget(&self) -> NativeBufferBudget {
        NativeBufferBudget(self.clone())
    }
}

/// A second look at an outcome. A held result is shared instead.
fn copied(outcome: &runtime_core::TerminalOutcome) -> Option<runtime_core::TerminalOutcome> {
    match outcome {
        runtime_core::TerminalOutcome::Completed(_) => None,
        runtime_core::TerminalOutcome::Failed { code, message } => {
            Some(runtime_core::TerminalOutcome::Failed {
                code: *code,
                message: message.clone(),
            })
        }
        runtime_core::TerminalOutcome::TimedOut => Some(runtime_core::TerminalOutcome::TimedOut),
        runtime_core::TerminalOutcome::Cancelled => Some(runtime_core::TerminalOutcome::Cancelled),
        runtime_core::TerminalOutcome::OwnerStopped => Some(runtime_core::TerminalOutcome::OwnerStopped),
        runtime_core::TerminalOutcome::TargetStopped => Some(runtime_core::TerminalOutcome::TargetStopped),
    }
}

struct HeldPayload {
    world: World,
    held: Option<runtime_core::HeldPayload>,
}

impl HeldPayload {
    fn get(&self) -> &runtime_core::HeldPayload {
        self.held.as_ref().unwrap()
    }

    fn payload(&self) -> &Payload {
        self.get().payload()
    }

    fn envelope(&self) -> Option<&Envelope> {
        self.get().envelope()
    }
}

impl Clone for HeldPayload {
    fn clone(&self) -> Self {
        self.world
            .keep(self.world.with(|core| core.share_held(self.get())))
    }
}

impl Drop for HeldPayload {
    fn drop(&mut self) {
        if let Some(held) = self.held.take() {
            self.world.with(|core| core.release_held(held));
        }
    }
}

impl std::fmt::Debug for HeldPayload {
    fn fmt(&self, f: &mut std::fmt::Formatter<'_>) -> std::fmt::Result {
        f.write_str("held")
    }
}

#[derive(Debug)]
enum TerminalOutcome {
    Completed(HeldPayload),
    Failed {
        code: OperationFailure,
        message: String,
    },
    TimedOut,
    Cancelled,
    OwnerStopped,
    TargetStopped,
}

#[derive(Debug)]
enum OperationStatus {
    Pending(()),
    Terminal(TerminalOutcome),
}

struct DeliveryLease {
    world: World,
    lease: Option<runtime_core::DeliveryLease>,
}

impl DeliveryLease {
    fn get(&self) -> &runtime_core::DeliveryLease {
        self.lease.as_ref().unwrap()
    }

    fn payload(&self) -> &Payload {
        self.get().payload()
    }

    fn envelope(&self) -> &Envelope {
        self.get().envelope()
    }

    fn event_id(&self) -> u64 {
        self.get().event_id()
    }

    fn operation(&self) -> Option<OperationId> {
        self.get().operation()
    }

    fn finish(mut self, success: bool) {
        let lease = self.lease.take().unwrap();
        self.world.with(|core| lease.finish(core, success));
    }
}

impl Drop for DeliveryLease {
    fn drop(&mut self) {
        if let Some(lease) = self.lease.take() {
            self.world.with(|core| lease.cancel(core));
        }
    }
}

struct TaskGuard {
    world: World,
    lease: Option<runtime_core::TaskLease>,
}

impl Drop for TaskGuard {
    fn drop(&mut self) {
        if let Some(lease) = self.lease.take() {
            self.world.with(|core| lease.release(core));
        }
    }
}

#[derive(Clone)]
struct TaskLease(Arc<TaskGuard>);

impl TaskLease {
    fn publish_completion(
        &self,
        source: ActorRef,
        payload: Payload,
    ) -> Result<PublicationTicket, Error> {
        let lease = self.0.lease.as_ref().unwrap();
        let world = &self.0.world;
        world.ticket(world.with(|core| lease.publish_completion(core, source, payload)))
    }
}

struct PublicationTicket {
    world: World,
    ticket: Option<runtime_core::PublicationTicket>,
}

impl PublicationTicket {
    fn get(&self) -> &runtime_core::PublicationTicket {
        self.ticket.as_ref().unwrap()
    }

    fn source(&self) -> ActorRef {
        self.get().source()
    }

    fn status(&self) -> PublicationStatus {
        self.world.with(|core| self.get().status(core)).unwrap()
    }

    fn report(&self) -> Option<DeliveryReport> {
        self.world.with(|core| self.get().report(core))
    }
}

impl Clone for PublicationTicket {
    fn clone(&self) -> Self {
        PublicationTicket {
            world: self.world.clone(),
            ticket: Some(self.world.with(|core| core.share_ticket(self.get()))),
        }
    }
}

impl Drop for PublicationTicket {
    fn drop(&mut self) {
        if let Some(ticket) = self.ticket.take() {
            self.world.with(|core| core.release_ticket(ticket));
        }
    }
}

impl PartialEq for PublicationTicket {
    fn eq(&self, other: &Self) -> bool {
        self.get() == other.get()
    }
}

impl std::fmt::Debug for PublicationTicket {
    fn fmt(&self, f: &mut std::fmt::Formatter<'_>) -> std::fmt::Result {
        f.debug_struct("PublicationTicket")
            .field("id", &self.get().id())
            .field("source", &self.source())
            .finish()
    }
}

struct FailureLease {
    world: World,
    lease: Option<runtime_core::FailureLease>,
}

impl FailureLease {
    fn failure(&self) -> &Arc<FailureRecord> {
        self.lease.as_ref().unwrap().failure()
    }

    fn coalesced(&self) -> u64 {
        self.lease.as_ref().unwrap().coalesced()
    }

    fn finish(mut self, action: Option<FailureAction>) -> Result<(), Error> {
        let lease = self.lease.take().unwrap();
        self.world.with(|core| lease.finish(core, action))
    }
}

impl Drop for FailureLease {
    fn drop(&mut self) {
        if let Some(lease) = self.lease.take() {
            self.world.with(|core| lease.cancel(core));
        }
    }
}

struct NativeCallbackLease {
    world: World,
    lease: Option<runtime_core::NativeCallbackLease>,
}

impl Drop for NativeCallbackLease {
    fn drop(&mut self) {
        if let Some(lease) = self.lease.take() {
            self.world.with(|core| lease.release(core));
        }
    }
}

struct NativeBufferBudget(World);

impl NativeBufferBudget {
    fn used(&self) -> usize {
        self.0.with(|core| core.native_buffer_budget().used())
    }

    fn reserve(&self, bytes: usize) -> Result<NativeBufferPermit, Error> {
        let permit = self
            .0
            .with(|core| core.native_buffer_budget().reserve(bytes))?;
        Ok(NativeBufferPermit {
            world: self.0.clone(),
            permit: Some(permit),
        })
    }
}

struct NativeBufferPermit {
    world: World,
    permit: Option<runtime_core::NativeBufferPermit>,
}

impl NativeBufferPermit {
    fn bytes(&self) -> usize {
        self.permit.as_ref().unwrap().bytes()
    }

    fn try_grow(&mut self, additional: usize) -> Result<(), Error> {
        let permit = self.permit.as_mut().unwrap();
        self.world
            .with(|core| permit.try_grow(core.native_buffer_budget(), additional))
    }
}

impl Drop for NativeBufferPermit {
    fn drop(&mut self) {
        if let Some(permit) = self.permit.take() {
            self.world
                .with(|core| core.native_buffer_budget().release(permit));
        }
    }
}

/// Sends a message for each wake.
struct Signal(mpsc::Sender<()>);

impl Wake for Signal {
    fn wake(self: Arc<Self>) {
        let _ = self.0.send(());
    }

    fn wake_by_ref(self: &Arc<Self>) {
        let _ = self.0.send(());
    }
}

/// Routes until nothing is ready and hands out the report of the ticket.
fn route(world: &World, ticket: PublicationTicket) -> DeliveryReport {
    for _ in 0..100_000 {
        if !world.routing_ready() {
            break;
        }
        world.route_batch();
    }
    assert!(
        !world.routing_ready(),
        "routing did not quiesce within test bound"
    );
    ticket.report().expect("publication routed")
}

// Activity.


fn activity_active(world: &World) -> ActorRef {
    let actor = world.allocate(EndpointKind::Native, None).unwrap();
    world.activate(actor).unwrap();
    actor
}

#[test]
fn activity_is_ready_after_activation_and_parent_activation() {
    let world = World::new(Config::default()).unwrap();
    let parent = world.allocate(EndpointKind::Native, None).unwrap();
    let child = world.allocate(EndpointKind::Native, Some(parent)).unwrap();
    let observed = world.activity(child).unwrap();
    let (_tx, rx) = mpsc::channel();
    let waker = Waker::from(Arc::new(Signal(_tx)));
    let mut cx = Context::from_waker(&waker);
    assert!(matches!(
        world.poll_activity(child, observed, &mut cx),
        Poll::Pending
    ));
    world.activate(parent).unwrap();
    assert!(rx.recv_timeout(std::time::Duration::from_secs(1)).is_ok());
    assert!(matches!(
        world.poll_activity(child, observed, &mut cx),
        Poll::Ready(Ok(_))
    ));
}

#[test]
fn activity_wakes_on_admission_and_finish_but_not_maintain() {
    let world = World::new(Config::default()).unwrap();
    let target = activity_active(&world);
    let (tx, rx) = mpsc::channel();
    let waker = Waker::from(Arc::new(Signal(tx)));
    let mut cx = Context::from_waker(&waker);
    let observed = world.activity(target).unwrap();
    assert!(matches!(
        world.poll_activity(target, observed, &mut cx),
        Poll::Pending
    ));
    world.maintain(now());
    assert!(rx.try_recv().is_err());
    world.send(target, Payload::Pulse(1)).unwrap();
    assert!(rx.recv_timeout(std::time::Duration::from_secs(1)).is_ok());
    let observed = world.activity(target).unwrap();
    let delivery = world.claim(target).unwrap().unwrap();
    delivery.finish(true);
    assert!(matches!(
        world.poll_activity(target, observed, &mut cx),
        Poll::Ready(Ok(_))
    ));
}

#[test]
fn stopped_actor_completes_observer_and_stale_reference_errors() {
    let world = World::new(Config::default()).unwrap();
    let actor = activity_active(&world);
    let observed = world.activity(actor).unwrap();
    world.stop(actor).unwrap();
    let waker = Waker::noop();
    let mut cx = Context::from_waker(waker);
    assert!(matches!(
        world.poll_activity(actor, observed, &mut cx),
        Poll::Ready(Ok(_))
    ));
    let stale = ActorRef {
        generation: actor.generation + 1,
        ..actor
    };
    assert_eq!(world.activity(stale), Err(Error::StaleReference));
}

#[test]
fn typed_port_admission_and_drain_all_wake_observer() {
    let world = World::new(Config::default()).unwrap();
    let source = world.allocate(EndpointKind::Native, None).unwrap();
    let target = world.allocate(EndpointKind::Native, None).unwrap();
    let output = world
        .register_component(
            source,
            ComponentDescriptor {
                name: "source".into(),
                version: 1,
                ports: vec![PortSpec {
                    name: "out".into(),
                    direction: PortDirection::Output,
                    schema: PayloadType::Pulse,
                }],
                interfaces: Vec::new(),
            },
        )
        .unwrap()[0];
    let input = world
        .register_component(
            target,
            ComponentDescriptor {
                name: "target".into(),
                version: 1,
                ports: vec![PortSpec {
                    name: "in".into(),
                    direction: PortDirection::Input,
                    schema: PayloadType::Pulse,
                }],
                interfaces: Vec::new(),
            },
        )
        .unwrap()[0];
    world.activate(source).unwrap();
    world.activate(target).unwrap();
    world.link(source, output, input).unwrap();
    let observed = world.activity(target).unwrap();
    let (tx, rx) = mpsc::channel();
    let waker = Waker::from(Arc::new(Signal(tx)));
    let mut cx = Context::from_waker(&waker);
    assert!(matches!(
        world.poll_activity(target, observed, &mut cx),
        Poll::Pending
    ));
    route(
        &world,
        world.publish_port(output, Payload::Pulse(1)).unwrap(),
    );
    assert!(rx.recv_timeout(std::time::Duration::from_secs(1)).is_ok());
    let observed = world.activity(target).unwrap();
    assert!(matches!(
        world.poll_activity(target, observed, &mut cx),
        Poll::Pending
    ));
    world.drain_all(later(now(), Duration::from_secs(1)));
    assert!(rx.recv_timeout(std::time::Duration::from_secs(1)).is_ok());
}

// Activity deadlines.

#[derive(Default)]
struct ActivityDeadlinesSignal(AtomicUsize);

impl Wake for ActivityDeadlinesSignal {
    fn wake(self: Arc<Self>) {
        self.0.fetch_add(1, std::sync::atomic::Ordering::SeqCst);
    }
}

#[test]
fn operation_expiry_wakes_both_endpoints_for_each_expiry_path() {
    for path in ["maintain", "claim", "late-result"] {
        let (clock, control) = Clock::manual_at(now());
        let world = World::with_clock(Config::default(), clock).unwrap();
        let actors: Vec<_> = (0..3)
            .map(|_| {
                let actor = world.allocate(EndpointKind::Native, None).unwrap();
                world.activate(actor).unwrap();
                actor
            })
            .collect();
        let (owner, target, unrelated) = (actors[0], actors[1], actors[2]);
        let operation = world
            .request(
                owner,
                target,
                Payload::Pulse(1),
                later(world.now(), Duration::from_secs(1)),
            )
            .unwrap();
        if path != "claim" {
            world.claim(target).unwrap().unwrap().finish(true);
        }
        let signals: Vec<_> = actors
            .iter()
            .map(|actor| {
                let signal = Arc::new(ActivityDeadlinesSignal::default());
                let version = world.activity(*actor).unwrap();
                let waker = Waker::from(signal.clone());
                assert!(
                    world
                        .poll_activity(*actor, version, &mut Context::from_waker(&waker))
                        .is_pending()
                );
                (signal, version)
            })
            .collect();
        control.advance(Duration::from_secs(1)).unwrap();
        match path {
            "maintain" => world.maintain(world.now()),
            "claim" => assert!(world.claim(target).unwrap().is_none()),
            _ => assert!(
                !world
                    .complete_operation(operation, target, Payload::Pulse(2))
                    .unwrap()
            ),
        }
        assert!(
            matches!(
                world.operation_status(operation),
                Ok(OperationStatus::Terminal(TerminalOutcome::TimedOut))
            ),
            "{path}"
        );
        for (signal, _) in &signals[..2] {
            assert_eq!(signal.0.load(std::sync::atomic::Ordering::SeqCst), 1, "{path}");
        }
        assert_eq!(signals[2].0.0.load(std::sync::atomic::Ordering::SeqCst), 0, "{path}");
        assert_eq!(world.activity(unrelated).unwrap(), signals[2].1, "{path}");
        assert!(world.close().native_done);
    }
}

// Activity failure.


fn activity_failure_active(world: &World) -> ActorRef {
    let actor = world.allocate(EndpointKind::Native, None).unwrap();
    world.activate(actor).unwrap();
    actor
}

fn activity_failure_pending_observer(
    world: &World,
    actor: ActorRef,
) -> (u64, Waker, mpsc::Receiver<()>) {
    let observed = world.activity(actor).unwrap();
    let (tx, rx) = mpsc::channel();
    let waker = Waker::from(Arc::new(Signal(tx)));
    let mut context = Context::from_waker(&waker);
    assert!(matches!(
        world.poll_activity(actor, observed, &mut context),
        Poll::Pending
    ));
    (observed, waker, rx)
}

#[test]
fn failure_terminalizes_external_owner_and_wakes_only_dependencies() {
    let world = World::new(Config::default()).unwrap();
    let owner = activity_failure_active(&world);
    let target = activity_failure_active(&world);
    let unrelated = activity_failure_active(&world);
    let operation = world
        .request(
            owner,
            target,
            Payload::Pulse(1),
            later(now(), Duration::from_secs(10)),
        )
        .unwrap();
    let (observed, owner_waker, owner_ready) = activity_failure_pending_observer(&world, owner);
    let (_, _unrelated_waker, unrelated_ready) = activity_failure_pending_observer(&world, unrelated);
    let details = FailureDetails::new(FailurePhase::Handler, "activity-test", "Failed", vec![]);
    world
        .report_failure(
            target,
            Some(7),
            None,
            Some(operation),
            details,
            FailureAction::Continue,
        )
        .unwrap();

    assert!(owner_ready.recv_timeout(std::time::Duration::from_secs(1)).is_ok());
    assert!(unrelated_ready.try_recv().is_err());
    let mut context = Context::from_waker(&owner_waker);
    assert!(matches!(
        world.poll_activity(owner, observed, &mut context),
        Poll::Ready(Ok(version)) if version != observed
    ));
    assert!(matches!(
        world.operation_status(operation),
        Ok(OperationStatus::Terminal(
            TerminalOutcome::Failed { .. }
        ))
    ));
    assert_eq!(world.state(owner), Ok(Lifecycle::Active));
    assert_eq!(world.state(unrelated), Ok(Lifecycle::Active));
}

#[test]
fn continue_failure_notification_and_native_callback_release_wake_observers() {
    let world = World::new(Config::default()).unwrap();
    let supervisor = activity_failure_active(&world);
    let child = world
        .allocate(EndpointKind::Native, Some(supervisor))
        .unwrap();
    world.activate(child).unwrap();
    let (supervisor_version, supervisor_waker, supervisor_ready) =
        activity_failure_pending_observer(&world, supervisor);
    let details = FailureDetails::new(FailurePhase::Handler, "activity-test", "Failed", vec![]);
    world
        .report_failure(child, None, None, None, details, FailureAction::Continue)
        .unwrap();
    assert!(
        supervisor_ready
            .recv_timeout(std::time::Duration::from_secs(1))
            .is_ok()
    );
    let mut context = Context::from_waker(&supervisor_waker);
    assert!(matches!(
        world.poll_activity(supervisor, supervisor_version, &mut context),
        Poll::Ready(Ok(version)) if version != supervisor_version
    ));
    let failure = world.claim_failure(supervisor).unwrap().unwrap();
    failure.finish(None).unwrap();

    let native = activity_failure_active(&world);
    let (callback_version, callback_waker, callback_ready) = activity_failure_pending_observer(&world, native);
    let callback = world.claim_native_callback(native, false).unwrap().unwrap();
    assert!(callback_ready.recv_timeout(std::time::Duration::from_secs(1)).is_ok());
    let (release_version, release_waker, release_ready) = activity_failure_pending_observer(&world, native);
    drop(callback);
    assert!(release_ready.recv_timeout(std::time::Duration::from_secs(1)).is_ok());
    assert!(matches!(
        world.poll_activity(native, release_version, &mut Context::from_waker(&release_waker)),
        Poll::Ready(Ok(version)) if version != release_version
    ));
    let mut context = Context::from_waker(&callback_waker);
    assert!(matches!(
        world.poll_activity(native, callback_version, &mut context),
        Poll::Ready(Ok(version)) if version != callback_version
    ));

    let (_, _, root_ready) = activity_failure_pending_observer(&world, native);
    world
        .report_failure(
            native,
            None,
            None,
            None,
            FailureDetails::new(FailurePhase::Handler, "root", "Failed", vec![]),
            FailureAction::Continue,
        )
        .unwrap();
    assert!(root_ready.recv_timeout(std::time::Duration::from_secs(1)).is_ok());
}

#[test]
fn failed_operation_rejects_cross_world_reference_without_waking_observer() {
    let world = World::new(Config::default()).unwrap();
    let other = World::new(Config::default()).unwrap();
    let target = activity_failure_active(&world);
    let foreign = activity_failure_active(&other);
    let (observed, waker, ready) = activity_failure_pending_observer(&world, target);
    let details = FailureDetails::new(FailurePhase::Handler, "activity-test", "Failed", vec![]);
    assert_eq!(
        world.report_failure(
            target,
            None,
            None,
            Some(OperationId {
                world: other.id(),
                slot: foreign.slot,
                generation: foreign.generation,
            }),
            details,
            FailureAction::Continue,
        ),
        Err(Error::CrossWorld)
    );
    assert!(ready.try_recv().is_err());
    let mut context = Context::from_waker(&waker);
    assert!(matches!(
        world.poll_activity(target, observed, &mut context),
        Poll::Pending
    ));
}

// Activity targeted.

struct ActivityTargetedSignal(mpsc::SyncSender<()>);

impl Wake for ActivityTargetedSignal {
    fn wake(self: Arc<Self>) {
        let _ = self.0.try_send(());
    }

    fn wake_by_ref(self: &Arc<Self>) {
        let _ = self.0.try_send(());
    }
}

fn activity_targeted_world() -> World {
    World::new(Config {
        mailbox_capacity: 128,
        ..Config::default()
    })
    .unwrap()
}

fn activity_targeted_active(world: &World, kind: EndpointKind) -> ActorRef {
    let actor = world.allocate(kind, None).unwrap();
    world.activate(actor).unwrap();
    actor
}

fn activity_targeted_observe(world: &World, actor: ActorRef) -> (u64, mpsc::Receiver<()>) {
    let observed = world.activity(actor).unwrap();
    let (sender, receiver) = mpsc::sync_channel(8);
    let waker = Waker::from(Arc::new(ActivityTargetedSignal(sender)));
    let mut context = Context::from_waker(&waker);
    assert!(matches!(
        world.poll_activity(actor, observed, &mut context),
        Poll::Pending
    ));
    (observed, receiver)
}

fn activity_targeted_assert_no_wake(receiver: &mpsc::Receiver<()>) {
    assert!(receiver.recv_timeout(std::time::Duration::from_millis(40)).is_err());
}

#[test]
fn unrelated_send_and_stop_do_not_wake_observer() {
    let world = activity_targeted_world();
    let observer = activity_targeted_active(&world, EndpointKind::Native);
    let unrelated = activity_targeted_active(&world, EndpointKind::Native);
    let (_, receiver) = activity_targeted_observe(&world, observer);

    world.send(unrelated, Payload::Pulse(1)).unwrap();
    activity_targeted_assert_no_wake(&receiver);
    world.stop(unrelated).unwrap();
    activity_targeted_assert_no_wake(&receiver);
}

#[test]
fn target_delivery_wakes_target_but_not_unrelated_actor() {
    let world = activity_targeted_world();
    let source = activity_targeted_active(&world, EndpointKind::Native);
    let target = activity_targeted_active(&world, EndpointKind::Native);
    let unrelated = activity_targeted_active(&world, EndpointKind::Native);
    world.subscribe(source, target).unwrap();
    let (_, target_rx) = activity_targeted_observe(&world, target);
    let (_, unrelated_rx) = activity_targeted_observe(&world, unrelated);

    route(&world, world.publish(source, Payload::Pulse(7)).unwrap());
    target_rx.recv_timeout(std::time::Duration::from_millis(250)).unwrap();
    activity_targeted_assert_no_wake(&unrelated_rx);
}

#[test]
fn same_actor_delivery_lease_finish_wakes_after_claim() {
    let world = activity_targeted_world();
    let target = activity_targeted_active(&world, EndpointKind::Native);
    world.send(target, Payload::Pulse(1)).unwrap();
    let lease = world.claim(target).unwrap().unwrap();
    let (_, receiver) = activity_targeted_observe(&world, target);
    lease.finish(true);
    receiver.recv_timeout(std::time::Duration::from_millis(250)).unwrap();
}

#[test]
fn operation_owner_and_target_are_woken_but_unrelated_is_not() {
    let world = activity_targeted_world();
    let owner = activity_targeted_active(&world, EndpointKind::Native);
    let target = activity_targeted_active(&world, EndpointKind::Native);
    let unrelated = activity_targeted_active(&world, EndpointKind::Native);
    let (_, owner_rx) = activity_targeted_observe(&world, owner);
    let (_, target_rx) = activity_targeted_observe(&world, target);
    let (_, unrelated_rx) = activity_targeted_observe(&world, unrelated);

    let operation = world
        .request_with(
            owner,
            target,
            Payload::Pulse(3),
            later(world.now(), Duration::from_secs(1)),
            MessageOptions::default(),
        )
        .unwrap();
    owner_rx.recv_timeout(std::time::Duration::from_millis(250)).unwrap();
    target_rx.recv_timeout(std::time::Duration::from_millis(250)).unwrap();
    activity_targeted_assert_no_wake(&unrelated_rx);

    let lease = world.claim(target).unwrap().unwrap();
    let (_, owner_after_claim) = activity_targeted_observe(&world, owner);
    assert!(
        world
            .complete_operation(operation, target, Payload::Pulse(4))
            .unwrap()
    );
    owner_after_claim
        .recv_timeout(std::time::Duration::from_millis(250))
        .unwrap();
    lease.finish(true);
}

#[test]
fn route_removal_wakes_consumer_and_failure_wakes_parent() {
    let world = activity_targeted_world();
    let producer = activity_targeted_active(&world, EndpointKind::Native);
    let consumer = activity_targeted_active(&world, EndpointKind::Native);
    let route = world.subscribe(producer, consumer).unwrap();
    let (_, consumer_rx) = activity_targeted_observe(&world, consumer);
    world.unsubscribe(route).unwrap();
    consumer_rx
        .recv_timeout(std::time::Duration::from_millis(250))
        .unwrap();

    let parent = activity_targeted_active(&world, EndpointKind::Python);
    let child = world.allocate(EndpointKind::Python, Some(parent)).unwrap();
    world.activate(child).unwrap();
    let (_, parent_rx) = activity_targeted_observe(&world, parent);
    let details = FailureDetails::new(
        FailurePhase::Handler,
        "handler",
        "builtins.ValueError",
        vec![FailureFrame::new("test.py", 1, "handler")],
    );
    world
        .report_failure(child, None, None, None, details, FailureAction::Continue)
        .unwrap();
    parent_rx.recv_timeout(std::time::Duration::from_millis(250)).unwrap();
    assert_eq!(world.state(parent), Ok(Lifecycle::Active));
}

#[test]
fn child_work_wakes_an_observing_ancestor() {
    let world = activity_targeted_world();
    let parent = activity_targeted_active(&world, EndpointKind::Native);
    let child = world.allocate(EndpointKind::Native, Some(parent)).unwrap();
    world.activate(child).unwrap();
    let (_, parent_rx) = activity_targeted_observe(&world, parent);

    world.send(child, Payload::Pulse(9)).unwrap();
    parent_rx.recv_timeout(std::time::Duration::from_millis(250)).unwrap();
}

#[test]
fn finishing_a_draining_producer_task_wakes_the_consumer() {
    let world = activity_targeted_world();
    let producer = activity_targeted_active(&world, EndpointKind::Native);
    let consumer = activity_targeted_active(&world, EndpointKind::Native);
    world.subscribe(producer, consumer).unwrap();
    let producer_task = world.track_task(producer).unwrap();
    let consumer_task = world.track_task(consumer).unwrap();
    world
        .request_drain(producer, later(world.now(), Duration::from_secs(1)))
        .unwrap();
    world
        .request_drain(consumer, later(world.now(), Duration::from_secs(1)))
        .unwrap();
    let (_, consumer_rx) = activity_targeted_observe(&world, consumer);
    drop(producer_task);
    // The dependency transition is committed before the task lease is dropped.
    consumer_rx
        .recv_timeout(std::time::Duration::from_millis(250))
        .unwrap();
    drop(consumer_task);
}

#[test]
fn stopping_operation_target_wakes_external_owner() {
    let world = activity_targeted_world();
    let owner = activity_targeted_active(&world, EndpointKind::Native);
    let target = activity_targeted_active(&world, EndpointKind::Native);
    let operation = world
        .request(
            owner,
            target,
            Payload::Pulse(1),
            later(world.now(), Duration::from_secs(1)),
        )
        .unwrap();
    let (_, owner_rx) = activity_targeted_observe(&world, owner);
    world.stop(target).unwrap();
    owner_rx.recv_timeout(std::time::Duration::from_millis(250)).unwrap();
    assert!(matches!(
        world.operation_status(operation),
        Ok(OperationStatus::Terminal(
            TerminalOutcome::TargetStopped
        ))
    ));
}

#[test]
fn stopping_operation_owner_wakes_target() {
    let world = activity_targeted_world();
    let owner = activity_targeted_active(&world, EndpointKind::Native);
    let target = activity_targeted_active(&world, EndpointKind::Native);
    let operation = world
        .request(
            owner,
            target,
            Payload::Pulse(1),
            later(world.now(), Duration::from_secs(1)),
        )
        .unwrap();
    let (_, target_rx) = activity_targeted_observe(&world, target);
    let owner_task = world.track_task(owner).unwrap();
    world.stop(owner).unwrap();
    target_rx.recv_timeout(std::time::Duration::from_millis(250)).unwrap();
    assert!(matches!(
        world.operation_status(operation),
        Ok(OperationStatus::Terminal(
            TerminalOutcome::OwnerStopped
        ))
    ));
    drop(owner_task);
}

// Buffers.

#[test]
fn buffer_reservation_shares_world_payload_budget() {
    let config = Config {
        native_payload_budget: 15,
        ..Config::default()
    };
    let world = World::new(config).unwrap();
    let budget = world.native_buffer_budget();
    let permit = budget.reserve(8).unwrap();
    assert_eq!(budget.used(), 8);
    assert!(matches!(
        world.hold(Payload::Pulse(1)),
        Err(Error::BudgetExceeded)
    ));
    drop(permit);
    let held = world.hold(Payload::Pulse(1)).unwrap();
    assert_eq!(budget.used(), 8);
    assert!(matches!(budget.reserve(8), Err(Error::BudgetExceeded)));
    drop(held);
    assert_eq!(budget.used(), 0);
}

#[test]
fn growth_failure_is_atomic_and_drop_releases_exact_bytes() {
    let config = Config {
        native_payload_budget: 10,
        ..Config::default()
    };
    let world = World::new(config).unwrap();
    let budget = world.native_buffer_budget();
    let mut permit = budget.reserve(6).unwrap();
    assert!(matches!(permit.try_grow(5), Err(Error::BudgetExceeded)));
    assert_eq!(permit.bytes(), 6);
    assert_eq!(budget.used(), 6);
    permit.try_grow(4).unwrap();
    assert_eq!(permit.bytes(), 10);
    drop(permit);
    assert_eq!(budget.used(), 0);
}

// Clock.

fn clock_active(world: &World) -> ActorRef {
    let actor = world.allocate(EndpointKind::Native, None).unwrap();
    world.activate(actor).unwrap();
    actor
}

#[test]
fn virtual_clock_overflow_does_not_mutate_time() {
    let initial = now();
    let (clock, virtual_clock) = Clock::manual_at(initial);
    let before = virtual_clock.current();
    assert_eq!(
        virtual_clock.advance(Duration::from_nanos(std::time::Duration::MAX.as_nanos())),
        Err(Error::LimitExceeded)
    );
    assert_eq!(virtual_clock.current(), before);
    let world = World::with_clock(Config::default(), clock).unwrap();
    assert_eq!(world.now(), before);
}

#[test]
fn exact_manual_deadline_applies_to_admission_claim_and_completion() {
    let initial = now();
    let (clock, virtual_clock) = Clock::manual_at(initial);
    let world = World::with_clock(Config::default(), clock).unwrap();
    let target = clock_active(&world);
    let deadline = later(initial, Duration::from_secs(1));
    world
        .send_with(
            target,
            Payload::Pulse(1),
            MessageOptions {
                deadline: Some(deadline),
                ..Default::default()
            },
        )
        .unwrap();
    virtual_clock.advance(Duration::from_secs(1)).unwrap();
    assert_eq!(
        world.send_with(
            target,
            Payload::Pulse(9),
            MessageOptions {
                deadline: Some(deadline),
                ..Default::default()
            },
        ),
        Err(Error::DeadlineExpired)
    );
    assert!(world.claim(target).unwrap().is_none());
    assert_eq!(world.snapshot().metrics.expired, 1);

    let owner = clock_active(&world);
    let request = world
        .request(
            owner,
            target,
            Payload::Pulse(2),
            later(deadline, Duration::from_secs(1)),
        )
        .unwrap();
    virtual_clock.advance(Duration::from_secs(1)).unwrap();
    assert!(
        !world
            .complete_operation(request, target, Payload::Pulse(3))
            .unwrap()
    );
}

#[test]
fn staged_deadline_and_diagnostic_use_same_clock_epoch() {
    let initial = now();
    let (clock, virtual_clock) = Clock::manual_at(initial);
    let world = World::with_clock(Config::default(), clock).unwrap();
    let parent = world.allocate(EndpointKind::Native, None).unwrap();
    let source = world.allocate(EndpointKind::Native, Some(parent)).unwrap();
    let port = world
        .register_component(
            source,
            ComponentDescriptor {
                name: "source".into(),
                version: 1,
                ports: vec![PortSpec {
                    name: "out".into(),
                    direction: PortDirection::Output,
                    schema: PayloadType::Pulse,
                }],
                interfaces: Vec::new(),
            },
        )
        .unwrap()[0];
    let deadline = later(initial, Duration::from_secs(3));
    world
        .publish_port_with(
            port,
            Payload::Pulse(1),
            MessageOptions {
                deadline: Some(deadline),
                ..Default::default()
            },
        )
        .unwrap();
    virtual_clock.advance(Duration::from_secs(3)).unwrap();
    world.maintain(world.now());
    assert_eq!(world.snapshot().retained_payload_bytes, 0);
    let diagnostics = world.diagnostics(0, 16).unwrap();
    assert!(diagnostics.entries.iter().any(|entry| entry.code
        == DiagnosticCode::DeadlineExpired
        && entry.elapsed_ns == 3_000_000_000));
}

#[test]
fn held_expiry_and_failure_timestamp_use_virtual_epoch() {
    let initial = now();
    let (clock, virtual_clock) = Clock::manual_at(initial);
    let world = World::with_clock(Config::default(), clock).unwrap();
    let target = clock_active(&world);
    let held = world
        .hold_with(
            Payload::Pulse(1),
            MessageOptions {
                deadline: Some(later(initial, Duration::from_secs(2))),
                ..Default::default()
            },
        )
        .unwrap();
    virtual_clock.advance(Duration::from_secs(2)).unwrap();
    assert_eq!(world.send_held(target, held), Err(Error::DeadlineExpired));
    assert_eq!(world.snapshot().retained_payload_bytes, 0);
    virtual_clock.advance(Duration::from_secs(5)).unwrap();
    let details = FailureDetails::new(
        FailurePhase::Handler,
        "h",
        "E",
        Vec::new(),
    );
    world
        .report_failure(
            target,
            None,
            None,
            None,
            details,
            FailureAction::Continue,
        )
        .unwrap();
    let diagnostics = world.diagnostics(0, 16).unwrap();
    assert!(diagnostics.entries.iter().any(|entry| {
        entry
            .failure
            .as_ref()
            .is_some_and(|failure| failure.elapsed_ns == 7_000_000_000)
    }));
}

// Component startup.

fn component_startup_spec(name: &str, direction: PortDirection, schema: PayloadType) -> PortSpec {
    PortSpec {
        name: name.into(),
        direction,
        schema,
    }
}

fn component_startup_descriptor(name: &str, ports: Vec<PortSpec>) -> ComponentDescriptor {
    ComponentDescriptor {
        name: name.into(),
        version: 1,
        ports,
        interfaces: Vec::<InterfaceSpec>::new(),
    }
}

#[test]
fn typed_publish_stages_while_effectively_starting_and_flushes_fifo_on_root_activation() {
    let world = World::new(Config::default()).expect("world");
    let parent = world.allocate(EndpointKind::Native, None).expect("parent");
    let source = world
        .allocate(EndpointKind::Native, Some(parent))
        .expect("source");
    let target = world.allocate(EndpointKind::Native, None).expect("target");
    let output = world
        .register_component(
            source,
            component_startup_descriptor(
                "source",
                vec![component_startup_spec("out", PortDirection::Output, PayloadType::Pulse)],
            ),
        )
        .expect("source component")[0];
    let input = world
        .register_component(
            target,
            component_startup_descriptor(
                "target",
                vec![component_startup_spec("in", PortDirection::Input, PayloadType::Pulse)],
            ),
        )
        .expect("target component")[0];
    world.activate(target).expect("target active");
    world.link(source, output, input).expect("link");

    let first = world
        .publish_port(output, Payload::Pulse(1))
        .expect("first staged publish");
    let second = world
        .publish_port(output, Payload::Pulse(2))
        .expect("second staged publish");
    assert!(matches!(
        first.status(),
        PublicationStatus::Staged
    ));
    assert!(matches!(
        second.status(),
        PublicationStatus::Staged
    ));
    assert_eq!(world.state(source), Ok(Lifecycle::Starting));
    world.activate(source).expect("source activation");
    assert_eq!(world.state(source), Ok(Lifecycle::Active));
    assert_eq!(world.execution_state(source), Ok(Lifecycle::Starting));
    assert!(world.claim(target).unwrap().is_none());
    world.activate(parent).expect("root activation");
    let first_report = route(&world, first);
    let second_report = route(&world, second);
    assert_eq!(first_report.staged, 1);
    assert_eq!(second_report.staged, 1);
    let a = world
        .claim(target)
        .expect("first claim")
        .expect("first delivery");
    assert_eq!(a.payload(), &Payload::Pulse(1));
    a.finish(true);
    let b = world
        .claim(target)
        .expect("second claim")
        .expect("second delivery");
    assert_eq!(b.payload(), &Payload::Pulse(2));
}

#[test]
fn staging_respects_mailbox_cap_and_cancellation_releases_bytes() {
    let config = Config {
        mailbox_capacity: 1,
        ..Default::default()
    };
    let world = World::new(config).expect("world");
    let parent = world.allocate(EndpointKind::Native, None).expect("parent");
    let source = world
        .allocate(EndpointKind::Native, Some(parent))
        .expect("source");
    let target = world.allocate(EndpointKind::Native, None).expect("target");
    let output = world
        .register_component(
            source,
            component_startup_descriptor(
                "source",
                vec![component_startup_spec("out", PortDirection::Output, PayloadType::Pulse)],
            ),
        )
        .expect("source component")[0];
    let input = world
        .register_component(
            target,
            component_startup_descriptor(
                "target",
                vec![component_startup_spec("in", PortDirection::Input, PayloadType::Pulse)],
            ),
        )
        .expect("target component")[0];
    world.activate(target).expect("target active");
    world.link(source, output, input).expect("link");
    world
        .publish_port(output, Payload::Pulse(1))
        .expect("first stage");
    assert_eq!(
        world.publish_port(output, Payload::Pulse(2)),
        Err(Error::QueueFull)
    );
    assert_eq!(world.snapshot().retained_payload_bytes, 8);
    world.stop(parent).expect("cancel parent");
    assert_eq!(world.snapshot().retained_payload_bytes, 0);
    assert_eq!(world.snapshot().metrics.discarded, 1);
}

#[test]
fn stale_and_cross_world_sources_fail_before_staging() {
    let world = World::new(Config::default()).expect("world");
    let source = world.allocate(EndpointKind::Native, None).expect("source");
    let output = world
        .register_component(
            source,
            component_startup_descriptor(
                "source",
                vec![component_startup_spec("out", PortDirection::Output, PayloadType::Pulse)],
            ),
        )
        .expect("component")[0];
    world.stop(source).expect("stop source");
    let replacement = world
        .allocate(EndpointKind::Native, None)
        .expect("replacement");
    assert_ne!(replacement.generation, source.generation);
    assert_eq!(
        world.publish_port(output, Payload::Pulse(1)),
        Err(Error::StaleReference)
    );
    let other = World::new(Config::default()).expect("other world");
    assert_eq!(
        other.publish_port(output, Payload::Pulse(1)),
        Err(Error::CrossWorld)
    );
}

#[test]
fn direct_send_respects_typed_input_and_metadata_is_stable() {
    let world = World::new(Config::default()).expect("world");
    let target = world.allocate(EndpointKind::Native, None).expect("target");
    world
        .register_component(
            target,
            component_startup_descriptor(
                "target",
                vec![component_startup_spec("in", PortDirection::Input, PayloadType::CountSnapshot)],
            ),
        )
        .expect("component");
    let metadata = world
        .component(target)
        .expect("metadata")
        .expect("component metadata");
    assert_eq!(metadata.name, "target");
    assert_eq!(metadata.version, 1);
    world.activate(target).expect("target active");
    assert_eq!(
        world.send(target, Payload::Pulse(1)),
        Err(Error::SchemaMismatch)
    );
    assert!(
        world
            .send(target, Payload::CountSnapshot { count: 1, total: 1 })
            .is_ok()
    );
}

// Components.

fn components_component(
    name: &str,
    ports: Vec<PortSpec>,
    interfaces: Vec<InterfaceSpec>,
) -> ComponentDescriptor {
    ComponentDescriptor {
        name: name.into(),
        version: 1,
        ports,
        interfaces,
    }
}

fn components_port(name: &str, direction: PortDirection, schema: PayloadType) -> PortSpec {
    PortSpec {
        name: name.into(),
        direction,
        schema,
    }
}

#[test]
fn link_rejects_incompatible_direction_and_schema() {
    let world = World::new(Config::default()).expect("world");
    let source = world.allocate(EndpointKind::Native, None).expect("source");
    let target = world.allocate(EndpointKind::Native, None).expect("target");
    let outputs = world
        .register_component(
            source,
            components_component(
                "source",
                vec![components_port("out", PortDirection::Output, PayloadType::Pulse)],
                vec![],
            ),
        )
        .expect("source component");
    let inputs = world
        .register_component(
            target,
            components_component(
                "target",
                vec![components_port("in", PortDirection::Input, PayloadType::CountSnapshot)],
                vec![],
            ),
        )
        .expect("target component");
    world.activate(source).expect("source activation");
    world.activate(target).expect("target activation");
    assert_eq!(
        world.link(source, inputs[0], outputs[0]),
        Err(Error::InvalidPort)
    );
    assert_eq!(
        world.link(source, outputs[0], inputs[0]),
        Err(Error::SchemaMismatch)
    );
}

#[test]
fn interface_identity_collision_does_not_partially_register_component() {
    let world = World::new(Config::default()).expect("world");
    let first = world.allocate(EndpointKind::Native, None).expect("first");
    let second = world.allocate(EndpointKind::Native, None).expect("second");
    let first_ports = vec![components_port("in", PortDirection::Input, PayloadType::Pulse)];
    let first_interface = InterfaceSpec {
        name: "monitor.Input".into(),
        version: 1,
        ports: first_ports.clone(),
    };
    world
        .register_component(
            first,
            components_component("first", first_ports, vec![first_interface]),
        )
        .expect("first registration");
    let conflicting_ports = vec![components_port("in", PortDirection::Input, PayloadType::CountSnapshot)];
    let conflicting_interface = InterfaceSpec {
        name: "monitor.Input".into(),
        version: 1,
        ports: conflicting_ports.clone(),
    };
    assert_eq!(
        world.register_component(
            second,
            components_component("second", conflicting_ports, vec![conflicting_interface])
        ),
        Err(Error::InterfaceMismatch)
    );
    assert!(world.component(second).expect("component lookup").is_none());
}

#[test]
fn source_port_selection_routes_only_matching_links() {
    let world = World::new(Config::default()).expect("world");
    let source = world.allocate(EndpointKind::Native, None).expect("source");
    let pulse_target = world
        .allocate(EndpointKind::Native, None)
        .expect("pulse target");
    let count_target = world
        .allocate(EndpointKind::Native, None)
        .expect("count target");
    let source_ports = world
        .register_component(
            source,
            components_component(
                "source",
                vec![
                    components_port("pulse", PortDirection::Output, PayloadType::Pulse),
                    components_port("count", PortDirection::Output, PayloadType::CountSnapshot),
                ],
                vec![],
            ),
        )
        .expect("source component");
    let pulse_input = world
        .register_component(
            pulse_target,
            components_component(
                "pulse",
                vec![components_port("in", PortDirection::Input, PayloadType::Pulse)],
                vec![],
            ),
        )
        .expect("pulse component")[0];
    let count_input = world
        .register_component(
            count_target,
            components_component(
                "count",
                vec![components_port("in", PortDirection::Input, PayloadType::CountSnapshot)],
                vec![],
            ),
        )
        .expect("count component")[0];
    for reference in [source, pulse_target, count_target] {
        world.activate(reference).expect("activation");
    }
    world
        .link(source, source_ports[0], pulse_input)
        .expect("pulse link");
    world
        .link(source, source_ports[1], count_input)
        .expect("count link");
    let pulse_report = route(
        &world,
        world
            .publish_port(source_ports[0], Payload::Pulse(4))
            .expect("pulse publish"),
    );
    assert_eq!(pulse_report.admitted, 1);
    assert_eq!(pulse_report.rejected, 0);
    assert!(world.claim(pulse_target).expect("pulse claim").is_some());
    assert!(world.claim(count_target).expect("count claim").is_none());
}

#[test]
fn owner_stop_invalidates_queued_claim_and_cross_world_or_stale_ports_fail() {
    let world = World::new(Config::default()).expect("world");
    let source = world.allocate(EndpointKind::Native, None).expect("source");
    let target = world.allocate(EndpointKind::Native, None).expect("target");
    let output = world
        .register_component(
            source,
            components_component(
                "source",
                vec![components_port("out", PortDirection::Output, PayloadType::Pulse)],
                vec![],
            ),
        )
        .expect("source component")[0];
    let input = world
        .register_component(
            target,
            components_component(
                "target",
                vec![components_port("in", PortDirection::Input, PayloadType::Pulse)],
                vec![],
            ),
        )
        .expect("target component")[0];
    world.activate(source).expect("source activation");
    world.activate(target).expect("target activation");
    world.link(source, output, input).expect("link");
    route(
        &world,
        world
            .publish_port(output, Payload::Pulse(1))
            .expect("publish"),
    );
    world.stop(source).expect("owner stop");
    assert!(
        world
            .claim(target)
            .expect("claim after owner stop")
            .is_none()
    );

    let other = World::new(Config::default()).expect("other world");
    assert_eq!(
        other.publish_port(output, Payload::Pulse(2)),
        Err(Error::CrossWorld)
    );
    let replacement = world
        .allocate(EndpointKind::Native, None)
        .expect("replacement");
    assert_ne!(replacement.generation, source.generation);
    assert_eq!(
        world.publish_port(output, Payload::Pulse(3)),
        Err(Error::StaleReference)
    );
}

#[test]
fn saturated_fanout_rejects_one_target_without_stalling_healthy_target() {
    let config = Config {
        mailbox_capacity: 1,
        ..Default::default()
    };
    let world = World::new(config).expect("world");
    let source = world.allocate(EndpointKind::Native, None).expect("source");
    let full = world
        .allocate(EndpointKind::Native, None)
        .expect("full target");
    let healthy = world
        .allocate(EndpointKind::Native, None)
        .expect("healthy target");
    let output = world
        .register_component(
            source,
            components_component(
                "source",
                vec![components_port("out", PortDirection::Output, PayloadType::Pulse)],
                vec![],
            ),
        )
        .expect("source component")[0];
    let full_input = world
        .register_component(
            full,
            components_component(
                "full",
                vec![components_port("in", PortDirection::Input, PayloadType::Pulse)],
                vec![],
            ),
        )
        .expect("full component")[0];
    let healthy_input = world
        .register_component(
            healthy,
            components_component(
                "healthy",
                vec![components_port("in", PortDirection::Input, PayloadType::Pulse)],
                vec![],
            ),
        )
        .expect("healthy component")[0];
    for reference in [source, full, healthy] {
        world.activate(reference).expect("activation");
    }
    world.link(source, output, full_input).expect("full link");
    world
        .link(source, output, healthy_input)
        .expect("healthy link");
    world
        .send_port(full_input, Payload::Pulse(0))
        .expect("fill full target");
    let report = route(
        &world,
        world
            .publish_port(output, Payload::Pulse(1))
            .expect("fanout"),
    );
    assert_eq!(report.admitted, 1);
    assert_eq!(report.rejected, 1);
    assert!(world.claim(healthy).expect("healthy claim").is_some());
}

// Determinism.

fn determinism_active(world: &World) -> ActorRef {
    let actor = world.allocate(EndpointKind::Native, None).unwrap();
    world.activate(actor).unwrap();
    actor
}

#[test]
fn subscription_registration_order_controls_deterministic_fanout() {
    let world = World::new(Config::default()).unwrap();
    let source = determinism_active(&world);
    let first = determinism_active(&world);
    let second = determinism_active(&world);
    let third = determinism_active(&world);
    let a = world.subscribe(source, first).unwrap();
    let b = world.subscribe(source, second).unwrap();
    let c = world.subscribe(source, third).unwrap();
    assert!(a < b && b < c);
    for value in 0..32 {
        route(
            &world,
            world.publish(source, Payload::Pulse(value)).unwrap(),
        );
        let first_event = world.claim(first).unwrap().unwrap().event_id();
        let second_event = world.claim(second).unwrap().unwrap().event_id();
        let third_event = world.claim(third).unwrap().unwrap().event_id();
        assert!(first_event < second_event && second_event < third_event);
    }
}

// Diagnostic.

fn diagnostic_active(w: &World) -> ActorRef {
    let r = w.allocate(EndpointKind::Native, None).unwrap();
    w.activate(r).unwrap();
    r
}

#[test]
fn diagnostics_are_bounded_sequenced_and_report_gaps() {
    let w = World::new(Config {
        mailbox_capacity: 1,
        diagnostic_capacity: 2,
        ..Default::default()
    })
    .unwrap();
    let a = diagnostic_active(&w);
    w.send(a, Payload::Pulse(1)).unwrap();
    assert_eq!(w.send(a, Payload::Pulse(2)), Err(Error::QueueFull));
    assert_eq!(w.send(a, Payload::Pulse(3)), Err(Error::QueueFull));
    assert_eq!(w.send(a, Payload::Pulse(4)), Err(Error::QueueFull));
    assert!(matches!(w.diagnostics(0, 3), Err(Error::LimitExceeded)));
    let read = w.diagnostics(0, 2).unwrap();
    assert_eq!(read.entries.len(), 2);
    assert!(read.gap.is_some());
    assert!(
        read.entries
            .windows(2)
            .all(|pair| pair[0].sequence < pair[1].sequence)
    );
    assert_eq!(read.dropped, 1);
}

#[test]
fn diagnostics_capture_operation_timeout_and_late_reply() {
    let w = World::new(Config {
        diagnostic_capacity: 8,
        ..Default::default()
    })
    .unwrap();
    let owner = diagnostic_active(&w);
    let target = diagnostic_active(&w);
    let id = w
        .request(
            owner,
            target,
            Payload::Pulse(1),
            later(now(), Duration::from_secs(1)),
        )
        .unwrap();
    w.maintain(later(now(), Duration::from_secs(2)));
    assert!(!w.complete_operation(id, target, Payload::Pulse(2)).unwrap());
    let read = w.diagnostics(0, 8).unwrap();
    assert!(
        read.entries
            .iter()
            .any(|e| e.code == DiagnosticCode::OperationTimedOut)
    );
    assert!(
        read.entries
            .iter()
            .any(|e| e.code == DiagnosticCode::OperationLateResult)
    );
}

#[test]
fn diagnostics_capture_handler_failure_without_payload_text() {
    let w = World::new(Config {
        diagnostic_capacity: 8,
        ..Default::default()
    })
    .unwrap();
    let owner = diagnostic_active(&w);
    let target = diagnostic_active(&w);
    let id = w
        .request(
            owner,
            target,
            Payload::Pulse(1),
            later(now(), Duration::from_secs(1)),
        )
        .unwrap();
    let lease = w.claim(target).unwrap().unwrap();
    assert_eq!(lease.operation(), Some(id));
    lease.finish(false);
    let read = w.diagnostics(0, 8).unwrap();
    assert!(
        read.entries
            .iter()
            .any(|e| e.code == DiagnosticCode::HandlerFailed)
    );
    assert!(
        read.entries
            .iter()
            .all(|e| e.actor.is_some() || e.operation.is_some())
    );
}

// Drain.

fn drain_world() -> World {
    World::new(Config {
        mailbox_capacity: 8,
        mailbox_bytes: 256,
        native_payload_budget: 1024,
        ..Default::default()
    })
    .unwrap()
}

fn drain_active(world: &World, kind: EndpointKind) -> ActorRef {
    let reference = world.allocate(kind, None).unwrap();
    world.activate(reference).unwrap();
    reference
}

#[test]
fn drain_claims_admitted_fifo_and_rejects_new_work() {
    let world = drain_world();
    let target = drain_active(&world, EndpointKind::Native);
    world.send(target, Payload::Pulse(1)).unwrap();
    world.send(target, Payload::Pulse(2)).unwrap();
    let deadline = later(now(), Duration::from_secs(60));
    world.request_drain(target, deadline).unwrap();
    assert_eq!(world.state(target), Ok(Lifecycle::Quiescing));
    assert_eq!(
        world.send(target, Payload::Pulse(3)),
        Err(Error::ActorStopped)
    );
    let first = world.claim(target).unwrap().unwrap();
    assert_eq!(first.payload(), &Payload::Pulse(1));
    first.finish(true);
    let second = world.claim(target).unwrap().unwrap();
    assert_eq!(second.payload(), &Payload::Pulse(2));
    second.finish(true);
    world.maintain(deadline);
    assert_eq!(world.state(target), Ok(Lifecycle::Stopped));
}

#[test]
fn drain_rejects_new_subscriptions_tasks_and_children() {
    let world = drain_world();
    let source = drain_active(&world, EndpointKind::Native);
    let target = drain_active(&world, EndpointKind::Native);
    world
        .request_drain(source, later(now(), Duration::from_secs(60)))
        .unwrap();
    assert_eq!(world.subscribe(source, target), Err(Error::ActorStopped));
    assert!(matches!(world.track_task(source), Err(Error::ActorStopped)));
    assert_eq!(
        world.allocate(EndpointKind::Native, Some(source)),
        Err(Error::ActorStopped)
    );
}

#[test]
fn tracked_completion_is_allowed_during_drain_but_cancel_fences_it() {
    let world = drain_world();
    let source = drain_active(&world, EndpointKind::Native);
    let target = drain_active(&world, EndpointKind::Native);
    world.subscribe(source, target).unwrap();
    let task = world.track_task(source).unwrap();
    world
        .request_drain(source, later(now(), Duration::from_secs(60)))
        .unwrap();
    assert_eq!(
        route(
            &world,
            task.publish_completion(source, Payload::Pulse(7)).unwrap(),
        )
        .admitted,
        1
    );
    world.stop(source).unwrap();
    assert!(matches!(
        task.publish_completion(source, Payload::Pulse(8)),
        Err(Error::ActorNotReady | Error::ActorStopped)
    ));
    drop(task);
}

#[test]
fn unsubscribe_invalidates_queued_delivery_during_drain() {
    let world = drain_world();
    let source = drain_active(&world, EndpointKind::Native);
    let target = drain_active(&world, EndpointKind::Native);
    let subscription = world.subscribe(source, target).unwrap();
    route(&world, world.publish(source, Payload::Pulse(1)).unwrap());
    world
        .request_drain(target, later(now(), Duration::from_secs(60)))
        .unwrap();
    world.unsubscribe(subscription).unwrap();
    assert!(world.claim(target).unwrap().is_none());
    world.maintain(later(now(), Duration::from_secs(60)));
    assert_eq!(world.state(target), Ok(Lifecycle::Stopped));
}

#[test]
fn deadline_cancels_unclaimed_but_claimed_work_remains_inflight() {
    let world = drain_world();
    let target = drain_active(&world, EndpointKind::Native);
    world.send(target, Payload::Pulse(1)).unwrap();
    world.send(target, Payload::Pulse(2)).unwrap();
    let deadline = later(now(), Duration::from_secs(10));
    world.request_drain(target, deadline).unwrap();
    let lease = world.claim(target).unwrap().unwrap();
    world.maintain(deadline);
    assert_eq!(world.state(target), Ok(Lifecycle::Stopping));
    assert_eq!(
        world
            .snapshot()
            .actors
            .iter()
            .find(|a| a.reference == target)
            .unwrap()
            .queue_entries,
        0
    );
    lease.finish(true);
    assert_eq!(world.state(target), Ok(Lifecycle::Stopped));
}

#[test]
fn repeated_drain_uses_earliest_shared_deadline() {
    let world = drain_world();
    let target = drain_active(&world, EndpointKind::Native);
    world.send(target, Payload::Pulse(1)).unwrap();
    let first = later(now(), Duration::from_secs(10));
    let second = later(first, Duration::from_secs(100));
    world.request_drain(target, first).unwrap();
    world.request_drain(target, second).unwrap();
    let snapshot = world.snapshot();
    assert_eq!(
        snapshot
            .actors
            .iter()
            .find(|a| a.reference == target)
            .unwrap()
            .drain_deadline,
        Some(first)
    );
}

#[test]
fn empty_drain_past_deadline_is_not_marked_timeout() {
    let world = drain_world();
    let target = drain_active(&world, EndpointKind::Native);
    let report = world
        .request_drain(target, sooner(now(), Duration::from_secs(1)))
        .unwrap();
    assert!(!report.timed_out);
    assert_eq!(world.state(target), Ok(Lifecycle::Stopped));
}

#[test]
fn drain_timeout_remains_sticky_in_stop_report() {
    let world = drain_world();
    let target = drain_active(&world, EndpointKind::Native);
    world.send(target, Payload::Pulse(1)).unwrap();
    let deadline = later(now(), Duration::from_secs(1));
    world.request_drain(target, deadline).unwrap();
    world.maintain(deadline);
    let report = world.stop(target).unwrap();
    assert!(report.timed_out);
}

#[test]
fn parent_child_drain_waits_for_native_task_before_reuse() {
    let world = World::new(Config {
        max_actors: 2,
        ..Default::default()
    })
    .unwrap();
    let parent = drain_active(&world, EndpointKind::Native);
    let child = world.allocate(EndpointKind::Native, Some(parent)).unwrap();
    world.activate(child).unwrap();
    let task = world.track_task(child).unwrap();
    let deadline = later(now(), Duration::from_secs(1));
    world.request_drain(parent, deadline).unwrap();
    world.maintain(deadline);
    assert_eq!(world.state(parent), Ok(Lifecycle::Stopping));
    assert_eq!(world.state(child), Ok(Lifecycle::Stopping));
    assert_eq!(
        world.allocate(EndpointKind::Native, None),
        Err(Error::LimitExceeded)
    );
    drop(task);
    assert_eq!(world.state(parent), Ok(Lifecycle::Stopped));
    let replacement = world.allocate(EndpointKind::Native, None).unwrap();
    assert_ne!(replacement.generation, parent.generation);
}

// Envelopes.

fn envelopes_active(world: &World) -> ActorRef {
    let actor = world
        .allocate(EndpointKind::Native, None)
        .expect("allocation");
    world.activate(actor).expect("activation");
    actor
}

fn envelopes_trace() -> TraceContext {
    TraceContext::new(
        [1; 16],
        [2; 8],
        true,
        vec![("tenant".into(), "test".into())],
    )
    .expect("trace context")
}

#[test]
fn admitted_envelope_preserves_source_schema_and_trace_metadata() {
    let world = World::new(Config::default()).expect("world");
    let source = envelopes_active(&world);
    let target = envelopes_active(&world);
    let deadline = later(now(), Duration::from_secs(10));
    let event = world
        .send_with(
            target,
            Payload::Pulse(7),
            MessageOptions {
                source: Some(source),
                deadline: Some(deadline),
                correlation_id: Some(11),
                causation_id: Some(10),
                trace: Some(envelopes_trace()),
            },
        )
        .expect("send");
    let lease = world.claim(target).expect("claim").expect("delivery");
    let envelope = lease.envelope();
    assert_eq!(envelope.event_id, event);
    assert_eq!(envelope.source, Some(source));
    assert_eq!(envelope.destination, target);
    assert_eq!(envelope.owner, target);
    assert_eq!(envelope.schema.kind, SchemaKind::Pulse);
    assert_eq!(envelope.schema.id, 0);
    assert_eq!(envelope.schema.version, 1);
    assert_eq!(envelope.deadline, Some(deadline));
    assert_eq!(envelope.correlation_id, Some(11));
    assert_eq!(envelope.causation_id, Some(10));
    assert_eq!(
        envelope.trace.as_ref().expect("trace").baggage()[0].0,
        "tenant"
    );
}

#[test]
fn trace_baggage_is_bounded_and_charged_in_retained_snapshot() {
    let world = World::new(Config {
        native_payload_budget: 2048,
        ..Config::default()
    })
    .expect("world");
    let target = envelopes_active(&world);
    let context = envelopes_trace();
    let expected = context.charged_bytes() + 8;
    world
        .send_with(
            target,
            Payload::Pulse(1),
            MessageOptions {
                trace: Some(context),
                ..Default::default()
            },
        )
        .expect("send");
    assert!(world.snapshot().retained_payload_bytes >= expected);
    let lease = world.claim(target).expect("claim").expect("delivery");
    assert_eq!(
        lease
            .envelope()
            .trace
            .as_ref()
            .expect("trace")
            .charged_bytes(),
        expected - 8
    );
    lease.finish(true);
    assert_eq!(world.snapshot().retained_payload_bytes, 0);
}

#[test]
fn expired_options_reject_before_admission_and_maintenance_expires_staged_work() {
    let world = World::new(Config::default()).expect("world");
    let target = envelopes_active(&world);
    let past = sooner(now(), Duration::from_millis(1));
    assert_eq!(
        world.send_with(
            target,
            Payload::Pulse(1),
            MessageOptions {
                deadline: Some(past),
                ..Default::default()
            }
        ),
        Err(Error::DeadlineExpired)
    );
    assert_eq!(world.snapshot().metrics.submitted, 1);

    let future = later(now(), Duration::from_secs(1));
    world
        .send_with(
            target,
            Payload::Pulse(9),
            MessageOptions {
                deadline: Some(future),
                ..Default::default()
            },
        )
        .expect("future queued event");
    world.maintain(later(future, Duration::from_secs(1)));
    assert!(world.claim(target).expect("expired claim").is_none());
    assert_eq!(world.snapshot().metrics.expired, 1);
    assert_eq!(world.snapshot().retained_payload_bytes, 0);

    let parent = world.allocate(EndpointKind::Native, None).expect("parent");
    let source = world
        .allocate(EndpointKind::Native, Some(parent))
        .expect("source");
    let output = world
        .register_component(
            source,
            ComponentDescriptor {
                name: "source".into(),
                version: 1,
                ports: vec![PortSpec {
                    name: "out".into(),
                    direction: PortDirection::Output,
                    schema: PayloadType::Pulse,
                }],
                interfaces: Vec::new(),
            },
        )
        .expect("component")[0];
    let staged_deadline = later(now(), Duration::from_secs(1));
    world
        .publish_port_with(
            output,
            Payload::Pulse(2),
            MessageOptions {
                deadline: Some(staged_deadline),
                ..Default::default()
            },
        )
        .expect("stage future work");
    assert!(world.snapshot().retained_payload_bytes > 0);
    world.maintain(later(staged_deadline, Duration::from_secs(1)));
    assert_eq!(world.snapshot().retained_payload_bytes, 0);
}

#[test]
fn fanout_allocates_unique_delivery_ids_and_preserves_correlation() {
    let world = World::new(Config::default()).expect("world");
    let source = world.allocate(EndpointKind::Native, None).expect("source");
    let first = world.allocate(EndpointKind::Native, None).expect("first");
    let second = world.allocate(EndpointKind::Native, None).expect("second");
    let output = world
        .register_component(
            source,
            ComponentDescriptor {
                name: "source".into(),
                version: 1,
                ports: vec![PortSpec {
                    name: "out".into(),
                    direction: PortDirection::Output,
                    schema: PayloadType::Pulse,
                }],
                interfaces: Vec::new(),
            },
        )
        .expect("source component")[0];
    let input = |owner| {
        world
            .register_component(
                owner,
                ComponentDescriptor {
                    name: format!("target_{:?}", owner.slot),
                    version: 1,
                    ports: vec![PortSpec {
                        name: "in".into(),
                        direction: PortDirection::Input,
                        schema: PayloadType::Pulse,
                    }],
                    interfaces: Vec::new(),
                },
            )
            .expect("target component")[0]
    };
    let first_input = input(first);
    let second_input = input(second);
    world.activate(source).expect("source activation");
    world.activate(first).expect("first activation");
    world.activate(second).expect("second activation");
    world.link(source, output, first_input).expect("first link");
    world
        .link(source, output, second_input)
        .expect("second link");
    let report = route(
        &world,
        world
            .publish_port_with(
                output,
                Payload::Pulse(3),
                MessageOptions {
                    correlation_id: Some(77),
                    ..Default::default()
                },
            )
            .expect("publish"),
    );
    assert_eq!(report.admitted, 2);
    let a = world.claim(first).expect("claim").expect("first");
    let b = world.claim(second).expect("claim").expect("second");
    assert_ne!(a.envelope().event_id, b.envelope().event_id);
    assert_eq!(a.envelope().correlation_id, Some(77));
    assert_eq!(b.envelope().correlation_id, Some(77));
}

#[test]
fn request_reply_propagates_context_to_completion_envelope() {
    let world = World::new(Config::default()).expect("world");
    let owner = envelopes_active(&world);
    let target = envelopes_active(&world);
    let request = world
        .request_with(
            owner,
            target,
            Payload::Pulse(1),
            later(now(), Duration::from_secs(10)),
            MessageOptions {
                correlation_id: Some(88),
                trace: Some(envelopes_trace()),
                ..Default::default()
            },
        )
        .expect("request");
    let delivery = world
        .claim(target)
        .expect("claim")
        .expect("request delivery");
    let request_event = delivery.envelope().event_id;
    assert!(
        world
            .complete_operation(request, target, Payload::Pulse(2))
            .expect("reply")
    );
    delivery.finish(true);
    let outcome = world
        .take_operation(request)
        .expect("take")
        .expect("terminal");
    let held = match outcome {
        TerminalOutcome::Completed(held) => held,
        other => panic!("unexpected outcome: {other:?}"),
    };
    let envelope = held.envelope().expect("reply envelope");
    assert_eq!(envelope.source, Some(target));
    assert_eq!(envelope.destination, owner);
    assert_eq!(envelope.correlation_id, Some(88));
    assert_eq!(envelope.causation_id, Some(request_event));
    assert_eq!(
        envelope.trace.as_ref().expect("reply trace").baggage(),
        envelopes_trace().baggage()
    );
}

#[test]
fn invalid_source_world_and_stale_or_stopped_targets_reject_before_queueing() {
    let world = World::new(Config::default()).expect("world");
    let other = World::new(Config::default()).expect("other");
    let target = envelopes_active(&world);
    let foreign = envelopes_active(&other);
    assert_eq!(
        world.send_with(foreign, Payload::Pulse(1), MessageOptions::default()),
        Err(Error::CrossWorld)
    );
    world.stop(target).expect("stop target");
    assert_eq!(
        world.send_with(target, Payload::Pulse(1), MessageOptions::default()),
        Err(Error::ActorStopped)
    );
    assert_eq!(world.snapshot().retained_payload_bytes, 0);
}

// Envelopes extra.

fn envelopes_extra_active(world: &World) -> ActorRef {
    let actor = world.allocate(EndpointKind::Native, None).unwrap();
    world.activate(actor).unwrap();
    actor
}

#[test]
fn routed_envelope_records_exact_destination_port() {
    let world = World::new(Config::default()).unwrap();
    let source = world.allocate(EndpointKind::Native, None).unwrap();
    let target = world.allocate(EndpointKind::Native, None).unwrap();
    let output = world
        .register_component(
            target,
            ComponentDescriptor {
                name: "target".into(),
                version: 1,
                ports: vec![
                    PortSpec {
                        name: "pulse".into(),
                        direction: PortDirection::Input,
                        schema: PayloadType::Pulse,
                    },
                    PortSpec {
                        name: "count".into(),
                        direction: PortDirection::Input,
                        schema: PayloadType::CountSnapshot,
                    },
                ],
                interfaces: Vec::new(),
            },
        )
        .unwrap();
    let source_port = world
        .register_component(
            source,
            ComponentDescriptor {
                name: "source".into(),
                version: 1,
                ports: vec![PortSpec {
                    name: "out".into(),
                    direction: PortDirection::Output,
                    schema: PayloadType::Pulse,
                }],
                interfaces: Vec::new(),
            },
        )
        .unwrap()[0];
    world.activate(source).unwrap();
    world.activate(target).unwrap();
    world.link(source, source_port, output[0]).unwrap();
    route(
        &world,
        world.publish_port(source_port, Payload::Pulse(1)).unwrap(),
    );
    let lease = world.claim(target).unwrap().unwrap();
    assert_eq!(lease.envelope().destination_port, Some(output[0]));
    lease.finish(true);
}

#[test]
fn source_validation_rejects_foreign_stale_and_stopped_sources() {
    let world = World::new(Config::default()).unwrap();
    let other = World::new(Config::default()).unwrap();
    let target = envelopes_extra_active(&world);
    let foreign = envelopes_extra_active(&other);
    assert_eq!(
        world.send_with(
            target,
            Payload::Pulse(1),
            MessageOptions {
                source: Some(foreign),
                ..Default::default()
            }
        ),
        Err(Error::CrossWorld)
    );
    let source = envelopes_extra_active(&world);
    world.stop(source).unwrap();
    assert_eq!(
        world.send_with(
            target,
            Payload::Pulse(1),
            MessageOptions {
                source: Some(source),
                ..Default::default()
            }
        ),
        Err(Error::ActorStopped)
    );
    let stale = ActorRef {
        generation: source.generation.saturating_add(1),
        ..source
    };
    assert_eq!(
        world.send_with(
            target,
            Payload::Pulse(1),
            MessageOptions {
                source: Some(stale),
                ..Default::default()
            }
        ),
        Err(Error::StaleReference)
    );
}

#[test]
fn queued_delivery_keeps_historical_source_after_source_stops() {
    let world = World::new(Config::default()).unwrap();
    let source = envelopes_extra_active(&world);
    let target = envelopes_extra_active(&world);
    world
        .send_with(
            target,
            Payload::Pulse(4),
            MessageOptions {
                source: Some(source),
                ..Default::default()
            },
        )
        .unwrap();
    world.stop(source).unwrap();
    let lease = world.claim(target).unwrap().unwrap();
    assert_eq!(lease.envelope().source, Some(source));
    lease.finish(true);
}

#[test]
fn rejected_trace_budget_does_not_retain_payload_bytes() {
    let world = World::new(Config {
        native_payload_budget: 8,
        ..Config::default()
    })
    .unwrap();
    let target = envelopes_extra_active(&world);
    let trace = TraceContext::new(
        [1; 16],
        [2; 8],
        true,
        vec![("tenant".into(), "native".into())],
    )
    .unwrap();
    assert_eq!(
        world.send_with(
            target,
            Payload::Pulse(1),
            MessageOptions {
                trace: Some(trace),
                ..Default::default()
            }
        ),
        Err(Error::BudgetExceeded)
    );
    assert_eq!(world.snapshot().retained_payload_bytes, 0);
}

#[test]
fn default_request_correlation_retains_context_until_take() {
    let world = World::new(Config::default()).unwrap();
    let owner = envelopes_extra_active(&world);
    let target = envelopes_extra_active(&world);
    let id = world
        .request(
            owner,
            target,
            Payload::Pulse(1),
            later(now(), Duration::from_secs(10)),
        )
        .unwrap();
    let delivery = world.claim(target).unwrap().unwrap();
    assert_eq!(
        delivery.envelope().correlation_id,
        Some(delivery.event_id())
    );
    assert!(
        world
            .complete_operation(id, target, Payload::Pulse(2))
            .unwrap()
    );
    delivery.finish(true);
    assert!(world.snapshot().retained_payload_bytes > 0);
    assert!(matches!(
        world.take_operation(id).unwrap(),
        Some(TerminalOutcome::Completed(_))
    ));
    assert_eq!(world.snapshot().retained_payload_bytes, 0);
}

#[test]
fn expired_request_rolls_back_operation_reservation() {
    let world = World::new(Config::default()).unwrap();
    let owner = envelopes_extra_active(&world);
    let target = envelopes_extra_active(&world);
    assert_eq!(
        world.request(
            owner,
            target,
            Payload::Pulse(1),
            sooner(now(), Duration::from_millis(1))
        ),
        Err(Error::DeadlineExpired)
    );
    assert_eq!(world.snapshot().operation_pending, 0);
}

#[test]
fn claimed_delivery_survives_deadline_until_handler_finishes() {
    let world = World::new(Config::default()).unwrap();
    let target = envelopes_extra_active(&world);
    let deadline = later(now(), Duration::from_secs(10));
    world
        .send_with(
            target,
            Payload::Pulse(1),
            MessageOptions {
                deadline: Some(deadline),
                ..Default::default()
            },
        )
        .unwrap();
    let lease = world.claim(target).unwrap().unwrap();
    world.maintain(later(deadline, Duration::from_secs(1)));
    assert_eq!(world.snapshot().retained_payload_bytes, 8);
    lease.finish(true);
    assert_eq!(world.snapshot().metrics.completed, 1);
    assert_eq!(world.snapshot().metrics.expired, 0);
}

#[test]
fn expiry_diagnostic_has_bounded_event_identity() {
    let world = World::new(Config::default()).unwrap();
    let target = envelopes_extra_active(&world);
    let deadline = later(now(), Duration::from_secs(10));
    let event = world
        .send_with(
            target,
            Payload::Pulse(1),
            MessageOptions {
                deadline: Some(deadline),
                correlation_id: Some(51),
                causation_id: Some(50),
                ..Default::default()
            },
        )
        .unwrap();
    world.maintain(later(deadline, Duration::from_millis(1)));
    let diagnostics = world.diagnostics(0, 16).unwrap();
    let entry = diagnostics
        .entries
        .iter()
        .find(|entry| entry.code == DiagnosticCode::DeadlineExpired)
        .unwrap();
    assert_eq!(entry.event_id, Some(event));
    assert_eq!(entry.correlation_id, Some(51));
    assert_eq!(entry.causation_id, Some(50));
}

// Expiry indexes.

fn expiry_indexes_setup() -> (
    World,
    VirtualClock,
    Instant,
    ActorRef,
    ActorRef,
) {
    let initial = now();
    let (clock, virtual_clock) = Clock::manual_at(initial);
    let world = World::with_clock(Config::default(), clock).unwrap();
    let owner = world.allocate(EndpointKind::Native, None).unwrap();
    let target = world.allocate(EndpointKind::Native, None).unwrap();
    world.activate(owner).unwrap();
    world.activate(target).unwrap();
    (world, virtual_clock, initial, owner, target)
}

#[test]
fn out_of_fifo_deadlines_expire_without_discarding_future_entries() {
    let (world, clock, initial, owner, target) = expiry_indexes_setup();
    let future = later(initial, Duration::from_secs(10));
    let due = later(initial, Duration::from_secs(2));
    world
        .send_with(
            target,
            Payload::Pulse(10),
            MessageOptions {
                deadline: Some(future),
                ..Default::default()
            },
        )
        .unwrap();
    world
        .send_with(
            target,
            Payload::Pulse(2),
            MessageOptions {
                deadline: Some(due),
                ..Default::default()
            },
        )
        .unwrap();
    clock.advance(Duration::from_secs(2)).unwrap();
    world.maintain(clock.current());
    let snapshot = world.snapshot();
    assert_eq!(
        snapshot
            .actors
            .iter()
            .find(|actor| actor.reference == target)
            .unwrap()
            .queue_entries,
        1
    );
    assert_eq!(snapshot.metrics.expired, 1);
    let delivery = world.claim(target).unwrap().unwrap();
    assert_eq!(delivery.payload(), &Payload::Pulse(10));
    delivery.finish(true);
    let _ = owner;
}

#[test]
fn equal_deadlines_expire_once_per_queued_delivery() {
    let (world, clock, initial, owner, target) = expiry_indexes_setup();
    let deadline = later(initial, Duration::from_secs(1));
    for value in 0..2 {
        world
            .send_with(
                target,
                Payload::Pulse(value),
                MessageOptions {
                    deadline: Some(deadline),
                    ..Default::default()
                },
            )
            .unwrap();
    }
    clock.advance(Duration::from_secs(1)).unwrap();
    world.maintain(clock.current());
    assert_eq!(world.snapshot().metrics.expired, 2);
    assert!(world.claim(target).unwrap().is_none());
    let _ = owner;
}

#[test]
fn failed_admission_does_not_leave_expiry_index_entries() {
    let config = Config {
        mailbox_capacity: 1,
        ..Config::default()
    };
    let initial = now();
    let (clock, virtual_clock) = Clock::manual_at(initial);
    let world = World::with_clock(config, clock).unwrap();
    let target = world.allocate(EndpointKind::Native, None).unwrap();
    world.activate(target).unwrap();
    let deadline = later(initial, Duration::from_secs(1));
    world
        .send_with(
            target,
            Payload::Pulse(1),
            MessageOptions {
                deadline: Some(deadline),
                ..Default::default()
            },
        )
        .unwrap();
    assert_eq!(
        world.send_with(
            target,
            Payload::Pulse(2),
            MessageOptions {
                deadline: Some(deadline),
                ..Default::default()
            }
        ),
        Err(Error::QueueFull)
    );
    virtual_clock.advance(Duration::from_secs(1)).unwrap();
    world.maintain(virtual_clock.current());
    assert_eq!(world.snapshot().metrics.expired, 1);
    assert_eq!(
        world
            .snapshot()
            .actors
            .iter()
            .find(|actor| actor.reference == target)
            .unwrap()
            .queue_entries,
        0
    );
}

#[test]
fn expired_request_terminalizes_once_and_late_completion_is_fenced() {
    let (world, clock, initial, owner, target) = expiry_indexes_setup();
    let operation = world
        .request(
            owner,
            target,
            Payload::Pulse(1),
            later(initial, Duration::from_secs(1)),
        )
        .unwrap();
    clock.advance(Duration::from_secs(1)).unwrap();
    world.maintain(clock.current());
    assert!(matches!(
        world.operation_status(operation),
        Ok(OperationStatus::Terminal(
            TerminalOutcome::TimedOut
        ))
    ));
    assert!(matches!(
        world.complete_operation(operation, target, Payload::Pulse(2)),
        Ok(false)
    ));
    assert_eq!(world.snapshot().metrics.operation_timed_out, 1);
    assert!(world.take_operation(operation).unwrap().is_some());
    world.maintain(clock.current());
    assert_eq!(world.snapshot().metrics.operation_timed_out, 1);
}

#[test]
fn equal_deadline_claim_wins_for_one_and_expiry_removes_the_other() {
    let (world, clock, initial, owner, target) = expiry_indexes_setup();
    let deadline = later(initial, Duration::from_secs(1));
    world
        .send_with(
            target,
            Payload::Pulse(1),
            MessageOptions {
                deadline: Some(deadline),
                ..Default::default()
            },
        )
        .unwrap();
    world
        .send_with(
            target,
            Payload::Pulse(2),
            MessageOptions {
                deadline: Some(deadline),
                ..Default::default()
            },
        )
        .unwrap();
    let claimed = world.claim(target).unwrap().unwrap();
    assert_eq!(claimed.payload(), &Payload::Pulse(1));
    clock.advance(Duration::from_secs(1)).unwrap();
    world.maintain(clock.current());
    assert_eq!(world.snapshot().metrics.expired, 1);
    claimed.finish(true);
    assert_eq!(world.snapshot().retained_payload_bytes, 0);
    assert!(world.claim(target).unwrap().is_none());
    let _ = owner;
}

#[test]
fn retired_generation_deadline_cannot_expire_replacement() {
    let (world, clock, initial, owner, old) = expiry_indexes_setup();
    let old_deadline = later(initial, Duration::from_secs(1));
    world
        .send_with(
            old,
            Payload::Pulse(1),
            MessageOptions {
                deadline: Some(old_deadline),
                ..Default::default()
            },
        )
        .unwrap();
    world.stop(old).unwrap();
    let replacement = world.allocate(EndpointKind::Native, None).unwrap();
    world.activate(replacement).unwrap();
    assert_eq!(replacement.slot, old.slot);
    assert_ne!(replacement.generation, old.generation);
    let new_deadline = later(initial, Duration::from_secs(2));
    world
        .send_with(
            replacement,
            Payload::Pulse(2),
            MessageOptions {
                deadline: Some(new_deadline),
                ..Default::default()
            },
        )
        .unwrap();
    clock.advance(Duration::from_secs(1)).unwrap();
    world.maintain(clock.current());
    assert_eq!(world.snapshot().metrics.expired, 0);
    clock.advance(Duration::from_secs(1)).unwrap();
    world.maintain(clock.current());
    assert_eq!(world.snapshot().metrics.expired, 1);
    let _ = owner;
}

#[test]
fn staged_startup_expiry_flushes_only_live_entries() {
    let (world, clock, initial, _parent, child) = expiry_indexes_setup();
    // Recreate the child as a true Starting child under a Starting parent.
    world.stop(child).unwrap();
    let parent = world.allocate(EndpointKind::Native, None).unwrap();
    let child = world.allocate(EndpointKind::Native, Some(parent)).unwrap();
    let target = world.allocate(EndpointKind::Native, None).unwrap();
    let output = world
        .register_component(
            child,
            ComponentDescriptor {
                name: "StagedSource".into(),
                version: 1,
                ports: vec![PortSpec {
                    name: "out".into(),
                    direction: PortDirection::Output,
                    schema: PayloadType::Pulse,
                }],
                interfaces: vec![InterfaceSpec {
                    name: "StagedSource".into(),
                    version: 1,
                    ports: vec![PortSpec {
                        name: "out".into(),
                        direction: PortDirection::Output,
                        schema: PayloadType::Pulse,
                    }],
                }],
            },
        )
        .unwrap()[0];
    let input = world
        .register_component(
            target,
            ComponentDescriptor {
                name: "StagedTarget".into(),
                version: 1,
                ports: vec![PortSpec {
                    name: "in".into(),
                    direction: PortDirection::Input,
                    schema: PayloadType::Pulse,
                }],
                interfaces: vec![],
            },
        )
        .unwrap()[0];
    world.activate(target).unwrap();
    world.activate(child).unwrap();
    world.link(child, output, input).unwrap();
    let due = later(initial, Duration::from_secs(1));
    let future = later(initial, Duration::from_secs(2));
    let _first = world
        .publish_port_with(
            output,
            Payload::Pulse(1),
            MessageOptions {
                deadline: Some(due),
                ..Default::default()
            },
        )
        .unwrap();
    let _second = world
        .publish_port_with(
            output,
            Payload::Pulse(2),
            MessageOptions {
                deadline: Some(future),
                ..Default::default()
            },
        )
        .unwrap();
    let _third = world
        .publish_port_with(output, Payload::Pulse(3), MessageOptions::default())
        .unwrap();
    clock.advance(Duration::from_secs(1)).unwrap();
    world.maintain(clock.current());
    world.activate(parent).unwrap();
    while world.routing_ready() {
        world.route_batch();
    }
    assert_eq!(
        world
            .snapshot()
            .actors
            .iter()
            .find(|a| a.reference == target)
            .unwrap()
            .queue_entries,
        2
    );
    let delivery = world.claim(target).unwrap().unwrap();
    assert_eq!(delivery.payload(), &Payload::Pulse(2));
    delivery.finish(true);
    let delivery = world.claim(target).unwrap().unwrap();
    assert_eq!(delivery.payload(), &Payload::Pulse(3));
    delivery.finish(true);
    assert_eq!(world.snapshot().metrics.expired, 1);
    assert_eq!(world.snapshot().retained_payload_bytes, 0);
}

#[test]
fn nested_drain_preserves_earliest_child_deadline() {
    let (world, clock, initial, _parent, child) = expiry_indexes_setup();
    world.stop(child).unwrap();
    let parent = world.allocate(EndpointKind::Native, None).unwrap();
    let child = world.allocate(EndpointKind::Native, Some(parent)).unwrap();
    world.activate(parent).unwrap();
    world.activate(child).unwrap();
    let task = world.track_task(child).unwrap();
    world
        .request_drain(child, later(initial, Duration::from_secs(1)))
        .unwrap();
    world
        .request_drain(parent, later(initial, Duration::from_secs(10)))
        .unwrap();
    clock.advance(Duration::from_secs(1)).unwrap();
    world.maintain(clock.current());
    assert!(matches!(world.state(child), Ok(Lifecycle::Stopping)));
    assert!(matches!(world.state(parent), Ok(Lifecycle::Stopping)));
    assert_eq!(world.snapshot().metrics.drain_timeouts, 1);
    drop(task);
    world.maintain(clock.current());
    assert!(matches!(world.state(parent), Ok(Lifecycle::Stopped)));
    assert_eq!(world.state(child), Ok(Lifecycle::Stopped));
}

#[test]
fn stopped_staged_output_is_removed_before_replacement_activation() {
    let initial = now();
    let (clock, time) = Clock::manual_at(initial);
    let world = World::with_clock(Config::default(), clock).unwrap();
    let parent = world.allocate(EndpointKind::Native, None).unwrap();
    let source = world.allocate(EndpointKind::Native, Some(parent)).unwrap();
    let output = world
        .register_component(
            source,
            ComponentDescriptor {
                name: "StoppedStaging".into(),
                version: 1,
                ports: vec![PortSpec {
                    name: "out".into(),
                    direction: PortDirection::Output,
                    schema: PayloadType::Pulse,
                }],
                interfaces: vec![],
            },
        )
        .unwrap()[0];
    let options = MessageOptions {
        deadline: Some(later(initial, Duration::from_secs(1))),
        ..Default::default()
    };
    for value in 0..2 {
        let ticket = world
            .publish_port_with(output, Payload::Pulse(value), options.clone())
            .unwrap();
        assert!(matches!(
            ticket.status(),
            PublicationStatus::Staged
        ));
    }
    world.activate(source).unwrap();
    assert!(world.snapshot().retained_payload_bytes > 0);
    assert_eq!(world.stop(parent).unwrap().discarded, 2);
    assert_eq!(world.snapshot().retained_payload_bytes, 0);
    let replacement_parent = world.allocate(EndpointKind::Native, None).unwrap();
    let replacement_source = world
        .allocate(EndpointKind::Native, Some(replacement_parent))
        .unwrap();
    assert_eq!(replacement_source.slot, source.slot);
    assert_ne!(replacement_source.generation, source.generation);
    time.advance(Duration::from_secs(1)).unwrap();
    world.activate(replacement_source).unwrap();
    world.activate(replacement_parent).unwrap();
    world.maintain(time.current());
    assert_eq!(world.snapshot().metrics.expired, 0);
    assert_eq!(world.snapshot().retained_payload_bytes, 0);
}

#[test]
fn staged_self_link_transfers_deadline_to_queued_delivery() {
    let initial = now();
    let (clock, time) = Clock::manual_at(initial);
    let world = World::with_clock(Config::default(), clock).unwrap();
    let source = world.allocate(EndpointKind::Native, None).unwrap();
    let ports = world
        .register_component(
            source,
            ComponentDescriptor {
                name: "SelfStaging".into(),
                version: 1,
                ports: vec![
                    PortSpec {
                        name: "out".into(),
                        direction: PortDirection::Output,
                        schema: PayloadType::Pulse,
                    },
                    PortSpec {
                        name: "in".into(),
                        direction: PortDirection::Input,
                        schema: PayloadType::Pulse,
                    },
                ],
                interfaces: vec![],
            },
        )
        .unwrap();
    world.link(source, ports[0], ports[1]).unwrap();
    world
        .publish_port_with(
            ports[0],
            Payload::Pulse(1),
            MessageOptions {
                deadline: Some(later(initial, Duration::from_secs(1))),
                ..Default::default()
            },
        )
        .unwrap();
    world.activate(source).unwrap();
    while world.routing_ready() {
        world.route_batch();
    }
    let snapshot = world.snapshot();
    assert_eq!(snapshot.actors[0].staged_entries, 0);
    assert_eq!(snapshot.actors[0].queue_entries, 1);
    time.advance(Duration::from_secs(1)).unwrap();
    world.maintain(time.current());
    assert!(world.claim(source).unwrap().is_none());
    assert_eq!(world.snapshot().metrics.expired, 1);
    assert_eq!(world.snapshot().retained_payload_bytes, 0);
}

// Expiry model.

#[derive(Clone, Debug)]
struct ExpiryModelItem {
    value: i64,
    deadline: Option<Instant>,
}

fn expiry_model_next(seed: &mut u64) -> u64 {
    *seed ^= *seed << 13;
    *seed ^= *seed >> 7;
    *seed ^= *seed << 17;
    *seed
}

fn expiry_model_new_actor(world: &World) -> ActorRef {
    let actor = world.allocate(EndpointKind::Native, None).unwrap();
    world.activate(actor).unwrap();
    actor
}

fn expiry_model_expire(model: &mut [VecDeque<ExpiryModelItem>], now: Instant) -> u64 {
    let mut expired = 0;
    for queue in model {
        queue.retain(|item| {
            let keep = item.deadline.is_none_or(|at| at > now);
            expired += u64::from(!keep);
            keep
        });
    }
    expired
}

#[test]
fn seeded_public_expiry_model_matches_queue_and_budget_observations() {
    for initial_seed in [0x11_u64, 0x22, 0x33, 0x44] {
        let mut seed = initial_seed;
        let (clock, virtual_clock) = Clock::manual_at(now());
        let world = World::with_clock(
            Config {
                mailbox_capacity: 8,
                mailbox_bytes: 1024,
                max_actors: 16,
                ..Config::default()
            },
            clock,
        )
        .unwrap();
        let mut actors = Vec::new();
        let mut model: Vec<VecDeque<ExpiryModelItem>> = Vec::new();
        for _ in 0..16 {
            actors.push(expiry_model_new_actor(&world));
            model.push(VecDeque::new());
        }
        let mut expected_expired = 0;
        let mut action_counts = [0; 20];
        let mut admitted = 0;
        let mut full = 0;
        let mut rejected_expired = 0;
        let mut claimed = 0;
        for step in 0..3000 {
            let choice = (expiry_model_next(&mut seed) % 20) as usize;
            action_counts[choice] += 1;
            let index = (expiry_model_next(&mut seed) as usize) % actors.len();
            let now = virtual_clock.current();
            match choice {
                0..=11 => {
                    let value = (expiry_model_next(&mut seed) % 10_000) as i64;
                    let deadline = match expiry_model_next(&mut seed) % 8 {
                        0 | 1 => None,
                        n => Some(later(now, Duration::from_secs(n - 2))),
                    };
                    let result = world.send_with(
                        actors[index],
                        Payload::Pulse(value),
                        MessageOptions {
                            deadline,
                            ..Default::default()
                        },
                    );
                    if deadline.is_some_and(|at| at <= now) {
                        assert_eq!(result, Err(Error::DeadlineExpired));
                        rejected_expired += 1;
                    } else if model[index].len() >= 8 {
                        assert_eq!(result, Err(Error::QueueFull));
                        full += 1;
                    } else {
                        result.unwrap();
                        admitted += 1;
                        model[index].push_back(ExpiryModelItem { value, deadline });
                    }
                }
                12..=14 => {
                    while model[index]
                        .front()
                        .is_some_and(|item| item.deadline.is_some_and(|at| at <= now))
                    {
                        model[index].pop_front();
                        expected_expired += 1;
                    }
                    let expected = model[index].pop_front();
                    let actual = world.claim(actors[index]).unwrap();
                    match (expected, actual) {
                        (None, None) => (),
                        (Some(item), Some(lease)) => {
                            assert_eq!(lease.payload(), &Payload::Pulse(item.value));
                            claimed += 1;
                            lease.finish(true);
                        }
                        _ => panic!("claim mismatch"),
                    }
                }
                15 => {
                    virtual_clock.advance(Duration::from_secs(1)).unwrap();
                }
                16 => {
                    world.maintain(now);
                    expected_expired += expiry_model_expire(&mut model, now);
                }
                17 | 18 => {
                    let old = actors[index];
                    assert!(world.stop(old).unwrap().native_done);
                    model[index].clear();
                    actors[index] = expiry_model_new_actor(&world);
                    assert_eq!(actors[index].slot, old.slot);
                    assert_ne!(actors[index].generation, old.generation);
                    assert_eq!(
                        world.send(old, Payload::Pulse(0)),
                        Err(Error::StaleReference)
                    );
                    // Activation flushes startup output after removing due events.
                    expected_expired += expiry_model_expire(&mut model, now);
                }
                _ => {
                    assert_eq!(
                        world.allocate(EndpointKind::Native, None),
                        Err(Error::LimitExceeded)
                    );
                }
            }
            let snapshot = world.snapshot();
            assert_eq!(
                snapshot.metrics.expired, expected_expired,
                "seed={initial_seed} step={step}"
            );
            assert_eq!(snapshot.actors.len(), 16);
            for (actor, queue) in actors.iter().zip(&model) {
                let observed = snapshot
                    .actors
                    .iter()
                    .find(|observed| observed.reference == *actor)
                    .unwrap();
                assert_eq!(observed.state, Lifecycle::Active);
                assert_eq!(
                    observed.queue_entries,
                    queue.len(),
                    "seed={initial_seed} step={step} actor={actor:?}"
                );
                assert_eq!(observed.queue_bytes, queue.len() * 8);
            }
            let expected_entries: usize = model.iter().map(VecDeque::len).sum();
            let actual_entries: usize = snapshot
                .actors
                .iter()
                .map(|actor| actor.queue_entries)
                .sum();
            assert_eq!(actual_entries, expected_entries);
            let expected_bytes = expected_entries * 8;
            let actual_bytes: usize = snapshot.actors.iter().map(|actor| actor.queue_bytes).sum();
            assert_eq!(actual_bytes, expected_bytes);
            assert_eq!(snapshot.retained_payload_bytes, expected_bytes);
        }
        assert!(
            action_counts.iter().all(|count| *count > 50),
            "action coverage: {action_counts:?}"
        );
        assert!(
            admitted > 500 && claimed > 100 && expected_expired > 100 && rejected_expired > 100
        );
        assert!(full > 0, "seed={initial_seed} must exercise full admission");
        for actor in actors {
            world.stop(actor).unwrap();
        }
        assert_eq!(world.snapshot().retained_payload_bytes, 0);
        assert!(world.close().native_done);
    }
}

// Native callbacks.

fn native_callbacks_failure() -> FailureDetails {
    FailureDetails::new(FailurePhase::Handler, "handler", "Error", Vec::new())
}

#[test]
fn startup_and_active_callback_eligibility_is_fenced() {
    let world = World::new(Config::default()).unwrap();
    let native = world.allocate(EndpointKind::Native, None).unwrap();
    let startup_callback = world.claim_native_callback(native, true).unwrap().unwrap();
    assert!(world.claim_native_callback(native, true).unwrap().is_none());
    assert!(
        world
            .claim_native_callback(native, false)
            .unwrap()
            .is_none()
    );
    drop(startup_callback);
    world.activate(native).unwrap();
    assert!(
        world
            .claim_native_callback(native, false)
            .unwrap()
            .is_some()
    );

    let python = world.allocate(EndpointKind::Python, None).unwrap();
    world.activate(python).unwrap();
    assert!(
        world
            .claim_native_callback(python, false)
            .unwrap()
            .is_none()
    );
}

#[test]
fn delivery_and_control_callbacks_never_overlap() {
    let world = World::new(Config::default()).unwrap();
    let native = world.allocate(EndpointKind::Native, None).unwrap();
    world.activate(native).unwrap();
    world.send(native, Payload::Pulse(1)).unwrap();
    let delivery = world.claim(native).unwrap().unwrap();
    assert!(
        world
            .claim_native_callback(native, false)
            .unwrap()
            .is_none()
    );
    delivery.finish(true);
    let callback = world.claim_native_callback(native, false).unwrap().unwrap();
    assert!(world.claim(native).unwrap().is_none());
    drop(callback);
    assert!(world.claim(native).unwrap().is_none());
}

#[test]
fn callback_lease_keeps_stop_and_close_incomplete_until_drop() {
    let world = World::new(Config::default()).unwrap();
    let native = world.allocate(EndpointKind::Native, None).unwrap();
    world.activate(native).unwrap();
    let callback = world.claim_native_callback(native, false).unwrap().unwrap();
    let report = world.stop(native).unwrap();
    assert!(!report.native_done);
    assert_eq!(report.control_in_flight, 1);
    drop(callback);
    let report = world.close();
    assert!(report.native_done);
    assert_eq!(report.control_in_flight, 0);
    assert_eq!(world.state(native).unwrap(), Lifecycle::Stopped);
}

#[test]
fn fenced_actor_cannot_claim_callback_and_notifications_exclude_callback() {
    let world = World::new(Config::default()).unwrap();
    let native = world.allocate(EndpointKind::Native, None).unwrap();
    world.activate(native).unwrap();
    world.stop(native).unwrap();
    assert!(
        world
            .claim_native_callback(native, false)
            .unwrap()
            .is_none()
    );

    let supervisor = world.allocate(EndpointKind::Native, None).unwrap();
    world.activate(supervisor).unwrap();
    let supervised = world
        .allocate(EndpointKind::Native, Some(supervisor))
        .unwrap();
    world.activate(supervised).unwrap();
    world
        .report_failure(
            supervised,
            None,
            None,
            None,
            native_callbacks_failure(),
            FailureAction::Continue,
        )
        .unwrap();
    assert!(
        world
            .claim_native_callback(supervised, false)
            .unwrap()
            .is_none()
    );
    let notification = world.claim_failure(supervisor).unwrap().unwrap();
    assert!(
        world
            .claim_native_callback(supervisor, false)
            .unwrap()
            .is_none()
    );
    notification.finish(None).unwrap();
    assert!(
        world
            .claim_native_callback(supervised, false)
            .unwrap()
            .is_some()
    );
}

#[test]
fn callback_drop_releases_native_accounting_promptly() {
    let world = World::new(Config::default()).unwrap();
    let native = world.allocate(EndpointKind::Native, None).unwrap();
    world.activate(native).unwrap();
    let callback = world.claim_native_callback(native, false).unwrap().unwrap();
    world
        .request_drain(native, later(now(), Duration::from_secs(1)))
        .unwrap();
    assert!(
        world
            .snapshot()
            .actors
            .iter()
            .find(|a| a.reference == native)
            .unwrap()
            .control_in_flight
    );
    drop(callback);
    assert!(
        !world
            .snapshot()
            .actors
            .iter()
            .find(|a| a.reference == native)
            .unwrap()
            .control_in_flight
    );
    world.maintain(now());
    assert_eq!(world.state(native).unwrap(), Lifecycle::Stopped);
    assert!(
        world
            .claim_native_callback(native, false)
            .unwrap()
            .is_none()
    );
}

#[test]
fn drain_callback_is_only_eligible_during_quiescence() {
    let world = World::new(Config::default()).unwrap();
    let native = world.allocate(EndpointKind::Native, None).unwrap();
    world.activate(native).unwrap();
    assert!(world.claim_native_drain_callback(native).unwrap().is_none());
    let task = world.track_task(native).unwrap();
    world
        .request_drain(native, later(now(), Duration::from_secs(1)))
        .unwrap();
    let callback = world.claim_native_drain_callback(native).unwrap().unwrap();
    assert!(world.claim_native_drain_callback(native).unwrap().is_none());
    drop(callback);
    drop(task);
    world.maintain(now());
    assert_eq!(world.state(native).unwrap(), Lifecycle::Stopped);
    assert!(world.claim_native_drain_callback(native).unwrap().is_none());
}

// Publications.

fn publications_world() -> World {
    World::new(Config {
        routing_batch_size: 1,
        ..Default::default()
    })
    .unwrap()
}

fn publications_actor(w: &World) -> ActorRef {
    let a = w.allocate(EndpointKind::Native, None).unwrap();
    w.activate(a).unwrap();
    a
}

fn publications_route_all(w: &World) {
    for _ in 0..100 {
        if !w.routing_ready() {
            return;
        }
        w.route_batch();
    }
    panic!("routing failed to settle");
}

fn publications_receive(w: &World, a: ActorRef) -> Option<i64> {
    w.claim(a).unwrap().map(|lease| {
        let Payload::Pulse(value) = lease.payload() else {
            panic!("pulse")
        };
        let value = *value;
        lease.finish(true);
        value
    })
}

#[test]
fn ticket_separates_ingress_from_routing_snapshot_and_destination_admission() {
    let w = publications_world();
    let s = publications_actor(&w);
    let a = publications_actor(&w);
    let b = publications_actor(&w);
    let c = publications_actor(&w);
    w.subscribe(s, a).unwrap();
    let ticket = w.publish(s, Payload::Pulse(7)).unwrap();
    assert_eq!(ticket.status(), PublicationStatus::Queued);
    assert_eq!(w.snapshot().metrics.admitted, 0);
    w.subscribe(s, b).unwrap(); // Before native routing snapshot: included.
    assert_eq!(w.route_batch().destinations, 1);
    assert!(matches!(ticket.status(), PublicationStatus::Routing(_)));
    w.subscribe(s, c).unwrap(); // After snapshot: excluded.
    publications_route_all(&w);
    let report = ticket.report().unwrap();
    assert_eq!(
        (report.matched, report.admitted, report.rejected),
        (2, 2, 0)
    );
    assert_eq!(report.outcome, PublicationOutcome::Routed);
    assert_eq!(publications_receive(&w, a), Some(7));
    assert_eq!(publications_receive(&w, b), Some(7));
    assert_eq!(publications_receive(&w, c), None);
    assert_eq!(w.snapshot().routing_snapshot_entries, 0);
    assert_eq!(w.snapshot().retained_payload_bytes, 0);
}

#[test]
fn bounded_turns_are_fair_between_sources_and_fifo_within_one_source() {
    let w = publications_world();
    let s = publications_actor(&w);
    let other = publications_actor(&w);
    let a = publications_actor(&w);
    let b = publications_actor(&w);
    let independent = publications_actor(&w);
    w.subscribe(s, a).unwrap();
    w.subscribe(s, b).unwrap();
    w.subscribe(other, independent).unwrap();
    let first = w.publish(s, Payload::Pulse(1)).unwrap();
    let second = w.publish(s, Payload::Pulse(2)).unwrap();
    let third = w.publish(other, Payload::Pulse(3)).unwrap();
    assert_eq!(w.route_batch().destinations, 1);
    assert!(first.report().is_none());
    assert_eq!(w.route_batch().destinations, 1);
    assert!(third.report().is_some());
    assert!(second.report().is_none());
    assert_eq!(publications_receive(&w, independent), Some(3));
    publications_route_all(&w);
    for target in [a, b] {
        assert_eq!(publications_receive(&w, target), Some(1));
        assert_eq!(publications_receive(&w, target), Some(2));
    }
}

#[test]
fn retained_tickets_and_pending_work_share_global_and_source_quotas() {
    let w = World::new(Config {
        max_publications: 2,
        max_publications_per_source: 1,
        ..Default::default()
    })
    .unwrap();
    let a = publications_actor(&w);
    let b = publications_actor(&w);
    let c = publications_actor(&w);
    let first = w.publish(a, Payload::Pulse(1)).unwrap();
    assert_eq!(w.publish(a, Payload::Pulse(2)), Err(Error::QueueFull));
    let second = w.publish(b, Payload::Pulse(2)).unwrap();
    assert_eq!(w.publish(c, Payload::Pulse(3)), Err(Error::QueueFull));
    publications_route_all(&w);
    assert_eq!(w.snapshot().publications_retained, 2);
    assert_eq!(w.snapshot().retained_payload_bytes, 0);
    let clone = first.clone();
    drop(first);
    assert_eq!(w.publish(a, Payload::Pulse(4)), Err(Error::QueueFull));
    drop(clone);
    let replacement = w.publish(a, Payload::Pulse(4)).unwrap();
    drop(replacement);
    drop(second);
    publications_route_all(&w);
    assert_eq!(w.snapshot().publications_retained, 0);
    assert_eq!(w.routing_pending(), 0);
}

#[test]
fn failed_payload_reservation_rolls_back_ticket_capacity() {
    let w = World::new(Config {
        max_publications: 1,
        max_publications_per_source: 1,
        native_payload_budget: 8,
        ..Default::default()
    })
    .unwrap();
    let s = publications_actor(&w);
    let held = w.hold(Payload::Pulse(0)).unwrap();
    assert_eq!(w.publish(s, Payload::Pulse(1)), Err(Error::BudgetExceeded));
    assert_eq!(w.snapshot().publications_retained, 0);
    assert_eq!(w.routing_pending(), 0);
    drop(held);
    let t = w.publish(s, Payload::Pulse(1)).unwrap();
    publications_route_all(&w);
    assert_eq!(t.report().unwrap().outcome, PublicationOutcome::Routed);
}

#[test]
fn independent_target_rejection_and_unsubscribe_revalidate_each_batch_and_claim() {
    let w = World::new(Config {
        routing_batch_size: 1,
        mailbox_capacity: 1,
        ..Default::default()
    })
    .unwrap();
    let s = publications_actor(&w);
    let a = publications_actor(&w);
    let full = publications_actor(&w);
    let removed = publications_actor(&w);
    let first_route = w.subscribe(s, a).unwrap();
    w.subscribe(s, full).unwrap();
    let last_route = w.subscribe(s, removed).unwrap();
    w.send(full, Payload::Pulse(0)).unwrap();
    let t = w.publish(s, Payload::Pulse(1)).unwrap();
    w.route_batch();
    w.unsubscribe(first_route).unwrap();
    w.unsubscribe(last_route).unwrap();
    publications_route_all(&w);
    let r = t.report().unwrap();
    assert_eq!((r.matched, r.admitted, r.rejected), (3, 1, 2));
    assert_eq!(publications_receive(&w, a), None);
    assert_eq!(publications_receive(&w, full), Some(0));
    assert_eq!(publications_receive(&w, removed), None);
    assert_eq!(w.snapshot().retained_payload_bytes, 0);
}

#[test]
fn stop_cancels_unrouted_tail_and_ticket_survives_actor_slot_reuse() {
    let w = publications_world();
    let s = publications_actor(&w);
    let a = publications_actor(&w);
    let b = publications_actor(&w);
    w.subscribe(s, a).unwrap();
    w.subscribe(s, b).unwrap();
    let t = w.publish(s, Payload::Pulse(1)).unwrap();
    w.route_batch();
    assert!(!w.stop_report(s).unwrap().native_done);
    assert!(w.stop(s).unwrap().native_done);
    let r = t.report().unwrap();
    assert_eq!(r.outcome, PublicationOutcome::Cancelled);
    assert_eq!((r.admitted, r.rejected), (1, 1));
    let replacement = publications_actor(&w);
    assert_eq!(replacement.slot, s.slot);
    assert_ne!(replacement.generation, s.generation);
    assert_eq!(t.source(), s);
    assert_eq!(publications_receive(&w, a), None);
    assert_eq!(publications_receive(&w, b), None);
    assert_eq!(w.snapshot().routing_snapshot_entries, 0);
    assert_eq!(w.snapshot().retained_payload_bytes, 0);
}

#[test]
fn routing_deadlines_release_snapshots_and_payloads_without_native_worker_polls() {
    let (clock, time) = Clock::manual_at(now());
    let w = World::with_clock(
        Config {
            routing_batch_size: 1,
            ..Default::default()
        },
        clock,
    )
    .unwrap();
    let s = publications_actor(&w);
    for _ in 0..3 {
        w.subscribe(s, publications_actor(&w)).unwrap();
    }
    let t = w
        .publish_with(
            s,
            Payload::Pulse(1),
            MessageOptions {
                deadline: Some(later(w.now(), Duration::from_secs(1))),
                ..Default::default()
            },
        )
        .unwrap();
    w.route_batch();
    assert_eq!(w.snapshot().routing_snapshot_entries, 3);
    time.advance(Duration::from_secs(1)).unwrap();
    w.maintain(w.now());
    let r = t.report().unwrap();
    assert_eq!((r.admitted, r.rejected), (1, 2));
    assert_eq!(r.outcome, PublicationOutcome::Expired);
    assert_eq!(w.snapshot().routing_snapshot_entries, 0);
    assert_eq!(w.snapshot().retained_payload_bytes, 0);
    assert_eq!(w.snapshot().metrics.publication_expired, 1);
    assert_eq!(w.routing_pending(), 0);
}

#[test]
fn fanout_and_aggregate_snapshot_limits_fail_explicitly_without_truncation() {
    for (fanout, snapshots, expected) in
        [(1, 8, PublicationOutcome::FanoutLimit), (8, 1, PublicationOutcome::SnapshotFull)]
    {
        let w = World::new(Config {
            max_publication_fanout: fanout,
            max_routing_snapshot_entries: snapshots,
            ..Default::default()
        })
        .unwrap();
        let s = publications_actor(&w);
        let a = publications_actor(&w);
        let b = publications_actor(&w);
        w.subscribe(s, a).unwrap();
        w.subscribe(s, b).unwrap();
        let t = w.publish(s, Payload::Pulse(1)).unwrap();
        publications_route_all(&w);
        let r = t.report().unwrap();
        assert_eq!(r.outcome, expected);
        assert_eq!(r.admitted, 0);
        assert_eq!(publications_receive(&w, a), None);
        assert_eq!(publications_receive(&w, b), None);
        assert_eq!(w.snapshot().retained_payload_bytes, 0);
    }
}

#[test]
fn admitted_publication_is_owned_drain_work_and_can_admit_to_quiescing_target() {
    let w = publications_world();
    let s = publications_actor(&w);
    let target = publications_actor(&w);
    w.subscribe(s, target).unwrap();
    let target_work = w.track_task(target).unwrap();
    let t = w.publish(s, Payload::Pulse(5)).unwrap();
    w.request_drain(s, later(w.now(), Duration::from_secs(1)))
        .unwrap();
    w.request_drain(target, later(w.now(), Duration::from_secs(1)))
        .unwrap();
    assert_eq!(w.state(s), Ok(Lifecycle::Quiescing));
    assert_eq!(w.stop_report(s).unwrap().outstanding_publications, 1);
    publications_route_all(&w);
    assert_eq!(t.report().unwrap().admitted, 1);
    assert_eq!(publications_receive(&w, target), Some(5));
    drop(target_work);
    w.maintain(w.now());
    assert!(w.close().native_done);
}

#[test]
fn target_drain_cutoff_uses_ingress_order_even_when_clock_does_not_advance() {
    let (clock, _) = Clock::manual_at(now());
    let w = World::with_clock(Config::default(), clock).unwrap();
    let source = publications_actor(&w);
    let target = publications_actor(&w);
    w.subscribe(source, target).unwrap();
    let task = w.track_task(target).unwrap();
    let before = w.publish(source, Payload::Pulse(1)).unwrap();
    let frozen = w.now();
    w.request_drain(target, later(frozen, Duration::from_secs(1)))
        .unwrap();
    let after = w.publish(source, Payload::Pulse(2)).unwrap();
    assert_eq!(w.now(), frozen);
    publications_route_all(&w);
    assert_eq!(
        (
            before.report().unwrap().admitted,
            before.report().unwrap().rejected
        ),
        (1, 0)
    );
    assert_eq!(
        (
            after.report().unwrap().admitted,
            after.report().unwrap().rejected
        ),
        (0, 1)
    );
    assert_eq!(after.report().unwrap().outcome, PublicationOutcome::Routed);
    assert_eq!(publications_receive(&w, target), Some(1));
    assert_eq!(publications_receive(&w, target), None);
    drop(task);
    w.maintain(w.now());
    assert!(w.close().native_done);
}

#[test]
fn tracked_completion_can_enter_a_draining_target_after_its_cutoff() {
    let w = publications_world();
    let source = publications_actor(&w);
    let target = publications_actor(&w);
    w.subscribe(source, target).unwrap();
    let source_task = w.track_task(source).unwrap();
    let target_task = w.track_task(target).unwrap();
    for owner in [source, target] {
        w.request_drain(owner, later(w.now(), Duration::from_secs(1)))
            .unwrap();
    }
    let completion = source_task
        .publish_completion(source, Payload::Pulse(3))
        .unwrap();
    publications_route_all(&w);
    assert_eq!(completion.report().unwrap().admitted, 1);
    assert_eq!(publications_receive(&w, target), Some(3));
    drop(source_task);
    drop(target_task);
    w.maintain(w.now());
    assert!(w.close().native_done);
}

#[test]
fn route_owner_activation_is_revalidated_independently_of_source_and_target() {
    let w = publications_world();
    let owner = w.allocate(EndpointKind::Native, None).unwrap();
    let source = w.allocate(EndpointKind::Native, None).unwrap();
    let target = w.allocate(EndpointKind::Native, None).unwrap();
    let mut ports = Vec::new();
    for (actor, direction) in [
        (source, PortDirection::Output),
        (target, PortDirection::Input),
    ] {
        ports.push(
            w.register_component(
                actor,
                ComponentDescriptor {
                    name: format!("port-{direction:?}"),
                    version: 1,
                    ports: vec![PortSpec {
                        name: "pulse".into(),
                        direction,
                        schema: PayloadType::Pulse,
                    }],
                    interfaces: vec![],
                },
            )
            .unwrap()[0],
        );
        w.activate(actor).unwrap();
    }
    w.link(owner, ports[0], ports[1]).unwrap();
    let early = w.publish_port(ports[0], Payload::Pulse(1)).unwrap();
    publications_route_all(&w);
    assert_eq!(
        (
            early.report().unwrap().admitted,
            early.report().unwrap().rejected
        ),
        (0, 1)
    );
    assert_eq!(publications_receive(&w, target), None);
    w.activate(owner).unwrap();
    let ready = w.publish_port(ports[0], Payload::Pulse(2)).unwrap();
    publications_route_all(&w);
    assert_eq!(ready.report().unwrap().admitted, 1);
    assert_eq!(publications_receive(&w, target), Some(2));
    let fenced = w.publish_port(ports[0], Payload::Pulse(3)).unwrap();
    w.stop(owner).unwrap();
    publications_route_all(&w);
    assert_eq!(fenced.report().unwrap().matched, 0);
    assert_eq!(publications_receive(&w, target), None);
    assert!(w.close().native_done);
}

#[test]
fn routing_readiness_wakes_on_ingress_without_world_broadcasts() {
    let w = publications_world();
    let s = publications_actor(&w);
    let (tx, rx) = mpsc::channel();
    let waker = Waker::from(Arc::new(Signal(tx)));
    assert!(
        w.poll_routing_ready(&mut Context::from_waker(&waker))
            .is_pending()
    );
    let t = w.publish(s, Payload::Pulse(1)).unwrap();
    rx.recv_timeout(std::time::Duration::from_secs(1)).unwrap();
    assert!(t.report().is_none());
    publications_route_all(&w);
    assert_eq!(t.report().unwrap().outcome, PublicationOutcome::Routed);
}

#[test]
fn aggregate_snapshot_capacity_is_released_after_partial_routing_finishes() {
    let w = World::new(Config {
        routing_batch_size: 1,
        max_routing_snapshot_entries: 2,
        ..Default::default()
    })
    .unwrap();
    let first = publications_actor(&w);
    let second = publications_actor(&w);
    let a = publications_actor(&w);
    let b = publications_actor(&w);
    for source in [first, second] {
        w.subscribe(source, a).unwrap();
        w.subscribe(source, b).unwrap();
    }
    let held = w.publish(first, Payload::Pulse(1)).unwrap();
    let rejected = w.publish(second, Payload::Pulse(2)).unwrap();
    w.route_batch();
    assert_eq!(w.snapshot().routing_snapshot_entries, 2);
    w.route_batch();
    assert_eq!(rejected.report().unwrap().outcome, PublicationOutcome::SnapshotFull);
    assert_eq!(w.snapshot().routing_snapshot_entries, 2);
    w.route_batch();
    assert_eq!(held.report().unwrap().outcome, PublicationOutcome::Routed);
    assert_eq!(w.snapshot().routing_snapshot_entries, 0);
    let retry = w.publish(second, Payload::Pulse(3)).unwrap();
    publications_route_all(&w);
    assert_eq!(retry.report().unwrap().admitted, 2);
    for target in [a, b] {
        assert_eq!(publications_receive(&w, target), Some(1));
        assert_eq!(publications_receive(&w, target), Some(3));
        assert_eq!(publications_receive(&w, target), None);
    }
}

// Races.

fn races_world() -> (World, ActorRef, ActorRef) {
    let world = World::new(Config {
        max_actors: 2,
        max_operations: 1,
        ..Config::default()
    })
    .unwrap();
    let owner = world.allocate(EndpointKind::Native, None).unwrap();
    let target = world.allocate(EndpointKind::Native, None).unwrap();
    world.activate(owner).unwrap();
    world.activate(target).unwrap();
    (world, owner, target)
}

#[test]
fn late_completion_cannot_cross_actor_and_operation_generation_reuse() {
    for _ in 0..100 {
        let (w, owner, target) = races_world();
        let deadline = later(now(), Duration::from_secs(60));
        let old = w
            .request(owner, target, Payload::Pulse(1), deadline)
            .unwrap();
        w.stop(target).unwrap();
        assert!(matches!(
            w.take_operation(old).unwrap(),
            Some(TerminalOutcome::TargetStopped)
        ));
        let replacement = w.allocate(EndpointKind::Native, None).unwrap();
        w.activate(replacement).unwrap();
        assert_eq!(replacement.slot, target.slot);
        assert_ne!(replacement.generation, target.generation);
        let new = w
            .request(owner, replacement, Payload::Pulse(2), deadline)
            .unwrap();
        assert_eq!(new.slot, old.slot);
        assert_ne!(new.generation, old.generation);
        assert!(
            !w.complete_operation(old, target, Payload::Pulse(99))
                .unwrap()
        );
        assert!(
            !w.complete_operation(old, replacement, Payload::Pulse(99))
                .unwrap()
        );
        assert_eq!(
            w.complete_operation(new, target, Payload::Pulse(99)),
            Err(Error::StaleReference)
        );
        assert!(matches!(
            w.operation_status(new).unwrap(),
            OperationStatus::Pending(_)
        ));
        assert!(
            w.complete_operation(new, replacement, Payload::Pulse(3))
                .unwrap()
        );
        let Some(TerminalOutcome::Completed(result)) = w.take_operation(new).unwrap() else {
            panic!("new request lost")
        };
        assert!(matches!(result.payload(), Payload::Pulse(3)));
        drop(result);
        w.close();
        assert_eq!(w.snapshot().retained_payload_bytes, 0);
    }
}

// Readiness.

fn readiness_actor(
    world: &World,
    kind: EndpointKind,
    parent: Option<ActorRef>,
) -> ActorRef {
    world.allocate(kind, parent).unwrap()
}

fn readiness_active(world: &World, kind: EndpointKind) -> ActorRef {
    let reference = readiness_actor(world, kind, None);
    world.activate(reference).unwrap();
    reference
}

fn readiness_next(
    world: &World,
    phase: PythonReadyPhase,
    after: Option<u64>,
    through: u64,
) -> Option<(u64, ActorRef)> {
    world.python_ready_next(phase, after, through)
}

#[test]
fn start_order_uses_registration_sequence_and_cutoff() {
    let world = World::new(Config::default()).unwrap();
    let first = readiness_actor(&world, EndpointKind::Python, None);
    let second = readiness_actor(&world, EndpointKind::Python, None);
    let native = readiness_actor(&world, EndpointKind::Native, None);
    let cutoff = world.python_ready_cutoff();

    let first_ready = readiness_next(&world, PythonReadyPhase::Start, None, cutoff).unwrap();
    let second_ready = readiness_next(&world, PythonReadyPhase::Start, Some(first_ready.0), cutoff).unwrap();
    assert_eq!(first_ready.1, first);
    assert_eq!(second_ready.1, second);
    assert!(
        readiness_next(
            &world,
            PythonReadyPhase::Start,
            Some(second_ready.0),
            cutoff
        )
        .is_none()
    );
    assert!(readiness_next(&world, PythonReadyPhase::Start, None, cutoff).is_some_and(|(_, r)| r != native));

    world.activate(first).unwrap();
    world.activate(second).unwrap();
    world.stop(first).unwrap();
    world.finish_python(first).unwrap();
    let replacement = readiness_actor(&world, EndpointKind::Python, None);
    assert_eq!(replacement.slot, first.slot);
    assert!(replacement.generation > first.generation);
    let later = world.python_ready_cutoff();
    assert!(
        readiness_next(&world, PythonReadyPhase::Start, Some(cutoff), later)
            .is_some_and(|(_, r)| r == replacement)
    );
}

#[test]
fn delivery_ready_is_cleared_by_claim_and_rearmed_after_finish() {
    let world = World::new(Config::default()).unwrap();
    let target = readiness_active(&world, EndpointKind::Python);
    let source = readiness_active(&world, EndpointKind::Native);
    world.send(target, Payload::Pulse(1)).unwrap();
    let cutoff = world.python_ready_cutoff();
    let ready = readiness_next(&world, PythonReadyPhase::Delivery, None, cutoff).unwrap();
    assert_eq!(ready.1, target);
    let lease = world.claim(target).unwrap().unwrap();
    assert!(readiness_next(&world, PythonReadyPhase::Delivery, None, cutoff).is_none());
    world.send(target, Payload::Pulse(2)).unwrap();
    assert!(readiness_next(&world, PythonReadyPhase::Delivery, None, cutoff).is_none());
    lease.finish(true);
    assert!(
        readiness_next(
            &world,
            PythonReadyPhase::Delivery,
            None,
            world.python_ready_cutoff()
        )
        .is_some_and(|(_, r)| r == target)
    );
    assert_eq!(
        world.claim(target).unwrap().unwrap().payload(),
        &Payload::Pulse(2)
    );
    assert_eq!(world.state(source), Ok(Lifecycle::Active));
}

#[test]
fn business_index_fences_reused_generation() {
    let world = World::new(Config::default()).unwrap();
    let old = readiness_active(&world, EndpointKind::Python);
    world.stop(old).unwrap();
    world.finish_python(old).unwrap();
    let replacement = readiness_active(&world, EndpointKind::Python);
    assert_eq!(old.slot, replacement.slot);
    assert_ne!(old.generation, replacement.generation);
    world.send(replacement, Payload::Pulse(44)).unwrap();
    let ready = readiness_next(&world, PythonReadyPhase::Delivery, None, u64::MAX).unwrap();
    assert_eq!(ready.1, replacement);
    assert_ne!(ready.1, old);
}

#[test]
fn failure_ready_is_coalesced_and_requeued_after_control_claim() {
    let world = World::new(Config::default()).unwrap();
    let supervisor = readiness_active(&world, EndpointKind::Python);
    let child = readiness_actor(&world, EndpointKind::Native, Some(supervisor));
    let second_child = readiness_actor(&world, EndpointKind::Native, Some(supervisor));
    world.activate(child).unwrap();
    world.activate(second_child).unwrap();
    let details = FailureDetails::new(FailurePhase::Handler, "handler", "Error", vec![]);
    world
        .report_failure(
            child,
            Some(1),
            None,
            None,
            details.clone(),
            FailureAction::Continue,
        )
        .unwrap();
    world
        .report_failure(child, Some(2), None, None, details, FailureAction::Continue)
        .unwrap();
    let cutoff = world.python_ready_cutoff();
    assert_eq!(
        readiness_next(&world, PythonReadyPhase::Failure, None, cutoff)
            .unwrap()
            .1,
        supervisor
    );
    let notice = world.claim_failure(supervisor).unwrap().unwrap();
    assert!(readiness_next(&world, PythonReadyPhase::Failure, None, cutoff).is_none());
    world
        .report_failure(
            second_child,
            Some(3),
            None,
            None,
            FailureDetails::new(FailurePhase::Handler, "handler", "Error", vec![]),
            FailureAction::Continue,
        )
        .unwrap();
    notice.finish(None).unwrap();
    assert!(
        readiness_next(
            &world,
            PythonReadyPhase::Failure,
            None,
            world.python_ready_cutoff()
        )
        .is_some_and(|(_, r)| r == supervisor)
    );
}

#[test]
fn stopping_python_actor_exposes_cleanup_until_python_finishes() {
    let world = World::new(Config::default()).unwrap();
    let parent = readiness_actor(&world, EndpointKind::Python, None);
    let child = readiness_actor(&world, EndpointKind::Python, Some(parent));
    world.activate(parent).unwrap();
    world.activate(child).unwrap();
    world.stop(parent).unwrap();
    assert_eq!(world.state(parent), Ok(Lifecycle::Stopping));
    let child_cleanup = readiness_next(&world, PythonReadyPhase::Cleanup, None, u64::MAX).unwrap();
    assert_eq!(child_cleanup.1, child);
    world.finish_python(child).unwrap();
    let parent_cleanup = readiness_next(&world, PythonReadyPhase::Cleanup, None, u64::MAX).unwrap();
    assert_eq!(parent_cleanup.1, parent);
    world.finish_python(parent).unwrap();
    assert!(readiness_next(&world, PythonReadyPhase::Cleanup, None, u64::MAX).is_none());
}

#[test]
fn child_failure_is_staged_until_parent_activation() {
    let world = World::new(Config::default()).unwrap();
    let parent = readiness_actor(&world, EndpointKind::Python, None);
    let child = readiness_actor(&world, EndpointKind::Native, Some(parent));
    world.activate(child).unwrap();
    world
        .report_failure(
            child,
            Some(7),
            None,
            None,
            FailureDetails::new(FailurePhase::Handler, "handler", "Error", vec![]),
            FailureAction::Continue,
        )
        .unwrap();
    let cutoff = world.python_ready_cutoff();
    assert!(readiness_next(&world, PythonReadyPhase::Failure, None, cutoff).is_none());
    world.activate(parent).unwrap();
    assert!(
        readiness_next(&world, PythonReadyPhase::Failure, None, u64::MAX).is_some_and(|(_, r)| r == parent)
    );
}

// Request.

fn request_world() -> World {
    World::new(Config {
        mailbox_capacity: 1,
        mailbox_bytes: 64,
        native_payload_budget: 128,
        max_event_bytes: 32,
        ..Default::default()
    })
    .unwrap()
}

fn request_active(w: &World) -> ActorRef {
    let r = w.allocate(EndpointKind::Native, None).unwrap();
    w.activate(r).unwrap();
    r
}

#[test]
fn request_queuefull_rolls_back_reserved_operation() {
    let w = request_world();
    let owner = request_active(&w);
    let target = request_active(&w);
    w.send(target, Payload::Pulse(0)).unwrap();
    assert_eq!(
        w.request(
            owner,
            target,
            Payload::Pulse(1),
            later(now(), Duration::from_secs(1))
        ),
        Err(Error::QueueFull)
    );
    assert_eq!(w.snapshot().operation_pending, 0);
}

#[test]
fn request_claim_reply_and_take() {
    let w = request_world();
    let owner = request_active(&w);
    let target = request_active(&w);
    let id = w
        .request(
            owner,
            target,
            Payload::Pulse(1),
            later(now(), Duration::from_secs(1)),
        )
        .unwrap();
    let lease = w.claim(target).unwrap().unwrap();
    assert_eq!(lease.operation(), Some(id));
    assert!(
        w.complete_operation(id, target, Payload::CountSnapshot { count: 1, total: 2 })
            .unwrap()
    );
    assert!(matches!(
        w.operation_status(id),
        Ok(OperationStatus::Terminal(TerminalOutcome::Completed(_)))
    ));
    lease.finish(true);
    assert!(matches!(
        w.take_operation(id).unwrap(),
        Some(TerminalOutcome::Completed(_))
    ));
}

#[test]
fn pending_request_keeps_owner_drain_native_report_incomplete() {
    let w = request_world();
    let owner = request_active(&w);
    let target = request_active(&w);
    let deadline = later(now(), Duration::from_secs(60));
    let id = w
        .request(owner, target, Payload::Pulse(1), deadline)
        .unwrap();
    let report = w.request_drain(owner, deadline).unwrap();
    assert!(!report.native_done);
    assert!(w.complete_operation(id, target, Payload::Pulse(2)).unwrap());
    w.maintain(now());
    assert_eq!(w.state(owner).unwrap(), Lifecycle::Stopped);
    assert_eq!(w.snapshot().operation_pending, 0);
    w.stop(target).unwrap();
    assert_eq!(w.snapshot().retained_payload_bytes, 0);
}

#[test]
fn timeout_reply_has_one_terminal_winner() {
    let w = request_world();
    let owner = request_active(&w);
    let target = request_active(&w);
    let id = w
        .request(
            owner,
            target,
            Payload::Pulse(1),
            later(now(), Duration::from_secs(1)),
        )
        .unwrap();
    w.maintain(later(now(), Duration::from_secs(2)));
    assert!(!w.complete_operation(id, target, Payload::Pulse(2)).unwrap());
    assert!(matches!(
        w.take_operation(id).unwrap(),
        Some(TerminalOutcome::TimedOut)
    ));
}

#[test]
fn target_stop_retains_targetstopped_terminal() {
    let w = request_world();
    let owner = request_active(&w);
    let target = request_active(&w);
    let id = w
        .request(
            owner,
            target,
            Payload::Pulse(1),
            later(now(), Duration::from_secs(1)),
        )
        .unwrap();
    w.stop(target).unwrap();
    assert!(matches!(
        w.operation_status(id),
        Ok(OperationStatus::Terminal(TerminalOutcome::TargetStopped))
    ));
    assert!(matches!(
        w.take_operation(id).unwrap(),
        Some(TerminalOutcome::TargetStopped)
    ));
}

#[test]
fn owner_stop_retires_operation_handles() {
    let w = request_world();
    let owner = request_active(&w);
    let target = request_active(&w);
    let id = w
        .request(
            owner,
            target,
            Payload::Pulse(1),
            later(now(), Duration::from_secs(1)),
        )
        .unwrap();
    w.stop(owner).unwrap();
    assert!(matches!(w.operation_status(id), Err(Error::StaleReference)));
    assert_eq!(w.snapshot().operation_pending, 0);
}

#[test]
fn oversized_result_becomes_bounded_failure() {
    let w = request_world();
    let owner = request_active(&w);
    let target = request_active(&w);
    let id = w
        .request(
            owner,
            target,
            Payload::Pulse(1),
            later(now(), Duration::from_secs(1)),
        )
        .unwrap();
    let large = Payload::Record {
        schema: 1,
        integers: vec![0; 100],
    };
    assert!(w.complete_operation(id, target, large).unwrap());
    assert!(matches!(
        w.take_operation(id).unwrap(),
        Some(TerminalOutcome::Failed {
            code: OperationFailure::ResultTooLarge,
            ..
        })
    ));
}

#[test]
fn request_world_boundary_is_rejected() {
    let w = request_world();
    let other = request_world();
    let owner = request_active(&w);
    let target = request_active(&w);
    let foreign = ActorRef {
        world: other.id(),
        ..target
    };
    assert_eq!(
        w.request(owner, foreign, Payload::Pulse(1), now()),
        Err(Error::CrossWorld)
    );
}

// Router shutdown.

struct RouterShutdownProbe {
    world: World,
    signal: mpsc::Sender<&'static str>,
}

impl Wake for RouterShutdownProbe {
    fn wake(self: Arc<Self>) {
        let _ = self.world.snapshot();
        self.signal.send("wake").unwrap();
    }
}

impl Drop for RouterShutdownProbe {
    fn drop(&mut self) {
        let _ = self.world.snapshot();
        let _ = self.signal.send("drop");
    }
}

#[test]
fn draining_world_keeps_router_available_for_owned_completions() {
    let world = World::new(Config::default()).unwrap();
    let source = world.allocate(EndpointKind::Native, None).unwrap();
    world.activate(source).unwrap();
    let task = world.track_task(source).unwrap();
    world.drain_all(later(world.now(), Duration::from_secs(5)));
    let mut cx = Context::from_waker(Waker::noop());
    assert!(world.poll_routing_ready(&mut cx).is_pending());
    let completion = task.publish_completion(source, Payload::Pulse(1)).unwrap();
    assert!(matches!(
        world.poll_routing_ready(&mut cx),
        Poll::Ready(Ok(()))
    ));
    world.route_batch();
    assert!(completion.report().is_some());
    drop(task);
    assert!(world.close().native_done);
    assert!(matches!(
        world.poll_routing_ready(&mut cx),
        Poll::Ready(Err(Error::ActorStopped))
    ));
}

#[test]
fn stop_world_failure_also_terminalizes_routing() {
    let world = World::new(Config::default()).unwrap();
    let source = world.allocate(EndpointKind::Native, None).unwrap();
    world.activate(source).unwrap();
    let mut cx = Context::from_waker(Waker::noop());
    assert!(world.poll_routing_ready(&mut cx).is_pending());
    world
        .report_failure(
            source,
            None,
            None,
            None,
            FailureDetails::new(FailurePhase::Handler, "router-test", "Failed", vec![]),
            FailureAction::StopWorld,
        )
        .unwrap();
    assert!(matches!(
        world.poll_routing_ready(&mut cx),
        Poll::Ready(Err(Error::ActorStopped))
    ));
}

// Routing indexes.

fn routing_indexes_actor(world: &World) -> ActorRef {
    let value = world.allocate(EndpointKind::Native, None).unwrap();
    world.activate(value).unwrap();
    value
}

#[test]
fn source_dispatches_amid_many_unrelated_routes() {
    let world = World::new(Config::default()).unwrap();
    let source = routing_indexes_actor(&world);
    let selected = routing_indexes_actor(&world);
    world.subscribe(source, selected).unwrap();
    let unrelated_source = routing_indexes_actor(&world);
    let mut unrelated_targets = Vec::new();
    for _ in 0..128 {
        let target = routing_indexes_actor(&world);
        world.subscribe(unrelated_source, target).unwrap();
        unrelated_targets.push(target);
    }
    let report = route(&world, world.publish(source, Payload::Pulse(9)).unwrap());
    assert_eq!(report.admitted, 1);
    assert_eq!(report.rejected, 0);
    let lease = world
        .claim(selected)
        .unwrap()
        .expect("selected route delivery");
    assert_eq!(lease.payload(), &Payload::Pulse(9));
    lease.finish(true);
    for target in unrelated_targets {
        assert!(world.claim(target).unwrap().is_none());
    }
}

#[test]
fn stopping_route_endpoints_removes_only_incident_routes() {
    let world = World::new(Config::default()).unwrap();
    let source = routing_indexes_actor(&world);
    let first = routing_indexes_actor(&world);
    let second = routing_indexes_actor(&world);
    let unrelated_source = routing_indexes_actor(&world);
    let unrelated_target = routing_indexes_actor(&world);
    world.subscribe(source, first).unwrap();
    world.subscribe(source, second).unwrap();
    world.subscribe(unrelated_source, unrelated_target).unwrap();
    world.stop(first).unwrap();
    let report = route(&world, world.publish(source, Payload::Pulse(1)).unwrap());
    assert_eq!(report.admitted, 1);
    assert!(world.claim(second).unwrap().is_some());
    let unrelated = route(
        &world,
        world.publish(unrelated_source, Payload::Pulse(2)).unwrap(),
    );
    assert_eq!(unrelated.admitted, 1);
    assert!(world.claim(unrelated_target).unwrap().is_some());
}

#[test]
fn unsubscribe_invalidates_queued_delivery_and_reuses_quota() {
    let config = Config {
        max_subscriptions: 1,
        ..Default::default()
    };
    let world = World::new(config).unwrap();
    let source = routing_indexes_actor(&world);
    let target = routing_indexes_actor(&world);
    let subscription = world.subscribe(source, target).unwrap();
    assert_eq!(
        route(&world, world.publish(source, Payload::Pulse(1)).unwrap()).admitted,
        1
    );
    world.unsubscribe(subscription).unwrap();
    assert!(world.claim(target).unwrap().is_none());
    let replacement = world.subscribe(source, target).unwrap();
    assert_ne!(subscription, replacement);
    assert_eq!(
        route(&world, world.publish(source, Payload::Pulse(2)).unwrap()).admitted,
        1
    );
    assert_eq!(
        world.claim(target).unwrap().unwrap().payload(),
        &Payload::Pulse(2)
    );
}

#[test]
fn repeated_route_mutations_reclaim_capacity_and_close_cleanly() {
    let config = Config {
        max_subscriptions: 2,
        ..Default::default()
    };
    let world = World::new(config).unwrap();
    let source = routing_indexes_actor(&world);
    let first = routing_indexes_actor(&world);
    let second = routing_indexes_actor(&world);
    for _ in 0..50 {
        let one = world.subscribe(source, first).unwrap();
        let two = world.subscribe(source, second).unwrap();
        assert_eq!(world.snapshot().subscriptions, 2);
        world.unsubscribe(one).unwrap();
        world.unsubscribe(two).unwrap();
        assert_eq!(world.snapshot().subscriptions, 0);
    }
    world.close();
    assert_eq!(world.snapshot().subscriptions, 0);
}

#[test]
fn typed_link_owner_stop_fences_only_owned_route() {
    let world = World::new(Config::default()).unwrap();
    let source_one = world.allocate(EndpointKind::Native, None).unwrap();
    let source_two = world.allocate(EndpointKind::Native, None).unwrap();
    let target = world.allocate(EndpointKind::Native, None).unwrap();
    let output = PortSpec {
        name: "out".into(),
        direction: PortDirection::Output,
        schema: PayloadType::Pulse,
    };
    let input = PortSpec {
        name: "in".into(),
        direction: PortDirection::Input,
        schema: PayloadType::Pulse,
    };
    let source_port_one = world
        .register_component(
            source_one,
            ComponentDescriptor {
                name: "S1".into(),
                version: 1,
                ports: vec![output.clone()],
                interfaces: vec![],
            },
        )
        .unwrap()[0];
    let source_port_two = world
        .register_component(
            source_two,
            ComponentDescriptor {
                name: "S2".into(),
                version: 1,
                ports: vec![output],
                interfaces: vec![],
            },
        )
        .unwrap()[0];
    let target_port = world
        .register_component(
            target,
            ComponentDescriptor {
                name: "T".into(),
                version: 1,
                ports: vec![input],
                interfaces: vec![],
            },
        )
        .unwrap()[0];
    world.activate(source_one).unwrap();
    world.activate(source_two).unwrap();
    world.activate(target).unwrap();
    let owner = routing_indexes_actor(&world);
    let _first = world.link(owner, source_port_one, target_port).unwrap();
    let _second = world
        .link(source_two, source_port_two, target_port)
        .unwrap();
    assert_eq!(
        route(
            &world,
            world
                .publish_port(source_port_one, Payload::Pulse(1))
                .unwrap(),
        )
        .admitted,
        1
    );
    world.stop(owner).unwrap();
    let replacement = routing_indexes_actor(&world);
    assert_eq!(replacement.slot, owner.slot);
    assert_ne!(replacement.generation, owner.generation);
    assert!(world.claim(target).unwrap().is_none());
    assert_eq!(world.state(source_one), Ok(Lifecycle::Active));
    assert_eq!(
        route(
            &world,
            world
                .publish_port(source_port_one, Payload::Pulse(3))
                .unwrap(),
        )
        .admitted,
        0
    );
    assert_eq!(
        route(
            &world,
            world
                .publish_port(source_port_two, Payload::Pulse(2))
                .unwrap(),
        )
        .admitted,
        1
    );
    let delivery = world.claim(target).unwrap().expect("unrelated owner route");
    assert_eq!(delivery.payload(), &Payload::Pulse(2));
    delivery.finish(true);
    assert_eq!(world.snapshot().retained_payload_bytes, 0);
}

#[test]
fn consumer_drain_consults_only_its_incoming_producers_and_waits_for_tracked_work() {
    let world = World::new(Config::default()).unwrap();
    let source = routing_indexes_actor(&world);
    let target = routing_indexes_actor(&world);
    let unrelated_source = routing_indexes_actor(&world);
    let unrelated_target = routing_indexes_actor(&world);
    world.subscribe(source, target).unwrap();
    world.subscribe(unrelated_source, unrelated_target).unwrap();
    assert!(!world.upstream_done(target).unwrap());
    let task = world.track_task(source).unwrap();
    world
        .request_drain(source, later(world.now(), Duration::from_secs(10)))
        .unwrap();
    assert!(!world.upstream_done(target).unwrap());
    drop(task);
    assert!(world.upstream_done(target).unwrap());
    assert!(!world.upstream_done(unrelated_target).unwrap());
    world.maintain(world.now());
    assert_eq!(world.state(source), Ok(Lifecycle::Stopped));
    assert!(world.upstream_done(target).unwrap());
    assert_eq!(world.snapshot().subscriptions, 1);
    assert!(world.close().native_done);
}

// Routing model.

#[derive(Clone, Copy)]
struct RoutingModelRoute {
    owner: ActorRef,
    source: ActorRef,
    target: ActorRef,
    port: Option<u16>,
}

fn routing_model_actor(world: &World) -> ActorRef {
    let reference = world.allocate(EndpointKind::Native, None).unwrap();
    world
        .register_component(
            reference,
            ComponentDescriptor {
                name: "tests.Indexed".into(),
                version: 1,
                interfaces: vec![],
                ports: vec![
                    PortSpec {
                        name: "input".into(),
                        direction: PortDirection::Input,
                        schema: PayloadType::Pulse,
                    },
                    PortSpec {
                        name: "first".into(),
                        direction: PortDirection::Output,
                        schema: PayloadType::Pulse,
                    },
                    PortSpec {
                        name: "second".into(),
                        direction: PortDirection::Output,
                        schema: PayloadType::Pulse,
                    },
                ],
            },
        )
        .unwrap();
    world.activate(reference).unwrap();
    reference
}

fn routing_model_random(state: &mut u64) -> usize {
    *state = state
        .wrapping_mul(6364136223846793005)
        .wrapping_add(1442695040888963407);
    (*state >> 16) as usize
}

#[test]
fn route_indexes_match_independent_model_through_bounded_mutations_and_reuse() {
    for seed in [11, 337, 1019] {
        let mut rng = seed;
        let world = World::new(Config {
            max_actors: 12,
            max_subscriptions: 16,
            ..Default::default()
        })
        .unwrap();
        let mut actors: Vec<_> = (0..12).map(|_| routing_model_actor(&world)).collect();
        let mut model = BTreeMap::<u64, RoutingModelRoute>::new();
        for step in 0..3000 {
            let source_index = routing_model_random(&mut rng) % actors.len();
            let source = actors[source_index];
            let target = actors[routing_model_random(&mut rng) % actors.len()];
            let owner = actors[routing_model_random(&mut rng) % actors.len()];
            let port = match routing_model_random(&mut rng) % 3 {
                0 => None,
                index => Some(index as u16),
            };
            match routing_model_random(&mut rng) % 6 {
                0..=2 => {
                    let result = if let Some(index) = port {
                        world.link(
                            owner,
                            PortRef {
                                owner: source,
                                index,
                            },
                            PortRef {
                                owner: target,
                                index: 0,
                            },
                        )
                    } else {
                        world.subscribe(source, target)
                    };
                    let duplicate = model.values().any(|route| {
                        route.source == source
                            && route.target == target
                            && (port.is_none() || route.port == port)
                    });
                    if model.len() == 16 {
                        assert_eq!(result, Err(Error::LimitExceeded));
                    } else if duplicate {
                        assert_eq!(result, Err(Error::DuplicateSubscription));
                    } else {
                        let id = result.unwrap();
                        model.insert(
                            id,
                            RoutingModelRoute {
                                source,
                                target,
                                owner: if port.is_some() { owner } else { source },
                                port,
                            },
                        );
                    }
                }
                3 => {
                    if !model.is_empty() {
                        let id = *model.keys().nth(routing_model_random(&mut rng) % model.len()).unwrap();
                        world.unsubscribe(id).unwrap();
                        model.remove(&id);
                        assert_eq!(world.unsubscribe(id), Err(Error::NotFound));
                    }
                }
                4 => {
                    world.stop(source).unwrap();
                    model.retain(|_, route| {
                        route.source != source && route.target != source && route.owner != source
                    });
                    actors[source_index] = routing_model_actor(&world);
                    assert_eq!(actors[source_index].slot, source.slot);
                    assert_ne!(actors[source_index].generation, source.generation);
                    assert_eq!(
                        world.publish(source, Payload::Pulse(1)),
                        Err(Error::StaleReference)
                    );
                }
                _ => {
                    let expected: Vec<_> = model
                        .values()
                        .filter(|route| route.source == source && route.port == port)
                        .map(|route| route.target)
                        .collect();
                    let ticket = if let Some(index) = port {
                        world.publish_port(
                            PortRef {
                                owner: source,
                                index,
                            },
                            Payload::Pulse(step),
                        )
                    } else {
                        world.publish(source, Payload::Pulse(step))
                    }
                    .unwrap();
                    let report = route(&world, ticket);
                    assert_eq!(report.admitted, expected.len(), "seed={seed} step={step}");
                    assert_eq!(report.rejected, 0);
                    let mut received = Vec::new();
                    for target in &actors {
                        while let Some(delivery) = world.claim(*target).unwrap() {
                            assert_eq!(delivery.payload(), &Payload::Pulse(step));
                            assert_eq!(
                                delivery.envelope().dispatcher,
                                port.map(|index| PortRef {
                                    owner: source,
                                    index
                                })
                            );
                            received.push((delivery.event_id(), *target));
                            delivery.finish(true);
                        }
                    }
                    received.sort_by_key(|(id, _)| *id);
                    assert_eq!(
                        received
                            .into_iter()
                            .map(|(_, target)| target)
                            .collect::<Vec<_>>(),
                        expected,
                        "admission order seed={seed} step={step}"
                    );
                    assert_eq!(world.snapshot().retained_payload_bytes, 0);
                }
            }
            assert_eq!(
                world.snapshot().subscriptions,
                model.len(),
                "seed={seed} step={step}"
            );
            let expected_links: Vec<_> = model
                .iter()
                .filter_map(|(id, route)| route.port.map(|_| *id))
                .collect();
            assert_eq!(
                world
                    .links()
                    .into_iter()
                    .map(|link| link.id)
                    .collect::<Vec<_>>(),
                expected_links
            );
            for target in &actors {
                assert_eq!(
                    world.upstream_done(*target).unwrap(),
                    !model.values().any(|route| route.target == *target),
                    "upstream seed={seed} step={step}"
                );
            }
        }
        assert!(world.close().native_done);
        assert_eq!(world.snapshot().subscriptions, 0);
        assert_eq!(world.snapshot().retained_payload_bytes, 0);
    }
}

// Schema adversarial.

fn schema_adversarial_int_schema(name: &str, version: u32) -> Schema {
    Schema {
        name: name.into(),
        version,
        fields: vec![Field {
            name: "value".into(),
            ty: FieldType::Int {
                min: i64::MIN,
                max: i64::MAX,
            },
        }],
    }
}

fn schema_adversarial_bytes_for_i64(value: i64) -> Vec<u8> {
    value.to_le_bytes().to_vec()
}

#[test]
fn schema_depth_and_node_boundaries_are_enforced() {
    fn nested(depth: usize) -> Schema {
        let mut schema = schema_adversarial_int_schema("leaf", 1);
        for i in 0..depth {
            schema = Schema {
                name: format!("record_{i}"),
                version: 1,
                fields: vec![Field {
                    name: "nested".into(),
                    ty: FieldType::Record(Box::new(schema)),
                }],
            };
        }
        schema
    }
    assert!(nested(15).validate().is_ok());
    assert!(nested(16).validate().is_err());
    assert!(nested(17).validate().is_err());

    fn wide(counts: &[usize]) -> Schema {
        Schema {
            name: "wide".into(),
            version: 1,
            fields: counts
                .iter()
                .enumerate()
                .map(|(branch, count)| Field {
                    name: format!("branch_{branch}"),
                    ty: FieldType::Record(Box::new(Schema {
                        name: format!("branch_{branch}"),
                        version: 1,
                        fields: (0..*count)
                            .map(|i| Field {
                                name: format!("leaf_{branch}_{i}"),
                                ty: FieldType::Bool,
                            })
                            .collect(),
                    })),
                })
                .collect(),
        }
    }
    let exact = wide(&[255, 255, 255, 254]);
    assert!(exact.validate().is_ok());
    let over = Schema {
        fields: wide(&[255, 255, 255, 255]).fields,
        ..exact.clone()
    };
    assert!(over.validate().is_err());
}

#[test]
fn schema_metadata_rejects_duplicate_fields_zero_versions_and_empty_enums() {
    let duplicate = Schema {
        name: "duplicate".into(),
        version: 1,
        fields: vec![
            Field {
                name: "x".into(),
                ty: FieldType::Bool,
            },
            Field {
                name: "x".into(),
                ty: FieldType::Bool,
            },
        ],
    };
    assert!(duplicate.validate().is_err());
    assert!(schema_adversarial_int_schema("zero", 0).validate().is_err());
    let empty_enum = Schema {
        name: "enum".into(),
        version: 1,
        fields: vec![Field {
            name: "kind".into(),
            ty: FieldType::Enum {
                name: "Kind".into(),
                variants: Vec::new(),
            },
        }],
    };
    assert!(empty_enum.validate().is_err());
}

#[test]
fn malformed_structured_values_are_rejected_before_admission() {
    let bool_schema = Schema {
        name: "bool".into(),
        version: 1,
        fields: vec![Field {
            name: "v".into(),
            ty: FieldType::Bool,
        }],
    };
    assert!(bool_schema.decode(&[2]).is_err());

    let option_schema = Schema {
        name: "option".into(),
        version: 1,
        fields: vec![Field {
            name: "v".into(),
            ty: FieldType::Optional(Box::new(FieldType::Bool)),
        }],
    };
    assert!(option_schema.decode(&[2]).is_err());

    let string_schema = Schema {
        name: "string".into(),
        version: 1,
        fields: vec![Field {
            name: "v".into(),
            ty: FieldType::String { max_bytes: 8 },
        }],
    };
    assert!(string_schema.decode(&[2, 0, 0, 0, 0xff, 0xff]).is_err());
    assert!(string_schema.decode(&[0, 0, 0, 0, 1]).is_err());

    let float_schema = Schema {
        name: "float".into(),
        version: 1,
        fields: vec![Field {
            name: "v".into(),
            ty: FieldType::Float {
                allow_non_finite: true,
            },
        }],
    };
    assert!(
        float_schema
            .decode(&0x7ff8_0000_0000_0001u64.to_le_bytes())
            .is_err()
    );
    let finite_schema = Schema {
        fields: vec![Field {
            name: "v".into(),
            ty: FieldType::Float {
                allow_non_finite: false,
            },
        }],
        ..float_schema.clone()
    };
    assert!(
        finite_schema
            .decode(&f64::INFINITY.to_bits().to_le_bytes())
            .is_err()
    );
    assert!(finite_schema.decode(&[1, 2, 3, 4]).is_err());

    let sequence_schema = Schema {
        name: "sequence".into(),
        version: 1,
        fields: vec![Field {
            name: "values".into(),
            ty: FieldType::Sequence {
                item: Box::new(FieldType::Bool),
                max_len: 4096,
            },
        }],
    };
    let mut many = (4094u32).to_le_bytes().to_vec();
    many.extend(std::iter::repeat_n(1u8, 4094));
    assert!(sequence_schema.decode(&many).is_ok());
    let mut too_many_nodes = (4096u32).to_le_bytes().to_vec();
    too_many_nodes.extend(std::iter::repeat_n(1u8, 4096));
    assert!(sequence_schema.decode(&too_many_nodes).is_err());
}

#[test]
fn registry_batch_is_atomic_on_nested_identity_collision() {
    let mut registry = SchemaRegistry::new(4).expect("registry");
    registry.register(schema_adversarial_int_schema("existing", 1)).expect("first");
    let conflicting = Schema {
        name: "outer".into(),
        version: 1,
        fields: vec![Field {
            name: "nested".into(),
            ty: FieldType::Record(Box::new(Schema {
                name: "existing".into(),
                version: 1,
                fields: vec![Field {
                    name: "different".into(),
                    ty: FieldType::Bool,
                }],
            })),
        }],
    };
    assert!(
        registry
            .register_batch(vec![schema_adversarial_int_schema("new", 1), conflicting])
            .is_err()
    );
    assert_eq!(registry.len(), 1);
    assert!(registry.schema(2).is_err());
}

#[test]
fn structured_payload_world_fence_and_retained_bytes_are_bounded() {
    let schema = Schema {
        name: "record".into(),
        version: 1,
        fields: vec![Field {
            name: "v".into(),
            ty: FieldType::Bytes { max_bytes: 64 },
        }],
    };
    let w1 = World::new(Config {
        native_payload_budget: 64,
        ..Config::default()
    })
    .expect("world one");
    let w2 = World::new(Config::default()).expect("world two");
    let id = w1
        .register_schemas(vec![schema])
        .expect("schema registration")[0];
    let payload = w1
        .structured(id, &[3, 0, 0, 0, 1, 2, 3])
        .expect("structured payload");
    let actor = w2.allocate(EndpointKind::Native, None).expect("actor");
    w2.activate(actor).expect("activate");
    let held = w1.hold(payload.clone()).expect("hold");
    assert_eq!(w2.send(actor, payload.clone()), Err(Error::CrossWorld));
    assert_eq!(w2.send_held(actor, held.clone()), Err(Error::CrossWorld));
    assert!(w1.snapshot().retained_payload_bytes > 0);
    drop(payload);
    assert!(w1.snapshot().retained_payload_bytes > 0);
    drop(held);
    assert_eq!(w1.snapshot().retained_payload_bytes, 0);
}

#[test]
fn structured_request_result_releases_budget_and_close_fences_registration() {
    let schema = Schema {
        name: "result".into(),
        version: 1,
        fields: vec![Field {
            name: "v".into(),
            ty: FieldType::Int {
                min: i64::MIN,
                max: i64::MAX,
            },
        }],
    };
    let world = World::new(Config {
        native_payload_budget: 32,
        ..Config::default()
    })
    .expect("world");
    let id = world.register_schemas(vec![schema]).expect("schema")[0];
    let owner = world.allocate(EndpointKind::Native, None).expect("owner");
    let target = world.allocate(EndpointKind::Native, None).expect("target");
    world.activate(owner).expect("owner active");
    world.activate(target).expect("target active");
    let request = world
        .structured(id, &schema_adversarial_bytes_for_i64(4))
        .expect("request payload");
    let operation = world
        .request(
            owner,
            target,
            request,
            later(now(), Duration::from_secs(10)),
        )
        .expect("request");
    let lease = world
        .claim(target)
        .expect("claim")
        .expect("request delivery");
    assert!(
        world
            .complete_operation(
                operation,
                target,
                Payload::Structured(match lease.payload() {
                    Payload::Structured(record) => record.clone(),
                    _ => panic!("expected structured request"),
                },)
            )
            .expect("complete")
    );
    lease.finish(true);
    assert!(world.snapshot().retained_payload_bytes > 0);
    assert!(world.register_schemas(vec![schema_adversarial_int_schema("late", 1)]).is_ok());
    world.close();
    assert_eq!(world.snapshot().retained_payload_bytes, 0);
    assert!(
        world
            .register_schemas(vec![schema_adversarial_int_schema("closed", 1)])
            .is_err()
    );
}

// Service contracts.

fn service_contracts_spec(name: &str, direction: PortDirection, schema: PayloadType) -> PortSpec {
    PortSpec {
        name: name.into(),
        direction,
        schema,
    }
}

fn service_contracts_contract() -> InterfaceSpec {
    InterfaceSpec {
        name: "tests.PublicService".into(),
        version: 1,
        ports: vec![
            service_contracts_spec("request", PortDirection::Input, PayloadType::Pulse),
            service_contracts_spec("update", PortDirection::Output, PayloadType::CountSnapshot),
        ],
    }
}

fn service_contracts_endpoint(world: &World, kind: EndpointKind, parent: Option<ActorRef>) -> ActorRef {
    let target = world.allocate(kind, parent).unwrap();
    let contract = service_contracts_contract();
    let mut ports = contract.ports.clone();
    ports.extend([
        service_contracts_spec(
            "private_request",
            PortDirection::Input,
            PayloadType::CountSnapshot,
        ),
        service_contracts_spec("private_update", PortDirection::Output, PayloadType::Pulse),
    ]);
    world
        .register_component(
            target,
            ComponentDescriptor {
                name: "tests.ServiceEndpoint".into(),
                version: 1,
                ports,
                interfaces: vec![contract],
            },
        )
        .unwrap();
    world.activate(target).unwrap();
    target
}

fn service_contracts_holder(world: &World) -> ActorRef {
    let value = world.allocate(EndpointKind::Native, None).unwrap();
    world.activate(value).unwrap();
    value
}

#[test]
fn lease_exposes_only_published_interface_ports_and_records_exact_envelope() {
    let world = World::new(Config::default()).unwrap();
    let target = service_contracts_endpoint(&world, EndpointKind::Native, None);
    world.register_service("test", target, &service_contracts_contract()).unwrap();
    let owner = service_contracts_holder(&world);
    let lease = world.acquire_service(owner, "test", &service_contracts_contract()).unwrap();
    let deadline = later(world.now(), Duration::from_secs(1));
    assert_eq!(
        world.service_request(
            lease,
            "private_request",
            Payload::CountSnapshot { count: 1, total: 2 },
            deadline,
            MessageOptions::default()
        ),
        Err(Error::InvalidPort)
    );
    assert_eq!(
        world.service_link(
            lease,
            "private_update",
            world.port(target, "request").unwrap()
        ),
        Err(Error::InvalidPort)
    );
    assert_eq!(world.snapshot().retained_payload_bytes, 0);
    assert_eq!(world.snapshot().operation_pending, 0);
    let operation = world
        .service_request(
            lease,
            "request",
            Payload::Pulse(9),
            deadline,
            MessageOptions {
                correlation_id: Some(31),
                ..Default::default()
            },
        )
        .unwrap();
    let delivery = world.claim(target).unwrap().unwrap();
    assert_eq!(delivery.operation(), Some(operation));
    assert_eq!(delivery.envelope().source, Some(lease.scope));
    assert_eq!(
        delivery.envelope().destination_port,
        Some(world.port(target, "request").unwrap())
    );
    assert_eq!(delivery.envelope().deadline, Some(deadline));
    assert_eq!(delivery.envelope().correlation_id, Some(31));
    assert!(
        world
            .complete_operation(operation, target, Payload::Pulse(9))
            .unwrap()
    );
    delivery.finish(true);
    drop(world.take_operation(operation).unwrap());
    assert_eq!(world.snapshot().retained_payload_bytes, 0);
}

#[test]
fn service_registration_rejects_python_child_duplicate_and_invalid_contract() {
    let world = World::new(Config {
        max_services: 1,
        ..Default::default()
    })
    .unwrap();
    let owner = service_contracts_holder(&world);
    let python = service_contracts_endpoint(&world, EndpointKind::Python, None);
    let child = service_contracts_endpoint(&world, EndpointKind::Native, Some(owner));
    for target in [python, child] {
        assert_eq!(
            world.register_service("test", target, &service_contracts_contract()),
            Err(Error::InterfaceMismatch)
        );
    }
    let target = service_contracts_endpoint(&world, EndpointKind::Native, None);
    let mut duplicate = service_contracts_contract();
    duplicate.ports[1] = duplicate.ports[0].clone();
    assert_eq!(
        world.register_service("test", target, &duplicate),
        Err(Error::InterfaceMismatch)
    );
    assert_eq!(
        world.register_service("", target, &service_contracts_contract()),
        Err(Error::InvalidConfig)
    );
    assert!(world.services().is_empty());
    world.register_service("test", target, &service_contracts_contract()).unwrap();
    assert_eq!(
        world.register_service("alias", target, &service_contracts_contract()),
        Err(Error::InvalidConfig)
    );
    let other = service_contracts_endpoint(&world, EndpointKind::Native, None);
    assert_eq!(
        world.register_service("test", other, &service_contracts_contract()),
        Err(Error::InvalidConfig)
    );
    assert_eq!(
        world.register_service("other", other, &service_contracts_contract()),
        Err(Error::LimitExceeded)
    );
    assert_eq!(world.state(other), Ok(Lifecycle::Active));
    world.close();
    world.finish_python(python).unwrap();
    assert!(world.services().is_empty());
}

#[test]
fn identity_checked_acquire_and_forged_leases_cannot_mutate_replacement() {
    let world = World::new(Config::default()).unwrap();
    let owner = service_contracts_holder(&world);
    let first = service_contracts_endpoint(&world, EndpointKind::Native, None);
    world.register_service("test", first, &service_contracts_contract()).unwrap();
    world.stop(first).unwrap();
    let replacement = service_contracts_endpoint(&world, EndpointKind::Native, None);
    assert_eq!(replacement.slot, first.slot);
    assert_ne!(replacement.generation, first.generation);
    world
        .register_service("test", replacement, &service_contracts_contract())
        .unwrap();
    assert_eq!(
        world.acquire_service_from(owner, "test", &service_contracts_contract(), first),
        Err(Error::StaleReference)
    );
    assert!(world.service_leases().is_empty());
    let lease = world
        .acquire_service_from(owner, "test", &service_contracts_contract(), replacement)
        .unwrap();
    let forged = ServiceLease {
        owner: replacement,
        ..lease
    };
    assert_eq!(world.release_service(forged), Err(Error::StaleReference));
    assert_eq!(
        world.service_request(
            forged,
            "request",
            Payload::Pulse(1),
            later(world.now(), Duration::from_secs(1)),
            MessageOptions::default()
        ),
        Err(Error::StaleReference)
    );
    let other_world = World::new(Config::default()).unwrap();
    assert_eq!(other_world.release_service(lease), Err(Error::CrossWorld));
    assert_eq!(world.service_leases(), vec![lease]);
    assert!(world.release_service(lease).unwrap());
}

#[test]
fn reordered_interface_matches_and_duplicate_requirement_does_not_consume_scope() {
    let world = World::new(Config::default()).unwrap();
    let target = service_contracts_endpoint(&world, EndpointKind::Native, None);
    let owner = service_contracts_holder(&world);
    world.register_service("test", target, &service_contracts_contract()).unwrap();
    let mut reversed = service_contracts_contract();
    reversed.ports.reverse();
    let lease = world.acquire_service(owner, "test", &reversed).unwrap();
    assert!(world.release_service(lease).unwrap());
    let mut duplicate = service_contracts_contract();
    duplicate.ports[1] = duplicate.ports[0].clone();
    let before = world.snapshot().actors.len();
    assert_eq!(
        world.acquire_service(owner, "test", &duplicate),
        Err(Error::InterfaceMismatch)
    );
    assert_eq!(world.snapshot().actors.len(), before);
    assert!(world.service_leases().is_empty());
}

#[test]
fn service_leasing_itself_and_other_service_cannot_form_shutdown_ownership_cycle() {
    let world = World::new(Config::default()).unwrap();
    let first = service_contracts_endpoint(&world, EndpointKind::Native, None);
    let second = service_contracts_endpoint(&world, EndpointKind::Native, None);
    world.register_service("first", first, &service_contracts_contract()).unwrap();
    world
        .register_service("second", second, &service_contracts_contract())
        .unwrap();
    world.acquire_service(first, "first", &service_contracts_contract()).unwrap();
    world.acquire_service(first, "second", &service_contracts_contract()).unwrap();
    world.acquire_service(second, "first", &service_contracts_contract()).unwrap();
    world.stop(first).unwrap();
    assert!(world.service_leases().is_empty());
    assert_eq!(world.services().len(), 1);
    assert_eq!(world.state(second), Ok(Lifecycle::Active));
    let report = world.close();
    assert!(report.native_done && !report.timed_out);
    assert!(world.services().is_empty());
}

#[test]
fn stopping_holder_cancels_claimed_request_but_service_task_remains_accounted() {
    let world = World::new(Config::default()).unwrap();
    let target = service_contracts_endpoint(&world, EndpointKind::Native, None);
    world.register_service("test", target, &service_contracts_contract()).unwrap();
    let owner = service_contracts_holder(&world);
    let lease = world.acquire_service(owner, "test", &service_contracts_contract()).unwrap();
    let operation = world
        .service_request(
            lease,
            "request",
            Payload::Pulse(1),
            later(world.now(), Duration::from_secs(1)),
            MessageOptions::default(),
        )
        .unwrap();
    let delivery = world.claim(target).unwrap().unwrap();
    let task = world.track_task(target).unwrap();
    assert!(world.stop(owner).unwrap().native_done);
    assert!(
        !world
            .complete_operation(operation, target, Payload::Pulse(2))
            .unwrap()
    );
    let report = world.close();
    assert!(!report.native_done);
    assert!(world.snapshot().retained_payload_bytes > 0);
    delivery.finish(false);
    drop(task);
    assert!(world.close().native_done);
    assert_eq!(world.snapshot().retained_payload_bytes, 0);
}

// Services.

fn services_port(name: &str, direction: PortDirection, schema: PayloadType) -> PortSpec {
    PortSpec {
        name: name.into(),
        direction,
        schema,
    }
}

fn services_contract() -> InterfaceSpec {
    InterfaceSpec {
        name: "test.Service".into(),
        version: 1,
        ports: vec![
            services_port("requests", PortDirection::Input, PayloadType::Pulse),
            services_port("events", PortDirection::Output, PayloadType::Pulse),
        ],
    }
}

fn services_install(world: &World) -> (ActorRef, InterfaceSpec) {
    let service = world.allocate(EndpointKind::Native, None).unwrap();
    let contract = services_contract();
    world
        .register_component(
            service,
            ComponentDescriptor {
                name: "TestService".into(),
                version: 1,
                ports: contract.ports.clone(),
                interfaces: vec![contract.clone()],
            },
        )
        .unwrap();
    world.activate(service).unwrap();
    world.register_service("test", service, &contract).unwrap();
    (service, contract)
}

fn services_actor(world: &World, parent: Option<ActorRef>) -> ActorRef {
    let value = world.allocate(EndpointKind::Native, parent).unwrap();
    world.activate(value).unwrap();
    value
}

#[test]
fn service_requires_exact_native_contract_and_routes_requests_by_port() {
    let world = World::new(Config::default()).unwrap();
    let (service, contract) = services_install(&world);
    let holder = services_actor(&world, None);
    let lease = world.acquire_service(holder, "test", &contract).unwrap();
    assert_eq!(lease.owner, holder);
    assert_eq!(lease.service, service);
    assert_eq!(world.services()[0].leases, 1);
    assert_eq!(world.service_leases().len(), 1);

    let wrong = InterfaceSpec {
        version: 2,
        ..contract.clone()
    };
    assert_eq!(
        world.acquire_service(holder, "test", &wrong),
        Err(Error::InterfaceMismatch)
    );
    assert_eq!(
        world.service_request(
            lease,
            "events",
            Payload::Pulse(1),
            later(world.now(), Duration::from_secs(1)),
            MessageOptions::default()
        ),
        Err(Error::InvalidPort)
    );
    let operation = world
        .service_request(
            lease,
            "requests",
            Payload::Pulse(1),
            later(world.now(), Duration::from_secs(1)),
            MessageOptions::default(),
        )
        .unwrap();
    assert!(matches!(
        world.operation_status(operation),
        Ok(OperationStatus::Pending(_))
    ));
    assert_eq!(world.release_service(lease), Ok(true));
    assert_eq!(world.release_service(lease), Ok(false));
    assert_eq!(
        world.service_request(
            lease,
            "requests",
            Payload::Pulse(2),
            later(world.now(), Duration::from_secs(1)),
            MessageOptions::default()
        ),
        Err(Error::StaleReference)
    );
}

#[test]
fn lease_and_service_bounds_roll_back_and_reuse_capacity() {
    let config = Config {
        max_leases_per_actor: 1,
        max_service_leases: 2,
        ..Default::default()
    };
    let world = World::new(config).unwrap();
    let (_service, contract) = services_install(&world);
    let holder = services_actor(&world, None);
    let first = world.acquire_service(holder, "test", &contract).unwrap();
    assert_eq!(
        world.acquire_service(holder, "test", &contract),
        Err(Error::LimitExceeded)
    );
    assert_eq!(world.release_service(first), Ok(true));
    let second = world.acquire_service(holder, "test", &contract).unwrap();
    assert_ne!(first.scope, second.scope);
    assert_eq!(world.service_leases().len(), 1);
    assert_eq!(world.release_service(second), Ok(true));
    assert_eq!(world.service_leases().len(), 0);
}

#[test]
fn stopping_service_revokes_cross_tree_leases_but_preserves_holders() {
    let world = World::new(Config::default()).unwrap();
    let (service, contract) = services_install(&world);
    let holder_one = services_actor(&world, None);
    let holder_two = services_actor(&world, None);
    let first = world
        .acquire_service(holder_one, "test", &contract)
        .unwrap();
    let second = world
        .acquire_service(holder_two, "test", &contract)
        .unwrap();
    assert_eq!(world.service_leases().len(), 2);
    world.stop(service).unwrap();
    assert!(matches!(world.state(holder_one), Ok(Lifecycle::Active)));
    assert!(matches!(world.state(holder_two), Ok(Lifecycle::Active)));
    assert!(world.service_leases().is_empty());
    assert_eq!(world.release_service(first), Ok(false));
    assert_eq!(world.release_service(second), Ok(false));
    assert_eq!(
        world.acquire_service(holder_one, "test", &contract),
        Err(Error::NotFound)
    );
}

#[test]
fn lease_link_is_removed_when_scope_is_released() {
    let world = World::new(Config::default()).unwrap();
    let (service, contract) = services_install(&world);
    let holder = services_actor(&world, None);
    let target = world.allocate(EndpointKind::Native, None).unwrap();
    let target_port = world
        .register_component(
            target,
            ComponentDescriptor {
                name: "Target".into(),
                version: 1,
                ports: vec![services_port("input", PortDirection::Input, PayloadType::Pulse)],
                interfaces: vec![],
            },
        )
        .unwrap()[0];
    world.activate(target).unwrap();
    let lease = world.acquire_service(holder, "test", &contract).unwrap();
    let link = world.service_link(lease, "events", target_port).unwrap();
    assert!(link > 0);
    assert_eq!(world.release_service(lease), Ok(true));
    let report = route(&world, world.publish(service, Payload::Pulse(4)).unwrap());
    assert_eq!(report.admitted, 0);
    assert_eq!(report.rejected, 0);
}

#[test]
fn global_lease_cap_spans_multiple_services_and_rolls_back_holder_quota() {
    let config = Config {
        max_service_leases: 2,
        max_leases_per_actor: 2,
        ..Default::default()
    };
    let world = World::new(config).unwrap();
    let (first_service, contract) = services_install(&world);
    let second_service = world.allocate(EndpointKind::Native, None).unwrap();
    world
        .register_component(
            second_service,
            ComponentDescriptor {
                name: "SecondService".into(),
                version: 1,
                ports: contract.ports.clone(),
                interfaces: vec![contract.clone()],
            },
        )
        .unwrap();
    world.activate(second_service).unwrap();
    world
        .register_service("second", second_service, &contract)
        .unwrap();
    let holder_one = services_actor(&world, None);
    let holder_two = services_actor(&world, None);
    let _first = world
        .acquire_service(holder_one, "test", &contract)
        .unwrap();
    let _second = world
        .acquire_service(holder_two, "second", &contract)
        .unwrap();
    assert_eq!(
        world.acquire_service(holder_one, "second", &contract),
        Err(Error::LimitExceeded)
    );
    assert_eq!(world.service_leases().len(), 2);
    assert!(matches!(world.state(first_service), Ok(Lifecycle::Active)));
}

#[test]
fn holder_drain_preserves_admitted_request_but_rejects_new_work() {
    let world = World::new(Config::default()).unwrap();
    let (service, contract) = services_install(&world);
    let holder = services_actor(&world, None);
    let other = services_actor(&world, None);
    let lease = world.acquire_service(holder, "test", &contract).unwrap();
    let admitted = world
        .service_request(
            lease,
            "requests",
            Payload::Pulse(1),
            later(world.now(), Duration::from_secs(1)),
            MessageOptions::default(),
        )
        .unwrap();
    let report = world
        .request_drain(holder, later(world.now(), Duration::from_secs(1)))
        .unwrap();
    assert!(!report.timed_out);
    assert!(matches!(
        world.service_request(
            lease,
            "requests",
            Payload::Pulse(2),
            later(world.now(), Duration::from_secs(1)),
            MessageOptions::default()
        ),
        Err(Error::ActorStopped) | Err(Error::StaleReference)
    ));
    assert!(matches!(
        world.service_link(
            lease,
            "events",
            PortRef {
                owner: service,
                index: 0
            }
        ),
        Err(Error::ActorStopped) | Err(Error::StaleReference)
    ));
    let delivery = world
        .claim(service)
        .unwrap()
        .expect("admitted service request");
    assert_eq!(delivery.operation(), Some(admitted));
    assert!(
        world
            .complete_operation(admitted, service, Payload::Pulse(3))
            .unwrap()
    );
    delivery.finish(true);
    assert!(matches!(
        world.take_operation(admitted).unwrap(),
        Some(TerminalOutcome::Completed(_))
    ));
    world.maintain(world.now());
    assert!(matches!(world.state(holder), Ok(Lifecycle::Stopped)));
    assert!(matches!(
        world.state(lease.scope),
        Err(Error::StaleReference) | Ok(Lifecycle::Stopped)
    ));
    assert!(matches!(world.state(service), Ok(Lifecycle::Active)));
    assert!(matches!(world.state(other), Ok(Lifecycle::Active)));
}

#[test]
fn service_drain_rejects_new_leases_and_retires_after_admitted_completion() {
    let world = World::new(Config::default()).unwrap();
    let (service, contract) = services_install(&world);
    let holder = services_actor(&world, None);
    let lease = world.acquire_service(holder, "test", &contract).unwrap();
    let admitted = world
        .service_request(
            lease,
            "requests",
            Payload::Pulse(1),
            later(world.now(), Duration::from_secs(1)),
            MessageOptions::default(),
        )
        .unwrap();
    let report = world
        .request_drain(service, later(world.now(), Duration::from_secs(1)))
        .unwrap();
    assert!(!report.timed_out);
    assert!(matches!(
        world.acquire_service(holder, "test", &contract),
        Err(Error::ActorStopped) | Err(Error::NotFound)
    ));
    assert_eq!(
        world.service_link(lease, "events", world.port(service, "requests").unwrap()),
        Err(Error::ActorStopped)
    );
    assert!(matches!(
        world.service_request(
            lease,
            "requests",
            Payload::Pulse(2),
            later(world.now(), Duration::from_secs(1)),
            MessageOptions::default()
        ),
        Err(Error::ActorStopped) | Err(Error::StaleReference)
    ));
    let delivery = world
        .claim(service)
        .unwrap()
        .expect("admitted request during service drain");
    assert!(
        world
            .complete_operation(admitted, service, Payload::Pulse(4))
            .unwrap()
    );
    delivery.finish(true);
    assert!(matches!(
        world.take_operation(admitted).unwrap(),
        Some(TerminalOutcome::Completed(_))
    ));
    world.maintain(world.now());
    assert_eq!(world.state(service), Ok(Lifecycle::Stopped));
    assert!(!world.stop(service).unwrap().timed_out);
    assert!(world.service_leases().is_empty());
    assert!(matches!(world.state(holder), Ok(Lifecycle::Active)));
}

#[test]
fn released_scope_generation_cannot_be_used_after_slot_reuse() {
    let world = World::new(Config::default()).unwrap();
    let (service, contract) = services_install(&world);
    let holder = services_actor(&world, None);
    let old = world.acquire_service(holder, "test", &contract).unwrap();
    assert_eq!(world.release_service(old), Ok(true));
    let replacement = world.acquire_service(holder, "test", &contract).unwrap();
    assert_ne!(old.scope, replacement.scope);
    assert_eq!(
        world.service_request(
            old,
            "requests",
            Payload::Pulse(1),
            later(world.now(), Duration::from_secs(1)),
            MessageOptions::default()
        ),
        Err(Error::StaleReference)
    );
    let old_operation = world.request(
        old.scope,
        service,
        Payload::Pulse(2),
        later(world.now(), Duration::from_secs(1)),
    );
    assert!(matches!(old_operation, Err(Error::StaleReference)));
    assert_eq!(world.release_service(replacement), Ok(true));
}

#[test]
fn actor_capacity_failure_does_not_leave_a_lease_record() {
    let config = Config {
        max_actors: 3,
        ..Default::default()
    };
    let world = World::new(config).unwrap();
    let (_service, contract) = services_install(&world);
    let holder = services_actor(&world, None);
    let blocker = services_actor(&world, None);
    assert_eq!(
        world.acquire_service(holder, "test", &contract),
        Err(Error::LimitExceeded)
    );
    assert!(world.service_leases().is_empty());
    // Free the blocker slot and prove the failed admission left the registry
    // and actor allocator reusable.
    world.stop(blocker).unwrap();
    let lease = world.acquire_service(holder, "test", &contract).unwrap();
    assert_eq!(world.service_leases().len(), 1);
    assert_eq!(world.release_service(lease), Ok(true));
}

// Shutdown reports.

fn shutdown_reports_details() -> FailureDetails {
    FailureDetails::new(
        FailurePhase::Handler,
        "test_handler",
        "TestError",
        Vec::new(),
    )
}

fn shutdown_reports_active(
    world: &World,
    kind: EndpointKind,
    parent: Option<ActorRef>,
) -> ActorRef {
    let reference = world.allocate(kind, parent).expect("allocation");
    world.activate(reference).expect("activation");
    reference
}

#[test]
fn scope_counts_pending_edges_once_and_separates_retained_owner_results() {
    let world = World::new(Config::default()).expect("world");
    let scope = shutdown_reports_active(&world, EndpointKind::Native, None);
    let child = shutdown_reports_active(&world, EndpointKind::Native, Some(scope));
    let external = shutdown_reports_active(&world, EndpointKind::Native, None);

    let incoming = world
        .request(
            external,
            child,
            Payload::Pulse(1),
            later(now(), Duration::from_secs(10)),
        )
        .expect("external request");
    let outgoing = world
        .request(
            scope,
            external,
            Payload::Pulse(2),
            later(now(), Duration::from_secs(10)),
        )
        .expect("scoped request");
    let internal = world
        .request(
            scope,
            child,
            Payload::Pulse(4),
            later(now(), Duration::from_secs(10)),
        )
        .unwrap();
    let report = world.stop_report(scope).expect("scope report");
    assert_eq!(report.outstanding_operations, 3);
    assert_eq!(report.retained_operations, 0);

    assert!(
        world
            .complete_operation(outgoing, external, Payload::Pulse(3))
            .expect("reply")
    );
    let report = world.stop_report(scope).expect("scope report after reply");
    assert_eq!(report.outstanding_operations, 2);
    assert_eq!(report.retained_operations, 1);
    assert!(world.cancel_operation(incoming).expect("cancel incoming"));
    assert!(world.cancel_operation(internal).unwrap());
}

#[test]
fn report_separates_delivery_control_task_and_python_cleanup_counts() {
    let world = World::new(Config::default()).expect("world");
    let parent = shutdown_reports_active(&world, EndpointKind::Native, None);
    let child = shutdown_reports_active(&world, EndpointKind::Python, Some(parent));
    let task = world.track_task(parent).expect("native task");
    world
        .send(child, Payload::Pulse(1))
        .expect("business delivery");
    let delivery = world.claim(child).expect("claim").expect("delivery");
    world
        .report_failure(child, None, None, None, shutdown_reports_details(), FailureAction::Continue)
        .expect("failure notification");
    let control = world
        .claim_failure(parent)
        .expect("control claim")
        .expect("notification");

    let report = world.stop_report(parent).expect("scope report");
    assert_eq!(report.delivery_in_flight, 1);
    assert_eq!(report.control_in_flight, 1);
    assert_eq!(report.native_tasks, 1);
    assert_eq!(report.python_pending, 1);
    assert_eq!(report.in_flight, 3);

    delivery.finish(true);
    control.finish(None).expect("finish control");
    drop(task);
    world.finish_python(child).expect("python cleanup");
    let report = world.stop_report(parent).expect("clean report");
    assert_eq!(report.delivery_in_flight, 0);
    assert_eq!(report.control_in_flight, 0);
    assert_eq!(report.native_tasks, 0);
    assert_eq!(report.python_pending, 0);
}

#[test]
fn retired_child_errors_persist_without_contaminating_replacement_scope() {
    let config = Config {
        diagnostic_capacity: 0,
        ..Config::default()
    };
    let world = World::new(config).expect("world");
    let parent = shutdown_reports_active(&world, EndpointKind::Native, None);
    let child = shutdown_reports_active(&world, EndpointKind::Native, Some(parent));
    world
        .report_failure(
            child,
            Some(7),
            None,
            None,
            shutdown_reports_details(),
            FailureAction::Continue,
        )
        .expect("failure");
    let control = world
        .claim_failure(parent)
        .expect("claim")
        .expect("notification");
    control.finish(None).expect("acknowledge");
    world.stop(child).expect("retire child");
    let replacement = shutdown_reports_active(&world, EndpointKind::Native, Some(parent));

    let parent_report = world.stop_report(parent).expect("parent report");
    assert_eq!(parent_report.errors, 1);
    assert_eq!(
        parent_report
            .last_error
            .as_ref()
            .expect("last error")
            .sequence,
        1
    );
    let replacement_report = world.stop_report(replacement).expect("replacement report");
    assert_eq!(replacement_report.errors, 0);
    assert!(replacement_report.last_error.is_none());
}

#[test]
fn world_errors_survive_root_retirement_and_root_slot_reuse() {
    let world = World::new(Config::default()).expect("world");
    let root = shutdown_reports_active(&world, EndpointKind::Native, None);
    world
        .report_failure(root, None, None, None, shutdown_reports_details(), FailureAction::Continue)
        .expect("root failure");
    world.stop(root).expect("retire root");
    let replacement = shutdown_reports_active(&world, EndpointKind::Native, None);
    let report = world.shutdown_report();
    assert_eq!(report.errors, 1);
    assert_eq!(
        report.last_error.as_ref().expect("world last error").actor,
        root
    );
    let replacement_report = world.stop_report(replacement).expect("replacement report");
    assert_eq!(replacement_report.errors, 0);
    assert!(replacement_report.last_error.is_none());
}

// Supervision.

fn supervision_pair(config: Config) -> (World, ActorRef, ActorRef) {
    let world = World::new(config).expect("valid config");
    let parent = world
        .allocate(EndpointKind::Native, None)
        .expect("parent allocation");
    world.activate(parent).expect("parent activation");
    let child = world
        .allocate(EndpointKind::Native, Some(parent))
        .expect("child allocation");
    world.activate(child).expect("child activation");
    (world, parent, child)
}

fn supervision_failure() -> FailureDetails {
    FailureDetails::new(FailurePhase::Handler, "handler", "Error", Vec::new())
}

#[test]
fn notifications_have_an_independent_bounded_control_slot_and_coalesce() {
    let config = Config {
        mailbox_capacity: 1,
        ..Config::default()
    };
    let (world, parent, child) = supervision_pair(config);
    world
        .send(parent, Payload::Pulse(0))
        .expect("fill business mailbox");

    world
        .report_failure(
            child,
            Some(7),
            None,
            None,
            supervision_failure(),
            FailureAction::Continue,
        )
        .expect("first failure report");
    world
        .report_failure(
            child,
            Some(8),
            None,
            None,
            supervision_failure(),
            FailureAction::Continue,
        )
        .expect("second failure report");
    assert_eq!(world.send(parent, Payload::Pulse(1)), Err(Error::QueueFull));

    let lease = world
        .claim_failure(parent)
        .expect("control claim")
        .expect("coalesced notification");
    assert_eq!(lease.coalesced(), 1);
    assert_eq!(lease.failure().actor, child);
    assert!(
        world
            .claim(parent)
            .expect("business claim while control lease")
            .is_none()
    );
    lease.finish(None).expect("finish control lease");
    assert!(
        !world
            .snapshot()
            .actors
            .iter()
            .find(|a| a.reference == parent)
            .unwrap()
            .control_in_flight
    );
}

#[test]
fn failure_operation_attribution_rejects_unrelated_pending_operation_atomically() {
    let (world, _owner, child) = supervision_pair(Config::default());
    let unrelated = world.allocate(EndpointKind::Native, None).unwrap();
    world.activate(unrelated).unwrap();
    let target = world.allocate(EndpointKind::Native, None).unwrap();
    world.activate(target).unwrap();
    let operation = world
        .request(
            unrelated,
            target,
            Payload::Pulse(1),
            later(now(), Duration::from_secs(1)),
        )
        .unwrap();
    assert_eq!(
        world.report_failure(
            child,
            None,
            None,
            Some(operation),
            supervision_failure(),
            FailureAction::StopWorld
        ),
        Err(Error::InvalidConfig)
    );
    assert!(matches!(
        world.operation_status(operation),
        Ok(OperationStatus::Pending(_))
    ));
    assert_eq!(world.state(child).unwrap(), Lifecycle::Active);
    assert_eq!(world.snapshot().metrics.failures, 0);
    assert!(world.diagnostics(0, 16).unwrap().entries.is_empty());
}

#[test]
fn failure_operation_attribution_accepts_owned_descendant() {
    let (world, parent, child) = supervision_pair(Config::default());
    let target = world.allocate(EndpointKind::Native, Some(child)).unwrap();
    world.activate(target).unwrap();
    let operation = world
        .request(
            parent,
            target,
            Payload::Pulse(1),
            later(now(), Duration::from_secs(1)),
        )
        .unwrap();
    assert!(
        world
            .report_failure(
                child,
                None,
                None,
                Some(operation),
                supervision_failure(),
                FailureAction::Continue
            )
            .is_ok()
    );
    assert!(matches!(
        world.operation_status(operation).unwrap(),
        OperationStatus::Terminal(TerminalOutcome::Failed {
            code: OperationFailure::HandlerFailed,
            ..
        })
    ));
}

#[test]
fn late_failure_for_reused_operation_stops_its_source_without_touching_replacement() {
    let (world, parent, child) = supervision_pair(Config {
        max_operations: 1,
        ..Config::default()
    });
    let other = world.allocate(EndpointKind::Native, None).unwrap();
    world.activate(other).unwrap();
    let deadline = later(now(), Duration::from_secs(10));
    let old = world
        .request(parent, child, Payload::Pulse(1), deadline)
        .unwrap();
    assert!(world.cancel_operation(old).unwrap());
    assert!(world.take_operation(old).unwrap().is_some());
    let replacement = world
        .request(parent, other, Payload::Pulse(2), deadline)
        .unwrap();
    assert_eq!(old.slot, replacement.slot);
    assert_ne!(old.generation, replacement.generation);
    let record = world
        .report_failure(
            child,
            None,
            None,
            Some(old),
            supervision_failure(),
            FailureAction::StopActor,
        )
        .unwrap();
    assert_eq!(record.operation, Some(old));
    assert_eq!(world.state(child).unwrap(), Lifecycle::Stopping);
    assert!(matches!(
        world.operation_status(replacement).unwrap(),
        OperationStatus::Pending(_)
    ));
    world
        .claim_failure(parent)
        .unwrap()
        .unwrap()
        .finish(None)
        .unwrap();
    assert_eq!(world.state(child).unwrap(), Lifecycle::Stopped);
}

#[test]
fn stopped_source_waits_for_parent_claim_before_slot_reuse() {
    let config = Config {
        max_actors: 2,
        ..Config::default()
    };
    let (world, parent, child) = supervision_pair(config);
    world
        .report_failure(child, None, None, None, supervision_failure(), FailureAction::Continue)
        .expect("failure report");
    world.stop(child).expect("stop source");
    assert_eq!(world.state(child), Ok(Lifecycle::Stopping));
    assert_eq!(
        world.allocate(EndpointKind::Native, Some(parent)),
        Err(Error::LimitExceeded)
    );

    let lease = world
        .claim_failure(parent)
        .expect("claim source failure")
        .expect("pending failure");
    lease.finish(None).expect("acknowledge source failure");
    assert_eq!(world.state(child), Ok(Lifecycle::Stopped));
    let replacement = world
        .allocate(EndpointKind::Native, Some(parent))
        .expect("reclaim source slot");
    assert_ne!(replacement.generation, child.generation);
}

#[test]
fn failure_stop_action_cannot_stop_a_replacement_generation() {
    let (world, parent, child) = supervision_pair(Config::default());
    world
        .report_failure(child, None, None, None, supervision_failure(), FailureAction::Continue)
        .expect("failure report");
    let lease = world
        .claim_failure(parent)
        .expect("claim")
        .expect("notification");
    world.stop(child).expect("stop source");
    let replacement = world
        .allocate(EndpointKind::Native, Some(parent))
        .expect("replacement");
    lease
        .finish(Some(FailureAction::StopActor))
        .expect("stale stop action is harmless");
    assert_eq!(world.state(replacement), Ok(Lifecycle::Starting));
}

#[test]
fn business_claim_blocks_control_claim_and_control_claim_blocks_business_claim() {
    let (world, parent, child) = supervision_pair(Config::default());
    world
        .send(parent, Payload::Pulse(3))
        .expect("business admission");
    let business = world
        .claim(parent)
        .expect("business claim")
        .expect("business lease");
    world
        .report_failure(child, None, None, None, supervision_failure(), FailureAction::Continue)
        .expect("failure report");
    assert!(
        world
            .claim_failure(parent)
            .expect("control claim while business")
            .is_none()
    );
    business.finish(false);

    let control = world
        .claim_failure(parent)
        .expect("control claim")
        .expect("notification");
    assert!(
        world
            .claim(child)
            .expect("business claim while control")
            .is_none()
    );
    control.finish(None).expect("control completion");
}

#[test]
fn failure_records_survive_diagnostic_capacity_zero_and_are_not_duplicated() {
    let config = Config {
        diagnostic_capacity: 0,
        ..Config::default()
    };
    let (world, parent, child) = supervision_pair(config);
    let record = world
        .report_failure(
            child,
            Some(99),
            Some(4),
            None,
            supervision_failure(),
            FailureAction::Continue,
        )
        .expect("failure record");
    assert_eq!(record.actor, child);
    assert_eq!(record.event_id, Some(99));
    assert!(
        world
            .diagnostics(0, 0)
            .expect("diagnostic read")
            .entries
            .is_empty()
    );
    let lease = world
        .claim_failure(parent)
        .expect("claim")
        .expect("notification");
    lease.finish(None).expect("acknowledge");
    assert_eq!(world.snapshot().metrics.failures, 1);
}

#[test]
fn stop_world_failure_closes_all_ingress() {
    let (world, parent, child) = supervision_pair(Config::default());
    world
        .report_failure(child, None, None, None, supervision_failure(), FailureAction::StopWorld)
        .expect("stop-world failure");
    assert_eq!(
        world.allocate(EndpointKind::Native, Some(parent)),
        Err(Error::ActorStopped)
    );
    assert_eq!(
        world.send(parent, Payload::Pulse(1)),
        Err(Error::ActorStopped)
    );
}

#[test]
fn cloned_task_lease_keeps_one_registration_until_last_drop() {
    let (world, parent, child) = supervision_pair(Config::default());
    let task = world.track_task(child).unwrap();
    let continuation = task.clone();
    assert_eq!(
        world
            .snapshot()
            .actors
            .iter()
            .find(|a| a.reference == child)
            .unwrap()
            .native_tasks,
        1
    );
    world.stop(parent).unwrap();
    drop(task);
    assert_eq!(world.state(child).unwrap(), Lifecycle::Stopping);
    assert!(!world.close().native_done);
    drop(continuation);
    assert_eq!(world.state(child).unwrap(), Lifecycle::Stopped);
    assert_eq!(world.state(parent).unwrap(), Lifecycle::Stopped);
    assert!(world.close().native_done);
}

#[test]
fn supervisor_claim_racing_parent_stop_releases_all_control_reservations() {
    for round in 0..100 {
        let (world, parent, child) = supervision_pair(Config {
            max_actors: 2,
            ..Config::default()
        });
        world
            .report_failure(child, None, None, None, supervision_failure(), FailureAction::StopActor)
            .unwrap();
        let claim = if round % 2 == 0 {
            let claim = world.claim_failure(parent).unwrap();
            world.stop(parent).unwrap();
            claim
        } else {
            world.stop(parent).unwrap();
            world.claim_failure(parent).unwrap()
        };
        if let Some(claim) = claim {
            assert!(!world.close().native_done);
            claim.finish(None).unwrap();
        }
        assert!(world.close().native_done);
        assert_eq!(world.state(parent).unwrap(), Lifecycle::Stopped);
        assert_eq!(world.state(child).unwrap(), Lifecycle::Stopped);
        assert!(world
            .snapshot()
            .actors
            .iter()
            .all(|actor| !actor.control_in_flight && !actor.failure_pending));
    }
}

#[test]
fn stopping_parent_discards_unclaimed_child_notifications_and_reclaims_slots() {
    let config = Config {
        max_actors: 2,
        ..Config::default()
    };
    let (world, parent, child) = supervision_pair(config);
    world
        .report_failure(child, None, None, None, supervision_failure(), FailureAction::Continue)
        .expect("failure report");
    world.stop(parent).expect("stop parent");
    assert_eq!(world.state(parent), Ok(Lifecycle::Stopped));
    assert_eq!(world.state(child), Ok(Lifecycle::Stopped));
    world
        .allocate(EndpointKind::Native, None)
        .expect("stopped subtree releases its slots");
}

#[test]
fn close_reports_control_failure_lease_until_it_is_finished() {
    let (world, parent, child) = supervision_pair(Config::default());
    world
        .report_failure(child, None, None, None, supervision_failure(), FailureAction::Continue)
        .expect("failure report");
    let lease = world
        .claim_failure(parent)
        .expect("claim")
        .expect("notification");
    let report = world.close();
    assert!(
        !report.native_done,
        "control lease must keep native cleanup pending"
    );
    drop(lease);
    let report = world.close();
    assert!(
        report.native_done,
        "dropping control lease releases native cleanup"
    );
}

#[test]
fn stopping_source_with_pending_notification_reports_native_not_done() {
    let (world, _parent, child) = supervision_pair(Config::default());
    world
        .report_failure(child, None, None, None, supervision_failure(), FailureAction::Continue)
        .expect("failure report");
    let report = world.stop(child).expect("stop source");
    assert!(
        !report.native_done,
        "pending notification retains source cleanup"
    );
}

// Supervision indexes.

fn supervision_indexes_active(world: &World, parent: Option<ActorRef>) -> ActorRef {
    let actor = world.allocate(EndpointKind::Native, parent).unwrap();
    world.activate(actor).unwrap();
    actor
}

fn supervision_indexes_fail(world: &World, actor: ActorRef, sequence: u32) {
    world
        .report_failure(
            actor,
            Some(u64::from(sequence)),
            None,
            None,
            FailureDetails::new(FailurePhase::Handler, "test", "Failure", vec![]),
            FailureAction::Continue,
        )
        .unwrap();
}

#[test]
fn claim_and_discard_only_walk_supervisor_children() {
    let world = World::new(Config::default()).unwrap();
    let first = supervision_indexes_active(&world, None);
    let second = supervision_indexes_active(&world, None);
    let first_child = supervision_indexes_active(&world, Some(first));
    let second_child = supervision_indexes_active(&world, Some(second));
    supervision_indexes_fail(&world, first_child, 1);
    supervision_indexes_fail(&world, second_child, 2);

    let notice = world.claim_failure(first).unwrap().unwrap();
    assert_eq!(notice.failure().actor, first_child);
    notice.finish(None).unwrap();
    assert!(world.claim_failure(first).unwrap().is_none());
    let notice = world.claim_failure(second).unwrap().unwrap();
    assert_eq!(notice.failure().actor, second_child);
    notice.finish(None).unwrap();
    supervision_indexes_fail(&world, first_child, 3);
    supervision_indexes_fail(&world, second_child, 4);
    world.stop(first).unwrap();
    assert_eq!(world.snapshot().metrics.notifications_discarded, 1);
    let notice = world.claim_failure(second).unwrap().unwrap();
    assert_eq!(notice.failure().actor, second_child);
    notice.finish(None).unwrap();
}

#[test]
fn pending_notification_holds_child_until_claim_and_control_slot_until_finish() {
    let world = World::new(Config::default()).unwrap();
    let parent = supervision_indexes_active(&world, None);
    let child = supervision_indexes_active(&world, Some(parent));
    supervision_indexes_fail(&world, child, 1);
    world.stop(child).unwrap();
    assert!(matches!(world.state(child), Ok(Lifecycle::Stopping)));

    let notice = world.claim_failure(parent).unwrap().unwrap();
    assert_eq!(world.state(child), Ok(Lifecycle::Stopped));
    let report = world.stop_report(parent).unwrap();
    assert_eq!(report.control_in_flight, 1);
    notice.finish(None).unwrap();
    assert_eq!(world.stop_report(parent).unwrap().control_in_flight, 0);
    assert_eq!(world.state(child), Ok(Lifecycle::Stopped));
}

#[test]
fn stopping_parent_discards_old_notice_before_slot_reuse() {
    let world = World::new(Config::default()).unwrap();
    let parent = supervision_indexes_active(&world, None);
    let child = supervision_indexes_active(&world, Some(parent));
    supervision_indexes_fail(&world, child, 1);
    world.stop(parent).unwrap();
    let replacement = supervision_indexes_active(&world, None);
    assert_eq!(replacement.slot, parent.slot);
    assert!(replacement.generation > parent.generation);
    assert!(world.claim_failure(parent).is_err());
}

// Worlds.

fn core_world() -> World {
    World::new(Config {
        mailbox_capacity: 2,
        mailbox_bytes: 64,
        native_payload_budget: 128,
        ..Default::default()
    })
    .unwrap()
}

fn core_active(w: &World, k: EndpointKind) -> ActorRef {
    let r = w.allocate(k, None).unwrap();
    w.activate(r).unwrap();
    r
}

#[test]
fn fifo_and_bounds() {
    let w = core_world();
    let a = core_active(&w, EndpointKind::Native);
    w.send(a, Payload::Pulse(1)).unwrap();
    w.send(a, Payload::Pulse(2)).unwrap();
    assert_eq!(w.send(a, Payload::Pulse(3)), Err(Error::QueueFull));
    let l = w.claim(a).unwrap().unwrap();
    assert_eq!(l.payload(), &Payload::Pulse(1));
    l.finish(true);
}

#[test]
fn startup_rejects_send_but_allows_staged_route() {
    let w = core_world();
    let s = w.allocate(EndpointKind::Native, None).unwrap();
    let t = w.allocate(EndpointKind::Native, None).unwrap();
    assert_eq!(w.send(t, Payload::Pulse(1)), Err(Error::ActorNotReady));
    assert!(w.subscribe(s, t).is_ok());
    w.activate(s).unwrap();
    assert!(w.publish(s, Payload::Pulse(1)).is_ok());
    w.route_batch();
    assert!(w.claim(t).unwrap().is_none());
}

#[test]
fn active_child_waits_for_starting_parent() {
    let w = core_world();
    let parent = w.allocate(EndpointKind::Native, None).unwrap();
    let child = w.allocate(EndpointKind::Native, Some(parent)).unwrap();
    w.activate(child).unwrap();
    assert_eq!(w.execution_state(child), Ok(Lifecycle::Starting));
    assert_eq!(w.send(child, Payload::Pulse(1)), Err(Error::ActorNotReady));
    assert_eq!(
        w.publish(child, Payload::Pulse(1)),
        Err(Error::ActorNotReady)
    );
    w.activate(parent).unwrap();
    assert_eq!(w.execution_state(child), Ok(Lifecycle::Active));
    w.send(child, Payload::Pulse(1)).unwrap();
}

#[test]
fn stopping_endpoints_cannot_add_routes() {
    let w = core_world();
    let s = core_active(&w, EndpointKind::Native);
    let t = core_active(&w, EndpointKind::Native);
    w.stop(s).unwrap();
    assert_eq!(w.subscribe(s, t), Err(Error::ActorStopped));
}

#[test]
fn stale_and_crossworld() {
    let w = core_world();
    let a = w.allocate(EndpointKind::Native, None).unwrap();
    assert_eq!(w.state(ActorRef { world: 99, ..a }), Err(Error::CrossWorld));
    w.activate(a).unwrap();
    w.stop(a).unwrap();
    assert_eq!(w.send(a, Payload::Pulse(1)), Err(Error::ActorStopped));
}

#[test]
fn unsubscribe_fence_and_capacity_reclaimed() {
    let w = World::new(Config {
        max_subscriptions: 1,
        ..Config::default()
    })
    .unwrap();
    let s = core_active(&w, EndpointKind::Native);
    let t = core_active(&w, EndpointKind::Native);
    let id = w.subscribe(s, t).unwrap();
    w.unsubscribe(id).unwrap();
    assert!(w.subscribe(s, t).is_ok());
}

#[test]
fn stop_removes_routes() {
    let w = World::new(Config {
        max_subscriptions: 1,
        ..Config::default()
    })
    .unwrap();
    let s = core_active(&w, EndpointKind::Native);
    let t = core_active(&w, EndpointKind::Native);
    w.subscribe(s, t).unwrap();
    w.stop(s).unwrap();
    let s2 = core_active(&w, EndpointKind::Native);
    assert!(w.subscribe(s2, t).is_ok());
}

#[test]
fn max_actor_slot_reuse_and_close() {
    let w = World::new(Config {
        max_actors: 1,
        ..Config::default()
    })
    .unwrap();
    for _ in 0..8 {
        let a = core_active(&w, EndpointKind::Native);
        w.stop(a).unwrap();
    }
    let a = core_active(&w, EndpointKind::Native);
    w.close();
    assert_eq!(
        w.allocate(EndpointKind::Native, None),
        Err(Error::ActorStopped)
    );
    assert_eq!(w.state(a), Ok(Lifecycle::Stopped));
}

#[test]
fn old_parent_cannot_stop_replacement_child() {
    let w = World::new(Config {
        max_actors: 4,
        ..Config::default()
    })
    .unwrap();
    let old = core_active(&w, EndpointKind::Native);
    let child = w.allocate(EndpointKind::Native, Some(old)).unwrap();
    w.activate(child).unwrap();
    w.stop(child).unwrap();
    let new_parent = core_active(&w, EndpointKind::Native);
    let replacement = w.allocate(EndpointKind::Native, Some(new_parent)).unwrap();
    w.activate(replacement).unwrap();
    w.stop(old).unwrap();
    assert_eq!(w.state(replacement), Ok(Lifecycle::Active));
}

#[test]
fn finalized_children_are_unlinked_and_parent_can_finish() {
    let w = World::new(Config::default()).unwrap();
    let parent = core_active(&w, EndpointKind::Native);
    let other = core_active(&w, EndpointKind::Native);
    for _ in 0..100 {
        let child = w.allocate(EndpointKind::Native, Some(parent)).unwrap();
        w.activate(child).unwrap();
        w.stop(child).unwrap();
        let replacement = w.allocate(EndpointKind::Native, Some(other)).unwrap();
        w.activate(replacement).unwrap();
        w.stop(replacement).unwrap();
    }
    w.stop(parent).unwrap();
    assert_eq!(w.state(parent), Ok(Lifecycle::Stopped));
}

#[test]
fn inflight_blocks_reuse_then_release() {
    let w = World::new(Config {
        max_actors: 1,
        ..Config::default()
    })
    .unwrap();
    let a = core_active(&w, EndpointKind::Native);
    w.send(a, Payload::Pulse(1)).unwrap();
    let lease = w.claim(a).unwrap().unwrap();
    w.stop(a).unwrap();
    assert_eq!(
        w.allocate(EndpointKind::Native, None),
        Err(Error::LimitExceeded)
    );
    lease.finish(true);
    let b = w.allocate(EndpointKind::Native, None).unwrap();
    assert_ne!(a.generation, b.generation);
}

#[test]
fn repeated_finish_python_does_not_duplicate_free() {
    let w = World::new(Config {
        max_actors: 1,
        ..Config::default()
    })
    .unwrap();
    let a = w.allocate(EndpointKind::Python, None).unwrap();
    w.activate(a).unwrap();
    w.stop(a).unwrap();
    w.finish_python(a).unwrap();
    w.finish_python(a).unwrap();
    let b = w.allocate(EndpointKind::Native, None).unwrap();
    assert_eq!(
        w.allocate(EndpointKind::Native, None),
        Err(Error::LimitExceeded)
    );
    assert_ne!(a.generation, b.generation);
}

#[test]
fn fanout_charges_physical_payload_once() {
    let w = core_world();
    let s = core_active(&w, EndpointKind::Native);
    let a = core_active(&w, EndpointKind::Native);
    let b = core_active(&w, EndpointKind::Native);
    w.subscribe(s, a).unwrap();
    w.subscribe(s, b).unwrap();
    w.publish(
        s,
        Payload::Record {
            schema: 1,
            integers: vec![1, 2],
        },
    )
    .unwrap();
    assert_eq!(w.snapshot().retained_payload_bytes, 20);
    w.route_batch();
    let x = w.claim(a).unwrap().unwrap();
    assert_eq!(w.snapshot().retained_payload_bytes, 20);
    x.finish(true);
    assert_eq!(w.snapshot().retained_payload_bytes, 20);
    let y = w.claim(b).unwrap().unwrap();
    y.finish(true);
    assert_eq!(w.snapshot().retained_payload_bytes, 0);
}

#[test]
fn partial_fanout_isolates_full_target() {
    let w = core_world();
    let s = core_active(&w, EndpointKind::Native);
    let full = core_active(&w, EndpointKind::Native);
    let ok = core_active(&w, EndpointKind::Native);
    w.send(full, Payload::Pulse(0)).unwrap();
    w.send(full, Payload::Pulse(0)).unwrap();
    w.subscribe(s, full).unwrap();
    w.subscribe(s, ok).unwrap();
    let r = w.publish(s, Payload::Pulse(1)).unwrap();
    w.route_batch();
    let r = r.report().unwrap();
    assert_eq!(r.admitted, 1);
    assert_eq!(r.rejected, 1);
    assert!(w.claim(ok).unwrap().is_some());
}

#[test]
fn payload_error_counts_rejected() {
    let w = World::new(Config {
        max_event_bytes: 4,
        ..Config::default()
    })
    .unwrap();
    let a = core_active(&w, EndpointKind::Native);
    assert_eq!(w.send(a, Payload::Pulse(1)), Err(Error::LimitExceeded));
    assert_eq!(w.snapshot().metrics.rejected, 1);
}

#[test]
fn held_payload_accounts_until_timer_release() {
    let w = World::new(Config {
        native_payload_budget: 8,
        ..Config::default()
    })
    .unwrap();
    let a = core_active(&w, EndpointKind::Native);
    let held = w.hold(Payload::Pulse(1)).unwrap();
    assert_eq!(w.snapshot().retained_payload_bytes, 8);
    assert!(matches!(
        w.hold(Payload::Pulse(2)),
        Err(Error::BudgetExceeded)
    ));
    w.send_held(a, held).unwrap();
    assert_eq!(w.snapshot().retained_payload_bytes, 8);
    let lease = w.claim(a).unwrap().unwrap();
    lease.finish(true);
    assert_eq!(w.snapshot().retained_payload_bytes, 0);
}

#[test]
fn dropped_held_payload_releases_budget() {
    let w = World::new(Config {
        native_payload_budget: 8,
        ..Config::default()
    })
    .unwrap();
    let held = w.hold(Payload::Pulse(1)).unwrap();
    assert_eq!(w.snapshot().retained_payload_bytes, 8);
    drop(held);
    assert_eq!(w.snapshot().retained_payload_bytes, 0);
}

#[test]
fn held_payload_cannot_cross_world_budget() {
    let a = core_world();
    let b = core_world();
    let target = core_active(&b, EndpointKind::Native);
    let held = a.hold(Payload::Pulse(1)).unwrap();
    assert_eq!(b.send_held(target, held), Err(Error::CrossWorld));
    assert_eq!(a.snapshot().retained_payload_bytes, 0);
    assert_eq!(b.snapshot().retained_payload_bytes, 0);
}

#[test]
fn tracked_task_delays_native_stop_and_slot_reuse() {
    let w = World::new(Config {
        max_actors: 1,
        ..Config::default()
    })
    .unwrap();
    let a = core_active(&w, EndpointKind::Native);
    let task = w.track_task(a).unwrap();
    let report = w.stop(a).unwrap();
    assert!(!report.native_done);
    assert_eq!(w.state(a), Ok(Lifecycle::Stopping));
    assert_eq!(
        w.allocate(EndpointKind::Native, None),
        Err(Error::LimitExceeded)
    );
    drop(task);
    assert_eq!(w.state(a), Ok(Lifecycle::Stopped));
    assert!(w.allocate(EndpointKind::Native, None).is_ok());
}

#[test]
fn child_task_keeps_parent_unretired() {
    let w = World::new(Config {
        max_actors: 3,
        ..Config::default()
    })
    .unwrap();
    let p = core_active(&w, EndpointKind::Native);
    let c = w.allocate(EndpointKind::Native, Some(p)).unwrap();
    w.activate(c).unwrap();
    let task = w.track_task(c).unwrap();
    w.stop(p).unwrap();
    assert_eq!(w.state(c), Ok(Lifecycle::Stopping));
    assert_eq!(w.state(p), Ok(Lifecycle::Stopping));
    drop(task);
    assert_eq!(w.state(c), Ok(Lifecycle::Stopped));
    assert_eq!(w.state(p), Ok(Lifecycle::Stopped));
}

#[test]
fn native_done_is_independent_of_python_cleanup() {
    let w = core_world();
    let p = w.allocate(EndpointKind::Python, None).unwrap();
    w.activate(p).unwrap();
    let report = w.stop(p).unwrap();
    assert!(report.native_done);
    assert!(!report.python_done);
    w.finish_python(p).unwrap();
}

#[test]
fn execution_state_includes_ancestor_fence() {
    let w = core_world();
    let p = core_active(&w, EndpointKind::Native);
    let c = w.allocate(EndpointKind::Native, Some(p)).unwrap();
    w.activate(c).unwrap();
    assert_eq!(w.execution_state(c), Ok(Lifecycle::Active));
    w.stop(p).unwrap();
    assert_eq!(w.execution_state(c), Ok(Lifecycle::Stopping));
}

#[test]
fn held_send_requires_active_owner() {
    let w = core_world();
    let owner = core_active(&w, EndpointKind::Native);
    let target = core_active(&w, EndpointKind::Native);
    let held = w.hold(Payload::Pulse(1)).unwrap();
    w.stop(owner).unwrap();
    assert_eq!(
        w.send_held_from(owner, target, held),
        Err(Error::ActorStopped)
    );
    assert_eq!(w.snapshot().retained_payload_bytes, 0);
}

#[test]
fn mailbox_byte_budget_is_distinct_from_entry_budget() {
    let w = World::new(Config {
        mailbox_capacity: 8,
        mailbox_bytes: 8,
        ..Config::default()
    })
    .unwrap();
    let a = core_active(&w, EndpointKind::Native);
    w.send(a, Payload::Pulse(1)).unwrap();
    assert_eq!(w.send(a, Payload::Pulse(2)), Err(Error::QueueFull));
}

#[test]
fn payload_capacity_is_charged() {
    let w = World::new(Config {
        max_event_bytes: 100,
        ..Config::default()
    })
    .unwrap();
    let a = core_active(&w, EndpointKind::Native);
    let mut integers = Vec::with_capacity(1000);
    integers.push(1);
    assert_eq!(
        w.send(
            a,
            Payload::Record {
                schema: 1,
                integers
            }
        ),
        Err(Error::LimitExceeded)
    );
}

#[test]
fn lease_drop_and_finish_metrics_conserve_delivery_outcomes() {
    let w = core_world();
    let a = core_active(&w, EndpointKind::Native);
    w.send(a, Payload::Pulse(1)).unwrap();
    w.send(a, Payload::Pulse(2)).unwrap();
    drop(w.claim(a).unwrap().unwrap());
    w.claim(a).unwrap().unwrap().finish(true);
    let metrics = w.snapshot().metrics;
    assert_eq!(metrics.admitted, 2);
    assert_eq!(metrics.started, 2);
    assert_eq!(metrics.cancelled, 1);
    assert_eq!(metrics.completed, 1);
    assert_eq!(metrics.failed, 0);
}

#[test]
fn ownership_depth_is_bounded() {
    let w = World::new(Config {
        max_actors: 200,
        ..Config::default()
    })
    .unwrap();
    let mut parent = core_active(&w, EndpointKind::Native);
    let mut rejected = false;
    for _ in 0..140 {
        match w.allocate(EndpointKind::Native, Some(parent)) {
            Ok(child) => {
                w.activate(child).unwrap();
                parent = child;
            }
            Err(Error::LimitExceeded) => {
                rejected = true;
                break;
            }
            Err(e) => panic!("unexpected allocation error: {e:?}"),
        }
    }
    assert!(rejected);
}

// Time that passes by hand.

#[test]
fn manual_clock_freezes_across_wall_clock_sleep() {
    let initial = now();
    let (clock, virtual_clock) = Clock::manual_at(initial);
    let world = World::with_clock(Config::default(), clock).unwrap();
    let started = std::time::Instant::now();
    while started.elapsed() < std::time::Duration::from_millis(10) {}
    assert_eq!(world.now(), initial);
    assert_eq!(virtual_clock.current(), initial);
    assert_eq!(
        virtual_clock.advance(Duration::from_secs(2)).unwrap(),
        later(initial, Duration::from_secs(2))
    );
    assert_eq!(world.now(), later(initial, Duration::from_secs(2)));
}

#[test]
fn expired_request_is_not_claimed() {
    let (clock, time) = Clock::manual_at(now());
    let w = World::with_clock(Config::default(), clock).unwrap();
    let owner = request_active(&w);
    let target = request_active(&w);
    let id = w
        .request(
            owner,
            target,
            Payload::Pulse(1),
            later(w.now(), Duration::from_millis(100)),
        )
        .unwrap();
    time.advance(Duration::from_millis(110)).unwrap();
    assert!(w.claim(target).unwrap().is_none());
    assert!(matches!(
        w.take_operation(id).unwrap(),
        Some(TerminalOutcome::TimedOut)
    ));
}

#[test]
fn expired_owned_operation_records_timeout_before_failure_completion() {
    let (clock, time) = Clock::manual_at(now());
    let world = World::with_clock(Config::default(), clock).unwrap();
    let parent = world.allocate(EndpointKind::Native, None).unwrap();
    world.activate(parent).unwrap();
    let child = world.allocate(EndpointKind::Native, Some(parent)).unwrap();
    world.activate(child).unwrap();
    let operation = world
        .request(
            parent,
            child,
            Payload::Pulse(1),
            later(world.now(), Duration::from_millis(100)),
        )
        .unwrap();
    time.advance(Duration::from_millis(110)).unwrap();
    world
        .report_failure(
            child,
            None,
            None,
            Some(operation),
            supervision_failure(),
            FailureAction::Continue,
        )
        .unwrap();
    assert!(matches!(
        world.operation_status(operation),
        Ok(OperationStatus::Terminal(TerminalOutcome::TimedOut))
    ));
    assert_eq!(world.snapshot().metrics.operation_timed_out, 1);
    assert_eq!(world.snapshot().metrics.operation_completed, 0);
    assert!(world
        .diagnostics(0, 16)
        .unwrap()
        .entries
        .iter()
        .any(|e| e.code == DiagnosticCode::OperationTimedOut && e.operation == Some(operation)));
}

// Indexes seen from outside.

fn assert_publications(world: &World) {
    let snapshot = world.snapshot();
    assert_eq!(snapshot.publications_pending, world.routing_pending());
    assert!(snapshot.routing_snapshot_entries <= world.config().max_routing_snapshot_entries);
    assert!(snapshot.publications_retained <= world.config().max_publications);
}

#[test]
fn indexes_and_reservations_remain_exact_through_expiry_stop_and_generation_reuse() {
    let (clock, time) = Clock::manual_at(now());
    let world = World::with_clock(
        Config {
            routing_batch_size: 1,
            max_publications: 8,
            max_publications_per_source: 4,
            ..Default::default()
        },
        clock,
    )
    .unwrap();
    let target = world.allocate(EndpointKind::Native, None).unwrap();
    world.activate(target).unwrap();
    for round in 0..100 {
        let source = world.allocate(EndpointKind::Native, None).unwrap();
        world.activate(source).unwrap();
        world.subscribe(source, target).unwrap();
        let ticket = world
            .publish_with(
                source,
                Payload::Pulse(round),
                MessageOptions {
                    deadline: Some(later(world.now(), Duration::from_secs(1))),
                    ..Default::default()
                },
            )
            .unwrap();
        assert_publications(&world);
        let second = world.publish(source, Payload::Pulse(round)).unwrap();
        assert_publications(&world);
        if round % 2 == 0 {
            world.route_batch();
        } else {
            time.advance(Duration::from_secs(1)).unwrap();
            world.maintain(world.now());
        }
        assert_publications(&world);
        world.stop(source).unwrap();
        assert_publications(&world);
        assert!(ticket.report().is_some());
        assert!(second.report().is_some());
        drop((ticket, second));
        while let Some(lease) = world.claim(target).unwrap() {
            lease.finish(true);
        }
        assert_publications(&world);
        assert_eq!(world.routing_pending(), 0);
        assert_eq!(world.snapshot().publications_retained, 0);
        assert_eq!(world.snapshot().routing_snapshot_entries, 0);
    }
    assert_eq!(world.snapshot().retained_payload_bytes, 0);
}

#[test]
fn publication_identity_exhaustion_rejects_without_budget_or_payload_mutation() {
    let (clock, _time) = Clock::manual_at(now());
    let last = Numbering {
        ready_order: 1,
        publication: u64::MAX,
    };
    let world = World::numbered_from(Config::default(), clock, last).unwrap();
    let source = world.allocate(EndpointKind::Native, None).unwrap();
    world.activate(source).unwrap();
    for _ in 0..2 {
        assert_eq!(
            world.publish(source, Payload::Pulse(1)),
            Err(Error::LimitExceeded)
        );
    }
    assert_publications(&world);
    assert_eq!(world.snapshot().publications_retained, 0);
    assert_eq!(world.snapshot().retained_payload_bytes, 0);
}

fn ready_in(world: &World, phase: PythonReadyPhase) -> BTreeSet<(u32, u64)> {
    let mut found = BTreeSet::new();
    let mut after = None;
    while let Some((order, actor)) = world.python_ready_next(phase, after, u64::MAX) {
        found.insert((actor.slot, actor.generation));
        after = Some(order);
    }
    found
}

fn assert_readiness(world: &World) {
    let actors = world.snapshot().actors;
    let effective = |reference: ActorRef| {
        let mut current = Some(reference);
        while let Some(value) = current {
            let record = actors.iter().find(|a| a.reference == value).unwrap();
            if !matches!(record.state, Lifecycle::Active | Lifecycle::Quiescing) {
                return record.state;
            }
            current = record.parent;
        }
        Lifecycle::Active
    };
    let mut start = BTreeSet::new();
    let mut failure = BTreeSet::new();
    let mut delivery = BTreeSet::new();
    let mut cleanup = BTreeSet::new();
    for record in &actors {
        if record.kind != EndpointKind::Python {
            continue;
        }
        let key = (record.reference.slot, record.reference.generation);
        let executable = !record.python_done
            && !record.in_flight
            && !record.control_in_flight
            && matches!(
                effective(record.reference),
                Lifecycle::Active | Lifecycle::Quiescing
            );
        let failures = actors
            .iter()
            .filter(|child| child.parent == Some(record.reference) && child.failure_pending)
            .count();
        if !record.python_done && record.state == Lifecycle::Starting {
            start.insert(key);
        }
        if executable && failures > 0 {
            failure.insert(key);
        }
        if executable && record.queue_entries > 0 {
            delivery.insert(key);
        }
        if !record.python_done
            && matches!(record.state, Lifecycle::Stopping | Lifecycle::Stopped)
        {
            cleanup.insert(key);
        }
    }
    assert_eq!(ready_in(world, PythonReadyPhase::Start), start);
    assert_eq!(ready_in(world, PythonReadyPhase::Failure), failure);
    assert_eq!(ready_in(world, PythonReadyPhase::Delivery), delivery);
    assert_eq!(ready_in(world, PythonReadyPhase::Cleanup), cleanup);
}

#[test]
fn world_readiness_reconstructs_queue_failure_cleanup_and_service_lifecycle() {
    let initial = now();
    let (clock, virtual_clock) = Clock::manual_at(initial);
    let world = World::with_clock(Config::default(), clock).unwrap();
    let parent = world.allocate(EndpointKind::Python, None).unwrap();
    let child = world.allocate(EndpointKind::Python, Some(parent)).unwrap();
    let native_child = world.allocate(EndpointKind::Native, Some(parent)).unwrap();
    assert_readiness(&world);

    world.activate(parent).unwrap();
    assert_readiness(&world);
    world.activate(child).unwrap();
    world.activate(native_child).unwrap();
    assert_readiness(&world);

    world.send(child, Payload::Pulse(1)).unwrap();
    assert_readiness(&world);
    let delivery = world.claim(child).unwrap().unwrap();
    assert_readiness(&world);
    delivery.finish(true);
    assert_readiness(&world);

    world
        .send_with(
            child,
            Payload::Pulse(99),
            MessageOptions {
                deadline: Some(later(initial, Duration::from_secs(1))),
                ..Default::default()
            },
        )
        .unwrap();
    assert_readiness(&world);
    virtual_clock
        .advance(Duration::from_secs(1))
        .unwrap();
    world.maintain(virtual_clock.current());
    assert_readiness(&world);

    let details = FailureDetails::new(FailurePhase::Handler, "readiness", "Error", vec![]);
    world
        .report_failure(
            native_child,
            Some(1),
            None,
            None,
            details.clone(),
            FailureAction::Continue,
        )
        .unwrap();
    world
        .report_failure(
            native_child,
            Some(2),
            None,
            None,
            details.clone(),
            FailureAction::Continue,
        )
        .unwrap();
    assert_readiness(&world);
    let failure = world.claim_failure(parent).unwrap().unwrap();
    assert_readiness(&world);
    world
        .report_failure(
            native_child,
            Some(3),
            None,
            None,
            details,
            FailureAction::Continue,
        )
        .unwrap();
    assert_readiness(&world);
    failure.finish(None).unwrap();
    assert_readiness(&world);
    let failure = world.claim_failure(parent).unwrap().unwrap();
    failure.finish(None).unwrap();
    assert_readiness(&world);

    let service = world.allocate(EndpointKind::Native, None).unwrap();
    let contract = InterfaceSpec {
        name: "ReadinessService".into(),
        version: 1,
        ports: vec![
            PortSpec {
                name: "requests".into(),
                direction: PortDirection::Input,
                schema: PayloadType::Pulse,
            },
            PortSpec {
                name: "events".into(),
                direction: PortDirection::Output,
                schema: PayloadType::Pulse,
            },
        ],
    };
    world
        .register_component(
            service,
            ComponentDescriptor {
                name: "ReadinessServiceComponent".into(),
                version: 1,
                ports: contract.ports.clone(),
                interfaces: vec![contract.clone()],
            },
        )
        .unwrap();
    world.activate(service).unwrap();
    world
        .register_service("readiness", service, &contract)
        .unwrap();
    let lease = world
        .acquire_service(parent, "readiness", &contract)
        .unwrap();
    assert_readiness(&world);
    assert!(world.release_service(lease).unwrap());
    assert_readiness(&world);

    world.stop(child).unwrap();
    assert_readiness(&world);
    world.finish_python(child).unwrap();
    assert_readiness(&world);

    for value in 0..100 {
        let replacement = world.allocate(EndpointKind::Python, None).unwrap();
        world.activate(replacement).unwrap();
        world
            .send_with(
                replacement,
                Payload::Pulse(value),
                MessageOptions {
                    deadline: Some(later(virtual_clock.current(), Duration::from_secs(1))),
                    ..Default::default()
                },
            )
            .unwrap();
        assert_readiness(&world);
        let delivery = world.claim(replacement).unwrap().unwrap();
        assert_readiness(&world);
        delivery.finish(true);
        world.stop(replacement).unwrap();
        assert_readiness(&world);
        world.finish_python(replacement).unwrap();
        assert_readiness(&world);
    }

    world.close();
    world.finish_python(parent).unwrap();
    assert_readiness(&world);
    for phase in [
        PythonReadyPhase::Start,
        PythonReadyPhase::Failure,
        PythonReadyPhase::Delivery,
        PythonReadyPhase::Cleanup,
    ] {
        assert!(ready_in(&world, phase).is_empty());
    }

    let (clock, _time) = Clock::manual_at(initial);
    let last = Numbering {
        ready_order: u64::MAX,
        publication: 1,
    };
    let world = World::numbered_from(Config::default(), clock, last).unwrap();
    assert_eq!(
        world.allocate(EndpointKind::Python, None),
        Err(Error::LimitExceeded)
    );
    assert!(world.snapshot().actors.is_empty());
    assert_eq!(world.python_ready_cutoff(), u64::MAX - 1);
}

/// What the deadline indexes promise to a reader of the World: mailbox counts
/// agree with the bytes kept for them, and nothing that is due stays queued.
fn assert_deadlines(world: &World) {
    let snapshot = world.snapshot();
    for actor in &snapshot.actors {
        assert_eq!(actor.queue_bytes, actor.queue_entries * 8);
        assert_eq!(actor.staged_bytes, actor.staged_entries * 8);
        if actor.state == Lifecycle::Stopped {
            assert_eq!(actor.queue_entries + actor.staged_entries, 0);
        }
    }
    world.maintain(world.now());
    assert_eq!(world.snapshot().metrics.expired, snapshot.metrics.expired);
}

#[test]
fn world_deadline_indexes_track_staged_claimed_failed_and_reused_work() {
    let config = Config {
        mailbox_capacity: 1,
        ..Config::default()
    };
    let initial = now();
    let (clock, virtual_clock) = Clock::manual_at(initial);
    let world = World::with_clock(config, clock).unwrap();
    let source = world.allocate(EndpointKind::Native, None).unwrap();
    let target = world.allocate(EndpointKind::Native, None).unwrap();
    world
        .register_component(
            source,
            ComponentDescriptor {
                name: "ExpirySource".into(),
                version: 1,
                ports: vec![PortSpec {
                    name: "out".into(),
                    direction: PortDirection::Output,
                    schema: PayloadType::Pulse,
                }],
                interfaces: vec![],
            },
        )
        .unwrap();
    world
        .register_component(
            target,
            ComponentDescriptor {
                name: "ExpiryTarget".into(),
                version: 1,
                ports: vec![PortSpec {
                    name: "in".into(),
                    direction: PortDirection::Input,
                    schema: PayloadType::Pulse,
                }],
                interfaces: vec![],
            },
        )
        .unwrap();
    world.activate(target).unwrap();
    let source_port = world.port(source, "out").unwrap();
    let target_port = world.port(target, "in").unwrap();
    world.link(source, source_port, target_port).unwrap();
    let deadline = later(world.now(), Duration::from_secs(60));
    world
        .publish_port_with(
            source_port,
            Payload::Pulse(1),
            MessageOptions {
                deadline: Some(deadline),
                ..Default::default()
            },
        )
        .unwrap();
    assert_deadlines(&world);
    world.activate(source).unwrap();
    assert_deadlines(&world);
    world.route_batch();
    assert_deadlines(&world);
    let delivery = world.claim(target).unwrap().unwrap();
    assert_deadlines(&world);
    delivery.finish(true);
    assert_deadlines(&world);
    assert!(
        world
            .send_with(
                target,
                Payload::Pulse(2),
                MessageOptions {
                    deadline: Some(deadline),
                    ..Default::default()
                }
            )
            .is_ok()
    );
    assert_deadlines(&world);
    assert!(
        world
            .send_with(
                target,
                Payload::Pulse(3),
                MessageOptions {
                    deadline: Some(deadline),
                    ..Default::default()
                },
            )
            .is_err()
    );
    assert_deadlines(&world);
    virtual_clock
        .advance(Duration::from_secs(60))
        .unwrap();
    world.maintain(virtual_clock.current());
    assert_deadlines(&world);

    // A replacement source can leave staged work behind; stopping it must
    // remove that work and its deadline references before slot reuse.
    world.stop(source).unwrap();
    let staged_source = world.allocate(EndpointKind::Native, None).unwrap();
    let staged_port = world
        .register_component(
            staged_source,
            ComponentDescriptor {
                name: "ExpiryStagedSource".into(),
                version: 1,
                ports: vec![PortSpec {
                    name: "out".into(),
                    direction: PortDirection::Output,
                    schema: PayloadType::Pulse,
                }],
                interfaces: vec![],
            },
        )
        .unwrap()[0];
    world.link(staged_source, staged_port, target_port).unwrap();
    world
        .publish_port_with(
            staged_port,
            Payload::Pulse(4),
            MessageOptions {
                deadline: Some(later(initial, Duration::from_secs(120))),
                ..Default::default()
            },
        )
        .unwrap();
    assert_deadlines(&world);
    world.stop(staged_source).unwrap();
    assert_deadlines(&world);

    world.stop(target).unwrap();
    assert_deadlines(&world);

    // Drain indexes must retain nested ownership until the child task is
    // released, while a service lease contributes ordinary live actors.
    let parent = world.allocate(EndpointKind::Native, None).unwrap();
    let child = world.allocate(EndpointKind::Native, Some(parent)).unwrap();
    world.activate(parent).unwrap();
    world.activate(child).unwrap();
    let task = world.track_task(child).unwrap();
    let now = virtual_clock.current();
    world
        .request_drain(child, later(now, Duration::from_secs(1)))
        .unwrap();
    world
        .request_drain(parent, later(now, Duration::from_secs(10)))
        .unwrap();
    assert_deadlines(&world);
    virtual_clock
        .advance(Duration::from_secs(1))
        .unwrap();
    world.maintain(virtual_clock.current());
    assert_deadlines(&world);
    drop(task);
    world.maintain(virtual_clock.current());
    assert_deadlines(&world);

    let service = world.allocate(EndpointKind::Native, None).unwrap();
    let service_contract = InterfaceSpec {
        name: "ExpiryService".into(),
        version: 1,
        ports: vec![
            PortSpec {
                name: "requests".into(),
                direction: PortDirection::Input,
                schema: PayloadType::Pulse,
            },
            PortSpec {
                name: "events".into(),
                direction: PortDirection::Output,
                schema: PayloadType::Pulse,
            },
        ],
    };
    world
        .register_component(
            service,
            ComponentDescriptor {
                name: "ExpiryServiceComponent".into(),
                version: 1,
                ports: service_contract.ports.clone(),
                interfaces: vec![service_contract.clone()],
            },
        )
        .unwrap();
    world.activate(service).unwrap();
    world
        .register_service("expiry", service, &service_contract)
        .unwrap();
    let holder = world.allocate(EndpointKind::Native, None).unwrap();
    world.activate(holder).unwrap();
    let lease = world
        .acquire_service(holder, "expiry", &service_contract)
        .unwrap();
    assert_deadlines(&world);
    assert!(world.release_service(lease).unwrap());
    assert_deadlines(&world);

    for _ in 0..100 {
        let actor = world.allocate(EndpointKind::Native, None).unwrap();
        world.activate(actor).unwrap();
        world
            .send_with(
                actor,
                Payload::Pulse(5),
                MessageOptions {
                    deadline: Some(later(virtual_clock.current(), Duration::from_secs(1))),
                    ..Default::default()
                },
            )
            .unwrap();
        assert_deadlines(&world);
        let delivery = world.claim(actor).unwrap().unwrap();
        assert_deadlines(&world);
        delivery.finish(true);
        world.stop(actor).unwrap();
        assert_deadlines(&world);
    }
    assert!(world.close().native_done);
    assert_deadlines(&world);
    assert_eq!(world.snapshot().retained_payload_bytes, 0);
}
