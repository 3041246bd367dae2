//! The core of an actor runtime: bounded mailboxes, operations, routes,
//! publications, services and supervision, kept in one World.
pub mod activity;
pub mod buffers;
pub mod clock;
pub mod codec;
pub mod components;
pub mod conformance;
pub mod diagnostics;
pub mod envelope;
pub mod expiry;
pub mod failures;
pub mod held;
pub mod limits;
pub mod operations;
pub mod ordered;
pub mod payload;
pub mod publications;
pub mod readiness;
pub mod routing;
pub mod schema;
pub mod services;
pub mod sums;
pub mod tally;
pub mod text;
pub mod types;
pub mod world;

pub use activity::{ActivityPoll, Retired};
pub use buffers::{NativeBufferBudget, NativeBufferPermit};
pub use clock::{Clock, Duration, Instant, VirtualClock};
pub use codec::Value;
pub use components::{
    ComponentDescriptor, InterfaceSpec, LinkSnapshot, PayloadType, PortDirection, PortRef, PortSpec,
};
pub use diagnostics::{DiagnosticCode, DiagnosticEntry, DiagnosticGap, DiagnosticRead};
pub use envelope::{Envelope, MessageOptions, SchemaIdentity, SchemaKind, TraceContext};
pub use failures::{FailureAction, FailureDetails, FailureFrame, FailurePhase, FailureRecord};
pub use held::HeldPayload;
pub use operations::{
    OperationFailure, OperationId, OperationStatus, OperationTable, TerminalOutcome,
};
pub use payload::{Payload, StructuredRecord};
pub use publications::{
    DeliveryReport, PublicationOutcome, PublicationStatus, PublicationTicket, RoutingProgress,
};
pub use readiness::PythonReadyPhase;
pub use services::{ServiceLease, ServiceSnapshot};
pub use types::{ActorRef, Config, EndpointKind, Error, Lifecycle, Metrics};
pub use world::access::RoutingPoll;
pub use world::callbacks::NativeCallbackLease;
pub use world::claims::DeliveryLease;
pub use world::lifecycle::TaskLease;
pub use world::reports::{ActorSnapshot, StopReport, WorldSnapshot};
pub use world::supervision::FailureLease;
pub use world::{Numbering, World};
