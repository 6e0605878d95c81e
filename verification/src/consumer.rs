//! Coordinator decisions: startup readiness gating, the registration task's
//! state machine, and the rebalance task's push decision. The host-side shell
//! performs the metadata-store and stream calls and feeds the outcomes in;
//! every decision about them is made here.

use vstd::prelude::*;

verus! {

use crate::errors::HydraError;

/// The lifecycle states a metadata table or a stream reports.
#[derive(Clone, Copy, Debug, PartialEq, Eq, Structural)]
pub enum ResourceStatus {
    Creating,
    Deleting,
    Active,
    Updating,
    Other,
}

/// Ready for use: active, or updating in place.
pub open spec fn status_ready(s: ResourceStatus) -> bool {
    s is Active || s is Updating
}

/// Whether a reported status counts as ready.
pub fn status_is_ready(s: ResourceStatus) -> (r: bool)
    ensures
        r == status_ready(s),
{
    match s {
        ResourceStatus::Active => true,
        ResourceStatus::Updating => true,
        _ => false,
    }
}

/// Decide table readiness from a table description: a missing table or a
/// missing status is an error, otherwise the table is ready exactly when its
/// status is.
pub fn ddb_table_ready(table_found: bool, status: Option<ResourceStatus>) -> (r: Result<
    bool,
    HydraError,
>)
    ensures
        table_found ==> (status matches Some(st) ==> r == Result::<bool, HydraError>::Ok(
            status_ready(st),
        )),
        !(table_found && status is Some) ==> r == Result::<bool, HydraError>::Err(
            HydraError::MetadataUnavailable,
        ),
{
    if !table_found {
        return Err(HydraError::MetadataUnavailable);
    }
    match status {
        None => Err(HydraError::MetadataUnavailable),
        Some(st) => Ok(status_is_ready(st)),
    }
}

/// Decide stream readiness from a stream description: the handle is accepted
/// exactly when the stream exists, is ready, and reports a non-empty handle.
pub fn kinesis_stream_ready(desc: Option<(String, ResourceStatus)>) -> (r: Result<
    String,
    HydraError,
>)
    ensures
        r is Ok <==> (desc matches Some(d) && status_ready(d.1) && d.0@.len() > 0),
        r matches Ok(arn) ==> desc matches Some(d) && arn@ == d.0@,
        r is Err ==> r == Result::<String, HydraError>::Err(HydraError::StreamNotReady),
{
    match desc {
        None => Err(HydraError::StreamNotReady),
        Some((arn, st)) => {
            if !status_is_ready(st) {
                return Err(HydraError::StreamNotReady);
            }
            if !crate::config::string_nonempty(&arn) {
                return Err(HydraError::StreamNotReady);
            }
            Ok(arn)
        },
    }
}

/// What startup concludes from the three readiness probes: the first failed
/// probe aborts, a table that is not ready aborts, and otherwise the stream
/// probe's handle is adopted.
pub open spec fn startup_outcome(
    checkpoints: Result<bool, HydraError>,
    clients: Result<bool, HydraError>,
    stream: Result<String, HydraError>,
) -> Result<String, HydraError> {
    match checkpoints {
        Err(e) => Err(e),
        Ok(cp_ready) => if !cp_ready {
            Err(HydraError::MetadataUnavailable)
        } else {
            match clients {
                Err(e) => Err(e),
                Ok(cl_ready) => if !cl_ready {
                    Err(HydraError::MetadataUnavailable)
                } else {
                    stream
                },
            }
        },
    }
}

/// Gate startup on the three probe outcomes.
pub fn startup_gate(
    checkpoints: Result<bool, HydraError>,
    clients: Result<bool, HydraError>,
    stream: Result<String, HydraError>,
) -> (r: Result<String, HydraError>)
    ensures
        r == startup_outcome(checkpoints, clients, stream),
{
    match checkpoints {
        Err(e) => Err(e),
        Ok(cp_ready) => {
            if !cp_ready {
                return Err(HydraError::MetadataUnavailable);
            }
            match clients {
                Err(e) => Err(e),
                Ok(cl_ready) => {
                    if !cl_ready {
                        return Err(HydraError::MetadataUnavailable);
                    }
                    stream
                },
            }
        },
    }
}

/// Where the registration task stands.
#[derive(Clone, Copy, Debug, PartialEq, Eq, Structural)]
pub enum RegistrationState {
    /// Before the initial registration has been acknowledged.
    Starting,
    /// Heartbeating on a timer.
    Running,
    /// Cancelled; the deregistration has been issued and its outcome is
    /// awaited.
    Draining,
    /// The task has exited.
    Stopped,
}

/// What the registration task observes.
#[derive(Clone, Copy, Debug, PartialEq, Eq, Structural)]
pub enum RegistrationEvent {
    RegisterOk,
    RegisterFailed,
    Tick,
    Cancelled,
    DeregisterOk,
    DeregisterFailed,
}

/// What the registration task does next.
#[derive(Clone, Copy, Debug, PartialEq, Eq, Structural)]
pub enum RegistrationAction {
    /// Write the heartbeat record.
    Register,
    /// Delete this worker's record.
    Deregister,
    /// Report a non-fatal error through the runtime-error callback.
    ReportError,
    /// Surface a fatal error: the initial registration failed.
    FailStartup,
    /// Nothing to do.
    Idle,
}

/// The registration task's transition function. The initial registration is
/// fatal when it fails; later heartbeat failures are reported and the loop
/// keeps running; cancellation triggers exactly one deregistration, whose
/// outcome ends the task either way.
pub open spec fn registration_step_spec(s: RegistrationState, e: RegistrationEvent) -> (
    RegistrationState,
    RegistrationAction,
) {
    match (s, e) {
        (RegistrationState::Starting, RegistrationEvent::RegisterOk) => (
            RegistrationState::Running,
            RegistrationAction::Idle,
        ),
        (RegistrationState::Starting, RegistrationEvent::RegisterFailed) => (
            RegistrationState::Stopped,
            RegistrationAction::FailStartup,
        ),
        (RegistrationState::Starting, RegistrationEvent::Cancelled) => (
            RegistrationState::Stopped,
            RegistrationAction::Idle,
        ),
        (RegistrationState::Running, RegistrationEvent::Tick) => (
            RegistrationState::Running,
            RegistrationAction::Register,
        ),
        (RegistrationState::Running, RegistrationEvent::RegisterOk) => (
            RegistrationState::Running,
            RegistrationAction::Idle,
        ),
        (RegistrationState::Running, RegistrationEvent::RegisterFailed) => (
            RegistrationState::Running,
            RegistrationAction::ReportError,
        ),
        (RegistrationState::Running, RegistrationEvent::Cancelled) => (
            RegistrationState::Draining,
            RegistrationAction::Deregister,
        ),
        (RegistrationState::Draining, RegistrationEvent::DeregisterOk) => (
            RegistrationState::Stopped,
            RegistrationAction::Idle,
        ),
        (RegistrationState::Draining, RegistrationEvent::DeregisterFailed) => (
            RegistrationState::Stopped,
            RegistrationAction::ReportError,
        ),
        (_, _) => (s, RegistrationAction::Idle),
    }
}

/// Step the registration task.
pub fn registration_step(s: RegistrationState, e: RegistrationEvent) -> (r: (
    RegistrationState,
    RegistrationAction,
))
    ensures
        r == registration_step_spec(s, e),
{
    match (s, e) {
        (RegistrationState::Starting, RegistrationEvent::RegisterOk) => (
            RegistrationState::Running,
            RegistrationAction::Idle,
        ),
        (RegistrationState::Starting, RegistrationEvent::RegisterFailed) => (
            RegistrationState::Stopped,
            RegistrationAction::FailStartup,
        ),
        (RegistrationState::Starting, RegistrationEvent::Cancelled) => (
            RegistrationState::Stopped,
            RegistrationAction::Idle,
        ),
        (RegistrationState::Running, RegistrationEvent::Tick) => (
            RegistrationState::Running,
            RegistrationAction::Register,
        ),
        (RegistrationState::Running, RegistrationEvent::RegisterOk) => (
            RegistrationState::Running,
            RegistrationAction::Idle,
        ),
        (RegistrationState::Running, RegistrationEvent::RegisterFailed) => (
            RegistrationState::Running,
            RegistrationAction::ReportError,
        ),
        (RegistrationState::Running, RegistrationEvent::Cancelled) => (
            RegistrationState::Draining,
            RegistrationAction::Deregister,
        ),
        (RegistrationState::Draining, RegistrationEvent::DeregisterOk) => (
            RegistrationState::Stopped,
            RegistrationAction::Idle,
        ),
        (RegistrationState::Draining, RegistrationEvent::DeregisterFailed) => (
            RegistrationState::Stopped,
            RegistrationAction::ReportError,
        ),
        (_, _) => (s, RegistrationAction::Idle),
    }
}

/// The state after a sequence of observed events.
pub open spec fn run_events(s: RegistrationState, es: Seq<RegistrationEvent>) -> RegistrationState
    decreases es.len(),
{
    if es.len() == 0 {
        s
    } else {
        run_events(registration_step_spec(s, es[0]).0, es.drop_first())
    }
}

/// A running registration task never stops in a single step: the only way
/// out of `Running` towards `Stopped` passes through `Draining`, and the
/// step that enters `Draining` issues the deregistration.
pub proof fn lemma_deregister_before_stop(s: RegistrationState, e: RegistrationEvent)
    ensures
        s is Running ==> !(registration_step_spec(s, e).0 is Stopped),
        registration_step_spec(s, e).0 is Draining && !(s is Draining) ==> s is Running && e
            is Cancelled && registration_step_spec(s, e).1 is Deregister,
{
}

/// Teardown order: along any event sequence that takes the registration task
/// from `Running` to `Stopped`, some step issues the deregistration. The
/// host-side loop performs each issued action before it feeds the next event,
/// so the deregistration is observed at the metadata store before the task
/// returns.
pub proof fn lemma_stop_implies_deregister(s: RegistrationState, es: Seq<RegistrationEvent>)
    requires
        s is Running,
        run_events(s, es) is Stopped,
    ensures
        exists|k: int|
            0 <= k < es.len() && #[trigger] registration_step_spec(
                run_events(s, es.take(k)),
                es[k],
            ).1 is Deregister,
    decreases es.len(),
{
    assert(es.len() > 0);
    let s1 = registration_step_spec(s, es[0]).0;
    if registration_step_spec(s, es[0]).1 is Deregister {
        assert(es.take(0) =~= Seq::<RegistrationEvent>::empty());
        assert(run_events(s, es.take(0)) == s);
        assert(registration_step_spec(run_events(s, es.take(0)), es[0]).1 is Deregister);
    } else {
        assert(s1 is Running);
        lemma_stop_implies_deregister(s1, es.drop_first());
        let k = choose|k: int|
            0 <= k < es.drop_first().len() && #[trigger] registration_step_spec(
                run_events(s1, es.drop_first().take(k)),
                es.drop_first()[k],
            ).1 is Deregister;
        assert(es.take(k + 1).drop_first() =~= es.drop_first().take(k));
        assert(run_events(s, es.take(k + 1)) == run_events(s1, es.drop_first().take(k)));
        assert(es[k + 1] == es.drop_first()[k]);
        assert(registration_step_spec(run_events(s, es.take(k + 1)), es[k + 1]).1 is Deregister);
    }
}

/// The fatal error a registration action surfaces: only a failed initial
/// registration aborts startup.
pub fn registration_fatal_error(a: RegistrationAction) -> (r: Option<HydraError>)
    ensures
        a is FailStartup ==> r == Some(HydraError::RegistrationFailed),
        !(a is FailStartup) ==> r is None,
{
    match a {
        RegistrationAction::FailStartup => Some(HydraError::RegistrationFailed),
        _ => None,
    }
}

/// Whether an error observed during the run phase ends the coordinator:
/// only a consumer-adapter failure is fatal there; registry and assignment
/// troubles are reported and retried.
pub fn runtime_error_fatal(e: HydraError) -> (r: bool)
    ensures
        r == (e is ConsumerFatal),
{
    match e {
        HydraError::ConsumerFatal => true,
        _ => false,
    }
}

/// Whether an error is surfaced to the host at all: normal cancellation is
/// not an error.
pub fn surfaced_to_host(e: HydraError) -> (r: bool)
    ensures
        r == !(e is Cancelled),
{
    match e {
        HydraError::Cancelled => false,
        _ => true,
    }
}

/// Whether two string vectors hold the same strings in the same order.
#[verifier::loop_isolation(false)]
fn string_vecs_equal(a: &Vec<String>, b: &Vec<String>) -> (r: bool)
    ensures
        r == (a.deep_view() == b.deep_view()),
{
    if a.len() != b.len() {
        proof {
            assert(a.deep_view().len() != b.deep_view().len());
        }
        return false;
    }
    let mut i: usize = 0;
    while i < a.len()
        invariant
            i <= a@.len(),
            forall|k: int| 0 <= k < i ==> a@[k]@ == b@[k]@,
        decreases a@.len() - i,
    {
        if !(a[i] == b[i]) {
            proof {
                assert(a.deep_view()[i as int] != b.deep_view()[i as int]);
            }
            return false;
        }
        i = i + 1;
    }
    proof {
        assert(a.deep_view() =~~= b.deep_view());
    }
    true
}

/// Whether a freshly computed owned set must be pushed to the consumer
/// adapter: always on the first pass, and afterwards exactly when it differs
/// from the last pushed one.
pub fn rebalance_decision(last_pushed: &Option<Vec<String>>, owned: &Vec<String>) -> (push: bool)
    ensures
        push == match last_pushed {
            Option::None => true,
            Option::Some(l) => l.deep_view() != owned.deep_view(),
        },
{
    match last_pushed {
        None => true,
        Some(l) => !string_vecs_equal(l, owned),
    }
}

} // verus!
