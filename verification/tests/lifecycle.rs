use hydra::config::{Callbacks, Config};
use hydra::consumer::{
    ddb_table_ready, kinesis_stream_ready, rebalance_decision, registration_fatal_error,
    registration_step, runtime_error_fatal, startup_gate, surfaced_to_host, RegistrationAction,
    RegistrationEvent, RegistrationState, ResourceStatus,
};
use hydra::errors::HydraError;

fn valid_config() -> Config {
    Config {
        buffer_size: 16,
        kinesis_stream_name: "stream".to_string(),
        checkpoints_table_name: "checkpoints".to_string(),
        clients_table_name: "clients".to_string(),
        application_name: "app".to_string(),
        client_name: "worker-1".to_string(),
    }
}

#[test]
fn valid_configuration_passes_validation() {
    assert!(valid_config().validate().is_ok());
}

#[test]
fn each_missing_field_is_config_invalid() {
    let mut c = valid_config();
    c.buffer_size = 0;
    assert_eq!(c.validate(), Err(HydraError::ConfigInvalid));

    let mut c = valid_config();
    c.kinesis_stream_name = String::new();
    assert_eq!(c.validate(), Err(HydraError::ConfigInvalid));

    let mut c = valid_config();
    c.checkpoints_table_name = String::new();
    assert_eq!(c.validate(), Err(HydraError::ConfigInvalid));

    let mut c = valid_config();
    c.clients_table_name = String::new();
    assert_eq!(c.validate(), Err(HydraError::ConfigInvalid));

    let mut c = valid_config();
    c.client_name = String::new();
    assert_eq!(c.validate(), Err(HydraError::ConfigInvalid));
}

#[test]
fn table_readiness_decisions() {
    assert_eq!(ddb_table_ready(false, Some(ResourceStatus::Active)), Err(HydraError::MetadataUnavailable));
    assert_eq!(ddb_table_ready(true, None), Err(HydraError::MetadataUnavailable));
    assert_eq!(ddb_table_ready(true, Some(ResourceStatus::Creating)), Ok(false));
    assert_eq!(ddb_table_ready(true, Some(ResourceStatus::Deleting)), Ok(false));
    assert_eq!(ddb_table_ready(true, Some(ResourceStatus::Active)), Ok(true));
    assert_eq!(ddb_table_ready(true, Some(ResourceStatus::Updating)), Ok(true));
}

#[test]
fn stream_readiness_decisions() {
    assert_eq!(kinesis_stream_ready(None), Err(HydraError::StreamNotReady));
    assert_eq!(
        kinesis_stream_ready(Some(("arn:stream".to_string(), ResourceStatus::Deleting))),
        Err(HydraError::StreamNotReady)
    );
    assert_eq!(
        kinesis_stream_ready(Some((String::new(), ResourceStatus::Active))),
        Err(HydraError::StreamNotReady)
    );
    assert_eq!(
        kinesis_stream_ready(Some(("arn:stream".to_string(), ResourceStatus::Updating))),
        Ok("arn:stream".to_string())
    );
}

#[test]
fn startup_gating_orders_its_failures() {
    let arn = || Ok("arn:stream".to_string());
    assert_eq!(startup_gate(Ok(true), Ok(true), arn()), Ok("arn:stream".to_string()));
    assert_eq!(
        startup_gate(Err(HydraError::MetadataUnavailable), Ok(true), arn()),
        Err(HydraError::MetadataUnavailable)
    );
    assert_eq!(startup_gate(Ok(false), Ok(true), arn()), Err(HydraError::MetadataUnavailable));
    assert_eq!(startup_gate(Ok(true), Ok(false), arn()), Err(HydraError::MetadataUnavailable));
    assert_eq!(
        startup_gate(Ok(true), Ok(true), Err(HydraError::StreamNotReady)),
        Err(HydraError::StreamNotReady)
    );
}

#[test]
fn registration_lifecycle_deregisters_before_stopping() {
    let s0 = RegistrationState::Starting;
    let (s1, a1) = registration_step(s0, RegistrationEvent::RegisterOk);
    assert_eq!(s1, RegistrationState::Running);
    assert_eq!(a1, RegistrationAction::Idle);

    let (s2, a2) = registration_step(s1, RegistrationEvent::Tick);
    assert_eq!(s2, RegistrationState::Running);
    assert_eq!(a2, RegistrationAction::Register);

    let (s3, a3) = registration_step(s2, RegistrationEvent::RegisterFailed);
    assert_eq!(s3, RegistrationState::Running);
    assert_eq!(a3, RegistrationAction::ReportError);

    // Cancellation: the deregistration is issued before any stopped state.
    let (s4, a4) = registration_step(s3, RegistrationEvent::Cancelled);
    assert_eq!(s4, RegistrationState::Draining);
    assert_eq!(a4, RegistrationAction::Deregister);

    let (s5, a5) = registration_step(s4, RegistrationEvent::DeregisterOk);
    assert_eq!(s5, RegistrationState::Stopped);
    assert_eq!(a5, RegistrationAction::Idle);
}

#[test]
fn initial_registration_failure_is_fatal() {
    let (s, a) = registration_step(RegistrationState::Starting, RegistrationEvent::RegisterFailed);
    assert_eq!(s, RegistrationState::Stopped);
    assert_eq!(a, RegistrationAction::FailStartup);
}

#[test]
fn rebalance_pushes_only_changes() {
    let owned = vec!["s0".to_string(), "s1".to_string()];
    assert!(rebalance_decision(&None, &owned));
    assert!(!rebalance_decision(&Some(owned.clone()), &owned));
    let other = vec!["s0".to_string()];
    assert!(rebalance_decision(&Some(other), &owned));
}

#[test]
fn error_propagation_policy() {
    assert_eq!(
        registration_fatal_error(RegistrationAction::FailStartup),
        Some(HydraError::RegistrationFailed)
    );
    assert_eq!(registration_fatal_error(RegistrationAction::ReportError), None);

    assert!(runtime_error_fatal(HydraError::ConsumerFatal));
    assert!(!runtime_error_fatal(HydraError::AssignmentFailed));
    assert!(!runtime_error_fatal(HydraError::MetadataUnavailable));
    assert!(!runtime_error_fatal(HydraError::RegistrationFailed));

    assert!(!surfaced_to_host(HydraError::Cancelled));
    assert!(surfaced_to_host(HydraError::ConsumerFatal));
}

#[test]
fn callbacks_store_what_they_are_given() {
    let cb: Callbacks<fn(u64, u64), fn(String)> = Callbacks::new(None, None);
    assert!(cb.event_to_client.is_none());
    assert!(cb.runtime_error.is_none());

    fn on_error(_e: String) {}
    let cb2: Callbacks<fn(u64, u64), fn(String)> = Callbacks::new(None, Some(on_error));
    assert!(cb2.runtime_error.is_some());
}
