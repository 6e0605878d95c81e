//! Host-supplied configuration and the callback bundle.

use vstd::prelude::*;

verus! {

use crate::errors::HydraError;

/// Optional host-supplied sinks. `event_to_client` is invoked once per record
/// delivered to the host channel; `runtime_error` is invoked on every
/// non-fatal error. The callables are opaque to the core: it only stores and
/// hands them back.
pub struct Callbacks<EF, RF> {
    pub event_to_client: Option<EF>,
    pub runtime_error: Option<RF>,
}

impl<EF, RF> Callbacks<EF, RF> {
    pub fn new(etc: Option<EF>, re: Option<RF>) -> (r: Self)
        ensures
            r.event_to_client == etc,
            r.runtime_error == re,
    {
        Self { event_to_client: etc, runtime_error: re }
    }
}

/// One record handed to the host through the bounded output channel.
pub struct ConsumedRecord {}

/// Core configuration, read-only after construction. The consumer adapter and
/// the service clients are held by the host-side shell, not by the core.
pub struct Config {
    pub buffer_size: usize,
    pub kinesis_stream_name: String,
    pub checkpoints_table_name: String,
    pub clients_table_name: String,
    pub application_name: String,
    pub client_name: String,
}

/// Whether a configuration is acceptable for startup: non-empty stream and
/// table names, a non-empty worker identity, and a positive channel capacity.
pub open spec fn config_valid(c: &Config) -> bool {
    &&& c.buffer_size > 0
    &&& c.kinesis_stream_name@.len() > 0
    &&& c.checkpoints_table_name@.len() > 0
    &&& c.clients_table_name@.len() > 0
    &&& c.client_name@.len() > 0
}

/// True iff the string holds at least one character.
pub fn string_nonempty(s: &String) -> (r: bool)
    ensures
        r == (s@.len() > 0),
{
    let empty = String::new();
    let is_empty = *s == empty;
    proof {
        if s@.len() == 0 {
            assert(s@ =~= Seq::<char>::empty());
        }
    }
    !is_empty
}

impl Config {
    /// Startup validation: accepts exactly the configurations that
    /// `config_valid` describes, and rejects the rest as `ConfigInvalid`.
    pub fn validate(&self) -> (r: Result<(), HydraError>)
        ensures
            r is Ok <==> config_valid(self),
            r is Err ==> r == Result::<(), HydraError>::Err(HydraError::ConfigInvalid),
    {
        if self.buffer_size == 0 {
            return Err(HydraError::ConfigInvalid);
        }
        if !string_nonempty(&self.kinesis_stream_name) {
            return Err(HydraError::ConfigInvalid);
        }
        if !string_nonempty(&self.checkpoints_table_name) {
            return Err(HydraError::ConfigInvalid);
        }
        if !string_nonempty(&self.clients_table_name) {
            return Err(HydraError::ConfigInvalid);
        }
        if !string_nonempty(&self.client_name) {
            return Err(HydraError::ConfigInvalid);
        }
        Ok(())
    }
}

} // verus!
