use vstd::prelude::*;

verus! {

/// The error kinds of the replication log and its alignment.
///
/// - `OutOfBound`: a timestamp lies so far in the future that its interval
///   cannot be classified; the event carrying it is dropped.
/// - `ConfigurationMismatch`: two digests were produced under different
///   configurations and cannot be compared.
/// - `StorageIncompatible`: the storage backend keeps full history, which the
///   log of latest values cannot replicate.
#[derive(Clone, Copy, Debug, PartialEq, Eq, Structural)]
pub enum ReplicationError {
    OutOfBound,
    ConfigurationMismatch,
    StorageIncompatible,
}

impl ReplicationError {
    /// A short description of the error.
    pub fn describe(&self) -> (r: &'static str) {
        match self {
            ReplicationError::OutOfBound => "timestamp lies beyond the last classifiable interval",
            ReplicationError::ConfigurationMismatch => "digests were produced under different configurations",
            ReplicationError::StorageIncompatible => "storage keeps full history, not only the latest values",
        }
    }
}

} // verus!
