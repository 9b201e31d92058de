use vstd::prelude::*;

verus! {

/// Every way in which naming can fail; each one is fatal to the invocation.
#[derive(Debug, Clone, Copy, PartialEq, Eq, Structural)]
pub enum LinkError {
    InvalidName,
    InvalidSuffix,
    InvalidHardwareAddress,
    InvalidPrefix,
    DeviceLookupError,
    DeviceAttributeError,
    MalformedRecordError,
    SequenceParseError,
    IoError,
    LockError,
}

} // verus!
