//! Identifiers shared by the device, firmware and build bookkeeping.

use vstd::prelude::*;

verus! {

/// Unique identifier for a connected adapter.
#[derive(Clone, Copy, Debug, PartialEq, Eq, Hash, Structural)]
pub struct AdapterId(pub u64);

/// Stable device identifier. Monotonic, eventually persisted in config.
#[derive(Clone, Copy, Debug, PartialEq, Eq, Hash, Structural)]
pub struct DeviceId(pub u64);

/// Stable firmware identifier. Monotonic.
#[derive(Clone, Copy, Debug, PartialEq, Eq, Hash, Structural)]
pub struct FirmwareId(pub u64);

/// Stable build identifier. Monotonic.
#[derive(Clone, Copy, Debug, PartialEq, Eq, Hash, Structural)]
pub struct BuildId(pub u64);

/// 128-bit chip UID from eFuse bank 0.
#[derive(Clone, Copy, Debug, PartialEq, Eq, Hash)]
pub struct ChipUid(pub [u8; 16]);

} // verus!
