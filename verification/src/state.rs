//! Plain state kinds tracked by the desktop front end.

use vstd::prelude::*;

use crate::ids::{BuildId, DeviceId, FirmwareId};

verus! {

/// Activity bar / sidebar section.
#[derive(Clone, Copy, Debug, PartialEq, Eq, Structural)]
pub enum SidebarSection {
    Firmware,
    Adapters,
    Devices,
}

/// Which stream a configured serial port carries.
#[derive(Clone, Copy, Debug, PartialEq, Eq, Hash, Structural)]
pub enum SerialAdapterType {
    Usart1,
    Usart2,
}

/// Connection status of a configured serial port.
#[derive(Clone, Copy, Debug, PartialEq, Eq, Structural)]
pub enum SerialPortStatus {
    /// Background loop is trying to open the port.
    Connecting,
    /// Port is open, waiting for valid device data.
    PortOpen,
    /// Device detected — ephemeral device created.
    DeviceDetected,
    /// Port couldn't be opened (retrying).
    Error,
}

/// Capabilities the front end tracks as presence flags.
#[derive(Clone, Copy, Debug, PartialEq, Eq, Hash, Structural)]
pub enum KnownCapability {
    SifliDebug,
    Ipc,
}

/// How a device came to be known.
#[derive(Clone, Copy, Debug, PartialEq, Eq, Structural)]
pub enum DeviceKind {
    Persistent,
    Ephemeral,
    Emulator,
}

/// What the device is currently running, as far as the host can tell.
#[derive(Clone, Copy, Debug, PartialEq, Eq, Structural)]
pub enum DevicePhase {
    /// Power unstable — seeing repeated SFBL resets.
    Stabilizing,
    /// SiFli bootrom — stable, ready for debug entry.
    Bootrom,
    /// rcard bootloader running.
    Bootloader,
    /// Hubris kernel running.
    Kernel,
    /// Phase unknown (e.g. emulator, or no sentinel seen yet).
    Unknown,
}

/// Severity of a compiler diagnostic.
#[derive(Clone, Copy, Debug, PartialEq, Eq, Structural)]
pub enum DiagnosticLevel {
    Warning,
    Error,
    Note,
    Help,
}

/// A rendered compiler diagnostic.
#[derive(Clone, Debug)]
pub struct Diagnostic {
    pub level: DiagnosticLevel,
    /// Name of the crate that emitted this message.
    pub crate_name: String,
    /// Full rendered message.
    pub rendered: String,
}

/// Panes of the firmware sidebar split.
#[derive(Clone, Copy, Debug, PartialEq, Eq, Structural)]
pub enum SidebarPane {
    Build,
    FirmwareList,
}

/// Stable serial config index (not an ID — just the position in the list).
pub type SerialPortIndex = usize;

/// A pane in the tiled main area.
#[derive(Clone, Copy, Debug, PartialEq, Eq, Structural)]
pub enum Pane {
    /// Device log viewer.
    DeviceLogs(DeviceId),
    /// Device protocol inspector.
    DeviceProtocol(DeviceId),
    /// Renode emulator management view (emulator devices only).
    DeviceRenode(DeviceId),
    /// Unified build / firmware panel.
    Firmware(BuildId),
    /// USART1 serial adapter management view (raw terminal).
    SerialAdapter(SerialPortIndex),
    /// USART2 Logs sub-pane.
    SerialAdapterLogs(SerialPortIndex),
    /// USART2 Control sub-pane.
    SerialAdapterControl(SerialPortIndex),
}

/// What the Renode panel asked for.
#[derive(Clone, Copy, Debug, PartialEq, Eq, Structural)]
pub enum RenodeAction {
    NoAction,
    Kill,
}

/// What the firmware status panel asked for.
#[derive(Clone, Copy, Debug, PartialEq, Eq, Structural)]
pub enum FirmwareAction {
    NoAction,
    RunEmulator,
    Flash,
}

/// A frontend-tracked adapter.
pub struct AdapterHandle {
    pub id: crate::ids::AdapterId,
    pub display_name: String,
    /// If this adapter carries IPC, the transport label (e.g. `"usb"`,
    /// `"usart2"`) and its priority.
    pub ipc_transport: Option<(&'static str, u8)>,
}

impl AdapterHandle {
    /// An adapter record holding exactly the given fields.
    pub fn new(
        id: crate::ids::AdapterId,
        display_name: String,
        ipc_transport: Option<(&'static str, u8)>,
    ) -> (h: Self)
        ensures
            h.id == id,
            h.display_name == display_name,
            h.ipc_transport == ipc_transport,
    {
        AdapterHandle { id, display_name, ipc_transport }
    }
}

/// How a device will be flashed.
#[derive(Clone, Debug, PartialEq, Eq)]
pub enum FlashMethod {
    /// Through the device's IPC tunnel, over the named transport.
    Ipc { transport: &'static str },
    /// Through SifliDebug on USART1.
    SifliDebug,
}

} // verus!
