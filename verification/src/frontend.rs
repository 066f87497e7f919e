//! The front end's model of adapters, devices, builds and serial ports,
//! and how each event from the bridge changes it. Panes and other
//! presentation are left to the caller, which gets the pane changes an
//! event calls for as [`UiAction`]s.

use vstd::prelude::*;

use crate::bridge::FlashPhase;
use crate::devices::{stamps_sorted, DeviceHandle};
use crate::ids::{AdapterId, BuildId, DeviceId, FirmwareId};
use crate::pipeline::{
    CrateView, crate_slot, fresh_crate, named_sizes, texts, upsert, upsert_named, BuildHandle, BuildStatus, CrateBuildState,
    CrateKind, CrateProgress, FirmwareHandle, HostCrateBuildState, ImageProgress, MemoryAllocation, MemoryDevice,
    PipelinePhase, ResourceSummary,
};
use crate::state::{Diagnostic, DiagnosticLevel};
use crate::text::{push_char, push_str};
use crate::port_registry::PortIdentity;
use crate::state::{AdapterHandle, DeviceKind, DevicePhase, KnownCapability, SerialAdapterType, SerialPortStatus};

verus! {

/// A configured serial port. `S` is a decoded structured log entry and `C`
/// a decoded control event (both USART2 only).
pub struct SerialPortConfig<S, C> {
    pub port: String,
    pub adapter_type: SerialAdapterType,
    pub status: SerialPortStatus,
    /// USB identity for the persistent registry.
    pub identity: Option<PortIdentity>,
    /// The device detected on the port, if any.
    pub device_id: Option<DeviceId>,
    /// USART1 only: raw text lines off the wire.
    pub raw_lines: Vec<String>,
    /// USART2 only: decoded structured log entries.
    pub structured_logs: Vec<S>,
    /// USART2 only: decoded control events.
    pub control_events: Vec<C>,
}

/// The flash dialog.
pub enum FlashModalState {
    /// Picking a device to flash.
    Picker { firmware_id: FirmwareId, selected_device: Option<DeviceId> },
    /// Flash in progress.
    Flashing { firmware_id: FirmwareId, device_id: DeviceId, phase: FlashPhase },
}

/// Pane changes an event calls for.
#[derive(Clone, Copy, Debug, PartialEq, Eq, Structural)]
pub enum UiAction {
    /// Open (or focus) the device's panes.
    OpenDevice(DeviceId),
    /// Close every pane of the device.
    CloseDevicePanes(DeviceId),
    /// Panes of `old_id` now show `new_id`.
    RetargetDevicePanes { old_id: DeviceId, new_id: DeviceId },
    /// The stub of a flash came up: try an IPC call to it.
    IpcSmokeTest(DeviceId),
    /// The device runs this loaded firmware: load its IPC schema.
    FirmwareMatched { device_id: DeviceId, firmware_id: FirmwareId },
}

/// The front end's data.
pub struct FrontendState<L, S, C> {
    /// Known adapters, one per id.
    pub adapters: Vec<AdapterHandle>,
    /// Known devices, one per id.
    pub devices: Vec<DeviceHandle<L>>,
    /// Loaded firmware.
    pub firmware: Vec<FirmwareHandle>,
    /// Builds, one per id.
    pub builds: Vec<BuildHandle>,
    /// Configured serial ports, by index.
    pub serial_ports: Vec<SerialPortConfig<S, C>>,
    pub flash_modal: Option<FlashModalState>,
    /// The id the next device gets.
    pub next_device_id: u64,
    /// The id the next firmware gets.
    pub next_firmware_id: u64,
    /// The id the next build gets.
    pub next_build_id: u64,
}

/// Position of the first device with id `id`, or the length.
pub open spec fn device_slot<L>(ds: Seq<DeviceHandle<L>>, id: DeviceId) -> int
    decreases ds.len(),
{
    if ds.len() == 0 {
        0
    } else if ds[0].id == id {
        0
    } else {
        1 + device_slot(ds.drop_first(), id)
    }
}

proof fn lemma_device_slot<L>(ds: Seq<DeviceHandle<L>>, id: DeviceId)
    ensures
        0 <= device_slot(ds, id) <= ds.len(),
        device_slot(ds, id) < ds.len() ==> ds[device_slot(ds, id)].id == id,
        forall|j: int| 0 <= j < device_slot(ds, id) ==> (#[trigger] ds[j]).id != id,
    decreases ds.len(),
{
    if ds.len() > 0 && ds[0].id != id {
        lemma_device_slot(ds.drop_first(), id);
        assert forall|j: int| 0 <= j < device_slot(ds, id) implies (#[trigger] ds[j]).id != id by {
            if j > 0 {
                assert(ds[j] == ds.drop_first()[j - 1]);
            }
        }
    }
}

/// Some device has id `id`.
pub open spec fn has_device<L>(ds: Seq<DeviceHandle<L>>, id: DeviceId) -> bool {
    exists|i: int| 0 <= i < ds.len() && (#[trigger] ds[i]).id == id
}

/// Devices have distinct ids and their logs are in stamp order.
pub open spec fn devices_ok<L>(ds: Seq<DeviceHandle<L>>) -> bool {
    &&& forall|i: int, j: int| 0 <= i < j < ds.len() ==> (#[trigger] ds[i]).id != (#[trigger] ds[j]).id
    &&& forall|i: int| 0 <= i < ds.len() ==> (#[trigger] ds[i]).well_formed()
    &&& forall|i: int| 0 <= i < ds.len() ==> links_ok(#[trigger] ds[i])
}

/// A device that lost all its adapters and is not kept: ephemeral and
/// emulator devices.
pub open spec fn orphan<L>(d: DeviceHandle<L>) -> bool {
    (d.kind == DeviceKind::Ephemeral || d.kind == DeviceKind::Emulator) && d.adapter_ids@.len() == 0
}

impl<L, S, C> FrontendState<L, S, C> {
    /// Devices have distinct ids and ordered logs.
    pub open spec fn well_formed(&self) -> bool {
        devices_ok(self.devices@)
    }

    /// Nothing known yet.
    pub fn new() -> (s: Self)
        ensures
            s.well_formed(),
            s.adapters@.len() == 0,
            s.devices@.len() == 0,
            s.firmware@.len() == 0,
            s.builds@.len() == 0,
            s.serial_ports@.len() == 0,
            s.flash_modal.is_none(),
    {
        FrontendState {
            adapters: Vec::new(),
            devices: Vec::new(),
            firmware: Vec::new(),
            builds: Vec::new(),
            serial_ports: Vec::new(),
            flash_modal: None,
            next_device_id: 0,
            next_firmware_id: 0,
            next_build_id: 0,
        }
    }

    /// Index of the device with id `id`.
    fn find_device(&self, id: DeviceId) -> (r: Option<usize>)
        requires
            self.well_formed(),
        ensures
            r matches Some(i) ==> i < self.devices@.len() && self.devices@[i as int].id == id,
            r is None <==> !has_device(self.devices@, id),
    {
        let mut i: usize = 0;
        while i < self.devices.len()
            invariant
                i <= self.devices@.len(),
                forall|k: int| 0 <= k < i ==> (#[trigger] self.devices@[k]).id != id,
            decreases self.devices.len() - i,
        {
            if self.devices[i].id == id {
                return Some(i);
            }
            i += 1;
        }
        None
    }

    /// Serial ports that pointed at a removed device go back to connecting.
    fn release_serial_ports(&mut self, device_id: DeviceId)
        ensures
            final(self).serial_ports@.len() == old(self).serial_ports@.len(),
            forall|i: int| 0 <= i < final(self).serial_ports@.len() ==> #[trigger] final(self).serial_ports@[i] == released(
                old(self).serial_ports@[i],
                seq![device_id],
            ),
            final(self).devices == old(self).devices,
            final(self).adapters == old(self).adapters,
            final(self).builds == old(self).builds,
            final(self).firmware == old(self).firmware,
            final(self).flash_modal == old(self).flash_modal,
    {
        let ghost before = self.serial_ports@;
        let mut i: usize = 0;
        while i < self.serial_ports.len()
            invariant
                i <= self.serial_ports@.len(),
                self.serial_ports@.len() == before.len(),
                forall|k: int| i <= k < before.len() ==> #[trigger] self.serial_ports@[k] == before[k],
                forall|k: int| 0 <= k < i ==> #[trigger] self.serial_ports@[k] == released(before[k], seq![device_id]),
                self.devices == old(self).devices,
                self.adapters == old(self).adapters,
                self.builds == old(self).builds,
                self.firmware == old(self).firmware,
                self.flash_modal == old(self).flash_modal,
            decreases self.serial_ports.len() - i,
        {
            assert(seq![device_id].contains(device_id) && (forall|x: DeviceId| seq![device_id].contains(x) ==> x == device_id)) by {
                assert(seq![device_id][0] == device_id);
            }
            if self.serial_ports[i].device_id == Some(device_id) {
                let cfg = &mut self.serial_ports[i];
                cfg.device_id = None;
                cfg.status = SerialPortStatus::Connecting;
            }
            i += 1;
        }
    }

    /// Permanently remove a device: drop it, release the serial ports that
    /// pointed at it and close its panes.
    pub fn remove_device(&mut self, device_id: DeviceId, actions: &mut Vec<UiAction>)
        requires
            old(self).well_formed(),
        ensures
            final(self).well_formed(),
            !has_device(final(self).devices@, device_id),
            forall|i: int|
                0 <= i < old(self).devices@.len() && (#[trigger] old(self).devices@[i]).id != device_id
                    ==> final(self).devices@.contains(old(self).devices@[i]),
            forall|i: int| 0 <= i < final(self).devices@.len() ==> old(self).devices@.contains(#[trigger] final(self).devices@[i]),
            final(self).serial_ports@.len() == old(self).serial_ports@.len(),
            forall|i: int| 0 <= i < final(self).serial_ports@.len() ==> #[trigger] final(self).serial_ports@[i] == released(
                old(self).serial_ports@[i],
                seq![device_id],
            ),
            final(actions)@ == old(actions)@.push(UiAction::CloseDevicePanes(device_id)),
            final(self).adapters == old(self).adapters,
            final(self).builds == old(self).builds,
            final(self).flash_modal == old(self).flash_modal,
    {
        match self.find_device(device_id) {
            Some(i) => {
                let ghost ds = self.devices@;
                self.devices.remove(i);
                proof {
                    let es = self.devices@;
                    assert forall|a: int, b: int| 0 <= a < b < es.len() implies (#[trigger] es[a]).id != (#[trigger] es[b]).id by {
                        let a2 = if a < i { a } else { a + 1 };
                        let b2 = if b < i { b } else { b + 1 };
                        assert(es[a] == ds[a2] && es[b] == ds[b2]);
                    }
                    assert forall|a: int| 0 <= a < es.len() implies (#[trigger] es[a]).well_formed() by {
                        let a2 = if a < i { a } else { a + 1 };
                        assert(es[a] == ds[a2]);
                    }
                    assert forall|k: int| 0 <= k < es.len() implies (#[trigger] es[k]).id != device_id by {
                        let k2 = if k < i { k } else { k + 1 };
                        assert(es[k] == ds[k2]);
                    }
                    assert forall|k: int| 0 <= k < ds.len() && (#[trigger] ds[k]).id != device_id implies es.contains(
                        ds[k],
                    ) by {
                        if k < i {
                            assert(es[k] == ds[k]);
                        } else {
                            assert(es[k - 1] == ds[k]);
                        }
                    }
                    assert forall|k: int| 0 <= k < es.len() implies ds.contains(#[trigger] es[k]) by {
                        let k2 = if k < i { k } else { k + 1 };
                        assert(es[k] == ds[k2]);
                    }
                }
            },
            None => {
                assert forall|k: int| 0 <= k < self.devices@.len() implies old(self).devices@.contains(#[trigger] self.devices@[k]) by {
                    assert(self.devices@[k] == old(self).devices@[k]);
                }
                assert forall|k: int|
                    0 <= k < old(self).devices@.len() && (#[trigger] old(self).devices@[k]).id != device_id implies self.devices@.contains(
                    old(self).devices@[k],
                ) by {
                    assert(self.devices@[k] == old(self).devices@[k]);
                }
            },
        }
        self.release_serial_ports(device_id);
        actions.push(UiAction::CloseDevicePanes(device_id));
    }
}

/// Devices that are not orphans.
pub open spec fn kept_device<L>() -> spec_fn(DeviceHandle<L>) -> bool {
    |d: DeviceHandle<L>| !orphan(d)
}

/// A kept device after the orphan sweep: persistent devices left without
/// adapters go back to phase unknown.
pub open spec fn settled<L>(d: DeviceHandle<L>) -> DeviceHandle<L> {
    if d.kind == DeviceKind::Persistent && d.adapter_ids@.len() == 0 {
        DeviceHandle { phase: DevicePhase::Unknown, ..d }
    } else {
        d
    }
}

/// The devices that survive the orphan sweep, in order, settled.
pub open spec fn sweep<L>(ds: Seq<DeviceHandle<L>>) -> Seq<DeviceHandle<L>>
    decreases ds.len(),
{
    if ds.len() == 0 {
        Seq::empty()
    } else if orphan(ds.last()) {
        sweep(ds.drop_last())
    } else {
        sweep(ds.drop_last()).push(settled(ds.last()))
    }
}

/// The ids of the orphans, in order.
pub open spec fn orphan_ids<L>(ds: Seq<DeviceHandle<L>>) -> Seq<DeviceId>
    decreases ds.len(),
{
    if ds.len() == 0 {
        Seq::empty()
    } else if orphan(ds.last()) {
        orphan_ids(ds.drop_last()).push(ds.last().id)
    } else {
        orphan_ids(ds.drop_last())
    }
}

/// The serial port after the devices with ids in `gone` were removed.
pub open spec fn released<S, C>(p: SerialPortConfig<S, C>, gone: Seq<DeviceId>) -> SerialPortConfig<S, C> {
    match p.device_id {
        Some(d) => if gone.contains(d) {
            SerialPortConfig { device_id: None, status: SerialPortStatus::Connecting, ..p }
        } else {
            p
        },
        None => p,
    }
}

proof fn lemma_sweep_facts<L>(ds: Seq<DeviceHandle<L>>)
    requires
        devices_ok(ds),
    ensures
        devices_ok(sweep(ds)),
        forall|i: int| 0 <= i < sweep(ds).len() ==> !orphan(#[trigger] sweep(ds)[i]),
        forall|i: int| 0 <= i < sweep(ds).len() ==> exists|j: int| 0 <= j < ds.len() && #[trigger] sweep(ds)[i] == settled(ds[j]),
    decreases ds.len(),
{
    if ds.len() > 0 {
        let w = ds.drop_last();
        assert(devices_ok(w)) by {
            assert forall|a: int, b: int| 0 <= a < b < w.len() implies (#[trigger] w[a]).id != (#[trigger] w[b]).id by {
                assert(w[a] == ds[a] && w[b] == ds[b]);
            }
            assert forall|a: int| 0 <= a < w.len() implies (#[trigger] w[a]).well_formed() by {
                assert(w[a] == ds[a]);
            }
        }
        lemma_sweep_facts(w);
        assert forall|i: int| 0 <= i < sweep(ds).len() implies exists|j: int| 0 <= j < ds.len() && #[trigger] sweep(ds)[i] == settled(ds[j]) by {
            if i < sweep(w).len() {
                let j = choose|j: int| 0 <= j < w.len() && sweep(w)[i] == settled(w[j]);
                assert(w[j] == ds[j]);
                assert(sweep(ds)[i] == sweep(w)[i]);
            } else {
                assert(sweep(ds)[i] == settled(ds[ds.len() - 1]));
            }
        }
        if !orphan(ds.last()) {
            let sw = sweep(w);
            let sd = sweep(ds);
            assert forall|a: int| 0 <= a < sw.len() implies (#[trigger] sw[a]).id != ds.last().id by {
                let j = choose|j: int| 0 <= j < w.len() && sw[a] == settled(w[j]);
                assert(w[j] == ds[j]);
            }
            assert forall|a: int, b: int| 0 <= a < b < sd.len() implies (#[trigger] sd[a]).id != (#[trigger] sd[b]).id by {
                if b < sw.len() {
                    assert(sd[a] == sw[a] && sd[b] == sw[b]);
                } else {
                    assert(sd[a] == sw[a]);
                }
            }
            assert forall|a: int| 0 <= a < sd.len() implies (#[trigger] sd[a]).well_formed() by {
                if a < sw.len() {
                    assert(sd[a] == sw[a]);
                } else {
                    assert(ds[ds.len() - 1].well_formed());
                }
            }
        }
    }
}

impl<L, S, C> FrontendState<L, S, C> {
    /// Remove the ephemeral and emulator devices that lost all adapters
    /// (closing their panes and releasing their serial ports), and reset
    /// persistent devices without adapters to phase unknown.
    pub fn cleanup_orphaned_devices(&mut self, actions: &mut Vec<UiAction>)
        requires
            old(self).well_formed(),
        ensures
            final(self).well_formed(),
            final(self).devices@ == sweep(old(self).devices@),
            final(self).serial_ports@.len() == old(self).serial_ports@.len(),
            forall|i: int| 0 <= i < final(self).serial_ports@.len() ==> #[trigger] final(self).serial_ports@[i] == released(
                old(self).serial_ports@[i],
                orphan_ids(old(self).devices@),
            ),
            final(actions)@ == old(actions)@ + orphan_ids(old(self).devices@).map_values(|d: DeviceId| UiAction::CloseDevicePanes(d)),
            final(self).adapters == old(self).adapters,
            final(self).builds == old(self).builds,
            final(self).firmware == old(self).firmware,
            final(self).flash_modal == old(self).flash_modal,
    {
        let ghost ds = self.devices@;
        let ghost ports0 = self.serial_ports@;
        let ghost acts0 = actions@;
        let mut i: usize = 0;
        let ghost mut k: int = 0;
        proof {
            assert(ds.subrange(0, 0) =~= Seq::<DeviceHandle<L>>::empty());
            assert(self.devices@ =~= Seq::<DeviceHandle<L>>::empty() + ds.subrange(0, ds.len() as int));
        }
        // First pass: drop the orphans, keeping the order of the rest.
        while i < self.devices.len()
            invariant
                0 <= k <= ds.len(),
                devices_ok(ds),
                ds.subrange(0, k).filter(kept_device()).len() == i,
                self.devices@ == ds.subrange(0, k).filter(kept_device()) + ds.subrange(k, ds.len() as int),
                self.serial_ports@.len() == ports0.len(),
                forall|p: int| 0 <= p < ports0.len() ==> #[trigger] self.serial_ports@[p] == released(
                    ports0[p],
                    orphan_ids(ds.subrange(0, k)),
                ),
                actions@ == acts0 + orphan_ids(ds.subrange(0, k)).map_values(|d: DeviceId| UiAction::CloseDevicePanes(d)),
                self.adapters == old(self).adapters,
                self.builds == old(self).builds,
                self.firmware == old(self).firmware,
                self.flash_modal == old(self).flash_modal,
            decreases self.devices@.len() - i,
        {
            let ghost pre = ds.subrange(0, k);
            let ghost nxt = ds.subrange(0, k + 1);
            assert(self.devices@[i as int] == ds[k]);
            assert(nxt.drop_last() =~= pre);
            assert(nxt.last() == ds[k]);
            reveal(Seq::filter);
            let d = &self.devices[i];
            let is_orphan = (d.kind == DeviceKind::Ephemeral || d.kind == DeviceKind::Emulator) && d.adapter_ids.len() == 0;
            if is_orphan {
                let id = d.id;
                let ghost before = self.devices@;
                self.devices.remove(i);
                assert(self.devices@ =~= nxt.filter(kept_device()) + ds.subrange(k + 1, ds.len() as int));
                let ghost sp = self.serial_ports@;
                self.release_serial_ports(id);
                assert forall|p: int| 0 <= p < ports0.len() implies #[trigger] self.serial_ports@[p] == released(
                    ports0[p],
                    orphan_ids(nxt),
                ) by {
                    assert(orphan_ids(nxt) == orphan_ids(pre).push(id));
                    assert(sp[p] == released(ports0[p], orphan_ids(pre)));
                    assert(seq![id].contains(id)) by {
                        assert(seq![id][0] == id);
                    }
                    match ports0[p].device_id {
                        Some(x) => {
                            assert(orphan_ids(nxt).contains(x) <==> (orphan_ids(pre).contains(x) || x == id)) by {
                                if x == id {
                                    assert(orphan_ids(nxt)[orphan_ids(nxt).len() - 1] == id);
                                }
                                if orphan_ids(pre).contains(x) {
                                    let q = choose|q: int| 0 <= q < orphan_ids(pre).len() && orphan_ids(pre)[q] == x;
                                    assert(orphan_ids(nxt)[q] == x);
                                }
                                if orphan_ids(nxt).contains(x) && x != id {
                                    let q = choose|q: int| 0 <= q < orphan_ids(nxt).len() && orphan_ids(nxt)[q] == x;
                                    assert(orphan_ids(pre)[q] == x);
                                }
                            }
                        },
                        None => {},
                    }
                }
                let ghost a0 = actions@;
                actions.push(UiAction::CloseDevicePanes(id));
                assert(actions@ =~= acts0 + orphan_ids(nxt).map_values(|d: DeviceId| UiAction::CloseDevicePanes(d)));
            } else {
                assert(self.devices@ =~= nxt.filter(kept_device()) + ds.subrange(k + 1, ds.len() as int));
                assert(orphan_ids(nxt) == orphan_ids(pre));
                i += 1;
            }
            proof {
                k = k + 1;
            }
        }
        proof {
            assert(k == ds.len()) by {
                if k < ds.len() {
                    assert(self.devices@.len() > i);
                }
            }
            assert(ds.subrange(0, k) =~= ds);
        }
        let ghost kept = self.devices@;
        // Second pass: persistent devices without adapters are disconnected.
        let mut j: usize = 0;
        while j < self.devices.len()
            invariant
                j <= self.devices@.len(),
                self.devices@.len() == kept.len(),
                forall|m: int| 0 <= m < j ==> #[trigger] self.devices@[m] == settled(kept[m]),
                forall|m: int| j <= m < kept.len() ==> #[trigger] self.devices@[m] == kept[m],
                self.serial_ports@.len() == ports0.len(),
                forall|p: int| 0 <= p < ports0.len() ==> #[trigger] self.serial_ports@[p] == released(
                    ports0[p],
                    orphan_ids(ds),
                ),
                self.adapters == old(self).adapters,
                self.builds == old(self).builds,
                self.firmware == old(self).firmware,
                self.flash_modal == old(self).flash_modal,
            decreases self.devices.len() - j,
        {
            if self.devices[j].kind == DeviceKind::Persistent && self.devices[j].adapter_ids.len() == 0 {
                let dev = &mut self.devices[j];
                dev.phase = DevicePhase::Unknown;
            }
            j += 1;
        }
        proof {
            lemma_sweep_is_settled_filter(ds);
            assert(self.devices@ =~= sweep(ds));
            lemma_sweep_facts(ds);
        }
    }
}

proof fn lemma_sweep_is_settled_filter<L>(ds: Seq<DeviceHandle<L>>)
    ensures
        sweep(ds).len() == ds.filter(kept_device()).len(),
        forall|i: int| 0 <= i < sweep(ds).len() ==> #[trigger] sweep(ds)[i] == settled(ds.filter(kept_device())[i]),
    decreases ds.len(),
{
    reveal(Seq::filter);
    if ds.len() > 0 {
        lemma_sweep_is_settled_filter(ds.drop_last());
    }
}

/// Ids other than `a`.
pub open spec fn other_adapter(a: AdapterId) -> spec_fn(AdapterId) -> bool {
    |x: AdapterId| x != a
}

/// Capability entries of adapters other than `a`.
pub open spec fn other_entry(a: AdapterId) -> spec_fn((AdapterId, KnownCapability)) -> bool {
    |e: (AdapterId, KnownCapability)| e.0 != a
}

/// Adapter records of adapters other than `a`.
pub open spec fn other_handle(a: AdapterId) -> spec_fn(AdapterHandle) -> bool {
    |h: AdapterHandle| h.id != a
}

/// A device's adapter links hold together: each adapter is listed once,
/// and every capability comes from a listed adapter.
pub open spec fn links_ok<L>(d: DeviceHandle<L>) -> bool {
    &&& d.adapter_ids@.no_duplicates()
    &&& forall|k: int| 0 <= k < d.capabilities@.len() ==> d.adapter_ids@.contains(#[trigger] d.capabilities@[k].0)
}

proof fn lemma_seq_contains_last<A>(s: Seq<A>, x: A)
    requires
        s.len() > 0,
    ensures
        s.contains(x) <==> s.drop_last().contains(x) || x == s.last(),
{
    let d = s.drop_last();
    if s.contains(x) {
        let i = choose|i: int| 0 <= i < s.len() && s[i] == x;
        if i < s.len() - 1 {
            assert(d[i] == x);
        }
    }
    if d.contains(x) {
        let i = choose|i: int| 0 <= i < d.len() && d[i] == x;
        assert(s[i] == x);
    }
    if x == s.last() {
        assert(s[s.len() - 1] == x);
    }
}

proof fn lemma_filter_keeps<A>(s: Seq<A>, p: spec_fn(A) -> bool)
    ensures
        s.no_duplicates() ==> s.filter(p).no_duplicates(),
        forall|x: A| #[trigger] s.filter(p).contains(x) <==> s.contains(x) && p(x),
    decreases s.len(),
{
    if s.len() > 0 {
        let d = s.drop_last();
        let fd = d.filter(p);
        let f = s.filter(p);
        lemma_filter_keeps(d, p);
        reveal(Seq::filter);
        assert(f == (if p(s.last()) { fd.push(s.last()) } else { fd }));
        assert forall|x: A| #[trigger] f.contains(x) <==> s.contains(x) && p(x) by {
            lemma_seq_contains_last(s, x);
            if p(s.last()) {
                lemma_seq_contains_last(f, x);
                assert(f.drop_last() =~= fd);
            }
        }
        if s.no_duplicates() {
            assert(!d.contains(s.last())) by {
                if d.contains(s.last()) {
                    let i = choose|i: int| 0 <= i < d.len() && d[i] == s.last();
                    assert(s[i] == s[s.len() - 1]);
                }
            }
            assert(d.no_duplicates()) by {
                assert forall|i: int, j: int| 0 <= i < d.len() && 0 <= j < d.len() && i != j implies d[i] != d[j] by {
                    assert(d[i] == s[i] && d[j] == s[j]);
                }
            }
            if p(s.last()) {
                assert(!fd.contains(s.last()));
                assert forall|i: int, j: int| 0 <= i < f.len() && 0 <= j < f.len() && i != j implies f[i] != f[j] by {
                    if i < fd.len() && j < fd.len() {
                        assert(f[i] == fd[i] && f[j] == fd[j]);
                    } else if i == fd.len() {
                        assert(f[j] == fd[j]);
                        assert(fd.contains(fd[j]));
                    } else {
                        assert(f[i] == fd[i]);
                        assert(fd.contains(fd[i]));
                    }
                }
            }
        }
    } else {
        reveal(Seq::filter);
        assert(s.filter(p) =~= s);
    }
}

proof fn lemma_caps_filter_contains(s: Seq<(AdapterId, KnownCapability)>, a: AdapterId)
    ensures
        forall|x: (AdapterId, KnownCapability)| #[trigger] s.filter(other_entry(a)).contains(x) <==> s.contains(x) && x.0 != a,
{
    lemma_filter_keeps(s, other_entry(a));
}

/// Binding adapter `a` (with capabilities `caps`) to a device keeps its
/// links together.
pub proof fn law_links_kept_by_binding<L>(
    o: DeviceHandle<L>,
    n: DeviceHandle<L>,
    a: AdapterId,
    caps: Seq<KnownCapability>,
)
    requires
        links_ok(o),
        n.adapter_ids@ == (if o.adapter_ids@.contains(a) { o.adapter_ids@ } else { o.adapter_ids@.push(a) }),
        forall|x: (AdapterId, KnownCapability)| #[trigger] n.capabilities@.contains(x) <==> o.capabilities@.contains(x)
            || (x.0 == a && caps.contains(x.1)),
    ensures
        links_ok(n),
        n.adapter_ids@.contains(a),
{
    let ids = n.adapter_ids@;
    if !o.adapter_ids@.contains(a) {
        assert(ids[ids.len() - 1] == a);
        assert forall|i: int, j: int| 0 <= i < ids.len() && 0 <= j < ids.len() && i != j implies ids[i] != ids[j] by {
            if i < ids.len() - 1 && j < ids.len() - 1 {
                assert(ids[i] == o.adapter_ids@[i] && ids[j] == o.adapter_ids@[j]);
            } else if i == ids.len() - 1 {
                assert(ids[j] == o.adapter_ids@[j]);
            } else {
                assert(ids[i] == o.adapter_ids@[i]);
            }
        }
    }
    assert forall|x: AdapterId| o.adapter_ids@.contains(x) implies ids.contains(x) by {
        if !o.adapter_ids@.contains(a) {
            let i = choose|i: int| 0 <= i < o.adapter_ids@.len() && o.adapter_ids@[i] == x;
            assert(ids[i] == x);
        }
    }
    assert(ids.contains(a)) by {
        if !o.adapter_ids@.contains(a) {
            assert(ids[ids.len() - 1] == a);
        }
    }
    assert forall|k: int| 0 <= k < n.capabilities@.len() implies ids.contains(#[trigger] n.capabilities@[k].0) by {
        let x = n.capabilities@[k];
        assert(n.capabilities@.contains(x));
        if o.capabilities@.contains(x) {
            let i = choose|i: int| 0 <= i < o.capabilities@.len() && o.capabilities@[i] == x;
            assert(o.adapter_ids@.contains(o.capabilities@[i].0));
        }
    }
}

/// Taking adapter `a` off a device keeps its links together, and leaves no
/// trace of `a`: neither in the adapter list nor among the capabilities.
pub proof fn law_links_kept_by_stripping<L>(o: DeviceHandle<L>, n: DeviceHandle<L>, a: AdapterId)
    requires
        links_ok(o),
        stripped(n, o, a),
    ensures
        links_ok(n),
        !n.adapter_ids@.contains(a),
        forall|k: int| 0 <= k < n.capabilities@.len() ==> (#[trigger] n.capabilities@[k]).0 != a,
{
    lemma_filter_keeps(o.adapter_ids@, other_adapter(a));
    lemma_caps_filter_contains(o.capabilities@, a);
    assert forall|k: int| 0 <= k < n.capabilities@.len() implies n.adapter_ids@.contains(
        #[trigger] n.capabilities@[k].0,
    ) && n.capabilities@[k].0 != a by {
        let x = n.capabilities@[k];
        assert(n.capabilities@.contains(x));
        let i = choose|i: int| 0 <= i < o.capabilities@.len() && o.capabilities@[i] == x;
        assert(o.adapter_ids@.contains(o.capabilities@[i].0));
    }
}

/// `n` is `o` with adapter `a` taken off: its id dropped from the
/// adapter list and its capability entry removed; all else equal.
pub open spec fn stripped<L>(n: DeviceHandle<L>, o: DeviceHandle<L>, a: AdapterId) -> bool {
    &&& n.adapter_ids@ == o.adapter_ids@.filter(other_adapter(a))
    &&& n.capabilities@ == o.capabilities@.filter(other_entry(a))
    &&& n.id == o.id
    &&& n.name == o.name
    &&& n.kind == o.kind
    &&& n.phase == o.phase
    &&& n.uid == o.uid
    &&& n.firmware_id == o.firmware_id
    &&& n.log_buffer == o.log_buffer
}

/// Take adapter `a` off a device.
fn strip_adapter<L>(d: &mut DeviceHandle<L>, a: AdapterId)
    ensures
        stripped(*final(d), *old(d), a),
{
    let ghost ids0 = d.adapter_ids@;
    let mut i: usize = 0;
    let ghost mut k: int = 0;
    assert(ids0.subrange(0, 0).filter(other_adapter(a)) =~= Seq::<AdapterId>::empty());
    assert(d.adapter_ids@ =~= ids0.subrange(0, 0).filter(other_adapter(a)) + ids0.subrange(0, ids0.len() as int));
    while i < d.adapter_ids.len()
        invariant
            0 <= k <= ids0.len(),
            ids0.subrange(0, k).filter(other_adapter(a)).len() == i,
            d.adapter_ids@ == ids0.subrange(0, k).filter(other_adapter(a)) + ids0.subrange(k, ids0.len() as int),
            d.capabilities == old(d).capabilities,
            d.id == old(d).id,
            d.name == old(d).name,
            d.kind == old(d).kind,
            d.phase == old(d).phase,
            d.uid == old(d).uid,
            d.firmware_id == old(d).firmware_id,
            d.log_buffer == old(d).log_buffer,
        decreases d.adapter_ids@.len() - i,
    {
        let ghost pre = ids0.subrange(0, k);
        let ghost nxt = ids0.subrange(0, k + 1);
        assert(d.adapter_ids@[i as int] == ids0[k]);
        assert(nxt.drop_last() =~= pre);
        reveal(Seq::filter);
        if d.adapter_ids[i] == a {
            d.adapter_ids.remove(i);
            assert(d.adapter_ids@ =~= nxt.filter(other_adapter(a)) + ids0.subrange(k + 1, ids0.len() as int));
        } else {
            assert(d.adapter_ids@ =~= nxt.filter(other_adapter(a)) + ids0.subrange(k + 1, ids0.len() as int));
            i += 1;
        }
        proof {
            k = k + 1;
        }
    }
    proof {
        if k < ids0.len() {
            assert(d.adapter_ids@.len() > i);
        }
        assert(ids0.subrange(0, k) =~= ids0);
        assert(d.adapter_ids@ =~= ids0.filter(other_adapter(a)));
    }
    let ghost caps0 = d.capabilities@;
    let mut j: usize = 0;
    let ghost mut m: int = 0;
    assert(caps0.subrange(0, 0).filter(other_entry(a)) =~= Seq::<(AdapterId, KnownCapability)>::empty());
    assert(d.capabilities@ =~= caps0.subrange(0, 0).filter(other_entry(a)) + caps0.subrange(0, caps0.len() as int));
    while j < d.capabilities.len()
        invariant
            0 <= m <= caps0.len(),
            caps0.subrange(0, m).filter(other_entry(a)).len() == j,
            d.capabilities@ == caps0.subrange(0, m).filter(other_entry(a)) + caps0.subrange(m, caps0.len() as int),
            d.adapter_ids@ == ids0.filter(other_adapter(a)),
            d.id == old(d).id,
            d.name == old(d).name,
            d.kind == old(d).kind,
            d.phase == old(d).phase,
            d.uid == old(d).uid,
            d.firmware_id == old(d).firmware_id,
            d.log_buffer == old(d).log_buffer,
        decreases d.capabilities@.len() - j,
    {
        let ghost pre = caps0.subrange(0, m);
        let ghost nxt = caps0.subrange(0, m + 1);
        assert(d.capabilities@[j as int] == caps0[m]);
        assert(nxt.drop_last() =~= pre);
        reveal(Seq::filter);
        if d.capabilities[j].0 == a {
            d.capabilities.remove(j);
            assert(d.capabilities@ =~= nxt.filter(other_entry(a)) + caps0.subrange(m + 1, caps0.len() as int));
        } else {
            assert(d.capabilities@ =~= nxt.filter(other_entry(a)) + caps0.subrange(m + 1, caps0.len() as int));
            j += 1;
        }
        proof {
            m = m + 1;
        }
    }
    proof {
        if m < caps0.len() {
            assert(d.capabilities@.len() > j);
        }
        assert(caps0.subrange(0, m) =~= caps0);
        assert(d.capabilities@ =~= caps0.filter(other_entry(a)));
        assert(caps0 == old(d).capabilities@);
        assert(ids0 == old(d).adapter_ids@);
        assert(d.adapter_ids@ == old(d).adapter_ids@.filter(other_adapter(a)));
        assert(d.capabilities@ == old(d).capabilities@.filter(other_entry(a)));
    }
}

impl<L, S, C> FrontendState<L, S, C> {
    /// An adapter appeared (replacing any record under its id).
    pub fn on_adapter_created(&mut self, adapter: AdapterHandle)
        ensures
            exists|i: int| 0 <= i < final(self).adapters@.len() && #[trigger] final(self).adapters@[i] == adapter,
            forall|i: int|
                0 <= i < old(self).adapters@.len() && (#[trigger] old(self).adapters@[i]).id != adapter.id
                    ==> final(self).adapters@.contains(old(self).adapters@[i]),
            forall|i: int|
                0 <= i < final(self).adapters@.len() ==> (#[trigger] final(self).adapters@[i]) == adapter
                    || old(self).adapters@.contains(final(self).adapters@[i]),
            final(self).devices == old(self).devices,
            final(self).serial_ports == old(self).serial_ports,
            final(self).builds == old(self).builds,
            final(self).firmware == old(self).firmware,
            final(self).flash_modal == old(self).flash_modal,
    {
        let mut i: usize = 0;
        while i < self.adapters.len()
            invariant
                i <= self.adapters@.len(),
                self.adapters == old(self).adapters,
                self.devices == old(self).devices,
                self.serial_ports == old(self).serial_ports,
                self.builds == old(self).builds,
                self.firmware == old(self).firmware,
                self.flash_modal == old(self).flash_modal,
                forall|k: int| 0 <= k < i ==> (#[trigger] self.adapters@[k]).id != adapter.id,
            decreases self.adapters.len() - i,
        {
            if self.adapters[i].id == adapter.id {
                let ghost a0 = self.adapters@;
                self.adapters.set(i, adapter);
                assert(self.adapters@[i as int] == adapter);
                assert forall|k: int|
                    0 <= k < a0.len() && (#[trigger] a0[k]).id != adapter.id implies self.adapters@.contains(a0[k]) by {
                    assert(self.adapters@[k] == a0[k]);
                }
                assert forall|k: int| 0 <= k < self.adapters@.len() implies (#[trigger] self.adapters@[k]) == adapter
                    || a0.contains(self.adapters@[k]) by {
                    if k != i {
                        assert(self.adapters@[k] == a0[k]);
                    }
                }
                return;
            }
            i += 1;
        }
        let ghost a0 = self.adapters@;
        self.adapters.push(adapter);
        assert(self.adapters@[a0.len() as int] == adapter);
        assert forall|k: int| 0 <= k < a0.len() && (#[trigger] a0[k]).id != adapter.id implies self.adapters@.contains(a0[k]) by {
            assert(self.adapters@[k] == a0[k]);
        }
        assert forall|k: int| 0 <= k < self.adapters@.len() implies (#[trigger] self.adapters@[k]) == adapter
            || a0.contains(self.adapters@[k]) by {
            if k < a0.len() {
                assert(self.adapters@[k] == a0[k]);
            }
        }
    }

    /// An adapter went away: forget it, take it off every device (also
    /// when it was never unbound), then sweep the orphaned devices.
    pub fn on_adapter_removed(&mut self, a: AdapterId, actions: &mut Vec<UiAction>)
        requires
            old(self).well_formed(),
        ensures
            final(self).well_formed(),
            final(self).adapters@ == old(self).adapters@.filter(other_handle(a)),
            exists|st: Seq<DeviceHandle<L>>|
                {
                    &&& st.len() == old(self).devices@.len()
                    &&& forall|i: int| 0 <= i < st.len() ==> stripped(#[trigger] st[i], old(self).devices@[i], a)
                    &&& final(self).devices@ == sweep(st)
                    &&& forall|i: int| 0 <= i < final(self).serial_ports@.len() ==> #[trigger] final(self).serial_ports@[i]
                        == released(old(self).serial_ports@[i], orphan_ids(st))
                    &&& final(actions)@ == old(actions)@ + orphan_ids(st).map_values(|d: DeviceId| UiAction::CloseDevicePanes(d))
                },
            final(self).serial_ports@.len() == old(self).serial_ports@.len(),
            final(self).builds == old(self).builds,
            final(self).firmware == old(self).firmware,
            final(self).flash_modal == old(self).flash_modal,
    {
        // Forget the adapter.
        let ghost ads0 = self.adapters@;
        let mut i: usize = 0;
        let ghost mut k: int = 0;
        assert(ads0.subrange(0, 0).filter(other_handle(a)) =~= Seq::<AdapterHandle>::empty());
        assert(self.adapters@ =~= ads0.subrange(0, 0).filter(other_handle(a)) + ads0.subrange(0, ads0.len() as int));
        while i < self.adapters.len()
            invariant
                0 <= k <= ads0.len(),
                ads0.subrange(0, k).filter(other_handle(a)).len() == i,
                self.adapters@ == ads0.subrange(0, k).filter(other_handle(a)) + ads0.subrange(k, ads0.len() as int),
                self.devices == old(self).devices,
                self.serial_ports == old(self).serial_ports,
                self.builds == old(self).builds,
                self.firmware == old(self).firmware,
                self.flash_modal == old(self).flash_modal,
            decreases self.adapters@.len() - i,
        {
            let ghost pre = ads0.subrange(0, k);
            let ghost nxt = ads0.subrange(0, k + 1);
            assert(self.adapters@[i as int] == ads0[k]);
            assert(nxt.drop_last() =~= pre);
            reveal(Seq::filter);
            if self.adapters[i].id == a {
                self.adapters.remove(i);
                assert(self.adapters@ =~= nxt.filter(other_handle(a)) + ads0.subrange(k + 1, ads0.len() as int));
            } else {
                assert(self.adapters@ =~= nxt.filter(other_handle(a)) + ads0.subrange(k + 1, ads0.len() as int));
                i += 1;
            }
            proof {
                k = k + 1;
            }
        }
        proof {
            if k < ads0.len() {
                assert(self.adapters@.len() > i);
            }
            assert(ads0.subrange(0, k) =~= ads0);
        }
        // Take it off every device.
        let ghost ds0 = self.devices@;
        let mut j: usize = 0;
        while j < self.devices.len()
            invariant
                j <= self.devices@.len(),
                self.devices@.len() == ds0.len(),
                devices_ok(ds0),
                forall|m: int| 0 <= m < j ==> stripped(#[trigger] self.devices@[m], ds0[m], a),
                forall|m: int| j <= m < ds0.len() ==> #[trigger] self.devices@[m] == ds0[m],
                self.adapters@ == ads0.filter(other_handle(a)),
                self.serial_ports == old(self).serial_ports,
                self.builds == old(self).builds,
                self.firmware == old(self).firmware,
                self.flash_modal == old(self).flash_modal,
            decreases self.devices.len() - j,
        {
            let dev = &mut self.devices[j];
            strip_adapter(dev, a);
            j += 1;
        }
        let ghost st = self.devices@;
        assert(devices_ok(st)) by {
            assert forall|x: int, y: int| 0 <= x < y < st.len() implies (#[trigger] st[x]).id != (#[trigger] st[y]).id by {
                assert(st[x].id == ds0[x].id && st[y].id == ds0[y].id);
            }
            assert forall|x: int| 0 <= x < st.len() implies (#[trigger] st[x]).well_formed() by {
                assert(st[x].log_buffer == ds0[x].log_buffer);
                assert(ds0[x].well_formed());
            }
            assert forall|x: int| 0 <= x < st.len() implies links_ok(#[trigger] st[x]) by {
                assert(links_ok(ds0[x]));
                law_links_kept_by_stripping(ds0[x], st[x], a);
            }
        }
        self.cleanup_orphaned_devices(actions);
        assert(forall|m: int| 0 <= m < st.len() ==> stripped(#[trigger] st[m], ds0[m], a));
    }
}

/// Index of the first serial port that saw a device but is bound to none.
pub open spec fn unlinked_port<S, C>(ps: Seq<SerialPortConfig<S, C>>) -> int
    decreases ps.len(),
{
    if ps.len() == 0 {
        0
    } else if ps[0].device_id.is_none() && ps[0].status == SerialPortStatus::DeviceDetected {
        0
    } else {
        1 + unlinked_port(ps.drop_first())
    }
}

proof fn lemma_unlinked_port<S, C>(ps: Seq<SerialPortConfig<S, C>>)
    ensures
        0 <= unlinked_port(ps) <= ps.len(),
        unlinked_port(ps) < ps.len() ==> ps[unlinked_port(ps)].device_id.is_none() && ps[unlinked_port(ps)].status
            == SerialPortStatus::DeviceDetected,
        forall|j: int| 0 <= j < unlinked_port(ps) ==> !((#[trigger] ps[j]).device_id.is_none() && ps[j].status
            == SerialPortStatus::DeviceDetected),
    decreases ps.len(),
{
    if ps.len() > 0 && !(ps[0].device_id.is_none() && ps[0].status == SerialPortStatus::DeviceDetected) {
        lemma_unlinked_port(ps.drop_first());
        assert forall|j: int| 0 <= j < unlinked_port(ps) implies !((#[trigger] ps[j]).device_id.is_none() && ps[j].status
            == SerialPortStatus::DeviceDetected) by {
            if j > 0 {
                assert(ps[j] == ps.drop_first()[j - 1]);
            }
        }
    }
}

/// Everything but the adapter links is unchanged.
pub open spec fn same_device<L>(n: DeviceHandle<L>, o: DeviceHandle<L>) -> bool {
    &&& n.id == o.id
    &&& n.name == o.name
    &&& n.kind == o.kind
    &&& n.phase == o.phase
    &&& n.uid == o.uid
    &&& n.firmware_id == o.firmware_id
    &&& n.log_buffer == o.log_buffer
}

/// Record that adapter `a` contributes each capability of `caps` (each
/// adapter and capability once).
fn add_caps(entries: &mut Vec<(AdapterId, KnownCapability)>, a: AdapterId, caps: &Vec<KnownCapability>)
    ensures
        forall|x: (AdapterId, KnownCapability)| #[trigger] final(entries)@.contains(x) <==> old(entries)@.contains(x) || (x.0 == a
            && caps@.contains(x.1)),
        final(entries)@.subrange(0, old(entries)@.len() as int) == old(entries)@,
        final(entries)@.len() >= old(entries)@.len(),
{
    let mut j: usize = 0;
    while j < caps.len()
        invariant
            j <= caps@.len(),
            entries@.len() >= old(entries)@.len(),
            entries@.subrange(0, old(entries)@.len() as int) == old(entries)@,
            forall|x: (AdapterId, KnownCapability)| #[trigger] entries@.contains(x) <==> old(entries)@.contains(x) || (x.0 == a
                && caps@.subrange(0, j as int).contains(x.1)),
        decreases caps.len() - j,
    {
        let c = caps[j];
        let mut present = false;
        let mut q: usize = 0;
        while q < entries.len()
            invariant
                q <= entries@.len(),
                present == exists|t: int| 0 <= t < q && entries@[t] == (a, c),
            decreases entries.len() - q,
        {
            if entries[q].0 == a && entries[q].1 == c {
                present = true;
            }
            q += 1;
        }
        let ghost before = entries@;
        if !present {
            entries.push((a, c));
        }
        proof {
            let s1 = caps@.subrange(0, j + 1);
            let s0 = caps@.subrange(0, j as int);
            assert(s1 =~= s0.push(c));
            assert forall|y: KnownCapability| s1.contains(y) <==> s0.contains(y) || y == c by {
                if s1.contains(y) && y != c {
                    let t = choose|t: int| 0 <= t < s1.len() && s1[t] == y;
                    assert(s0[t] == y);
                }
                if s0.contains(y) {
                    let t = choose|t: int| 0 <= t < s0.len() && s0[t] == y;
                    assert(s1[t] == y);
                }
                if y == c {
                    assert(s1[j as int] == c);
                }
            }
            assert forall|x: (AdapterId, KnownCapability)| #[trigger] entries@.contains(x) <==> before.contains(x) || x == (a, c) by {
                if present {
                    if x == (a, c) {
                        let t = choose|t: int| 0 <= t < q && before[t] == (a, c);
                    }
                } else {
                    assert(entries@ =~= before.push((a, c)));
                    if entries@.contains(x) && x != (a, c) {
                        let t = choose|t: int| 0 <= t < entries@.len() && entries@[t] == x;
                        assert(before[t] == x);
                    }
                    if before.contains(x) {
                        let t = choose|t: int| 0 <= t < before.len() && before[t] == x;
                        assert(entries@[t] == x);
                    }
                    if x == (a, c) {
                        assert(entries@[before.len() as int] == x);
                    }
                }
            }
            assert(entries@.subrange(0, old(entries)@.len() as int) =~= before.subrange(0, old(entries)@.len() as int));
        }
        j += 1;
    }
    assert(caps@.subrange(0, j as int) =~= caps@);
}

impl<L, S, C> FrontendState<L, S, C> {
    /// A device appeared; nothing changes if it is already known. Emulator
    /// devices are opened right away.
    pub fn on_device_created(
        &mut self,
        id: DeviceId,
        name: String,
        kind: DeviceKind,
        firmware_id: Option<FirmwareId>,
        actions: &mut Vec<UiAction>,
    )
        requires
            old(self).well_formed(),
        ensures
            final(self).well_formed(),
            has_device(old(self).devices@, id) ==> final(self).devices == old(self).devices && final(actions)@ == old(
                actions,
            )@,
            !has_device(old(self).devices@, id) ==> {
                &&& final(self).devices@.len() == old(self).devices@.len() + 1
                &&& final(self).devices@.subrange(0, old(self).devices@.len() as int) == old(self).devices@
                &&& ({
                    let d = final(self).devices@.last();
                    &&& d.id == id && d.name == name && d.kind == kind && d.firmware_id == firmware_id
                    &&& d.phase == DevicePhase::Unknown && d.uid.is_none()
                    &&& d.adapter_ids@.len() == 0 && d.capabilities@.len() == 0 && d.log_buffer@.len() == 0
                })
                &&& final(actions)@ == (if kind == DeviceKind::Emulator {
                    old(actions)@.push(UiAction::OpenDevice(id))
                } else {
                    old(actions)@
                })
            },
            final(self).adapters == old(self).adapters,
            final(self).serial_ports == old(self).serial_ports,
            final(self).builds == old(self).builds,
            final(self).firmware == old(self).firmware,
            final(self).flash_modal == old(self).flash_modal,
    {
        if self.find_device(id).is_none() {
            let ghost ds = self.devices@;
            self.devices.push(DeviceHandle::new(id, name, kind, firmware_id));
            proof {
                let es = self.devices@;
                assert(es.subrange(0, ds.len() as int) =~= ds);
                assert forall|a: int, b: int| 0 <= a < b < es.len() implies (#[trigger] es[a]).id != (#[trigger] es[b]).id by {
                    if b < ds.len() {
                        assert(es[a] == ds[a] && es[b] == ds[b]);
                    } else {
                        assert(es[a] == ds[a]);
                    }
                }
                assert forall|a: int| 0 <= a < es.len() implies (#[trigger] es[a]).well_formed() by {
                    if a < ds.len() {
                        assert(es[a] == ds[a]);
                    }
                }
            }
            if kind == DeviceKind::Emulator {
                actions.push(UiAction::OpenDevice(id));
            }
        }
    }

    /// An adapter now carries device `d` and contributes `caps`. The first
    /// serial port that detected a device but is linked to none is linked
    /// to `d`.
    pub fn on_adapter_bound(&mut self, a: AdapterId, d: DeviceId, caps: Vec<KnownCapability>)
        requires
            old(self).well_formed(),
        ensures
            final(self).well_formed(),
            final(self).devices@.len() == old(self).devices@.len(),
            forall|i: int| 0 <= i < old(self).devices@.len() && old(self).devices@[i].id != d ==> #[trigger] final(self).devices@[i]
                == old(self).devices@[i],
            forall|i: int| 0 <= i < old(self).devices@.len() && old(self).devices@[i].id == d ==> {
                let o = old(self).devices@[i];
                let n = #[trigger] final(self).devices@[i];
                &&& same_device(n, o)
                &&& n.adapter_ids@ == (if o.adapter_ids@.contains(a) { o.adapter_ids@ } else { o.adapter_ids@.push(a) })
                &&& forall|x: (AdapterId, KnownCapability)| #[trigger] n.capabilities@.contains(x) <==> o.capabilities@.contains(x)
                    || (x.0 == a && caps@.contains(x.1))
            },
            final(self).serial_ports@.len() == old(self).serial_ports@.len(),
            ({
                let p = unlinked_port(old(self).serial_ports@);
                forall|i: int| 0 <= i < old(self).serial_ports@.len() ==> #[trigger] final(self).serial_ports@[i] == (if i == p {
                    SerialPortConfig { device_id: Some(d), ..old(self).serial_ports@[i] }
                } else {
                    old(self).serial_ports@[i]
                })
            }),
            final(self).adapters == old(self).adapters,
            final(self).builds == old(self).builds,
            final(self).firmware == old(self).firmware,
            final(self).flash_modal == old(self).flash_modal,
    {
        match self.find_device(d) {
            Some(i) => {
                proof {
                    assert forall|k: int| 0 <= k < self.devices@.len() && self.devices@[k].id == d implies k == i by {
                        if k != i {
                            assert(self.devices@[k].id != self.devices@[i as int].id);
                        }
                    }
                }
                let ghost ds = self.devices@;
                let dev = &mut self.devices[i];
                let mut known = false;
                let mut q: usize = 0;
                while q < dev.adapter_ids.len()
                    invariant
                        q <= dev.adapter_ids@.len(),
                        known == exists|t: int| 0 <= t < q && dev.adapter_ids@[t] == a,
                    decreases dev.adapter_ids.len() - q,
                {
                    if dev.adapter_ids[q] == a {
                        known = true;
                    }
                    q += 1;
                }
                if !known {
                    dev.adapter_ids.push(a);
                }
                add_caps(&mut dev.capabilities, a, &caps);
                proof {
                    let es = self.devices@;
                    assert forall|x: int, y: int| 0 <= x < y < es.len() implies (#[trigger] es[x]).id != (#[trigger] es[y]).id by {
                        assert(es[x].id == ds[x].id && es[y].id == ds[y].id);
                    }
                    assert forall|x: int| 0 <= x < es.len() implies (#[trigger] es[x]).well_formed() by {
                        assert(es[x].log_buffer == ds[x].log_buffer);
                    }
                    let o = ds[i as int];
                    if known {
                        let t = choose|t: int| 0 <= t < q && o.adapter_ids@[t] == a;
                        assert(o.adapter_ids@.contains(a));
                    } else {
                        assert(!o.adapter_ids@.contains(a));
                    }
                    assert(links_ok(o));
                    law_links_kept_by_binding(o, es[i as int], a, caps@);
                    assert forall|x: int| 0 <= x < es.len() implies links_ok(#[trigger] es[x]) by {
                        if x != i {
                            assert(es[x] == ds[x]);
                        }
                    }
                }
            },
            None => {},
        }
        proof {
            lemma_unlinked_port(self.serial_ports@);
        }
        let ghost dv = self.devices@;
        let mut p: usize = 0;
        while p < self.serial_ports.len() && !(self.serial_ports[p].device_id.is_none()
            && self.serial_ports[p].status == SerialPortStatus::DeviceDetected)
            invariant
                p <= self.serial_ports@.len(),
                self.serial_ports == old(self).serial_ports,
                self.devices@ == dv,
                self.adapters == old(self).adapters,
                self.builds == old(self).builds,
                self.firmware == old(self).firmware,
                self.flash_modal == old(self).flash_modal,
                forall|j: int| 0 <= j < p ==> !((#[trigger] self.serial_ports@[j]).device_id.is_none() && self.serial_ports@[j].status
                    == SerialPortStatus::DeviceDetected),
            decreases self.serial_ports.len() - p,
        {
            p += 1;
        }
        if p < self.serial_ports.len() {
            let cfg = &mut self.serial_ports[p];
            cfg.device_id = Some(d);
        }
    }

    /// An adapter no longer carries device `d`: take it off the device,
    /// unlink serial ports from `d`, and sweep the orphaned devices.
    pub fn on_adapter_unbound(&mut self, a: AdapterId, d: DeviceId, actions: &mut Vec<UiAction>)
        requires
            old(self).well_formed(),
        ensures
            final(self).well_formed(),
            exists|st: Seq<DeviceHandle<L>>, sp: Seq<SerialPortConfig<S, C>>|
                #![trigger sweep(st), sp.len()]
                {
                    &&& st.len() == old(self).devices@.len()
                    &&& forall|i: int| 0 <= i < st.len() ==> #[trigger] st[i] == old(self).devices@[i] || (old(self).devices@[i].id
                        == d && stripped(st[i], old(self).devices@[i], a))
                    &&& final(self).devices@ == sweep(st)
                    &&& sp.len() == old(self).serial_ports@.len()
                    &&& forall|i: int| 0 <= i < sp.len() ==> #[trigger] sp[i] == (if old(self).serial_ports@[i].device_id == Some(d) {
                        SerialPortConfig { device_id: None, ..old(self).serial_ports@[i] }
                    } else {
                        old(self).serial_ports@[i]
                    })
                    &&& forall|i: int| 0 <= i < sp.len() ==> #[trigger] final(self).serial_ports@[i] == released(sp[i], orphan_ids(st))
                    &&& final(actions)@ == old(actions)@ + orphan_ids(st).map_values(|x: DeviceId| UiAction::CloseDevicePanes(x))
                },
            final(self).serial_ports@.len() == old(self).serial_ports@.len(),
            final(self).adapters == old(self).adapters,
            final(self).builds == old(self).builds,
            final(self).firmware == old(self).firmware,
            final(self).flash_modal == old(self).flash_modal,
    {
        let ghost ds = self.devices@;
        match self.find_device(d) {
            Some(i) => {
                let dev = &mut self.devices[i];
                strip_adapter(dev, a);
                proof {
                    let es = self.devices@;
                    assert forall|x: int, y: int| 0 <= x < y < es.len() implies (#[trigger] es[x]).id != (#[trigger] es[y]).id by {
                        assert(es[x].id == ds[x].id && es[y].id == ds[y].id);
                    }
                    assert forall|x: int| 0 <= x < es.len() implies (#[trigger] es[x]).well_formed() by {
                        assert(es[x].log_buffer == ds[x].log_buffer);
                    }
                    assert(links_ok(ds[i as int]));
                    law_links_kept_by_stripping(ds[i as int], es[i as int], a);
                    assert forall|x: int| 0 <= x < es.len() implies links_ok(#[trigger] es[x]) by {
                        if x != i {
                            assert(es[x] == ds[x]);
                        }
                    }
                }
            },
            None => {},
        }
        let ghost st = self.devices@;
        let ghost ps0 = self.serial_ports@;
        let mut p: usize = 0;
        while p < self.serial_ports.len()
            invariant
                p <= self.serial_ports@.len(),
                self.serial_ports@.len() == ps0.len(),
                forall|j: int| p <= j < ps0.len() ==> #[trigger] self.serial_ports@[j] == ps0[j],
                forall|j: int| 0 <= j < p ==> #[trigger] self.serial_ports@[j] == (if ps0[j].device_id == Some(d) {
                    SerialPortConfig { device_id: None, ..ps0[j] }
                } else {
                    ps0[j]
                }),
                self.devices@ == st,
                devices_ok(st),
                self.adapters == old(self).adapters,
                self.builds == old(self).builds,
                self.firmware == old(self).firmware,
                self.flash_modal == old(self).flash_modal,
            decreases self.serial_ports.len() - p,
        {
            if self.serial_ports[p].device_id == Some(d) {
                let cfg = &mut self.serial_ports[p];
                cfg.device_id = None;
            }
            p += 1;
        }
        let ghost sp = self.serial_ports@;
        self.cleanup_orphaned_devices(actions);
        proof {
            assert forall|k: int| 0 <= k < st.len() implies #[trigger] st[k] == ds[k] || (ds[k].id == d && stripped(st[k], ds[k], a)) by {
            }
        }
    }
}

/// `extra` pushed one by one into the stamp-ordered buffer `buf`.
pub open spec fn merge_logs<L>(buf: Seq<(u64, L)>, extra: Seq<(u64, L)>) -> Seq<(u64, L)>
    decreases extra.len(),
{
    if extra.len() == 0 {
        buf
    } else {
        let m = merge_logs(buf, extra.drop_last());
        m.insert(crate::devices::insertion_point(m, extra.last().0), extra.last())
    }
}

/// The flash dialog after an event about device `d`'s flash: a picker
/// that selected `d` starts showing progress, a dialog already showing
/// `d`'s progress moves to the new phase.
pub open spec fn modal_after(m: Option<FlashModalState>, d: DeviceId, phase: FlashPhase) -> Option<FlashModalState> {
    match m {
        Some(FlashModalState::Picker { firmware_id, selected_device }) => if selected_device == Some(d) {
            Some(FlashModalState::Flashing { firmware_id, device_id: d, phase })
        } else {
            m
        },
        Some(FlashModalState::Flashing { firmware_id, device_id, .. }) => if device_id == d {
            Some(FlashModalState::Flashing { firmware_id, device_id, phase })
        } else {
            m
        },
        None => None,
    }
}

/// The flash dialog once device `old_id` became `new_id`.
pub open spec fn modal_retargeted(m: Option<FlashModalState>, old_id: DeviceId, new_id: DeviceId) -> Option<FlashModalState> {
    match m {
        Some(FlashModalState::Picker { firmware_id, selected_device }) => if selected_device == Some(old_id) {
            Some(FlashModalState::Picker { firmware_id, selected_device: Some(new_id) })
        } else {
            m
        },
        Some(FlashModalState::Flashing { firmware_id, device_id, phase }) => if device_id == old_id {
            Some(FlashModalState::Flashing { firmware_id, device_id: new_id, phase })
        } else {
            m
        },
        None => None,
    }
}

impl<L, S, C> FrontendState<L, S, C> {
    /// Apply `f` to the device with id `d`, if there is one.
    proof fn lemma_unique_slot(&self, d: DeviceId, i: int)
        requires
            self.well_formed(),
            0 <= i < self.devices@.len(),
            self.devices@[i].id == d,
        ensures
            forall|k: int| 0 <= k < self.devices@.len() && self.devices@[k].id == d ==> k == i,
    {
        assert forall|k: int| 0 <= k < self.devices@.len() && self.devices@[k].id == d implies k == i by {
            if k != i {
                assert(self.devices@[k].id != self.devices@[i].id);
            }
        }
    }

    /// A log for device `d`, stamped `received_at`, goes into its buffer in
    /// stamp order.
    pub fn on_log(&mut self, d: DeviceId, received_at: u64, log: L)
        requires
            old(self).well_formed(),
        ensures
            final(self).well_formed(),
            final(self).devices@.len() == old(self).devices@.len(),
            forall|i: int| 0 <= i < old(self).devices@.len() ==> {
                let o = old(self).devices@[i];
                let n = #[trigger] final(self).devices@[i];
                if o.id == d {
                    &&& n.log_buffer@ == o.log_buffer@.insert(
                        crate::devices::insertion_point(o.log_buffer@, received_at),
                        (received_at, log),
                    )
                    &&& n.id == o.id && n.kind == o.kind && n.phase == o.phase && n.adapter_ids == o.adapter_ids
                    &&& n.capabilities == o.capabilities && n.firmware_id == o.firmware_id && n.name == o.name
                } else {
                    n == o
                }
            },
            final(self).adapters == old(self).adapters,
            final(self).serial_ports == old(self).serial_ports,
            final(self).builds == old(self).builds,
            final(self).firmware == old(self).firmware,
            final(self).flash_modal == old(self).flash_modal,
    {
        match self.find_device(d) {
            Some(i) => {
                proof {
                    self.lemma_unique_slot(d, i as int);
                }
                let ghost ds = self.devices@;
                let dev = &mut self.devices[i];
                dev.push_log(received_at, log);
                proof {
                    let es = self.devices@;
                    assert forall|x: int, y: int| 0 <= x < y < es.len() implies (#[trigger] es[x]).id != (#[trigger] es[y]).id by {
                        assert(es[x].id == ds[x].id && es[y].id == ds[y].id);
                    }
                    assert forall|x: int| 0 <= x < es.len() implies (#[trigger] es[x]).well_formed() by {
                        if x != i {
                            assert(es[x] == ds[x]);
                        }
                    }
                }
            },
            None => {},
        }
    }

    /// Device `d` is now in `phase`.
    pub fn on_device_phase(&mut self, d: DeviceId, phase: DevicePhase)
        requires
            old(self).well_formed(),
        ensures
            final(self).well_formed(),
            final(self).devices@.len() == old(self).devices@.len(),
            forall|i: int| 0 <= i < old(self).devices@.len() ==> #[trigger] final(self).devices@[i] == (if old(self).devices@[i].id == d {
                DeviceHandle { phase, ..old(self).devices@[i] }
            } else {
                old(self).devices@[i]
            }),
            final(self).adapters == old(self).adapters,
            final(self).serial_ports == old(self).serial_ports,
            final(self).builds == old(self).builds,
            final(self).firmware == old(self).firmware,
            final(self).flash_modal == old(self).flash_modal,
    {
        match self.find_device(d) {
            Some(i) => {
                proof {
                    self.lemma_unique_slot(d, i as int);
                }
                let ghost ds = self.devices@;
                let dev = &mut self.devices[i];
                dev.phase = phase;
                proof {
                    let es = self.devices@;
                    assert forall|x: int, y: int| 0 <= x < y < es.len() implies (#[trigger] es[x]).id != (#[trigger] es[y]).id by {
                        assert(es[x].id == ds[x].id && es[y].id == ds[y].id);
                    }
                    assert forall|x: int| 0 <= x < es.len() implies (#[trigger] es[x]).well_formed() by {
                        assert(es[x].log_buffer == ds[x].log_buffer);
                    }
                }
            },
            None => {},
        }
    }

    /// Progress of a flash on device `d`: the dialog follows it, and once
    /// the flash is done an IPC smoke test of the stub is asked for.
    pub fn on_flash_progress(&mut self, d: DeviceId, phase: FlashPhase, actions: &mut Vec<UiAction>)
        ensures
            final(self).flash_modal == modal_after(old(self).flash_modal, d, phase),
            final(actions)@ == (if phase == FlashPhase::Done {
                old(actions)@.push(UiAction::IpcSmokeTest(d))
            } else {
                old(actions)@
            }),
            final(self).devices == old(self).devices,
            final(self).adapters == old(self).adapters,
            final(self).serial_ports == old(self).serial_ports,
            final(self).builds == old(self).builds,
            final(self).firmware == old(self).firmware,
    {
        if let FlashPhase::Done = phase {
            actions.push(UiAction::IpcSmokeTest(d));
        }
        let next = match self.flash_modal.take() {
            Some(FlashModalState::Picker { firmware_id, selected_device }) => {
                if selected_device == Some(d) {
                    Some(FlashModalState::Flashing { firmware_id, device_id: d, phase })
                } else {
                    Some(FlashModalState::Picker { firmware_id, selected_device })
                }
            },
            Some(FlashModalState::Flashing { firmware_id, device_id, phase: p }) => {
                if device_id == d {
                    Some(FlashModalState::Flashing { firmware_id, device_id, phase })
                } else {
                    Some(FlashModalState::Flashing { firmware_id, device_id, phase: p })
                }
            },
            None => None,
        };
        self.flash_modal = next;
    }

    /// Status of serial port `index` changed.
    pub fn on_serial_status(&mut self, index: usize, status: SerialPortStatus)
        ensures
            final(self).serial_ports@.len() == old(self).serial_ports@.len(),
            forall|i: int| 0 <= i < old(self).serial_ports@.len() ==> #[trigger] final(self).serial_ports@[i] == (if i == index {
                SerialPortConfig { status, ..old(self).serial_ports@[i] }
            } else {
                old(self).serial_ports@[i]
            }),
            final(self).devices == old(self).devices,
            final(self).adapters == old(self).adapters,
            final(self).builds == old(self).builds,
            final(self).firmware == old(self).firmware,
            final(self).flash_modal == old(self).flash_modal,
    {
        if index < self.serial_ports.len() {
            let cfg = &mut self.serial_ports[index];
            cfg.status = status;
        }
    }

    /// A raw line read on serial port `index`.
    pub fn on_serial_raw_line(&mut self, index: usize, line: String)
        ensures
            final(self).serial_ports@.len() == old(self).serial_ports@.len(),
            forall|i: int| 0 <= i < old(self).serial_ports@.len() && i != index ==> #[trigger] final(self).serial_ports@[i] == old(self).serial_ports@[i],
            index < old(self).serial_ports@.len() ==> final(self).serial_ports@[index as int].raw_lines@ == old(self).serial_ports@[index as int].raw_lines@.push(line),
            final(self).devices == old(self).devices,
            final(self).adapters == old(self).adapters,
            final(self).builds == old(self).builds,
            final(self).firmware == old(self).firmware,
            final(self).flash_modal == old(self).flash_modal,
    {
        if index < self.serial_ports.len() {
            let cfg = &mut self.serial_ports[index];
            cfg.raw_lines.push(line);
        }
    }

    /// A structured log decoded on serial port `index`.
    pub fn on_serial_structured_log(&mut self, index: usize, entry: S)
        ensures
            final(self).serial_ports@.len() == old(self).serial_ports@.len(),
            forall|i: int| 0 <= i < old(self).serial_ports@.len() && i != index ==> #[trigger] final(self).serial_ports@[i] == old(self).serial_ports@[i],
            index < old(self).serial_ports@.len() ==> final(self).serial_ports@[index as int].structured_logs@ == old(self).serial_ports@[index as int].structured_logs@.push(entry),
            final(self).devices == old(self).devices,
            final(self).adapters == old(self).adapters,
            final(self).builds == old(self).builds,
            final(self).firmware == old(self).firmware,
            final(self).flash_modal == old(self).flash_modal,
    {
        if index < self.serial_ports.len() {
            let cfg = &mut self.serial_ports[index];
            cfg.structured_logs.push(entry);
        }
    }

    /// A control event decoded on serial port `index`.
    pub fn on_serial_control_event(&mut self, index: usize, event: C)
        ensures
            final(self).serial_ports@.len() == old(self).serial_ports@.len(),
            forall|i: int| 0 <= i < old(self).serial_ports@.len() && i != index ==> #[trigger] final(self).serial_ports@[i] == old(self).serial_ports@[i],
            index < old(self).serial_ports@.len() ==> final(self).serial_ports@[index as int].control_events@ == old(self).serial_ports@[index as int].control_events@.push(event),
            final(self).devices == old(self).devices,
            final(self).adapters == old(self).adapters,
            final(self).builds == old(self).builds,
            final(self).firmware == old(self).firmware,
            final(self).flash_modal == old(self).flash_modal,
    {
        if index < self.serial_ports.len() {
            let cfg = &mut self.serial_ports[index];
            cfg.control_events.push(event);
        }
    }
}

impl<L, S, C> FrontendState<L, S, C> {
    /// An ephemeral device was identified as persistent device `new_id`:
    /// the old device goes away, its logs move into the new one (in stamp
    /// order) along with its phase, and panes, serial ports and the flash
    /// dialog follow to the new id.
    pub fn on_device_upgraded(&mut self, old_id: DeviceId, new_id: DeviceId, actions: &mut Vec<UiAction>)
        requires
            old(self).well_formed(),
        ensures
            final(self).well_formed(),
            !has_device(old(self).devices@, old_id) ==> final(self).devices == old(self).devices,
            has_device(old(self).devices@, old_id) ==> {
                let i = device_slot(old(self).devices@, old_id);
                let od = old(self).devices@[i];
                let rest = old(self).devices@.remove(i);
                &&& final(self).devices@.len() == rest.len()
                &&& forall|k: int| 0 <= k < rest.len() && rest[k].id != new_id ==> #[trigger] final(self).devices@[k] == rest[k]
                &&& forall|k: int| 0 <= k < rest.len() && rest[k].id == new_id ==> {
                    &&& (#[trigger] final(self).devices@[k]).log_buffer@ == merge_logs(rest[k].log_buffer@, od.log_buffer@)
                    &&& final(self).devices@[k].phase == od.phase
                    &&& same_links(final(self).devices@[k], rest[k])
                }
            },
            final(actions)@ == old(actions)@.push(UiAction::RetargetDevicePanes { old_id, new_id }),
            final(self).serial_ports@.len() == old(self).serial_ports@.len(),
            forall|i: int| 0 <= i < old(self).serial_ports@.len() ==> #[trigger] final(self).serial_ports@[i] == (if old(self).serial_ports@[i].device_id == Some(old_id) {
                SerialPortConfig { device_id: Some(new_id), ..old(self).serial_ports@[i] }
            } else {
                old(self).serial_ports@[i]
            }),
            final(self).flash_modal == modal_retargeted(old(self).flash_modal, old_id, new_id),
            final(self).adapters == old(self).adapters,
            final(self).builds == old(self).builds,
            final(self).firmware == old(self).firmware,
    {
        proof {
            lemma_device_slot(self.devices@, old_id);
        }
        match self.find_device(old_id) {
            Some(i) => {
                proof {
                    self.lemma_unique_slot(old_id, i as int);
                    assert(device_slot(self.devices@, old_id) == i);
                }
                let ghost ds = self.devices@;
                let mut od = self.devices.remove(i);
                let ghost rest = self.devices@;
                assert(rest == ds.remove(i as int));
                proof {
                    assert forall|x: int, y: int| 0 <= x < y < rest.len() implies (#[trigger] rest[x]).id != (#[trigger] rest[y]).id by {
                        let x2 = if x < i { x } else { x + 1 };
                        let y2 = if y < i { y } else { y + 1 };
                        assert(rest[x] == ds[x2] && rest[y] == ds[y2]);
                    }
                    assert forall|x: int| 0 <= x < rest.len() implies (#[trigger] rest[x]).well_formed() by {
                        let x2 = if x < i { x } else { x + 1 };
                        assert(rest[x] == ds[x2]);
                    }
                }
                match self.find_device(new_id) {
                    Some(j) => {
                        proof {
                            self.lemma_unique_slot(new_id, j as int);
                        }
                        let ghost extra = od.log_buffer@;
                        let ghost base = self.devices@[j as int].log_buffer@;
                        let n0 = od.log_buffer.len();
                        let mut k: usize = 0;
                        assert(extra.subrange(0, 0) =~= Seq::<(u64, L)>::empty());
                        while od.log_buffer.len() > 0
                            invariant
                                0 <= k <= extra.len(),
                                extra.len() == n0,
                                od.log_buffer@ == extra.subrange(k as int, extra.len() as int),
                                od.phase == ds[i as int].phase,
                                j < self.devices@.len(),
                                self.devices@.len() == rest.len(),
                                forall|m: int| 0 <= m < rest.len() && m != j ==> #[trigger] self.devices@[m] == rest[m],
                                self.devices@[j as int].log_buffer@ == merge_logs(base, extra.subrange(0, k as int)),
                                same_links(self.devices@[j as int], rest[j as int]),
                                self.devices@[j as int].phase == rest[j as int].phase,
                                self.devices@[j as int].well_formed(),
                                self.adapters == old(self).adapters,
                                self.serial_ports == old(self).serial_ports,
                                self.builds == old(self).builds,
                                self.firmware == old(self).firmware,
                                self.flash_modal == old(self).flash_modal,
                            decreases od.log_buffer@.len(),
                        {
                            let (t, l) = od.log_buffer.remove(0);
                            assert(extra.subrange(0, k + 1).drop_last() =~= extra.subrange(0, k as int));
                            assert(extra[k as int] == (t, l));
                            let dev = &mut self.devices[j];
                            dev.push_log(t, l);
                            assert(od.log_buffer@ =~= extra.subrange(k + 1, extra.len() as int));
                            k += 1;
                        }
                        assert(extra.subrange(0, k as int) =~= extra);
                        let dev = &mut self.devices[j];
                        dev.phase = od.phase;
                    },
                    None => {},
                }
                proof {
                    let es = self.devices@;
                    assert forall|x: int, y: int| 0 <= x < y < es.len() implies (#[trigger] es[x]).id != (#[trigger] es[y]).id by {
                        assert(es[x].id == rest[x].id && es[y].id == rest[y].id);
                    }
                }
            },
            None => {},
        }
        actions.push(UiAction::RetargetDevicePanes { old_id, new_id });
        let ghost dv = self.devices@;
        let ghost dvec = self.devices;
        let ghost ps0 = self.serial_ports@;
        let mut p: usize = 0;
        while p < self.serial_ports.len()
            invariant
                p <= self.serial_ports@.len(),
                self.serial_ports@.len() == ps0.len(),
                forall|j: int| p <= j < ps0.len() ==> #[trigger] self.serial_ports@[j] == ps0[j],
                forall|j: int| 0 <= j < p ==> #[trigger] self.serial_ports@[j] == (if ps0[j].device_id == Some(old_id) {
                    SerialPortConfig { device_id: Some(new_id), ..ps0[j] }
                } else {
                    ps0[j]
                }),
                self.devices@ == dv,
                self.devices == dvec,
                self.adapters == old(self).adapters,
                self.builds == old(self).builds,
                self.firmware == old(self).firmware,
                self.flash_modal == old(self).flash_modal,
            decreases self.serial_ports.len() - p,
        {
            if self.serial_ports[p].device_id == Some(old_id) {
                let cfg = &mut self.serial_ports[p];
                cfg.device_id = Some(new_id);
            }
            p += 1;
        }
        let next = match self.flash_modal.take() {
            Some(FlashModalState::Picker { firmware_id, selected_device }) => {
                if selected_device == Some(old_id) {
                    Some(FlashModalState::Picker { firmware_id, selected_device: Some(new_id) })
                } else {
                    Some(FlashModalState::Picker { firmware_id, selected_device })
                }
            },
            Some(FlashModalState::Flashing { firmware_id, device_id, phase }) => {
                if device_id == old_id {
                    Some(FlashModalState::Flashing { firmware_id, device_id: new_id, phase })
                } else {
                    Some(FlashModalState::Flashing { firmware_id, device_id, phase })
                }
            },
            None => None,
        };
        self.flash_modal = next;
    }
}

/// Everything but the logs and phase is unchanged.
pub open spec fn same_links<L>(n: DeviceHandle<L>, o: DeviceHandle<L>) -> bool {
    &&& n.id == o.id
    &&& n.name == o.name
    &&& n.kind == o.kind
    &&& n.uid == o.uid
    &&& n.firmware_id == o.firmware_id
    &&& n.adapter_ids == o.adapter_ids
    &&& n.capabilities == o.capabilities
}

/// Position of the first build with id `id`, or the length.
pub open spec fn build_slot(bs: Seq<BuildHandle>, id: BuildId) -> int
    decreases bs.len(),
{
    if bs.len() == 0 {
        0
    } else if bs[0].id == id {
        0
    } else {
        1 + build_slot(bs.drop_first(), id)
    }
}

proof fn lemma_build_slot(bs: Seq<BuildHandle>, id: BuildId)
    ensures
        0 <= build_slot(bs, id) <= bs.len(),
        build_slot(bs, id) < bs.len() ==> bs[build_slot(bs, id)].id == id,
        forall|j: int| 0 <= j < build_slot(bs, id) ==> (#[trigger] bs[j]).id != id,
    decreases bs.len(),
{
    if bs.len() > 0 && bs[0].id != id {
        lemma_build_slot(bs.drop_first(), id);
        assert forall|j: int| 0 <= j < build_slot(bs, id) implies (#[trigger] bs[j]).id != id by {
            if j > 0 {
                assert(bs[j] == bs.drop_first()[j - 1]);
            }
        }
    }
}

/// Total of the sizes.
pub open spec fn sizes_total(v: Seq<(Seq<char>, u64)>) -> nat
    decreases v.len(),
{
    if v.len() == 0 {
        0
    } else {
        sizes_total(v.drop_last()) + v.last().1 as nat
    }
}

/// The measured sizes of crate `name` of build `b` once `region` measures
/// `size`.
pub open spec fn sizes_after(bs: Seq<BuildHandle>, b: BuildId, name: Seq<char>, region: Seq<char>, size: u64) -> Seq<(Seq<char>, u64)> {
    let bi = build_slot(bs, b);
    let cs = bs[bi].crates@;
    let ci = crate_slot(cs, name);
    upsert(if ci < cs.len() { named_sizes(cs[ci].sizes@) } else { Seq::empty() }, region, size)
}

/// `stage: <phase label>`.
pub open spec fn stage_line(p: PipelinePhase) -> Seq<char> {
    "stage: "@ + p.tag()
}

impl<L, S, C> FrontendState<L, S, C> {
    fn find_build(&self, id: BuildId) -> (r: Option<usize>)
        ensures
            r matches Some(i) ==> i == build_slot(self.builds@, id) && i < self.builds@.len(),
            r is None ==> build_slot(self.builds@, id) == self.builds@.len(),
    {
        proof {
            lemma_build_slot(self.builds@, id);
        }
        let mut i: usize = 0;
        while i < self.builds.len()
            invariant
                i <= self.builds@.len(),
                i <= build_slot(self.builds@, id),
                0 <= build_slot(self.builds@, id) <= self.builds@.len(),
                build_slot(self.builds@, id) < self.builds@.len() ==> self.builds@[build_slot(self.builds@, id)].id == id,
                forall|j: int| 0 <= j < build_slot(self.builds@, id) ==> (#[trigger] self.builds@[j]).id != id,
            decreases self.builds.len() - i,
        {
            if self.builds[i].id == id {
                return Some(i);
            }
            i += 1;
        }
        None
    }

    /// The build entered a new phase: logged as `stage: <label>`.
    pub fn on_build_phase(&mut self, b: BuildId, phase: PipelinePhase)
        ensures
            final(self).builds@.len() == old(self).builds@.len(),
            forall|i: int| 0 <= i < old(self).builds@.len() && i != build_slot(old(self).builds@, b) ==> #[trigger] final(self).builds@[i] == old(self).builds@[i],
            build_slot(old(self).builds@, b) < old(self).builds@.len() ==> {
                let i = build_slot(old(self).builds@, b);
                let o = old(self).builds@[i];
                let n = final(self).builds@[i];
                &&& texts(n.log@) == texts(o.log@).push(stage_line(phase))
                &&& n == (BuildHandle { log: n.log, phase: Some(phase), ..o })
            },
            final(self).devices == old(self).devices,
            final(self).adapters == old(self).adapters,
            final(self).serial_ports == old(self).serial_ports,
            final(self).firmware == old(self).firmware,
            final(self).flash_modal == old(self).flash_modal,
    {
        if let Some(i) = self.find_build(b) {
            let build = &mut self.builds[i];
            let mut line = String::new();
            push_str(&mut line, "stage: ");
            push_str(&mut line, phase.label());
            proof {
                reveal_strlit("stage: ");
            }
            let ghost l0 = texts(build.log@);
            build.log.push(line);
            assert(texts(build.log@) =~= l0.push(stage_line(phase)));
            build.phase = Some(phase);
        }
    }

    /// The resolved configuration arrived: build UUID, memory devices and
    /// place capacities (each place once, later values win).
    pub fn on_build_config_resolved(&mut self, b: BuildId, uuid: String, memories: Vec<MemoryDevice>, place_capacities: Vec<(String, u64)>)
        ensures
            final(self).builds@.len() == old(self).builds@.len(),
            forall|i: int| 0 <= i < old(self).builds@.len() && i != build_slot(old(self).builds@, b) ==> #[trigger] final(self).builds@[i] == old(self).builds@[i],
            build_slot(old(self).builds@, b) < old(self).builds@.len() ==> {
                let i = build_slot(old(self).builds@, b);
                let o = old(self).builds@[i];
                let n = final(self).builds@[i];
                &&& named_sizes(n.place_capacities@) == crate::frontend::upsert_all(named_sizes(o.place_capacities@), named_sizes(place_capacities@))
                &&& n == (BuildHandle { uuid: Some(uuid), memories, place_capacities: n.place_capacities, ..o })
            },
            final(self).devices == old(self).devices,
            final(self).adapters == old(self).adapters,
            final(self).serial_ports == old(self).serial_ports,
            final(self).firmware == old(self).firmware,
            final(self).flash_modal == old(self).flash_modal,
    {
        if let Some(i) = self.find_build(b) {
            let build = &mut self.builds[i];
            build.uuid = Some(uuid);
            build.memories = memories;
            let ghost start = named_sizes(build.place_capacities@);
            let ghost b0 = *build;
            let mut k: usize = 0;
            while k < place_capacities.len()
                invariant
                    k <= place_capacities@.len(),
                    *build == (BuildHandle { place_capacities: build.place_capacities, ..b0 }),
                    named_sizes(build.place_capacities@) == upsert_all(start, named_sizes(place_capacities@).subrange(0, k as int)),
                decreases place_capacities.len() - k,
            {
                let ghost sub = named_sizes(place_capacities@).subrange(0, k + 1);
                assert(sub.drop_last() =~= named_sizes(place_capacities@).subrange(0, k as int));
                upsert_named(&mut build.place_capacities, place_capacities[k].0.clone(), place_capacities[k].1);
                k += 1;
            }
            assert(named_sizes(place_capacities@).subrange(0, k as int) =~= named_sizes(place_capacities@));
        }
    }

    /// The IPC resources of the build were resolved.
    pub fn on_build_resources(&mut self, b: BuildId, resources: Vec<ResourceSummary>)
        ensures
            final(self).builds@.len() == old(self).builds@.len(),
            forall|i: int| 0 <= i < old(self).builds@.len() ==> #[trigger] final(self).builds@[i] == (if i == build_slot(old(self).builds@, b) {
                BuildHandle { resources, ..old(self).builds@[i] }
            } else {
                old(self).builds@[i]
            }),
            final(self).devices == old(self).devices,
            final(self).adapters == old(self).adapters,
            final(self).serial_ports == old(self).serial_ports,
            final(self).firmware == old(self).firmware,
            final(self).flash_modal == old(self).flash_modal,
    {
        if let Some(i) = self.find_build(b) {
            let build = &mut self.builds[i];
            build.resources = resources;
        }
    }

    /// A memory allocation was reported.
    pub fn on_build_allocation(&mut self, b: BuildId, allocation: MemoryAllocation)
        ensures
            final(self).builds@.len() == old(self).builds@.len(),
            forall|i: int| 0 <= i < old(self).builds@.len() && i != build_slot(old(self).builds@, b) ==> #[trigger] final(self).builds@[i] == old(self).builds@[i],
            build_slot(old(self).builds@, b) < old(self).builds@.len() ==> {
                let i = build_slot(old(self).builds@, b);
                let o = old(self).builds@[i];
                let n = final(self).builds@[i];
                &&& n.allocations@ == o.allocations@.push(allocation)
                &&& n == (BuildHandle { allocations: n.allocations, ..o })
            },
            final(self).devices == old(self).devices,
            final(self).adapters == old(self).adapters,
            final(self).serial_ports == old(self).serial_ports,
            final(self).firmware == old(self).firmware,
            final(self).flash_modal == old(self).flash_modal,
    {
        if let Some(i) = self.find_build(b) {
            let build = &mut self.builds[i];
            build.allocations.push(allocation);
        }
    }

    /// The output image changed state.
    pub fn on_build_image(&mut self, b: BuildId, image: ImageProgress)
        ensures
            final(self).builds@.len() == old(self).builds@.len(),
            forall|i: int| 0 <= i < old(self).builds@.len() ==> #[trigger] final(self).builds@[i] == (if i == build_slot(old(self).builds@, b) {
                BuildHandle { image, ..old(self).builds@[i] }
            } else {
                old(self).builds@[i]
            }),
            final(self).devices == old(self).devices,
            final(self).adapters == old(self).adapters,
            final(self).serial_ports == old(self).serial_ports,
            final(self).firmware == old(self).firmware,
            final(self).flash_modal == old(self).flash_modal,
    {
        if let Some(i) = self.find_build(b) {
            let build = &mut self.builds[i];
            build.image = image;
        }
    }

    /// A free-form pipeline log line.
    pub fn on_build_log(&mut self, b: BuildId, message: String)
        ensures
            final(self).builds@.len() == old(self).builds@.len(),
            forall|i: int| 0 <= i < old(self).builds@.len() && i != build_slot(old(self).builds@, b) ==> #[trigger] final(self).builds@[i] == old(self).builds@[i],
            build_slot(old(self).builds@, b) < old(self).builds@.len() ==> {
                let i = build_slot(old(self).builds@, b);
                let o = old(self).builds@[i];
                let n = final(self).builds@[i];
                &&& n.log@ == o.log@.push(message)
                &&& n == (BuildHandle { log: n.log, ..o })
            },
            final(self).devices == old(self).devices,
            final(self).adapters == old(self).adapters,
            final(self).serial_ports == old(self).serial_ports,
            final(self).firmware == old(self).firmware,
            final(self).flash_modal == old(self).flash_modal,
    {
        if let Some(i) = self.find_build(b) {
            let build = &mut self.builds[i];
            build.log.push(message);
        }
    }

    /// An embedded crate changed state (the crate is added on first report).
    pub fn on_build_crate_state(&mut self, b: BuildId, name: &str, kind: CrateKind, state: CrateBuildState)
        ensures
            final(self).builds@.len() == old(self).builds@.len(),
            forall|i: int| 0 <= i < old(self).builds@.len() && i != build_slot(old(self).builds@, b) ==> #[trigger] final(self).builds@[i] == old(self).builds@[i],
            build_slot(old(self).builds@, b) < old(self).builds@.len() ==> {
                let i = build_slot(old(self).builds@, b);
                let o = old(self).builds@[i];
                let n = final(self).builds@[i];
                let ci = crate_slot(o.crates@, name@);
                &&& n == (BuildHandle { crates: n.crates, ..o })
                &&& n.crates@.len() == (if ci < o.crates@.len() { o.crates@.len() } else { o.crates@.len() + 1 })
                &&& forall|j: int| 0 <= j < o.crates@.len() && j != ci ==> #[trigger] n.crates@[j] == o.crates@[j]
                &&& n.crates@[ci]@ == (if ci < o.crates@.len() {
                    CrateView { state, ..o.crates@[ci]@ }
                } else {
                    CrateView { state, ..fresh_crate(name@, kind) }
                })
            },
            final(self).devices == old(self).devices,
            final(self).adapters == old(self).adapters,
            final(self).serial_ports == old(self).serial_ports,
            final(self).firmware == old(self).firmware,
            final(self).flash_modal == old(self).flash_modal,
    {
        if let Some(i) = self.find_build(b) {
            let build = &mut self.builds[i];
            let c = build.crate_mut(name, kind);
            c.state = state;
        }
    }

    /// A host-side crate changed state; it is also shown through the
    /// matching embedded state.
    pub fn on_build_host_crate_state(&mut self, b: BuildId, name: &str, state: HostCrateBuildState)
        ensures
            final(self).builds@.len() == old(self).builds@.len(),
            forall|i: int| 0 <= i < old(self).builds@.len() && i != build_slot(old(self).builds@, b) ==> #[trigger] final(self).builds@[i] == old(self).builds@[i],
            build_slot(old(self).builds@, b) < old(self).builds@.len() ==> {
                let i = build_slot(old(self).builds@, b);
                let o = old(self).builds@[i];
                let n = final(self).builds@[i];
                let ci = crate_slot(o.crates@, name@);
                let upd = crate::pipeline::spec_host_as_embedded(state);
                &&& n == (BuildHandle { crates: n.crates, ..o })
                &&& n.crates@.len() == (if ci < o.crates@.len() { o.crates@.len() } else { o.crates@.len() + 1 })
                &&& forall|j: int| 0 <= j < o.crates@.len() && j != ci ==> #[trigger] n.crates@[j] == o.crates@[j]
                &&& n.crates@[ci]@ == (if ci < o.crates@.len() {
                    CrateView { state: upd, host_state: Some(state), ..o.crates@[ci]@ }
                } else {
                    CrateView { state: upd, host_state: Some(state), ..fresh_crate(name@, CrateKind::HostCrate) }
                })
            },
            final(self).devices == old(self).devices,
            final(self).adapters == old(self).adapters,
            final(self).serial_ports == old(self).serial_ports,
            final(self).firmware == old(self).firmware,
            final(self).flash_modal == old(self).flash_modal,
    {
        if let Some(i) = self.find_build(b) {
            let build = &mut self.builds[i];
            let c = build.crate_mut(name, CrateKind::HostCrate);
            c.host_state = Some(state);
            c.state = crate::pipeline::host_as_embedded(state);
        }
    }

    /// A cargo output line for a crate.
    pub fn on_build_cargo_line(&mut self, b: BuildId, name: &str, kind: CrateKind, line: String)
        ensures
            final(self).builds@.len() == old(self).builds@.len(),
            forall|i: int| 0 <= i < old(self).builds@.len() && i != build_slot(old(self).builds@, b) ==> #[trigger] final(self).builds@[i] == old(self).builds@[i],
            build_slot(old(self).builds@, b) < old(self).builds@.len() ==> {
                let i = build_slot(old(self).builds@, b);
                let o = old(self).builds@[i];
                let n = final(self).builds@[i];
                let ci = crate_slot(o.crates@, name@);
                &&& n == (BuildHandle { crates: n.crates, ..o })
                &&& n.crates@.len() == (if ci < o.crates@.len() { o.crates@.len() } else { o.crates@.len() + 1 })
                &&& forall|j: int| 0 <= j < o.crates@.len() && j != ci ==> #[trigger] n.crates@[j] == o.crates@[j]
                &&& n.crates@[ci]@ == (if ci < o.crates@.len() {
                    CrateView { cargo_log: o.crates@[ci]@.cargo_log.push(line@), ..o.crates@[ci]@ }
                } else {
                    CrateView { cargo_log: seq![line@], ..fresh_crate(name@, kind) }
                })
            },
            final(self).devices == old(self).devices,
            final(self).adapters == old(self).adapters,
            final(self).serial_ports == old(self).serial_ports,
            final(self).firmware == old(self).firmware,
            final(self).flash_modal == old(self).flash_modal,
    {
        if let Some(i) = self.find_build(b) {
            let build = &mut self.builds[i];
            let c = build.crate_mut(name, kind);
            let ghost l0 = texts(c.cargo_log@);
            c.cargo_log.push(line);
            assert(texts(c.cargo_log@) =~= l0.push(line@));
        }
    }

    /// A crate measured a region: its size is recorded (one entry per
    /// region) and the crate's total is the sum of its regions.
    pub fn on_build_crate_sized(&mut self, b: BuildId, name: &str, kind: CrateKind, region: String, size: u64)
        requires
            build_slot(old(self).builds@, b) < old(self).builds@.len() ==> sizes_total(
                sizes_after(old(self).builds@, b, name@, region@, size),
            ) <= u64::MAX,
        ensures
            final(self).builds@.len() == old(self).builds@.len(),
            forall|i: int| 0 <= i < old(self).builds@.len() && i != build_slot(old(self).builds@, b) ==> #[trigger] final(self).builds@[i] == old(self).builds@[i],
            build_slot(old(self).builds@, b) < old(self).builds@.len() ==> {
                let i = build_slot(old(self).builds@, b);
                let o = old(self).builds@[i];
                let n = final(self).builds@[i];
                let ci = crate_slot(o.crates@, name@);
                let sz = sizes_after(old(self).builds@, b, name@, region@, size);
                &&& n == (BuildHandle { crates: n.crates, ..o })
                &&& n.crates@.len() == (if ci < o.crates@.len() { o.crates@.len() } else { o.crates@.len() + 1 })
                &&& forall|j: int| 0 <= j < o.crates@.len() && j != ci ==> #[trigger] n.crates@[j] == o.crates@[j]
                &&& n.crates@[ci]@ == (if ci < o.crates@.len() {
                    CrateView { sizes: sz, total_size: Some(sizes_total(sz) as u64), ..o.crates@[ci]@ }
                } else {
                    CrateView { sizes: sz, total_size: Some(sizes_total(sz) as u64), ..fresh_crate(name@, kind) }
                })
            },
            final(self).devices == old(self).devices,
            final(self).adapters == old(self).adapters,
            final(self).serial_ports == old(self).serial_ports,
            final(self).firmware == old(self).firmware,
            final(self).flash_modal == old(self).flash_modal,
    {
        if let Some(i) = self.find_build(b) {
            let ghost bs = self.builds@;
            let build = &mut self.builds[i];
            let c = build.crate_mut(name, kind);
            let ghost s0 = named_sizes(c.sizes@);
            upsert_named(&mut c.sizes, region, size);
            let ghost sz = named_sizes(c.sizes@);
            assert(sz == sizes_after(bs, b, name@, region@, size));
            let mut total: u64 = 0;
            let mut k: usize = 0;
            proof {
                lemma_sizes_total_prefix(sz, 0);
            }
            while k < c.sizes.len()
                invariant
                    k <= c.sizes@.len(),
                    sz == named_sizes(c.sizes@),
                    sizes_total(sz) <= u64::MAX,
                    total == sizes_total(sz.subrange(0, k as int)),
                decreases c.sizes.len() - k,
            {
                proof {
                    assert(sz.subrange(0, k + 1).drop_last() =~= sz.subrange(0, k as int));
                    lemma_sizes_total_prefix(sz, k + 1);
                }
                total = total + c.sizes[k].1;
                k += 1;
            }
            assert(sz.subrange(0, k as int) =~= sz);
            c.total_size = Some(total);
        }
    }
}

/// `v` with each of `add` set in turn.
pub open spec fn upsert_all(v: Seq<(Seq<char>, u64)>, add: Seq<(Seq<char>, u64)>) -> Seq<(Seq<char>, u64)>
    decreases add.len(),
{
    if add.len() == 0 {
        v
    } else {
        upsert(upsert_all(v, add.drop_last()), add.last().0, add.last().1)
    }
}

/// A prefix totals no more than the whole.
proof fn lemma_sizes_total_prefix(v: Seq<(Seq<char>, u64)>, k: int)
    requires
        0 <= k <= v.len(),
    ensures
        sizes_total(v.subrange(0, k)) <= sizes_total(v),
    decreases v.len() - k,
{
    if k < v.len() {
        lemma_sizes_total_prefix(v, k + 1);
        assert(v.subrange(0, k + 1).drop_last() =~= v.subrange(0, k));
    } else {
        assert(v.subrange(0, k) =~= v);
    }
}

// ── Matching a reported build id ─────────────────────────────────────

/// The 32 hex digits of a hyphenated UUID (`8-4-4-4-12`), hyphens removed.
pub open spec fn unhyphenate(b: Seq<u8>) -> Seq<u8> {
    b.subrange(0, 8) + b.subrange(9, 13) + b.subrange(14, 18) + b.subrange(19, 23) + b.subrange(24, 36)
}

/// What `uuid::Uuid::parse_str` gives for a text, as 16 bytes.
pub uninterp spec fn uuid_parse(s: Seq<char>) -> Option<Seq<u8>>;

/// `uuid::Uuid::parse_str` followed by `as_bytes`. The result is named by
/// [`uuid_parse`]; of it, the contract states the two plain forms the
/// crate's parser handles: 32 hex digits (decoded as they stand), and 36
/// characters with hyphens at 8, 13, 18 and 23 (decoded without them). The
/// braced and `urn:uuid:` forms are left unstated.
#[verifier::external_body]
fn parse_uuid(s: &str) -> (r: Option<[u8; 16]>)
    ensures
        uuid_parse(s@) == (match r {
            Some(b) => Some(b@),
            None => None,
        }),
        vstd::utf8::encode_utf8(s@).len() == 32 ==> (match r {
            Some(b) => Some(b@),
            None => None,
        }) == crate::hex::spec_parse_hex16(vstd::utf8::encode_utf8(s@)),
        ({
            let b = vstd::utf8::encode_utf8(s@);
            b.len() == 36 ==> (match r {
                Some(x) => Some(x@),
                None => None,
            }) == (if b[8] == 0x2d && b[13] == 0x2d && b[18] == 0x2d && b[23] == 0x2d {
                crate::hex::spec_parse_hex16(unhyphenate(b))
            } else {
                None
            })
        }),
{
    uuid::Uuid::parse_str(s).ok().map(|u| *u.as_bytes())
}

/// Firmware `f`'s build id parses to `bytes`.
pub open spec fn firmware_matches(f: FirmwareHandle, bytes: Seq<u8>) -> bool {
    match f.metadata.build {
        Some(b) => uuid_parse(b.build_id@) == Some(bytes),
        None => false,
    }
}

/// The id of the first firmware in `fs` whose build id parses to `bytes`.
pub open spec fn first_match(fs: Seq<FirmwareHandle>, bytes: Seq<u8>) -> Option<FirmwareId>
    decreases fs.len(),
{
    if fs.len() == 0 {
        None
    } else if firmware_matches(fs[0], bytes) {
        Some(fs[0].id)
    } else {
        first_match(fs.drop_first(), bytes)
    }
}

/// The first loaded firmware whose build id reads `build_id`.
pub open spec fn first_with_build_id(fs: Seq<FirmwareHandle>, build_id: Seq<char>) -> Option<FirmwareId>
    decreases fs.len(),
{
    if fs.len() == 0 {
        None
    } else if fs[0].metadata.build matches Some(b) && b.build_id@ == build_id {
        Some(fs[0].id)
    } else {
        first_with_build_id(fs.drop_first(), build_id)
    }
}

/// The firmware already loaded with build id `build_id`: loading an
/// archive of that build again gives this one instead of a second entry.
pub fn firmware_with_build_id(firmware: &Vec<FirmwareHandle>, build_id: &str) -> (r: Option<FirmwareId>)
    ensures
        r == first_with_build_id(firmware@, build_id@),
{
    let mut i: usize = 0;
    assert(firmware@.subrange(0, firmware@.len() as int) =~= firmware@);
    while i < firmware.len()
        invariant
            i <= firmware@.len(),
            first_with_build_id(firmware@, build_id@) == first_with_build_id(
                firmware@.subrange(i as int, firmware@.len() as int),
                build_id@,
            ),
        decreases firmware.len() - i,
    {
        let ghost rest = firmware@.subrange(i as int, firmware@.len() as int);
        assert(rest[0] == firmware@[i as int]);
        assert(rest.drop_first() =~= firmware@.subrange(i + 1, firmware@.len() as int));
        if let Some(id) = firmware[i].build_id() {
            if crate::text::str_eq(id, build_id) {
                return Some(firmware[i].id);
            }
        }
        i += 1;
    }
    None
}

/// The first loaded firmware whose build id parses to `bytes`.
pub fn find_firmware_for_build_id(firmware: &Vec<FirmwareHandle>, bytes: &[u8; 16]) -> (r: Option<FirmwareId>)
    ensures
        r == first_match(firmware@, bytes@),
{
    let mut i: usize = 0;
    assert(firmware@.subrange(0, firmware@.len() as int) =~= firmware@);
    while i < firmware.len()
        invariant
            i <= firmware@.len(),
            first_match(firmware@, bytes@) == first_match(firmware@.subrange(i as int, firmware@.len() as int), bytes@),
        decreases firmware.len() - i,
    {
        let ghost rest = firmware@.subrange(i as int, firmware@.len() as int);
        assert(rest[0] == firmware@[i as int]);
        assert(rest.drop_first() =~= firmware@.subrange(i + 1, firmware@.len() as int));
        if let Some(id) = firmware[i].build_id() {
            if let Some(parsed) = parse_uuid(id) {
                if crate::text::bytes_eq(parsed.as_slice(), bytes.as_slice()) {
                    return Some(firmware[i].id);
                }
            }
        }
        i += 1;
    }
    None
}

impl<L, S, C> FrontendState<L, S, C> {
    /// A device reported the build id of its firmware: if a loaded archive
    /// has that build id, the device is marked as running it and the
    /// caller is asked to load its IPC schema.
    pub fn on_device_reported_build_id(&mut self, d: DeviceId, bytes: [u8; 16], actions: &mut Vec<UiAction>)
        requires
            old(self).well_formed(),
        ensures
            final(self).well_formed(),
            final(self).devices@.len() == old(self).devices@.len(),
            ({
                let m = first_match(old(self).firmware@, bytes@);
                &&& (m is None || !has_device(old(self).devices@, d)) ==> final(self).devices == old(self).devices && final(actions)@ == old(actions)@
                &&& (m is Some && has_device(old(self).devices@, d)) ==> {
                    &&& final(actions)@ == old(actions)@.push(UiAction::FirmwareMatched { device_id: d, firmware_id: m->0 })
                    &&& forall|i: int| 0 <= i < old(self).devices@.len() ==> #[trigger] final(self).devices@[i] == (if old(self).devices@[i].id == d {
                        DeviceHandle { firmware_id: m, ..old(self).devices@[i] }
                    } else {
                        old(self).devices@[i]
                    })
                }
            }),
            final(self).adapters == old(self).adapters,
            final(self).serial_ports == old(self).serial_ports,
            final(self).builds == old(self).builds,
            final(self).firmware == old(self).firmware,
            final(self).flash_modal == old(self).flash_modal,
    {
        match find_firmware_for_build_id(&self.firmware, &bytes) {
            Some(fw) => {
                match self.find_device(d) {
                    Some(i) => {
                        proof {
                            self.lemma_unique_slot(d, i as int);
                        }
                        let ghost ds = self.devices@;
                        let dev = &mut self.devices[i];
                        dev.firmware_id = Some(fw);
                        proof {
                            let es = self.devices@;
                            assert forall|x: int, y: int| 0 <= x < y < es.len() implies (#[trigger] es[x]).id != (#[trigger] es[y]).id by {
                                assert(es[x].id == ds[x].id && es[y].id == ds[y].id);
                            }
                            assert forall|x: int| 0 <= x < es.len() implies (#[trigger] es[x]).well_formed() by {
                                assert(es[x].log_buffer == ds[x].log_buffer);
                            }
                        }
                        actions.push(UiAction::FirmwareMatched { device_id: d, firmware_id: fw });
                    },
                    None => {},
                }
            },
            None => {},
        }
    }

    /// A compiler diagnostic: an error is also recorded as the first error
    /// of the crate it names (if that crate has none yet).
    pub fn on_build_diagnostic(&mut self, b: BuildId, diagnostic: Diagnostic)
        ensures
            final(self).builds@.len() == old(self).builds@.len(),
            forall|i: int| 0 <= i < old(self).builds@.len() && i != build_slot(old(self).builds@, b) ==> #[trigger] final(self).builds@[i] == old(self).builds@[i],
            build_slot(old(self).builds@, b) < old(self).builds@.len() ==> {
                let i = build_slot(old(self).builds@, b);
                let o = old(self).builds@[i];
                let n = final(self).builds@[i];
                let ci = crate_slot(o.crates@, diagnostic.crate_name@);
                &&& n.diagnostics@ == o.diagnostics@.push(diagnostic)
                &&& n.crates@.len() == o.crates@.len()
                &&& forall|j: int| 0 <= j < o.crates@.len() ==> #[trigger] n.crates@[j] == (if j == ci && diagnostic.level
                    == DiagnosticLevel::Error && o.crates@[j].error.is_none() {
                    CrateProgress { error: Some(diagnostic.rendered), ..o.crates@[j] }
                } else {
                    o.crates@[j]
                })
                &&& n == (BuildHandle { crates: n.crates, diagnostics: n.diagnostics, ..o })
            },
            final(self).devices == old(self).devices,
            final(self).adapters == old(self).adapters,
            final(self).serial_ports == old(self).serial_ports,
            final(self).firmware == old(self).firmware,
            final(self).flash_modal == old(self).flash_modal,
    {
        if let Some(i) = self.find_build(b) {
            let build = &mut self.builds[i];
            if diagnostic.level == DiagnosticLevel::Error {
                proof {
                    crate::pipeline::lemma_crate_slot(build.crates@, diagnostic.crate_name@);
                }
                let mut k: usize = 0;
                while k < build.crates.len() && !crate::text::str_eq(build.crates[k].name.as_str(), diagnostic.crate_name.as_str())
                    invariant
                        k <= build.crates@.len(),
                        k <= crate_slot(build.crates@, diagnostic.crate_name@),
                        0 <= crate_slot(build.crates@, diagnostic.crate_name@) <= build.crates@.len(),
                        crate_slot(build.crates@, diagnostic.crate_name@) < build.crates@.len() ==> build.crates@[crate_slot(
                            build.crates@,
                            diagnostic.crate_name@,
                        )].name@ == diagnostic.crate_name@,
                        forall|j: int| 0 <= j < crate_slot(build.crates@, diagnostic.crate_name@) ==> (#[trigger] build.crates@[j]).name@
                            != diagnostic.crate_name@,
                    decreases build.crates.len() - k,
                {
                    k += 1;
                }
                if k < build.crates.len() {
                    let c = &mut build.crates[k];
                    if c.error.is_none() {
                        c.error = Some(diagnostic.rendered.clone());
                    }
                }
            }
            build.diagnostics.push(diagnostic);
        }
    }

    /// The build finished at `now_ms`. On success `firmware_id` is what
    /// loading the archive gave (the archive is not opened here); on failure
    /// the error is also logged as `ERROR: <error>`.
    pub fn on_build_complete(&mut self, b: BuildId, result: Result<String, String>, firmware_id: Option<FirmwareId>, now_ms: u64)
        ensures
            final(self).builds@.len() == old(self).builds@.len(),
            forall|i: int| 0 <= i < old(self).builds@.len() && i != build_slot(old(self).builds@, b) ==> #[trigger] final(self).builds@[i] == old(self).builds@[i],
            build_slot(old(self).builds@, b) < old(self).builds@.len() ==> {
                let i = build_slot(old(self).builds@, b);
                let o = old(self).builds@[i];
                let n = final(self).builds@[i];
                match result {
                    Ok(path) => n == (BuildHandle {
                        status: BuildStatus::Succeeded { tfw_path: path, firmware_id },
                        finished_at_ms: Some(now_ms),
                        phase: Some(PipelinePhase::Done),
                        ..o
                    }),
                    Err(e) => {
                        &&& texts(n.log@) == texts(o.log@).push("ERROR: "@ + e@)
                        &&& n == (BuildHandle { status: BuildStatus::Failed { error: e }, finished_at_ms: Some(now_ms), log: n.log, ..o })
                    },
                }
            },
            final(self).devices == old(self).devices,
            final(self).adapters == old(self).adapters,
            final(self).serial_ports == old(self).serial_ports,
            final(self).firmware == old(self).firmware,
            final(self).flash_modal == old(self).flash_modal,
    {
        if let Some(i) = self.find_build(b) {
            let build = &mut self.builds[i];
            match result {
                Ok(path) => {
                    build.status = BuildStatus::Succeeded { tfw_path: path, firmware_id };
                    build.finished_at_ms = Some(now_ms);
                    build.phase = Some(PipelinePhase::Done);
                },
                Err(error) => {
                    let mut line = String::new();
                    push_str(&mut line, "ERROR: ");
                    push_str(&mut line, error.as_str());
                    proof {
                        reveal_strlit("ERROR: ");
                    }
                    let ghost l0 = texts(build.log@);
                    build.log.push(line);
                    assert(texts(build.log@) =~= l0.push("ERROR: "@ + error@));
                    build.status = BuildStatus::Failed { error };
                    build.finished_at_ms = Some(now_ms);
                },
            }
        }
    }
}

/// Candidate IPC transports of a device: for each adapter entry that
/// contributes IPC, the transport of the first adapter record with its id.
pub open spec fn transport_of(ads: Seq<AdapterHandle>, a: AdapterId) -> Option<(Seq<char>, u8)>
    decreases ads.len(),
{
    if ads.len() == 0 {
        None
    } else if ads[0].id == a {
        match ads[0].ipc_transport {
            Some((l, p)) => Some((l@, p)),
            None => None,
        }
    } else {
        transport_of(ads.drop_first(), a)
    }
}

/// `t` is the transport of an adapter that contributes IPC to the device.
pub open spec fn ipc_candidate(caps: Seq<(AdapterId, KnownCapability)>, ads: Seq<AdapterHandle>, t: (Seq<char>, u8)) -> bool {
    exists|i: int| 0 <= i < caps.len() && caps[i].1 == KnownCapability::Ipc && #[trigger] transport_of(ads, caps[i].0) == Some(t)
}

impl<L, S, C> FrontendState<L, S, C> {
    /// The record of adapter `id`: the first with that id.
    fn find_adapter(&self, id: AdapterId) -> (r: Option<&AdapterHandle>)
        ensures
            r matches Some(h) ==> h.id == id && transport_of(self.adapters@, id) == (match h.ipc_transport {
                Some((l, p)) => Some((l@, p)),
                None => None,
            }),
            r is None ==> transport_of(self.adapters@, id) is None,
            r matches Some(h) ==> exists|i: int| 0 <= i < self.adapters@.len() && #[trigger] self.adapters@[i] == *h
                && forall|j: int| 0 <= j < i ==> (#[trigger] self.adapters@[j]).id != id,
            r is None ==> forall|j: int| 0 <= j < self.adapters@.len() ==> (#[trigger] self.adapters@[j]).id != id,
    {
        let mut i: usize = 0;
        assert(self.adapters@.subrange(0, self.adapters@.len() as int) =~= self.adapters@);
        while i < self.adapters.len()
            invariant
                i <= self.adapters@.len(),
                forall|j: int| 0 <= j < i ==> (#[trigger] self.adapters@[j]).id != id,
                transport_of(self.adapters@, id) == transport_of(self.adapters@.subrange(i as int, self.adapters@.len() as int), id),
            decreases self.adapters.len() - i,
        {
            let ghost rest = self.adapters@.subrange(i as int, self.adapters@.len() as int);
            assert(rest[0] == self.adapters@[i as int]);
            assert(rest.drop_first() =~= self.adapters@.subrange(i + 1, self.adapters@.len() as int));
            if self.adapters[i].id == id {
                return Some(&self.adapters[i]);
            }
            i += 1;
        }
        None
    }

    /// An adapter's display name, `?` when unknown.
    pub fn adapter_name(&self, id: AdapterId) -> (r: &str)
        ensures
            (forall|j: int| 0 <= j < self.adapters@.len() ==> (#[trigger] self.adapters@[j]).id != id) ==> r@ == "?"@,
            forall|i: int| 0 <= i < self.adapters@.len() && (#[trigger] self.adapters@[i]).id == id && (forall|j: int| 0 <= j < i ==> (#[trigger] self.adapters@[j]).id != id)
                ==> r@ == self.adapters@[i].display_name@,
    {
        match self.find_adapter(id) {
            Some(h) => {
                proof {
                    let k = choose|k: int| 0 <= k < self.adapters@.len() && #[trigger] self.adapters@[k] == *h
                        && forall|j: int| 0 <= j < k ==> (#[trigger] self.adapters@[j]).id != id;
                    assert forall|i: int| 0 <= i < self.adapters@.len() && (#[trigger] self.adapters@[i]).id == id && (forall|j: int| 0 <= j < i ==> (#[trigger] self.adapters@[j]).id != id)
                        implies h.display_name@ == self.adapters@[i].display_name@ by {
                        if i < k {
                            assert(self.adapters@[i].id != id);
                        } else if i > k {
                            assert(self.adapters@[k].id != id);
                        }
                    }
                }
                h.display_name.as_str()
            },
            None => "?",
        }
    }

    /// How device `d` would be flashed: over IPC when an adapter
    /// contributes it (naming the highest-priority transport among those
    /// adapters, `?` if none names one), else over SifliDebug when
    /// available; `None` for unknown devices or devices with neither.
    pub fn flash_method_for_device(&self, d: DeviceId) -> (r: Option<crate::state::FlashMethod>)
        requires
            self.well_formed(),
        ensures
            !has_device(self.devices@, d) ==> r is None,
            forall|i: int| 0 <= i < self.devices@.len() && (#[trigger] self.devices@[i]).id == d ==> {
                let caps = self.devices@[i].capabilities@;
                if crate::devices::has_cap(caps, KnownCapability::Ipc) {
                    r matches Some(crate::state::FlashMethod::Ipc { transport }) && (
                        (exists|t: (Seq<char>, u8)| #[trigger] ipc_candidate(caps, self.adapters@, t) && t.0 == transport@
                            && forall|u: (Seq<char>, u8)| #[trigger] ipc_candidate(caps, self.adapters@, u) ==> u.1 <= t.1)
                        || ((forall|u: (Seq<char>, u8)| !#[trigger] ipc_candidate(caps, self.adapters@, u)) && transport@ == "?"@))
                } else if crate::devices::has_cap(caps, KnownCapability::SifliDebug) {
                    r == Some(crate::state::FlashMethod::SifliDebug)
                } else {
                    r is None
                }
            },
    {
        let i = match self.find_device(d) {
            Some(i) => i,
            None => {
                return None;
            },
        };
        proof {
            self.lemma_unique_slot(d, i as int);
        }
        let dev = &self.devices[i];
        let ghost caps = dev.capabilities@;
        if dev.has_capability(KnownCapability::Ipc) {
            let mut best: Option<(&'static str, u8)> = None;
            let mut k: usize = 0;
            while k < dev.capabilities.len()
                invariant
                    k <= dev.capabilities@.len(),
                    caps == dev.capabilities@,
                    best matches Some((l, p)) ==> exists|m: int| 0 <= m < k && caps[m].1 == KnownCapability::Ipc && #[trigger] transport_of(self.adapters@, caps[m].0) == Some((l@, p)),
                    best matches Some((l, p)) ==> forall|m: int| 0 <= m < k && caps[m].1 == KnownCapability::Ipc && #[trigger] transport_of(self.adapters@, caps[m].0) is Some ==> transport_of(self.adapters@, caps[m].0).unwrap().1 <= p,
                    best is None ==> forall|m: int| 0 <= m < k && caps[m].1 == KnownCapability::Ipc ==> #[trigger] transport_of(self.adapters@, caps[m].0) is None,
                decreases dev.capabilities.len() - k,
            {
                let (a, cap) = dev.capabilities[k];
                if cap == KnownCapability::Ipc {
                    if let Some(h) = self.find_adapter(a) {
                        if let Some((label, prio)) = h.ipc_transport {
                            let better = match best {
                                Some((_, p)) => prio >= p,
                                None => true,
                            };
                            if better {
                                best = Some((label, prio));
                            }
                        }
                    }
                }
                k += 1;
            }
            let transport = match best {
                Some((l, _)) => l,
                None => "?",
            };
            proof {
                match best {
                    Some((l, p)) => {
                        let m = choose|m: int| 0 <= m < k && caps[m].1 == KnownCapability::Ipc && #[trigger] transport_of(self.adapters@, caps[m].0) == Some((l@, p));
                        assert(ipc_candidate(caps, self.adapters@, (l@, p)));
                        assert forall|u: (Seq<char>, u8)| #[trigger] ipc_candidate(caps, self.adapters@, u) implies u.1 <= p by {
                            let q = choose|q: int| 0 <= q < caps.len() && caps[q].1 == KnownCapability::Ipc && #[trigger] transport_of(self.adapters@, caps[q].0) == Some(u);
                        }
                    },
                    None => {
                        assert forall|u: (Seq<char>, u8)| !#[trigger] ipc_candidate(caps, self.adapters@, u) by {
                            if ipc_candidate(caps, self.adapters@, u) {
                                let q = choose|q: int| 0 <= q < caps.len() && caps[q].1 == KnownCapability::Ipc && #[trigger] transport_of(self.adapters@, caps[q].0) == Some(u);
                            }
                        }
                    },
                }
            }
            Some(crate::state::FlashMethod::Ipc { transport })
        } else if dev.has_capability(KnownCapability::SifliDebug) {
            Some(crate::state::FlashMethod::SifliDebug)
        } else {
            None
        }
    }

    /// The next device id (ids are handed out in order from 0).
    pub fn next_device_id(&mut self) -> (id: DeviceId)
        requires
            old(self).next_device_id < u64::MAX,
        ensures
            id.0 == old(self).next_device_id,
            *final(self) == (FrontendState { next_device_id: (old(self).next_device_id + 1) as u64, ..*old(self) }),
    {
        let id = DeviceId(self.next_device_id);
        self.next_device_id = self.next_device_id + 1;
        id
    }

    /// The next firmware id (ids are handed out in order from 0).
    pub fn next_firmware_id(&mut self) -> (id: FirmwareId)
        requires
            old(self).next_firmware_id < u64::MAX,
        ensures
            id.0 == old(self).next_firmware_id,
            *final(self) == (FrontendState { next_firmware_id: (old(self).next_firmware_id + 1) as u64, ..*old(self) }),
    {
        let id = FirmwareId(self.next_firmware_id);
        self.next_firmware_id = self.next_firmware_id + 1;
        id
    }

    /// The next build id (ids are handed out in order from 0).
    pub fn next_build_id(&mut self) -> (id: BuildId)
        requires
            old(self).next_build_id < u64::MAX,
        ensures
            id.0 == old(self).next_build_id,
            *final(self) == (FrontendState { next_build_id: (old(self).next_build_id + 1) as u64, ..*old(self) }),
    {
        let id = BuildId(self.next_build_id);
        self.next_build_id = self.next_build_id + 1;
        id
    }
}

/// Build `b` is a finished build of firmware `f`.
pub open spec fn built_firmware(b: BuildHandle, f: FirmwareId) -> bool {
    b.status matches BuildStatus::Succeeded { firmware_id, .. } && firmware_id == Some(f)
}

/// Index of the first build of firmware `f`, or the length.
pub open spec fn build_of_firmware(bs: Seq<BuildHandle>, f: FirmwareId) -> int
    decreases bs.len(),
{
    if bs.len() == 0 {
        0
    } else if built_firmware(bs[0], f) {
        0
    } else {
        1 + build_of_firmware(bs.drop_first(), f)
    }
}

/// Index of the first firmware with id `f`, or the length.
pub open spec fn firmware_slot(fs: Seq<FirmwareHandle>, f: FirmwareId) -> int
    decreases fs.len(),
{
    if fs.len() == 0 {
        0
    } else if fs[0].id == f {
        0
    } else {
        1 + firmware_slot(fs.drop_first(), f)
    }
}

proof fn lemma_firmware_slot(fs: Seq<FirmwareHandle>, f: FirmwareId)
    ensures
        firmware_slot(fs, f) < fs.len() ==> fs[firmware_slot(fs, f)].id == f,
        0 <= firmware_slot(fs, f) <= fs.len(),
    decreases fs.len(),
{
    if fs.len() > 0 && fs[0].id != f {
        lemma_firmware_slot(fs.drop_first(), f);
    }
}

proof fn lemma_build_of_firmware_push(bs: Seq<BuildHandle>, f: FirmwareId, b: BuildHandle)
    requires
        build_of_firmware(bs, f) == bs.len(),
        built_firmware(b, f),
    ensures
        build_of_firmware(bs.push(b), f) == bs.len(),
    decreases bs.len(),
{
    if bs.len() > 0 {
        assert(!built_firmware(bs[0], f));
        assert(bs.push(b).drop_first() =~= bs.drop_first().push(b));
        lemma_build_of_firmware_push(bs.drop_first(), f, b);
    } else {
        assert(bs.push(b)[0] == b);
    }
}

/// Asking twice for the build of firmware `f` gives the same build: the
/// snapshot a first call adds (when no build of `f` existed) is the one the
/// next call finds, so that call adds nothing.
pub proof fn law_build_for_firmware_stable(
    bs: Seq<BuildHandle>,
    fs: Seq<FirmwareHandle>,
    f: FirmwareId,
    b: BuildHandle,
    archive_size: u64,
    now_ms: u64,
)
    requires
        build_of_firmware(bs, f) == bs.len(),
        firmware_slot(fs, f) < fs.len(),
        crate::pipeline::is_snapshot(b, fs[firmware_slot(fs, f)], archive_size, now_ms),
    ensures
        build_of_firmware(bs.push(b), f) == bs.len(),
        bs.push(b)[bs.len() as int] == b,
{
    lemma_firmware_slot(fs, f);
    lemma_build_of_firmware_push(bs, f, b);
}

/// Device ids are handed out in order: after one id is handed out the next
/// one is greater by one (so no id repeats while the counter has room).
pub proof fn law_device_ids_increase<L, S, C>(s: FrontendState<L, S, C>)
    requires
        s.next_device_id + 1 < u64::MAX,
    ensures
        ({
            let s1 = FrontendState { next_device_id: (s.next_device_id + 1) as u64, ..s };
            &&& s1.next_device_id < u64::MAX
            &&& s1.next_device_id == s.next_device_id + 1
        }),
{
}

impl<L, S, C> FrontendState<L, S, C> {
    /// The build that shows firmware `f`: an existing build that produced
    /// it, else a snapshot of the loaded archive (whose file has
    /// `archive_size` bytes) registered under the next build id; `None`
    /// when the firmware is unknown.
    pub fn build_for_firmware(&mut self, f: FirmwareId, archive_size: u64, now_ms: u64) -> (r: Option<BuildId>)
        requires
            old(self).next_build_id < u64::MAX,
        ensures
            ({
                let bi = build_of_firmware(old(self).builds@, f);
                let fi = firmware_slot(old(self).firmware@, f);
                if bi < old(self).builds@.len() {
                    &&& r == Some(old(self).builds@[bi].id)
                    &&& final(self).builds == old(self).builds
                    &&& final(self).next_build_id == old(self).next_build_id
                } else if fi < old(self).firmware@.len() {
                    &&& r == Some(BuildId(old(self).next_build_id))
                    &&& final(self).next_build_id == old(self).next_build_id + 1
                    &&& final(self).builds@.len() == old(self).builds@.len() + 1
                    &&& final(self).builds@.subrange(0, old(self).builds@.len() as int) == old(self).builds@
                    &&& final(self).builds@.last().id == BuildId(old(self).next_build_id)
                    &&& crate::pipeline::is_snapshot(final(self).builds@.last(), old(self).firmware@[fi], archive_size, now_ms)
                } else {
                    &&& r is None
                    &&& final(self).builds == old(self).builds
                    &&& final(self).next_build_id == old(self).next_build_id
                }
            }),
            final(self).devices == old(self).devices,
            final(self).firmware == old(self).firmware,
            final(self).adapters == old(self).adapters,
            final(self).serial_ports == old(self).serial_ports,
    {
        let mut i: usize = 0;
        assert(self.builds@.subrange(0, self.builds@.len() as int) =~= self.builds@);
        while i < self.builds.len()
            invariant
                i <= self.builds@.len(),
                *self == *old(self),
                build_of_firmware(self.builds@, f) == i + build_of_firmware(self.builds@.subrange(i as int, self.builds@.len() as int), f),
            decreases self.builds.len() - i,
        {
            let ghost rest = self.builds@.subrange(i as int, self.builds@.len() as int);
            assert(rest[0] == self.builds@[i as int]);
            assert(rest.drop_first() =~= self.builds@.subrange(i + 1, self.builds@.len() as int));
            if let BuildStatus::Succeeded { firmware_id: Some(x), .. } = &self.builds[i].status {
                if *x == f {
                    return Some(self.builds[i].id);
                }
            }
            i += 1;
        }
        assert(self.builds@.subrange(i as int, self.builds@.len() as int) =~= Seq::<BuildHandle>::empty());
        let mut j: usize = 0;
        assert(self.firmware@.subrange(0, self.firmware@.len() as int) =~= self.firmware@);
        while j < self.firmware.len()
            invariant
                j <= self.firmware@.len(),
                *self == *old(self),
                build_of_firmware(self.builds@, f) == self.builds@.len(),
                old(self).next_build_id < u64::MAX,
                firmware_slot(self.firmware@, f) == j + firmware_slot(self.firmware@.subrange(j as int, self.firmware@.len() as int), f),
            decreases self.firmware.len() - j,
        {
            let ghost rest = self.firmware@.subrange(j as int, self.firmware@.len() as int);
            assert(rest[0] == self.firmware@[j as int]);
            assert(rest.drop_first() =~= self.firmware@.subrange(j + 1, self.firmware@.len() as int));
            if self.firmware[j].id == f {
                let mut handle = crate::pipeline::BuildHandle::snapshot_from_firmware(&self.firmware[j], archive_size, now_ms);
                let id = self.next_build_id();
                handle.id = id;
                let ghost b0 = self.builds@;
                self.builds.push(handle);
                assert(self.builds@.subrange(0, b0.len() as int) =~= b0);
                return Some(id);
            }
            j += 1;
        }
        assert(self.firmware@.subrange(j as int, self.firmware@.len() as int) =~= Seq::<FirmwareHandle>::empty());
        None
    }
}

// ── Laws ─────────────────────────────────────────────────────────────

/// After the orphan sweep no ephemeral or emulator device is left without
/// an adapter, persistent devices without adapters are in phase unknown,
/// and ids stay distinct.
pub proof fn law_sweep_leaves_no_orphans<L>(ds: Seq<DeviceHandle<L>>)
    requires
        devices_ok(ds),
    ensures
        devices_ok(sweep(ds)),
        forall|i: int| 0 <= i < sweep(ds).len() ==> !orphan(#[trigger] sweep(ds)[i]),
        forall|i: int|
            0 <= i < sweep(ds).len() && (#[trigger] sweep(ds)[i]).kind == DeviceKind::Persistent && sweep(ds)[i].adapter_ids@.len()
                == 0 ==> sweep(ds)[i].phase == DevicePhase::Unknown,
{
    lemma_sweep_facts(ds);
    assert forall|i: int|
        0 <= i < sweep(ds).len() && (#[trigger] sweep(ds)[i]).kind == DeviceKind::Persistent && sweep(ds)[i].adapter_ids@.len()
            == 0 implies sweep(ds)[i].phase == DevicePhase::Unknown by {
        let j = choose|j: int| 0 <= j < ds.len() && sweep(ds)[i] == settled(ds[j]);
    }
}

/// A device an adapter was taken off no longer lists it, and no capability
/// is attributed to it any more.
pub proof fn law_stripped_forgets_adapter<L>(n: DeviceHandle<L>, o: DeviceHandle<L>, a: AdapterId)
    requires
        stripped(n, o, a),
    ensures
        !n.adapter_ids@.contains(a),
        forall|i: int| 0 <= i < n.capabilities@.len() ==> (#[trigger] n.capabilities@[i]).0 != a,
{
    assert forall|i: int| 0 <= i < n.capabilities@.len() implies (#[trigger] n.capabilities@[i]).0 != a by {
        o.capabilities@.lemma_filter_pred(other_entry(a), i);
    }
    if n.adapter_ids@.contains(a) {
        let i = choose|i: int| 0 <= i < n.adapter_ids@.len() && n.adapter_ids@[i] == a;
        o.adapter_ids@.lemma_filter_pred(other_adapter(a), i);
    }
}

} // verus!
