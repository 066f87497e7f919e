//! Decisions of the bridge between the front end and the hardware: flash
//! progress and retries, the persistent device registry, the USART1 batch
//! probe and what a USART1 wire's lines mean.

use vstd::prelude::*;

use crate::ids::{AdapterId, ChipUid, DeviceId, FirmwareId};
use crate::state::{DeviceKind, DevicePhase, KnownCapability, SerialPortStatus};
use crate::text::{push_char, push_str};

verus! {

// ── Flash phases ─────────────────────────────────────────────────────

/// Phase of a flash operation, driven by the bridge.
///
/// Steps: 0 resetting, 1 writing the stub, 2 verifying it, 3 booting it,
/// 4 erasing, 5 programming, 6 verifying the firmware.
#[derive(Clone, Debug, PartialEq, Eq)]
pub enum FlashPhase {
    /// Step 0: resetting the device via SifliDebug.
    Resetting,
    /// Step 0: auto-reset failed, the user is asked to reset.
    WaitingForReset,
    /// Step 1: writing stub firmware to RAM.
    WritingStub { bytes_written: u32, bytes_total: u32 },
    /// Step 2: verifying the stub.
    VerifyingStub { bytes_verified: u32, bytes_total: u32 },
    /// Step 3: stub loaded, device booting.
    BootingStub,
    /// Step 3: stub running and USB-enumerated.
    StubBooted,
    /// Step 4: erasing flash partitions.
    Erasing,
    /// Step 5: programming firmware.
    Programming { bytes_written: u32, bytes_total: u32 },
    /// Step 6: verifying firmware in flash.
    Verifying { bytes_verified: u32, bytes_total: u32 },
    /// Finished successfully.
    Done,
    /// Failed at the step that was in progress.
    Failed { at_step: usize, message: String },
}

/// A flash phase as plain values.
pub enum FlashPhaseView {
    Resetting,
    WaitingForReset,
    WritingStub { bytes_written: u32, bytes_total: u32 },
    VerifyingStub { bytes_verified: u32, bytes_total: u32 },
    BootingStub,
    StubBooted,
    Erasing,
    Programming { bytes_written: u32, bytes_total: u32 },
    Verifying { bytes_verified: u32, bytes_total: u32 },
    Done,
    Failed { at_step: usize, message: Seq<char> },
}

impl FlashPhase {
    /// The phase as plain values.
    pub open spec fn view(&self) -> FlashPhaseView {
        match self {
            FlashPhase::Resetting => FlashPhaseView::Resetting,
            FlashPhase::WaitingForReset => FlashPhaseView::WaitingForReset,
            FlashPhase::WritingStub { bytes_written, bytes_total } => FlashPhaseView::WritingStub {
                bytes_written: *bytes_written,
                bytes_total: *bytes_total,
            },
            FlashPhase::VerifyingStub { bytes_verified, bytes_total } => FlashPhaseView::VerifyingStub {
                bytes_verified: *bytes_verified,
                bytes_total: *bytes_total,
            },
            FlashPhase::BootingStub => FlashPhaseView::BootingStub,
            FlashPhase::StubBooted => FlashPhaseView::StubBooted,
            FlashPhase::Erasing => FlashPhaseView::Erasing,
            FlashPhase::Programming { bytes_written, bytes_total } => FlashPhaseView::Programming {
                bytes_written: *bytes_written,
                bytes_total: *bytes_total,
            },
            FlashPhase::Verifying { bytes_verified, bytes_total } => FlashPhaseView::Verifying {
                bytes_verified: *bytes_verified,
                bytes_total: *bytes_total,
            },
            FlashPhase::Done => FlashPhaseView::Done,
            FlashPhase::Failed { at_step, message } => FlashPhaseView::Failed { at_step: *at_step, message: message@ },
        }
    }
}

/// How a step of the flash modal is shown.
#[derive(Clone, Copy, Debug, PartialEq, Eq, Structural)]
pub enum StepStatus {
    Complete,
    Failed,
    Active,
    Pending,
}

/// Number of steps the flash modal lists.
pub const FLASH_STEPS: usize = 7;

impl FlashPhase {
    /// The step in progress (7 once done) and whether it failed.
    pub open spec fn spec_step(&self) -> (usize, bool) {
        match self {
            FlashPhase::Resetting | FlashPhase::WaitingForReset => (0, false),
            FlashPhase::WritingStub { .. } => (1, false),
            FlashPhase::VerifyingStub { .. } => (2, false),
            FlashPhase::BootingStub | FlashPhase::StubBooted => (3, false),
            FlashPhase::Erasing => (4, false),
            FlashPhase::Programming { .. } => (5, false),
            FlashPhase::Verifying { .. } => (6, false),
            FlashPhase::Done => (7, false),
            FlashPhase::Failed { at_step, .. } => (*at_step, true),
        }
    }

    /// The step in progress (7 once done) and whether it failed.
    pub fn step(&self) -> (r: (usize, bool))
        ensures
            r == self.spec_step(),
    {
        match self {
            FlashPhase::Resetting | FlashPhase::WaitingForReset => (0, false),
            FlashPhase::WritingStub { .. } => (1, false),
            FlashPhase::VerifyingStub { .. } => (2, false),
            FlashPhase::BootingStub | FlashPhase::StubBooted => (3, false),
            FlashPhase::Erasing => (4, false),
            FlashPhase::Programming { .. } => (5, false),
            FlashPhase::Verifying { .. } => (6, false),
            FlashPhase::Done => (7, false),
            FlashPhase::Failed { at_step, .. } => (*at_step, true),
        }
    }

    /// The stub has been handed over (booting or later, or finished): the
    /// modal shows device logs from here on.
    pub open spec fn spec_past_stub_write(&self) -> bool {
        match self {
            FlashPhase::BootingStub | FlashPhase::StubBooted | FlashPhase::Erasing
            | FlashPhase::Programming { .. } | FlashPhase::Verifying { .. } | FlashPhase::Done
            | FlashPhase::Failed { .. } => true,
            _ => false,
        }
    }

    /// See [`FlashPhase::spec_past_stub_write`].
    pub fn past_stub_write(&self) -> (r: bool)
        ensures
            r == self.spec_past_stub_write(),
    {
        match self {
            FlashPhase::BootingStub | FlashPhase::StubBooted | FlashPhase::Erasing
            | FlashPhase::Programming { .. } | FlashPhase::Verifying { .. } | FlashPhase::Done
            | FlashPhase::Failed { .. } => true,
            _ => false,
        }
    }

    /// How step `i` is shown: done before the current step, failed or
    /// active at it, pending after it.
    pub fn step_status(&self, i: usize) -> (r: StepStatus)
        ensures
            r == (if i < self.spec_step().0 {
                StepStatus::Complete
            } else if i == self.spec_step().0 && self.spec_step().1 {
                StepStatus::Failed
            } else if i == self.spec_step().0 {
                StepStatus::Active
            } else {
                StepStatus::Pending
            }),
    {
        let (step, failed) = self.step();
        if i < step {
            StepStatus::Complete
        } else if i == step && failed {
            StepStatus::Failed
        } else if i == step {
            StepStatus::Active
        } else {
            StepStatus::Pending
        }
    }

    /// Bytes done and total for step `i`, for the steps that report them
    /// while they run.
    pub fn step_progress(&self, i: usize) -> (r: Option<(u32, u32)>)
        ensures
            r == (match (i, self) {
                (1, FlashPhase::WritingStub { bytes_written, bytes_total }) => Some((*bytes_written, *bytes_total)),
                (2, FlashPhase::VerifyingStub { bytes_verified, bytes_total }) => Some((*bytes_verified, *bytes_total)),
                (5, FlashPhase::Programming { bytes_written, bytes_total }) => Some((*bytes_written, *bytes_total)),
                (6, FlashPhase::Verifying { bytes_verified, bytes_total }) => Some((*bytes_verified, *bytes_total)),
                _ => None,
            }),
    {
        match (i, self) {
            (1, FlashPhase::WritingStub { bytes_written, bytes_total }) => Some((*bytes_written, *bytes_total)),
            (2, FlashPhase::VerifyingStub { bytes_verified, bytes_total }) => Some((*bytes_verified, *bytes_total)),
            (5, FlashPhase::Programming { bytes_written, bytes_total }) => Some((*bytes_written, *bytes_total)),
            (6, FlashPhase::Verifying { bytes_verified, bytes_total }) => Some((*bytes_verified, *bytes_total)),
            _ => None,
        }
    }

    /// The label of step `i`; the first step reads differently while the
    /// user is asked to reset the device.
    pub fn step_label(&self, i: usize) -> (r: &'static str)
        requires
            i < FLASH_STEPS,
        ensures
            r@ == (if i == 0 {
                if *self == FlashPhase::WaitingForReset {
                    "Waiting for device reset..."@
                } else {
                    "Resetting device..."@
                }
            } else if i == 1 {
                "Writing stub to RAM"@
            } else if i == 2 {
                "Verifying stub"@
            } else if i == 3 {
                "Booting stub..."@
            } else if i == 4 {
                "Erasing flash"@
            } else if i == 5 {
                "Programming firmware"@
            } else {
                "Verifying firmware"@
            }),
    {
        if i == 0 {
            match self {
                FlashPhase::WaitingForReset => "Waiting for device reset...",
                _ => "Resetting device...",
            }
        } else if i == 1 {
            "Writing stub to RAM"
        } else if i == 2 {
            "Verifying stub"
        } else if i == 3 {
            "Booting stub..."
        } else if i == 4 {
            "Erasing flash"
        } else if i == 5 {
            "Programming firmware"
        } else {
            "Verifying firmware"
        }
    }
}

/// Once done every step shows complete; after a failure at step `k`, the
/// steps before it show complete, `k` failed and the rest pending.
pub proof fn law_flash_steps(p: FlashPhase, i: usize)
    requires
        i < FLASH_STEPS,
    ensures
        p == FlashPhase::Done ==> p.spec_step().0 > i && !p.spec_step().1,
        p matches FlashPhase::Failed { at_step, .. } ==> (p.spec_step() == (at_step, true)),
        !(p is Failed) ==> !p.spec_step().1 && p.spec_step().0 <= 7,
{
}

// ── Pending flashes ──────────────────────────────────────────────────

/// How many bootrom entries a pending flash may take before giving up.
pub const MAX_FLASH_ATTEMPTS: u32 = 3;

/// A flash that waits for its device to enter the bootrom.
#[derive(Clone, Debug)]
pub struct PendingFlash {
    pub tfw_path: String,
    pub attempts: u32,
}

/// What to do on a device's bootrom entry.
#[derive(Clone, Debug)]
pub enum FlashDecision {
    /// No flash is pending for the device.
    NotPending,
    /// Write the stub now; this is attempt `attempt` (from 1).
    Attempt { attempt: u32, tfw_path: String },
    /// The device reset too often: the flash is dropped with this message.
    GiveUp { message: String },
}

/// Pending flashes by device, one entry per device.
pub struct PendingFlashes {
    entries: Vec<(DeviceId, PendingFlash)>,
}

/// The pending flashes as device id, archive path text and attempts.
pub open spec fn pending_view(e: Seq<(DeviceId, PendingFlash)>) -> Map<DeviceId, (Seq<char>, u32)>
    decreases e.len(),
{
    if e.len() == 0 {
        Map::empty()
    } else {
        pending_view(e.drop_last()).insert(e.last().0, (e.last().1.tfw_path@, e.last().1.attempts))
    }
}

/// No device appears twice.
pub open spec fn unique_devices(e: Seq<(DeviceId, PendingFlash)>) -> bool {
    forall|i: int, j: int| 0 <= i < j < e.len() ==> (#[trigger] e[i]).0 != (#[trigger] e[j]).0
}

proof fn lemma_pending_view_index(e: Seq<(DeviceId, PendingFlash)>, i: int)
    requires
        unique_devices(e),
        0 <= i < e.len(),
    ensures
        pending_view(e).contains_key(e[i].0),
        pending_view(e)[e[i].0] == (e[i].1.tfw_path@, e[i].1.attempts),
    decreases e.len(),
{
    if i < e.len() - 1 {
        lemma_pending_view_index(e.drop_last(), i);
        assert(e.drop_last()[i] == e[i]);
        assert(e[i].0 != e.last().0);
    }
}

proof fn lemma_pending_view_absent(e: Seq<(DeviceId, PendingFlash)>, d: DeviceId)
    requires
        forall|i: int| 0 <= i < e.len() ==> (#[trigger] e[i]).0 != d,
    ensures
        !pending_view(e).contains_key(d),
    decreases e.len(),
{
    if e.len() > 0 {
        lemma_pending_view_absent(e.drop_last(), d);
    }
}

proof fn lemma_pending_view_dom(e: Seq<(DeviceId, PendingFlash)>, d: DeviceId)
    requires
        pending_view(e).contains_key(d),
    ensures
        exists|i: int| 0 <= i < e.len() && (#[trigger] e[i]).0 == d,
    decreases e.len(),
{
    if e.last().0 != d {
        lemma_pending_view_dom(e.drop_last(), d);
        let i = choose|i: int| 0 <= i < e.drop_last().len() && (#[trigger] e.drop_last()[i]).0 == d;
        assert(e[i] == e.drop_last()[i]);
    }
}

proof fn lemma_pending_view_update(e: Seq<(DeviceId, PendingFlash)>, i: int, p: PendingFlash)
    requires
        unique_devices(e),
        0 <= i < e.len(),
    ensures
        unique_devices(e.update(i, (e[i].0, p))),
        pending_view(e.update(i, (e[i].0, p))) == pending_view(e).insert(e[i].0, (p.tfw_path@, p.attempts)),
    decreases e.len(),
{
    let f = e.update(i, (e[i].0, p));
    assert forall|a: int, b: int| 0 <= a < b < f.len() implies (#[trigger] f[a]).0 != (#[trigger] f[b]).0 by {
        assert(f[a].0 == e[a].0 && f[b].0 == e[b].0);
    }
    if i == e.len() - 1 {
        assert(f.drop_last() =~= e.drop_last());
        assert(pending_view(e.drop_last()).insert(e[i].0, (p.tfw_path@, p.attempts)) =~= pending_view(e).insert(
            e[i].0,
            (p.tfw_path@, p.attempts),
        ));
    } else {
        let w = e.drop_last();
        assert(unique_devices(w)) by {
            assert forall|a: int, b: int| 0 <= a < b < w.len() implies (#[trigger] w[a]).0 != (#[trigger] w[b]).0 by {
                assert(w[a] == e[a] && w[b] == e[b]);
            }
        }
        lemma_pending_view_update(w, i, p);
        assert(f.drop_last() =~= w.update(i, (e[i].0, p)));
        assert(e[i].0 != e.last().0);
        assert(pending_view(f) =~= pending_view(e).insert(e[i].0, (p.tfw_path@, p.attempts)));
    }
}

proof fn lemma_pending_view_remove(e: Seq<(DeviceId, PendingFlash)>, i: int)
    requires
        unique_devices(e),
        0 <= i < e.len(),
    ensures
        unique_devices(e.remove(i)),
        pending_view(e.remove(i)) == pending_view(e).remove(e[i].0),
    decreases e.len(),
{
    let f = e.remove(i);
    assert forall|a: int, b: int| 0 <= a < b < f.len() implies (#[trigger] f[a]).0 != (#[trigger] f[b]).0 by {
        let a2 = if a < i { a } else { a + 1 };
        let b2 = if b < i { b } else { b + 1 };
        assert(f[a] == e[a2] && f[b] == e[b2]);
    }
    if i == e.len() - 1 {
        assert(f =~= e.drop_last());
        assert forall|k: int| 0 <= k < f.len() implies (#[trigger] f[k]).0 != e[i].0 by {
            assert(f[k] == e[k]);
        }
        lemma_pending_view_absent(f, e[i].0);
        assert(pending_view(f) =~= pending_view(e).remove(e[i].0));
    } else {
        let w = e.drop_last();
        assert(unique_devices(w)) by {
            assert forall|a: int, b: int| 0 <= a < b < w.len() implies (#[trigger] w[a]).0 != (#[trigger] w[b]).0 by {
                assert(w[a] == e[a] && w[b] == e[b]);
            }
        }
        lemma_pending_view_remove(w, i);
        assert(f.drop_last() =~= w.remove(i));
        assert(f.last() == e.last());
        assert(e[i].0 != e.last().0);
        assert(pending_view(f) =~= pending_view(e).remove(e[i].0));
    }
}

/// The pending flashes after device `d` entered its bootrom: its attempt
/// count goes up, or, past the limit, its flash is dropped.
pub open spec fn after_bootrom(m: Map<DeviceId, (Seq<char>, u32)>, d: DeviceId) -> Map<DeviceId, (Seq<char>, u32)> {
    if !m.contains_key(d) {
        m
    } else if m[d].1 >= MAX_FLASH_ATTEMPTS {
        m.remove(d)
    } else {
        m.insert(d, (m[d].0, (m[d].1 + 1) as u32))
    }
}

/// The bootrom entry of `d` starts another attempt at the stub.
pub open spec fn bootrom_attempts(m: Map<DeviceId, (Seq<char>, u32)>, d: DeviceId) -> bool {
    m.contains_key(d) && m[d].1 < MAX_FLASH_ATTEMPTS
}

/// The pending flashes after `k` bootrom entries of `d`, and how many of
/// them started an attempt.
pub open spec fn after_bootroms(m: Map<DeviceId, (Seq<char>, u32)>, d: DeviceId, k: nat) -> (Map<DeviceId, (Seq<char>, u32)>, nat)
    decreases k,
{
    if k == 0 {
        (m, 0)
    } else {
        let (m1, a) = after_bootroms(m, d, (k - 1) as nat);
        (after_bootrom(m1, d), if bootrom_attempts(m1, d) { a + 1 } else { a })
    }
}

/// A requested flash is attempted at most three times however often the
/// device comes back through its bootrom: the first three entries each
/// start an attempt, the fourth drops the flash, and nothing follows.
pub proof fn law_flash_attempts_bounded(m: Map<DeviceId, (Seq<char>, u32)>, d: DeviceId, path: Seq<char>, k: nat)
    requires
        m.contains_key(d),
        m[d] == (path, 0u32),
    ensures
        after_bootroms(m, d, k).1 == (if k <= 3 { k } else { 3 }),
        k <= 3 ==> after_bootroms(m, d, k).0.contains_key(d) && after_bootroms(m, d, k).0[d] == (path, k as u32),
        k >= 4 ==> !after_bootroms(m, d, k).0.contains_key(d),
    decreases k,
{
    if k > 0 {
        law_flash_attempts_bounded(m, d, path, (k - 1) as nat);
    }
}

impl PendingFlashes {
    /// The pending flashes by device: archive path and attempts so far.
    pub closed spec fn view(&self) -> Map<DeviceId, (Seq<char>, u32)> {
        pending_view(self.entries@)
    }

    /// One entry per device.
    pub closed spec fn well_formed(&self) -> bool {
        unique_devices(self.entries@)
    }

    /// No pending flashes.
    pub fn new() -> (p: Self)
        ensures
            p.well_formed(),
            p.view() == Map::<DeviceId, (Seq<char>, u32)>::empty(),
    {
        PendingFlashes { entries: Vec::new() }
    }

    fn find(&self, device: DeviceId) -> (r: Option<usize>)
        requires
            self.well_formed(),
        ensures
            r matches Some(i) ==> i < self.entries@.len() && self.entries@[i as int].0 == device,
            r is None ==> !self.view().contains_key(device),
            r is None ==> forall|i: int| 0 <= i < self.entries@.len() ==> (#[trigger] self.entries@[i]).0 != device,
    {
        let mut i: usize = 0;
        while i < self.entries.len()
            invariant
                i <= self.entries@.len(),
                forall|k: int| 0 <= k < i ==> (#[trigger] self.entries@[k]).0 != device,
            decreases self.entries.len() - i,
        {
            if self.entries[i].0 == device {
                return Some(i);
            }
            i += 1;
        }
        proof {
            lemma_pending_view_absent(self.entries@, device);
        }
        None
    }

    /// Request a flash of `tfw_path` on `device` (replacing any earlier
    /// request for it), with no attempts yet.
    pub fn request(&mut self, device: DeviceId, tfw_path: String)
        requires
            old(self).well_formed(),
        ensures
            final(self).well_formed(),
            final(self).view() == old(self).view().insert(device, (tfw_path@, 0u32)),
    {
        let ghost tp = tfw_path@;
        match self.find(device) {
            Some(i) => {
                proof {
                    lemma_pending_view_update(self.entries@, i as int, PendingFlash { tfw_path, attempts: 0 });
                }
                self.entries.set(i, (device, PendingFlash { tfw_path, attempts: 0 }));
            },
            None => {
                let ghost e = self.entries@;
                self.entries.push((device, PendingFlash { tfw_path, attempts: 0 }));
                proof {
                    assert(self.entries@.drop_last() =~= e);
                    assert forall|a: int, b: int| 0 <= a < b < self.entries@.len() implies (#[trigger] self.entries@[a]).0
                        != (#[trigger] self.entries@[b]).0 by {
                        if b == e.len() {
                            assert(self.entries@[a] == e[a]);
                        } else {
                            assert(self.entries@[a] == e[a] && self.entries@[b] == e[b]);
                        }
                    }
                }
            },
        }
    }

    /// Forget the pending flash of `device`, if any.
    pub fn remove(&mut self, device: DeviceId)
        requires
            old(self).well_formed(),
        ensures
            final(self).well_formed(),
            final(self).view() == old(self).view().remove(device),
    {
        match self.find(device) {
            Some(i) => {
                proof {
                    lemma_pending_view_remove(self.entries@, i as int);
                }
                self.entries.remove(i);
            },
            None => {
                assert(self.view().remove(device) =~= self.view());
            },
        }
    }

    /// The device entered its bootrom: count an attempt of its pending
    /// flash; past the limit, drop the flash and give up.
    pub fn on_bootrom(&mut self, device: DeviceId) -> (d: FlashDecision)
        requires
            old(self).well_formed(),
        ensures
            final(self).well_formed(),
            final(self).view() == after_bootrom(old(self).view(), device),
            (d is Attempt) == bootrom_attempts(old(self).view(), device),
            !old(self).view().contains_key(device) ==> d is NotPending && final(self).view() == old(self).view(),
            old(self).view().contains_key(device) ==> {
                let (path, n) = old(self).view()[device];
                if n >= MAX_FLASH_ATTEMPTS {
                    &&& d matches FlashDecision::GiveUp { message } && message@ == give_up_text(n as nat)
                    &&& final(self).view() == old(self).view().remove(device)
                } else {
                    &&& d matches FlashDecision::Attempt { attempt, tfw_path } && attempt == n + 1 && tfw_path@
                        == path
                    &&& final(self).view() == old(self).view().insert(device, (path, (n + 1) as u32))
                }
            },
    {
        match self.find(device) {
            None => FlashDecision::NotPending,
            Some(i) => {
                proof {
                    lemma_pending_view_index(self.entries@, i as int);
                }
                let n = self.entries[i].1.attempts;
                let path = self.entries[i].1.tfw_path.clone();
                if n >= MAX_FLASH_ATTEMPTS {
                    proof {
                        lemma_pending_view_remove(self.entries@, i as int);
                    }
                    self.entries.remove(i);
                    let mut message = String::new();
                    push_str(&mut message, "device reset ");
                    crate::text::push_decimal(&mut message, n as u64);
                    push_str(&mut message, " times, giving up");
                    proof {
                        reveal_strlit("device reset ");
                        reveal_strlit(" times, giving up");
                    }
                    FlashDecision::GiveUp { message }
                } else {
                    proof {
                        lemma_pending_view_update(
                            self.entries@,
                            i as int,
                            PendingFlash { tfw_path: path, attempts: (n + 1) as u32 },
                        );
                    }
                    self.entries.set(i, (device, PendingFlash { tfw_path: path.clone(), attempts: n + 1 }));
                    FlashDecision::Attempt { attempt: n + 1, tfw_path: path }
                }
            },
        }
    }
}

/// `device reset <n> times, giving up`.
pub open spec fn give_up_text(n: nat) -> Seq<char> {
    "device reset "@ + crate::text::decimal(n) + " times, giving up"@
}

// ── Events the bridge emits ──────────────────────────────────────────

/// What the bridge reports to the front end.
#[derive(Clone, Debug)]
pub enum BridgeEvent {
    AdapterCreated { adapter_id: AdapterId, display_name: String, ipc_transport: Option<(&'static str, u8)> },
    AdapterRemoved { adapter_id: AdapterId },
    AdapterBound { adapter_id: AdapterId, device_id: DeviceId, capabilities: Vec<KnownCapability> },
    AdapterUnbound { adapter_id: AdapterId, device_id: DeviceId },
    DeviceCreated { device_id: DeviceId, name: String, kind: DeviceKind, firmware_id: Option<FirmwareId> },
    DevicePhaseChanged { device_id: DeviceId, phase: DevicePhase },
    DeviceUpgraded { old_id: DeviceId, new_id: DeviceId },
    FlashProgress { device_id: DeviceId, phase: FlashPhase },
    SerialStatus { index: usize, status: SerialPortStatus },
    SerialRawLine { index: usize, line: String },
    DeviceReportedBuildId { device_id: DeviceId, build_id_bytes: [u8; 16] },
    /// A text line logged for a device.
    TextLog { device: DeviceId, adapter: AdapterId, received_at: u64, device_tick: Option<u64>, line: String },
}

/// A bridge event as plain values.
pub enum EventView {
    AdapterCreated { adapter_id: AdapterId, display_name: Seq<char>, ipc_transport: Option<(Seq<char>, u8)> },
    AdapterRemoved { adapter_id: AdapterId },
    AdapterBound { adapter_id: AdapterId, device_id: DeviceId, capabilities: Seq<KnownCapability> },
    AdapterUnbound { adapter_id: AdapterId, device_id: DeviceId },
    DeviceCreated { device_id: DeviceId, name: Seq<char>, kind: DeviceKind, firmware_id: Option<FirmwareId> },
    DevicePhaseChanged { device_id: DeviceId, phase: DevicePhase },
    DeviceUpgraded { old_id: DeviceId, new_id: DeviceId },
    FlashProgress { device_id: DeviceId, phase: FlashPhaseView },
    SerialStatus { index: usize, status: SerialPortStatus },
    SerialRawLine { index: usize, line: Seq<char> },
    DeviceReportedBuildId { device_id: DeviceId, build_id_bytes: Seq<u8> },
    TextLog { device: DeviceId, adapter: AdapterId, received_at: u64, device_tick: Option<u64>, line: Seq<char> },
}

impl BridgeEvent {
    /// The event as plain values.
    pub open spec fn view(&self) -> EventView {
        match self {
            BridgeEvent::AdapterCreated { adapter_id, display_name, ipc_transport } => EventView::AdapterCreated {
                adapter_id: *adapter_id,
                display_name: display_name@,
                ipc_transport: match ipc_transport {
                    Some((l, p)) => Some((l@, *p)),
                    None => None,
                },
            },
            BridgeEvent::AdapterRemoved { adapter_id } => EventView::AdapterRemoved { adapter_id: *adapter_id },
            BridgeEvent::AdapterBound { adapter_id, device_id, capabilities } => EventView::AdapterBound {
                adapter_id: *adapter_id,
                device_id: *device_id,
                capabilities: capabilities@,
            },
            BridgeEvent::AdapterUnbound { adapter_id, device_id } => EventView::AdapterUnbound {
                adapter_id: *adapter_id,
                device_id: *device_id,
            },
            BridgeEvent::DeviceCreated { device_id, name, kind, firmware_id } => EventView::DeviceCreated {
                device_id: *device_id,
                name: name@,
                kind: *kind,
                firmware_id: *firmware_id,
            },
            BridgeEvent::DevicePhaseChanged { device_id, phase } => EventView::DevicePhaseChanged {
                device_id: *device_id,
                phase: *phase,
            },
            BridgeEvent::DeviceUpgraded { old_id, new_id } => EventView::DeviceUpgraded { old_id: *old_id, new_id: *new_id },
            BridgeEvent::FlashProgress { device_id, phase } => EventView::FlashProgress {
                device_id: *device_id,
                phase: phase.view(),
            },
            BridgeEvent::SerialStatus { index, status } => EventView::SerialStatus { index: *index, status: *status },
            BridgeEvent::SerialRawLine { index, line } => EventView::SerialRawLine { index: *index, line: line@ },
            BridgeEvent::DeviceReportedBuildId { device_id, build_id_bytes } => EventView::DeviceReportedBuildId {
                device_id: *device_id,
                build_id_bytes: build_id_bytes@,
            },
            BridgeEvent::TextLog { device, adapter, received_at, device_tick, line } => EventView::TextLog {
                device: *device,
                adapter: *adapter,
                received_at: *received_at,
                device_tick: *device_tick,
                line: line@,
            },
        }
    }
}

/// The events as plain values.
pub open spec fn events_view(v: Seq<BridgeEvent>) -> Seq<EventView> {
    v.map_values(|e: BridgeEvent| e.view())
}

/// Append an event, keeping track of the plain values.
pub(crate) fn emit(out: &mut Vec<BridgeEvent>, e: BridgeEvent)
    ensures
        events_view(final(out)@) == events_view(old(out)@).push(e.view()),
{
    out.push(e);
    assert(events_view(out@) =~= events_view(old(out)@).push(e.view()));
}

// ── Persistent device registry ───────────────────────────────────────

/// Device ids come from one counter; chips seen before keep their id.
pub struct DeviceRegistry {
    next_id: u64,
    persistent: Vec<(ChipUid, DeviceId)>,
}

/// The registered chips and their ids.
pub open spec fn registry_map(e: Seq<(ChipUid, DeviceId)>) -> Map<Seq<u8>, DeviceId>
    decreases e.len(),
{
    if e.len() == 0 {
        Map::empty()
    } else {
        registry_map(e.drop_last()).insert(e.last().0.0@, e.last().1)
    }
}

proof fn lemma_registry_map(e: Seq<(ChipUid, DeviceId)>, u: Seq<u8>)
    ensures
        registry_map(e).contains_key(u) <==> exists|i: int| 0 <= i < e.len() && (#[trigger] e[i]).0.0@ == u,
        (forall|i: int, j: int| 0 <= i < j < e.len() ==> (#[trigger] e[i]).0.0@ != (#[trigger] e[j]).0.0@) ==> forall|i: int|
            0 <= i < e.len() && (#[trigger] e[i]).0.0@ == u ==> registry_map(e)[u] == e[i].1,
    decreases e.len(),
{
    if e.len() > 0 {
        lemma_registry_map(e.drop_last(), u);
        if registry_map(e.drop_last()).contains_key(u) {
            let i = choose|i: int| 0 <= i < e.drop_last().len() && (#[trigger] e.drop_last()[i]).0.0@ == u;
            assert(e[i] == e.drop_last()[i]);
        }
        if exists|i: int| 0 <= i < e.len() && (#[trigger] e[i]).0.0@ == u {
            let i = choose|i: int| 0 <= i < e.len() && (#[trigger] e[i]).0.0@ == u;
            if i < e.len() - 1 {
                assert(e.drop_last()[i] == e[i]);
            }
        }
        assert forall|i: int|
            (forall|a: int, b: int| 0 <= a < b < e.len() ==> (#[trigger] e[a]).0.0@ != (#[trigger] e[b]).0.0@) && 0 <= i
                < e.len() && (#[trigger] e[i]).0.0@ == u implies registry_map(e)[u] == e[i].1 by {
            if i < e.len() - 1 {
                assert(e.drop_last()[i] == e[i]);
                assert(e[i].0.0@ != e.last().0.0@);
                assert forall|a: int, b: int| 0 <= a < b < e.drop_last().len() implies (#[trigger] e.drop_last()[a]).0.0@
                    != (#[trigger] e.drop_last()[b]).0.0@ by {
                    assert(e.drop_last()[a] == e[a] && e.drop_last()[b] == e[b]);
                }
            }
        }
    }
}

impl DeviceRegistry {
    /// The registered chips and their ids.
    pub closed spec fn view(&self) -> Map<Seq<u8>, DeviceId> {
        registry_map(self.persistent@)
    }

    /// The id the next minted device gets.
    pub closed spec fn next(&self) -> u64 {
        self.next_id
    }

    /// Each chip is registered once, and every registered id was minted.
    pub closed spec fn well_formed(&self) -> bool {
        &&& forall|i: int, j: int|
            0 <= i < j < self.persistent@.len() ==> (#[trigger] self.persistent@[i]).0.0@ != (#[trigger] self.persistent@[j]).0.0@
        &&& forall|i: int| 0 <= i < self.persistent@.len() ==> (#[trigger] self.persistent@[i]).1.0 < self.next_id
    }

    /// No devices yet; ids start at 0.
    pub fn new() -> (r: Self)
        ensures
            r.well_formed(),
            r.view() == Map::<Seq<u8>, DeviceId>::empty(),
            r.next() == 0,
    {
        DeviceRegistry { next_id: 0, persistent: Vec::new() }
    }

    /// Every registered id is below the next one to be minted.
    pub proof fn lemma_ids_minted(&self, u: Seq<u8>)
        requires
            self.well_formed(),
            self.view().contains_key(u),
        ensures
            self.view()[u].0 < self.next(),
    {
        lemma_registry_map(self.persistent@, u);
        let i = choose|i: int| 0 <= i < self.persistent@.len() && (#[trigger] self.persistent@[i]).0.0@ == u;
    }

    /// A fresh device id.
    pub fn mint(&mut self) -> (id: DeviceId)
        requires
            old(self).well_formed(),
            old(self).next() < u64::MAX,
        ensures
            final(self).well_formed(),
            id.0 == old(self).next(),
            final(self).next() == old(self).next() + 1,
            final(self).view() == old(self).view(),
    {
        let id = DeviceId(self.next_id);
        self.next_id = self.next_id + 1;
        id
    }

    /// The id of chip `uid`, minting and registering one if the chip is
    /// new; `true` when it was.
    pub fn get_or_create(&mut self, uid: ChipUid) -> (r: (DeviceId, bool))
        requires
            old(self).well_formed(),
            old(self).next() < u64::MAX,
        ensures
            final(self).well_formed(),
            old(self).view().contains_key(uid.0@) ==> r == (old(self).view()[uid.0@], false) && final(self).view() == old(
                self,
            ).view() && final(self).next() == old(self).next(),
            !old(self).view().contains_key(uid.0@) ==> r == (DeviceId(old(self).next()), true) && final(self).view()
                == old(self).view().insert(uid.0@, r.0) && final(self).next() == old(self).next() + 1,
    {
        proof {
            lemma_registry_map(self.persistent@, uid.0@);
        }
        let mut i: usize = 0;
        while i < self.persistent.len()
            invariant
                i <= self.persistent@.len(),
                self.well_formed(),
                forall|k: int| 0 <= k < i ==> (#[trigger] self.persistent@[k]).0.0@ != uid.0@,
            decreases self.persistent.len() - i,
        {
            if crate::text::bytes_eq(self.persistent[i].0.0.as_slice(), uid.0.as_slice()) {
                proof {
                    lemma_registry_map(self.persistent@, uid.0@);
                }
                return (self.persistent[i].1, false);
            }
            i += 1;
        }
        let id = DeviceId(self.next_id);
        self.next_id = self.next_id + 1;
        let ghost e = self.persistent@;
        self.persistent.push((uid, id));
        proof {
            assert(self.persistent@.drop_last() =~= e);
            assert forall|a: int, b: int| 0 <= a < b < self.persistent@.len() implies (#[trigger] self.persistent@[a]).0.0@
                != (#[trigger] self.persistent@[b]).0.0@ by {
                assert(self.persistent@[a] == e[a]);
                if b < e.len() {
                    assert(self.persistent@[b] == e[b]);
                }
            }
            assert forall|a: int| 0 <= a < self.persistent@.len() implies (#[trigger] self.persistent@[a]).1.0
                < self.next_id by {
                if a < e.len() {
                    assert(self.persistent@[a] == e[a]);
                }
            }
        }
        (id, true)
    }
}

/// `Device <uid in hex>`.
pub open spec fn device_title(uid: Seq<u8>) -> Seq<char> {
    "Device "@ + crate::hex::hex_encode(uid)
}

/// `Device <uid in hex>`.
pub fn device_name(uid: &ChipUid) -> (r: String)
    ensures
        r@ == device_title(uid.0@),
{
    let mut out = String::new();
    push_str(&mut out, "Device ");
    let hex = uid.to_hex_string();
    push_str(&mut out, hex.as_str());
    proof {
        reveal_strlit("Device ");
    }
    out
}

/// Look up or mint the persistent id of a chip; a `DeviceCreated` event
/// (persistent, named `name`) is emitted only the first time the chip is
/// seen.
pub fn get_or_create_persistent_device(
    registry: &mut DeviceRegistry,
    uid: ChipUid,
    name: String,
    firmware_id: Option<FirmwareId>,
    out: &mut Vec<BridgeEvent>,
) -> (id: DeviceId)
    requires
        old(registry).well_formed(),
        old(registry).next() < u64::MAX,
    ensures
        final(registry).well_formed(),
        old(registry).view().contains_key(uid.0@) ==> id == old(registry).view()[uid.0@] && final(registry).view()
            == old(registry).view() && final(registry).next() == old(registry).next() && final(out)@ == old(out)@,
        !old(registry).view().contains_key(uid.0@) ==> id == DeviceId(old(registry).next()) && final(registry).view()
            == old(registry).view().insert(uid.0@, id) && final(registry).next() == old(registry).next() + 1
            && events_view(final(out)@) == events_view(old(out)@).push(
            EventView::DeviceCreated { device_id: id, name: name@, kind: DeviceKind::Persistent, firmware_id },
        ),
{
    let (id, is_new) = registry.get_or_create(uid);
    if is_new {
        emit(out, BridgeEvent::DeviceCreated { device_id: id, name, kind: DeviceKind::Persistent, firmware_id });
    }
    id
}

/// A chip keeps its id: asking again for a registered chip gives the same
/// id and changes nothing; a new chip gets an id no registered chip has.
pub proof fn law_registry_stable(r: DeviceRegistry, u: Seq<u8>, v: Seq<u8>)
    requires
        r.well_formed(),
        r.view().contains_key(v),
    ensures
        r.view()[v].0 < r.next(),
        !r.view().contains_key(u) ==> r.view()[v] != DeviceId(r.next()),
{
    r.lemma_ids_minted(v);
}

// ── The USART1 batch probe ───────────────────────────────────────────

/// USART1 wires that are still settling (from registration until their
/// discovery finishes or they give up). When the last one settles, one
/// probe goes out for the whole batch.
pub struct SettleCounter {
    count: usize,
}

impl SettleCounter {
    /// Number of wires still settling.
    pub closed spec fn view(&self) -> nat {
        self.count as nat
    }

    /// No wire settling.
    pub fn new() -> (c: Self)
        ensures
            c.view() == 0,
    {
        SettleCounter { count: 0 }
    }

    /// A USART1 wire was registered and starts settling.
    pub fn register(&mut self)
        requires
            old(self).view() < usize::MAX,
        ensures
            final(self).view() == old(self).view() + 1,
    {
        self.count = self.count + 1;
    }

    /// A wire settled (or gave up). Returns whether it was the last one,
    /// in which case the batch probe is due.
    pub fn settle(&mut self) -> (probe: bool)
        requires
            old(self).view() > 0,
        ensures
            final(self).view() == old(self).view() - 1,
            probe == (old(self).view() == 1),
    {
        let prev = self.count;
        self.count = prev - 1;
        prev == 1
    }
}

// ── A USART1 wire ────────────────────────────────────────────────────

/// The line with every trailing carriage return removed.
pub open spec fn trim_cr(s: Seq<char>) -> Seq<char>
    decreases s.len(),
{
    if s.len() > 0 && s.last() == '\r' {
        trim_cr(s.drop_last())
    } else {
        s
    }
}

/// Drop trailing carriage returns.
fn trim_cr_str(s: &str) -> (r: &str)
    ensures
        r@ == trim_cr(s@),
{
    let mut cur = s;
    proof {
        reveal_strlit("\r");
    }
    loop
        invariant
            trim_cr(cur@) == trim_cr(s@),
        decreases cur@.len(),
    {
        proof {
            reveal_strlit("\r");
        }
        match crate::text::strip_suffix_str(cur, "\r") {
            Some(t) => {
                assert(cur@.drop_last() =~= t@);
                assert(cur@.last() == cur@.subrange(cur@.len() - 1, cur@.len() as int)[0]);
                cur = t;
            },
            None => {
                proof {
                    assert("\r"@ =~= seq!['\r']);
                    if cur@.len() > 0 {
                        assert(cur@.subrange(cur@.len() - 1, cur@.len() as int) =~= seq![cur@.last()]);
                        assert(cur@.last() != '\r');
                    }
                    assert(trim_cr(cur@) == cur@);
                }
                return cur;
            },
        }
    }
}

/// A wire line's device tick (if it carries a `T<hex> ` prefix) and text,
/// after trailing carriage returns are dropped.
pub open spec fn line_body(raw: Seq<char>) -> (Option<u64>, Seq<char>) {
    let t = trim_cr(raw);
    let b = vstd::utf8::encode_utf8(t);
    if crate::hex::has_tick_prefix(b) {
        (Some(crate::hex::hex_number(b.subrange(1, 17)) as u64), vstd::utf8::decode_utf8(b.subrange(18, b.len() as int)))
    } else {
        (None, t)
    }
}

/// The announcement a line carries, if any: chip UID and build id bytes.
pub open spec fn hello_of(line: Seq<char>) -> Option<(Seq<u8>, Seq<u8>)> {
    crate::hex::spec_parse_hello(vstd::utf8::encode_utf8(line))
}

/// What the rest of a line does once any bootrom entry was handled:
/// phase sentinels, a chip announcement (which binds the wire to that
/// chip's persistent device unless already bound to it), and the line
/// logged for the bound device. Returns the events, the bound device and
/// the registry afterwards (map and next id).
pub open spec fn tail_events(
    adapter: AdapterId,
    index: usize,
    cur: Option<DeviceId>,
    m: Map<Seq<u8>, DeviceId>,
    n: u64,
    line: Seq<char>,
    tick: Option<u64>,
    at: u64,
) -> (Seq<EventView>, Option<DeviceId>, Map<Seq<u8>, DeviceId>, u64) {
    let e1 = if line == "bootloader: Awake"@ && cur is Some {
        seq![EventView::DevicePhaseChanged { device_id: cur->0, phase: DevicePhase::Bootloader }]
    } else {
        Seq::empty()
    };
    let e2 = if line == "kernel: Awake"@ && cur is Some {
        seq![EventView::DevicePhaseChanged { device_id: cur->0, phase: DevicePhase::Kernel }]
    } else {
        Seq::empty()
    };
    let (e3, cur2, m2, n2) = match hello_of(line) {
        None => (Seq::empty(), cur, m, n),
        Some((uid, bid)) => {
            let known = m.contains_key(uid);
            let pid = if known { m[uid] } else { DeviceId(n) };
            let created = if known {
                Seq::empty()
            } else {
                seq![
                    EventView::DeviceCreated {
                        device_id: pid,
                        name: device_title(uid),
                        kind: DeviceKind::Persistent,
                        firmware_id: None,
                    },
                ]
            };
            let m2 = if known { m } else { m.insert(uid, pid) };
            let n2 = if known { n } else { (n + 1) as u64 };
            if cur == Some(pid) {
                (created, cur, m2, n2)
            } else {
                (
                    created + (if cur is Some {
                        seq![EventView::AdapterUnbound { adapter_id: adapter, device_id: cur->0 }]
                    } else {
                        Seq::empty()
                    }) + seq![
                        EventView::AdapterBound {
                            adapter_id: adapter,
                            device_id: pid,
                            capabilities: seq![KnownCapability::SifliDebug],
                        },
                        EventView::DeviceReportedBuildId { device_id: pid, build_id_bytes: bid },
                        EventView::DevicePhaseChanged { device_id: pid, phase: DevicePhase::Kernel },
                        EventView::SerialStatus { index, status: SerialPortStatus::DeviceDetected },
                    ],
                    Some(pid),
                    m2,
                    n2,
                )
            }
        },
    };
    let e4 = if cur2 is Some {
        seq![EventView::TextLog { device: cur2->0, adapter, received_at: at, device_tick: tick, line }]
    } else {
        Seq::empty()
    };
    (e1 + e2 + e3 + e4, cur2, m2, n2)
}

/// What a line read off a USART1 wire asks of the caller.
#[derive(Clone, Debug)]
pub enum LineStep {
    /// Nothing more; the line was handled.
    Handled,
    /// The bootrom banner: an ephemeral device was created. The caller
    /// waits for power to settle, enters debug to identify the chip
    /// ([`Usart1Session::identified`]), then finishes the line with
    /// [`Usart1Session::line_tail`].
    EnterBootrom { ephemeral: DeviceId, line: String, device_tick: Option<u64> },
}

/// The state of one USART1 wire: which device it is bound to.
pub struct Usart1Session {
    pub index: usize,
    pub port: String,
    pub adapter_id: AdapterId,
    pub current_device: Option<DeviceId>,
}

/// `USART1 (<port>)`.
pub open spec fn usart1_adapter_name(port: Seq<char>) -> Seq<char> {
    "USART1 ("@ + port + seq![')']
}

/// `<port> (USART1)`.
pub open spec fn usart1_device_name(port: Seq<char>) -> Seq<char> {
    port + " (USART1)"@
}

impl Usart1Session {
    /// A wire for configured port `index`, bound to no device; its
    /// adapter id is the port index.
    pub fn new(index: usize, port: String) -> (s: Self)
        ensures
            s.index == index,
            s.port == port,
            s.adapter_id == AdapterId(index as u64),
            s.current_device.is_none(),
    {
        Usart1Session { index, port, adapter_id: AdapterId(index as u64), current_device: None }
    }

    /// The port opened: announce the adapter (which carries no IPC) and the
    /// port status.
    pub fn opened(&self, out: &mut Vec<BridgeEvent>)
        ensures
            events_view(final(out)@) == events_view(old(out)@) + seq![
                EventView::AdapterCreated {
                    adapter_id: self.adapter_id,
                    display_name: usart1_adapter_name(self.port@),
                    ipc_transport: None,
                },
                EventView::SerialStatus { index: self.index, status: SerialPortStatus::PortOpen },
            ],
    {
        let mut name = String::new();
        push_str(&mut name, "USART1 (");
        push_str(&mut name, self.port.as_str());
        push_char(&mut name, ')');
        proof {
            reveal_strlit("USART1 (");
        }
        assert(name@ =~= usart1_adapter_name(self.port@));
        let ghost o = events_view(out@);
        emit(out, BridgeEvent::AdapterCreated { adapter_id: self.adapter_id, display_name: name, ipc_transport: None });
        emit(out, BridgeEvent::SerialStatus { index: self.index, status: SerialPortStatus::PortOpen });
        assert(events_view(out@) =~= o + seq![
            EventView::AdapterCreated {
                adapter_id: self.adapter_id,
                display_name: usart1_adapter_name(self.port@),
                ipc_transport: None,
            },
            EventView::SerialStatus { index: self.index, status: SerialPortStatus::PortOpen },
        ]);
    }

    /// Finish a line: phase sentinels, a chip announcement, and the line
    /// logged for the bound device (see [`tail_events`]).
    pub fn line_tail(
        &mut self,
        line: &str,
        device_tick: Option<u64>,
        received_at: u64,
        registry: &mut DeviceRegistry,
        out: &mut Vec<BridgeEvent>,
    )
        requires
            old(registry).well_formed(),
            old(registry).next() < u64::MAX,
            !crate::hex::hello_cut_mid_char(vstd::utf8::encode_utf8(line@)),
        ensures
            final(registry).well_formed(),
            ({
                let t = tail_events(
                    old(self).adapter_id,
                    old(self).index,
                    old(self).current_device,
                    old(registry).view(),
                    old(registry).next(),
                    line@,
                    device_tick,
                    received_at,
                );
                &&& events_view(final(out)@) == events_view(old(out)@) + t.0
                &&& final(self).current_device == t.1
                &&& final(registry).view() == t.2
                &&& final(registry).next() == t.3
            }),
            final(self).index == old(self).index,
            final(self).port == old(self).port,
            final(self).adapter_id == old(self).adapter_id,
    {
        let ghost o = events_view(out@);
        let ghost cur = self.current_device;
        let ghost m = registry.view();
        let ghost n = registry.next();
        proof {
            reveal_strlit("bootloader: Awake");
            reveal_strlit("kernel: Awake");
        }
        if crate::text::str_eq(line, "bootloader: Awake") {
            if let Some(dev) = self.current_device {
                emit(out, BridgeEvent::DevicePhaseChanged { device_id: dev, phase: DevicePhase::Bootloader });
            }
        }
        let ghost o1 = events_view(out@);
        if crate::text::str_eq(line, "kernel: Awake") {
            if let Some(dev) = self.current_device {
                emit(out, BridgeEvent::DevicePhaseChanged { device_id: dev, phase: DevicePhase::Kernel });
            }
        }
        let ghost o2 = events_view(out@);
        if let Some((uid_bytes, build_id_bytes)) = crate::hex::parse_hello_line(line) {
            let chip = ChipUid(uid_bytes);
            let name = device_name(&chip);
            let pid = get_or_create_persistent_device(registry, chip, name, None, out);
            if self.current_device != Some(pid) {
                if let Some(old_id) = self.current_device {
                    emit(out, BridgeEvent::AdapterUnbound { adapter_id: self.adapter_id, device_id: old_id });
                }
                let mut caps: Vec<KnownCapability> = Vec::new();
                caps.push(KnownCapability::SifliDebug);
                assert(caps@ =~= seq![KnownCapability::SifliDebug]);
                emit(out, BridgeEvent::AdapterBound { adapter_id: self.adapter_id, device_id: pid, capabilities: caps });
                emit(out, BridgeEvent::DeviceReportedBuildId { device_id: pid, build_id_bytes });
                emit(out, BridgeEvent::DevicePhaseChanged { device_id: pid, phase: DevicePhase::Kernel });
                emit(out, BridgeEvent::SerialStatus { index: self.index, status: SerialPortStatus::DeviceDetected });
                self.current_device = Some(pid);
            }
        }
        let ghost o3 = events_view(out@);
        if let Some(dev) = self.current_device {
            let mut text = String::new();
            push_str(&mut text, line);
            emit(
                out,
                BridgeEvent::TextLog {
                    device: dev,
                    adapter: self.adapter_id,
                    received_at,
                    device_tick,
                    line: text,
                },
            );
        }
        proof {
            let t = tail_events(self.adapter_id, self.index, cur, m, n, line@, device_tick, received_at);
            assert(events_view(out@) =~= o + t.0);
        }
    }

    /// Handle a line read off the wire (with its arrival stamp): forward
    /// its text, and on the bootrom banner (`...SFBL`) unbind the wire and
    /// bind it to a new ephemeral device that is stabilizing; otherwise
    /// finish the line right away.
    pub fn on_line(
        &mut self,
        raw: &str,
        received_at: u64,
        registry: &mut DeviceRegistry,
        out: &mut Vec<BridgeEvent>,
    ) -> (step: LineStep)
        requires
            old(registry).well_formed(),
            old(registry).next() < u64::MAX - 1,
            !crate::hex::hello_cut_mid_char(vstd::utf8::encode_utf8(line_body(raw@).1)),
        ensures
            final(registry).well_formed(),
            final(self).index == old(self).index,
            final(self).port == old(self).port,
            final(self).adapter_id == old(self).adapter_id,
            ({
                let (tick, line) = line_body(raw@);
                let raw_ev = seq![EventView::SerialRawLine { index: old(self).index, line }];
                if crate::text::ends_with(line, "SFBL"@) {
                    let eph = DeviceId(old(registry).next());
                    &&& step matches LineStep::EnterBootrom { ephemeral, line: l, device_tick } && ephemeral == eph
                        && l@ == line && device_tick == tick
                    &&& final(self).current_device == Some(eph)
                    &&& final(registry).view() == old(registry).view()
                    &&& final(registry).next() == old(registry).next() + 1
                    &&& events_view(final(out)@) == events_view(old(out)@) + raw_ev + (if old(self).current_device is Some {
                        seq![
                            EventView::AdapterUnbound {
                                adapter_id: old(self).adapter_id,
                                device_id: old(self).current_device->0,
                            },
                        ]
                    } else {
                        Seq::empty()
                    }) + seq![
                        EventView::DeviceCreated {
                            device_id: eph,
                            name: usart1_device_name(old(self).port@),
                            kind: DeviceKind::Ephemeral,
                            firmware_id: None,
                        },
                        EventView::AdapterBound {
                            adapter_id: old(self).adapter_id,
                            device_id: eph,
                            capabilities: seq![KnownCapability::SifliDebug],
                        },
                        EventView::DevicePhaseChanged { device_id: eph, phase: DevicePhase::Stabilizing },
                        EventView::SerialStatus { index: old(self).index, status: SerialPortStatus::DeviceDetected },
                    ]
                } else {
                    let t = tail_events(
                        old(self).adapter_id,
                        old(self).index,
                        old(self).current_device,
                        old(registry).view(),
                        old(registry).next(),
                        line,
                        tick,
                        received_at,
                    );
                    &&& step is Handled
                    &&& events_view(final(out)@) == events_view(old(out)@) + raw_ev + t.0
                    &&& final(self).current_device == t.1
                    &&& final(registry).view() == t.2
                    &&& final(registry).next() == t.3
                }
            }),
    {
        let trimmed = trim_cr_str(raw);
        let (device_tick, line) = crate::hex::parse_tick_prefix(trimmed);
        proof {
            vstd::utf8::encode_utf8_decode_utf8(line@);
            assert((device_tick, line@) == line_body(raw@));
        }
        let ghost o = events_view(out@);
        let mut fwd = String::new();
        push_str(&mut fwd, line.as_str());
        emit(out, BridgeEvent::SerialRawLine { index: self.index, line: fwd });
        proof {
            reveal_strlit("SFBL");
        }
        if crate::text::strip_suffix_str(line.as_str(), "SFBL").is_some() {
            if let Some(old_id) = self.current_device {
                emit(out, BridgeEvent::AdapterUnbound { adapter_id: self.adapter_id, device_id: old_id });
            }
            self.current_device = None;
            let eph = registry.mint();
            let mut name = String::new();
            push_str(&mut name, self.port.as_str());
            push_str(&mut name, " (USART1)");
            proof {
                reveal_strlit(" (USART1)");
            }
            emit(
                out,
                BridgeEvent::DeviceCreated { device_id: eph, name, kind: DeviceKind::Ephemeral, firmware_id: None },
            );
            let mut caps: Vec<KnownCapability> = Vec::new();
            caps.push(KnownCapability::SifliDebug);
            assert(caps@ =~= seq![KnownCapability::SifliDebug]);
            emit(out, BridgeEvent::AdapterBound { adapter_id: self.adapter_id, device_id: eph, capabilities: caps });
            emit(out, BridgeEvent::DevicePhaseChanged { device_id: eph, phase: DevicePhase::Stabilizing });
            emit(out, BridgeEvent::SerialStatus { index: self.index, status: SerialPortStatus::DeviceDetected });
            self.current_device = Some(eph);
            assert(events_view(out@) =~= o + seq![EventView::SerialRawLine { index: self.index, line: line@ }] + (if old(
                self,
            ).current_device is Some {
                seq![
                    EventView::AdapterUnbound {
                        adapter_id: old(self).adapter_id,
                        device_id: old(self).current_device->0,
                    },
                ]
            } else {
                Seq::empty()
            }) + seq![
                EventView::DeviceCreated {
                    device_id: eph,
                    name: usart1_device_name(old(self).port@),
                    kind: DeviceKind::Ephemeral,
                    firmware_id: None,
                },
                EventView::AdapterBound {
                    adapter_id: old(self).adapter_id,
                    device_id: eph,
                    capabilities: seq![KnownCapability::SifliDebug],
                },
                EventView::DevicePhaseChanged { device_id: eph, phase: DevicePhase::Stabilizing },
                EventView::SerialStatus { index: old(self).index, status: SerialPortStatus::DeviceDetected },
            ]);
            LineStep::EnterBootrom { ephemeral: eph, line, device_tick }
        } else {
            let ghost o1 = events_view(out@);
            self.line_tail(line.as_str(), device_tick, received_at, registry, out);
            assert(events_view(out@) =~= o + seq![EventView::SerialRawLine { index: self.index, line: line@ }] + (
            events_view(out@).subrange(o1.len() as int, events_view(out@).len() as int)));
            LineStep::Handled
        }
    }
}

/// The flash-progress event a bootrom-entry decision reports, if any.
pub open spec fn decision_events(pid: DeviceId, d: FlashDecision) -> Seq<EventView> {
    match d {
        FlashDecision::NotPending => Seq::empty(),
        FlashDecision::Attempt { .. } => seq![EventView::FlashProgress { device_id: pid, phase: FlashPhaseView::Resetting }],
        FlashDecision::GiveUp { message } => seq![
            EventView::FlashProgress { device_id: pid, phase: FlashPhaseView::Failed { at_step: 0, message: message@ } },
        ],
    }
}

impl Usart1Session {
    /// Debug entry identified the chip behind the wire's ephemeral device:
    /// bind the wire to the chip's persistent device (minting it the first
    /// time), migrate the ephemeral device to it, and decide on a pending
    /// flash for it (reported as resetting, or as failed at step 0 when
    /// the flash is given up).
    pub fn identified(
        &mut self,
        ephemeral: DeviceId,
        uid: ChipUid,
        registry: &mut DeviceRegistry,
        pending: &mut PendingFlashes,
        out: &mut Vec<BridgeEvent>,
    ) -> (d: FlashDecision)
        requires
            old(registry).well_formed(),
            old(registry).next() < u64::MAX,
            old(pending).well_formed(),
        ensures
            final(registry).well_formed(),
            final(pending).well_formed(),
            final(self).index == old(self).index,
            final(self).port == old(self).port,
            final(self).adapter_id == old(self).adapter_id,
            ({
                let known = old(registry).view().contains_key(uid.0@);
                let pid = if known { old(registry).view()[uid.0@] } else { DeviceId(old(registry).next()) };
                let created = if known {
                    Seq::empty()
                } else {
                    seq![
                        EventView::DeviceCreated {
                            device_id: pid,
                            name: device_title(uid.0@),
                            kind: DeviceKind::Persistent,
                            firmware_id: None,
                        },
                    ]
                };
                &&& final(self).current_device == Some(pid)
                &&& final(registry).view() == (if known { old(registry).view() } else { old(registry).view().insert(uid.0@, pid) })
                &&& final(registry).next() == (if known { old(registry).next() } else { (old(registry).next() + 1) as u64 })
                &&& events_view(final(out)@) == events_view(old(out)@) + created + seq![
                    EventView::AdapterBound {
                        adapter_id: old(self).adapter_id,
                        device_id: pid,
                        capabilities: seq![KnownCapability::SifliDebug],
                    },
                    EventView::DeviceUpgraded { old_id: ephemeral, new_id: pid },
                    EventView::DevicePhaseChanged { device_id: pid, phase: DevicePhase::Bootrom },
                ] + decision_events(pid, d)
                &&& !old(pending).view().contains_key(pid) ==> d is NotPending && final(pending).view() == old(pending).view()
                &&& old(pending).view().contains_key(pid) ==> {
                    let (path, n) = old(pending).view()[pid];
                    if n >= MAX_FLASH_ATTEMPTS {
                        &&& d matches FlashDecision::GiveUp { message } && message@ == give_up_text(n as nat)
                        &&& final(pending).view() == old(pending).view().remove(pid)
                    } else {
                        &&& d matches FlashDecision::Attempt { attempt, tfw_path } && attempt == n + 1 && tfw_path@ == path
                        &&& final(pending).view() == old(pending).view().insert(pid, (path, (n + 1) as u32))
                    }
                }
            }),
    {
        let ghost o = events_view(out@);
        let name = device_name(&uid);
        let pid = get_or_create_persistent_device(registry, uid, name, None, out);
        let ghost o1 = events_view(out@);
        let mut caps: Vec<KnownCapability> = Vec::new();
        caps.push(KnownCapability::SifliDebug);
        assert(caps@ =~= seq![KnownCapability::SifliDebug]);
        emit(out, BridgeEvent::AdapterBound { adapter_id: self.adapter_id, device_id: pid, capabilities: caps });
        emit(out, BridgeEvent::DeviceUpgraded { old_id: ephemeral, new_id: pid });
        emit(out, BridgeEvent::DevicePhaseChanged { device_id: pid, phase: DevicePhase::Bootrom });
        self.current_device = Some(pid);
        let ghost o2 = events_view(out@);
        let d = pending.on_bootrom(pid);
        match &d {
            FlashDecision::NotPending => {},
            FlashDecision::Attempt { .. } => {
                emit(out, BridgeEvent::FlashProgress { device_id: pid, phase: FlashPhase::Resetting });
            },
            FlashDecision::GiveUp { message } => {
                emit(
                    out,
                    BridgeEvent::FlashProgress {
                        device_id: pid,
                        phase: FlashPhase::Failed { at_step: 0, message: message.clone() },
                    },
                );
            },
        }
        assert(events_view(out@) =~= o2 + decision_events(pid, d));
        assert(o2 =~= o1 + seq![
            EventView::AdapterBound {
                adapter_id: old(self).adapter_id,
                device_id: pid,
                capabilities: seq![KnownCapability::SifliDebug],
            },
            EventView::DeviceUpgraded { old_id: ephemeral, new_id: pid },
            EventView::DevicePhaseChanged { device_id: pid, phase: DevicePhase::Bootrom },
        ]);
        d
    }

    /// The wire asked for a flash but the device did not reset by itself:
    /// ask the user to reset the bound device, if any.
    pub fn reset_not_triggered(&self, out: &mut Vec<BridgeEvent>)
        ensures
            events_view(final(out)@) == events_view(old(out)@) + (match self.current_device {
                Some(d) => seq![EventView::FlashProgress { device_id: d, phase: FlashPhaseView::WaitingForReset }],
                None => Seq::empty(),
            }),
    {
        let ghost o = events_view(out@);
        if let Some(d) = self.current_device {
            emit(out, BridgeEvent::FlashProgress { device_id: d, phase: FlashPhase::WaitingForReset });
        }
        assert(events_view(out@) =~= o + (match self.current_device {
            Some(d) => seq![EventView::FlashProgress { device_id: d, phase: FlashPhaseView::WaitingForReset }],
            None => Seq::empty(),
        }));
    }

    /// The port was lost or closed: the wire is bound to nothing and its
    /// adapter goes away.
    pub fn port_lost(&mut self, out: &mut Vec<BridgeEvent>)
        ensures
            final(self).current_device.is_none(),
            final(self).index == old(self).index,
            final(self).port == old(self).port,
            final(self).adapter_id == old(self).adapter_id,
            events_view(final(out)@) == events_view(old(out)@).push(
                EventView::AdapterRemoved { adapter_id: old(self).adapter_id },
            ),
    {
        self.current_device = None;
        emit(out, BridgeEvent::AdapterRemoved { adapter_id: self.adapter_id });
    }
}

// ── Commands that touch pending flashes ──────────────────────────────

/// A flash over SifliDebug was requested: it waits for the device's next
/// bootrom entry, and the modal starts at "resetting".
pub fn flash_requested(pending: &mut PendingFlashes, device: DeviceId, tfw_path: String, out: &mut Vec<BridgeEvent>)
    requires
        old(pending).well_formed(),
    ensures
        final(pending).well_formed(),
        final(pending).view() == old(pending).view().insert(device, (tfw_path@, 0u32)),
        events_view(final(out)@) == events_view(old(out)@).push(
            EventView::FlashProgress { device_id: device, phase: FlashPhaseView::Resetting },
        ),
{
    pending.request(device, tfw_path);
    emit(out, BridgeEvent::FlashProgress { device_id: device, phase: FlashPhase::Resetting });
}

/// The flash finished: it is no longer pending, and is reported done.
pub fn flash_complete(pending: &mut PendingFlashes, device: DeviceId, out: &mut Vec<BridgeEvent>)
    requires
        old(pending).well_formed(),
    ensures
        final(pending).well_formed(),
        final(pending).view() == old(pending).view().remove(device),
        events_view(final(out)@) == events_view(old(out)@).push(
            EventView::FlashProgress { device_id: device, phase: FlashPhaseView::Done },
        ),
{
    pending.remove(device);
    emit(out, BridgeEvent::FlashProgress { device_id: device, phase: FlashPhase::Done });
}

/// The flash failed after the stub took over: it is no longer pending and
/// is reported failed at the erase step with the message.
pub fn flash_failed(pending: &mut PendingFlashes, device: DeviceId, message: String, out: &mut Vec<BridgeEvent>)
    requires
        old(pending).well_formed(),
    ensures
        final(pending).well_formed(),
        final(pending).view() == old(pending).view().remove(device),
        events_view(final(out)@) == events_view(old(out)@).push(
            EventView::FlashProgress { device_id: device, phase: FlashPhaseView::Failed { at_step: 4, message: message@ } },
        ),
{
    pending.remove(device);
    emit(out, BridgeEvent::FlashProgress { device_id: device, phase: FlashPhase::Failed { at_step: 4, message } });
}

// ── Emulators ────────────────────────────────────────────────────────

/// The adapters an emulator exposes: usart1, usart2 and renode, with ids 0
/// to 2.
pub open spec fn emulator_adapters() -> Seq<(AdapterId, Seq<char>)> {
    seq![(AdapterId(0), "usart1"@), (AdapterId(1), "usart2"@), (AdapterId(2), "renode"@)]
}

/// An emulator came up as `device`: its three adapters (none carrying
/// IPC), the device, and each adapter bound to it without capabilities.
pub fn emulator_started(device: DeviceId, firmware_id: FirmwareId, out: &mut Vec<BridgeEvent>)
    ensures
        events_view(final(out)@) == events_view(old(out)@) + seq![
            EventView::AdapterCreated { adapter_id: AdapterId(0), display_name: "usart1"@, ipc_transport: None },
            EventView::AdapterCreated { adapter_id: AdapterId(1), display_name: "usart2"@, ipc_transport: None },
            EventView::AdapterCreated { adapter_id: AdapterId(2), display_name: "renode"@, ipc_transport: None },
            EventView::DeviceCreated {
                device_id: device,
                name: "Emulator"@,
                kind: DeviceKind::Emulator,
                firmware_id: Some(firmware_id),
            },
            EventView::AdapterBound { adapter_id: AdapterId(0), device_id: device, capabilities: Seq::empty() },
            EventView::AdapterBound { adapter_id: AdapterId(1), device_id: device, capabilities: Seq::empty() },
            EventView::AdapterBound { adapter_id: AdapterId(2), device_id: device, capabilities: Seq::empty() },
        ],
{
    let ghost o = events_view(out@);
    emit(out, BridgeEvent::AdapterCreated { adapter_id: AdapterId(0), display_name: "usart1".to_owned(), ipc_transport: None });
    emit(out, BridgeEvent::AdapterCreated { adapter_id: AdapterId(1), display_name: "usart2".to_owned(), ipc_transport: None });
    emit(out, BridgeEvent::AdapterCreated { adapter_id: AdapterId(2), display_name: "renode".to_owned(), ipc_transport: None });
    emit(
        out,
        BridgeEvent::DeviceCreated {
            device_id: device,
            name: "Emulator".to_owned(),
            kind: DeviceKind::Emulator,
            firmware_id: Some(firmware_id),
        },
    );
    emit(out, BridgeEvent::AdapterBound { adapter_id: AdapterId(0), device_id: device, capabilities: Vec::new() });
    emit(out, BridgeEvent::AdapterBound { adapter_id: AdapterId(1), device_id: device, capabilities: Vec::new() });
    emit(out, BridgeEvent::AdapterBound { adapter_id: AdapterId(2), device_id: device, capabilities: Vec::new() });
    proof {
        reveal_strlit("usart1");
        reveal_strlit("usart2");
        reveal_strlit("renode");
        reveal_strlit("Emulator");
    }
    assert(events_view(out@) =~= o + seq![
        EventView::AdapterCreated { adapter_id: AdapterId(0), display_name: "usart1"@, ipc_transport: None },
        EventView::AdapterCreated { adapter_id: AdapterId(1), display_name: "usart2"@, ipc_transport: None },
        EventView::AdapterCreated { adapter_id: AdapterId(2), display_name: "renode"@, ipc_transport: None },
        EventView::DeviceCreated {
            device_id: device,
            name: "Emulator"@,
            kind: DeviceKind::Emulator,
            firmware_id: Some(firmware_id),
        },
        EventView::AdapterBound { adapter_id: AdapterId(0), device_id: device, capabilities: Seq::empty() },
        EventView::AdapterBound { adapter_id: AdapterId(1), device_id: device, capabilities: Seq::empty() },
        EventView::AdapterBound { adapter_id: AdapterId(2), device_id: device, capabilities: Seq::empty() },
    ]);
}

/// The emulator stopped: its three adapters go away.
pub fn emulator_stopped(out: &mut Vec<BridgeEvent>)
    ensures
        events_view(final(out)@) == events_view(old(out)@) + seq![
            EventView::AdapterRemoved { adapter_id: AdapterId(0) },
            EventView::AdapterRemoved { adapter_id: AdapterId(1) },
            EventView::AdapterRemoved { adapter_id: AdapterId(2) },
        ],
{
    let ghost o = events_view(out@);
    emit(out, BridgeEvent::AdapterRemoved { adapter_id: AdapterId(0) });
    emit(out, BridgeEvent::AdapterRemoved { adapter_id: AdapterId(1) });
    emit(out, BridgeEvent::AdapterRemoved { adapter_id: AdapterId(2) });
    assert(events_view(out@) =~= o + seq![
        EventView::AdapterRemoved { adapter_id: AdapterId(0) },
        EventView::AdapterRemoved { adapter_id: AdapterId(1) },
        EventView::AdapterRemoved { adapter_id: AdapterId(2) },
    ]);
}


// ── Discovery on a freshly opened USART1 wire ───────────────────────

/// What debug entry found on a USART1 wire that was just opened.
#[derive(Clone, Copy, Debug)]
pub enum Discovery {
    /// Debug entry failed: nothing is attached, or it does not answer.
    NotAttached,
    /// Debug entry worked but the chip UID could not be read.
    Unidentified,
    /// Debug entry worked and the chip UID was read.
    Identified(ChipUid),
}

/// The events of a discovery on a wire (adapter `adapter`, port `index`
/// named `port`) with the registry at `m` and next id `n`, and the device
/// the wire ends up bound to.
pub open spec fn discovery_events(
    adapter: AdapterId,
    index: usize,
    port: Seq<char>,
    m: Map<Seq<u8>, DeviceId>,
    n: u64,
    d: Discovery,
) -> (Seq<EventView>, Option<DeviceId>) {
    let bound = |id: DeviceId|
        seq![
            EventView::AdapterBound { adapter_id: adapter, device_id: id, capabilities: seq![KnownCapability::SifliDebug] },
            EventView::SerialStatus { index, status: SerialPortStatus::DeviceDetected },
        ];
    match d {
        Discovery::NotAttached => (Seq::empty(), None),
        Discovery::Unidentified => (
            seq![
                EventView::DeviceCreated {
                    device_id: DeviceId(n),
                    name: usart1_device_name(port),
                    kind: DeviceKind::Ephemeral,
                    firmware_id: None,
                },
            ] + bound(DeviceId(n)),
            Some(DeviceId(n)),
        ),
        Discovery::Identified(uid) => {
            let known = m.contains_key(uid.0@);
            let pid = if known { m[uid.0@] } else { DeviceId(n) };
            let created = if known {
                Seq::empty()
            } else {
                seq![
                    EventView::DeviceCreated {
                        device_id: pid,
                        name: device_title(uid.0@),
                        kind: DeviceKind::Persistent,
                        firmware_id: None,
                    },
                ]
            };
            (created + bound(pid), Some(pid))
        },
    }
}

impl Usart1Session {
    /// Register what discovery found on the opened wire: an unidentified
    /// chip gets a fresh ephemeral device, an identified one its persistent
    /// device (minted the first time); the wire is bound to it and the port
    /// shows a device. With nothing attached the wire stays unbound.
    pub fn discovered(&mut self, found: Discovery, registry: &mut DeviceRegistry, out: &mut Vec<BridgeEvent>) -> (r:
        Option<DeviceId>)
        requires
            old(registry).well_formed(),
            old(registry).next() < u64::MAX,
        ensures
            final(registry).well_formed(),
            final(self).index == old(self).index,
            final(self).port == old(self).port,
            final(self).adapter_id == old(self).adapter_id,
            ({
                let (evs, bound) = discovery_events(
                    old(self).adapter_id,
                    old(self).index,
                    old(self).port@,
                    old(registry).view(),
                    old(registry).next(),
                    found,
                );
                &&& r == bound
                &&& final(self).current_device == bound
                &&& events_view(final(out)@) == events_view(old(out)@) + evs
                &&& final(registry).view() == (match found {
                    Discovery::Identified(uid) => old(registry).view().insert(
                        uid.0@,
                        if old(registry).view().contains_key(uid.0@) {
                            old(registry).view()[uid.0@]
                        } else {
                            DeviceId(old(registry).next())
                        },
                    ),
                    _ => old(registry).view(),
                })
                &&& final(registry).next() == (match found {
                    Discovery::NotAttached => old(registry).next(),
                    Discovery::Unidentified => (old(registry).next() + 1) as u64,
                    Discovery::Identified(uid) => if old(registry).view().contains_key(uid.0@) {
                        old(registry).next()
                    } else {
                        (old(registry).next() + 1) as u64
                    },
                })
            }),
    {
        let ghost o = events_view(out@);
        let ghost m = registry.view();
        let id = match found {
            Discovery::NotAttached => {
                self.current_device = None;
                return None;
            },
            Discovery::Unidentified => {
                let eph = registry.mint();
                let mut name = String::new();
                push_str(&mut name, self.port.as_str());
                push_str(&mut name, " (USART1)");
                proof {
                    reveal_strlit(" (USART1)");
                }
                assert(name@ =~= usart1_device_name(self.port@));
                emit(
                    out,
                    BridgeEvent::DeviceCreated { device_id: eph, name, kind: DeviceKind::Ephemeral, firmware_id: None },
                );
                eph
            },
            Discovery::Identified(uid) => {
                let name = device_name(&uid);
                let pid = get_or_create_persistent_device(registry, uid, name, None, out);
                proof {
                    if m.contains_key(uid.0@) {
                        assert(m.insert(uid.0@, m[uid.0@]) =~= m);
                    }
                }
                pid
            },
        };
        let ghost o1 = events_view(out@);
        let mut caps: Vec<KnownCapability> = Vec::new();
        caps.push(KnownCapability::SifliDebug);
        assert(caps@ =~= seq![KnownCapability::SifliDebug]);
        emit(out, BridgeEvent::AdapterBound { adapter_id: self.adapter_id, device_id: id, capabilities: caps });
        emit(out, BridgeEvent::SerialStatus { index: self.index, status: SerialPortStatus::DeviceDetected });
        self.current_device = Some(id);
        assert(events_view(out@) =~= o1 + seq![
            EventView::AdapterBound { adapter_id: self.adapter_id, device_id: id, capabilities: seq![KnownCapability::SifliDebug] },
            EventView::SerialStatus { index: self.index, status: SerialPortStatus::DeviceDetected },
        ]);
        Some(id)
    }
}

// ── A USART2 wire ────────────────────────────────────────────────────

/// Adapter ids of USART2 wires start here, clear of the other adapters.
pub const USART2_ADAPTER_BASE: u64 = 500_000;

/// The state of one USART2 wire: the structured-log and IPC link, bound to
/// the device its `Awake` announcement names.
pub struct Usart2Session {
    pub index: usize,
    pub port: String,
    pub adapter_id: AdapterId,
    /// The priority the wire's IPC transport is chosen with.
    pub ipc_priority: u8,
    pub current_device: Option<DeviceId>,
}

/// `USART2 (<port>)`.
pub open spec fn usart2_adapter_name(port: Seq<char>) -> Seq<char> {
    "USART2 ("@ + port + seq![')']
}

/// The events of an `Awake` on a wire bound to `cur`, naming chip `uid`
/// whose persistent id is `pid` (`created` when it was new, with the
/// creation event): the old binding undone, the new one made, the build id
/// reported, the device running its kernel and the port showing a device.
pub open spec fn awake_events(
    adapter: AdapterId,
    index: usize,
    cur: Option<DeviceId>,
    pid: DeviceId,
    created: Seq<EventView>,
    build_id: Seq<u8>,
) -> Seq<EventView> {
    (match cur {
        Some(old) => seq![EventView::AdapterUnbound { adapter_id: adapter, device_id: old }],
        None => Seq::empty(),
    }) + created + seq![
        EventView::AdapterBound { adapter_id: adapter, device_id: pid, capabilities: seq![KnownCapability::Ipc] },
        EventView::DeviceReportedBuildId { device_id: pid, build_id_bytes: build_id },
        EventView::DevicePhaseChanged { device_id: pid, phase: DevicePhase::Kernel },
        EventView::SerialStatus { index, status: SerialPortStatus::DeviceDetected },
    ]
}

impl Usart2Session {
    /// A wire for configured port `index`, bound to no device.
    pub fn new(index: usize, port: String, ipc_priority: u8) -> (s: Self)
        requires
            index + USART2_ADAPTER_BASE <= u64::MAX,
        ensures
            s.index == index,
            s.port == port,
            s.adapter_id == AdapterId((index + USART2_ADAPTER_BASE) as u64),
            s.ipc_priority == ipc_priority,
            s.current_device.is_none(),
    {
        Usart2Session {
            index,
            port,
            adapter_id: AdapterId(index as u64 + USART2_ADAPTER_BASE),
            ipc_priority,
            current_device: None,
        }
    }

    /// The wire is being connected.
    pub fn connecting(&self, out: &mut Vec<BridgeEvent>)
        ensures
            events_view(final(out)@) == events_view(old(out)@).push(
                EventView::SerialStatus { index: self.index, status: SerialPortStatus::Connecting },
            ),
    {
        emit(out, BridgeEvent::SerialStatus { index: self.index, status: SerialPortStatus::Connecting });
    }

    /// The wire could not be connected; it is tried again later.
    pub fn connect_failed(&self, out: &mut Vec<BridgeEvent>)
        ensures
            events_view(final(out)@) == events_view(old(out)@).push(
                EventView::SerialStatus { index: self.index, status: SerialPortStatus::Error },
            ),
    {
        emit(out, BridgeEvent::SerialStatus { index: self.index, status: SerialPortStatus::Error });
    }

    /// The wire is open: announce its adapter, which carries IPC.
    pub fn opened(&self, out: &mut Vec<BridgeEvent>)
        ensures
            events_view(final(out)@) == events_view(old(out)@) + seq![
                EventView::AdapterCreated {
                    adapter_id: self.adapter_id,
                    display_name: usart2_adapter_name(self.port@),
                    ipc_transport: Some(("usart2"@, self.ipc_priority)),
                },
                EventView::SerialStatus { index: self.index, status: SerialPortStatus::PortOpen },
            ],
    {
        let mut name = String::new();
        push_str(&mut name, "USART2 (");
        push_str(&mut name, self.port.as_str());
        push_char(&mut name, ')');
        proof {
            reveal_strlit("USART2 (");
        }
        assert(name@ =~= usart2_adapter_name(self.port@));
        let ghost o = events_view(out@);
        emit(
            out,
            BridgeEvent::AdapterCreated {
                adapter_id: self.adapter_id,
                display_name: name,
                ipc_transport: Some(("usart2", self.ipc_priority)),
            },
        );
        emit(out, BridgeEvent::SerialStatus { index: self.index, status: SerialPortStatus::PortOpen });
        assert(events_view(out@) =~= o + seq![
            EventView::AdapterCreated {
                adapter_id: self.adapter_id,
                display_name: usart2_adapter_name(self.port@),
                ipc_transport: Some(("usart2"@, self.ipc_priority)),
            },
            EventView::SerialStatus { index: self.index, status: SerialPortStatus::PortOpen },
        ]);
    }

    /// The device announced itself (`Awake`, with its chip UID and build
    /// id): bind the wire to its persistent device, undoing an earlier
    /// binding (the device rebooted). Returns the device the wire was bound
    /// to before, which the caller forgets.
    pub fn on_awake(
        &mut self,
        uid: ChipUid,
        build_id_bytes: [u8; 16],
        registry: &mut DeviceRegistry,
        out: &mut Vec<BridgeEvent>,
    ) -> (old_device: Option<DeviceId>)
        requires
            old(registry).well_formed(),
            old(registry).next() < u64::MAX,
        ensures
            final(registry).well_formed(),
            old_device == old(self).current_device,
            final(self).index == old(self).index,
            final(self).port == old(self).port,
            final(self).adapter_id == old(self).adapter_id,
            final(self).ipc_priority == old(self).ipc_priority,
            ({
                let known = old(registry).view().contains_key(uid.0@);
                let pid = if known {
                    old(registry).view()[uid.0@]
                } else {
                    DeviceId(old(registry).next())
                };
                let created = if known {
                    Seq::empty()
                } else {
                    seq![
                        EventView::DeviceCreated {
                            device_id: pid,
                            name: device_title(uid.0@),
                            kind: DeviceKind::Persistent,
                            firmware_id: None,
                        },
                    ]
                };
                &&& final(self).current_device == Some(pid)
                &&& final(registry).view() == (if known {
                    old(registry).view()
                } else {
                    old(registry).view().insert(uid.0@, pid)
                })
                &&& events_view(final(out)@) == events_view(old(out)@) + awake_events(
                    old(self).adapter_id,
                    old(self).index,
                    old(self).current_device,
                    pid,
                    created,
                    build_id_bytes@,
                )
            }),
    {
        let ghost o = events_view(out@);
        let previous = self.current_device;
        if let Some(old_id) = previous {
            emit(out, BridgeEvent::AdapterUnbound { adapter_id: self.adapter_id, device_id: old_id });
        }
        let ghost o1 = events_view(out@);
        let name = device_name(&uid);
        let pid = get_or_create_persistent_device(registry, uid, name, None, out);
        let ghost o2 = events_view(out@);
        let mut caps: Vec<KnownCapability> = Vec::new();
        caps.push(KnownCapability::Ipc);
        emit(out, BridgeEvent::AdapterBound { adapter_id: self.adapter_id, device_id: pid, capabilities: caps });
        emit(out, BridgeEvent::DeviceReportedBuildId { device_id: pid, build_id_bytes });
        emit(out, BridgeEvent::DevicePhaseChanged { device_id: pid, phase: DevicePhase::Kernel });
        emit(out, BridgeEvent::SerialStatus { index: self.index, status: SerialPortStatus::DeviceDetected });
        self.current_device = Some(pid);
        proof {
            let created = o2.subrange(o1.len() as int, o2.len() as int);
            assert(o2 =~= o1 + created);
            assert(events_view(out@) =~= o + awake_events(
                self.adapter_id,
                self.index,
                previous,
                pid,
                created,
                build_id_bytes@,
            ));
        }
        previous
    }

    /// The wire went away: its adapter is removed. Returns the device it
    /// was bound to, which the caller forgets.
    pub fn closed(&mut self, out: &mut Vec<BridgeEvent>) -> (old_device: Option<DeviceId>)
        ensures
            old_device == old(self).current_device,
            final(self).current_device.is_none(),
            final(self).adapter_id == old(self).adapter_id,
            final(self).index == old(self).index,
            final(self).port == old(self).port,
            events_view(final(out)@) == events_view(old(out)@).push(
                EventView::AdapterRemoved { adapter_id: old(self).adapter_id },
            ),
    {
        let previous = self.current_device;
        self.current_device = None;
        emit(out, BridgeEvent::AdapterRemoved { adapter_id: self.adapter_id });
        previous
    }
}

} // verus!
