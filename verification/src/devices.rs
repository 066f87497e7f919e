//! Devices as the front end tracks them: which adapters carry them, what
//! those adapters contribute, and their logs in device-emission order.

use vstd::prelude::*;

use crate::ids::{AdapterId, ChipUid, DeviceId, FirmwareId};
use crate::state::{DeviceKind, DevicePhase, KnownCapability};

verus! {

/// Log entries ordered by stamp, earliest first.
pub open spec fn stamps_sorted<L>(v: Seq<(u64, L)>) -> bool {
    forall|i: int, j: int| 0 <= i < j < v.len() ==> (#[trigger] v[i]).0 <= (#[trigger] v[j]).0
}

/// Where an entry stamped `t` goes: after every entry stamped `t` or
/// earlier (the number of such entries, in a sorted buffer).
pub open spec fn insertion_point<L>(v: Seq<(u64, L)>, t: u64) -> int
    decreases v.len(),
{
    if v.len() == 0 {
        0
    } else if v.last().0 <= t {
        v.len() as int
    } else {
        insertion_point(v.drop_last(), t)
    }
}

/// In a sorted buffer the insertion point splits it into the entries
/// stamped at most `t` and those stamped later.
pub proof fn lemma_insertion_point<L>(v: Seq<(u64, L)>, t: u64)
    requires
        stamps_sorted(v),
    ensures
        0 <= insertion_point(v, t) <= v.len(),
        forall|i: int| 0 <= i < insertion_point(v, t) ==> (#[trigger] v[i]).0 <= t,
        forall|i: int| insertion_point(v, t) <= i < v.len() ==> (#[trigger] v[i]).0 > t,
    decreases v.len(),
{
    if v.len() > 0 {
        if v.last().0 <= t {
            assert forall|i: int| 0 <= i < v.len() implies (#[trigger] v[i]).0 <= t by {
                if i < v.len() - 1 {
                    assert(v[i].0 <= v[v.len() - 1].0);
                }
            }
        } else {
            let w = v.drop_last();
            assert(stamps_sorted(w)) by {
                assert forall|i: int, j: int| 0 <= i < j < w.len() implies (#[trigger] w[i]).0 <= (#[trigger] w[j]).0 by {
                    assert(w[i] == v[i] && w[j] == v[j]);
                }
            }
            lemma_insertion_point(w, t);
            assert forall|i: int| 0 <= i < insertion_point(v, t) implies (#[trigger] v[i]).0 <= t by {
                assert(v[i] == w[i]);
            }
            assert forall|i: int| insertion_point(v, t) <= i < v.len() implies (#[trigger] v[i]).0 > t by {
                if i < v.len() - 1 {
                    assert(v[i] == w[i]);
                }
            }
        }
    }
}

/// A device known to the front end. `L` is what one log entry holds; each
/// entry is kept with the stamp (host time of its first byte) that orders
/// it among the logs of all the device's adapters.
pub struct DeviceHandle<L> {
    pub id: DeviceId,
    pub name: String,
    pub kind: DeviceKind,
    pub phase: DevicePhase,
    /// Chip UID if identified.
    pub uid: Option<ChipUid>,
    /// Capabilities with the adapter contributing each: one entry per
    /// adapter and capability.
    pub capabilities: Vec<(AdapterId, KnownCapability)>,
    /// Adapters associated with this device, each once.
    pub adapter_ids: Vec<AdapterId>,
    /// The firmware this device is running, if known.
    pub firmware_id: Option<FirmwareId>,
    /// Logs ordered by stamp; entries with equal stamps in arrival order.
    pub log_buffer: Vec<(u64, L)>,
}

/// Some adapter contributes `cap`.
pub open spec fn has_cap(caps: Seq<(AdapterId, KnownCapability)>, cap: KnownCapability) -> bool {
    exists|i: int| 0 <= i < caps.len() && (#[trigger] caps[i]).1 == cap
}

impl<L> DeviceHandle<L> {
    /// The logs are in stamp order.
    pub open spec fn well_formed(&self) -> bool {
        stamps_sorted(self.log_buffer@)
    }

    /// A device with no adapters, capabilities or logs, phase unknown.
    pub fn new(id: DeviceId, name: String, kind: DeviceKind, firmware_id: Option<FirmwareId>) -> (d: Self)
        ensures
            d.id == id,
            d.name == name,
            d.kind == kind,
            d.phase == DevicePhase::Unknown,
            d.uid.is_none(),
            d.capabilities@.len() == 0,
            d.adapter_ids@.len() == 0,
            d.firmware_id == firmware_id,
            d.log_buffer@.len() == 0,
            d.well_formed(),
    {
        DeviceHandle {
            id,
            name,
            kind,
            phase: DevicePhase::Unknown,
            uid: None,
            capabilities: Vec::new(),
            adapter_ids: Vec::new(),
            firmware_id,
            log_buffer: Vec::new(),
        }
    }

    /// True if any attached adapter provides the capability.
    pub fn has_capability(&self, cap: KnownCapability) -> (r: bool)
        ensures
            r == has_cap(self.capabilities@, cap),
    {
        let mut i: usize = 0;
        while i < self.capabilities.len()
            invariant
                i <= self.capabilities@.len(),
                forall|a: int| 0 <= a < i ==> (#[trigger] self.capabilities@[a]).1 != cap,
            decreases self.capabilities.len() - i,
        {
            if self.capabilities[i].1 == cap {
                return true;
            }
            i += 1;
        }
        false
    }

    /// Insert a log stamped `received_at` after every log stamped at or
    /// before it, so logs from several adapters stay in emission order and
    /// equal stamps keep arrival order.
    pub fn push_log(&mut self, received_at: u64, log: L)
        requires
            old(self).well_formed(),
        ensures
            final(self).well_formed(),
            final(self).log_buffer@ == old(self).log_buffer@.insert(
                insertion_point(old(self).log_buffer@, received_at),
                (received_at, log),
            ),
            final(self).id == old(self).id,
            final(self).kind == old(self).kind,
            final(self).phase == old(self).phase,
            final(self).adapter_ids == old(self).adapter_ids,
            final(self).capabilities == old(self).capabilities,
            final(self).firmware_id == old(self).firmware_id,
            final(self).name == old(self).name,
            final(self).uid == old(self).uid,
    {
        proof {
            lemma_insertion_point(self.log_buffer@, received_at);
        }
        let ghost v = self.log_buffer@;
        let ghost p = insertion_point(v, received_at);
        // Binary search for the first entry stamped later.
        let mut lo: usize = 0;
        let mut hi: usize = self.log_buffer.len();
        while lo < hi
            invariant
                v == self.log_buffer@,
                0 <= lo <= hi <= v.len(),
                lo <= p <= hi,
                0 <= p <= v.len(),
                forall|i: int| 0 <= i < p ==> (#[trigger] v[i]).0 <= received_at,
                forall|i: int| p <= i < v.len() ==> (#[trigger] v[i]).0 > received_at,
            decreases hi - lo,
        {
            let mid = lo + (hi - lo) / 2;
            if self.log_buffer[mid].0 <= received_at {
                lo = mid + 1;
            } else {
                hi = mid;
            }
        }
        self.log_buffer.insert(lo, (received_at, log));
        proof {
            let w = self.log_buffer@;
            assert forall|i: int, j: int| 0 <= i < j < w.len() implies (#[trigger] w[i]).0 <= (#[trigger] w[j]).0 by {
                if i < p && j < p {
                    assert(w[i] == v[i] && w[j] == v[j]);
                } else if i < p && j == p {
                    assert(w[i] == v[i]);
                } else if i < p {
                    assert(w[i] == v[i] && w[j] == v[j - 1]);
                } else if i == p {
                    assert(w[j] == v[j - 1]);
                } else {
                    assert(w[i] == v[i - 1] && w[j] == v[j - 1]);
                }
            }
        }
    }

    /// A device is connected while some adapter carries it.
    pub fn is_connected(&self) -> (r: bool)
        ensures
            r == (self.adapter_ids@.len() > 0),
    {
        self.adapter_ids.len() > 0
    }
}

/// Logs pushed one after another come out in stamp order, and a log
/// pushed with the latest stamp so far ends up last.
pub proof fn law_push_log_orders<L>(v: Seq<(u64, L)>, t: u64, log: L)
    requires
        stamps_sorted(v),
        forall|i: int| 0 <= i < v.len() ==> (#[trigger] v[i]).0 <= t,
    ensures
        insertion_point(v, t) == v.len(),
        v.insert(insertion_point(v, t), (t, log)) == v.push((t, log)),
{
    lemma_insertion_point(v, t);
    if insertion_point(v, t) < v.len() {
        assert(v[insertion_point(v, t)].0 > t);
    }
    assert(v.insert(v.len() as int, (t, log)) =~= v.push((t, log)));
}

} // verus!
