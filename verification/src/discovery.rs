//! Finding and identifying chips: reading a chip's UID out of eFuse bank 0
//! over the debug link, and keeping track of the fobs attached over native
//! USB.

use vstd::prelude::*;

use crate::bridge::{
    device_name, device_title, emit, events_view, get_or_create_persistent_device, BridgeEvent, DeviceRegistry,
    EventView,
};
use crate::hex::{parse_chip_uid, spec_parse_chip_uid};
use crate::ids::{AdapterId, ChipUid, DeviceId};
use crate::provision::le_words;
use crate::state::{DeviceKind, KnownCapability};
use crate::text::{decimal, push_char, push_decimal, push_str};

verus! {

// ── eFuse UID read ───────────────────────────────────────────────────

/// The eFuse controller's control register (bank select, mode, enable).
pub const EFUSEC_CR: u32 = 0x5000_C000;

/// The eFuse controller's status register (bit 0: done).
pub const EFUSEC_SR: u32 = 0x5000_C008;

/// The first of the four data words of bank 0, which hold the chip UID.
pub const EFUSEC_BANK0_DATA0: u32 = 0x5000_C030;

/// How often the done bit is polled before the data words are read anyway.
pub const EFUSE_DONE_POLLS: usize = 100;

/// The status register read back says the read is done: bit 0 of the first
/// word is set.
pub fn efuse_done(sr: &[u32]) -> (b: bool)
    ensures
        b == (sr@.len() > 0 && sr@[0] % 2 == 1),
{
    if sr.len() == 0 {
        return false;
    }
    let w = sr[0];
    assert((w & 1 != 0) == (w % 2 == 1)) by (bit_vector);
    w & 1 != 0
}

/// Why the data words read back do not make a UID.
pub open spec fn short_read_message(n: nat) -> Seq<char> {
    "expected 4 words, got "@ + decimal(n)
}

/// The chip UID from the data words of bank 0: the first four words, each
/// little-endian. Fewer than four words is an error.
pub fn uid_from_efuse(words: &[u32]) -> (r: Result<ChipUid, String>)
    ensures
        words@.len() < 4 ==> (r matches Err(e) && e@ == short_read_message(words@.len())),
        words@.len() >= 4 ==> (r matches Ok(u) && le_words(u.0@) == words@.subrange(0, 4)),
{
    if words.len() < 4 {
        let mut m = String::new();
        push_str(&mut m, "expected 4 words, got ");
        push_decimal(&mut m, words.len() as u64);
        proof {
            reveal_strlit("expected 4 words, got ");
        }
        assert(m@ =~= short_read_message(words@.len()));
        return Err(m);
    }
    let mut uid = [0u8; 16];
    let mut k: usize = 0;
    while k < 4
        invariant
            k <= 4,
            words@.len() >= 4,
            forall|j: int|
                0 <= j < k ==> crate::stacktrace::le_word(
                    #[trigger] uid@[4 * j],
                    uid@[4 * j + 1],
                    uid@[4 * j + 2],
                    uid@[4 * j + 3],
                ) == words@[j],
        decreases 4 - k,
    {
        let w = words[k];
        let b0 = (w % 256) as u8;
        let b1 = ((w / 256) % 256) as u8;
        let b2 = ((w / 65536) % 256) as u8;
        let b3 = (w / 16777216) as u8;
        assert(w == (w % 256) + 256 * ((w / 256) % 256) + 65536 * ((w / 65536) % 256) + 16777216 * (w / 16777216))
            by (bit_vector);
        let ghost before = uid@;
        uid[4 * k] = b0;
        uid[4 * k + 1] = b1;
        uid[4 * k + 2] = b2;
        uid[4 * k + 3] = b3;
        assert forall|j: int| 0 <= j < k implies crate::stacktrace::le_word(
            #[trigger] uid@[4 * j],
            uid@[4 * j + 1],
            uid@[4 * j + 2],
            uid@[4 * j + 3],
        ) == words@[j] by {
            assert(uid@[4 * j] == before[4 * j]);
            assert(uid@[4 * j + 1] == before[4 * j + 1]);
            assert(uid@[4 * j + 2] == before[4 * j + 2]);
            assert(uid@[4 * j + 3] == before[4 * j + 3]);
        }
        k += 1;
    }
    let u = ChipUid(uid);
    assert(le_words(u.0@) =~= words@.subrange(0, 4)) by {
        assert forall|j: int| 0 <= j < 4 implies #[trigger] le_words(u.0@)[j] == words@[j] by {
            assert(crate::stacktrace::le_word(uid@[4 * j], uid@[4 * j + 1], uid@[4 * j + 2], uid@[4 * j + 3])
                == words@[j]);
        }
    }
    Ok(u)
}

// ── Native USB fobs ──────────────────────────────────────────────────

/// Adapter ids of native-USB fobs start here, clear of the USART ranges.
pub const USB_ADAPTER_ID_BASE: u64 = 1_000_000;

/// A fob attached over native USB: its chip, adapter and device.
#[derive(Clone, Copy, Debug)]
pub struct UsbFob {
    pub uid: ChipUid,
    pub adapter_id: AdapterId,
    pub device_id: DeviceId,
}

/// The attached fobs by chip: adapter and device of each.
pub open spec fn fob_map(e: Seq<UsbFob>) -> Map<Seq<u8>, (AdapterId, DeviceId)>
    decreases e.len(),
{
    if e.len() == 0 {
        Map::empty()
    } else {
        fob_map(e.drop_last()).insert(e.last().uid.0@, (e.last().adapter_id, e.last().device_id))
    }
}

/// No chip is held twice.
pub open spec fn distinct_fobs(e: Seq<UsbFob>) -> bool {
    forall|i: int, j: int| 0 <= i < j < e.len() ==> (#[trigger] e[i]).uid.0@ != (#[trigger] e[j]).uid.0@
}

proof fn lemma_fob_map(e: Seq<UsbFob>, u: Seq<u8>)
    ensures
        fob_map(e).contains_key(u) <==> exists|i: int| 0 <= i < e.len() && (#[trigger] e[i]).uid.0@ == u,
        distinct_fobs(e) ==> forall|i: int|
            0 <= i < e.len() && (#[trigger] e[i]).uid.0@ == u ==> fob_map(e)[u] == (e[i].adapter_id, e[i].device_id),
    decreases e.len(),
{
    if e.len() > 0 {
        let d = e.drop_last();
        lemma_fob_map(d, u);
        if fob_map(d).contains_key(u) {
            let i = choose|i: int| 0 <= i < d.len() && (#[trigger] d[i]).uid.0@ == u;
            assert(e[i] == d[i]);
        }
        if exists|i: int| 0 <= i < e.len() && (#[trigger] e[i]).uid.0@ == u {
            let i = choose|i: int| 0 <= i < e.len() && (#[trigger] e[i]).uid.0@ == u;
            if i < e.len() - 1 {
                assert(d[i] == e[i]);
            }
        }
        assert forall|i: int| distinct_fobs(e) && 0 <= i < e.len() && (#[trigger] e[i]).uid.0@ == u implies fob_map(
            e,
        )[u] == (e[i].adapter_id, e[i].device_id) by {
            if i < e.len() - 1 {
                assert(d[i] == e[i]);
                assert(e[i].uid.0@ != e.last().uid.0@);
                assert forall|a: int, b: int| 0 <= a < b < d.len() implies (#[trigger] d[a]).uid.0@
                    != (#[trigger] d[b]).uid.0@ by {
                    assert(d[a] == e[a] && d[b] == e[b]);
                }
            }
        }
    }
}

proof fn lemma_fob_map_remove(e: Seq<UsbFob>, i: int)
    requires
        distinct_fobs(e),
        0 <= i < e.len(),
    ensures
        fob_map(e.remove(i)) == fob_map(e).remove(e[i].uid.0@),
        distinct_fobs(e.remove(i)),
    decreases e.len(),
{
    let r = e.remove(i);
    assert forall|a: int, b: int| 0 <= a < b < r.len() implies (#[trigger] r[a]).uid.0@ != (#[trigger] r[b]).uid.0@ by {
        let a2 = if a < i { a } else { a + 1 };
        let b2 = if b < i { b } else { b + 1 };
        assert(r[a] == e[a2] && r[b] == e[b2]);
    }
    let d = e.drop_last();
    let k = e[i].uid.0@;
    assert forall|a: int, b: int| 0 <= a < b < d.len() implies (#[trigger] d[a]).uid.0@ != (#[trigger] d[b]).uid.0@ by {
        assert(d[a] == e[a] && d[b] == e[b]);
    }
    if i == e.len() - 1 {
        assert(r =~= d);
        lemma_fob_map(d, k);
        if fob_map(d).contains_key(k) {
            let j = choose|j: int| 0 <= j < d.len() && (#[trigger] d[j]).uid.0@ == k;
            assert(d[j] == e[j]);
        }
        assert(fob_map(r) =~= fob_map(e).remove(k));
    } else {
        lemma_fob_map_remove(d, i);
        assert(d[i] == e[i]);
        assert(r.drop_last() =~= d.remove(i));
        assert(r.last() == e.last());
        assert(e.last().uid.0@ != k);
        assert(fob_map(r) =~= fob_map(e).remove(k));
    }
}

/// The fobs the USB supervisor holds, each chip once, and the index the
/// next fob's adapter id is made from.
pub struct UsbSupervisor {
    next_index: u64,
    fobs: Vec<UsbFob>,
}

/// What to do with a fob that showed up.
#[derive(Clone, Copy, Debug)]
pub enum UsbAttach {
    /// Its serial is not a chip UID, or the chip is attached already.
    Ignored,
    /// Open it as adapter `adapter_id` for persistent device `device_id`.
    Attach { uid: ChipUid, adapter_id: AdapterId, device_id: DeviceId },
}

/// `USB (<serial>)`.
pub open spec fn usb_adapter_name(serial: Seq<char>) -> Seq<char> {
    "USB ("@ + serial + seq![')']
}

impl UsbSupervisor {
    /// The attached fobs by chip.
    pub closed spec fn view(&self) -> Map<Seq<u8>, (AdapterId, DeviceId)> {
        fob_map(self.fobs@)
    }

    /// The index the next fob's adapter id is made from.
    pub closed spec fn next_index(&self) -> u64 {
        self.next_index
    }

    /// Each chip is held once.
    pub closed spec fn well_formed(&self) -> bool {
        distinct_fobs(self.fobs@)
    }

    /// No fobs yet.
    pub fn new() -> (s: Self)
        ensures
            s.well_formed(),
            s.view() == Map::<Seq<u8>, (AdapterId, DeviceId)>::empty(),
            s.next_index() == 0,
    {
        UsbSupervisor { next_index: 0, fobs: Vec::new() }
    }

    fn position(&self, uid: &ChipUid) -> (r: Option<usize>)
        requires
            self.well_formed(),
        ensures
            r is None <==> !self.view().contains_key(uid.0@),
            r matches Some(i) ==> i < self.fobs@.len() && self.fobs@[i as int].uid.0@ == uid.0@,
    {
        proof {
            lemma_fob_map(self.fobs@, uid.0@);
        }
        let mut i: usize = 0;
        while i < self.fobs.len()
            invariant
                i <= self.fobs@.len(),
                forall|k: int| 0 <= k < i ==> (#[trigger] self.fobs@[k]).uid.0@ != uid.0@,
            decreases self.fobs.len() - i,
        {
            if crate::text::bytes_eq(self.fobs[i].uid.0.as_slice(), uid.0.as_slice()) {
                proof {
                    lemma_fob_map(self.fobs@, uid.0@);
                    assert(self.fobs@[i as int].uid.0@ == uid.0@);
                }
                return Some(i);
            }
            i += 1;
        }
        None
    }

    /// Chip `uid` is attached.
    pub fn is_attached(&self, uid: &ChipUid) -> (b: bool)
        requires
            self.well_formed(),
        ensures
            b == self.view().contains_key(uid.0@),
    {
        self.position(uid).is_some()
    }

    /// A fob showed up with USB serial `serial`. A serial that is not a chip
    /// UID, or a chip already attached (a repeated hotplug report), is
    /// ignored. Otherwise the fob gets the next adapter id and the chip's
    /// persistent device (minted, with its `DeviceCreated`, the first time);
    /// the caller opens it and reports back with [`Self::attached`].
    pub fn on_connected(&mut self, serial: &str, registry: &mut DeviceRegistry, out: &mut Vec<BridgeEvent>) -> (a:
        UsbAttach)
        requires
            old(self).well_formed(),
            old(registry).well_formed(),
            old(registry).next() < u64::MAX,
            USB_ADAPTER_ID_BASE + old(self).next_index() < u64::MAX,
        ensures
            final(self).well_formed(),
            final(registry).well_formed(),
            final(self).view() == old(self).view(),
            ({
                let p = spec_parse_chip_uid(serial@);
                if p is Some && !old(self).view().contains_key(p->0) {
                    let u = p->0;
                    let known = old(registry).view().contains_key(u);
                    let pid = if known { old(registry).view()[u] } else { DeviceId(old(registry).next()) };
                    &&& a matches UsbAttach::Attach { uid, adapter_id, device_id } && uid.0@ == u && adapter_id
                        == AdapterId((USB_ADAPTER_ID_BASE + old(self).next_index()) as u64) && device_id == pid
                    &&& final(self).next_index() == old(self).next_index() + 1
                    &&& final(registry).view() == old(registry).view().insert(u, pid)
                    &&& final(registry).next() == (if known { old(registry).next() } else { (old(registry).next() + 1) as u64 })
                    &&& events_view(final(out)@) == events_view(old(out)@) + (if known {
                        Seq::empty()
                    } else {
                        seq![
                            EventView::DeviceCreated {
                                device_id: pid,
                                name: device_title(u),
                                kind: DeviceKind::Persistent,
                                firmware_id: None,
                            },
                        ]
                    })
                } else {
                    &&& a is Ignored
                    &&& final(self).next_index() == old(self).next_index()
                    &&& final(registry).view() == old(registry).view()
                    &&& final(registry).next() == old(registry).next()
                    &&& final(out)@ == old(out)@
                }
            }),
    {
        let uid = match parse_chip_uid(serial) {
            Some(u) => u,
            None => return UsbAttach::Ignored,
        };
        if self.is_attached(&uid) {
            return UsbAttach::Ignored;
        }
        let adapter_id = AdapterId(USB_ADAPTER_ID_BASE + self.next_index);
        self.next_index = self.next_index + 1;
        let ghost o = events_view(out@);
        let ghost m = registry.view();
        let name = device_name(&uid);
        let device_id = get_or_create_persistent_device(registry, uid, name, None, out);
        proof {
            if m.contains_key(uid.0@) {
                assert(m.insert(uid.0@, m[uid.0@]) =~= m);
                assert(events_view(out@) =~= o + Seq::empty());
            }
        }
        UsbAttach::Attach { uid, adapter_id, device_id }
    }

    /// The fob for chip `uid` was opened as `adapter_id` for `device_id`:
    /// hold it, and announce its adapter (which carries IPC at
    /// `ipc_priority`) bound to the device.
    pub fn attached(
        &mut self,
        serial: &str,
        uid: ChipUid,
        adapter_id: AdapterId,
        device_id: DeviceId,
        ipc_priority: u8,
        out: &mut Vec<BridgeEvent>,
    )
        requires
            old(self).well_formed(),
            !old(self).view().contains_key(uid.0@),
        ensures
            final(self).well_formed(),
            final(self).view() == old(self).view().insert(uid.0@, (adapter_id, device_id)),
            final(self).next_index() == old(self).next_index(),
            events_view(final(out)@) == events_view(old(out)@) + seq![
                EventView::AdapterCreated {
                    adapter_id,
                    display_name: usb_adapter_name(serial@),
                    ipc_transport: Some(("usb"@, ipc_priority)),
                },
                EventView::AdapterBound { adapter_id, device_id, capabilities: seq![KnownCapability::Ipc] },
            ],
    {
        proof {
            lemma_fob_map(self.fobs@, uid.0@);
        }
        let ghost e = self.fobs@;
        self.fobs.push(UsbFob { uid, adapter_id, device_id });
        proof {
            assert(self.fobs@.drop_last() =~= e);
            assert forall|a: int, b: int| 0 <= a < b < self.fobs@.len() implies (#[trigger] self.fobs@[a]).uid.0@
                != (#[trigger] self.fobs@[b]).uid.0@ by {
                assert(self.fobs@[a] == e[a]);
                if b < e.len() {
                    assert(self.fobs@[b] == e[b]);
                }
            }
        }
        let mut name = String::new();
        push_str(&mut name, "USB (");
        push_str(&mut name, serial);
        push_char(&mut name, ')');
        proof {
            reveal_strlit("USB (");
        }
        assert(name@ =~= usb_adapter_name(serial@));
        let ghost o = events_view(out@);
        emit(out, BridgeEvent::AdapterCreated { adapter_id, display_name: name, ipc_transport: Some(("usb", ipc_priority)) });
        let mut caps: Vec<KnownCapability> = Vec::new();
        caps.push(KnownCapability::Ipc);
        assert(caps@ =~= seq![KnownCapability::Ipc]);
        emit(out, BridgeEvent::AdapterBound { adapter_id, device_id, capabilities: caps });
        assert(events_view(out@) =~= o + seq![
            EventView::AdapterCreated {
                adapter_id,
                display_name: usb_adapter_name(serial@),
                ipc_transport: Some(("usb"@, ipc_priority)),
            },
            EventView::AdapterBound { adapter_id, device_id, capabilities: seq![KnownCapability::Ipc] },
        ]);
    }

    /// The fob for chip `uid` went away: forget it and remove its adapter.
    /// Returns its adapter and device; nothing happens for a chip not held.
    pub fn on_disconnected(&mut self, uid: ChipUid, out: &mut Vec<BridgeEvent>) -> (r: Option<(AdapterId, DeviceId)>)
        requires
            old(self).well_formed(),
        ensures
            final(self).well_formed(),
            final(self).next_index() == old(self).next_index(),
            old(self).view().contains_key(uid.0@) ==> {
                &&& r == Some(old(self).view()[uid.0@])
                &&& final(self).view() == old(self).view().remove(uid.0@)
                &&& events_view(final(out)@) == events_view(old(out)@).push(
                    EventView::AdapterRemoved { adapter_id: old(self).view()[uid.0@].0 },
                )
            },
            !old(self).view().contains_key(uid.0@) ==> r is None && final(self).view() == old(self).view()
                && final(out)@ == old(out)@,
    {
        match self.position(&uid) {
            None => None,
            Some(i) => {
                proof {
                    lemma_fob_map(self.fobs@, uid.0@);
                    lemma_fob_map_remove(self.fobs@, i as int);
                }
                let f = self.fobs.remove(i);
                emit(out, BridgeEvent::AdapterRemoved { adapter_id: f.adapter_id });
                Some((f.adapter_id, f.device_id))
            },
        }
    }
}

/// A fob attached and then detached leaves the supervisor holding what it
/// held before, and a chip already attached is never attached twice.
pub proof fn law_usb_detach_undoes_attach(
    held: Map<Seq<u8>, (AdapterId, DeviceId)>,
    u: Seq<u8>,
    fob: (AdapterId, DeviceId),
)
    requires
        !held.contains_key(u),
    ensures
        held.insert(u, fob).remove(u) == held,
        held.insert(u, fob).contains_key(u),
{
    assert(held.insert(u, fob).remove(u) =~= held);
}

} // verus!
