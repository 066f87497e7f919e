//! Registry of configured serial ports.
//!
//! Keyed by stable USB identifiers (vid, pid, serial number, interface) so
//! the same physical adapter is recognized across reboots even if its OS
//! COM/tty name changes. Persisting it is the front end's job.

use vstd::prelude::*;

use crate::state::SerialAdapterType;

verus! {

/// Stable identifier for a USB serial adapter.
#[derive(Clone, Debug, PartialEq, Eq, Hash)]
pub struct PortIdentity {
    pub vid: u16,
    pub pid: u16,
    pub serial_number: Option<String>,
    pub interface: Option<u8>,
}

/// What identifies a port: vid, pid, serial number text, interface.
pub type IdentityView = (u16, u16, Option<Seq<char>>, Option<u8>);

impl PortIdentity {
    /// The identity as plain values.
    pub open spec fn view(&self) -> IdentityView {
        (
            self.vid,
            self.pid,
            match self.serial_number {
                Some(s) => Some(s@),
                None => None,
            },
            self.interface,
        )
    }

    /// Whether two identities name the same adapter.
    pub fn same_as(&self, other: &PortIdentity) -> (r: bool)
        ensures
            r == (self.view() == other.view()),
    {
        if self.vid != other.vid || self.pid != other.pid || self.interface != other.interface {
            return false;
        }
        match (&self.serial_number, &other.serial_number) {
            (Some(a), Some(b)) => crate::text::str_eq(a.as_str(), b.as_str()),
            (None, None) => true,
            _ => false,
        }
    }
}

/// What the operating system reports of a USB serial port.
#[derive(Clone, Debug)]
pub struct UsbPortInfo {
    pub vid: u16,
    pub pid: u16,
    pub serial_number: Option<String>,
    pub manufacturer: Option<String>,
    pub product: Option<String>,
    pub interface: Option<u8>,
}

/// The label of a port: manufacturer and product (those known) joined by a
/// space, else `vid:pid` in four hex digits each.
pub open spec fn spec_port_label(info: UsbPortInfo) -> Seq<char> {
    match (info.manufacturer, info.product) {
        (Some(m), Some(p)) => m@ + " "@ + p@,
        (Some(m), None) => m@,
        (None, Some(p)) => p@,
        (None, None) => crate::stacktrace::zero_padded(crate::text::hex_digits(info.vid as nat), 4) + ":"@
            + crate::stacktrace::zero_padded(crate::text::hex_digits(info.pid as nat), 4),
    }
}

fn push_hex4(out: &mut String, n: u16)
    ensures
        final(out)@ == old(out)@ + crate::stacktrace::zero_padded(crate::text::hex_digits(n as nat), 4),
{
    let mut digits = String::new();
    crate::text::push_hex(&mut digits, n as u64);
    let k = crate::text::str_chars(digits.as_str()).len();
    let ghost start = out@;
    let mut i: usize = k;
    while i < 4
        invariant
            k <= i <= 4 || (k > 4 && i == k),
            k == digits@.len(),
            out@ =~= start + Seq::new((i - k) as nat, |_j: int| '0'),
        decreases 4 - i,
    {
        crate::text::push_char(out, '0');
        i += 1;
    }
    crate::text::push_str(out, digits.as_str());
    proof {
        if k >= 4 {
            assert(Seq::new((i - k) as nat, |_j: int| '0') =~= Seq::<char>::empty());
        }
        assert(out@ =~= start + crate::stacktrace::zero_padded(crate::text::hex_digits(n as nat), 4));
    }
}

impl PortIdentity {
    /// The identity of a USB port.
    pub fn from_usb(info: &UsbPortInfo) -> (r: Self)
        ensures
            r.vid == info.vid,
            r.pid == info.pid,
            r.serial_number == info.serial_number,
            r.interface == info.interface,
    {
        PortIdentity {
            vid: info.vid,
            pid: info.pid,
            serial_number: match &info.serial_number {
                Some(s) => Some(s.clone()),
                None => None,
            },
            interface: info.interface,
        }
    }

    /// Human-readable label for the adapter: manufacturer and product when
    /// known, else `vid:pid`.
    pub fn label(info: &UsbPortInfo) -> (r: String)
        ensures
            r@ == spec_port_label(*info),
    {
        let mut out = String::new();
        proof {
            reveal_strlit(" ");
            reveal_strlit(":");
        }
        match (&info.manufacturer, &info.product) {
            (Some(m), Some(p)) => {
                crate::text::push_str(&mut out, m.as_str());
                crate::text::push_str(&mut out, " ");
                crate::text::push_str(&mut out, p.as_str());
                assert(out@ =~= m@ + " "@ + p@);
            },
            (Some(m), None) => {
                crate::text::push_str(&mut out, m.as_str());
                assert(out@ =~= m@);
            },
            (None, Some(p)) => {
                crate::text::push_str(&mut out, p.as_str());
                assert(out@ =~= p@);
            },
            (None, None) => {
                push_hex4(&mut out, info.vid);
                crate::text::push_str(&mut out, ":");
                push_hex4(&mut out, info.pid);
                assert(out@ =~= spec_port_label(*info));
            },
        }
        out
    }
}

/// A serial port currently visible to the OS, with the metadata used to
/// identify it.
#[derive(Clone, Debug)]
pub struct AvailablePort {
    /// OS-level name (`COM16`, `/dev/ttyUSB0`, etc.).
    pub port_name: String,
    pub identity: PortIdentity,
    pub label: String,
}

impl AvailablePort {
    /// The entry for a USB port named `port_name`.
    pub fn from_usb(port_name: String, info: &UsbPortInfo) -> (r: Self)
        ensures
            r.port_name == port_name,
            r.identity.view() == (info.vid, info.pid, match info.serial_number {
                Some(s) => Some(s@),
                None => None,
            }, info.interface),
            r.label@ == spec_port_label(*info),
    {
        AvailablePort { port_name, identity: PortIdentity::from_usb(info), label: PortIdentity::label(info) }
    }
}

/// Per-port settings the user has chosen.
#[derive(Clone, Copy, Debug, PartialEq, Eq, Structural)]
pub struct PortConfiguration {
    pub adapter_type: SerialAdapterType,
}

/// The configured ports, in the order they were first configured.
pub struct PortRegistry {
    entries: Vec<(PortIdentity, PortConfiguration)>,
}

/// Position of the first entry for `id`.
pub open spec fn first_index(s: Seq<(IdentityView, PortConfiguration)>, id: IdentityView) -> Option<int>
    decreases s.len(),
{
    if s.len() == 0 {
        None
    } else if s[0].0 == id {
        Some(0)
    } else {
        match first_index(s.drop_first(), id) {
            Some(i) => Some(i + 1),
            None => None,
        }
    }
}

/// The configuration recorded for `id`, if any.
pub open spec fn lookup(s: Seq<(IdentityView, PortConfiguration)>, id: IdentityView) -> Option<PortConfiguration> {
    match first_index(s, id) {
        Some(i) => Some(s[i].1),
        None => None,
    }
}

/// `s` with the configuration for `id` set: the first entry for `id` is
/// updated in place, or a new entry is appended.
pub open spec fn spec_insert(s: Seq<(IdentityView, PortConfiguration)>, id: IdentityView, c: PortConfiguration) -> Seq<(IdentityView, PortConfiguration)> {
    match first_index(s, id) {
        Some(i) => s.update(i, (id, c)),
        None => s.push((id, c)),
    }
}

/// `s` without any entry for `id`.
pub open spec fn spec_remove(s: Seq<(IdentityView, PortConfiguration)>, id: IdentityView) -> Seq<(IdentityView, PortConfiguration)>
    decreases s.len(),
{
    if s.len() == 0 {
        s
    } else {
        let rest = spec_remove(s.drop_last(), id);
        if s.last().0 != id {
            rest.push(s.last())
        } else {
            rest
        }
    }
}

proof fn lemma_first_index_bounds(s: Seq<(IdentityView, PortConfiguration)>, id: IdentityView)
    ensures
        first_index(s, id) matches Some(i) ==> 0 <= i < s.len() && s[i].0 == id && forall|j: int|
            0 <= j < i ==> s[j].0 != id,
        first_index(s, id) is None ==> forall|j: int| 0 <= j < s.len() ==> s[j].0 != id,
    decreases s.len(),
{
    if s.len() > 0 {
        lemma_first_index_bounds(s.drop_first(), id);
        assert forall|j: int| 0 < j < s.len() implies s[j] == s.drop_first()[j - 1] by {}
    }
}

/// Reading an adapter's configuration finds the earliest entry for it: a
/// configuration exactly when some entry has that identity, and then the
/// one of the first such entry.
pub proof fn law_get_is_first_match(s: Seq<(IdentityView, PortConfiguration)>, id: IdentityView)
    ensures
        lookup(s, id) is Some <==> exists|i: int| 0 <= i < s.len() && s[i].0 == id,
        forall|i: int|
            0 <= i < s.len() && #[trigger] s[i].0 == id && (forall|j: int| 0 <= j < i ==> s[j].0 != id) ==> lookup(
                s,
                id,
            ) == Some(s[i].1),
{
    lemma_first_index_bounds(s, id);
    if let Some(k) = first_index(s, id) {
        assert(s[k].0 == id);
        assert forall|i: int|
            0 <= i < s.len() && #[trigger] s[i].0 == id && (forall|j: int| 0 <= j < i ==> s[j].0 != id) implies i
            == k by {
            if i < k {
                assert(s[i].0 != id);
            } else if k < i {
                assert(s[k].0 != id);
            }
        }
    }
}

/// Characterization of `first_index` by a scan.
proof fn lemma_first_index_is(s: Seq<(IdentityView, PortConfiguration)>, id: IdentityView, i: int)
    requires
        0 <= i <= s.len(),
        forall|j: int| 0 <= j < i ==> s[j].0 != id,
        i == s.len() || s[i].0 == id,
    ensures
        i < s.len() ==> first_index(s, id) == Some(i),
        i == s.len() ==> first_index(s, id) is None,
{
    lemma_first_index_bounds(s, id);
    match first_index(s, id) {
        Some(k) => {
            if k < i {
            } else if k > i {
            }
        },
        None => {},
    }
}

impl PortRegistry {
    /// The entries as plain values, in order.
    pub closed spec fn view(&self) -> Seq<(IdentityView, PortConfiguration)> {
        Seq::new(self.entries@.len(), |i: int| (self.entries@[i].0.view(), self.entries@[i].1))
    }

    /// An empty registry.
    pub fn new() -> (r: Self)
        ensures
            r.view() == Seq::<(IdentityView, PortConfiguration)>::empty(),
    {
        let r = PortRegistry { entries: Vec::new() };
        assert(r.view() =~= Seq::<(IdentityView, PortConfiguration)>::empty());
        r
    }

    /// A registry holding the given entries, in order (as read back from disk).
    pub fn from_entries(entries: Vec<(PortIdentity, PortConfiguration)>) -> (r: Self)
        ensures
            r.view() == Seq::new(entries@.len(), |i: int| (entries@[i].0.view(), entries@[i].1)),
    {
        PortRegistry { entries }
    }

    /// Position of the first entry for `identity`.
    fn find(&self, identity: &PortIdentity) -> (r: Option<usize>)
        ensures
            r matches Some(i) ==> first_index(self.view(), identity.view()) == Some(i as int) && i
                < self.entries@.len(),
            r is None ==> first_index(self.view(), identity.view()) is None,
    {
        let mut i: usize = 0;
        while i < self.entries.len()
            invariant
                i <= self.entries@.len(),
                forall|j: int| 0 <= j < i ==> self.view()[j].0 != identity.view(),
            decreases self.entries.len() - i,
        {
            if self.entries[i].0.same_as(identity) {
                proof {
                    lemma_first_index_is(self.view(), identity.view(), i as int);
                }
                return Some(i);
            }
            i = i + 1;
        }
        proof {
            lemma_first_index_is(self.view(), identity.view(), i as int);
        }
        None
    }

    /// The configuration recorded for an adapter.
    pub fn get(&self, identity: &PortIdentity) -> (r: Option<&PortConfiguration>)
        ensures
            match lookup(self.view(), identity.view()) {
                Some(c) => r == Some(&c),
                None => r is None,
            },
    {
        let f = self.find(identity);
        proof {
            lemma_first_index_bounds(self.view(), identity.view());
        }
        match f {
            Some(i) => Some(&self.entries[i].1),
            None => None,
        }
    }

    /// Record the configuration for an adapter, replacing any earlier one.
    pub fn insert(&mut self, identity: PortIdentity, config: PortConfiguration)
        ensures
            final(self).view() == spec_insert(old(self).view(), identity.view(), config),
    {
        let ghost idv = identity.view();
        match self.find(&identity) {
            Some(i) => {
                let ghost before = self.view();
                self.entries.set(i, (identity, config));
                assert(self.view() =~= before.update(i as int, (idv, config)));
            },
            None => {
                let ghost before = self.view();
                self.entries.push((identity, config));
                assert(self.view() =~= before.push((idv, config)));
            },
        }
    }

    /// Forget an adapter.
    pub fn remove(&mut self, identity: &PortIdentity)
        ensures
            final(self).view() == spec_remove(old(self).view(), identity.view()),
    {
        let ghost orig = self.view();
        let ghost idv = identity.view();
        let mut rest: Vec<(PortIdentity, PortConfiguration)> = Vec::new();
        std::mem::swap(&mut rest, &mut self.entries);
        let ghost rest0 = rest@;
        assert(self.view() =~= spec_remove(orig.subrange(0, 0), idv));
        while rest.len() > 0
            invariant
                orig.len() == rest0.len(),
                rest@.len() <= rest0.len(),
                forall|i: int| 0 <= i < rest0.len() ==> (#[trigger] orig[i]) == (rest0[i].0.view(), rest0[i].1),
                rest@ == rest0.subrange(rest0.len() - rest@.len(), rest0.len() as int),
                self.view() == spec_remove(orig.subrange(0, rest0.len() - rest@.len()), idv),
                idv == identity.view(),
            decreases rest.len(),
        {
            let ghost k = rest0.len() - rest@.len();
            assert(rest@[0] == rest0[k]);
            let e = rest.remove(0);
            proof {
                assert(orig.subrange(0, k + 1).drop_last() =~= orig.subrange(0, k));
                assert(orig.subrange(0, k + 1).last() == orig[k]);
            }
            if !e.0.same_as(identity) {
                let ghost before = self.view();
                self.entries.push(e);
                assert(self.view() =~= before.push(orig[k]));
            }
            assert(rest@ =~= rest0.subrange(rest0.len() - rest@.len(), rest0.len() as int));
        }
        assert(orig.subrange(0, orig.len() as int) =~= orig);
    }

    /// All entries, in order.
    pub fn iter(&self) -> (r: Vec<(&PortIdentity, &PortConfiguration)>)
        ensures
            r@.len() == self.view().len(),
            forall|i: int| 0 <= i < r@.len() ==> ((#[trigger] r@[i]).0.view(), *r@[i].1) == self.view()[i],
    {
        let mut out: Vec<(&PortIdentity, &PortConfiguration)> = Vec::new();
        let mut i: usize = 0;
        while i < self.entries.len()
            invariant
                i <= self.entries@.len(),
                out@.len() == i,
                forall|j: int| 0 <= j < i ==> ((#[trigger] out@[j]).0.view(), *out@[j].1) == self.view()[j],
            decreases self.entries.len() - i,
        {
            out.push((&self.entries[i].0, &self.entries[i].1));
            i = i + 1;
        }
        out
    }
}

/// What is read back for an adapter is what was last recorded for it, and
/// recording one adapter leaves what is read back for every other unchanged.
pub proof fn law_get_after_insert(s: Seq<(IdentityView, PortConfiguration)>, id: IdentityView, c: PortConfiguration, other: IdentityView)
    ensures
        lookup(spec_insert(s, id, c), id) == Some(c),
        other != id ==> lookup(spec_insert(s, id, c), other) == lookup(s, other),
{
    lemma_first_index_bounds(s, id);
    lemma_first_index_bounds(s, other);
    let t = spec_insert(s, id, c);
    lemma_first_index_bounds(t, id);
    lemma_first_index_bounds(t, other);
    match first_index(s, id) {
        Some(i) => {
            assert(t[i].0 == id);
            match first_index(t, id) {
                Some(k) => { if k < i { assert(t[k] == s[k]); } },
                None => {},
            }
        },
        None => {
            assert(t[s.len() as int].0 == id);
            match first_index(t, id) {
                Some(k) => { if k < s.len() { assert(t[k] == s[k]); } },
                None => {},
            }
        },
    }
    if other != id {
        match (first_index(s, other), first_index(t, other)) {
            (Some(a), Some(b)) => {
                if a < b { assert(t[a] == s[a] || t[a].0 == id); }
                if b < a { assert(t[b] == s[b] || t[b].0 == id); }
            },
            (Some(a), None) => { assert(t[a] == s[a] || t[a].0 == id); },
            (None, Some(b)) => { assert(t[b] == s[b] || t[b].0 == id); },
            (None, None) => {},
        }
    }
}

/// Reading back after appending an entry.
proof fn lemma_lookup_push(s: Seq<(IdentityView, PortConfiguration)>, e: (IdentityView, PortConfiguration), k: IdentityView)
    ensures
        lookup(s.push(e), k) == (if lookup(s, k) is Some {
            lookup(s, k)
        } else if e.0 == k {
            Some(e.1)
        } else {
            None
        }),
{
    let t = s.push(e);
    lemma_first_index_bounds(s, k);
    lemma_first_index_bounds(t, k);
    match first_index(s, k) {
        Some(i) => {
            assert(t[i] == s[i]);
            match first_index(t, k) {
                Some(j) => { if j < i { assert(t[j] == s[j]); } },
                None => {},
            }
        },
        None => {
            match first_index(t, k) {
                Some(j) => { if j < s.len() { assert(t[j] == s[j]); } },
                None => { if e.0 == k { assert(t[s.len() as int].0 == k); } },
            }
        },
    }
}

/// After an adapter is forgotten nothing is read back for it, and what is
/// read back for every other adapter is unchanged.
pub proof fn law_get_after_remove(s: Seq<(IdentityView, PortConfiguration)>, id: IdentityView, other: IdentityView)
    ensures
        lookup(spec_remove(s, id), id) is None,
        other != id ==> lookup(spec_remove(s, id), other) == lookup(s, other),
    decreases s.len(),
{
    if s.len() > 0 {
        law_get_after_remove(s.drop_last(), id, other);
        assert(s.drop_last().push(s.last()) =~= s);
        lemma_lookup_push(s.drop_last(), s.last(), other);
        let r = spec_remove(s.drop_last(), id);
        if s.last().0 != id {
            lemma_lookup_push(r, s.last(), id);
            lemma_lookup_push(r, s.last(), other);
        }
    } else {
        assert(first_index(s, id) is None);
    }
}


/// A change to the registry: an insert (with its configuration) or a removal.
pub enum RegistryOp {
    Insert(IdentityView, PortConfiguration),
    Remove(IdentityView),
}

/// The registry after the changes, in order.
pub open spec fn apply_ops(s: Seq<(IdentityView, PortConfiguration)>, ops: Seq<RegistryOp>) -> Seq<(IdentityView, PortConfiguration)>
    decreases ops.len(),
{
    if ops.len() == 0 {
        s
    } else {
        let t = apply_ops(s, ops.drop_last());
        match ops.last() {
            RegistryOp::Insert(id, c) => spec_insert(t, id, c),
            RegistryOp::Remove(id) => spec_remove(t, id),
        }
    }
}

/// The identity a change touches.
pub open spec fn op_identity(op: RegistryOp) -> IdentityView {
    match op {
        RegistryOp::Insert(id, _) => id,
        RegistryOp::Remove(id) => id,
    }
}

/// A port's entry is what was last inserted for it: changes to other
/// identities, in any number and order, leave its lookup as it was.
pub proof fn law_entry_survives_other_changes(
    s: Seq<(IdentityView, PortConfiguration)>,
    ops: Seq<RegistryOp>,
    id: IdentityView,
)
    requires
        forall|k: int| 0 <= k < ops.len() ==> op_identity(#[trigger] ops[k]) != id,
    ensures
        lookup(apply_ops(s, ops), id) == lookup(s, id),
    decreases ops.len(),
{
    if ops.len() > 0 {
        law_entry_survives_other_changes(s, ops.drop_last(), id);
        let t = apply_ops(s, ops.drop_last());
        assert(op_identity(ops[ops.len() - 1]) != id);
        match ops.last() {
            RegistryOp::Insert(k, c) => law_get_after_insert(t, k, c, id),
            RegistryOp::Remove(k) => law_get_after_remove(t, k, id),
        }
    }
}

/// After inserting `c` for `id`, later changes to other identities leave
/// `c` as its entry.
pub proof fn law_get_after_insert_and_others(
    s: Seq<(IdentityView, PortConfiguration)>,
    id: IdentityView,
    c: PortConfiguration,
    ops: Seq<RegistryOp>,
)
    requires
        forall|k: int| 0 <= k < ops.len() ==> op_identity(#[trigger] ops[k]) != id,
    ensures
        lookup(apply_ops(spec_insert(s, id, c), ops), id) == Some(c),
{
    law_get_after_insert(s, id, c, id);
    law_entry_survives_other_changes(spec_insert(s, id, c), ops, id);
}

/// A configured port that carries identity `id`.
pub open spec fn claims(o: Option<PortIdentity>, id: IdentityView) -> bool {
    match o {
        Some(c) => c.view() == id,
        None => false,
    }
}

/// Some configured port carries identity `id`.
pub open spec fn is_configured(configured: Seq<Option<PortIdentity>>, id: IdentityView) -> bool {
    exists|k: int| 0 <= k < configured.len() && #[trigger] claims(configured[k], id)
}

/// Positions of the available ports that no configured port claims.
pub open spec fn spec_unconfigured(available: Seq<AvailablePort>, configured: Seq<Option<PortIdentity>>) -> Seq<int>
    decreases available.len(),
{
    if available.len() == 0 {
        Seq::empty()
    } else {
        let rest = spec_unconfigured(available.drop_last(), configured);
        if is_configured(configured, available.last().identity.view()) {
            rest
        } else {
            rest.push(available.len() - 1)
        }
    }
}

/// The available ports (by position, in order) that no configured port
/// claims: what the "add port" form offers.
pub fn unconfigured_ports(available: &[AvailablePort], configured: &[Option<PortIdentity>]) -> (r: Vec<usize>)
    ensures
        r@.len() == spec_unconfigured(available@, configured@).len(),
        forall|i: int| 0 <= i < r@.len() ==> #[trigger] r@[i] as int == spec_unconfigured(available@, configured@)[i],
{
    let mut out: Vec<usize> = Vec::new();
    let mut i: usize = 0;
    while i < available.len()
        invariant
            i <= available@.len(),
            out@.len() == spec_unconfigured(available@.subrange(0, i as int), configured@).len(),
            forall|j: int|
                0 <= j < out@.len() ==> #[trigger] out@[j] as int == spec_unconfigured(
                    available@.subrange(0, i as int),
                    configured@,
                )[j],
        decreases available.len() - i,
    {
        let ghost pre = available@.subrange(0, i as int);
        let ghost next = available@.subrange(0, i + 1);
        assert(next.drop_last() =~= pre);
        let mut claimed = false;
        let mut k: usize = 0;
        while k < configured.len()
            invariant
                k <= configured@.len(),
                i < available@.len(),
                claimed == exists|m: int| 0 <= m < k && #[trigger] claims(configured@[m], available@[i as int].identity.view()),
            decreases configured.len() - k,
        {
            let hit = match &configured[k] {
                Some(c) => c.same_as(&available[i].identity),
                None => false,
            };
            assert(hit == claims(configured@[k as int], available@[i as int].identity.view()));
            if hit {
                claimed = true;
            }
            k += 1;
        }
        if !claimed {
            out.push(i);
        }
        i += 1;
    }
    assert(available@.subrange(0, available@.len() as int) =~= available@);
    out
}

} // verus!
