//! A physical device and the adapters plugged into it: each adapter
//! contributes capabilities while it is attached, and takes them away
//! when it is detached.

use vstd::prelude::*;

use crate::capability::{of_type, pairs_without, without_adapter, CapabilitySet, TypeKey};
use crate::ids::AdapterId;

verus! {

/// Something that can be plugged into a device to provide capabilities.
/// `V` is how a capability is held.
pub trait Adapter<V> {
    /// The unique ID assigned to this adapter.
    fn id(&self) -> AdapterId;

    /// Human-readable name for display in UI.
    fn display_name(&self) -> &str;

    /// The capabilities this adapter provides, each with its type; they are
    /// registered with the device when the adapter is attached.
    fn capabilities(&self) -> Vec<(TypeKey, V)>;
}

/// An error reported by an adapter, carried as its message.
#[derive(Clone, Debug)]
pub struct AdapterError {
    pub adapter: AdapterId,
    pub message: String,
}

/// A device with independently managed adapters: adapters can be attached
/// and detached at any time.
pub struct PhysicalDevice<A, V> {
    capabilities: CapabilitySet<V>,
    adapters: Vec<(AdapterId, A)>,
    next_adapter_id: u64,
}

/// The registrations `(type, adapter, value)` of the capabilities `caps`
/// listed by adapter `id`, in their order.
pub open spec fn registrations<V>(id: u64, caps: Seq<(TypeKey, V)>) -> Seq<(u64, u64, V)> {
    Seq::new(caps.len(), |i: int| (caps[i].0.0, id, caps[i].1))
}

impl<A: Adapter<V>, V> PhysicalDevice<A, V> {
    /// The capability registrations, in registration order.
    pub closed spec fn capabilities_view(&self) -> Seq<(u64, u64, V)> {
        self.capabilities.view()
    }

    /// The attached adapters with their ids, each id once.
    pub closed spec fn adapters_view(&self) -> Seq<(u64, A)> {
        Seq::new(self.adapters@.len(), |i: int| (self.adapters@[i].0.0, self.adapters@[i].1))
    }

    /// The id the next call of `next_adapter_id` hands out.
    pub closed spec fn next_id(&self) -> u64 {
        self.next_adapter_id
    }

    /// No adapter and no capability; ids counted from 0.
    pub fn new() -> (d: Self)
        ensures
            d.capabilities_view() == Seq::<(u64, u64, V)>::empty(),
            d.adapters_view() == Seq::<(u64, A)>::empty(),
            d.next_id() == 0,
    {
        let d = PhysicalDevice { capabilities: CapabilitySet::new(), adapters: Vec::new(), next_adapter_id: 0 };
        assert(d.adapters_view() =~= Seq::<(u64, A)>::empty());
        d
    }

    /// Allocate the next adapter id.
    pub fn next_adapter_id(&mut self) -> (r: AdapterId)
        requires
            old(self).next_id() < u64::MAX,
        ensures
            r.0 == old(self).next_id(),
            final(self).next_id() == old(self).next_id() + 1,
            final(self).capabilities_view() == old(self).capabilities_view(),
            final(self).adapters_view() == old(self).adapters_view(),
    {
        let id = AdapterId(self.next_adapter_id);
        self.next_adapter_id = self.next_adapter_id + 1;
        id
    }

    /// Forget the adapter stored under `id`, keeping the others in order.
    fn forget(&mut self, id: AdapterId)
        ensures
            final(self).adapters_view() == pairs_without(old(self).adapters_view(), id.0),
            final(self).capabilities_view() == old(self).capabilities_view(),
            final(self).next_id() == old(self).next_id(),
    {
        let ghost orig = self.adapters_view();
        let mut rest: Vec<(AdapterId, A)> = Vec::new();
        std::mem::swap(&mut rest, &mut self.adapters);
        let ghost rest0 = rest@;
        assert(self.adapters_view() =~= pairs_without(orig.subrange(0, 0), id.0));
        while rest.len() > 0
            invariant
                orig.len() == rest0.len(),
                rest@.len() <= rest0.len(),
                forall|i: int| 0 <= i < rest0.len() ==> (#[trigger] orig[i]) == (rest0[i].0.0, rest0[i].1),
                rest@ == rest0.subrange(rest0.len() - rest@.len(), rest0.len() as int),
                self.adapters_view() == pairs_without(orig.subrange(0, rest0.len() - rest@.len()), id.0),
                self.capabilities_view() == old(self).capabilities_view(),
                self.next_id() == old(self).next_id(),
            decreases rest.len(),
        {
            let ghost k = rest0.len() - rest@.len();
            assert(rest@[0] == rest0[k]);
            let e = rest.remove(0);
            proof {
                assert(orig.subrange(0, k + 1).drop_last() =~= orig.subrange(0, k));
                assert(orig.subrange(0, k + 1).last() == orig[k]);
            }
            if e.0.0 != id.0 {
                let ghost before = self.adapters_view();
                self.adapters.push(e);
                proof {
                    assert(self.adapters_view() =~= before.push(orig[k]));
                }
            }
            proof {
                assert(rest@ =~= rest0.subrange(rest0.len() - rest@.len(), rest0.len() as int));
            }
        }
        assert(orig.subrange(0, orig.len() as int) =~= orig);
    }

    /// Attach `adapter` under `id` with the capabilities it lists: they are
    /// registered in order, and the adapter replaces any stored under the
    /// same id.
    pub fn attach_listed(&mut self, id: AdapterId, caps: Vec<(TypeKey, V)>, adapter: A)
        ensures
            final(self).capabilities_view() == old(self).capabilities_view() + registrations(id.0, caps@),
            final(self).adapters_view() == pairs_without(old(self).adapters_view(), id.0).push((id.0, adapter)),
            final(self).next_id() == old(self).next_id(),
    {
        let ghost c0 = caps@;
        let ghost base = self.capabilities_view();
        let mut caps = caps;
        assert(registrations(id.0, c0.subrange(0, 0)) =~= Seq::<(u64, u64, V)>::empty());
        while caps.len() > 0
            invariant
                caps@.len() <= c0.len(),
                caps@ == c0.subrange(c0.len() - caps@.len(), c0.len() as int),
                self.capabilities_view() == base + registrations(id.0, c0.subrange(0, c0.len() - caps@.len())),
                self.adapters_view() == old(self).adapters_view(),
                self.next_id() == old(self).next_id(),
            decreases caps.len(),
        {
            let ghost k = c0.len() - caps@.len();
            assert(caps@[0] == c0[k]);
            let (t, v) = caps.remove(0);
            self.capabilities.register_raw(id, t, v);
            proof {
                assert(registrations(id.0, c0.subrange(0, k + 1)) =~= registrations(id.0, c0.subrange(0, k)).push(
                    (c0[k].0.0, id.0, c0[k].1),
                ));
                assert(caps@ =~= c0.subrange(c0.len() - caps@.len(), c0.len() as int));
            }
        }
        assert(c0.subrange(0, c0.len() as int) =~= c0);
        self.forget(id);
        let ghost before = self.adapters_view();
        self.adapters.push((id, adapter));
        assert(self.adapters_view() =~= before.push((id.0, adapter)));
    }

    /// Attach an adapter: register the capabilities it lists and keep it
    /// under its id. The id is handed back, for the caller to announce the
    /// adapter as connected.
    pub fn attach(&mut self, adapter: A) -> (r: AdapterId)
        ensures
            final(self).adapters_view() == pairs_without(old(self).adapters_view(), r.0).push((r.0, adapter)),
            old(self).capabilities_view().is_prefix_of(final(self).capabilities_view()),
            forall|i: int|
                #![auto]
                old(self).capabilities_view().len() <= i < final(self).capabilities_view().len()
                    ==> final(self).capabilities_view()[i].1 == r.0,
            final(self).next_id() == old(self).next_id(),
    {
        let id = adapter.id();
        let caps = adapter.capabilities();
        let ghost c = caps@;
        self.attach_listed(id, caps, adapter);
        assert(old(self).capabilities_view().is_prefix_of(self.capabilities_view())) by {
            assert(self.capabilities_view().subrange(0, old(self).capabilities_view().len() as int)
                =~= old(self).capabilities_view());
        }
        id
    }

    /// Detach the adapter with this id: its capabilities are removed and it
    /// is forgotten; the others stay as they were.
    pub fn detach(&mut self, id: AdapterId)
        ensures
            final(self).capabilities_view() == without_adapter(old(self).capabilities_view(), id.0),
            final(self).adapters_view() == pairs_without(old(self).adapters_view(), id.0),
            final(self).next_id() == old(self).next_id(),
    {
        self.capabilities.remove_adapter(id);
        self.forget(id);
    }

    /// The first-registered capability of a type.
    pub fn query_capability(&self, type_id: TypeKey) -> (r: Option<&V>)
        ensures
            of_type(self.capabilities_view(), type_id.0).len() == 0 ==> r is None,
            of_type(self.capabilities_view(), type_id.0).len() > 0 ==> r == Some(
                &of_type(self.capabilities_view(), type_id.0)[0].1,
            ),
    {
        self.capabilities.query(type_id)
    }

    /// All capabilities of a type, with the adapters that provided them.
    pub fn query_all_capabilities(&self, type_id: TypeKey) -> (r: Vec<(AdapterId, &V)>)
        ensures
            r@.len() == of_type(self.capabilities_view(), type_id.0).len(),
            forall|i: int|
                0 <= i < r@.len() ==> (#[trigger] r@[i]).0.0 == of_type(self.capabilities_view(), type_id.0)[i].0
                    && *r@[i].1 == of_type(self.capabilities_view(), type_id.0)[i].1,
    {
        self.capabilities.query_all(type_id)
    }

    /// Whether any attached adapter provides a capability type.
    pub fn has_capability(&self, type_id: TypeKey) -> (r: bool)
        ensures
            r == (of_type(self.capabilities_view(), type_id.0).len() > 0),
    {
        self.capabilities.has(type_id)
    }

    /// The attached adapters with their ids.
    pub fn adapters(&self) -> (r: Vec<(AdapterId, &A)>)
        ensures
            r@.len() == self.adapters_view().len(),
            forall|i: int|
                0 <= i < r@.len() ==> (#[trigger] r@[i]).0.0 == self.adapters_view()[i].0 && *r@[i].1
                    == self.adapters_view()[i].1,
    {
        let mut out: Vec<(AdapterId, &A)> = Vec::new();
        let mut i: usize = 0;
        while i < self.adapters.len()
            invariant
                i <= self.adapters@.len(),
                out@.len() == i,
                forall|j: int|
                    0 <= j < i ==> (#[trigger] out@[j]).0.0 == self.adapters_view()[j].0 && *out@[j].1
                        == self.adapters_view()[j].1,
            decreases self.adapters.len() - i,
        {
            out.push((self.adapters[i].0, &self.adapters[i].1));
            i = i + 1;
        }
        out
    }
}

/// Registrations of other adapters only: dropping one adapter's keeps them all.
proof fn lemma_without_append<V>(s: Seq<(u64, u64, V)>, t: Seq<(u64, u64, V)>, a: u64)
    ensures
        without_adapter(s + t, a) == without_adapter(s, a) + without_adapter(t, a),
    decreases t.len(),
{
    if t.len() == 0 {
        assert(s + t =~= s);
        assert(without_adapter(s, a) + without_adapter(t, a) =~= without_adapter(s, a));
    } else {
        lemma_without_append(s, t.drop_last(), a);
        assert((s + t).drop_last() =~= s + t.drop_last());
        assert((s + t).last() == t.last());
        if t.last().1 != a {
            assert(without_adapter(s, a) + without_adapter(t.drop_last(), a).push(t.last()) =~= (without_adapter(
                s,
                a,
            ) + without_adapter(t.drop_last(), a)).push(t.last()));
        }
    }
}

proof fn lemma_own_registrations_vanish<V>(id: u64, caps: Seq<(TypeKey, V)>)
    ensures
        without_adapter(registrations(id, caps), id) == Seq::<(u64, u64, V)>::empty(),
    decreases caps.len(),
{
    if caps.len() > 0 {
        lemma_own_registrations_vanish(id, caps.drop_last());
        assert(registrations(id, caps).drop_last() =~= registrations(id, caps.drop_last()));
    }
}

proof fn lemma_pairs_without_twice<A>(p: Seq<(u64, A)>, a: u64)
    ensures
        pairs_without(pairs_without(p, a), a) == pairs_without(p, a),
    decreases p.len(),
{
    if p.len() > 0 {
        lemma_pairs_without_twice(p.drop_last(), a);
        let r = pairs_without(p.drop_last(), a);
        if p.last().0 != a {
            assert(r.push(p.last()).drop_last() =~= r);
        }
    }
}

/// Detaching an adapter undoes attaching it: the device is left with the
/// capabilities and adapters of the others, exactly as before.
pub proof fn law_detach_undoes_attach<A, V>(
    caps_before: Seq<(u64, u64, V)>,
    adapters_before: Seq<(u64, A)>,
    id: u64,
    listed: Seq<(TypeKey, V)>,
    adapter: A,
)
    ensures
        without_adapter(caps_before + registrations(id, listed), id) == without_adapter(caps_before, id),
        pairs_without(pairs_without(adapters_before, id).push((id, adapter)), id) == pairs_without(adapters_before, id),
{
    lemma_without_append(caps_before, registrations(id, listed), id);
    lemma_own_registrations_vanish(id, listed);
    assert(without_adapter(caps_before, id) + Seq::<(u64, u64, V)>::empty() =~= without_adapter(caps_before, id));
    let q = pairs_without(adapters_before, id).push((id, adapter));
    assert(q.drop_last() =~= pairs_without(adapters_before, id));
    lemma_pairs_without_twice(adapters_before, id);
}

} // verus!
