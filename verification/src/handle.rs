//! The adapter↔device binding.
//!
//! An [`AdapterLink`] lives on the adapter side for as long as the physical
//! connection does; it mints [`AdapterHandle`]s for devices and can revoke
//! all of them at once. Revocation is shared state between the link and its
//! handles, so whether a handle is revoked is only known at the moment it is
//! read; the `*_if` functions state what the answer is for either reading.

use std::sync::atomic::AtomicBool;
use std::sync::Arc;

use vstd::prelude::*;

use crate::capability::TypeKey;
use crate::ids::AdapterId;

verus! {

/// Shared state between an [`AdapterLink`] and its [`AdapterHandle`]s.
struct HandleInner<V> {
    adapter_id: AdapterId,
    capabilities: Vec<(TypeKey, V)>,
    revoked: AtomicBool,
}

/// Adapter-side half of the adapter↔device binding.
pub struct AdapterLink<V> {
    inner: Arc<HandleInner<V>>,
}

/// Device-side half of the adapter↔device binding. Capability queries
/// return nothing once the adapter has revoked the handle.
pub struct AdapterHandle<V> {
    inner: Arc<HandleInner<V>>,
}

/// The value of the first capability of type `key`, if any.
pub open spec fn first_of_type<V>(caps: Seq<(TypeKey, V)>, key: TypeKey) -> Option<V>
    decreases caps.len(),
{
    if caps.len() == 0 {
        None
    } else if caps[0].0 == key {
        Some(caps[0].1)
    } else {
        first_of_type(caps.drop_first(), key)
    }
}

/// Each entry of `caps2` is a clone of the entry of `caps1` at the same place.
pub open spec fn cloned_caps<V: Clone>(caps1: Seq<(TypeKey, V)>, caps2: Seq<(TypeKey, V)>) -> bool {
    &&& caps1.len() == caps2.len()
    &&& forall|i: int| 0 <= i < caps1.len() ==> cloned(caps1[i], #[trigger] caps2[i])
}

/// Reads a revocation flag (std's `AtomicBool::load`). Another holder of
/// the shared state may set the flag at any moment, so nothing is stated of
/// the value read: callers pass it on to the `*_if` functions, which say
/// what follows from either value.
fn flag_load(flag: &AtomicBool) -> bool {
    flag.load(std::sync::atomic::Ordering::SeqCst)
}

/// Sets a revocation flag.
fn flag_store(flag: &AtomicBool, value: bool) {
    flag.store(value, std::sync::atomic::Ordering::SeqCst)
}

/// A second reference to the shared state.
#[verifier::external_body]
fn share<T>(a: &Arc<T>) -> (r: Arc<T>)
    ensures
        *r == **a,
{
    Arc::clone(a)
}

impl<V: Clone> AdapterLink<V> {
    /// The adapter this link belongs to.
    pub closed spec fn spec_id(&self) -> AdapterId {
        self.inner.adapter_id
    }

    /// The capabilities the adapter provides.
    pub closed spec fn spec_caps(&self) -> Seq<(TypeKey, V)> {
        self.inner.capabilities@
    }

    /// A link for `adapter_id` providing `capabilities`; no handle is revoked yet.
    pub fn new(adapter_id: AdapterId, capabilities: Vec<(TypeKey, V)>) -> (l: Self)
        ensures
            l.spec_id() == adapter_id,
            l.spec_caps() == capabilities@,
    {
        AdapterLink {
            inner: Arc::new(
                HandleInner { adapter_id, capabilities, revoked: AtomicBool::new(false) },
            ),
        }
    }

    /// The adapter this link belongs to.
    pub fn adapter_id(&self) -> (r: AdapterId)
        ensures
            r == self.spec_id(),
    {
        self.inner.adapter_id
    }

    /// Mint a fresh handle for attachment to a device. If the previous
    /// handles were revoked, the link starts over with a new shared state
    /// (same adapter, cloned capabilities) so the new handle is not revoked.
    pub fn handle(&mut self) -> (h: AdapterHandle<V>)
        ensures
            final(self).spec_id() == old(self).spec_id(),
            cloned_caps(old(self).spec_caps(), final(self).spec_caps()),
            h.spec_id() == final(self).spec_id(),
            h.spec_caps() == final(self).spec_caps(),
    {
        if flag_load(&self.inner.revoked) {
            let caps = self.inner.capabilities.clone();
            self.inner = Arc::new(
                HandleInner {
                    adapter_id: self.inner.adapter_id,
                    capabilities: caps,
                    revoked: AtomicBool::new(false),
                },
            );
        } else {
            proof {
                assert forall|i: int| 0 <= i < self.spec_caps().len() implies cloned(
                    self.spec_caps()[i],
                    #[trigger] self.spec_caps()[i],
                ) by {}
            }
        }
        AdapterHandle { inner: share(&self.inner) }
    }

    /// Revoke all outstanding handles. Capability queries on existing
    /// handles return nothing from this point on.
    pub fn revoke(&self) {
        flag_store(&self.inner.revoked, true)
    }

    /// Whether the current handles have been revoked, as read at this
    /// moment; the flag is shared with the handles and may change between
    /// reads, so no value is promised.
    pub fn is_revoked(&self) -> bool {
        flag_load(&self.inner.revoked)
    }
}

impl<V> AdapterHandle<V> {
    /// The adapter this handle belongs to.
    pub closed spec fn spec_id(&self) -> AdapterId {
        self.inner.adapter_id
    }

    /// The capabilities the adapter provides while the handle is live.
    pub closed spec fn spec_caps(&self) -> Seq<(TypeKey, V)> {
        self.inner.capabilities@
    }

    /// The adapter this handle belongs to.
    pub fn adapter_id(&self) -> (r: AdapterId)
        ensures
            r == self.spec_id(),
    {
        self.inner.adapter_id
    }

    /// Whether the adapter has revoked this handle, as read at this moment;
    /// the adapter may revoke it between reads, so no value is promised
    /// (see [`Self::capabilities_if`] and [`Self::query_if`] for what either
    /// value means).
    pub fn is_revoked(&self) -> bool {
        flag_load(&self.inner.revoked)
    }

    /// The capabilities as seen with the given revocation state: none once revoked.
    pub fn capabilities_if(&self, revoked: bool) -> (r: &[(TypeKey, V)])
        ensures
            revoked ==> r@ == Seq::<(TypeKey, V)>::empty(),
            !revoked ==> r@ == self.spec_caps(),
    {
        if revoked {
            let e: &[(TypeKey, V)] = &[];
            assert(e@ =~= Seq::<(TypeKey, V)>::empty());
            e
        } else {
            self.inner.capabilities.as_slice()
        }
    }

    /// The capabilities: none once revoked, all of them otherwise.
    pub fn capabilities(&self) -> (r: &[(TypeKey, V)])
        ensures
            r@ == Seq::<(TypeKey, V)>::empty() || r@ == self.spec_caps(),
    {
        self.capabilities_if(self.is_revoked())
    }

    /// The first capability of a type as seen with the given revocation state.
    pub fn query_if(&self, revoked: bool, type_id: TypeKey) -> (r: Option<&V>)
        ensures
            revoked ==> r is None,
            !revoked ==> match first_of_type(self.spec_caps(), type_id) {
                Some(v) => r == Some(&v),
                None => r is None,
            },
    {
        if revoked {
            return None;
        }
        let caps = &self.inner.capabilities;
        let mut i: usize = 0;
        assert(caps@.subrange(0, caps@.len() as int) =~= caps@);
        while i < caps.len()
            invariant
                !revoked,
                i <= caps@.len(),
                caps@ == self.spec_caps(),
                first_of_type(self.spec_caps(), type_id) == first_of_type(
                    caps@.subrange(i as int, caps@.len() as int),
                    type_id,
                ),
            decreases caps.len() - i,
        {
            let ghost tail = caps@.subrange(i as int, caps@.len() as int);
            if caps[i].0.0 == type_id.0 {
                assert(tail[0] == caps@[i as int]);
                return Some(&caps[i].1);
            }
            assert(tail.drop_first() =~= caps@.subrange(i + 1, caps@.len() as int));
            i = i + 1;
        }
        None
    }

    /// The first capability of a type; nothing once revoked. The answer is
    /// [`Self::query_if`] for the revocation flag as read during the call,
    /// which the adapter may set at any moment: a capability is never
    /// promised, and one that is returned is the first of its type.
    pub fn query(&self, type_id: TypeKey) -> (r: Option<&V>)
        ensures
            r is None || first_of_type(self.spec_caps(), type_id) == Some(*r->0),
            first_of_type(self.spec_caps(), type_id) is None ==> r is None,
    {
        let revoked = self.is_revoked();
        self.query_if(revoked, type_id)
    }
}

} // verus!
