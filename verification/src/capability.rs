//! Capability registry of a device.
//!
//! Capabilities are keyed by a capability type and tagged with the adapter
//! that provided them. Several adapters may provide the same capability
//! type; for each type the registry keeps them in registration order.

use vstd::prelude::*;

use crate::ids::AdapterId;

verus! {

/// Identifies a capability type (one per Rust type that adapters register).
#[derive(Clone, Copy, Debug, PartialEq, Eq, Hash, Structural)]
pub struct TypeKey(pub u64);

/// One registered capability: its type, the adapter that provided it, and the value.
pub struct CapabilityEntry<V> {
    pub type_key: TypeKey,
    pub adapter: AdapterId,
    pub value: V,
}

/// Type-indexed capability registry.
pub struct CapabilitySet<V> {
    entries: Vec<CapabilityEntry<V>>,
}

/// The capabilities of type `key`, as `(adapter, value)` pairs in registration order.
pub open spec fn of_type<V>(s: Seq<(u64, u64, V)>, key: u64) -> Seq<(u64, V)>
    decreases s.len(),
{
    if s.len() == 0 {
        Seq::empty()
    } else {
        let rest = of_type(s.drop_last(), key);
        if s.last().0 == key {
            rest.push((s.last().1, s.last().2))
        } else {
            rest
        }
    }
}

/// The registrations whose adapter is not `a`, in their original order.
pub open spec fn without_adapter<V>(s: Seq<(u64, u64, V)>, a: u64) -> Seq<(u64, u64, V)>
    decreases s.len(),
{
    if s.len() == 0 {
        Seq::empty()
    } else {
        let rest = without_adapter(s.drop_last(), a);
        if s.last().1 != a {
            rest.push(s.last())
        } else {
            rest
        }
    }
}

/// The pairs whose adapter is not `a`, in their original order.
pub open spec fn pairs_without<V>(s: Seq<(u64, V)>, a: u64) -> Seq<(u64, V)>
    decreases s.len(),
{
    if s.len() == 0 {
        Seq::empty()
    } else {
        let rest = pairs_without(s.drop_last(), a);
        if s.last().0 != a {
            rest.push(s.last())
        } else {
            rest
        }
    }
}

impl<V> CapabilitySet<V> {
    /// All registrations `(type, adapter, value)` in registration order.
    pub closed spec fn view(&self) -> Seq<(u64, u64, V)> {
        Seq::new(
            self.entries@.len(),
            |i: int|
                (
                    self.entries@[i].type_key.0,
                    self.entries@[i].adapter.0,
                    self.entries@[i].value,
                ),
        )
    }

    /// The capabilities of type `key` as `(adapter, value)` pairs.
    pub open spec fn spec_all(&self, key: TypeKey) -> Seq<(u64, V)> {
        of_type(self.view(), key.0)
    }

    /// An empty registry.
    pub fn new() -> (s: Self)
        ensures
            s.view() == Seq::<(u64, u64, V)>::empty(),
    {
        let s = CapabilitySet { entries: Vec::new() };
        assert(s.view() =~= Seq::<(u64, u64, V)>::empty());
        s
    }

    /// Register a capability of type `type_key` provided by an adapter.
    pub fn register(&mut self, adapter: AdapterId, type_key: TypeKey, val: V)
        ensures
            final(self).view() == old(self).view().push((type_key.0, adapter.0, val)),
    {
        self.register_raw(adapter, type_key, val)
    }

    /// Register a pre-typed capability (as listed by an adapter).
    pub fn register_raw(&mut self, adapter: AdapterId, type_id: TypeKey, value: V)
        ensures
            final(self).view() == old(self).view().push((type_id.0, adapter.0, value)),
    {
        self.entries.push(CapabilityEntry { type_key: type_id, adapter, value });
        assert(self.view() =~= old(self).view().push((type_id.0, adapter.0, value)));
    }

    /// Remove all capabilities provided by an adapter.
    pub fn remove_adapter(&mut self, adapter: AdapterId)
        ensures
            final(self).view() == without_adapter(old(self).view(), adapter.0),
    {
        let ghost orig = self.view();
        let mut rest: Vec<CapabilityEntry<V>> = Vec::new();
        std::mem::swap(&mut rest, &mut self.entries);
        let ghost rest0 = rest@;
        assert(self.view() =~= without_adapter(orig.subrange(0, 0), adapter.0));
        while rest.len() > 0
            invariant
                orig.len() == rest0.len(),
                rest@.len() <= rest0.len(),
                forall|i: int|
                    0 <= i < rest0.len() ==> (#[trigger] orig[i]) == (
                        rest0[i].type_key.0,
                        rest0[i].adapter.0,
                        rest0[i].value,
                    ),
                rest@ == rest0.subrange(rest0.len() - rest@.len(), rest0.len() as int),
                self.view() == without_adapter(
                    orig.subrange(0, rest0.len() - rest@.len()),
                    adapter.0,
                ),
            decreases rest.len(),
        {
            let ghost k = rest0.len() - rest@.len();
            assert(rest@[0] == rest0[k]);
            let e = rest.remove(0);
            proof {
                assert(e == rest0[k]);
                assert(orig.subrange(0, k + 1).drop_last() =~= orig.subrange(0, k));
                assert(orig.subrange(0, k + 1).last() == orig[k]);
            }
            if e.adapter.0 != adapter.0 {
                let ghost before = self.view();
                self.entries.push(e);
                proof {
                    assert(self.view() =~= before.push(orig[k]));
                }
            }
            proof {
                assert(rest@ =~= rest0.subrange(rest0.len() - rest@.len(), rest0.len() as int));
            }
        }
        assert(orig.subrange(0, orig.len() as int) =~= orig);
    }

    /// Get the first-registered capability of a type.
    pub fn query(&self, type_id: TypeKey) -> (r: Option<&V>)
        ensures
            self.spec_all(type_id).len() == 0 ==> r is None,
            self.spec_all(type_id).len() > 0 ==> r == Some(&self.spec_all(type_id)[0].1),
    {
        let mut i: usize = 0;
        while i < self.entries.len()
            invariant
                i <= self.entries@.len(),
                of_type(self.view().subrange(0, i as int), type_id.0).len() == 0,
            decreases self.entries.len() - i,
        {
            if self.entries[i].type_key.0 == type_id.0 {
                proof {
                    lemma_of_type_prefix(self.view(), type_id.0, i as int);
                }
                return Some(&self.entries[i].value);
            }
            proof {
                assert(self.view().subrange(0, i + 1).drop_last() =~= self.view().subrange(
                    0,
                    i as int,
                ));
            }
            i = i + 1;
        }
        assert(self.view().subrange(0, i as int) =~= self.view());
        None
    }

    /// All capabilities of a type, with the adapters that provided them.
    pub fn query_all(&self, type_id: TypeKey) -> (r: Vec<(AdapterId, &V)>)
        ensures
            r@.len() == self.spec_all(type_id).len(),
            forall|i: int|
                0 <= i < r@.len() ==> (#[trigger] r@[i]).0.0 == self.spec_all(type_id)[i].0 && *r@[i].1
                    == self.spec_all(type_id)[i].1,
    {
        let mut out: Vec<(AdapterId, &V)> = Vec::new();
        let mut i: usize = 0;
        while i < self.entries.len()
            invariant
                i <= self.entries@.len(),
                out@.len() == of_type(self.view().subrange(0, i as int), type_id.0).len(),
                forall|j: int|
                    0 <= j < out@.len() ==> (#[trigger] out@[j]).0.0 == of_type(
                        self.view().subrange(0, i as int),
                        type_id.0,
                    )[j].0 && *out@[j].1 == of_type(self.view().subrange(0, i as int), type_id.0)[j].1,
            decreases self.entries.len() - i,
        {
            proof {
                assert(self.view().subrange(0, i + 1).drop_last() =~= self.view().subrange(
                    0,
                    i as int,
                ));
            }
            if self.entries[i].type_key.0 == type_id.0 {
                out.push((self.entries[i].adapter, &self.entries[i].value));
            }
            i = i + 1;
        }
        assert(self.view().subrange(0, i as int) =~= self.view());
        out
    }

    /// Check if any adapter provides a capability type.
    pub fn has(&self, type_id: TypeKey) -> (r: bool)
        ensures
            r == (self.spec_all(type_id).len() > 0),
    {
        self.query(type_id).is_some()
    }
}

/// If no registration of a type occurs before `i` and registration `i` is of
/// that type, it is the first one of its type.
proof fn lemma_of_type_prefix<V>(s: Seq<(u64, u64, V)>, key: u64, i: int)
    requires
        0 <= i < s.len(),
        of_type(s.subrange(0, i), key).len() == 0,
        s[i].0 == key,
    ensures
        of_type(s, key).len() > 0,
        of_type(s, key)[0] == (s[i].1, s[i].2),
    decreases s.len(),
{
    if i == s.len() - 1 {
        assert(s.drop_last() =~= s.subrange(0, i));
    } else {
        assert(s.drop_last().subrange(0, i) =~= s.subrange(0, i));
        lemma_of_type_prefix(s.drop_last(), key, i);
        lemma_of_type_len(s.drop_last(), key);
    }
}

proof fn lemma_of_type_len<V>(s: Seq<(u64, u64, V)>, key: u64)
    ensures
        of_type(s, key).len() <= s.len(),
    decreases s.len(),
{
    if s.len() > 0 {
        lemma_of_type_len(s.drop_last(), key);
    }
}

/// Removing an adapter removes exactly its capabilities from every type,
/// keeping the order of the others.
pub proof fn lemma_remove_adapter_per_type<V>(s: Seq<(u64, u64, V)>, a: u64, key: u64)
    ensures
        of_type(without_adapter(s, a), key) == pairs_without(of_type(s, key), a),
    decreases s.len(),
{
    if s.len() > 0 {
        lemma_remove_adapter_per_type(s.drop_last(), a, key);
        let rest = without_adapter(s.drop_last(), a);
        if s.last().1 != a {
            assert(without_adapter(s, a).drop_last() =~= rest);
        }
        if s.last().0 == key {
            assert(of_type(s, key).drop_last() =~= of_type(s.drop_last(), key));
        }
    }
}

/// After an adapter is removed, none of the remaining capabilities of any
/// type was provided by it, and every other adapter's capabilities stay in
/// order.
pub proof fn law_remove_adapter<V>(before: CapabilitySet<V>, after: CapabilitySet<V>, a: AdapterId, key: TypeKey)
    requires
        after.view() == without_adapter(before.view(), a.0),
    ensures
        after.spec_all(key) == pairs_without(before.spec_all(key), a.0),
        forall|i: int| 0 <= i < after.spec_all(key).len() ==> (#[trigger] after.spec_all(key)[i]).0 != a.0,
{
    lemma_remove_adapter_per_type(before.view(), a.0, key.0);
    lemma_pairs_without_excludes(before.spec_all(key), a.0);
}

proof fn lemma_pairs_without_excludes<V>(s: Seq<(u64, V)>, a: u64)
    ensures
        forall|i: int| 0 <= i < pairs_without(s, a).len() ==> (#[trigger] pairs_without(s, a)[i]).0 != a,
    decreases s.len(),
{
    if s.len() > 0 {
        lemma_pairs_without_excludes(s.drop_last(), a);
        let rest = pairs_without(s.drop_last(), a);
        assert forall|i: int| 0 <= i < pairs_without(s, a).len() implies (
        #[trigger] pairs_without(s, a)[i]).0 != a by {
            if i < rest.len() {
                assert(pairs_without(s, a)[i] == rest[i]);
            }
        }
    }
}

/// Registering a capability appends it to the capabilities of its type and
/// leaves every other type unchanged.
pub proof fn law_register<V>(before: CapabilitySet<V>, after: CapabilitySet<V>, a: AdapterId, t: TypeKey, v: V, other: TypeKey)
    requires
        after.view() == before.view().push((t.0, a.0, v)),
    ensures
        after.spec_all(t) == before.spec_all(t).push((a.0, v)),
        other != t ==> after.spec_all(other) == before.spec_all(other),
{
    assert(after.view().drop_last() =~= before.view());
}

} // verus!
