//! The transport-independent side of IPC calls: matching replies to the
//! calls waiting for them, and choosing among the IPC transports of a
//! device.

use vstd::prelude::*;

verus! {

/// Result of a successful IPC call.
#[derive(Clone, Debug)]
pub struct IpcCallResult {
    /// Kernel response code.
    pub rc: u32,
    /// Serialized return value.
    pub return_value: Vec<u8>,
    /// Concatenated writeback data for write and read-write leases.
    pub lease_writeback: Vec<u8>,
}

/// Calls waiting for their reply, by sequence number. `W` is whatever the
/// transport uses to hand a reply to its caller. Once the transport is
/// gone the table is poisoned: it refuses new calls.
pub struct PendingCalls<W> {
    entries: Vec<(u16, W)>,
    poisoned: bool,
}

/// The waiting calls by sequence number.
pub open spec fn pending_map<W>(e: Seq<(u16, W)>) -> Map<u16, W>
    decreases e.len(),
{
    if e.len() == 0 {
        Map::empty()
    } else {
        pending_map(e.drop_last()).insert(e.last().0, e.last().1)
    }
}

/// Each sequence number once.
pub open spec fn unique_seqs<W>(e: Seq<(u16, W)>) -> bool {
    forall|i: int, j: int| 0 <= i < j < e.len() ==> (#[trigger] e[i]).0 != (#[trigger] e[j]).0
}

proof fn lemma_pending_index<W>(e: Seq<(u16, W)>, i: int)
    requires
        unique_seqs(e),
        0 <= i < e.len(),
    ensures
        pending_map(e).contains_key(e[i].0),
        pending_map(e)[e[i].0] == e[i].1,
    decreases e.len(),
{
    if i < e.len() - 1 {
        let w = e.drop_last();
        assert(unique_seqs(w)) by {
            assert forall|a: int, b: int| 0 <= a < b < w.len() implies (#[trigger] w[a]).0 != (#[trigger] w[b]).0 by {
                assert(w[a] == e[a] && w[b] == e[b]);
            }
        }
        lemma_pending_index(w, i);
        assert(w[i] == e[i]);
        assert(e[i].0 != e.last().0);
    }
}

proof fn lemma_pending_absent<W>(e: Seq<(u16, W)>, s: u16)
    requires
        forall|i: int| 0 <= i < e.len() ==> (#[trigger] e[i]).0 != s,
    ensures
        !pending_map(e).contains_key(s),
    decreases e.len(),
{
    if e.len() > 0 {
        lemma_pending_absent(e.drop_last(), s);
    }
}

proof fn lemma_pending_dom<W>(e: Seq<(u16, W)>)
    requires
        unique_seqs(e),
    ensures
        forall|s: u16| pending_map(e).contains_key(s) <==> exists|i: int| 0 <= i < e.len() && (#[trigger] e[i]).0 == s,
    decreases e.len(),
{
    if e.len() > 0 {
        let w = e.drop_last();
        assert(unique_seqs(w)) by {
            assert forall|a: int, b: int| 0 <= a < b < w.len() implies (#[trigger] w[a]).0 != (#[trigger] w[b]).0 by {
                assert(w[a] == e[a] && w[b] == e[b]);
            }
        }
        lemma_pending_dom(w);
        assert forall|s: u16| pending_map(e).contains_key(s) <==> exists|i: int| 0 <= i < e.len() && (#[trigger] e[i]).0 == s by {
            if pending_map(w).contains_key(s) {
                let i = choose|i: int| 0 <= i < w.len() && (#[trigger] w[i]).0 == s;
                assert(e[i] == w[i]);
            }
            if exists|i: int| 0 <= i < e.len() && (#[trigger] e[i]).0 == s {
                let i = choose|i: int| 0 <= i < e.len() && (#[trigger] e[i]).0 == s;
                if i < e.len() - 1 {
                    assert(w[i] == e[i]);
                }
            }
        }
    }
}

proof fn lemma_pending_remove<W>(e: Seq<(u16, W)>, i: int)
    requires
        unique_seqs(e),
        0 <= i < e.len(),
    ensures
        unique_seqs(e.remove(i)),
        pending_map(e.remove(i)) == pending_map(e).remove(e[i].0),
{
    let f = e.remove(i);
    assert forall|a: int, b: int| 0 <= a < b < f.len() implies (#[trigger] f[a]).0 != (#[trigger] f[b]).0 by {
        let a2 = if a < i { a } else { a + 1 };
        let b2 = if b < i { b } else { b + 1 };
        assert(f[a] == e[a2] && f[b] == e[b2]);
    }
    lemma_pending_dom(e);
    lemma_pending_dom(f);
    assert forall|s: u16| #[trigger] pending_map(f).contains_key(s) implies pending_map(f)[s] == pending_map(e)[s] by {
        let k = choose|k: int| 0 <= k < f.len() && (#[trigger] f[k]).0 == s;
        lemma_pending_index(f, k);
        let k2 = if k < i { k } else { k + 1 };
        assert(f[k] == e[k2]);
        lemma_pending_index(e, k2);
    }
    assert forall|s: u16| pending_map(f).contains_key(s) <==> pending_map(e).remove(e[i].0).contains_key(s) by {
        if pending_map(f).contains_key(s) {
            let k = choose|k: int| 0 <= k < f.len() && (#[trigger] f[k]).0 == s;
            let k2 = if k < i { k } else { k + 1 };
            assert(f[k] == e[k2]);
        }
        if pending_map(e).remove(e[i].0).contains_key(s) {
            let k = choose|k: int| 0 <= k < e.len() && (#[trigger] e[k]).0 == s;
            assert(k != i);
            let k2 = if k < i { k } else { k - 1 };
            assert(f[k2] == e[k]);
        }
    }
    assert(pending_map(f) =~= pending_map(e).remove(e[i].0));
}

impl<W> PendingCalls<W> {
    /// The calls waiting, by sequence number.
    pub closed spec fn view(&self) -> Map<u16, W> {
        pending_map(self.entries@)
    }

    /// The transport is gone.
    pub closed spec fn is_poisoned(&self) -> bool {
        self.poisoned
    }

    /// Each sequence number once.
    pub closed spec fn well_formed(&self) -> bool {
        unique_seqs(self.entries@)
    }

    /// No calls waiting; accepting calls.
    pub fn new() -> (p: Self)
        ensures
            p.well_formed(),
            p.view() == Map::<u16, W>::empty(),
            !p.is_poisoned(),
    {
        PendingCalls { entries: Vec::new(), poisoned: false }
    }

    fn find(&self, seq: u16) -> (r: Option<usize>)
        requires
            self.well_formed(),
        ensures
            r matches Some(i) ==> i < self.entries@.len() && self.entries@[i as int].0 == seq,
            r is None ==> !self.view().contains_key(seq),
    {
        let mut i: usize = 0;
        while i < self.entries.len()
            invariant
                i <= self.entries@.len(),
                forall|k: int| 0 <= k < i ==> (#[trigger] self.entries@[k]).0 != seq,
            decreases self.entries.len() - i,
        {
            if self.entries[i].0 == seq {
                return Some(i);
            }
            i += 1;
        }
        proof {
            lemma_pending_absent(self.entries@, seq);
        }
        None
    }

    /// Take the waiter registered under `seq`, if any.
    pub fn take(&mut self, seq: u16) -> (r: Option<W>)
        requires
            old(self).well_formed(),
        ensures
            final(self).well_formed(),
            final(self).is_poisoned() == old(self).is_poisoned(),
            final(self).view() == old(self).view().remove(seq),
            old(self).view().contains_key(seq) ==> r == Some(old(self).view()[seq]),
            !old(self).view().contains_key(seq) ==> r is None,
    {
        match self.find(seq) {
            Some(i) => {
                proof {
                    lemma_pending_index(self.entries@, i as int);
                    lemma_pending_remove(self.entries@, i as int);
                }
                let (_, w) = self.entries.remove(i);
                Some(w)
            },
            None => {
                assert(self.view().remove(seq) =~= self.view());
                None
            },
        }
    }

    /// Register the waiter of call `seq` before its request is sent; a
    /// waiter already under `seq` is replaced and handed back. A poisoned
    /// table refuses the call (`Err` with the waiter).
    pub fn register(&mut self, seq: u16, waiter: W) -> (r: Result<Option<W>, W>)
        requires
            old(self).well_formed(),
        ensures
            final(self).well_formed(),
            final(self).is_poisoned() == old(self).is_poisoned(),
            final(self).view() == after_registrations(old(self).view(), old(self).is_poisoned(), seq![(seq, waiter)]),
            old(self).is_poisoned() ==> r == Err::<Option<W>, W>(waiter) && final(self).view() == old(self).view(),
            !old(self).is_poisoned() ==> final(self).view() == old(self).view().insert(seq, waiter) && r == Ok::<Option<W>, W>(
                if old(self).view().contains_key(seq) {
                    Some(old(self).view()[seq])
                } else {
                    None
                },
            ),
    {
        proof {
            let c = seq![(seq, waiter)];
            reveal_with_fuel(after_registrations, 2);
            assert(c.drop_last() =~= Seq::<(u16, W)>::empty());
            assert(c.last() == (seq, waiter));
            assert(after_registrations(self.view(), self.is_poisoned(), c) == (if self.is_poisoned() {
                self.view()
            } else {
                self.view().insert(seq, waiter)
            }));
        }
        if self.poisoned {
            return Err(waiter);
        }
        let old_w = self.take(seq);
        let ghost e0 = self.entries@;
        self.entries.push((seq, waiter));
        proof {
            assert(self.entries@.drop_last() =~= e0);
            assert forall|a: int, b: int| 0 <= a < b < self.entries@.len() implies (#[trigger] self.entries@[a]).0
                != (#[trigger] self.entries@[b]).0 by {
                if b == e0.len() {
                    assert(self.entries@[a] == e0[a]);
                    lemma_pending_index(e0, a);
                } else {
                    assert(self.entries@[a] == e0[a] && self.entries@[b] == e0[b]);
                }
            }
            assert(pending_map(self.entries@) =~= old(self).view().insert(seq, waiter));
        }
        Ok(old_w)
    }

    /// A reply for call `seq` arrived: the waiter to hand it to, if a call
    /// is waiting (otherwise the frame is for someone else).
    pub fn resolve(&mut self, seq: u16) -> (r: Option<W>)
        requires
            old(self).well_formed(),
        ensures
            final(self).well_formed(),
            final(self).is_poisoned() == old(self).is_poisoned(),
            final(self).view() == old(self).view().remove(seq),
            old(self).view().contains_key(seq) ==> r == Some(old(self).view()[seq]),
            !old(self).view().contains_key(seq) ==> r is None,
    {
        self.take(seq)
    }

    /// The transport is gone: drop every waiter and refuse further calls.
    /// The waiters are handed back, each once.
    pub fn poison(&mut self) -> (dropped: Vec<W>)
        requires
            old(self).well_formed(),
        ensures
            final(self).well_formed(),
            final(self).is_poisoned(),
            final(self).view() == Map::<u16, W>::empty(),
            forall|s: u16| #[trigger] old(self).view().contains_key(s) ==> dropped@.contains(old(self).view()[s]),
            forall|i: int| 0 <= i < dropped@.len() ==> old(self).view().contains_value(#[trigger] dropped@[i]),
            dropped@.len() == old(self).view().dom().len(),
    {
        let ghost e0 = self.entries@;
        proof {
            lemma_pending_dom(e0);
            lemma_pending_len(e0);
        }
        self.poisoned = true;
        let mut out: Vec<(u16, W)> = Vec::new();
        std::mem::swap(&mut out, &mut self.entries);
        let mut dropped: Vec<W> = Vec::new();
        while out.len() > 0
            invariant
                e0.len() == dropped@.len() + out@.len(),
                out@ == e0.subrange(dropped@.len() as int, e0.len() as int),
                forall|i: int| 0 <= i < dropped@.len() ==> dropped@[i] == (#[trigger] e0[i]).1,
            decreases out@.len(),
        {
            let ghost k = dropped@.len();
            assert(out@[0] == e0[k as int]);
            let (_, w) = out.remove(0);
            dropped.push(w);
            assert(out@ =~= e0.subrange(dropped@.len() as int, e0.len() as int));
        }
        assert(self.view() =~= Map::<u16, W>::empty());
        proof {
            assert forall|s: u16| #[trigger] pending_map(e0).contains_key(s) implies dropped@.contains(pending_map(e0)[s]) by {
                let i = choose|i: int| 0 <= i < e0.len() && (#[trigger] e0[i]).0 == s;
                lemma_pending_index(e0, i);
                assert(dropped@[i] == e0[i].1);
            }
            assert forall|i: int| 0 <= i < dropped@.len() implies pending_map(e0).contains_value(#[trigger] dropped@[i]) by {
                lemma_pending_index(e0, i);
                assert(dropped@[i] == e0[i].1);
                let s = e0[i].0;
                assert(pending_map(e0).contains_key(s) && dropped@[i] == pending_map(e0)[s]);
            }
        }
        dropped
    }
}

/// Distinct sequence numbers: one waiter per entry.
proof fn lemma_pending_len<W>(e: Seq<(u16, W)>)
    requires
        unique_seqs(e),
    ensures
        pending_map(e).dom().finite(),
        pending_map(e).dom().len() == e.len(),
    decreases e.len(),
{
    if e.len() > 0 {
        let w = e.drop_last();
        assert(unique_seqs(w)) by {
            assert forall|a: int, b: int| 0 <= a < b < w.len() implies (#[trigger] w[a]).0 != (#[trigger] w[b]).0 by {
                assert(w[a] == e[a] && w[b] == e[b]);
            }
        }
        lemma_pending_len(w);
        lemma_pending_dom(w);
        assert(!pending_map(w).contains_key(e.last().0)) by {
            if pending_map(w).contains_key(e.last().0) {
                let i = choose|i: int| 0 <= i < w.len() && (#[trigger] w[i]).0 == e.last().0;
                assert(w[i] == e[i]);
            }
        }
        assert(pending_map(e).dom() =~= pending_map(w).dom().insert(e.last().0));
    }
}

/// A reply matches the call it was registered for, and only once: after
/// `register(s, w)` on a table that accepts calls, resolving `s` gives
/// `w` and leaves `s` unregistered, so resolving it again gives nothing.
pub proof fn law_reply_matches_call<W>(before: Map<u16, W>, s: u16, w: W)
    ensures
        before.insert(s, w).contains_key(s),
        before.insert(s, w)[s] == w,
        !before.insert(s, w).remove(s).contains_key(s),
{
}

/// The reply table after registering `calls` in order, on a table that is
/// poisoned or not (registration never changes that).
pub open spec fn after_registrations<W>(m: Map<u16, W>, poisoned: bool, calls: Seq<(u16, W)>) -> Map<u16, W>
    decreases calls.len(),
{
    if calls.len() == 0 {
        m
    } else {
        let m1 = after_registrations(m, poisoned, calls.drop_last());
        if poisoned {
            m1
        } else {
            m1.insert(calls.last().0, calls.last().1)
        }
    }
}

/// A poisoned table refuses every later call: however many are
/// registered, it stays empty, as `poison` left it.
pub proof fn law_poisoned_stays_empty<W>(calls: Seq<(u16, W)>)
    ensures
        after_registrations(Map::<u16, W>::empty(), true, calls) == Map::<u16, W>::empty(),
    decreases calls.len(),
{
    if calls.len() > 0 {
        law_poisoned_stays_empty(calls.drop_last());
    }
}

/// Among IPC transports with their priorities, the one to use: the highest
/// priority, the last of them on a tie; none when there is none.
pub fn pick<'a, T>(candidates: &[(u8, &'a T)]) -> (r: Option<&'a T>)
    ensures
        candidates@.len() == 0 ==> r is None,
        candidates@.len() > 0 ==> exists|i: int|
            0 <= i < candidates@.len() && r == Some(candidates@[i].1) && (forall|j: int|
                0 <= j < candidates@.len() ==> (#[trigger] candidates@[j]).0 <= candidates@[i].0) && (forall|j: int|
                i < j < candidates@.len() ==> (#[trigger] candidates@[j]).0 < candidates@[i].0),
{
    if candidates.len() == 0 {
        return None;
    }
    let mut best: usize = 0;
    let mut k: usize = 1;
    while k < candidates.len()
        invariant
            1 <= k <= candidates@.len(),
            best < k,
            forall|j: int| 0 <= j < k ==> (#[trigger] candidates@[j]).0 <= candidates@[best as int].0,
            forall|j: int| best < j < k ==> (#[trigger] candidates@[j]).0 < candidates@[best as int].0,
        decreases candidates.len() - k,
    {
        if candidates[k].0 >= candidates[best].0 {
            best = k;
        }
        k += 1;
    }
    Some(candidates[best].1)
}

} // verus!
