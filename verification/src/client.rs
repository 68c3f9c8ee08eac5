//! Client-side reconciliation: diff the local registry against a received
//! snapshot, despawn representations of participants no longer announced, and
//! spawn representations for newly announced ones.
//!
//! Reconciliation uses set-difference semantics: the stale participants are
//! the locally known identifiers *not* announced by the snapshot, and the new
//! ones are the announced identifiers not yet known locally.

use vstd::prelude::*;

use crate::lobby::{distinct_ids, has_id, lemma_map_of_at, map_of, Lobby};
use crate::snapshot::{occupied_ids, LobbySync};
use crate::EntityHandle;

verus! {

/// The entries whose identifier the snapshot still announces, in order.
pub open spec fn kept_entries(s: Seq<(u64, EntityHandle)>, keep: Set<u64>) -> Seq<
    (u64, EntityHandle),
>
    decreases s.len(),
{
    if s.len() == 0 {
        Seq::empty()
    } else {
        let rest = kept_entries(s.drop_last(), keep);
        if keep.contains(s.last().0) {
            rest.push(s.last())
        } else {
            rest
        }
    }
}

/// The handles of the entries the snapshot no longer announces, in order.
pub open spec fn stale_handles(s: Seq<(u64, EntityHandle)>, keep: Set<u64>) -> Seq<EntityHandle>
    decreases s.len(),
{
    if s.len() == 0 {
        Seq::empty()
    } else {
        let rest = stale_handles(s.drop_last(), keep);
        if keep.contains(s.last().0) {
            rest
        } else {
            rest.push(s.last().1)
        }
    }
}

/// The announced identifiers not yet in the mapping, in first-sighting order,
/// each listed once.
pub open spec fn missing_seq(slots: Seq<Option<u64>>, m: Map<u64, EntityHandle>) -> Seq<u64>
    decreases slots.len(),
{
    if slots.len() == 0 {
        Seq::empty()
    } else {
        let rest = missing_seq(slots.drop_last(), m);
        match slots.last() {
            Some(id) => if m.dom().contains(id) || rest.contains(id) {
                rest
            } else {
                rest.push(id)
            },
            None => rest,
        }
    }
}

/// Keeping the announced entries restricts the mapping to the announced set.
proof fn lemma_kept_entries(s: Seq<(u64, EntityHandle)>, keep: Set<u64>)
    requires
        distinct_ids(s),
    ensures
        distinct_ids(kept_entries(s, keep)),
        forall|x: u64| has_id(kept_entries(s, keep), x) <==> (has_id(s, x) && keep.contains(x)),
        map_of(kept_entries(s, keep)) == map_of(s).restrict(keep),
    decreases s.len(),
{
    if s.len() == 0 {
        assert(map_of(kept_entries(s, keep)) =~= map_of(s).restrict(keep));
    } else {
        let head = s.drop_last();
        let last = s.last();
        assert(forall|j: int| 0 <= j < head.len() ==> head[j] == s[j]);
        lemma_kept_entries(head, keep);
        assert(head.push(last) =~= s);
        if has_id(head, last.0) {
            let i = choose|i: int| 0 <= i < head.len() && head[i].0 == last.0;
            assert(false);
        }
        crate::lobby::lemma_map_of_push(head, last.0, last.1);
        if keep.contains(last.0) {
            let kh = kept_entries(head, keep);
            if has_id(kh, last.0) {
                assert(has_id(head, last.0));
            }
            crate::lobby::lemma_map_of_push(kh, last.0, last.1);
            assert(kept_entries(s, keep) == kh.push(last));
            assert forall|x: u64|
                has_id(kept_entries(s, keep), x) <==> (has_id(s, x) && keep.contains(x)) by {
                if x != last.0 {
                    if has_id(kh.push(last), x) {
                        let i = choose|i: int|
                            0 <= i < kh.push(last).len() && kh.push(last)[i].0 == x;
                        assert(i < kh.len());
                        assert(kh[i].0 == x);
                    }
                    if has_id(kh, x) {
                        let i = choose|i: int| 0 <= i < kh.len() && kh[i].0 == x;
                        assert(kh.push(last)[i].0 == x);
                    }
                    if has_id(s, x) {
                        let i = choose|i: int| 0 <= i < s.len() && s[i].0 == x;
                        assert(i < head.len());
                        assert(head[i].0 == x);
                    }
                    if has_id(head, x) {
                        let i = choose|i: int| 0 <= i < head.len() && head[i].0 == x;
                        assert(s[i].0 == x);
                    }
                } else {
                    assert(kh.push(last)[kh.len() as int].0 == x);
                    assert(s[s.len() - 1].0 == x);
                }
            }
            assert(map_of(kept_entries(s, keep)) =~= map_of(s).restrict(keep));
        } else {
            assert(kept_entries(s, keep) == kept_entries(head, keep));
            assert forall|x: u64|
                has_id(kept_entries(s, keep), x) <==> (has_id(s, x) && keep.contains(x)) by {
                if x != last.0 {
                    if has_id(s, x) {
                        let i = choose|i: int| 0 <= i < s.len() && s[i].0 == x;
                        assert(i < head.len());
                        assert(head[i].0 == x);
                    }
                    if has_id(head, x) {
                        let i = choose|i: int| 0 <= i < head.len() && head[i].0 == x;
                        assert(s[i].0 == x);
                    }
                } else {
                    if has_id(kept_entries(head, keep), x) {
                        assert(keep.contains(x));
                    }
                }
            }
            assert(map_of(kept_entries(s, keep)) =~= map_of(s).restrict(keep));
        }
    }
}

/// A handle is stale exactly when one of the entries not announced any more
/// carries it.
proof fn lemma_stale_handles(s: Seq<(u64, EntityHandle)>, keep: Set<u64>)
    ensures
        forall|h: EntityHandle|
            stale_handles(s, keep).contains(h) <==> exists|i: int|
                0 <= i < s.len() && !keep.contains(#[trigger] s[i].0) && s[i].1 == h,
    decreases s.len(),
{
    if s.len() > 0 {
        let head = s.drop_last();
        let last = s.last();
        assert(forall|j: int| 0 <= j < head.len() ==> head[j] == s[j]);
        lemma_stale_handles(head, keep);
        let st = stale_handles(s, keep);
        let sth = stale_handles(head, keep);
        assert forall|h: EntityHandle|
            st.contains(h) <==> exists|i: int|
                0 <= i < s.len() && !keep.contains(#[trigger] s[i].0) && s[i].1 == h by {
            if st.contains(h) {
                if keep.contains(last.0) || h != last.1 || sth.contains(h) {
                    if sth.contains(h) || st == sth {
                        if sth.contains(h) {
                            let i = choose|i: int|
                                0 <= i < head.len() && !keep.contains(#[trigger] head[i].0)
                                    && head[i].1 == h;
                            assert(!keep.contains(s[i].0) && s[i].1 == h);
                        } else {
                            let j = choose|j: int| 0 <= j < st.len() && st[j] == h;
                            assert(sth.contains(h));
                        }
                    } else {
                        assert(st == sth.push(last.1));
                        let j = choose|j: int| 0 <= j < st.len() && st[j] == h;
                        if j < sth.len() {
                            assert(sth.contains(h));
                            let i = choose|i: int|
                                0 <= i < head.len() && !keep.contains(#[trigger] head[i].0)
                                    && head[i].1 == h;
                            assert(!keep.contains(s[i].0) && s[i].1 == h);
                        } else {
                            assert(!keep.contains(s[s.len() - 1].0) && s[s.len() - 1].1 == h);
                        }
                    }
                } else {
                    assert(!keep.contains(s[s.len() - 1].0) && s[s.len() - 1].1 == h);
                }
            }
            if exists|i: int| 0 <= i < s.len() && !keep.contains(#[trigger] s[i].0) && s[i].1
                == h {
                let i = choose|i: int|
                    0 <= i < s.len() && !keep.contains(#[trigger] s[i].0) && s[i].1 == h;
                if i < head.len() {
                    assert(!keep.contains(head[i].0) && head[i].1 == h);
                    assert(sth.contains(h));
                    if !keep.contains(last.0) {
                        let j = choose|j: int| 0 <= j < sth.len() && sth[j] == h;
                        assert(sth.push(last.1)[j] == h);
                        assert(st.contains(h));
                    }
                } else {
                    assert(st == sth.push(last.1));
                    assert(st[sth.len() as int] == h);
                }
            }
        }
    }
}

/// When every entry is still announced, nothing is stale.
proof fn lemma_stale_handles_none(s: Seq<(u64, EntityHandle)>, keep: Set<u64>)
    requires
        forall|i: int| 0 <= i < s.len() ==> keep.contains(#[trigger] s[i].0),
    ensures
        stale_handles(s, keep) == Seq::<EntityHandle>::empty(),
    decreases s.len(),
{
    if s.len() > 0 {
        let head = s.drop_last();
        assert(forall|j: int| 0 <= j < head.len() ==> head[j] == s[j]);
        lemma_stale_handles_none(head, keep);
        assert(keep.contains(s[s.len() - 1].0));
    }
}

/// What `missing_seq` lists: announced, not yet known, and each exactly once.
pub proof fn lemma_missing_seq(slots: Seq<Option<u64>>, m: Map<u64, EntityHandle>)
    ensures
        missing_seq(slots, m).no_duplicates(),
        forall|id: u64|
            missing_seq(slots, m).contains(id) <==> (occupied_ids(slots).contains(id)
                && !m.dom().contains(id)),
    decreases slots.len(),
{
    if slots.len() > 0 {
        let head = slots.drop_last();
        assert(forall|j: int| 0 <= j < head.len() ==> head[j] == slots[j]);
        lemma_missing_seq(head, m);
        let ms = missing_seq(slots, m);
        let msh = missing_seq(head, m);
        assert forall|id: u64| occupied_ids(head).contains(id) implies occupied_ids(
            slots,
        ).contains(id) by {
            let i = choose|i: int| 0 <= i < head.len() && head[i] == Some(id);
            assert(slots[i] == Some(id));
            assert(slots.contains(Some(id)));
        }
        match slots.last() {
            Some(last_id) => {
                assert(slots[slots.len() - 1] == Some(last_id));
                assert(slots.contains(Some(last_id)));
                if m.dom().contains(last_id) || msh.contains(last_id) {
                    assert(ms == msh);
                    assert forall|id: u64|
                        ms.contains(id) <==> (occupied_ids(slots).contains(id)
                            && !m.dom().contains(id)) by {
                        if occupied_ids(slots).contains(id) && !m.dom().contains(id) {
                            let i = choose|i: int|
                                0 <= i < slots.len() && slots[i] == Some(id);
                            if i < head.len() {
                                assert(head[i] == Some(id));
                                assert(head.contains(Some(id)));
                            } else {
                                assert(id == last_id);
                            }
                        }
                    }
                } else {
                    assert(ms == msh.push(last_id));
                    assert forall|id: u64|
                        ms.contains(id) <==> (occupied_ids(slots).contains(id)
                            && !m.dom().contains(id)) by {
                        if ms.contains(id) {
                            let j = choose|j: int| 0 <= j < ms.len() && ms[j] == id;
                            if j < msh.len() {
                                assert(msh.contains(id));
                            }
                        }
                        if occupied_ids(slots).contains(id) && !m.dom().contains(id) {
                            let i = choose|i: int|
                                0 <= i < slots.len() && slots[i] == Some(id);
                            if i < head.len() {
                                assert(head[i] == Some(id));
                                assert(head.contains(Some(id)));
                                assert(msh.contains(id));
                                let j = choose|j: int| 0 <= j < msh.len() && msh[j] == id;
                                assert(ms[j] == id);
                                assert(ms.contains(id));
                            } else {
                                assert(ms[msh.len() as int] == id);
                                assert(ms.contains(id));
                            }
                        }
                        if msh.contains(id) {
                            let j = choose|j: int| 0 <= j < msh.len() && msh[j] == id;
                            assert(ms[j] == id);
                            assert(ms.contains(id));
                        }
                    }
                    assert forall|i: int, j: int|
                        0 <= i < ms.len() && 0 <= j < ms.len() && i != j implies ms[i]
                        != ms[j] by {
                        if i < msh.len() && j < msh.len() {
                        } else if i < msh.len() && j == msh.len() {
                            if msh[i] == last_id {
                                assert(msh.contains(last_id));
                            }
                        } else if j < msh.len() && i == msh.len() {
                            if msh[j] == last_id {
                                assert(msh.contains(last_id));
                            }
                        }
                    }
                }
            },
            None => {
                assert(ms == msh);
                assert forall|id: u64|
                    ms.contains(id) <==> (occupied_ids(slots).contains(id)
                        && !m.dom().contains(id)) by {
                    if occupied_ids(slots).contains(id) {
                        let i = choose|i: int| 0 <= i < slots.len() && slots[i] == Some(id);
                        assert(i < head.len());
                        assert(head[i] == Some(id));
                        assert(head.contains(Some(id)));
                    }
                }
            },
        }
    }
}

/// The missing identifiers do not depend on mapping entries outside the
/// announced set.
proof fn lemma_missing_seq_restrict(
    slots: Seq<Option<u64>>,
    m: Map<u64, EntityHandle>,
    keep: Set<u64>,
)
    requires
        forall|id: u64| occupied_ids(slots).contains(id) ==> keep.contains(id),
    ensures
        missing_seq(slots, m.restrict(keep)) == missing_seq(slots, m),
    decreases slots.len(),
{
    if slots.len() > 0 {
        let head = slots.drop_last();
        assert(forall|j: int| 0 <= j < head.len() ==> head[j] == slots[j]);
        assert forall|id: u64| occupied_ids(head).contains(id) implies keep.contains(id) by {
            let i = choose|i: int| 0 <= i < head.len() && head[i] == Some(id);
            assert(slots[i] == Some(id));
            assert(slots.contains(Some(id)));
        }
        lemma_missing_seq_restrict(head, m, keep);
        match slots.last() {
            Some(id) => {
                assert(slots[slots.len() - 1] == Some(id));
                assert(slots.contains(Some(id)));
                assert(keep.contains(id));
                assert(m.restrict(keep).dom().contains(id) == m.dom().contains(id));
            },
            None => {},
        }
    }
}

/// The mapping after the supplied handles are recorded for the missing
/// identifiers, pairwise in order.
spec fn with_spawned(
    m: Map<u64, EntityHandle>,
    ids: Seq<u64>,
    hs: Seq<EntityHandle>,
) -> Map<u64, EntityHandle>
    decreases ids.len(),
{
    if ids.len() == 0 {
        m
    } else {
        with_spawned(m, ids.drop_last(), hs.drop_last()).insert(ids.last(), hs.last())
    }
}

/// Recording distinct identifiers adds exactly them, leaves other entries
/// alone, and gives each its own handle.
proof fn lemma_with_spawned(m: Map<u64, EntityHandle>, ids: Seq<u64>, hs: Seq<EntityHandle>)
    requires
        ids.no_duplicates(),
        ids.len() == hs.len(),
    ensures
        forall|x: u64|
            #[trigger] with_spawned(m, ids, hs).dom().contains(x) <==> (m.dom().contains(x)
                || ids.contains(x)),
        forall|x: u64|
            m.dom().contains(x) && !ids.contains(x) ==> #[trigger] with_spawned(m, ids, hs)[x]
                == m[x],
        forall|k: int|
            0 <= k < ids.len() ==> #[trigger] with_spawned(m, ids, hs)[ids[k]] == hs[k],
    decreases ids.len(),
{
    if ids.len() > 0 {
        let idh = ids.drop_last();
        let hsh = hs.drop_last();
        assert(forall|j: int| 0 <= j < idh.len() ==> idh[j] == ids[j]);
        lemma_with_spawned(m, idh, hsh);
        let w = with_spawned(m, ids, hs);
        let wh = with_spawned(m, idh, hsh);
        assert(w == wh.insert(ids.last(), hs.last()));
        if idh.contains(ids.last()) {
            let k = choose|k: int| 0 <= k < idh.len() && idh[k] == ids.last();
            assert(ids[k] == ids.last());
            assert(false);
        }
        assert forall|x: u64|
            w.dom().contains(x) <==> (m.dom().contains(x) || ids.contains(x)) by {
            if w.dom().contains(x) {
                if x == ids.last() {
                    assert(ids[ids.len() - 1] == x);
                    assert(ids.contains(x));
                } else {
                    assert(wh.dom().contains(x));
                    if idh.contains(x) {
                        let k = choose|k: int| 0 <= k < idh.len() && idh[k] == x;
                        assert(ids[k] == x);
                        assert(ids.contains(x));
                    }
                }
            }
            if m.dom().contains(x) {
                assert(wh.dom().contains(x));
                assert(w.dom().contains(x));
            }
            if ids.contains(x) {
                let k = choose|k: int| 0 <= k < ids.len() && ids[k] == x;
                if k < ids.len() - 1 {
                    assert(idh[k] == x);
                    assert(idh.contains(x));
                    assert(wh.dom().contains(x));
                }
                assert(w.dom().contains(x));
            }
        }
        assert forall|x: u64|
            m.dom().contains(x) && !ids.contains(x) implies w[x] == m[x] by {
            if idh.contains(x) {
                let k = choose|k: int| 0 <= k < idh.len() && idh[k] == x;
                assert(ids[k] == x);
            }
            assert(!idh.contains(x));
            if x == ids.last() {
                assert(ids[ids.len() - 1] == x);
            }
            assert(x != ids.last());
            assert(wh[x] == m[x]);
        }
        assert forall|k: int| 0 <= k < ids.len() implies w[ids[k]] == hs[k] by {
            if k < ids.len() - 1 {
                assert(ids[k] != ids.last());
                assert(idh[k] == ids[k]);
                assert(wh[idh[k]] == hsh[k]);
                assert(w[ids[k]] == wh[ids[k]]);
            }
        }
    }
}

impl Lobby {
    /// Removal phase of reconciliation: drop every locally known participant
    /// the snapshot no longer announces, returning the representation handles
    /// the caller must despawn.  Participants still announced are untouched.
    pub fn disconnect_clients(&mut self, sync: &LobbySync) -> (removed: Vec<EntityHandle>)
        requires
            old(self).wf(),
        ensures
            final(self).wf(),
            final(self)@ == old(self)@.restrict(sync.occupied_set()),
            final(self).spec_changed() == old(self).spec_changed(),
            removed@ == stale_handles(old(self).entries(), sync.occupied_set()),
            forall|id: u64|
                old(self)@.dom().contains(id) && !sync.occupied_set().contains(id)
                    ==> removed@.contains(old(self)@[id]),
            forall|h: EntityHandle|
                removed@.contains(h) ==> exists|id: u64|
                    old(self)@.dom().contains(id) && !sync.occupied_set().contains(id)
                        && old(self)@[id] == h,
    {
        let ghost keep = sync.occupied_set();
        let ghost s = self.entries();
        let entries = self.get_map();
        let n = entries.len();
        let mut kept: Vec<(u64, EntityHandle)> = Vec::new();
        let mut removed: Vec<EntityHandle> = Vec::new();
        let mut k: usize = 0;
        while k < n
            invariant
                k <= n,
                n == s.len(),
                entries@ == s,
                kept@ == kept_entries(s.take(k as int), keep),
                removed@ == stale_handles(s.take(k as int), keep),
                keep == sync.occupied_set(),
            decreases n - k,
        {
            proof {
                assert(s.take(k + 1).drop_last() =~= s.take(k as int));
                assert(s.take(k + 1).last() == s[k as int]);
            }
            let entry = entries[k];
            if sync.announces(entry.0) {
                kept.push(entry);
            } else {
                removed.push(entry.1);
            }
            k += 1;
        }
        proof {
            assert(s.take(n as int) =~= s);
        }
        self.set_entries(kept);
        proof {
            lemma_kept_entries(s, keep);
            lemma_stale_handles(s, keep);
            assert forall|id: u64|
                map_of(s).dom().contains(id) && !keep.contains(id) implies removed@.contains(
                map_of(s)[id],
            ) by {
                let i = choose|i: int| 0 <= i < s.len() && s[i].0 == id;
                lemma_map_of_at(s, i);
                assert(!keep.contains(s[i].0) && s[i].1 == map_of(s)[id]);
            }
            assert forall|h: EntityHandle| removed@.contains(h) implies exists|id: u64|
                map_of(s).dom().contains(id) && !keep.contains(id) && map_of(s)[id] == h by {
                let i = choose|i: int|
                    0 <= i < s.len() && !keep.contains(#[trigger] s[i].0) && s[i].1 == h;
                lemma_map_of_at(s, i);
                assert(map_of(s).dom().contains(s[i].0) && !keep.contains(s[i].0) && map_of(s)[s[
                    i
                ].0] == h);
            }
        }
        removed
    }

    /// Addition candidates of reconciliation: the identifiers the snapshot
    /// announces that are not yet known locally, in first-sighting order and
    /// each listed once.  The caller spawns one representation per identifier
    /// and records the pairs.
    pub fn missing_ids(&self, sync: &LobbySync) -> (ids: Vec<u64>)
        ensures
            ids@ == missing_seq(sync.slots(), self@),
            ids@.no_duplicates(),
            forall|id: u64|
                ids@.contains(id) <==> (sync.occupied_set().contains(id)
                    && !self@.dom().contains(id)),
    {
        let ghost slots = sync.slots();
        let n = sync.connected_clients.len();
        let mut ids: Vec<u64> = Vec::new();
        let mut i: usize = 0;
        while i < n
            invariant
                i <= n,
                n == slots.len(),
                slots == sync.slots(),
                ids@ == missing_seq(slots.take(i as int), self@),
            decreases n - i,
        {
            proof {
                assert(slots.take(i + 1).drop_last() =~= slots.take(i as int));
                assert(slots.take(i + 1).last() == slots[i as int]);
            }
            match sync.connected_clients[i] {
                Some(id) => {
                    if !self.contains_id(id) && !vec_contains_u64(&ids, id) {
                        ids.push(id);
                    }
                },
                None => {},
            }
            i += 1;
        }
        proof {
            assert(slots.take(n as int) =~= slots);
            lemma_missing_seq(slots, self@);
        }
        ids
    }

    /// Full reconciliation of this registry against one received snapshot:
    /// the removal phase despawns the stale participants' handles (returned
    /// to the caller), the addition phase records `fresh` handles, pairwise
    /// in order, for the identifiers `missing_ids` yields.  Afterwards the
    /// locally known set equals exactly the announced set; participants that
    /// stay keep their representation, and a snapshot the registry already
    /// agrees with changes nothing.
    pub fn apply_sync(&mut self, sync: &LobbySync, fresh: &Vec<EntityHandle>) -> (despawned: Vec<
        EntityHandle,
    >)
        requires
            old(self).wf(),
            fresh@.len() == missing_seq(sync.slots(), old(self)@).len(),
        ensures
            final(self).wf(),
            final(self)@.dom() == sync.occupied_set(),
            forall|id: u64|
                old(self)@.dom().contains(id) && sync.occupied_set().contains(id)
                    ==> final(self)@.dom().contains(id) && final(self)@[id] == old(self)@[id],
            forall|k: int|
                0 <= k < fresh@.len() ==> final(self)@[missing_seq(sync.slots(), old(self)@)[k]]
                    == fresh@[k],
            despawned@ == stale_handles(old(self).entries(), sync.occupied_set()),
            forall|id: u64|
                old(self)@.dom().contains(id) && !sync.occupied_set().contains(id)
                    ==> despawned@.contains(old(self)@[id]),
            forall|h: EntityHandle|
                despawned@.contains(h) ==> exists|id: u64|
                    old(self)@.dom().contains(id) && !sync.occupied_set().contains(id)
                        && old(self)@[id] == h,
            old(self)@.dom() == sync.occupied_set() ==> final(self)@ == old(self)@ && despawned@
                == Seq::<EntityHandle>::empty(),
    {
        let ghost m0 = old(self)@;
        let ghost keep = sync.occupied_set();
        let ghost miss = missing_seq(sync.slots(), m0);
        let despawned = self.disconnect_clients(sync);
        proof {
            assert forall|id: u64| occupied_ids(sync.slots()).contains(id) implies
                keep.contains(id) by {}
            lemma_missing_seq_restrict(sync.slots(), m0, keep);
        }
        let ids = self.missing_ids(sync);
        let ghost m1 = self@;
        let n = ids.len();
        let mut k: usize = 0;
        while k < n
            invariant
                k <= n,
                n == ids@.len(),
                fresh@.len() == n,
                ids@ == miss,
                self.wf(),
                self@ == with_spawned(m1, ids@.take(k as int), fresh@.take(k as int)),
            decreases n - k,
        {
            proof {
                assert(ids@.take(k + 1).drop_last() =~= ids@.take(k as int));
                assert(fresh@.take(k + 1).drop_last() =~= fresh@.take(k as int));
            }
            self.record_connect(ids[k], fresh[k]);
            k += 1;
        }
        proof {
            assert(ids@.take(n as int) =~= ids@);
            assert(fresh@.take(n as int) =~= fresh@);
            lemma_missing_seq(sync.slots(), m0);
            lemma_with_spawned(m1, miss, fresh@);
            assert forall|x: u64| self@.dom().contains(x) <==> keep.contains(x) by {
                if m1.dom().contains(x) {
                    assert(m0.restrict(keep).dom().contains(x));
                }
                if keep.contains(x) && !miss.contains(x) {
                    assert(m0.dom().contains(x));
                    assert(m1.dom().contains(x));
                }
            }
            assert(self@.dom() =~= keep);
            assert forall|id: u64| m0.dom().contains(id) && keep.contains(id) implies self@[id]
                == m0[id] by {
                assert(m1.dom().contains(id));
                assert(!miss.contains(id));
                assert(self@[id] == m1[id]);
                assert(m1[id] == m0[id]);
            }
            if m0.dom() == keep {
                if miss.len() > 0 {
                    assert(miss.contains(miss[0]));
                    assert(false);
                }
                assert(m0.restrict(keep) =~= m0);
                assert(self@ == m1);
                assert forall|i: int|
                    0 <= i < old(self).entries().len() implies keep.contains(
                    #[trigger] old(self).entries()[i].0,
                ) by {
                    lemma_map_of_at(old(self).entries(), i);
                }
                lemma_stale_handles_none(old(self).entries(), keep);
            }
        }
        despawned
    }
}

/// Whether the vector holds the identifier.
fn vec_contains_u64(v: &Vec<u64>, x: u64) -> (r: bool)
    ensures
        r == v@.contains(x),
{
    let n = v.len();
    let mut i: usize = 0;
    while i < n
        invariant
            i <= n,
            n == v@.len(),
            forall|j: int| 0 <= j < i ==> v@[j] != x,
        decreases n - i,
    {
        if v[i] == x {
            return true;
        }
        i += 1;
    }
    proof {
        if v@.contains(x) {
            let j = choose|j: int| 0 <= j < v@.len() && v@[j] == x;
            assert(false);
        }
    }
    false
}

/// Idempotence of re-application: against a registry that already agrees
/// with the snapshot, reconciliation finds nothing to spawn and nothing to
/// remove, so applying the same snapshot twice ends as applying it once.
pub proof fn lemma_reapply_is_noop(m: Map<u64, EntityHandle>, slots: Seq<Option<u64>>)
    requires
        m.dom() == occupied_ids(slots),
    ensures
        missing_seq(slots, m).len() == 0,
        m.restrict(occupied_ids(slots)) == m,
{
    lemma_missing_seq(slots, m);
    let ms = missing_seq(slots, m);
    if ms.len() > 0 {
        assert(ms.contains(ms[0]));
        assert(occupied_ids(slots).contains(ms[0]) && !m.dom().contains(ms[0]));
        assert(false);
    }
    assert(m.restrict(occupied_ids(slots)) =~= m);
}

} // verus!
