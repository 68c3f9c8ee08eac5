//! The membership registry: a mapping from participant identifier to the
//! locally owned representation handle, together with the change flag that
//! gates server broadcasts.
//!
//! The registry is the single source of truth for "is this participant
//! currently known locally".  It is an explicitly owned value handed by
//! reference into each driver, so the reconciliation logic stands on its own.

use vstd::prelude::*;

use crate::snapshot::{lemma_occupied_count_prefix, occupied_count, LobbySync};
use crate::{EntityHandle, MAX_CONNECTIONS};

verus! {

/// No two entries share a participant identifier.
pub open spec fn distinct_ids(s: Seq<(u64, EntityHandle)>) -> bool {
    forall|i: int, j: int| 0 <= i < j < s.len() ==> s[i].0 != s[j].0
}

/// Whether some entry carries the identifier.
pub open spec fn has_id(s: Seq<(u64, EntityHandle)>, id: u64) -> bool {
    exists|i: int| 0 <= i < s.len() && s[i].0 == id
}

/// The mapping an entry sequence denotes.
pub open spec fn map_of(s: Seq<(u64, EntityHandle)>) -> Map<u64, EntityHandle> {
    Map::new(
        |id: u64| has_id(s, id),
        |id: u64| s[choose|i: int| 0 <= i < s.len() && s[i].0 == id].1,
    )
}

/// Under distinct identifiers, the entry at an index decides the mapping at
/// its identifier.
pub proof fn lemma_map_of_at(s: Seq<(u64, EntityHandle)>, i: int)
    requires
        distinct_ids(s),
        0 <= i < s.len(),
    ensures
        map_of(s).dom().contains(s[i].0),
        map_of(s)[s[i].0] == s[i].1,
{
    assert(has_id(s, s[i].0));
    let j = choose|j: int| 0 <= j < s.len() && s[j].0 == s[i].0;
    assert(j == i);
}

/// Appending an entry with a fresh identifier inserts it into the mapping.
pub(crate) proof fn lemma_map_of_push(s: Seq<(u64, EntityHandle)>, id: u64, h: EntityHandle)
    requires
        distinct_ids(s),
        !has_id(s, id),
    ensures
        distinct_ids(s.push((id, h))),
        map_of(s.push((id, h))) == map_of(s).insert(id, h),
{
    let t = s.push((id, h));
    assert forall|i: int, j: int| 0 <= i < j < t.len() implies t[i].0 != t[j].0 by {
        if j == s.len() {
            assert(t[i] == s[i]);
            if s[i].0 == id {
                assert(has_id(s, id));
            }
        }
    }
    assert forall|x: u64| #[trigger] has_id(t, x) implies x == id || has_id(s, x) by {
        let i = choose|i: int| 0 <= i < t.len() && t[i].0 == x;
        if i < s.len() {
            assert(s[i].0 == x);
        }
    }
    assert forall|x: u64| x == id || has_id(s, x) implies #[trigger] has_id(t, x) by {
        if x == id {
            assert(t[s.len() as int].0 == x);
        } else {
            let i = choose|i: int| 0 <= i < s.len() && s[i].0 == x;
            assert(t[i].0 == x);
        }
    }
    assert forall|x: u64| #[trigger] has_id(s, x) implies map_of(t)[x] == map_of(s)[x] by {
        let i = choose|i: int| 0 <= i < s.len() && s[i].0 == x;
        assert(t[i].0 == x);
        lemma_map_of_at(s, i);
        lemma_map_of_at(t, i);
    }
    lemma_map_of_at(t, s.len() as int);
    assert(map_of(t) =~= map_of(s).insert(id, h));
}

/// Removing the entry at an index deletes its identifier from the mapping.
pub(crate) proof fn lemma_map_of_remove(s: Seq<(u64, EntityHandle)>, k: int)
    requires
        distinct_ids(s),
        0 <= k < s.len(),
    ensures
        distinct_ids(s.remove(k)),
        map_of(s.remove(k)) == map_of(s).remove(s[k].0),
{
    let t = s.remove(k);
    assert forall|j: int| 0 <= j < t.len() implies t[j] == (if j < k {
        s[j]
    } else {
        s[j + 1]
    }) by {}
    assert forall|i: int, j: int| 0 <= i < j < t.len() implies t[i].0 != t[j].0 by {}
    assert forall|x: u64| #[trigger] has_id(t, x) implies has_id(s, x) && x != s[k].0 by {
        let i = choose|i: int| 0 <= i < t.len() && t[i].0 == x;
        if i < k {
            assert(s[i].0 == x);
        } else {
            assert(s[i + 1].0 == x);
        }
    }
    assert forall|x: u64| has_id(s, x) && x != s[k].0 implies #[trigger] has_id(t, x) by {
        let i = choose|i: int| 0 <= i < s.len() && s[i].0 == x;
        if i < k {
            assert(t[i].0 == x);
        } else {
            assert(i != k);
            assert(t[i - 1].0 == x);
        }
    }
    assert forall|x: u64| #[trigger] has_id(t, x) implies map_of(t)[x] == map_of(s)[x] by {
        let i = choose|i: int| 0 <= i < t.len() && t[i].0 == x;
        lemma_map_of_at(t, i);
        if i < k {
            lemma_map_of_at(s, i);
        } else {
            lemma_map_of_at(s, i + 1);
        }
    }
    assert(map_of(t) =~= map_of(s).remove(s[k].0));
}

/// Under distinct identifiers, the mapping has exactly one element per entry.
proof fn lemma_map_of_len(s: Seq<(u64, EntityHandle)>)
    requires
        distinct_ids(s),
    ensures
        map_of(s).dom().finite(),
        map_of(s).dom().len() == s.len(),
    decreases s.len(),
{
    if s.len() == 0 {
        assert forall|id: u64| !has_id(s, id) by {}
        assert(map_of(s).dom() =~= Set::<u64>::empty());
    } else {
        let head = s.drop_last();
        let last = s.last();
        assert(forall|j: int| 0 <= j < head.len() ==> head[j] == s[j]);
        lemma_map_of_len(head);
        if has_id(head, last.0) {
            let i = choose|i: int| 0 <= i < head.len() && head[i].0 == last.0;
            assert(false);
        }
        assert(head.push(last) =~= s);
        lemma_map_of_push(head, last.0, last.1);
        assert(map_of(s).dom() =~= map_of(head).dom().insert(last.0));
        assert(!map_of(head).dom().contains(last.0));
    }
}

/// The registry: identifier-to-handle entries plus the broadcast gate.
pub struct Lobby {
    connected_clients: Vec<(u64, EntityHandle)>,
    changed: bool,
}

impl View for Lobby {
    type V = Map<u64, EntityHandle>;

    open spec fn view(&self) -> Map<u64, EntityHandle> {
        map_of(self.entries())
    }
}

impl Default for Lobby {
    /// A registry that knows no participants and has nothing to broadcast.
    fn default() -> (l: Lobby)
        ensures
            l.wf(),
            l@ == Map::<u64, EntityHandle>::empty(),
            l.entries().len() == 0,
            !l.spec_changed(),
    {
        let l = Lobby { connected_clients: Vec::new(), changed: false };
        proof {
            assert forall|id: u64| !has_id(l.entries(), id) by {}
            assert(l@ =~= Map::<u64, EntityHandle>::empty());
        }
        l
    }
}

impl Lobby {
    /// The entries in registry-iteration order (the order snapshot slots are
    /// filled in; no caller may rely on a particular order).
    pub closed spec fn entries(&self) -> Seq<(u64, EntityHandle)> {
        self.connected_clients@
    }

    /// Whether membership changed since the last broadcast.
    pub closed spec fn spec_changed(&self) -> bool {
        self.changed
    }

    /// Registry invariant: no two entries share an identifier.
    pub open spec fn wf(&self) -> bool {
        distinct_ids(self.entries())
    }

    /// The number of entries equals the mapping's cardinality.
    pub proof fn lemma_len_agrees(&self)
        requires
            self.wf(),
        ensures
            self@.dom().finite(),
            self@.dom().len() == self.entries().len(),
    {
        lemma_map_of_len(self.entries());
    }

    fn position_of(&self, id: u64) -> (r: Option<usize>)
        ensures
            match r {
                Some(k) => k < self.entries().len() && self.entries()[k as int].0 == id,
                None => !has_id(self.entries(), id),
            },
    {
        let n = self.connected_clients.len();
        let mut i: usize = 0;
        while i < n
            invariant
                i <= n,
                n == self.entries().len(),
                forall|j: int| 0 <= j < i ==> self.entries()[j].0 != id,
            decreases n - i,
        {
            if self.connected_clients[i].0 == id {
                return Some(i);
            }
            i += 1;
        }
        None
    }

    /// Whether the participant is currently known here.
    pub fn contains_id(&self, id: u64) -> (r: bool)
        ensures
            r == self@.dom().contains(id),
    {
        match self.position_of(id) {
            Some(k) => {
                proof {
                    assert(has_id(self.entries(), id));
                }
                true
            },
            None => false,
        }
    }

    /// The handle owned for the participant, if it is known here.
    pub fn get_handle(&self, id: u64) -> (r: Option<EntityHandle>)
        requires
            self.wf(),
        ensures
            match r {
                Some(h) => self@.dom().contains(id) && self@[id] == h,
                None => !self@.dom().contains(id),
            },
    {
        match self.position_of(id) {
            Some(k) => {
                proof {
                    lemma_map_of_at(self.entries(), k as int);
                }
                Some(self.connected_clients[k].1)
            },
            None => None,
        }
    }

    /// Number of participants known here.
    pub fn len(&self) -> (n: usize)
        ensures
            n == self.entries().len(),
    {
        self.connected_clients.len()
    }

    /// The raw identifier-to-handle entries, for callers that walk the whole
    /// membership.
    pub fn get_map(&self) -> (r: &Vec<(u64, EntityHandle)>)
        ensures
            r@ == self.entries(),
    {
        &self.connected_clients
    }

    pub(crate) fn set_entries(&mut self, entries: Vec<(u64, EntityHandle)>)
        ensures
            final(self).entries() == entries@,
            final(self).spec_changed() == old(self).spec_changed(),
    {
        self.connected_clients = entries;
    }

    /// Whether a connect or disconnect was recorded since the last broadcast;
    /// the sole gate for network traffic.
    pub fn changed_since_last_broadcast(&self) -> (r: bool)
        ensures
            r == self.spec_changed(),
    {
        self.changed
    }

    /// Lower the broadcast gate again, immediately after a broadcast was
    /// performed.  Membership is untouched.
    pub fn reset_changed(&mut self)
        ensures
            final(self).entries() == old(self).entries(),
            final(self)@ == old(self)@,
            !final(self).spec_changed(),
    {
        self.changed = false;
    }

    /// Record that a participant connected, owning `handle` for it.  If the
    /// identifier was already known the new handle silently replaces the old
    /// one; releasing the prior handle is the caller's responsibility.
    pub fn record_connect(&mut self, id: u64, handle: EntityHandle)
        requires
            old(self).wf(),
        ensures
            final(self).wf(),
            final(self)@ == old(self)@.insert(id, handle),
            final(self).spec_changed(),
            final(self).entries().len() == old(self).entries().len() + (if old(
                self,
            )@.dom().contains(id) {
                0int
            } else {
                1int
            }),
    {
        match self.position_of(id) {
            Some(k) => {
                proof {
                    assert(has_id(self.entries(), id));
                    lemma_map_of_remove(self.entries(), k as int);
                }
                let _ = self.connected_clients.remove(k);
                proof {
                    if has_id(self.entries(), id) {
                        let i = choose|i: int|
                            0 <= i < self.entries().len() && self.entries()[i].0 == id;
                        assert(false);
                    }
                    lemma_map_of_push(self.entries(), id, handle);
                    assert(old(self)@.remove(id).insert(id, handle) =~= old(self)@.insert(
                        id,
                        handle,
                    ));
                }
                self.connected_clients.push((id, handle));
            },
            None => {
                proof {
                    lemma_map_of_push(self.entries(), id, handle);
                }
                self.connected_clients.push((id, handle));
            },
        }
        self.changed = true;
    }

    /// Record that a participant disconnected.  Returns the handle that was
    /// owned for it, which the caller must use to release the representation;
    /// an unknown identifier is a normal, silently ignored case.
    pub fn record_disconnect(&mut self, id: u64) -> (r: Option<EntityHandle>)
        requires
            old(self).wf(),
        ensures
            final(self).wf(),
            final(self)@ == old(self)@.remove(id),
            final(self).spec_changed(),
            match r {
                Some(h) => old(self)@.dom().contains(id) && old(self)@[id] == h,
                None => !old(self)@.dom().contains(id),
            },
            final(self).entries().len() == old(self).entries().len() - (if old(
                self,
            )@.dom().contains(id) {
                1int
            } else {
                0int
            }),
    {
        let r = match self.position_of(id) {
            Some(k) => {
                proof {
                    assert(has_id(self.entries(), id));
                    lemma_map_of_at(self.entries(), k as int);
                    lemma_map_of_remove(self.entries(), k as int);
                }
                let entry = self.connected_clients.remove(k);
                Some(entry.1)
            },
            None => {
                proof {
                    assert(old(self)@.remove(id) =~= old(self)@);
                }
                None
            },
        };
        self.changed = true;
        r
    }

    /// Build the snapshot announcing the current membership: slots are filled
    /// in registry-iteration order, and when the membership exceeds the
    /// capacity the excess participants are silently omitted.
    pub fn generate_sync_packet(&self) -> (s: LobbySync)
        requires
            self.wf(),
        ensures
            s.wf(),
            self@.dom().finite(),
            self@.dom().len() == self.entries().len(),
            s.slots().len() == MAX_CONNECTIONS,
            forall|i: int|
                0 <= i < MAX_CONNECTIONS ==> s.slots()[i] == (if i < self.entries().len() {
                    Some(self.entries()[i].0)
                } else {
                    None::<u64>
                }),
            occupied_count(s.slots()) == (if self.entries().len() <= MAX_CONNECTIONS {
                self.entries().len() as int
            } else {
                MAX_CONNECTIONS as int
            }),
            self.entries().len() <= MAX_CONNECTIONS ==> s.occupied_set() == self@.dom(),
            forall|id: u64| s.occupied_set().contains(id) ==> self@.dom().contains(id),
    {
        let n = self.connected_clients.len();
        let limit = if n < MAX_CONNECTIONS {
            n
        } else {
            MAX_CONNECTIONS
        };
        let mut slots: Vec<Option<u64>> = Vec::new();
        let mut i: usize = 0;
        while i < limit
            invariant
                i <= limit,
                limit <= n,
                limit <= MAX_CONNECTIONS,
                n == self.entries().len(),
                slots@.len() == i,
                forall|j: int| 0 <= j < i ==> slots@[j] == Some(self.entries()[j].0),
            decreases limit - i,
        {
            slots.push(Some(self.connected_clients[i].0));
            i += 1;
        }
        while i < MAX_CONNECTIONS
            invariant
                limit <= i <= MAX_CONNECTIONS,
                limit <= n,
                limit == (if n < MAX_CONNECTIONS {
                    n as int
                } else {
                    MAX_CONNECTIONS as int
                }),
                n == self.entries().len(),
                slots@.len() == i,
                forall|j: int| 0 <= j < limit ==> slots@[j] == Some(self.entries()[j].0),
                forall|j: int| limit <= j < i ==> slots@[j] is None,
            decreases MAX_CONNECTIONS - i,
        {
            slots.push(None);
            i += 1;
        }
        let s = LobbySync { connected_clients: slots };
        proof {
            lemma_map_of_len(self.entries());
            assert forall|a: int, b: int|
                0 <= a < b < s.slots().len() && s.slots()[a] is Some implies s.slots()[a]
                != s.slots()[b] by {
                if b < limit {
                    assert(self.entries()[a].0 != self.entries()[b].0);
                }
            }
            lemma_occupied_count_prefix(s.slots(), limit as int);
            assert forall|id: u64| s.occupied_set().contains(id) implies self@.dom().contains(
                id,
            ) by {
                let k = choose|k: int| 0 <= k < s.slots().len() && s.slots()[k] == Some(id);
                assert(self.entries()[k].0 == id);
                lemma_map_of_at(self.entries(), k);
            }
            if self.entries().len() <= MAX_CONNECTIONS {
                assert forall|id: u64| self@.dom().contains(id) implies s.occupied_set().contains(
                    id,
                ) by {
                    let k = choose|k: int|
                        0 <= k < self.entries().len() && self.entries()[k].0 == id;
                    assert(s.slots()[k] == Some(id));
                    assert(s.slots().contains(Some(id)));
                }
                assert(s.occupied_set() =~= self@.dom());
            }
        }
        s
    }
}

} // verus!
