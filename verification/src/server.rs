//! Server-side reconciliation: once per tick, drain the connection lifecycle
//! events in arrival order, apply each to the authoritative registry, and —
//! only when membership actually changed — emit a fresh snapshot for
//! broadcast, lowering the change flag again.

use vstd::prelude::*;

use crate::lobby::Lobby;
use crate::snapshot::{occupied_count, LobbySync};
use crate::{EntityHandle, MAX_CONNECTIONS};

verus! {

/// One connection lifecycle notification from the transport layer.
#[derive(Clone, Copy, PartialEq, Eq, Structural, Debug)]
pub enum ConnectionEvent {
    Connected(u64),
    Disconnected(u64),
}

/// How many of the events announce a connection; each consumes one fresh
/// placeholder handle.
pub open spec fn connect_count(events: Seq<ConnectionEvent>) -> nat
    decreases events.len(),
{
    if events.len() == 0 {
        0
    } else {
        connect_count(events.drop_last()) + (if events.last() is Connected {
            1nat
        } else {
            0nat
        })
    }
}

/// The registry mapping after the events are applied in order to `m`; the
/// `k`-th connect event records the `k`-th fresh handle.
pub open spec fn apply_events(
    m: Map<u64, EntityHandle>,
    events: Seq<ConnectionEvent>,
    fresh: Seq<EntityHandle>,
) -> Map<u64, EntityHandle>
    decreases events.len(),
{
    if events.len() == 0 {
        m
    } else {
        let prev = apply_events(m, events.drop_last(), fresh);
        match events.last() {
            ConnectionEvent::Connected(id) => prev.insert(
                id,
                fresh[connect_count(events.drop_last()) as int],
            ),
            ConnectionEvent::Disconnected(id) => prev.remove(id),
        }
    }
}

/// The handles released while the events are applied in order to `m`: the
/// handle of each disconnecting participant that was known when its event
/// arrived.
pub open spec fn despawned_by(
    m: Map<u64, EntityHandle>,
    events: Seq<ConnectionEvent>,
    fresh: Seq<EntityHandle>,
) -> Seq<EntityHandle>
    decreases events.len(),
{
    if events.len() == 0 {
        Seq::empty()
    } else {
        let prev_map = apply_events(m, events.drop_last(), fresh);
        let prev = despawned_by(m, events.drop_last(), fresh);
        match events.last() {
            ConnectionEvent::Connected(id) => prev,
            ConnectionEvent::Disconnected(id) => if prev_map.dom().contains(id) {
                prev.push(prev_map[id])
            } else {
                prev
            },
        }
    }
}

/// No prefix announces more connections than the whole event sequence.
proof fn lemma_connect_count_prefix(events: Seq<ConnectionEvent>, j: int)
    requires
        0 <= j <= events.len(),
    ensures
        connect_count(events.take(j)) <= connect_count(events),
    decreases events.len(),
{
    if j == events.len() {
        assert(events.take(j) =~= events);
    } else {
        let head = events.drop_last();
        assert(head.take(j) =~= events.take(j));
        lemma_connect_count_prefix(head, j);
    }
}

/// How many fresh placeholder handles a tick over these events will need:
/// one per connect event.
pub fn count_connects(events: &Vec<ConnectionEvent>) -> (count: usize)
    ensures
        count == connect_count(events@),
{
    let n = events.len();
    let mut count: usize = 0;
    let mut i: usize = 0;
    while i < n
        invariant
            i <= n,
            n == events@.len(),
            count == connect_count(events@.take(i as int)),
            count <= i,
        decreases n - i,
    {
        proof {
            assert(events@.take(i + 1).drop_last() =~= events@.take(i as int));
            assert(events@.take(i + 1).last() == events@[i as int]);
        }
        match events[i] {
            ConnectionEvent::Connected(_) => {
                count += 1;
            },
            ConnectionEvent::Disconnected(_) => {},
        }
        i += 1;
    }
    proof {
        assert(events@.take(n as int) =~= events@);
    }
    count
}

/// One scheduling tick of the server driver.  Drains `events` in arrival
/// order, recording one fresh placeholder handle per connect event, and
/// returns the handles the caller must despawn together with the snapshot to
/// broadcast — present exactly when membership churned, the sole gate for
/// network traffic.  After a broadcast the change flag is lowered again.
pub fn server_tick(lobby: &mut Lobby, events: &Vec<ConnectionEvent>, fresh: &Vec<
    EntityHandle,
>) -> (r: (Vec<EntityHandle>, Option<LobbySync>))
    requires
        old(lobby).wf(),
        fresh@.len() == connect_count(events@),
    ensures
        final(lobby).wf(),
        final(lobby)@ == apply_events(old(lobby)@, events@, fresh@),
        final(lobby)@.dom().finite(),
        final(lobby)@.dom().len() == final(lobby).entries().len(),
        !final(lobby).spec_changed(),
        r.0@ == despawned_by(old(lobby)@, events@, fresh@),
        (r.1 is Some) <==> (old(lobby).spec_changed() || events@.len() > 0),
        match r.1 {
            Some(sync) => {
                &&& sync.wf()
                &&& sync.slots().len() == MAX_CONNECTIONS
                &&& (final(lobby).entries().len() <= MAX_CONNECTIONS ==> sync.occupied_set()
                    == final(lobby)@.dom())
                &&& forall|id: u64|
                    sync.occupied_set().contains(id) ==> final(lobby)@.dom().contains(id)
                &&& occupied_count(sync.slots()) == (if final(lobby).entries().len()
                    <= MAX_CONNECTIONS {
                    final(lobby).entries().len() as int
                } else {
                    MAX_CONNECTIONS as int
                })
            },
            None => final(lobby)@ == old(lobby)@,
        },
{
    let ghost m0 = old(lobby)@;
    let ghost changed0 = old(lobby).spec_changed();
    let n = events.len();
    let fresh_len = fresh.len();
    let mut despawned: Vec<EntityHandle> = Vec::new();
    let mut used: usize = 0;
    let mut i: usize = 0;
    while i < n
        invariant
            i <= n,
            n == events@.len(),
            fresh@.len() == connect_count(events@),
            fresh@.len() == fresh_len,
            lobby.wf(),
            lobby@ == apply_events(m0, events@.take(i as int), fresh@),
            used == connect_count(events@.take(i as int)),
            used <= fresh@.len(),
            despawned@ == despawned_by(m0, events@.take(i as int), fresh@),
            lobby.spec_changed() == (changed0 || i > 0),
        decreases n - i,
    {
        proof {
            assert(events@.take(i + 1).drop_last() =~= events@.take(i as int));
            assert(events@.take(i + 1).last() == events@[i as int]);
            lemma_connect_count_prefix(events@, i + 1);
        }
        match events[i] {
            ConnectionEvent::Connected(id) => {
                proof {
                    assert(connect_count(events@.take(i + 1)) == used + 1);
                    assert(used < fresh@.len());
                }
                lobby.record_connect(id, fresh[used]);
                used += 1;
            },
            ConnectionEvent::Disconnected(id) => {
                match lobby.record_disconnect(id) {
                    Some(h) => despawned.push(h),
                    None => {},
                }
            },
        }
        i += 1;
    }
    proof {
        assert(events@.take(n as int) =~= events@);
        lobby.lemma_len_agrees();
    }
    if lobby.changed_since_last_broadcast() {
        let sync = lobby.generate_sync_packet();
        lobby.reset_changed();
        (despawned, Some(sync))
    } else {
        (despawned, None)
    }
}

} // verus!
