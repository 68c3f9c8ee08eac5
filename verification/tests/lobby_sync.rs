use lobby_sync::lobby::Lobby;
use lobby_sync::server::{server_tick, ConnectionEvent};
use lobby_sync::snapshot::{LobbySync, PacketType};
use lobby_sync::{EntityHandle, MAX_CONNECTIONS};

fn handle(raw: u64) -> EntityHandle {
    EntityHandle::new(raw)
}

fn snapshot_of(ids: &[u64]) -> LobbySync {
    assert!(ids.len() <= MAX_CONNECTIONS);
    let mut slots: Vec<Option<u64>> = vec![None; MAX_CONNECTIONS];
    for (i, id) in ids.iter().enumerate() {
        slots[i] = Some(*id);
    }
    LobbySync {
        connected_clients: slots,
    }
}

fn occupied_slots(sync: &LobbySync) -> Vec<u64> {
    sync.connected_clients.iter().flatten().copied().collect()
}

fn reconcile(lobby: &mut Lobby, sync: &LobbySync, next_raw: &mut u64) -> (Vec<EntityHandle>, usize) {
    let despawned = lobby.disconnect_clients(sync);
    let ids = lobby.missing_ids(sync);
    let mut fresh = Vec::new();
    for _ in 0..ids.len() {
        fresh.push(handle(*next_raw));
        *next_raw += 1;
    }
    let spawned = ids.len();
    // disconnect_clients already ran, so only the addition phase is left; the
    // two-phase split mirrors apply_sync and must end in the same state.
    for (id, h) in ids.iter().zip(fresh.iter()) {
        lobby.record_connect(*id, *h);
    }
    (despawned, spawned)
}

#[test]
fn idempotent_reapplication() {
    let mut client = Lobby::default();
    let sync = snapshot_of(&[1, 2]);

    let ids = client.missing_ids(&sync);
    assert_eq!(ids, vec![1, 2]);
    let fresh = vec![handle(100), handle(101)];
    let despawned = client.apply_sync(&sync, &fresh);
    assert!(despawned.is_empty());
    assert_eq!(client.len(), 2);

    // applying the very same snapshot again spawns and despawns nothing
    let ids_again = client.missing_ids(&sync);
    assert!(ids_again.is_empty());
    let despawned_again = client.apply_sync(&sync, &Vec::new());
    assert!(despawned_again.is_empty());
    assert_eq!(client.len(), 2);
    assert_eq!(client.get_handle(1), Some(handle(100)));
    assert_eq!(client.get_handle(2), Some(handle(101)));
}

#[test]
fn set_difference_semantics() {
    let mut client = Lobby::default();
    client.record_connect(1, handle(10));
    client.record_connect(2, handle(20));
    client.record_connect(3, handle(30));

    let sync = snapshot_of(&[3, 4]);
    let ids = client.missing_ids(&sync);
    assert_eq!(ids, vec![4]);
    let despawned = client.apply_sync(&sync, &vec![handle(40)]);

    // removed: locally known minus announced = {1, 2}
    let mut removed: Vec<u64> = despawned.iter().map(|h| h.raw).collect();
    removed.sort();
    assert_eq!(removed, vec![10, 20]);
    // final membership equals exactly the announced set, not an
    // intersection and not a union
    assert_eq!(client.len(), 2);
    assert!(!client.contains_id(1));
    assert!(!client.contains_id(2));
    assert_eq!(client.get_handle(3), Some(handle(30)));
    assert_eq!(client.get_handle(4), Some(handle(40)));
}

#[test]
fn broadcast_gating() {
    let mut server = Lobby::default();

    // no events, nothing ever changed: no snapshot leaves the server
    let (despawned, broadcast) = server_tick(&mut server, &Vec::new(), &Vec::new());
    assert!(despawned.is_empty());
    assert!(broadcast.is_none());

    // a tick with churn broadcasts,
    let events = vec![ConnectionEvent::Connected(9)];
    let (_, broadcast) = server_tick(&mut server, &events, &vec![handle(90)]);
    assert!(broadcast.is_some());

    // and the change flag is reset: a quiet tick stays quiet
    let (_, broadcast) = server_tick(&mut server, &Vec::new(), &Vec::new());
    assert!(broadcast.is_none());
}

#[test]
fn capacity_boundary_full() {
    let mut server = Lobby::default();
    for id in 0..MAX_CONNECTIONS as u64 {
        server.record_connect(id, handle(1000 + id));
    }
    let sync = server.generate_sync_packet();
    assert_eq!(sync.connected_clients.len(), MAX_CONNECTIONS);
    // exactly capacity participants: zero empty slots
    assert!(sync.connected_clients.iter().all(|s| s.is_some()));
    assert_eq!(occupied_slots(&sync).len(), MAX_CONNECTIONS);
}

#[test]
fn capacity_boundary_overflow_truncates() {
    let mut server = Lobby::default();
    let extra = 3;
    for id in 0..(MAX_CONNECTIONS + extra) as u64 {
        server.record_connect(id, handle(1000 + id));
    }
    // capacity + k participants: exactly capacity occupied slots, no failure
    let sync = server.generate_sync_packet();
    let announced = occupied_slots(&sync);
    assert_eq!(announced.len(), MAX_CONNECTIONS);
    for id in announced {
        assert!(server.contains_id(id));
    }
}

#[test]
fn event_order_within_tick() {
    let mut server = Lobby::default();
    let events = vec![
        ConnectionEvent::Connected(5),
        ConnectionEvent::Disconnected(5),
    ];
    let (despawned, broadcast) = server_tick(&mut server, &events, &vec![handle(50)]);
    // connect processed before the later disconnect of the same id
    assert!(!server.contains_id(5));
    assert_eq!(server.len(), 0);
    assert_eq!(despawned, vec![handle(50)]);
    // churn happened, so a (now empty) snapshot still goes out
    let sync = broadcast.expect("membership churned");
    assert!(occupied_slots(&sync).is_empty());
}

#[test]
fn end_to_end_server_connect() {
    let mut server = Lobby::default();
    assert!(!server.changed_since_last_broadcast());

    // drain the one Connected event by hand to observe the change flag
    server.record_connect(7, handle(707));
    assert!(server.changed_since_last_broadcast());

    let sync = server.generate_sync_packet();
    server.reset_changed();
    assert_eq!(occupied_slots(&sync), vec![7]);
    assert!(sync.announces(7));
    assert!(!sync.announces(8));
    assert!(!server.changed_since_last_broadcast());
}

#[test]
fn end_to_end_client_swap() {
    let mut client = Lobby::default();
    client.record_connect(3, handle(333));

    let sync = snapshot_of(&[5]);
    let ids = client.missing_ids(&sync);
    assert_eq!(ids, vec![5]);
    let despawned = client.apply_sync(&sync, &vec![handle(555)]);

    assert_eq!(despawned, vec![handle(333)]);
    assert!(!client.contains_id(3));
    assert_eq!(client.get_handle(5), Some(handle(555)));
    assert_eq!(client.len(), 1);
}

#[test]
fn end_to_end_duplicate_snapshot_is_noop() {
    let mut client = Lobby::default();
    let mut next_raw = 1000;

    let first = snapshot_of(&[1, 2]);
    let (despawned, spawned) = reconcile(&mut client, &first, &mut next_raw);
    assert!(despawned.is_empty());
    assert_eq!(spawned, 2);
    let h1 = client.get_handle(1);
    let h2 = client.get_handle(2);

    // the identical follow-up snapshot produces zero spawns and despawns
    let second = snapshot_of(&[1, 2]);
    let (despawned, spawned) = reconcile(&mut client, &second, &mut next_raw);
    assert!(despawned.is_empty());
    assert_eq!(spawned, 0);
    assert_eq!(client.len(), 2);
    assert_eq!(client.get_handle(1), h1);
    assert_eq!(client.get_handle(2), h2);
}

#[test]
fn codec_round_trip() {
    let sync = snapshot_of(&[42, 7, u64::MAX, 0]);
    let bytes = sync.encode_bytes();
    let decoded = LobbySync::decode_bytes(&bytes).expect("well-formed wire bytes");
    assert_eq!(decoded.connected_clients, sync.connected_clients);

    let empty = LobbySync::default();
    let bytes = empty.encode_bytes();
    let decoded = LobbySync::decode_bytes(&bytes).expect("well-formed wire bytes");
    assert_eq!(decoded.connected_clients, empty.connected_clients);
}

#[test]
fn decode_rejects_malformed_input() {
    // too short: one slot missing entirely
    let bytes = vec![0u8; MAX_CONNECTIONS - 1];
    assert!(LobbySync::decode_bytes(&bytes).is_none());

    // trailing garbage after a complete snapshot
    let mut bytes = LobbySync::default().encode_bytes();
    bytes.push(0);
    assert!(LobbySync::decode_bytes(&bytes).is_none());

    // a presence flag that is neither vacant nor occupied
    let mut bytes = LobbySync::default().encode_bytes();
    bytes[0] = 2;
    assert!(LobbySync::decode_bytes(&bytes).is_none());

    // an occupied flag with too few identifier bytes behind it
    let mut bytes = vec![0u8; MAX_CONNECTIONS];
    bytes[MAX_CONNECTIONS - 1] = 1;
    assert!(LobbySync::decode_bytes(&bytes).is_none());

    // empty input
    assert!(LobbySync::decode_bytes(&Vec::new()).is_none());
}

#[test]
fn content_size_is_exact() {
    let empty = LobbySync::default();
    assert_eq!(empty.get_content_size(), MAX_CONNECTIONS as u128);
    assert_eq!(empty.encode_bytes().len() as u128, empty.get_content_size());

    let one = snapshot_of(&[99]);
    assert_eq!(one.get_content_size(), (MAX_CONNECTIONS + 8) as u128);
    assert_eq!(one.encode_bytes().len() as u128, one.get_content_size());

    let full = snapshot_of(&(0..MAX_CONNECTIONS as u64).collect::<Vec<_>>());
    assert_eq!(full.get_content_size(), (MAX_CONNECTIONS + 8 * MAX_CONNECTIONS) as u128);
    assert_eq!(full.encode_bytes().len() as u128, full.get_content_size());
}

fn to_array(sync: &LobbySync) -> [Option<u64>; MAX_CONNECTIONS] {
    let mut arr = [None; MAX_CONNECTIONS];
    for (i, slot) in sync.connected_clients.iter().enumerate() {
        arr[i] = *slot;
    }
    arr
}

#[test]
fn wire_format_matches_bincode() {
    for sync in [
        LobbySync::default(),
        snapshot_of(&[1]),
        snapshot_of(&[258, 77, u64::MAX]),
        snapshot_of(&(100..100 + MAX_CONNECTIONS as u64).collect::<Vec<_>>()),
    ] {
        let arr = to_array(&sync);
        let reference = bincode::serialize(&arr).expect("bincode serializes the array");
        assert_eq!(sync.encode_bytes(), reference);
        assert_eq!(
            sync.get_content_size(),
            u128::from(bincode::serialized_size(&arr).expect("size is computable"))
        );
        let back: [Option<u64>; MAX_CONNECTIONS] =
            bincode::deserialize(&sync.encode_bytes()).expect("bincode reads our bytes");
        assert_eq!(back, arr);
    }
}

#[test]
fn disconnect_of_unknown_id_is_ignored() {
    let mut server = Lobby::default();
    server.record_connect(4, handle(44));
    assert_eq!(server.record_disconnect(17), None);
    assert_eq!(server.len(), 1);
    assert_eq!(server.record_disconnect(4), Some(handle(44)));
    assert_eq!(server.len(), 0);
    assert_eq!(server.record_disconnect(4), None);
}

#[test]
fn reconnect_replaces_handle() {
    let mut server = Lobby::default();
    server.record_connect(6, handle(60));
    server.record_connect(6, handle(61));
    assert_eq!(server.len(), 1);
    assert_eq!(server.get_handle(6), Some(handle(61)));
}

#[test]
fn snapshot_packet_type_tag() {
    assert_eq!(LobbySync::get_packet_type(), PacketType::LobbySync);
}

#[test]
fn get_map_exposes_entries() {
    let mut server = Lobby::default();
    server.record_connect(2, handle(20));
    server.record_connect(9, handle(90));
    let entries = server.get_map();
    assert_eq!(entries.len(), 2);
    assert!(entries.contains(&(2, handle(20))));
    assert!(entries.contains(&(9, handle(90))));
}
