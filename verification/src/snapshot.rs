//! The snapshot and its wire codec.
//!
//! A snapshot is the server's full membership listing at one instant: a
//! fixed-capacity sequence of optional participant identifiers.  On the wire
//! each slot is a one-byte presence flag followed, when the slot is occupied,
//! by the identifier as eight little-endian bytes.

use vstd::bytes::{
    lemma_auto_spec_u64_to_from_le_bytes, spec_u64_from_le_bytes, spec_u64_to_le_bytes,
    u64_from_le_bytes, u64_to_le_bytes,
};
use vstd::prelude::*;
use vstd::slice::slice_subrange;

use crate::MAX_CONNECTIONS;

verus! {

/// The set of identifiers announced by a sequence of slots.
pub open spec fn occupied_ids(slots: Seq<Option<u64>>) -> Set<u64> {
    Set::new(|id: u64| slots.contains(Some(id)))
}

/// How many slots of the sequence are occupied.
pub open spec fn occupied_count(slots: Seq<Option<u64>>) -> nat
    decreases slots.len(),
{
    if slots.len() == 0 {
        0
    } else {
        occupied_count(slots.drop_last()) + (if slots.last() is Some {
            1nat
        } else {
            0nat
        })
    }
}

/// When exactly the first `k` slots are occupied, `k` is the occupied count.
pub proof fn lemma_occupied_count_prefix(slots: Seq<Option<u64>>, k: int)
    requires
        0 <= k <= slots.len(),
        forall|i: int| 0 <= i < slots.len() ==> (slots[i] is Some <==> i < k),
    ensures
        occupied_count(slots) == k,
    decreases slots.len(),
{
    if slots.len() > 0 {
        let head = slots.drop_last();
        assert(forall|i: int| 0 <= i < head.len() ==> head[i] == slots[i]);
        if k == slots.len() {
            lemma_occupied_count_prefix(head, k - 1);
        } else {
            lemma_occupied_count_prefix(head, k);
        }
    }
}

/// A full membership snapshot, broadcast by the server after membership churn.
pub struct LobbySync {
    /// Exactly `MAX_CONNECTIONS` slots when well formed; occupied slots hold
    /// pairwise distinct identifiers.
    pub connected_clients: Vec<Option<u64>>,
}

impl LobbySync {
    pub open spec fn slots(&self) -> Seq<Option<u64>> {
        self.connected_clients@
    }

    /// The set of identifiers this snapshot announces.
    pub open spec fn occupied_set(&self) -> Set<u64> {
        occupied_ids(self.slots())
    }

    /// Well-formedness: full capacity, and no identifier announced twice.
    pub open spec fn wf(&self) -> bool {
        &&& self.slots().len() == MAX_CONNECTIONS
        &&& forall|i: int, j: int|
            0 <= i < j < self.slots().len() && self.slots()[i] is Some ==> self.slots()[i]
                != self.slots()[j]
    }
}

/// Tag identifying a message's kind to the packet framing layer.
#[derive(Clone, Copy, PartialEq, Eq, Structural, Debug)]
pub enum PacketType {
    LobbySync,
}

impl LobbySync {
    /// The tag under which snapshots travel on the wire.
    pub fn get_packet_type() -> (t: PacketType)
        ensures
            t == PacketType::LobbySync,
    {
        PacketType::LobbySync
    }

    /// Whether this snapshot announces the participant as connected.
    pub fn announces(&self, id: u64) -> (r: bool)
        ensures
            r == self.occupied_set().contains(id),
    {
        let n = self.connected_clients.len();
        let mut i: usize = 0;
        while i < n
            invariant
                i <= n,
                n == self.slots().len(),
                forall|j: int| 0 <= j < i ==> self.slots()[j] != Some(id),
            decreases n - i,
        {
            match self.connected_clients[i] {
                Some(x) => {
                    if x == id {
                        proof {
                            assert(self.slots().contains(Some(id)));
                        }
                        return true;
                    }
                },
                None => {},
            }
            i += 1;
        }
        proof {
            if self.slots().contains(Some(id)) {
                let j = choose|j: int| 0 <= j < self.slots().len() && self.slots()[j] == Some(id);
                assert(false);
            }
        }
        false
    }
}

impl Default for LobbySync {
    /// An empty snapshot: every slot vacant.
    fn default() -> (s: LobbySync)
        ensures
            s.slots() =~= Seq::new(MAX_CONNECTIONS as nat, |i: int| None::<u64>),
            s.wf(),
            s.occupied_set() =~= Set::<u64>::empty(),
    {
        let mut slots: Vec<Option<u64>> = Vec::new();
        let mut i: usize = 0;
        while i < MAX_CONNECTIONS
            invariant
                i <= MAX_CONNECTIONS,
                slots@.len() == i,
                forall|j: int| 0 <= j < i ==> slots@[j] is None,
            decreases MAX_CONNECTIONS - i,
        {
            slots.push(None);
            i += 1;
        }
        let s = LobbySync { connected_clients: slots };
        proof {
            assert forall|id: u64| !s.slots().contains(Some(id)) by {
                assert(forall|j: int| 0 <= j < s.slots().len() ==> s.slots()[j] is None);
            }
        }
        s
    }
}

/// Wire form of one slot: a presence flag, then the identifier little-endian
/// when the slot is occupied.
pub open spec fn slot_bytes(slot: Option<u64>) -> Seq<u8> {
    match slot {
        None => seq![0u8],
        Some(id) => seq![1u8] + spec_u64_to_le_bytes(id),
    }
}

/// Wire form of a whole slot sequence: the slots' encodings, in order.
pub open spec fn wire_bytes(slots: Seq<Option<u64>>) -> Seq<u8>
    decreases slots.len(),
{
    if slots.len() == 0 {
        Seq::empty()
    } else {
        wire_bytes(slots.drop_last()) + slot_bytes(slots.last())
    }
}

/// The wire form of a slot sequence occupies one byte per slot plus eight
/// bytes per occupied slot.
pub proof fn lemma_wire_bytes_len(slots: Seq<Option<u64>>)
    ensures
        wire_bytes(slots).len() == slots.len() + 8 * occupied_count(slots),
    decreases slots.len(),
{
    if slots.len() > 0 {
        lemma_wire_bytes_len(slots.drop_last());
        lemma_auto_spec_u64_to_from_le_bytes();
    }
}

impl LobbySync {
    /// Exact number of bytes the snapshot occupies on the wire; computing it
    /// never fails.
    pub fn get_content_size(&self) -> (size: u128)
        ensures
            size == wire_bytes(self.slots()).len(),
    {
        let mut occupied: usize = 0;
        let mut i: usize = 0;
        let n = self.connected_clients.len();
        while i < n
            invariant
                i <= n,
                n == self.slots().len(),
                occupied == occupied_count(self.slots().take(i as int)),
                occupied <= i,
            decreases n - i,
        {
            proof {
                assert(self.slots().take(i + 1).drop_last() =~= self.slots().take(i as int));
                assert(self.slots().take(i + 1).last() == self.slots()[i as int]);
            }
            if self.connected_clients[i].is_some() {
                occupied += 1;
            }
            i += 1;
        }
        proof {
            assert(self.slots().take(n as int) =~= self.slots());
            lemma_wire_bytes_len(self.slots());
        }
        (n as u128) + 8 * (occupied as u128)
    }

    /// Serialize the snapshot into its exact wire form.
    pub fn encode_bytes(&self) -> (bytes: Vec<u8>)
        ensures
            bytes@ == wire_bytes(self.slots()),
    {
        let mut out: Vec<u8> = Vec::new();
        let mut i: usize = 0;
        let n = self.connected_clients.len();
        while i < n
            invariant
                i <= n,
                n == self.slots().len(),
                out@ == wire_bytes(self.slots().take(i as int)),
            decreases n - i,
        {
            proof {
                assert(self.slots().take(i + 1).drop_last() =~= self.slots().take(i as int));
                assert(self.slots().take(i + 1).last() == self.slots()[i as int]);
            }
            match self.connected_clients[i] {
                None => {
                    out.push(0u8);
                    proof {
                        assert(out@ =~= wire_bytes(self.slots().take(i as int)) + slot_bytes(
                            self.slots()[i as int],
                        ));
                    }
                },
                Some(id) => {
                    out.push(1u8);
                    let mut id_bytes = u64_to_le_bytes(id);
                    out.append(&mut id_bytes);
                    proof {
                        assert(out@ =~= wire_bytes(self.slots().take(i as int)) + slot_bytes(
                            self.slots()[i as int],
                        ));
                    }
                },
            }
            i += 1;
        }
        proof {
            assert(self.slots().take(n as int) =~= self.slots());
        }
        out
    }
}

/// Spec-level parser for `n` consecutive wire slots; yields the slots exactly
/// when the bytes are a complete, well-formed encoding of `n` slots.
pub open spec fn parse_slots(bytes: Seq<u8>, n: nat) -> Option<Seq<Option<u64>>>
    decreases n,
{
    if n == 0 {
        if bytes.len() == 0 {
            Some(Seq::empty())
        } else {
            None
        }
    } else if bytes.len() == 0 {
        None
    } else if bytes[0] == 0u8 {
        match parse_slots(bytes.drop_first(), (n - 1) as nat) {
            Some(rest) => Some(seq![None::<u64>] + rest),
            None => None,
        }
    } else if bytes[0] == 1u8 && bytes.len() >= 9 {
        let id = spec_u64_from_le_bytes(bytes.subrange(1, 9));
        match parse_slots(bytes.skip(9), (n - 1) as nat) {
            Some(rest) => Some(seq![Some(id)] + rest),
            None => None,
        }
    } else {
        None
    }
}

/// The wire form can also be peeled off at the front.
proof fn lemma_wire_bytes_first(slots: Seq<Option<u64>>)
    requires
        slots.len() > 0,
    ensures
        wire_bytes(slots) == slot_bytes(slots[0]) + wire_bytes(slots.drop_first()),
    decreases slots.len(),
{
    if slots.len() == 1 {
        assert(slots.drop_last() =~= Seq::empty());
        assert(slots.drop_first() =~= Seq::empty());
        assert(wire_bytes(slots) =~= slot_bytes(slots[0]) + wire_bytes(slots.drop_first()));
    } else {
        let head = slots.drop_last();
        lemma_wire_bytes_first(head);
        assert(slots.drop_first().drop_last() =~= head.drop_first());
        assert(slots.drop_first().last() == slots.last());
        assert(wire_bytes(slots) =~= slot_bytes(slots[0]) + wire_bytes(slots.drop_first()));
    }
}

/// Parsing a complete wire form yields the encoded slots back: the codec
/// round-trips.
pub proof fn lemma_parse_wire_bytes(slots: Seq<Option<u64>>)
    ensures
        parse_slots(wire_bytes(slots), slots.len()) == Some(slots),
    decreases slots.len(),
{
    lemma_auto_spec_u64_to_from_le_bytes();
    if slots.len() > 0 {
        let bytes = wire_bytes(slots);
        let tail = slots.drop_first();
        lemma_wire_bytes_first(slots);
        lemma_parse_wire_bytes(tail);
        match slots[0] {
            None => {
                assert(bytes[0] == 0u8);
                assert(bytes.drop_first() =~= wire_bytes(tail));
                assert(seq![None::<u64>] + tail =~= slots);
            },
            Some(id) => {
                assert(bytes[0] == 1u8);
                assert(bytes.len() >= 9) by {
                    lemma_wire_bytes_len(tail);
                }
                assert(bytes.subrange(1, 9) =~= spec_u64_to_le_bytes(id));
                assert(bytes.skip(9) =~= wire_bytes(tail));
                assert(seq![Some(id)] + tail =~= slots);
            },
        }
    }
}

/// A successful parse consumes the bytes exactly: they are the wire form of
/// the slots it yields.
pub proof fn lemma_parse_sound(bytes: Seq<u8>, n: nat, slots: Seq<Option<u64>>)
    requires
        parse_slots(bytes, n) == Some(slots),
    ensures
        slots.len() == n,
        bytes == wire_bytes(slots),
    decreases n,
{
    lemma_auto_spec_u64_to_from_le_bytes();
    if n == 0 {
        assert(bytes =~= wire_bytes(slots));
    } else if bytes[0] == 0u8 {
        let rest = parse_slots(bytes.drop_first(), (n - 1) as nat)->Some_0;
        lemma_parse_sound(bytes.drop_first(), (n - 1) as nat, rest);
        lemma_wire_bytes_first(slots);
        assert(slots.drop_first() =~= rest);
        assert(bytes =~= slot_bytes(slots[0]) + wire_bytes(slots.drop_first()));
    } else {
        let id = spec_u64_from_le_bytes(bytes.subrange(1, 9));
        let rest = parse_slots(bytes.skip(9), (n - 1) as nat)->Some_0;
        lemma_parse_sound(bytes.skip(9), (n - 1) as nat, rest);
        lemma_wire_bytes_first(slots);
        assert(slots.drop_first() =~= rest);
        assert(slot_bytes(slots[0]) =~= seq![1u8] + spec_u64_to_le_bytes(id));
        assert(bytes =~= slot_bytes(slots[0]) + wire_bytes(slots.drop_first()));
    }
}

/// `pre` prepended to the slots of a parse result, when it succeeded.
spec fn opt_prepend(pre: Seq<Option<u64>>, r: Option<Seq<Option<u64>>>) -> Option<
    Seq<Option<u64>>,
> {
    match r {
        Some(s) => Some(pre + s),
        None => None,
    }
}

impl LobbySync {
    /// Deserialize a snapshot from its wire form.  Returns `None` exactly on
    /// malformed input (a bad presence flag, or too few or too many bytes),
    /// which a receiver discards.
    pub fn decode_bytes(bytes: &Vec<u8>) -> (r: Option<LobbySync>)
        ensures
            match r {
                Some(s) => {
                    &&& parse_slots(bytes@, MAX_CONNECTIONS as nat) == Some(s.slots())
                    &&& s.slots().len() == MAX_CONNECTIONS
                    &&& bytes@ == wire_bytes(s.slots())
                },
                None => parse_slots(bytes@, MAX_CONNECTIONS as nat) is None,
            },
    {
        let ghost all = bytes@;
        let mut acc: Vec<Option<u64>> = Vec::new();
        let mut pos: usize = 0;
        let mut i: usize = 0;
        proof {
            assert(all.skip(0) =~= all);
            match parse_slots(all, MAX_CONNECTIONS as nat) {
                Some(sl) => {
                    assert(acc@ + sl =~= sl);
                },
                None => {},
            }
        }
        while i < MAX_CONNECTIONS
            invariant
                i <= MAX_CONNECTIONS,
                pos <= bytes@.len(),
                all == bytes@,
                acc@.len() == i,
                parse_slots(all, MAX_CONNECTIONS as nat) == opt_prepend(
                    acc@,
                    parse_slots(all.skip(pos as int), (MAX_CONNECTIONS - i) as nat),
                ),
            decreases MAX_CONNECTIONS - i,
        {
            let ghost rem = all.skip(pos as int);
            let ghost k = (MAX_CONNECTIONS - i) as nat;
            if pos >= bytes.len() {
                proof {
                    assert(rem.len() == 0);
                    assert(parse_slots(rem, k) is None);
                }
                return None;
            }
            let tag = bytes[pos];
            if tag == 0u8 {
                proof {
                    assert(rem[0] == 0u8);
                    assert(rem.drop_first() =~= all.skip(pos + 1));
                    match parse_slots(all.skip(pos + 1), (k - 1) as nat) {
                        Some(rest) => {
                            assert(acc@ + (seq![None::<u64>] + rest) =~= acc@.push(None) + rest);
                        },
                        None => {},
                    }
                }
                acc.push(None);
                pos += 1;
            } else if tag == 1u8 && bytes.len() - pos >= 9 {
                let id_slice = slice_subrange(bytes.as_slice(), pos + 1, pos + 9);
                let id = u64_from_le_bytes(id_slice);
                proof {
                    assert(rem[0] == 1u8 && rem.len() >= 9);
                    assert(rem.subrange(1, 9) =~= all.subrange(pos + 1, pos + 9));
                    assert(rem.skip(9) =~= all.skip(pos + 9));
                    match parse_slots(all.skip(pos + 9), (k - 1) as nat) {
                        Some(rest) => {
                            assert(acc@ + (seq![Some(id)] + rest) =~= acc@.push(Some(id)) + rest);
                        },
                        None => {},
                    }
                }
                acc.push(Some(id));
                pos += 9;
            } else {
                proof {
                    assert(rem[0] == tag);
                    if tag == 1u8 {
                        assert(rem.len() < 9);
                    }
                    assert(parse_slots(rem, k) is None);
                }
                return None;
            }
            i += 1;
        }
        if pos != bytes.len() {
            proof {
                assert(all.skip(pos as int).len() > 0);
                assert(parse_slots(all.skip(pos as int), 0) is None);
            }
            return None;
        }
        proof {
            assert(all.skip(pos as int).len() == 0);
            assert(parse_slots(all.skip(pos as int), 0) == Some(Seq::<Option<u64>>::empty()));
            assert(acc@ + Seq::<Option<u64>>::empty() =~= acc@);
            lemma_parse_sound(all, MAX_CONNECTIONS as nat, acc@);
        }
        Some(LobbySync { connected_clients: acc })
    }
}

} // verus!
