//! The state that every connection shares: the identifier allocator and the rooms.
use vstd::prelude::*;

use crate::frame::{parse_request, parsed_request};
use crate::ids::{PeerId, PeerIdAllocator};
use crate::messages::{fan_out, Delivery, Outbound};
use crate::registry::{
    after_join, after_leave, is_present, leave_notices, lemma_without_contains, members_of,
    RoomRegistry, Rooms,
};

verus! {

/// The room key for a connection: the room it names, else the default key, which is
/// the empty string.
pub fn room_key(segment: Option<String>) -> (r: String)
    ensures
        r@ == match segment {
            Some(s) => s@,
            None => Seq::<char>::empty(),
        },
{
    match segment {
        Some(s) => s,
        None => String::new(),
    }
}

/// What a new peer is told first: its own identifier, then each member already present.
pub open spec fn welcome(id: PeerId, existing: Seq<PeerId>) -> Seq<Delivery> {
    seq![Delivery { to: id, msg: Outbound::IdAssigned(id) }] + Seq::new(
        existing.len(),
        |i: int| Delivery { to: id, msg: Outbound::PeerJoined(existing[i]) },
    )
}

/// Everything that peer `id` joining room `key` sends: the welcome to the newcomer,
/// then a `PeerJoined` notice to each member already present.
pub open spec fn join_deliveries(m: Rooms, key: Seq<char>, id: PeerId) -> Seq<Delivery> {
    welcome(id, members_of(m, key)) + fan_out(members_of(m, key), Outbound::PeerJoined(id))
}

/// Whether `d` is what a relay request of `from` in room `key`, to `to` with payload
/// `p`, delivers.
pub open spec fn delivers_request(
    d: Delivery,
    m: Rooms,
    key: Seq<char>,
    from: PeerId,
    to: PeerId,
    p: Seq<u8>,
) -> bool {
    if members_of(m, key).contains(to) {
        d.to == to && (d.msg matches Outbound::Relay { from: f, payload } && f == from
            && payload@ == p)
    } else {
        d == (Delivery { to: from, msg: Outbound::RelayError { target: to } })
    }
}

/// The allocator and the registry, behind the one lock that all connections share.
pub struct ServerState {
    ids: PeerIdAllocator,
    rooms: RoomRegistry,
}

impl ServerState {
    /// The rooms and their members.
    pub closed spec fn rooms_view(&self) -> Rooms {
        self.rooms@
    }

    /// The identifier that the next connection gets.
    pub closed spec fn next_id(&self) -> nat {
        self.ids.next_spec()
    }

    /// The registry is well formed and every member's identifier was handed out already.
    pub closed spec fn wf(&self) -> bool {
        &&& self.rooms.wf()
        &&& self.ids.next_spec() >= 1
        &&& forall|p: PeerId| is_present(self.rooms@, p) ==> p < self.ids.next_spec()
    }

    /// No rooms; the first peer gets identifier one.
    pub fn new() -> (r: ServerState)
        ensures
            r.wf(),
            r.rooms_view() == Map::<Seq<char>, Seq<PeerId>>::empty(),
            r.next_id() == 1,
    {
        ServerState { ids: PeerIdAllocator::new(), rooms: RoomRegistry::new() }
    }

    /// Whether room `key` exists.
    pub fn has_room(&self, key: &String) -> (r: bool)
        requires
            self.wf(),
        ensures
            r == self.rooms_view().contains_key(key@),
    {
        self.rooms.has_room(key)
    }

    /// The members of room `key` in join order.
    pub fn members(&self, key: &String) -> (r: Vec<PeerId>)
        requires
            self.wf(),
        ensures
            r@ == members_of(self.rooms_view(), key@),
    {
        self.rooms.members(key)
    }

    /// Admits a new peer to room `key` under a fresh identifier, and returns that
    /// identifier with what the join sends. `None`, with nothing changed, once the
    /// identifiers are exhausted.
    pub fn connect(&mut self, key: &String) -> (r: Option<(PeerId, Vec<Delivery>)>)
        requires
            old(self).wf(),
        ensures
            final(self).wf(),
            r is None <==> old(self).next_id() >= u64::MAX,
            r is None ==> final(self).rooms_view() == old(self).rooms_view() && final(self).next_id()
                == old(self).next_id(),
            r matches Some((id, ds)) ==> {
                &&& id == old(self).next_id()
                &&& final(self).next_id() == old(self).next_id() + 1
                &&& final(self).rooms_view() == after_join(old(self).rooms_view(), key@, id)
                &&& ds@ == join_deliveries(old(self).rooms_view(), key@, id)
            },
    {
        let id = match self.ids.allocate() {
            Some(id) => id,
            None => return None,
        };
        let ghost m = self.rooms@;
        assert(!is_present(m, id));
        let (existing, notices) = self.rooms.join(key, id);
        let mut out: Vec<Delivery> = Vec::new();
        out.push(Delivery { to: id, msg: Outbound::IdAssigned(id) });
        let mut j: usize = 0;
        while j < existing.len()
            invariant
                j <= existing@.len(),
                out@ == welcome(id, existing@.subrange(0, j as int)),
            decreases existing@.len() - j,
        {
            out.push(Delivery { to: id, msg: Outbound::PeerJoined(existing[j]) });
            j = j + 1;
            assert(out@ =~= welcome(id, existing@.subrange(0, j as int)));
        }
        assert(existing@.subrange(0, existing@.len() as int) =~= existing@);
        let mut notices = notices;
        out.append(&mut notices);
        proof {
            assert forall|p: PeerId| is_present(self.rooms@, p) implies p < self.ids.next_spec() by {
                let k2 = choose|k2: Seq<char>| self.rooms@.contains_key(k2) && #[trigger] self.rooms@[k2].contains(p);
                if p != id && k2 == key@ {
                    let t = choose|t: int| 0 <= t < self.rooms@[k2].len() && self.rooms@[k2][t] == p;
                    assert(self.rooms@[k2] == members_of(m, k2).push(id));
                    assert(t < members_of(m, k2).len());
                    assert(members_of(m, k2)[t] == p);
                    assert(m.contains_key(k2) && m[k2].contains(p));
                    assert(is_present(m, p));
                } else if p != id {
                    assert(m.contains_key(k2) && m[k2].contains(p));
                    assert(is_present(m, p));
                }
            }
        }
        Some((id, out))
    }

    /// Handles one frame from peer `from` in room `key`. `None` where the frame is not a
    /// relay request, which ends the session; else the delivery the relay makes.
    pub fn handle_request(&self, key: &String, from: PeerId, frame: &[u8]) -> (r: Option<Delivery>)
        requires
            self.wf(),
        ensures
            r is None <==> parsed_request(frame@) is None,
            r matches Some(d) ==> parsed_request(frame@) matches Some((to, p)) && delivers_request(
                d,
                self.rooms_view(),
                key@,
                from,
                to,
                p,
            ),
    {
        match parse_request(frame) {
            None => None,
            Some((to, payload)) => {
                let d = self.rooms.relay(key, from, to, payload);
                Some(d)
            },
        }
    }

    /// Takes peer `id` out of room `key` and returns a `PeerLeft` notice for each
    /// remaining member. Calling it again for the same peer changes nothing.
    pub fn disconnect(&mut self, key: &String, id: PeerId) -> (r: Vec<Delivery>)
        requires
            old(self).wf(),
        ensures
            final(self).wf(),
            final(self).next_id() == old(self).next_id(),
            final(self).rooms_view() == after_leave(old(self).rooms_view(), key@, id),
            r@ == leave_notices(old(self).rooms_view(), key@, id),
    {
        let ghost m = self.rooms@;
        let r = self.rooms.leave(key, id);
        proof {
            assert forall|p: PeerId| is_present(self.rooms@, p) implies p < self.ids.next_spec() by {
                let k2 = choose|k2: Seq<char>| self.rooms@.contains_key(k2) && #[trigger] self.rooms@[k2].contains(p);
                if k2 == key@ && members_of(m, key@).contains(id) {
                    lemma_without_contains(m[key@], id, p);
                }
                assert(is_present(m, p));
            }
        }
        r
    }
}

impl Default for ServerState {
    /// The same as `ServerState::new`.
    fn default() -> (r: ServerState)
        ensures
            r.wf(),
            r.rooms_view() == Map::<Seq<char>, Seq<PeerId>>::empty(),
            r.next_id() == 1,
    {
        ServerState::new()
    }
}

} // verus!
