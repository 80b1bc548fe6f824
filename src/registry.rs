//! The room registry: which peers are in which room, keyed by room key.
//!
//! Its abstract state is a map from room key to the room's members in the order in
//! which they joined. A room is in the map exactly while it has a member.
use vstd::prelude::*;

use crate::ids::PeerId;
use crate::messages::{fan_out, notify_all, Delivery, Outbound};

verus! {

broadcast use vstd::seq_lib::group_filter_ensures;

/// The abstract state of a registry: room key to members in join order.
pub type Rooms = Map<Seq<char>, Seq<PeerId>>;

/// The members of room `key`; empty where there is no such room.
pub open spec fn members_of(m: Rooms, key: Seq<char>) -> Seq<PeerId> {
    if m.contains_key(key) {
        m[key]
    } else {
        Seq::empty()
    }
}

/// Whether `p` is a member of some room.
pub open spec fn is_present(m: Rooms, p: PeerId) -> bool {
    exists|k: Seq<char>| m.contains_key(k) && #[trigger] m[k].contains(p)
}

/// Every room has a member, no peer is listed twice, and no peer is in two rooms.
pub open spec fn rooms_wf(m: Rooms) -> bool {
    &&& forall|k: Seq<char>| #[trigger]
        m.contains_key(k) ==> m[k].len() > 0 && m[k].no_duplicates()
    &&& forall|k1: Seq<char>, k2: Seq<char>, p: PeerId|
        m.contains_key(k1) && m.contains_key(k2) && #[trigger] m[k1].contains(p)
            && #[trigger] m[k2].contains(p) ==> k1 == k2
}

/// `s` with every occurrence of `p` taken out, the rest in order.
pub open spec fn without(s: Seq<PeerId>, p: PeerId) -> Seq<PeerId> {
    s.filter(|x: PeerId| x != p)
}

/// The rooms after `p` joins room `key`, which is created if it does not exist.
pub open spec fn after_join(m: Rooms, key: Seq<char>, p: PeerId) -> Rooms {
    m.insert(key, members_of(m, key).push(p))
}

/// The rooms after `p` leaves room `key`: nothing changes unless `p` is a member;
/// the room goes away when its last member leaves.
pub open spec fn after_leave(m: Rooms, key: Seq<char>, p: PeerId) -> Rooms {
    if !members_of(m, key).contains(p) {
        m
    } else if without(members_of(m, key), p).len() == 0 {
        m.remove(key)
    } else {
        m.insert(key, without(members_of(m, key), p))
    }
}

/// What a relay from `from` to `to` in room `key` delivers: the payload to `to` when it
/// is a member of that room, else an addressing error back to `from`.
pub open spec fn relay_outcome(
    m: Rooms,
    key: Seq<char>,
    from: PeerId,
    to: PeerId,
    payload: Vec<u8>,
) -> Delivery {
    if members_of(m, key).contains(to) {
        Delivery { to, msg: Outbound::Relay { from, payload } }
    } else {
        Delivery { to: from, msg: Outbound::RelayError { target: to } }
    }
}

/// The notices that `p` leaving room `key` sends: one to each remaining member.
pub open spec fn leave_notices(m: Rooms, key: Seq<char>, p: PeerId) -> Seq<Delivery> {
    if members_of(m, key).contains(p) {
        fan_out(members_of(after_leave(m, key, p), key), Outbound::PeerLeft(p))
    } else {
        Seq::empty()
    }
}

/// Taking `p` out of a list without repeats leaves a list without repeats.
pub proof fn lemma_without_no_duplicates(s: Seq<PeerId>, p: PeerId)
    requires
        s.no_duplicates(),
    ensures
        without(s, p).no_duplicates(),
    decreases s.len(),
{
    reveal(Seq::filter);
    if s.len() > 0 {
        let rest = s.drop_last();
        assert(rest.no_duplicates());
        lemma_without_no_duplicates(rest, p);
        if s.last() != p {
            assert(!rest.contains(s.last()));
            lemma_without_contains(rest, p, s.last());
            assert(without(s, p) == without(rest, p).push(s.last()));
            assert forall|i: int, j: int|
                0 <= i < j < without(s, p).len() implies without(s, p)[i] != without(s, p)[j] by {
                if j == without(s, p).len() - 1 {
                    assert(without(rest, p).contains(without(s, p)[i]));
                }
            }
        }
    }
}

/// What `without` keeps: every element but `p`.
pub proof fn lemma_without_contains(s: Seq<PeerId>, p: PeerId, q: PeerId)
    ensures
        without(s, p).contains(q) <==> s.contains(q) && q != p,
    decreases s.len(),
{
    reveal(Seq::filter);
    if s.len() > 0 {
        let rest = s.drop_last();
        lemma_without_contains(rest, p, q);
        if s.contains(q) && q != p && s.last() != q {
            let i = choose|i: int| 0 <= i < s.len() && s[i] == q;
            assert(rest[i] == q);
        }
        if rest.contains(q) {
            let i = choose|i: int| 0 <= i < rest.len() && rest[i] == q;
            assert(s[i] == q);
        }
        if without(s, p).contains(q) && !without(rest, p).contains(q) {
            assert(s.last() == q);
            assert(s[s.len() - 1] == q);
        }
    }
}

/// `without` on a list that grows by one element.
proof fn lemma_without_push(s: Seq<PeerId>, j: int, p: PeerId)
    requires
        0 <= j < s.len(),
    ensures
        without(s.subrange(0, j + 1), p) == if s[j] != p {
            without(s.subrange(0, j), p).push(s[j])
        } else {
            without(s.subrange(0, j), p)
        },
{
    reveal(Seq::filter);
    assert(s.subrange(0, j + 1).drop_last() =~= s.subrange(0, j));
}

/// Joining keeps the rooms well formed, provided the joiner is in no room yet.
pub proof fn lemma_join_wf(m: Rooms, key: Seq<char>, p: PeerId)
    requires
        rooms_wf(m),
        !is_present(m, p),
    ensures
        rooms_wf(after_join(m, key, p)),
{
    let n = after_join(m, key, p);
    let old_members = members_of(m, key);
    assert(!old_members.contains(p)) by {
        if m.contains_key(key) && m[key].contains(p) {
            assert(is_present(m, p));
        }
    }
    assert(n[key].no_duplicates()) by {
        assert(n[key] == old_members.push(p));
    }
    assert forall|k1: Seq<char>, k2: Seq<char>, q: PeerId|
        n.contains_key(k1) && n.contains_key(k2) && #[trigger] n[k1].contains(q)
            && #[trigger] n[k2].contains(q) implies k1 == k2 by {
        if q == p {
            if k1 != key {
                assert(m[k1].contains(p));
                assert(is_present(m, p));
            }
            if k2 != key {
                assert(m[k2].contains(p));
                assert(is_present(m, p));
            }
        } else {
            if k1 == key {
                let i = choose|i: int| 0 <= i < n[k1].len() && n[k1][i] == q;
                assert(m[k1].contains(q)) by {
                    assert(old_members[i] == q);
                }
            }
            if k2 == key {
                let i = choose|i: int| 0 <= i < n[k2].len() && n[k2][i] == q;
                assert(m[k2].contains(q)) by {
                    assert(old_members[i] == q);
                }
            }
        }
    }
}

/// Leaving keeps the rooms well formed.
pub proof fn lemma_leave_wf(m: Rooms, key: Seq<char>, p: PeerId)
    requires
        rooms_wf(m),
    ensures
        rooms_wf(after_leave(m, key, p)),
{
    let n = after_leave(m, key, p);
    if members_of(m, key).contains(p) {
        let rest = without(m[key], p);
        lemma_without_no_duplicates(m[key], p);
        assert forall|k1: Seq<char>, k2: Seq<char>, q: PeerId|
            n.contains_key(k1) && n.contains_key(k2) && #[trigger] n[k1].contains(q)
                && #[trigger] n[k2].contains(q) implies k1 == k2 by {
            if k1 == key {
                lemma_without_contains(m[key], p, q);
            }
            if k2 == key {
                lemma_without_contains(m[key], p, q);
            }
        }
    }
}

/// One room: its key and its members in join order.
pub struct Room {
    key: String,
    members: Vec<PeerId>,
}

/// The rooms that currently have members.
pub struct RoomRegistry {
    rooms: Vec<Room>,
    model: Ghost<Rooms>,
}

impl View for RoomRegistry {
    type V = Rooms;

    closed spec fn view(&self) -> Rooms {
        self.model@
    }
}

/// Whether `v` lists `x`.
fn contains_id(v: &Vec<PeerId>, x: PeerId) -> (r: bool)
    ensures
        r == v@.contains(x),
{
    let mut i: usize = 0;
    while i < v.len()
        invariant
            i <= v@.len(),
            forall|t: int| 0 <= t < i ==> v@[t] != x,
        decreases v@.len() - i,
    {
        if v[i] == x {
            return true;
        }
        i = i + 1;
    }
    false
}

/// A copy of `v`.
fn copy_ids(v: &Vec<PeerId>) -> (r: Vec<PeerId>)
    ensures
        r@ == v@,
{
    let mut out: Vec<PeerId> = Vec::new();
    let mut i: usize = 0;
    while i < v.len()
        invariant
            i <= v@.len(),
            out@ == v@.subrange(0, i as int),
        decreases v@.len() - i,
    {
        out.push(v[i]);
        i = i + 1;
        assert(out@ =~= v@.subrange(0, i as int));
    }
    assert(v@.subrange(0, v@.len() as int) =~= v@);
    out
}

/// `v` without `x`, the rest in order.
fn remove_id(v: &Vec<PeerId>, x: PeerId) -> (r: Vec<PeerId>)
    ensures
        r@ == without(v@, x),
{
    let mut out: Vec<PeerId> = Vec::new();
    let mut i: usize = 0;
    while i < v.len()
        invariant
            i <= v@.len(),
            out@ == without(v@.subrange(0, i as int), x),
        decreases v@.len() - i,
    {
        proof {
            lemma_without_push(v@, i as int, x);
        }
        if v[i] != x {
            out.push(v[i]);
        }
        i = i + 1;
    }
    assert(v@.subrange(0, v@.len() as int) =~= v@);
    out
}

impl RoomRegistry {
    /// The registry's own bookkeeping agrees with its abstract state, which is well formed.
    pub closed spec fn wf(&self) -> bool {
        &&& rooms_wf(self.model@)
        &&& forall|i: int, j: int|
            0 <= i < j < self.rooms@.len() ==> self.rooms@[i].key@ != self.rooms@[j].key@
        &&& forall|i: int|
            0 <= i < self.rooms@.len() ==> self.model@.contains_key(#[trigger] self.rooms@[i].key@)
                && self.model@[self.rooms@[i].key@] == self.rooms@[i].members@
        &&& forall|k: Seq<char>| #[trigger]
            self.model@.contains_key(k) ==> exists|i: int|
                0 <= i < self.rooms@.len() && #[trigger] self.rooms@[i].key@ == k
    }

    /// A registry with no rooms.
    pub fn new() -> (r: RoomRegistry)
        ensures
            r.wf(),
            r@ == Map::<Seq<char>, Seq<PeerId>>::empty(),
    {
        RoomRegistry { rooms: Vec::new(), model: Ghost(Map::empty()) }
    }

    /// The position of room `key` in the list of rooms, if there is such a room.
    fn find_room(&self, key: &String) -> (r: Option<usize>)
        requires
            self.wf(),
        ensures
            match r {
                Some(i) => i < self.rooms@.len() && self.rooms@[i as int].key@ == key@,
                None => !self@.contains_key(key@),
            },
    {
        let mut i: usize = 0;
        while i < self.rooms.len()
            invariant
                self.wf(),
                i <= self.rooms@.len(),
                forall|t: int| 0 <= t < i ==> self.rooms@[t].key@ != key@,
            decreases self.rooms@.len() - i,
        {
            if self.rooms[i].key == *key {
                return Some(i);
            }
            i = i + 1;
        }
        None
    }

    /// The members of room `key` in join order; empty where there is no such room.
    pub fn members(&self, key: &String) -> (r: Vec<PeerId>)
        requires
            self.wf(),
        ensures
            r@ == members_of(self@, key@),
    {
        match self.find_room(key) {
            Some(i) => copy_ids(&self.rooms[i].members),
            None => Vec::new(),
        }
    }

    /// Whether room `key` exists.
    pub fn has_room(&self, key: &String) -> (r: bool)
        requires
            self.wf(),
        ensures
            r == self@.contains_key(key@),
    {
        self.find_room(key).is_some()
    }

    /// Adds `id` to room `key`, creating the room if it does not exist. Returns the
    /// members that were there before, and a `PeerJoined` notice for each of them.
    pub fn join(&mut self, key: &String, id: PeerId) -> (r: (Vec<PeerId>, Vec<Delivery>))
        requires
            old(self).wf(),
            !is_present(old(self)@, id),
        ensures
            final(self).wf(),
            final(self)@ == after_join(old(self)@, key@, id),
            r.0@ == members_of(old(self)@, key@),
            r.1@ == fan_out(members_of(old(self)@, key@), Outbound::PeerJoined(id)),
    {
        let ghost k = key@;
        proof {
            lemma_join_wf(self.model@, k, id);
        }
        match self.find_room(key) {
            Some(i) => {
                let existing = copy_ids(&self.rooms[i].members);
                let notices = notify_all(&existing, id, true);
                let mut grown = copy_ids(&existing);
                grown.push(id);
                let room = Room { key: key.clone(), members: grown };
                let ghost old_rooms = self.rooms@;
                self.rooms.set(i, room);
                self.model = Ghost(self.model@.insert(k, existing@.push(id)));
                proof {
                    assert forall|t: int| 0 <= t < self.rooms@.len() implies self.model@.contains_key(
                        #[trigger] self.rooms@[t].key@,
                    ) && self.model@[self.rooms@[t].key@] == self.rooms@[t].members@ by {
                        if t != i {
                            assert(old_rooms[t].key@ != k);
                        }
                    }
                    assert forall|k2: Seq<char>| #[trigger]
                        self.model@.contains_key(k2) implies exists|t: int|
                        0 <= t < self.rooms@.len() && #[trigger] self.rooms@[t].key@ == k2 by {
                        if k2 == k {
                            assert(self.rooms@[i as int].key@ == k2);
                        } else {
                            let t = choose|t: int|
                                0 <= t < old_rooms.len() && #[trigger] old_rooms[t].key@ == k2;
                            assert(self.rooms@[t].key@ == k2);
                        }
                    }
                }
                (existing, notices)
            },
            None => {
                let mut members: Vec<PeerId> = Vec::new();
                members.push(id);
                let ghost old_rooms = self.rooms@;
                self.rooms.push(Room { key: key.clone(), members });
                self.model = Ghost(self.model@.insert(k, seq![id]));
                proof {
                    assert(seq![id] =~= Seq::<PeerId>::empty().push(id));
                    assert(fan_out(Seq::empty(), Outbound::PeerJoined(id)) =~= Seq::empty());
                    assert forall|t: int| 0 <= t < old_rooms.len() implies old_rooms[t].key@ != k by {
                        assert(self.model@.contains_key(old_rooms[t].key@));
                    }
                    assert forall|k2: Seq<char>| #[trigger]
                        self.model@.contains_key(k2) implies exists|t: int|
                        0 <= t < self.rooms@.len() && #[trigger] self.rooms@[t].key@ == k2 by {
                        if k2 == k {
                            assert(self.rooms@[old_rooms.len() as int].key@ == k2);
                        } else {
                            let t = choose|t: int|
                                0 <= t < old_rooms.len() && #[trigger] old_rooms[t].key@ == k2;
                            assert(self.rooms@[t].key@ == k2);
                        }
                    }
                }
                (Vec::new(), Vec::new())
            },
        }
    }

    /// Takes `id` out of room `key` and returns a `PeerLeft` notice for each remaining
    /// member. The room goes away with its last member. Where `id` is not a member of
    /// that room nothing changes and nothing is sent.
    pub fn leave(&mut self, key: &String, id: PeerId) -> (r: Vec<Delivery>)
        requires
            old(self).wf(),
        ensures
            final(self).wf(),
            final(self)@ == after_leave(old(self)@, key@, id),
            r@ == leave_notices(old(self)@, key@, id),
    {
        let ghost k = key@;
        proof {
            lemma_leave_wf(self.model@, k, id);
        }
        match self.find_room(key) {
            None => {
                assert(self.model@ == after_leave(self.model@, k, id));
                Vec::new()
            },
            Some(i) => {
                if !contains_id(&self.rooms[i].members, id) {
                    return Vec::new();
                }
                let rest = remove_id(&self.rooms[i].members, id);
                let ghost old_rooms = self.rooms@;
                if rest.len() == 0 {
                    self.rooms.remove(i);
                    self.model = Ghost(self.model@.remove(k));
                    proof {
                        assert(fan_out(Seq::empty(), Outbound::PeerLeft(id)) =~= Seq::empty());
                        assert forall|t: int| 0 <= t < self.rooms@.len() implies self.model@.contains_key(
                            #[trigger] self.rooms@[t].key@,
                        ) && self.model@[self.rooms@[t].key@] == self.rooms@[t].members@ by {
                            if t < i {
                                assert(self.rooms@[t] == old_rooms[t]);
                                assert(old_rooms[t].key@ != k);
                            } else {
                                assert(self.rooms@[t] == old_rooms[t + 1]);
                                assert(old_rooms[t + 1].key@ != k);
                            }
                        }
                        assert forall|a: int, b: int|
                            0 <= a < b < self.rooms@.len() implies self.rooms@[a].key@
                            != self.rooms@[b].key@ by {
                            let a0 = if a < i { a } else { a + 1 };
                            let b0 = if b < i { b } else { b + 1 };
                            assert(self.rooms@[a] == old_rooms[a0]);
                            assert(self.rooms@[b] == old_rooms[b0]);
                        }
                        assert forall|k2: Seq<char>| #[trigger]
                            self.model@.contains_key(k2) implies exists|t: int|
                            0 <= t < self.rooms@.len() && #[trigger] self.rooms@[t].key@ == k2 by {
                            let t = choose|t: int|
                                0 <= t < old_rooms.len() && #[trigger] old_rooms[t].key@ == k2;
                            if t < i {
                                assert(self.rooms@[t].key@ == k2);
                            } else {
                                assert(t != i);
                                assert(self.rooms@[t - 1].key@ == k2);
                            }
                        }
                    }
                    Vec::new()
                } else {
                    let notices = notify_all(&rest, id, false);
                    let ghost rest_v = rest@;
                    let room = Room { key: key.clone(), members: rest };
                    self.rooms.set(i, room);
                    self.model = Ghost(self.model@.insert(k, rest_v));
                    proof {
                        assert forall|t: int| 0 <= t < self.rooms@.len() implies self.model@.contains_key(
                            #[trigger] self.rooms@[t].key@,
                        ) && self.model@[self.rooms@[t].key@] == self.rooms@[t].members@ by {
                            if t != i {
                                assert(old_rooms[t].key@ != k);
                            }
                        }
                        assert forall|k2: Seq<char>| #[trigger]
                            self.model@.contains_key(k2) implies exists|t: int|
                            0 <= t < self.rooms@.len() && #[trigger] self.rooms@[t].key@ == k2 by {
                            if k2 == k {
                                assert(self.rooms@[i as int].key@ == k2);
                            } else {
                                let t = choose|t: int|
                                    0 <= t < old_rooms.len() && #[trigger] old_rooms[t].key@ == k2;
                                assert(self.rooms@[t].key@ == k2);
                            }
                        }
                    }
                    notices
                }
            },
        }
    }

    /// Routes `payload` from `from` to `to` within room `key`: to `to` when it is a
    /// member of that room, else as an addressing error back to `from`.
    pub fn relay(&self, key: &String, from: PeerId, to: PeerId, payload: Vec<u8>) -> (r: Delivery)
        requires
            self.wf(),
        ensures
            r == relay_outcome(self@, key@, from, to, payload),
    {
        let present = match self.find_room(key) {
            Some(i) => contains_id(&self.rooms[i].members, to),
            None => false,
        };
        if present {
            Delivery { to, msg: Outbound::Relay { from, payload } }
        } else {
            Delivery { to: from, msg: Outbound::RelayError { target: to } }
        }
    }
}

} // verus!