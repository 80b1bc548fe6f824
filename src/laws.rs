//! Properties of the registry that relate several operations.
use vstd::prelude::*;

use crate::ids::PeerId;
use crate::messages::{Delivery, Outbound};
use crate::registry::{
    after_join, after_leave, is_present, leave_notices, lemma_leave_wf, lemma_without_contains,
    members_of, relay_outcome, rooms_wf, without, Rooms,
};

verus! {

/// The rooms after each peer of `ps`, in order, joins room `key`.
pub open spec fn join_all(m: Rooms, key: Seq<char>, ps: Seq<PeerId>) -> Rooms
    decreases ps.len(),
{
    if ps.len() == 0 {
        m
    } else {
        after_join(join_all(m, key, ps.drop_last()), key, ps.last())
    }
}

/// When peers join a room that does not exist, one after another, each of them is
/// shown exactly the peers that joined before it, in join order.
pub proof fn lemma_joiners_see_prior_joiners(m: Rooms, key: Seq<char>, ps: Seq<PeerId>, i: int)
    requires
        !m.contains_key(key),
        0 <= i <= ps.len(),
    ensures
        members_of(join_all(m, key, ps.take(i)), key) == ps.take(i),
    decreases i,
{
    if i > 0 {
        lemma_joiners_see_prior_joiners(m, key, ps, i - 1);
        assert(ps.take(i).drop_last() =~= ps.take(i - 1));
        assert(ps.take(i - 1).push(ps[i - 1]) =~= ps.take(i));
    } else {
        assert(ps.take(0) =~= Seq::<PeerId>::empty());
    }
}

/// A joiner is shown the room's members at the moment it joins, and afterwards the room
/// holds those members followed by the joiner.
pub proof fn lemma_join_shows_live_members(m: Rooms, key: Seq<char>, p: PeerId)
    ensures
        members_of(after_join(m, key, p), key) == members_of(m, key).push(p),
        forall|k: Seq<char>| k != key ==> members_of(after_join(m, key, p), k) == members_of(m, k),
{
}

/// When a member leaves, every other member of its room gets exactly one notice about
/// it, a `PeerLeft`, and the leaver gets none.
pub proof fn lemma_leave_notifies_each_member_once(m: Rooms, key: Seq<char>, p: PeerId, q: PeerId)
    requires
        rooms_wf(m),
        members_of(m, key).contains(p),
        members_of(m, key).contains(q),
        q != p,
    ensures
        exists|i: int|
            0 <= i < leave_notices(m, key, p).len() && #[trigger] leave_notices(m, key, p)[i]
                == (Delivery { to: q, msg: Outbound::PeerLeft(p) }) && forall|j: int|
                0 <= j < leave_notices(m, key, p).len() && #[trigger] leave_notices(
                    m,
                    key,
                    p,
                )[j].to == q ==> j == i,
        forall|j: int|
            0 <= j < leave_notices(m, key, p).len() ==> #[trigger] leave_notices(m, key, p)[j].to
                != p,
{
    let rest = without(m[key], p);
    crate::registry::lemma_without_no_duplicates(m[key], p);
    lemma_without_contains(m[key], p, q);
    lemma_without_contains(m[key], p, p);
    let n = leave_notices(m, key, p);
    assert(members_of(after_leave(m, key, p), key) == rest);
    let i = choose|i: int| 0 <= i < rest.len() && rest[i] == q;
    assert(n[i] == (Delivery { to: q, msg: Outbound::PeerLeft(p) }));
    assert forall|j: int| 0 <= j < n.len() && #[trigger] n[j].to == q implies j == i by {
        assert(rest[j] == rest[i]);
    }
    assert forall|j: int| 0 <= j < n.len() implies #[trigger] n[j].to != p by {
        assert(rest.contains(rest[j]));
    }
}

/// Once a member has left, a relay addressed to it from any sender, in any room, comes
/// back to the sender as an addressing error.
pub proof fn lemma_relay_to_departed_fails(
    m: Rooms,
    key: Seq<char>,
    p: PeerId,
    room: Seq<char>,
    from: PeerId,
    payload: Vec<u8>,
)
    requires
        rooms_wf(m),
        members_of(m, key).contains(p),
    ensures
        !is_present(after_leave(m, key, p), p),
        relay_outcome(after_leave(m, key, p), room, from, p, payload) == (Delivery {
            to: from,
            msg: Outbound::RelayError { target: p },
        }),
{
    let n = after_leave(m, key, p);
    lemma_without_contains(m[key], p, p);
    if is_present(n, p) {
        let k = choose|k: Seq<char>| n.contains_key(k) && #[trigger] n[k].contains(p);
        if k != key {
            assert(m[k].contains(p));
        }
    }
    if members_of(n, room).contains(p) {
        assert(is_present(n, p));
    }
}

/// A room stays in the registry exactly while it has members, and joining a key that
/// has no room starts a fresh room whose only member is the joiner.
pub proof fn lemma_room_lifetime(m: Rooms, key: Seq<char>, p: PeerId, q: PeerId)
    requires
        rooms_wf(m),
    ensures
        rooms_wf(after_leave(m, key, p)),
        after_leave(m, key, p).contains_key(key) <==> members_of(after_leave(m, key, p), key).len()
            > 0,
        !after_leave(m, key, p).contains_key(key) ==> members_of(
            after_join(after_leave(m, key, p), key, q),
            key,
        ) == seq![q],
{
    lemma_leave_wf(m, key, p);
    assert(Seq::<PeerId>::empty().push(q) =~= seq![q]);
}

/// Relays from one sender to one target that is a member of the room are delivered to
/// the target with their payloads in the order in which they were sent.
pub proof fn lemma_relays_keep_order(
    m: Rooms,
    key: Seq<char>,
    from: PeerId,
    to: PeerId,
    payloads: Seq<Vec<u8>>,
)
    requires
        members_of(m, key).contains(to),
    ensures
        Seq::new(payloads.len(), |i: int| relay_outcome(m, key, from, to, payloads[i])) == Seq::new(
            payloads.len(),
            |i: int| Delivery { to, msg: Outbound::Relay { from, payload: payloads[i] } },
        ),
{
    assert(Seq::new(payloads.len(), |i: int| relay_outcome(m, key, from, to, payloads[i]))
        =~= Seq::new(
        payloads.len(),
        |i: int| Delivery { to, msg: Outbound::Relay { from, payload: payloads[i] } },
    ));
}

} // verus!
