//! One peer's connection: joined on open, relaying until it closes, and torn down
//! exactly once whichever way it closes.
use vstd::prelude::*;

use crate::frame::parsed_request;
use crate::ids::PeerId;
use crate::messages::Delivery;
use crate::registry::{after_join, after_leave, leave_notices};
use crate::state::{delivers_request, join_deliveries, ServerState};

verus! {

/// A peer's session. While it is open its peer is a member of its room; once closed it
/// does nothing more.
pub struct PeerSession {
    key: String,
    id: PeerId,
    open: bool,
}

impl PeerSession {
    pub closed spec fn key_spec(&self) -> Seq<char> {
        self.key@
    }

    pub closed spec fn id_spec(&self) -> PeerId {
        self.id
    }

    pub closed spec fn is_open_spec(&self) -> bool {
        self.open
    }

    /// The identifier of this session's peer.
    pub fn id(&self) -> (r: PeerId)
        ensures
            r == self.id_spec(),
    {
        self.id
    }

    /// The key of this session's room.
    pub fn room(&self) -> (r: &String)
        ensures
            r@ == self.key_spec(),
    {
        &self.key
    }

    /// Whether the session still relays.
    pub fn is_open(&self) -> (r: bool)
        ensures
            r == self.is_open_spec(),
    {
        self.open
    }

    /// Opens a session in room `key`: the peer gets a fresh identifier and joins. Returns
    /// the session and what the join sends; `None`, with nothing changed, once the
    /// identifiers are exhausted.
    pub fn start(state: &mut ServerState, key: String) -> (r: Option<(PeerSession, Vec<Delivery>)>)
        requires
            old(state).wf(),
        ensures
            final(state).wf(),
            r is None <==> old(state).next_id() >= u64::MAX,
            r is None ==> final(state).rooms_view() == old(state).rooms_view()
                && final(state).next_id() == old(state).next_id(),
            r matches Some((s, ds)) ==> {
                &&& s.is_open_spec()
                &&& s.key_spec() == key@
                &&& s.id_spec() == old(state).next_id()
                &&& final(state).next_id() == old(state).next_id() + 1
                &&& final(state).rooms_view() == after_join(old(state).rooms_view(), key@, s.id_spec())
                &&& ds@ == join_deliveries(old(state).rooms_view(), key@, s.id_spec())
            },
    {
        match state.connect(&key) {
            None => None,
            Some((id, ds)) => Some((PeerSession { key, id, open: true }, ds)),
        }
    }

    /// Handles one inbound frame. On an open session a relay request yields its one
    /// delivery; any other frame closes the session as `close` does. A closed session
    /// ignores frames.
    pub fn on_frame(&mut self, state: &mut ServerState, frame: &[u8]) -> (r: Vec<Delivery>)
        requires
            old(state).wf(),
        ensures
            final(state).wf(),
            final(state).next_id() == old(state).next_id(),
            final(self).key_spec() == old(self).key_spec(),
            final(self).id_spec() == old(self).id_spec(),
            !old(self).is_open_spec() ==> r@.len() == 0 && !final(self).is_open_spec()
                && final(state).rooms_view() == old(state).rooms_view(),
            old(self).is_open_spec() && parsed_request(frame@) is None ==> {
                &&& !final(self).is_open_spec()
                &&& final(state).rooms_view() == after_leave(
                    old(state).rooms_view(),
                    old(self).key_spec(),
                    old(self).id_spec(),
                )
                &&& r@ == leave_notices(
                    old(state).rooms_view(),
                    old(self).key_spec(),
                    old(self).id_spec(),
                )
            },
            old(self).is_open_spec() ==> (parsed_request(frame@) matches Some((to, p)) ==> {
                &&& final(self).is_open_spec()
                &&& final(state).rooms_view() == old(state).rooms_view()
                &&& r@.len() == 1
                &&& delivers_request(
                    r@[0],
                    old(state).rooms_view(),
                    old(self).key_spec(),
                    old(self).id_spec(),
                    to,
                    p,
                )
            }),
    {
        if !self.open {
            return Vec::new();
        }
        match state.handle_request(&self.key, self.id, frame) {
            Some(d) => {
                let mut out: Vec<Delivery> = Vec::new();
                out.push(d);
                out
            },
            None => self.close(state),
        }
    }

    /// Ends the session: the peer leaves its room and the remaining members are told.
    /// Only the first call does anything.
    pub fn close(&mut self, state: &mut ServerState) -> (r: Vec<Delivery>)
        requires
            old(state).wf(),
        ensures
            final(state).wf(),
            final(state).next_id() == old(state).next_id(),
            !final(self).is_open_spec(),
            final(self).key_spec() == old(self).key_spec(),
            final(self).id_spec() == old(self).id_spec(),
            old(self).is_open_spec() ==> final(state).rooms_view() == after_leave(
                old(state).rooms_view(),
                old(self).key_spec(),
                old(self).id_spec(),
            ) && r@ == leave_notices(
                old(state).rooms_view(),
                old(self).key_spec(),
                old(self).id_spec(),
            ),
            !old(self).is_open_spec() ==> final(state).rooms_view() == old(state).rooms_view()
                && r@.len() == 0,
    {
        if !self.open {
            return Vec::new();
        }
        self.open = false;
        state.disconnect(&self.key, self.id)
    }
}

} // verus!
