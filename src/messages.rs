//! What the relay sends to a connected peer.
use vstd::prelude::*;

use crate::ids::PeerId;

verus! {

/// A message pushed onto one peer's outbound queue.
#[derive(Clone, Debug, PartialEq, Eq)]
pub enum Outbound {
    /// The identifier assigned to the receiving peer; sent once, right after it joins.
    IdAssigned(PeerId),
    /// Another member of the receiver's room, present before it or newly arrived.
    PeerJoined(PeerId),
    /// A member of the receiver's room has disconnected.
    PeerLeft(PeerId),
    /// A negotiation payload from `from`, forwarded unchanged.
    Relay { from: PeerId, payload: Vec<u8> },
    /// The receiver addressed `target`, which is not a member of its room.
    RelayError { target: PeerId },
}

/// A message together with the peer whose queue it goes to.
#[derive(Clone, Debug, PartialEq, Eq)]
pub struct Delivery {
    pub to: PeerId,
    pub msg: Outbound,
}

/// The membership notice about `subject`: a join when `joined`, else a departure.
pub open spec fn notice(subject: PeerId, joined: bool) -> Outbound {
    if joined {
        Outbound::PeerJoined(subject)
    } else {
        Outbound::PeerLeft(subject)
    }
}

/// One copy of `msg` for each recipient, in the recipients' order.
pub open spec fn fan_out(recipients: Seq<PeerId>, msg: Outbound) -> Seq<Delivery> {
    Seq::new(recipients.len(), |i: int| Delivery { to: recipients[i], msg })
}

/// Builds the notice about `subject` for every peer in `recipients`.
pub fn notify_all(recipients: &Vec<PeerId>, subject: PeerId, joined: bool) -> (r: Vec<Delivery>)
    ensures
        r@ == fan_out(recipients@, notice(subject, joined)),
{
    let mut out: Vec<Delivery> = Vec::new();
    let mut j: usize = 0;
    while j < recipients.len()
        invariant
            j <= recipients@.len(),
            out@.len() == j,
            forall|t: int|
                0 <= t < j ==> #[trigger] out@[t] == (Delivery {
                    to: recipients@[t],
                    msg: notice(subject, joined),
                }),
        decreases recipients@.len() - j,
    {
        let msg = if joined {
            Outbound::PeerJoined(subject)
        } else {
            Outbound::PeerLeft(subject)
        };
        out.push(Delivery { to: recipients[j], msg });
        j = j + 1;
    }
    assert(out@ =~= fan_out(recipients@, notice(subject, joined)));
    out
}

} // verus!
