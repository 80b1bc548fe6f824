//! The wire format. Inbound, a relay request is the target's identifier in decimal
//! ASCII digits, a colon, and the payload, which is passed on byte for byte.
//! Outbound, a message is a tag, a colon and its fields, colon-separated:
//! `id:7`, `joined:7`, `left:7`, `relay:7:<payload>`, `error:7`.
use vstd::prelude::*;

use crate::ids::PeerId;
use crate::messages::Outbound;

verus! {

/// The separator between the target identifier and the payload.
pub const SEPARATOR: u8 = 58;

pub open spec fn is_digit(b: u8) -> bool {
    48 <= b <= 57
}

/// The number that a run of decimal digits denotes.
pub open spec fn digits_value(s: Seq<u8>) -> nat
    decreases s.len(),
{
    if s.len() == 0 {
        0
    } else {
        digits_value(s.drop_last()) * 10 + (s.last() - 48) as nat
    }
}

/// `i` is where the target ends: a separator with one or more digits before it and
/// nothing else.
pub open spec fn target_end(s: Seq<u8>, i: int) -> bool {
    &&& 0 < i < s.len()
    &&& s[i] == SEPARATOR
    &&& forall|j: int| 0 <= j < i ==> is_digit(#[trigger] s[j])
}

/// Whether `s` is a relay request whose target fits in an identifier.
pub open spec fn is_request(s: Seq<u8>) -> bool {
    exists|i: int| target_end(s, i) && digits_value(s.subrange(0, i)) <= u64::MAX
}

/// The target and payload of a relay request; `None` for anything else.
pub open spec fn parsed_request(s: Seq<u8>) -> Option<(PeerId, Seq<u8>)> {
    if is_request(s) {
        let i = choose|i: int| target_end(s, i) && digits_value(s.subrange(0, i)) <= u64::MAX;
        Some((digits_value(s.subrange(0, i)) as u64, s.subrange(i + 1, s.len() as int)))
    } else {
        None
    }
}

/// A request has one place where its target ends.
pub proof fn lemma_target_end_unique(s: Seq<u8>, i: int, j: int)
    requires
        target_end(s, i),
        target_end(s, j),
    ensures
        i == j,
{
    if i < j {
        assert(is_digit(s[i]));
    }
    if j < i {
        assert(is_digit(s[j]));
    }
}

/// A longer run of digits denotes a number at least as large.
proof fn lemma_digits_value_grows(s: Seq<u8>, a: int, b: int)
    requires
        0 <= a <= b <= s.len(),
    ensures
        digits_value(s.subrange(0, a)) <= digits_value(s.subrange(0, b)),
    decreases b - a,
{
    if a < b {
        lemma_digits_value_grows(s, a, b - 1);
        assert(s.subrange(0, b).drop_last() =~= s.subrange(0, b - 1));
    }
}

/// Splits a relay request into its target and its payload; `None` where `frame` is
/// not a request or its target does not fit in an identifier.
pub fn parse_request(frame: &[u8]) -> (r: Option<(PeerId, Vec<u8>)>)
    ensures
        r is None <==> parsed_request(frame@) is None,
        r matches Some((t, p)) ==> parsed_request(frame@) == Some((t, p@)),
{
    let ghost s = frame@;
    let mut v: u64 = 0;
    let mut i: usize = 0;
    while i < frame.len() && frame[i] >= 48 && frame[i] <= 57
        invariant
            s == frame@,
            i <= s.len(),
            forall|j: int| 0 <= j < i ==> is_digit(#[trigger] s[j]),
            v == digits_value(s.subrange(0, i as int)),
        decreases s.len() - i,
    {
        let d = (frame[i] - 48) as u64;
        assert(s.subrange(0, i + 1).drop_last() =~= s.subrange(0, i as int));
        if v > (u64::MAX - d) / 10 {
            proof {
                assert(v * 10 + d > u64::MAX) by (nonlinear_arith)
                    requires
                        v > (u64::MAX - d) / 10,
                        d <= 9,
                ;
                assert forall|c: int| target_end(s, c) implies digits_value(s.subrange(0, c))
                    > u64::MAX by {
                    if c <= i {
                        assert(is_digit(s[c]));
                    }
                    lemma_digits_value_grows(s, i + 1, c);
                }
            }
            return None;
        }
        v = v * 10 + d;
        i = i + 1;
    }
    if i == 0 || i == frame.len() || frame[i] != SEPARATOR {
        proof {
            assert forall|c: int| target_end(s, c) implies false by {
                if c < i {
                    assert(is_digit(s[c]));
                } else if c > i {
                    assert(is_digit(s[i as int]));
                }
            }
        }
        return None;
    }
    let mut payload: Vec<u8> = Vec::new();
    let mut j: usize = i + 1;
    while j < frame.len()
        invariant
            s == frame@,
            i < s.len(),
            i + 1 <= j <= s.len(),
            payload@ == s.subrange(i + 1, j as int),
        decreases s.len() - j,
    {
        payload.push(frame[j]);
        j = j + 1;
        assert(payload@ =~= s.subrange(i + 1, j as int));
    }
    proof {
        assert(target_end(s, i as int));
        let c = choose|c: int| target_end(s, c) && digits_value(s.subrange(0, c)) <= u64::MAX;
        lemma_target_end_unique(s, i as int, c);
    }
    Some((v, payload))
}

/// The decimal digits of `n`, most significant first, without leading zeros.
pub open spec fn decimal(n: nat) -> Seq<u8>
    decreases n,
{
    if n < 10 {
        seq![(48 + n) as u8]
    } else {
        decimal(n / 10).push((48 + n % 10) as u8)
    }
}

/// The tag that starts the encoding of `msg`, colon included.
pub open spec fn tag_of(msg: Outbound) -> Seq<u8> {
    match msg {
        Outbound::IdAssigned(_) => seq![105u8, 100, 58],
        Outbound::PeerJoined(_) => seq![106u8, 111, 105, 110, 101, 100, 58],
        Outbound::PeerLeft(_) => seq![108u8, 101, 102, 116, 58],
        Outbound::Relay { .. } => seq![114u8, 101, 108, 97, 121, 58],
        Outbound::RelayError { .. } => seq![101u8, 114, 114, 111, 114, 58],
    }
}

/// The bytes that carry `msg` to its peer.
pub open spec fn encoded(msg: Outbound) -> Seq<u8> {
    match msg {
        Outbound::IdAssigned(p) => tag_of(msg) + decimal(p as nat),
        Outbound::PeerJoined(p) => tag_of(msg) + decimal(p as nat),
        Outbound::PeerLeft(p) => tag_of(msg) + decimal(p as nat),
        Outbound::Relay { from, payload } => tag_of(msg) + decimal(from as nat) + seq![
            SEPARATOR,
        ] + payload@,
        Outbound::RelayError { target } => tag_of(msg) + decimal(target as nat),
    }
}

/// Appends the decimal digits of `n` to `out`.
fn push_decimal(out: &mut Vec<u8>, n: u64)
    ensures
        final(out)@ == old(out)@ + decimal(n as nat),
    decreases n,
{
    if n >= 10 {
        push_decimal(out, n / 10);
    }
    out.push((48 + n % 10) as u8);
    assert(final(out)@ =~= old(out)@ + decimal(n as nat));
}

/// Appends `bytes` to `out`.
fn push_bytes(out: &mut Vec<u8>, bytes: &Vec<u8>)
    ensures
        final(out)@ == old(out)@ + bytes@,
{
    let mut i: usize = 0;
    while i < bytes.len()
        invariant
            i <= bytes@.len(),
            out@ == old(out)@ + bytes@.subrange(0, i as int),
        decreases bytes@.len() - i,
    {
        out.push(bytes[i]);
        i = i + 1;
        assert(out@ =~= old(out)@ + bytes@.subrange(0, i as int));
    }
    assert(bytes@.subrange(0, bytes@.len() as int) =~= bytes@);
}

/// The tag of `msg`.
fn tag(msg: &Outbound) -> (r: Vec<u8>)
    ensures
        r@ == tag_of(*msg),
{
    let r: Vec<u8> = match msg {
        Outbound::IdAssigned(_) => vec![105u8, 100, 58],
        Outbound::PeerJoined(_) => vec![106u8, 111, 105, 110, 101, 100, 58],
        Outbound::PeerLeft(_) => vec![108u8, 101, 102, 116, 58],
        Outbound::Relay { .. } => vec![114u8, 101, 108, 97, 121, 58],
        Outbound::RelayError { .. } => vec![101u8, 114, 114, 111, 114, 58],
    };
    assert(r@ =~= tag_of(*msg));
    r
}

/// Encodes `msg` for the wire.
pub fn encode(msg: &Outbound) -> (r: Vec<u8>)
    ensures
        r@ == encoded(*msg),
{
    let mut out = tag(msg);
    match msg {
        Outbound::IdAssigned(p) => push_decimal(&mut out, *p),
        Outbound::PeerJoined(p) => push_decimal(&mut out, *p),
        Outbound::PeerLeft(p) => push_decimal(&mut out, *p),
        Outbound::Relay { from, payload } => {
            push_decimal(&mut out, *from);
            out.push(SEPARATOR);
            push_bytes(&mut out, payload);
        },
        Outbound::RelayError { target } => push_decimal(&mut out, *target),
    }
    out
}

} // verus!
