//! The status branch: a probe that asks for the server's status and pings it
//! instead of joining.

use crate::deflate::Compression;
use crate::frame::{copy_range, encoded_frame};
use crate::packets::{
    be_u64, be_value, handshake_payload, read_be, write_handshake_packet, write_ping_packet,
    write_status_request_packet, NEXT_STATE_STATUS, PROTOCOL_VERSION, HANDSHAKE_ID, STATUS_REQUEST_ID,
    PING_ID,
};
use crate::session::{Bot, ProtocolState, COMPRESSION_DISABLED};
use crate::varint::{leading_varint, read_varint, VarintRead};
use vstd::prelude::*;

verus! {

/// The string a length-prefixed string field at the start of `payload`
/// holds, if it is whole.
pub open spec fn sized_string(payload: Seq<u8>) -> Option<Seq<u8>> {
    match leading_varint(payload) {
        Some((n, l)) => if l + n <= payload.len() {
            Some(payload.subrange(l as int, (l + n) as int))
        } else {
            None
        },
        None => None,
    }
}

/// The JSON text of a Status Response, as bytes; `None` if the payload does
/// not hold a whole string.
pub fn process_status_response(payload: &[u8]) -> (r: Option<Vec<u8>>)
    ensures
        match sized_string(payload@) {
            Some(t) => r matches Some(v) && v@ == t,
            None => r is None,
        },
{
    assert(payload@.subrange(0, payload@.len() as int) == payload@);
    match read_varint(payload, 0) {
        VarintRead::Value { value, len } => {
            if payload.len() - len >= value as usize {
                Some(copy_range(payload, len, len + value as usize))
            } else {
                None
            }
        },
        _ => None,
    }
}

/// The value a Pong echoes; `None` if the payload is shorter than 8 bytes.
pub fn process_pong(payload: &[u8]) -> (r: Option<u64>)
    ensures
        payload@.len() >= 8 ==> r == Some(be_value(payload@.take(8)) as u64),
        payload@.len() < 8 ==> r is None,
{
    if payload.len() >= 8 {
        assert(payload@.subrange(0, 8) == payload@.take(8));
        Some(read_be(payload, 0, 8))
    } else {
        None
    }
}

/// What a probe sends: the Handshake towards status, Status Request, and a
/// Ping carrying `ping`.
pub open spec fn probe_frames(ping: u64) -> Seq<u8> {
    encoded_frame(
        HANDSHAKE_ID,
        handshake_payload(PROTOCOL_VERSION, Seq::<u8>::empty(), 0, NEXT_STATE_STATUS),
        COMPRESSION_DISABLED as int,
    ) + encoded_frame(STATUS_REQUEST_ID, Seq::<u8>::empty(), COMPRESSION_DISABLED as int)
        + encoded_frame(PING_ID, be_u64(ping), COMPRESSION_DISABLED as int)
}

impl Bot {
    /// Starts the status branch instead of joining.
    pub fn start_status_probe(&mut self, comp: &mut Compression, ping: u64)
        requires
            old(self).wf(),
            old(self).state == ProtocolState::Handshake,
            old(self).compression_threshold == COMPRESSION_DISABLED,
            !old(self).kicked,
        ensures
            final(self).wf(),
            final(self).joined,
            final(self).state == ProtocolState::Status,
            !final(self).kicked,
            final(self).pending() == old(self).pending(),
            final(self).unsent() == old(self).unsent() + probe_frames(ping),
            final(self).id == old(self).id && final(self).name == old(self).name,
    {
        self.joined = true;
        proof {
            reveal_strlit("");
            crate::varint::lemma_varint_round_trip(PROTOCOL_VERSION, seq![]);
            crate::varint::lemma_varint_round_trip(0, seq![]);
            crate::varint::lemma_varint_round_trip(NEXT_STATE_STATUS, seq![]);
        }
        let hs = write_handshake_packet(PROTOCOL_VERSION, "", 0, NEXT_STATE_STATUS);
        self.send_packet(comp, &hs);
        let rq = write_status_request_packet();
        self.send_packet(comp, &rq);
        let pg = write_ping_packet(ping);
        self.send_packet(comp, &pg);
        self.state = ProtocolState::Status;
        assert(self.unsent() =~= old(self).unsent() + probe_frames(ping));
    }
}

} // verus!
