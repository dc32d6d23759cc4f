//! One simulated client: its protocol state, what it knows of the game, the
//! bytes it has received and not yet decoded, and the bytes it has yet to send.

use crate::deflate::Compression;
use crate::frame::{
    decoded_packet, encode_frame, encoded_frame, frame_scan, lemma_frame_consumes,
    lemma_frame_prefix, lemma_malformed_extends, FrameBuffer,
    FrameScan, Packet, MAX_PAYLOAD_LEN,
};
use crate::status::{process_pong, process_status_response, sized_string};
use crate::packets::{
    be_value, bot_name, make_bot_name, pow256, read_be, string_field, bool_field, handshake_payload,
    write_handshake_packet, write_keep_alive_reply, write_login_start_packet,
    write_teleport_confirm, JOIN_GAME_ID, KEEP_ALIVE_ID, KEEP_ALIVE_REPLY_ID, LOGIN_DISCONNECT_ID,
    LOGIN_START_ID, LOGIN_SUCCESS_ID, HANDSHAKE_ID, MAX_STRING_LEN, NEXT_STATE_LOGIN, PLAY_DISCONNECT_ID,
    PROTOCOL_VERSION, SET_COMPRESSION_ID, SYNC_POSITION_ID, TELEPORT_CONFIRM_ID, PONG_ID,
    STATUS_RESPONSE_ID,
};
use crate::varint::{varint_bytes, leading_varint, read_varint, VarintRead};
use vstd::prelude::*;

verus! {

/// Compression threshold that means compression is off.
pub const COMPRESSION_DISABLED: i32 = -1;

/// Where a session stands in the protocol.
#[derive(PartialEq, Eq, Structural, Clone, Copy, Debug)]
pub enum ProtocolState {
    Handshake,
    Status,
    Login,
    Play,
}

/// The threshold that a Set Compression value installs: negative values,
/// which arrive as values above `i32::MAX`, turn compression off.
pub open spec fn threshold_of(v: nat) -> i32 {
    if v <= i32::MAX {
        v as i32
    } else {
        COMPRESSION_DISABLED
    }
}

/// Whether packet `id` is a Disconnect in `state`.
pub open spec fn is_disconnect(state: ProtocolState, id: u32) -> bool {
    (state == ProtocolState::Login && id == LOGIN_DISCONNECT_ID) || (state == ProtocolState::Play
        && id == PLAY_DISCONNECT_ID)
}

/// Whether the state machine acts on packet `id` in `state`; every other
/// packet is ignored.
pub open spec fn is_handled(state: ProtocolState, id: u32) -> bool {
    match state {
        ProtocolState::Login => id == LOGIN_DISCONNECT_ID || id == LOGIN_SUCCESS_ID || id
            == SET_COMPRESSION_ID,
        ProtocolState::Play => id == PLAY_DISCONNECT_ID || id == KEEP_ALIVE_ID || id == JOIN_GAME_ID
            || id == SYNC_POSITION_ID,
        ProtocolState::Status => id == STATUS_RESPONSE_ID || id == PONG_ID,
        ProtocolState::Handshake => false,
    }
}

/// Bytes at which the teleport id of a Synchronize Player Position packet
/// starts: three doubles, two floats and a flags byte come first.
pub const TELEPORT_ID_OFFSET: usize = 33;

/// The teleport id of a Synchronize Player Position payload, if it has one.
pub open spec fn teleport_id_of(payload: Seq<u8>) -> Option<nat> {
    if payload.len() > TELEPORT_ID_OFFSET {
        match leading_varint(payload.skip(TELEPORT_ID_OFFSET as int)) {
            Some((t, _)) => Some(t),
            None => None,
        }
    } else {
        None
    }
}

/// One simulated client.
pub struct Bot {
    pub id: u32,
    pub name: Vec<u8>,
    pub state: ProtocolState,
    pub compression_threshold: i32,
    pub entity_id: u32,
    pub joined: bool,
    pub teleported: bool,
    pub kicked: bool,
    /// Last position the server set, as IEEE-754 double bit patterns.
    pub x_bits: u64,
    pub y_bits: u64,
    pub z_bits: u64,
    /// The JSON text of the last Status Response, as bytes.
    pub status_text: Option<Vec<u8>>,
    /// The value the last Pong echoed.
    pub pong: Option<u64>,
    pub inbox: FrameBuffer,
    pub outbox: Vec<u8>,
}

/// What packets change of a session, with the bytes it has yet to send.
pub struct BotModel {
    pub state: ProtocolState,
    pub compression_threshold: i32,
    pub entity_id: u32,
    pub teleported: bool,
    pub kicked: bool,
    pub x_bits: u64,
    pub y_bits: u64,
    pub z_bits: u64,
    pub status_text: Option<Seq<u8>>,
    pub pong: Option<u64>,
    pub unsent: Seq<u8>,
}

/// `m` with `frame` queued.
pub open spec fn queue(m: BotModel, frame: Seq<u8>) -> BotModel {
    BotModel { unsent: m.unsent + frame, ..m }
}

/// `m` kicked.
pub open spec fn kick(m: BotModel) -> BotModel {
    BotModel { kicked: true, ..m }
}

/// The effect of receiving packet `id` with `payload` in session state `m`.
pub open spec fn after_packet(m: BotModel, id: u32, payload: Seq<u8>) -> BotModel {
    let t = m.compression_threshold as int;
    match m.state {
        ProtocolState::Login => if id == LOGIN_DISCONNECT_ID {
            kick(m)
        } else if id == LOGIN_SUCCESS_ID {
            BotModel { state: ProtocolState::Play, ..m }
        } else if id == SET_COMPRESSION_ID {
            match leading_varint(payload) {
                Some((v, _)) => BotModel { compression_threshold: threshold_of(v), ..m },
                None => kick(m),
            }
        } else {
            m
        },
        ProtocolState::Play => if id == PLAY_DISCONNECT_ID {
            kick(m)
        } else if id == KEEP_ALIVE_ID {
            queue(m, encoded_frame(KEEP_ALIVE_REPLY_ID, payload, t))
        } else if id == JOIN_GAME_ID {
            if payload.len() >= 4 {
                BotModel { entity_id: be_value(payload.take(4)) as u32, ..m }
            } else {
                kick(m)
            }
        } else if id == SYNC_POSITION_ID {
            match teleport_id_of(payload) {
                Some(tid) => queue(
                    BotModel {
                        teleported: true,
                        x_bits: be_value(payload.subrange(0, 8)) as u64,
                        y_bits: be_value(payload.subrange(8, 16)) as u64,
                        z_bits: be_value(payload.subrange(16, 24)) as u64,
                        ..m
                    },
                    encoded_frame(TELEPORT_CONFIRM_ID, varint_bytes(tid), t),
                ),
                None => kick(m),
            }
        } else {
            m
        },
        ProtocolState::Status => if id == STATUS_RESPONSE_ID {
            match sized_string(payload) {
                Some(text) => BotModel { status_text: Some(text), ..m },
                None => kick(m),
            }
        } else if id == PONG_ID {
            if payload.len() >= 8 {
                BotModel { pong: Some(be_value(payload.take(8)) as u64), ..m }
            } else {
                kick(m)
            }
        } else {
            m
        },
        ProtocolState::Handshake => m,
    }
}

/// The session state and the bytes left buffered after receiving `s` in
/// state `m`: each whole frame is decoded and acted on in order, until the
/// bytes run out mid-frame, a frame fails to decode (the session is kicked)
/// or a packet kicks the session.
pub open spec fn after_bytes(m: BotModel, s: Seq<u8>) -> (BotModel, Seq<u8>)
    decreases s.len(),
{
    if m.kicked {
        (m, s)
    } else {
        match frame_scan(s) {
            FrameScan::NeedMore => (m, s),
            FrameScan::Malformed(_) => (kick(m), s),
            FrameScan::Frame(f, c) => match decoded_packet(f, m.compression_threshold as int) {
                Ok((id, p)) => if 0 < c <= s.len() {
                    after_bytes(after_packet(m, id, p), s.skip(c as int))
                } else {
                    (m, s)
                },
                Err(_) => (kick(m), s),
            },
        }
    }
}

/// Bytes received in two reads act as the same bytes received in one: the
/// second read continues from the state and the buffered bytes the first one
/// left, unless the first one got the session kicked, in which case the single
/// read kicks it in the same state.
pub proof fn lemma_split_reads(m: BotModel, s: Seq<u8>, t: Seq<u8>)
    ensures
        !after_bytes(m, s).0.kicked ==> after_bytes(after_bytes(m, s).0, after_bytes(m, s).1 + t)
            == after_bytes(m, s + t),
        after_bytes(m, s).0.kicked ==> after_bytes(m, s + t).0 == after_bytes(m, s).0,
    decreases s.len(),
{
    if m.kicked {
    } else {
        match frame_scan(s) {
            FrameScan::NeedMore => {},
            FrameScan::Malformed(_) => {
                lemma_malformed_extends(s, t);
            },
            FrameScan::Frame(f, c) => {
                lemma_frame_consumes(s);
                lemma_frame_prefix(s, s + t);
                assert((s + t).take(c as int) =~= s.take(c as int));
                match decoded_packet(f, m.compression_threshold as int) {
                    Ok((id, p)) => {
                        assert((s + t).skip(c as int) =~= s.skip(c as int) + t);
                        lemma_split_reads(after_packet(m, id, p), s.skip(c as int), t);
                    },
                    Err(_) => {},
                }
            },
        }
    }
}

/// A Disconnect at the head of the received bytes kicks the session, in
/// Login and in Play, and nothing after it is acted on.
pub proof fn lemma_disconnect_kicks(m: BotModel, s: Seq<u8>)
    requires
        !m.kicked,
        frame_scan(s) matches FrameScan::Frame(f, _) && decoded_packet(
            f,
            m.compression_threshold as int,
        ) matches Ok((id, _)) && is_disconnect(m.state, id),
    ensures
        after_bytes(m, s).0 == kick(m),
{
    lemma_frame_consumes(s);
    let c = frame_scan(s)->Frame_1;
    let f = frame_scan(s)->Frame_0;
    let (id, p) = decoded_packet(f, m.compression_threshold as int)->Ok_0;
    assert(after_packet(m, id, p) == kick(m));
    assert(after_bytes(kick(m), s.skip(c as int)) == (kick(m), s.skip(c as int)));
    assert(after_bytes(m, s) == after_bytes(after_packet(m, id, p), s.skip(c as int)));
}

/// A packet the current state does not know changes nothing.
pub proof fn lemma_unknown_ignored(m: BotModel, id: u32, payload: Seq<u8>)
    ensures
        !is_handled(m.state, id) ==> after_packet(m, id, payload) == m,
{
}

/// Before Login Success nothing is sent in reply to a packet, and the only way
/// into Play is Login Success received in Login.
pub proof fn lemma_silent_before_play(m: BotModel, id: u32, payload: Seq<u8>)
    ensures
        m.state != ProtocolState::Play ==> after_packet(m, id, payload).unsent == m.unsent,
        after_packet(m, id, payload).state == ProtocolState::Play && m.state != ProtocolState::Play
            ==> m.state == ProtocolState::Login && id == LOGIN_SUCCESS_ID,
{
}

impl Bot {
    pub open spec fn wf(&self) -> bool {
        &&& self.inbox.wf()
        &&& self.name@.len() <= MAX_STRING_LEN
        &&& !self.joined ==> self.state == ProtocolState::Handshake && self.compression_threshold
            == COMPRESSION_DISABLED
    }

    /// Received bytes not yet decoded.
    pub open spec fn pending(&self) -> Seq<u8> {
        self.inbox.pending()
    }

    /// Encoded frames not yet written to the peer.
    pub open spec fn unsent(&self) -> Seq<u8> {
        self.outbox@
    }

    pub open spec fn model(&self) -> BotModel {
        BotModel {
            state: self.state,
            compression_threshold: self.compression_threshold,
            entity_id: self.entity_id,
            teleported: self.teleported,
            kicked: self.kicked,
            x_bits: self.x_bits,
            y_bits: self.y_bits,
            z_bits: self.z_bits,
            status_text: match self.status_text {
                Some(v) => Some(v@),
                None => None,
            },
            pong: self.pong,
            unsent: self.outbox@,
        }
    }

    /// A fresh session numbered `id` whose display name carries `name_number`.
    pub fn new(id: u32, name_number: u32) -> (r: Bot)
        ensures
            r.wf(),
            r.id == id,
            r.name@ == bot_name(name_number as nat),
            r.state == ProtocolState::Handshake,
            r.compression_threshold == COMPRESSION_DISABLED,
            !r.joined && !r.teleported && !r.kicked,
            r.entity_id == 0,
            r.pending() == Seq::<u8>::empty(),
            r.unsent() == Seq::<u8>::empty(),
    {
        Bot {
            id,
            name: make_bot_name(name_number),
            state: ProtocolState::Handshake,
            compression_threshold: COMPRESSION_DISABLED,
            entity_id: 0,
            joined: false,
            teleported: false,
            kicked: false,
            x_bits: 0,
            y_bits: 0,
            z_bits: 0,
            status_text: None,
            pong: None,
            inbox: FrameBuffer::new(),
            outbox: Vec::new(),
        }
    }

    /// The fields that no packet changes.
    pub open spec fn same_identity(&self, other: &Bot) -> bool {
        self.id == other.id && self.name == other.name && self.joined == other.joined
    }

    /// Every field but the buffers is as in `other`.
    pub open spec fn same_fields(&self, other: &Bot) -> bool {
        &&& self.same_identity(other)
        &&& self.model() == BotModel { unsent: self.unsent(), ..other.model() }
    }

    /// The encoded frames not yet written, for the transport.
    pub fn unsent_bytes(&self) -> (r: &[u8])
        ensures
            r@ == self.unsent(),
    {
        self.outbox.as_slice()
    }

    /// Drops the first `n` unsent bytes, which the transport has written.
    /// The rest waits for the next writable event.
    pub fn mark_written(&mut self, n: usize)
        requires
            n <= old(self).unsent().len(),
        ensures
            final(self).unsent() == old(self).unsent().skip(n as int),
            final(self).pending() == old(self).pending(),
            final(self).same_fields(old(self)),
            old(self).wf() ==> final(self).wf(),
    {
        let mut rest: Vec<u8> = Vec::new();
        let mut i: usize = n;
        while i < self.outbox.len()
            invariant
                n <= i <= self.outbox@.len(),
                rest@ == self.outbox@.subrange(n as int, i as int),
            decreases self.outbox@.len() - i,
        {
            rest.push(self.outbox[i]);
            assert(self.outbox@.subrange(n as int, i + 1) == self.outbox@.subrange(n as int, i as int).push(
                self.outbox@[i as int],
            ));
            i = i + 1;
        }
        assert(rest@ =~= old(self).outbox@.skip(n as int));
        self.outbox = rest;
    }

    /// Queues `pk` as a frame under the current threshold.
    pub fn send_packet(&mut self, comp: &mut Compression, pk: &Packet)
        requires
            pk.payload@.len() <= MAX_PAYLOAD_LEN,
        ensures
            final(self).pending() == old(self).pending(),
            final(self).same_identity(old(self)),
            final(self).model() == queue(
                old(self).model(),
                encoded_frame(pk.id, pk.payload@, old(self).compression_threshold as int),
            ),
            old(self).wf() ==> final(self).wf(),
    {
        let mut bytes = encode_frame(comp, pk.id, pk.payload.as_slice(), self.compression_threshold);
        self.outbox.append(&mut bytes);
    }
}

impl Bot {
    /// Acts on one received packet. Replies are queued at once: a Keep-Alive
    /// is echoed, a teleport confirmed. A Disconnect, or a packet whose fields
    /// cannot be read, marks the session kicked. Packets the current state
    /// does not know are ignored.
    pub fn handle_packet(&mut self, comp: &mut Compression, id: u32, payload: &[u8])
        requires
            old(self).wf(),
            payload@.len() <= MAX_PAYLOAD_LEN,
        ensures
            final(self).wf(),
            final(self).same_identity(old(self)),
            final(self).pending() == old(self).pending(),
            final(self).model() == after_packet(old(self).model(), id, payload@),
    {
        match self.state {
            ProtocolState::Login => {
                if id == LOGIN_DISCONNECT_ID {
                    self.kicked = true;
                } else if id == LOGIN_SUCCESS_ID {
                    self.state = ProtocolState::Play;
                } else if id == SET_COMPRESSION_ID {
                    assert(payload@.subrange(0, payload@.len() as int) == payload@);
                    match read_varint(payload, 0) {
                        VarintRead::Value { value, .. } => {
                            self.compression_threshold = if value <= i32::MAX as u32 {
                                value as i32
                            } else {
                                COMPRESSION_DISABLED
                            };
                        },
                        _ => {
                            self.kicked = true;
                        },
                    }
                }
            },
            ProtocolState::Play => {
                if id == PLAY_DISCONNECT_ID {
                    self.kicked = true;
                } else if id == KEEP_ALIVE_ID {
                    let reply = write_keep_alive_reply(payload);
                    self.send_packet(comp, &reply);
                } else if id == JOIN_GAME_ID {
                    if payload.len() >= 4 {
                        proof {
                            reveal_with_fuel(pow256, 5);
                        }
                        assert(payload@.subrange(0, 4) == payload@.take(4));
                        self.entity_id = read_be(payload, 0, 4) as u32;
                    } else {
                        self.kicked = true;
                    }
                } else if id == SYNC_POSITION_ID {
                    if payload.len() > TELEPORT_ID_OFFSET {
                        assert(payload@.subrange(
                            TELEPORT_ID_OFFSET as int,
                            payload@.len() as int,
                        ) == payload@.skip(TELEPORT_ID_OFFSET as int));
                        match read_varint(payload, TELEPORT_ID_OFFSET) {
                            VarintRead::Value { value, .. } => {
                                self.x_bits = read_be(payload, 0, 8);
                                self.y_bits = read_be(payload, 8, 8);
                                self.z_bits = read_be(payload, 16, 8);
                                self.teleported = true;
                                let confirm = write_teleport_confirm(value);
                                proof {
                                    crate::varint::lemma_varint_round_trip(value, seq![]);
                                }
                                self.send_packet(comp, &confirm);
                            },
                            _ => {
                                self.kicked = true;
                            },
                        }
                    } else {
                        self.kicked = true;
                    }
                }
            },
            ProtocolState::Status => {
                if id == STATUS_RESPONSE_ID {
                    match process_status_response(payload) {
                        Some(text) => {
                            self.status_text = Some(text);
                        },
                        None => {
                            self.kicked = true;
                        },
                    }
                } else if id == PONG_ID {
                    match process_pong(payload) {
                        Some(v) => {
                            self.pong = Some(v);
                        },
                        None => {
                            self.kicked = true;
                        },
                    }
                }
            },
            ProtocolState::Handshake => {},
        }
    }
}

/// The Login request a session sends on its first writable event: the
/// Handshake towards login, then Login Start with its name.
pub open spec fn join_frames(name: Seq<u8>) -> Seq<u8> {
    encoded_frame(
        HANDSHAKE_ID,
        handshake_payload(PROTOCOL_VERSION, Seq::<u8>::empty(), 0, NEXT_STATE_LOGIN),
        COMPRESSION_DISABLED as int,
    ) + encoded_frame(
        LOGIN_START_ID,
        string_field(name) + bool_field(false),
        COMPRESSION_DISABLED as int,
    )
}

impl Bot {
    /// Runs the join sequence: queues Handshake and Login Start and moves to
    /// Login.
    pub fn start_bot(&mut self, comp: &mut Compression)
        requires
            old(self).wf(),
            old(self).state == ProtocolState::Handshake,
            old(self).compression_threshold == COMPRESSION_DISABLED,
            !old(self).kicked,
        ensures
            final(self).wf(),
            final(self).joined,
            final(self).state == ProtocolState::Login,
            !final(self).kicked,
            final(self).pending() == old(self).pending(),
            final(self).unsent() == old(self).unsent() + join_frames(old(self).name@),
            final(self).id == old(self).id && final(self).name == old(self).name,
            final(self).compression_threshold == COMPRESSION_DISABLED,
    {
        self.joined = true;
        proof {
            reveal_strlit("");
        }
        let hs = write_handshake_packet(PROTOCOL_VERSION, "", 0, NEXT_STATE_LOGIN);
        assert(hs.payload@.len() <= MAX_PAYLOAD_LEN) by {
            assert(hs.payload@.len() <= 20) by {
                crate::varint::lemma_varint_round_trip(PROTOCOL_VERSION, seq![]);
                crate::varint::lemma_varint_round_trip(0, seq![]);
                crate::varint::lemma_varint_round_trip(NEXT_STATE_LOGIN, seq![]);
            }
        }
        self.send_packet(comp, &hs);
        let ls = write_login_start_packet(self.name.as_slice());
        assert(ls.payload@.len() <= MAX_PAYLOAD_LEN) by {
            crate::varint::lemma_varint_round_trip(self.name@.len() as u32, seq![]);
        }
        self.send_packet(comp, &ls);
        self.state = ProtocolState::Login;
        assert(self.unsent() =~= old(self).unsent() + join_frames(old(self).name@));
    }

    /// Takes bytes read from the socket, decodes every whole frame among the
    /// buffered bytes and acts on each in order. A partial frame stays
    /// buffered for the next read. A decode error marks the session kicked;
    /// decoding stops once the session is kicked.
    pub fn process_packet(&mut self, comp: &mut Compression, bytes: &[u8])
        requires
            old(self).wf(),
        ensures
            final(self).wf(),
            final(self).same_identity(old(self)),
            final(self).model() == after_bytes(old(self).model(), old(self).pending() + bytes@).0,
            !final(self).kicked ==> final(self).pending() == after_bytes(
                old(self).model(),
                old(self).pending() + bytes@,
            ).1,
    {
        let ghost goal = after_bytes(old(self).model(), old(self).pending() + bytes@);
        self.inbox.push_bytes(bytes);
        loop
            invariant_except_break
                self.wf(),
                self.same_identity(old(self)),
                after_bytes(self.model(), self.pending()) == goal,
            ensures
                self.wf(),
                self.same_identity(old(self)),
                self.model() == goal.0,
                !self.kicked ==> self.pending() == goal.1,
            decreases self.pending().len(),
        {
            if self.kicked {
                break;
            }
            let ghost before = self.pending();
            let ghost m = self.model();
            match self.inbox.decode(comp, self.compression_threshold) {
                Ok(Some(pk)) => {
                    proof {
                        lemma_frame_consumes(before);
                    }
                    self.handle_packet(comp, pk.id, pk.payload.as_slice());
                },
                Ok(None) => {
                    break;
                },
                Err(_) => {
                    self.kicked = true;
                    assert(self.model() == kick(m));
                    break;
                },
            }
        }
    }
}

} // verus!
