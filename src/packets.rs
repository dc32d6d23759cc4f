//! The packets a session sends, and the fields it reads from the packets it
//! receives. Ids and layouts follow protocol version 763.

use crate::frame::Packet;
use crate::varint::{varint_bytes, write_varint};
use vstd::prelude::*;
use vstd::string::StringSliceAdditionalSpecFns;

verus! {

/// The protocol version this client speaks.
pub const PROTOCOL_VERSION: u32 = 763;

/// Longest string a packet field may carry.
pub const MAX_STRING_LEN: usize = 32767;

/// Handshake `next state` value that asks for the status branch.
pub const NEXT_STATE_STATUS: u32 = 1;

/// Handshake `next state` value that asks for login.
pub const NEXT_STATE_LOGIN: u32 = 2;

// Serverbound packet ids.
pub const HANDSHAKE_ID: u32 = 0x00;
pub const LOGIN_START_ID: u32 = 0x00;
pub const STATUS_REQUEST_ID: u32 = 0x00;
pub const PING_ID: u32 = 0x01;
pub const TELEPORT_CONFIRM_ID: u32 = 0x00;
pub const CHAT_MESSAGE_ID: u32 = 0x05;
pub const PLAYER_POSITION_ID: u32 = 0x14;
pub const ENTITY_ACTION_ID: u32 = 0x1E;
pub const KEEP_ALIVE_REPLY_ID: u32 = 0x12;
pub const HELD_SLOT_ID: u32 = 0x28;
pub const ANIMATION_ID: u32 = 0x2F;

// Clientbound packet ids.
pub const LOGIN_DISCONNECT_ID: u32 = 0x00;
pub const LOGIN_SUCCESS_ID: u32 = 0x02;
pub const SET_COMPRESSION_ID: u32 = 0x03;
pub const STATUS_RESPONSE_ID: u32 = 0x00;
pub const PONG_ID: u32 = 0x01;
pub const PLAY_DISCONNECT_ID: u32 = 0x1A;
pub const KEEP_ALIVE_ID: u32 = 0x23;
pub const JOIN_GAME_ID: u32 = 0x28;
pub const SYNC_POSITION_ID: u32 = 0x3C;

/// Big-endian bytes of a 16-bit value.
pub open spec fn be_u16(x: u16) -> Seq<u8> {
    seq![(x / 256) as u8, (x % 256) as u8]
}

/// Big-endian bytes of a 64-bit value.
pub open spec fn be_u64(x: u64) -> Seq<u8> {
    seq![
        (x / 0x100_0000_0000_0000) as u8,
        ((x / 0x1_0000_0000_0000) % 256) as u8,
        ((x / 0x100_0000_0000) % 256) as u8,
        ((x / 0x1_0000_0000) % 256) as u8,
        ((x / 0x100_0000) % 256) as u8,
        ((x / 0x1_0000) % 256) as u8,
        ((x / 0x100) % 256) as u8,
        (x % 256) as u8,
    ]
}

/// A length-prefixed string field.
pub open spec fn string_field(bytes: Seq<u8>) -> Seq<u8> {
    varint_bytes(bytes.len()) + bytes
}

/// A boolean field.
pub open spec fn bool_field(b: bool) -> Seq<u8> {
    if b {
        seq![1u8]
    } else {
        seq![0u8]
    }
}

fn append_bytes(out: &mut Vec<u8>, bytes: &[u8])
    ensures
        final(out)@ == old(out)@ + bytes@,
{
    let mut i: usize = 0;
    let ghost start = out@;
    while i < bytes.len()
        invariant
            i <= bytes@.len(),
            out@ == start + bytes@.take(i as int),
        decreases bytes@.len() - i,
    {
        out.push(bytes[i]);
        assert(bytes@.take(i + 1) == bytes@.take(i as int).push(bytes@[i as int]));
        assert(out@ =~= start + bytes@.take(i + 1));
        i = i + 1;
    }
    assert(bytes@.take(i as int) == bytes@);
}

fn write_u16(out: &mut Vec<u8>, x: u16)
    ensures
        final(out)@ == old(out)@ + be_u16(x),
{
    out.push((x / 256) as u8);
    out.push((x % 256) as u8);
    assert(out@ =~= old(out)@ + be_u16(x));
}

fn write_u64(out: &mut Vec<u8>, x: u64)
    ensures
        final(out)@ == old(out)@ + be_u64(x),
{
    out.push((x / 0x100_0000_0000_0000) as u8);
    out.push(((x / 0x1_0000_0000_0000) % 256) as u8);
    out.push(((x / 0x100_0000_0000) % 256) as u8);
    out.push(((x / 0x1_0000_0000) % 256) as u8);
    out.push(((x / 0x100_0000) % 256) as u8);
    out.push(((x / 0x1_0000) % 256) as u8);
    out.push(((x / 0x100) % 256) as u8);
    out.push((x % 256) as u8);
    assert(out@ =~= old(out)@ + be_u64(x));
}

fn write_bool(out: &mut Vec<u8>, b: bool)
    ensures
        final(out)@ == old(out)@ + bool_field(b),
{
    if b {
        out.push(1u8);
    } else {
        out.push(0u8);
    }
    assert(out@ =~= old(out)@ + bool_field(b));
}

fn write_string(out: &mut Vec<u8>, s: &str)
    requires
        s.spec_bytes().len() <= MAX_STRING_LEN,
    ensures
        final(out)@ == old(out)@ + string_field(s.spec_bytes()),
{
    let bytes = s.as_bytes();
    write_varint(out, bytes.len() as u32);
    append_bytes(out, bytes);
    assert(out@ =~= old(out)@ + string_field(s.spec_bytes()));
}

/// The Handshake payload.
pub open spec fn handshake_payload(version: u32, address: Seq<u8>, port: u16, next_state: u32) -> Seq<u8> {
    varint_bytes(version as nat) + string_field(address) + be_u16(port) + varint_bytes(
        next_state as nat,
    )
}

/// Handshake: protocol version, the address and port the client says it
/// dialled, and the state it asks for next.
pub fn write_handshake_packet(version: u32, address: &str, port: u16, next_state: u32) -> (r: Packet)
    requires
        address.spec_bytes().len() <= MAX_STRING_LEN,
    ensures
        r.id == HANDSHAKE_ID,
        r.payload@ == handshake_payload(version, address.spec_bytes(), port, next_state),
{
    let mut p: Vec<u8> = Vec::new();
    write_varint(&mut p, version);
    write_string(&mut p, address);
    write_u16(&mut p, port);
    write_varint(&mut p, next_state);
    assert(p@ =~= handshake_payload(version, address.spec_bytes(), port, next_state));
    Packet { id: HANDSHAKE_ID, payload: p }
}

/// Login Start: the display name, as text bytes, and no account id.
pub fn write_login_start_packet(name: &[u8]) -> (r: Packet)
    requires
        name@.len() <= MAX_STRING_LEN,
    ensures
        r.id == LOGIN_START_ID,
        r.payload@ == string_field(name@) + bool_field(false),
{
    let mut p: Vec<u8> = Vec::new();
    write_varint(&mut p, name.len() as u32);
    append_bytes(&mut p, name);
    write_bool(&mut p, false);
    assert(p@ =~= string_field(name@) + bool_field(false));
    Packet { id: LOGIN_START_ID, payload: p }
}

/// Status Request: empty.
pub fn write_status_request_packet() -> (r: Packet)
    ensures
        r.id == STATUS_REQUEST_ID,
        r.payload@ == Seq::<u8>::empty(),
{
    Packet { id: STATUS_REQUEST_ID, payload: Vec::new() }
}

/// Ping Request with the value the server echoes back.
pub fn write_ping_packet(payload: u64) -> (r: Packet)
    ensures
        r.id == PING_ID,
        r.payload@ == be_u64(payload),
{
    let mut p: Vec<u8> = Vec::new();
    write_u64(&mut p, payload);
    assert(p@ =~= be_u64(payload));
    Packet { id: PING_ID, payload: p }
}

/// Keep-Alive reply: the server's payload, echoed.
pub fn write_keep_alive_reply(payload: &[u8]) -> (r: Packet)
    ensures
        r.id == KEEP_ALIVE_REPLY_ID,
        r.payload@ == payload@,
{
    let mut p: Vec<u8> = Vec::new();
    append_bytes(&mut p, payload);
    assert(p@ =~= payload@);
    Packet { id: KEEP_ALIVE_REPLY_ID, payload: p }
}

/// Confirm Teleportation with the id the server gave.
pub fn write_teleport_confirm(teleport_id: u32) -> (r: Packet)
    ensures
        r.id == TELEPORT_CONFIRM_ID,
        r.payload@ == varint_bytes(teleport_id as nat),
{
    let mut p: Vec<u8> = Vec::new();
    write_varint(&mut p, teleport_id);
    assert(p@ =~= varint_bytes(teleport_id as nat));
    Packet { id: TELEPORT_CONFIRM_ID, payload: p }
}

/// The Chat Message payload: the text, a zero timestamp and salt, no
/// signature, no acknowledged messages.
pub open spec fn chat_payload(message: Seq<u8>) -> Seq<u8> {
    string_field(message) + be_u64(0) + be_u64(0) + bool_field(false) + varint_bytes(0) + seq![
        0u8,
        0u8,
        0u8,
    ]
}

/// Chat Message, unsigned.
pub fn write_chat_message(message: &str) -> (r: Packet)
    requires
        message.spec_bytes().len() <= MAX_STRING_LEN,
    ensures
        r.id == CHAT_MESSAGE_ID,
        r.payload@ == chat_payload(message.spec_bytes()),
{
    let mut p: Vec<u8> = Vec::new();
    write_string(&mut p, message);
    write_u64(&mut p, 0);
    write_u64(&mut p, 0);
    write_bool(&mut p, false);
    write_varint(&mut p, 0);
    p.push(0u8);
    p.push(0u8);
    p.push(0u8);
    assert(p@ =~= chat_payload(message.spec_bytes()));
    Packet { id: CHAT_MESSAGE_ID, payload: p }
}

/// Swing Arm with the main hand (`false`) or the off hand (`true`).
pub fn write_animation(off_hand: bool) -> (r: Packet)
    ensures
        r.id == ANIMATION_ID,
        r.payload@ == varint_bytes(if off_hand { 1nat } else { 0nat }),
{
    let mut p: Vec<u8> = Vec::new();
    write_varint(&mut p, if off_hand { 1 } else { 0 });
    assert(p@ =~= varint_bytes(if off_hand { 1nat } else { 0nat }));
    Packet { id: ANIMATION_ID, payload: p }
}

/// Player Command: an entity, an action, and a jump boost.
pub fn write_entity_action(entity_id: u32, action: u32, jump_boost: u32) -> (r: Packet)
    ensures
        r.id == ENTITY_ACTION_ID,
        r.payload@ == varint_bytes(entity_id as nat) + varint_bytes(action as nat) + varint_bytes(
            jump_boost as nat,
        ),
{
    let mut p: Vec<u8> = Vec::new();
    write_varint(&mut p, entity_id);
    write_varint(&mut p, action);
    write_varint(&mut p, jump_boost);
    assert(p@ =~= varint_bytes(entity_id as nat) + varint_bytes(action as nat) + varint_bytes(
        jump_boost as nat,
    ));
    Packet { id: ENTITY_ACTION_ID, payload: p }
}

/// Set Held Item to a hotbar slot.
pub fn write_held_slot(slot: u16) -> (r: Packet)
    ensures
        r.id == HELD_SLOT_ID,
        r.payload@ == be_u16(slot),
{
    let mut p: Vec<u8> = Vec::new();
    write_u16(&mut p, slot);
    assert(p@ =~= be_u16(slot));
    Packet { id: HELD_SLOT_ID, payload: p }
}

/// Set Player Position: the three coordinates as IEEE-754 double bit
/// patterns, and whether the player stands on the ground.
pub fn write_current_pos(x_bits: u64, y_bits: u64, z_bits: u64, on_ground: bool) -> (r: Packet)
    ensures
        r.id == PLAYER_POSITION_ID,
        r.payload@ == be_u64(x_bits) + be_u64(y_bits) + be_u64(z_bits) + bool_field(on_ground),
{
    let mut p: Vec<u8> = Vec::new();
    write_u64(&mut p, x_bits);
    write_u64(&mut p, y_bits);
    write_u64(&mut p, z_bits);
    write_bool(&mut p, on_ground);
    assert(p@ =~= be_u64(x_bits) + be_u64(y_bits) + be_u64(z_bits) + bool_field(on_ground));
    Packet { id: PLAYER_POSITION_ID, payload: p }
}

/// The number that big-endian `bytes` spell.
pub open spec fn be_value(bytes: Seq<u8>) -> nat
    decreases bytes.len(),
{
    if bytes.len() == 0 {
        0
    } else {
        be_value(bytes.drop_last()) * 256 + bytes.last() as nat
    }
}

/// Reads a big-endian number of `width` bytes at `pos`.
pub fn read_be(data: &[u8], pos: usize, width: usize) -> (r: u64)
    requires
        width <= 8,
        pos + width <= data@.len(),
    ensures
        r as nat == be_value(data@.subrange(pos as int, pos + width)),
        r < pow256(width as nat),
{
    let mut v: u64 = 0;
    let mut i: usize = 0;
    while i < width
        invariant
            i <= width <= 8,
            pos + width <= data@.len(),
            v as nat == be_value(data@.subrange(pos as int, pos + i)),
            v < pow256(i as nat),
        decreases width - i,
    {
        proof {
            lemma_pow256_bound(i as nat);
        }
        assert(pos + i < data.len());
        let b = data[pos + i];
        assert(data@.subrange(pos as int, pos + i + 1).drop_last() =~= data@.subrange(pos as int, pos + i));
        assert(v * 256 + (b as u64) < pow256(i as nat) * 256) by (nonlinear_arith)
            requires
                v < pow256(i as nat),
                b < 256,
        ;
        v = v * 256 + b as u64;
        i = i + 1;
    }
    v
}

/// 256 to the power `n`.
pub open spec fn pow256(n: nat) -> int
    decreases n,
{
    if n == 0 {
        1
    } else {
        256 * pow256((n - 1) as nat)
    }
}

proof fn lemma_pow256_bound(n: nat)
    requires
        n < 8,
    ensures
        pow256(n) * 256 <= 0x1_0000_0000_0000_0000,
        pow256(n + 1) == pow256(n) * 256,
{
    reveal_with_fuel(pow256, 9);
}

/// The decimal digits of `n`, as text bytes.
pub open spec fn decimal(n: nat) -> Seq<u8>
    decreases n,
{
    if n < 10 {
        seq![(48 + n) as u8]
    } else {
        decimal(n / 10).push((48 + n % 10) as u8)
    }
}

/// Appends the decimal digits of `n`.
pub fn write_decimal(out: &mut Vec<u8>, n: u32)
    ensures
        final(out)@ == old(out)@ + decimal(n as nat),
    decreases n,
{
    if n >= 10 {
        write_decimal(out, n / 10);
    }
    let ghost mid = out@;
    out.push((48 + n % 10) as u8);
    assert(out@ =~= old(out)@ + decimal(n as nat));
}

/// The display name of the session numbered `n`: `Bot_` and the number.
pub open spec fn bot_name(n: nat) -> Seq<u8> {
    seq![66u8, 111u8, 116u8, 95u8] + decimal(n)
}

/// 10 to the power `n`.
pub open spec fn pow10(n: nat) -> int
    decreases n,
{
    if n == 0 {
        1
    } else {
        10 * pow10((n - 1) as nat)
    }
}

proof fn lemma_decimal_len(n: nat, k: nat)
    requires
        n < pow10(k + 1),
    ensures
        decimal(n).len() <= k + 1,
    decreases k,
{
    if n >= 10 {
        if k == 0 {
            assert(pow10(1) == 10 * pow10(0));
        } else {
            assert(pow10(k + 1) == 10 * pow10(k));
            lemma_decimal_len(n / 10, (k - 1) as nat);
        }
    }
}

/// Builds the display name of the session numbered `n`.
pub fn make_bot_name(n: u32) -> (r: Vec<u8>)
    ensures
        r@ == bot_name(n as nat),
        r@.len() <= 14,
{
    let mut out: Vec<u8> = Vec::new();
    out.push(66u8);
    out.push(111u8);
    out.push(116u8);
    out.push(95u8);
    write_decimal(&mut out, n);
    proof {
        reveal_with_fuel(pow10, 11);
        lemma_decimal_len(n as nat, 9);
    }
    assert(out@ =~= bot_name(n as nat));
    out
}

} // verus!
