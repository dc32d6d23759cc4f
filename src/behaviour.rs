//! Synthetic traffic of a spawned session: a position update every tick, and
//! every few ticks one action picked at random.

use crate::deflate::Compression;
use crate::frame::{encoded_frame, Packet};
use crate::packets::{
    be_u16, be_u64, bool_field, chat_payload, write_animation, write_chat_message, write_current_pos,
    write_entity_action, write_held_slot, ANIMATION_ID, CHAT_MESSAGE_ID, ENTITY_ACTION_ID, HELD_SLOT_ID,
    PLAYER_POSITION_ID,
};
use crate::session::{queue, Bot, BotModel, ProtocolState};
use crate::varint::varint_bytes;
use rand::Rng;
use vstd::prelude::*;
use vstd::string::StringSliceAdditionalSpecFns;

verus! {

/// Ticks between two synthetic actions of one session.
pub const ACTION_TICK: u64 = 4;

/// Number of synthetic actions to pick from.
pub const ACTION_KINDS: u8 = 5;

/// Number of chat messages to pick from.
pub const MESSAGE_COUNT: u8 = 3;

/// Number of hotbar slots.
pub const HOTBAR_SLOTS: u8 = 9;

/// Relies on rand's `Rng::gen_range` over the thread-local generator: a
/// value in `0..n`, which must not be empty.
#[verifier::external_body]
fn random_below(n: u8) -> (r: u8)
    requires
        n > 0,
    ensures
        r < n,
{
    rand::thread_rng().gen_range(0..n)
}

/// Relies on `rand::random::<bool>`.
#[verifier::external_body]
fn random_flag() -> bool {
    rand::random::<bool>()
}

/// The random choices behind one synthetic action.
#[derive(PartialEq, Eq, Structural, Clone, Copy, Debug)]
pub struct BehaviourRoll {
    /// Which action, below `ACTION_KINDS`.
    pub action: u8,
    /// Which chat message, below `MESSAGE_COUNT`.
    pub message: u8,
    /// Off hand, start (not stop) sneaking, start (not stop) sprinting.
    pub flag: bool,
    /// Which hotbar slot, below `HOTBAR_SLOTS`.
    pub slot: u8,
}

impl BehaviourRoll {
    pub open spec fn valid(&self) -> bool {
        self.action < ACTION_KINDS && self.message < MESSAGE_COUNT && self.slot < HOTBAR_SLOTS
    }
}

/// Draws the choices for one action.
pub fn draw_roll() -> (r: BehaviourRoll)
    ensures
        r.valid(),
{
    BehaviourRoll {
        action: random_below(ACTION_KINDS),
        message: random_below(MESSAGE_COUNT),
        flag: random_flag(),
        slot: random_below(HOTBAR_SLOTS),
    }
}

/// A synthetic action.
#[derive(PartialEq, Eq, Structural, Clone, Copy, Debug)]
pub enum SyntheticAction {
    /// A chat message from the fixed pool, by index.
    Chat(u8),
    /// Swing an arm: the off hand when set.
    Swing(bool),
    /// Start (set) or stop sneaking.
    Sneak(bool),
    /// Start (set) or stop sprinting.
    Sprint(bool),
    /// Change the held hotbar slot.
    HeldSlot(u16),
}

/// The action that `roll` picks.
pub open spec fn action_of(roll: BehaviourRoll) -> SyntheticAction {
    if roll.action == 0 {
        SyntheticAction::Chat(roll.message)
    } else if roll.action == 1 {
        SyntheticAction::Swing(roll.flag)
    } else if roll.action == 2 {
        SyntheticAction::Sneak(roll.flag)
    } else if roll.action == 3 {
        SyntheticAction::Sprint(roll.flag)
    } else {
        SyntheticAction::HeldSlot(roll.slot as u16)
    }
}

/// Picks the action that `roll` selects.
pub fn choose_action(roll: BehaviourRoll) -> (r: SyntheticAction)
    requires
        roll.valid(),
    ensures
        r == action_of(roll),
{
    if roll.action == 0 {
        SyntheticAction::Chat(roll.message)
    } else if roll.action == 1 {
        SyntheticAction::Swing(roll.flag)
    } else if roll.action == 2 {
        SyntheticAction::Sneak(roll.flag)
    } else if roll.action == 3 {
        SyntheticAction::Sprint(roll.flag)
    } else {
        SyntheticAction::HeldSlot(roll.slot as u16)
    }
}

/// The text of the chat message at `index` in the fixed pool.
pub open spec fn message_bytes(index: u8) -> Seq<u8> {
    if index == 0 {
        "This is a chat message!".spec_bytes()
    } else if index == 1 {
        "Wow".spec_bytes()
    } else {
        "Server = on?".spec_bytes()
    }
}

/// The chat message at `index` in the fixed pool.
pub fn chat_message_text(index: u8) -> (r: &'static str)
    ensures
        r.spec_bytes() == message_bytes(index),
        r.spec_bytes().len() <= 32,
{
    proof {
        reveal_strlit("This is a chat message!");
        reveal_strlit("Wow");
        reveal_strlit("Server = on?");
        vstd::utf8::is_ascii_chars_encode_utf8("This is a chat message!"@);
        vstd::utf8::is_ascii_chars_encode_utf8("Wow"@);
        vstd::utf8::is_ascii_chars_encode_utf8("Server = on?"@);
    }
    if index == 0 {
        "This is a chat message!"
    } else if index == 1 {
        "Wow"
    } else {
        "Server = on?"
    }
}

/// Player Command action ids for sneaking and sprinting.
pub const START_SNEAKING: u32 = 0;
pub const STOP_SNEAKING: u32 = 1;
pub const START_SPRINTING: u32 = 3;
pub const STOP_SPRINTING: u32 = 4;

/// The id of the packet that carries `action`.
pub open spec fn action_packet_id(action: SyntheticAction) -> u32 {
    match action {
        SyntheticAction::Chat(_) => CHAT_MESSAGE_ID,
        SyntheticAction::Swing(_) => ANIMATION_ID,
        SyntheticAction::Sneak(_) | SyntheticAction::Sprint(_) => ENTITY_ACTION_ID,
        SyntheticAction::HeldSlot(_) => HELD_SLOT_ID,
    }
}

/// The payload that carries `action` for entity `entity_id`.
pub open spec fn action_payload(action: SyntheticAction, entity_id: u32) -> Seq<u8> {
    match action {
        SyntheticAction::Chat(i) => chat_payload(message_bytes(i)),
        SyntheticAction::Swing(off) => varint_bytes(if off { 1nat } else { 0nat }),
        SyntheticAction::Sneak(start) => varint_bytes(entity_id as nat) + varint_bytes(
            if start { START_SNEAKING as nat } else { STOP_SNEAKING as nat },
        ) + varint_bytes(0),
        SyntheticAction::Sprint(start) => varint_bytes(entity_id as nat) + varint_bytes(
            if start { START_SPRINTING as nat } else { STOP_SPRINTING as nat },
        ) + varint_bytes(0),
        SyntheticAction::HeldSlot(slot) => be_u16(slot),
    }
}

/// Builds the packet for `action` by entity `entity_id`.
pub fn action_packet(action: SyntheticAction, entity_id: u32) -> (r: Packet)
    ensures
        r.id == action_packet_id(action),
        r.payload@ == action_payload(action, entity_id),
        r.payload@.len() <= 100,
{
    proof {
        crate::varint::lemma_varint_round_trip(entity_id, seq![]);
        crate::varint::lemma_varint_round_trip(0, seq![]);
        crate::varint::lemma_varint_round_trip(1, seq![]);
        crate::varint::lemma_varint_round_trip(3, seq![]);
        crate::varint::lemma_varint_round_trip(4, seq![]);
    }
    match action {
        SyntheticAction::Chat(i) => {
            let text = chat_message_text(i);
            proof {
                crate::varint::lemma_varint_round_trip(text.spec_bytes().len() as u32, seq![]);
            }
            write_chat_message(text)
        },
        SyntheticAction::Swing(off) => write_animation(off),
        SyntheticAction::Sneak(start) => write_entity_action(
            entity_id,
            if start { START_SNEAKING } else { STOP_SNEAKING },
            0,
        ),
        SyntheticAction::Sprint(start) => write_entity_action(
            entity_id,
            if start { START_SPRINTING } else { STOP_SPRINTING },
            0,
        ),
        SyntheticAction::HeldSlot(slot) => write_held_slot(slot),
    }
}

/// Whether a session numbered `id` acts on `tick`: every `ACTION_TICK`
/// ticks, offset by its number so that sessions do not act together.
pub open spec fn acts_on(tick: u64, id: u32) -> bool {
    (tick + id) % (ACTION_TICK as int) == 0
}

pub fn is_action_tick(tick: u64, id: u32) -> (r: bool)
    ensures
        r == acts_on(tick, id),
{
    (tick % ACTION_TICK + (id as u64) % ACTION_TICK) % ACTION_TICK == 0
}

/// Whether a session sends synthetic traffic: it is in Play, has been placed
/// by the server, and is not kicked.
pub open spec fn is_active(m: BotModel) -> bool {
    m.state == ProtocolState::Play && m.teleported && !m.kicked
}

/// The position update of a session.
pub open spec fn position_frame(m: BotModel) -> Seq<u8> {
    encoded_frame(
        PLAYER_POSITION_ID,
        be_u64(m.x_bits) + be_u64(m.y_bits) + be_u64(m.z_bits) + bool_field(true),
        m.compression_threshold as int,
    )
}

/// The frame of the action that `roll` picks, for session state `m`.
pub open spec fn action_frame(m: BotModel, roll: BehaviourRoll) -> Seq<u8> {
    encoded_frame(
        action_packet_id(action_of(roll)),
        action_payload(action_of(roll), m.entity_id),
        m.compression_threshold as int,
    )
}

/// A session after the end-of-tick behaviour of `tick`, for session number
/// `id`: an active one queues its position and, on its action ticks, the
/// action that `roll` picks; others are unchanged.
pub open spec fn after_tick(m: BotModel, id: u32, tick: u64, roll: BehaviourRoll) -> BotModel {
    if is_active(m) {
        queue(
            m,
            position_frame(m) + if acts_on(tick, id) {
                action_frame(m, roll)
            } else {
                Seq::<u8>::empty()
            },
        )
    } else {
        m
    }
}

/// A session that is not in Play sends nothing at the end of a tick.
pub proof fn lemma_tick_silent_before_play(m: BotModel, id: u32, tick: u64, roll: BehaviourRoll)
    ensures
        m.state != ProtocolState::Play ==> after_tick(m, id, tick, roll) == m,
{
}

impl Bot {
    /// End-of-tick behaviour: an active session queues its position and, on
    /// its action ticks, the action that `roll` picks. Others queue nothing.
    pub fn behaviour_tick(&mut self, comp: &mut Compression, tick: u64, roll: BehaviourRoll)
        requires
            old(self).wf(),
            roll.valid(),
        ensures
            final(self).wf(),
            final(self).same_identity(old(self)),
            final(self).pending() == old(self).pending(),
            final(self).model() == after_tick(old(self).model(), old(self).id, tick, roll),
    {
        if !(self.state == ProtocolState::Play && self.teleported && !self.kicked) {
            return;
        }
        let ghost m = self.model();
        let pos = write_current_pos(self.x_bits, self.y_bits, self.z_bits, true);
        self.send_packet(comp, &pos);
        if is_action_tick(tick, self.id) {
            let action = choose_action(roll);
            let pk = action_packet(action, self.entity_id);
            self.send_packet(comp, &pk);
            assert(m.unsent + position_frame(m) + action_frame(m, roll) =~= m.unsent + (position_frame(m)
                + action_frame(m, roll)));
        } else {
            assert(position_frame(m) + Seq::<u8>::empty() =~= position_frame(m));
        }
    }
}

} // verus!
