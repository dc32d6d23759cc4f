use rust_mc_bot::behaviour::{action_packet, choose_action, is_action_tick, BehaviourRoll, SyntheticAction};
use rust_mc_bot::deflate::Compression;
use rust_mc_bot::frame::{encode_frame, FrameBuffer, Packet};
use rust_mc_bot::packets::{make_bot_name, write_handshake_packet, write_login_start_packet};
use rust_mc_bot::session::{Bot, ProtocolState, COMPRESSION_DISABLED};
use rust_mc_bot::status::{process_pong, process_status_response};
use rust_mc_bot::varint::encode_varint;

fn frame(comp: &mut Compression, id: u32, payload: &[u8], threshold: i32) -> Vec<u8> {
    encode_frame(comp, id, payload, threshold)
}

#[test]
fn keep_alive_echo_compressed_does_not_kick() {
    let mut comp = Compression::new();
    let mut bot = joined_bot(&mut comp);
    let mut bytes = frame(&mut comp, 0x03, &encode_varint(0), -1);
    bytes.extend(frame(&mut comp, 0x02, &login_success_payload(), 0));
    bytes.extend(frame(&mut comp, 0x23, &[9u8; 8], 0));
    bot.process_packet(&mut comp, &bytes);
    assert!(!bot.kicked);
    let sent = sent_packets(&bot, &mut comp, 0);
    assert_eq!(sent.len(), 1);
    assert_eq!(sent[0].id, 0x12);
    assert_eq!(sent[0].payload, vec![9u8; 8]);
}

#[test]
fn split_reads_match_one_read() {
    let mut comp = Compression::new();
    let mut bytes = frame(&mut comp, 0x03, &encode_varint(16), -1);
    bytes.extend(frame(&mut comp, 0x02, &login_success_payload(), 16));
    bytes.extend(frame(&mut comp, 0x23, &[7u8; 8], 16));
    bytes.extend(frame(&mut comp, 0x3c, &sync_position_payload(4), 16));
    bytes.extend(frame(&mut comp, 0x23, &[3u8; 40], 16));
    let mut whole = joined_bot(&mut comp);
    whole.process_packet(&mut comp, &bytes);
    for chunk in [1usize, 2, 5, 13] {
        let mut split = joined_bot(&mut comp);
        for piece in bytes.chunks(chunk) {
            split.process_packet(&mut comp, piece);
            assert!(!split.kicked);
        }
        assert_eq!(split.unsent_bytes(), whole.unsent_bytes());
        assert_eq!(split.state, whole.state);
        assert_eq!(split.compression_threshold, 16);
    }
}

fn sent_packets(bot: &Bot, comp: &mut Compression, threshold: i32) -> Vec<Packet> {
    let mut buf = FrameBuffer::new();
    buf.push_bytes(bot.unsent_bytes());
    let mut out = Vec::new();
    while let Ok(Some(p)) = buf.decode(comp, threshold) {
        out.push(p);
    }
    out
}

fn login_success_payload() -> Vec<u8> {
    let mut p = vec![0u8; 16];
    p.extend(encode_varint(6));
    p.extend_from_slice(b"Bot_42");
    p.extend(encode_varint(0));
    p
}

fn sync_position_payload(teleport_id: u32) -> Vec<u8> {
    let mut p = Vec::new();
    p.extend_from_slice(&1.5f64.to_bits().to_be_bytes());
    p.extend_from_slice(&64.0f64.to_bits().to_be_bytes());
    p.extend_from_slice(&(-3.25f64).to_bits().to_be_bytes());
    p.extend_from_slice(&[0u8; 9]);
    p.extend(encode_varint(teleport_id));
    p
}

fn joined_bot(comp: &mut Compression) -> Bot {
    let mut bot = Bot::new(7, 42);
    bot.start_bot(comp);
    let n = bot.unsent_bytes().len();
    bot.mark_written(n);
    bot
}

#[test]
fn bot_names() {
    assert_eq!(make_bot_name(0), b"Bot_0".to_vec());
    assert_eq!(make_bot_name(42), b"Bot_42".to_vec());
    assert_eq!(make_bot_name(u32::MAX), b"Bot_4294967295".to_vec());
}

#[test]
fn join_sends_handshake_then_login_start() {
    let mut comp = Compression::new();
    let mut bot = Bot::new(3, 10);
    assert_eq!(bot.state, ProtocolState::Handshake);
    assert_eq!(bot.compression_threshold, COMPRESSION_DISABLED);
    bot.start_bot(&mut comp);
    assert!(bot.joined);
    assert_eq!(bot.state, ProtocolState::Login);
    let sent = sent_packets(&bot, &mut comp, -1);
    assert_eq!(sent.len(), 2);
    let hs = write_handshake_packet(763, "", 0, 2);
    assert_eq!(sent[0].id, 0);
    assert_eq!(sent[0].payload, hs.payload);
    assert_eq!(sent[0].payload, vec![0xfb, 0x05, 0x00, 0x00, 0x00, 0x02]);
    let ls = write_login_start_packet(b"Bot_10");
    assert_eq!(sent[1].payload, ls.payload);
    assert_eq!(sent[1].payload, vec![6, b'B', b'o', b't', b'_', b'1', b'0', 0]);
}

#[test]
fn partial_writes_keep_the_rest() {
    let mut comp = Compression::new();
    let mut bot = Bot::new(1, 1);
    bot.start_bot(&mut comp);
    let all = bot.unsent_bytes().to_vec();
    bot.mark_written(3);
    assert_eq!(bot.unsent_bytes(), &all[3..]);
    bot.mark_written(0);
    assert_eq!(bot.unsent_bytes(), &all[3..]);
    let rest = bot.unsent_bytes().len();
    bot.mark_written(rest);
    assert!(bot.unsent_bytes().is_empty());
}

#[test]
fn end_to_end_compression_login_and_spawn() {
    let mut comp = Compression::new();
    let mut bot = joined_bot(&mut comp);
    let mut bytes = frame(&mut comp, 0x03, &encode_varint(64), -1);
    bytes.extend(frame(&mut comp, 0x02, &login_success_payload(), 64));
    bot.process_packet(&mut comp, &bytes);
    assert!(!bot.kicked);
    assert_eq!(bot.compression_threshold, 64);
    assert_eq!(bot.state, ProtocolState::Play);

    let mut join_game = 42u32.to_be_bytes().to_vec();
    join_game.extend_from_slice(&[0u8; 40]);
    let bytes = frame(&mut comp, 0x28, &join_game, 64);
    bot.process_packet(&mut comp, &bytes);
    assert_eq!(bot.entity_id, 42);

    let bytes = frame(&mut comp, 0x3c, &sync_position_payload(9), 64);
    bot.process_packet(&mut comp, &bytes);
    assert!(bot.teleported);
    assert_eq!(f64::from_bits(bot.x_bits), 1.5);
    assert_eq!(f64::from_bits(bot.y_bits), 64.0);
    assert_eq!(f64::from_bits(bot.z_bits), -3.25);
    let sent = sent_packets(&bot, &mut comp, 64);
    assert_eq!(sent.len(), 1);
    assert_eq!(sent[0].id, 0x00);
    assert_eq!(sent[0].payload, vec![9]);
    let n = bot.unsent_bytes().len();
    bot.mark_written(n);

    let big = Packet { id: 0x05, payload: vec![b'a'; 100] };
    bot.send_packet(&mut comp, &big);
    let raw = bot.unsent_bytes().to_vec();
    assert_eq!(raw[1], 101);
    assert_eq!(raw[2], 0x78);
    let z = raw[2..].to_vec();
    assert_eq!(comp.inflate(&z, 101).unwrap().len(), 101);
    let sent = sent_packets(&bot, &mut comp, 64);
    assert_eq!(sent[0].payload, vec![b'a'; 100]);
}

#[test]
fn keep_alive_is_echoed() {
    let mut comp = Compression::new();
    let mut bot = joined_bot(&mut comp);
    let bytes = frame(&mut comp, 0x02, &login_success_payload(), -1);
    bot.process_packet(&mut comp, &bytes);
    let ka = [1u8, 2, 3, 4, 5, 6, 7, 8];
    let bytes = frame(&mut comp, 0x23, &ka, -1);
    bot.process_packet(&mut comp, &bytes);
    let sent = sent_packets(&bot, &mut comp, -1);
    assert_eq!(sent.len(), 1);
    assert_eq!(sent[0].id, 0x12);
    assert_eq!(sent[0].payload, ka.to_vec());
}

#[test]
fn disconnect_in_login_kicks() {
    let mut comp = Compression::new();
    let mut bot = joined_bot(&mut comp);
    let bytes = frame(&mut comp, 0x00, b"\x05{\"a\"}", -1);
    bot.process_packet(&mut comp, &bytes);
    assert!(bot.kicked);
}

#[test]
fn disconnect_in_play_kicks() {
    let mut comp = Compression::new();
    let mut bot = joined_bot(&mut comp);
    let mut bytes = frame(&mut comp, 0x02, &login_success_payload(), -1);
    bytes.extend(frame(&mut comp, 0x1a, b"\x02{}", -1));
    bytes.extend(frame(&mut comp, 0x23, &[0u8; 8], -1));
    bot.process_packet(&mut comp, &bytes);
    assert!(bot.kicked);
    assert!(bot.unsent_bytes().is_empty());
}

#[test]
fn decode_error_kicks() {
    let mut comp = Compression::new();
    let mut bot = joined_bot(&mut comp);
    bot.process_packet(&mut comp, &[0xff, 0xff, 0xff, 0xff, 0xff, 0xff]);
    assert!(bot.kicked);
}

#[test]
fn unknown_packets_are_ignored() {
    let mut comp = Compression::new();
    let mut bot = joined_bot(&mut comp);
    let bytes = frame(&mut comp, 0x55, &[1, 2, 3], -1);
    bot.process_packet(&mut comp, &bytes);
    assert!(!bot.kicked);
    assert_eq!(bot.state, ProtocolState::Login);
    assert!(bot.unsent_bytes().is_empty());
}

#[test]
fn no_play_traffic_before_login_success() {
    let mut comp = Compression::new();
    let mut bot = joined_bot(&mut comp);
    // play-state packets while still in Login are unknown there
    let mut bytes = frame(&mut comp, 0x23, &[0u8; 8], -1);
    bytes.extend(frame(&mut comp, 0x3c, &sync_position_payload(1), -1));
    bot.process_packet(&mut comp, &bytes);
    assert!(!bot.teleported);
    assert!(bot.unsent_bytes().is_empty());
    let roll = BehaviourRoll { action: 0, message: 0, flag: false, slot: 0 };
    for tick in 0..8 {
        bot.behaviour_tick(&mut comp, tick, roll);
    }
    assert!(bot.unsent_bytes().is_empty());
}

#[test]
fn behaviour_sends_position_and_actions() {
    let mut comp = Compression::new();
    let mut bot = joined_bot(&mut comp);
    let mut bytes = frame(&mut comp, 0x02, &login_success_payload(), -1);
    bytes.extend(frame(&mut comp, 0x3c, &sync_position_payload(1), -1));
    bot.process_packet(&mut comp, &bytes);
    let n = bot.unsent_bytes().len();
    bot.mark_written(n);
    // id 7: acts when (tick + 7) % 4 == 0, so on tick 1
    let roll = BehaviourRoll { action: 4, message: 0, flag: false, slot: 5 };
    bot.behaviour_tick(&mut comp, 0, roll);
    let sent = sent_packets(&bot, &mut comp, -1);
    assert_eq!(sent.len(), 1);
    assert_eq!(sent[0].id, 0x14);
    assert_eq!(sent[0].payload.len(), 25);
    assert_eq!(sent[0].payload[0..8], 1.5f64.to_bits().to_be_bytes());
    let n = bot.unsent_bytes().len();
    bot.mark_written(n);
    bot.behaviour_tick(&mut comp, 1, roll);
    let sent = sent_packets(&bot, &mut comp, -1);
    assert_eq!(sent.len(), 2);
    assert_eq!(sent[1].id, 0x28);
    assert_eq!(sent[1].payload, vec![0, 5]);
}

#[test]
fn action_choice_and_packets() {
    let r = |action, flag| BehaviourRoll { action, message: 1, flag, slot: 8 };
    assert_eq!(choose_action(r(0, false)), SyntheticAction::Chat(1));
    assert_eq!(choose_action(r(1, true)), SyntheticAction::Swing(true));
    assert_eq!(choose_action(r(2, true)), SyntheticAction::Sneak(true));
    assert_eq!(choose_action(r(3, false)), SyntheticAction::Sprint(false));
    assert_eq!(choose_action(r(4, false)), SyntheticAction::HeldSlot(8));
    let p = action_packet(SyntheticAction::Chat(1), 0);
    assert_eq!(p.id, 0x05);
    assert_eq!(&p.payload[..4], &[3, b'W', b'o', b'w']);
    assert_eq!(p.payload.len(), 4 + 8 + 8 + 1 + 1 + 3);
    assert_eq!(action_packet(SyntheticAction::Swing(false), 0).payload, vec![0]);
    assert_eq!(action_packet(SyntheticAction::Sneak(true), 300).payload, vec![0xac, 0x02, 0, 0]);
    assert_eq!(action_packet(SyntheticAction::Sneak(false), 1).payload, vec![1, 1, 0]);
    assert_eq!(action_packet(SyntheticAction::Sprint(true), 1).payload, vec![1, 3, 0]);
    assert_eq!(action_packet(SyntheticAction::Sprint(false), 1).payload, vec![1, 4, 0]);
    assert_eq!(action_packet(SyntheticAction::HeldSlot(3), 1).payload, vec![0, 3]);
}

#[test]
fn action_ticks_are_offset_by_id() {
    assert!(is_action_tick(0, 0));
    assert!(!is_action_tick(1, 0));
    assert!(is_action_tick(4, 0));
    assert!(is_action_tick(1, 3));
    assert!(is_action_tick(u64::MAX, 1));
    assert!(!is_action_tick(u64::MAX, 0));
}

#[test]
fn status_probe_and_replies() {
    let mut comp = Compression::new();
    let mut bot = Bot::new(0, 0);
    bot.start_status_probe(&mut comp, 0x0102030405060708);
    assert_eq!(bot.state, ProtocolState::Status);
    let sent = sent_packets(&bot, &mut comp, -1);
    assert_eq!(sent.len(), 3);
    assert_eq!(sent[0].payload, vec![0xfb, 0x05, 0x00, 0x00, 0x00, 0x01]);
    assert_eq!(sent[1].id, 0x00);
    assert!(sent[1].payload.is_empty());
    assert_eq!(sent[2].id, 0x01);
    assert_eq!(sent[2].payload, vec![1, 2, 3, 4, 5, 6, 7, 8]);

    let mut json = encode_varint(11);
    json.extend_from_slice(b"{\"ok\":true}");
    let n = bot.unsent_bytes().len();
    bot.mark_written(n);
    let mut bytes = frame(&mut comp, 0x00, &json, -1);
    bytes.extend(frame(&mut comp, 0x01, &[1, 2, 3, 4, 5, 6, 7, 8], -1));
    bot.process_packet(&mut comp, &bytes);
    assert!(!bot.kicked);
    assert_eq!(bot.status_text, Some(b"{\"ok\":true}".to_vec()));
    assert_eq!(bot.pong, Some(0x0102030405060708));
    assert!(bot.unsent_bytes().is_empty());
    assert_eq!(process_status_response(&json).unwrap(), b"{\"ok\":true}".to_vec());
    assert!(process_status_response(&json[..5]).is_none());
    assert!(process_status_response(&[]).is_none());
    assert_eq!(process_pong(&[1, 2, 3, 4, 5, 6, 7, 8]), Some(0x0102030405060708));
    assert_eq!(process_pong(&[1, 2, 3]), None);
}

#[test]
fn set_compression_negative_disables() {
    let mut comp = Compression::new();
    let mut bot = joined_bot(&mut comp);
    let bytes = frame(&mut comp, 0x03, &encode_varint(u32::MAX), -1);
    bot.process_packet(&mut comp, &bytes);
    assert_eq!(bot.compression_threshold, -1);
    let bytes = frame(&mut comp, 0x03, &encode_varint(256), -1);
    bot.process_packet(&mut comp, &bytes);
    assert_eq!(bot.compression_threshold, 256);
}
