use rust_mc_bot::deflate::Compression;
use rust_mc_bot::frame::{encode_frame, FrameBuffer, FrameError, Packet};
use rust_mc_bot::varint::{encode_varint, read_varint, write_varint, VarintRead};

fn decode_all(buf: &mut FrameBuffer, comp: &mut Compression, threshold: i32) -> Vec<Packet> {
    let mut out = Vec::new();
    while let Ok(Some(p)) = buf.decode(comp, threshold) {
        out.push(p);
    }
    out
}

#[test]
fn varint_small_values() {
    assert_eq!(encode_varint(0), vec![0x00]);
    assert_eq!(encode_varint(1), vec![0x01]);
    assert_eq!(encode_varint(127), vec![0x7f]);
    assert_eq!(encode_varint(128), vec![0x80, 0x01]);
    assert_eq!(encode_varint(300), vec![0xac, 0x02]);
    assert_eq!(encode_varint(25565), vec![0xdd, 0xc7, 0x01]);
}

#[test]
fn varint_largest_value_takes_five_bytes() {
    let e = encode_varint(u32::MAX);
    assert_eq!(e, vec![0xff, 0xff, 0xff, 0xff, 0x0f]);
    assert_eq!(read_varint(&e, 0), VarintRead::Value { value: u32::MAX, len: 5 });
}

#[test]
fn varint_round_trip_samples() {
    for x in [0u32, 1, 127, 128, 255, 16383, 16384, 2097151, 2097152, 1 << 28, u32::MAX - 1, u32::MAX] {
        let mut e = encode_varint(x);
        assert!(e.len() <= 5);
        let n = e.len();
        e.extend_from_slice(&[0x99, 0x01]);
        assert_eq!(read_varint(&e, 0), VarintRead::Value { value: x, len: n });
    }
}

#[test]
fn varint_read_at_offset() {
    let mut v = vec![0xaa, 0xbb];
    write_varint(&mut v, 300);
    assert_eq!(read_varint(&v, 2), VarintRead::Value { value: 300, len: 2 });
}

#[test]
fn varint_incomplete_and_too_long() {
    assert_eq!(read_varint(&[], 0), VarintRead::Incomplete);
    assert_eq!(read_varint(&[0x80], 0), VarintRead::Incomplete);
    assert_eq!(read_varint(&[0x80, 0x80, 0x80, 0x80], 0), VarintRead::Incomplete);
    assert_eq!(read_varint(&[0x80, 0x80, 0x80, 0x80, 0x80], 0), VarintRead::TooLong);
    assert_eq!(read_varint(&[0x80, 0x80, 0x80, 0x80, 0x80, 0x01], 0), VarintRead::TooLong);
}

#[test]
fn frame_uncompressed_layout() {
    let mut comp = Compression::new();
    let f = encode_frame(&mut comp, 0x23, &[1, 2, 3], -1);
    assert_eq!(f, vec![4, 0x23, 1, 2, 3]);
}

#[test]
fn frame_below_threshold_has_zero_marker() {
    let mut comp = Compression::new();
    let payload = vec![7u8; 63];
    let f = encode_frame(&mut comp, 5, &payload, 64);
    assert_eq!(f[0] as usize, 1 + 1 + 63);
    assert_eq!(f[1], 0);
    assert_eq!(f[2], 5);
    assert_eq!(&f[3..], &payload[..]);
}

#[test]
fn frame_at_threshold_is_compressed() {
    let mut comp = Compression::new();
    let payload = vec![7u8; 64];
    let f = encode_frame(&mut comp, 5, &payload, 64);
    // inner length: id + payload = 65 bytes
    assert_eq!(f[1], 65);
    // a zlib stream starts with 0x78
    assert_eq!(f[2], 0x78);
    assert!(f.len() < 64);
    let mut buf = FrameBuffer::new();
    buf.push_bytes(&f);
    let p = buf.decode(&mut comp, 64).unwrap().unwrap();
    assert_eq!(p.id, 5);
    assert_eq!(p.payload, payload);
}

#[test]
fn frame_round_trip_all_branches() {
    let mut comp = Compression::new();
    for threshold in [-1i32, 0, 10, 64, 256] {
        for len in [0usize, 1, 9, 10, 11, 63, 64, 65, 300, 5000] {
            let payload: Vec<u8> = (0..len).map(|i| (i * 31 % 251) as u8).collect();
            let f = encode_frame(&mut comp, 0x3c, &payload, threshold);
            let mut buf = FrameBuffer::new();
            buf.push_bytes(&f);
            let p = buf.decode(&mut comp, threshold).unwrap().unwrap();
            assert_eq!(p.id, 0x3c);
            assert_eq!(p.payload, payload);
            assert!(buf.decode(&mut comp, threshold).unwrap().is_none());
        }
    }
}

#[test]
fn frame_split_across_reads() {
    let mut comp = Compression::new();
    let payload: Vec<u8> = (0..200u32).map(|i| (i % 7) as u8).collect();
    for threshold in [-1i32, 64] {
        let f = encode_frame(&mut comp, 0x12, &payload, threshold);
        for chunk in [1usize, 2, 3, 7, 50] {
            let mut buf = FrameBuffer::new();
            let mut got = Vec::new();
            for piece in f.chunks(chunk) {
                buf.push_bytes(piece);
                got.extend(decode_all(&mut buf, &mut comp, threshold));
            }
            assert_eq!(got.len(), 1);
            assert_eq!(got[0].id, 0x12);
            assert_eq!(got[0].payload, payload);
        }
    }
}

#[test]
fn several_frames_from_one_read() {
    let mut comp = Compression::new();
    let mut bytes = Vec::new();
    for i in 0..5u8 {
        bytes.extend(encode_frame(&mut comp, i as u32, &[i; 3], -1));
    }
    let partial = encode_frame(&mut comp, 9, &[1, 2, 3, 4], -1);
    bytes.extend_from_slice(&partial[..3]);
    let mut buf = FrameBuffer::new();
    buf.push_bytes(&bytes);
    let got = decode_all(&mut buf, &mut comp, -1);
    assert_eq!(got.len(), 5);
    for (i, p) in got.iter().enumerate() {
        assert_eq!(p.id, i as u32);
        assert_eq!(p.payload, vec![i as u8; 3]);
    }
    buf.push_bytes(&partial[3..]);
    let rest = decode_all(&mut buf, &mut comp, -1);
    assert_eq!(rest.len(), 1);
    assert_eq!(rest[0].id, 9);
    assert_eq!(rest[0].payload, vec![1, 2, 3, 4]);
}

#[test]
fn decode_needs_more_data_is_not_an_error() {
    let mut comp = Compression::new();
    let mut buf = FrameBuffer::new();
    assert!(buf.decode(&mut comp, -1).unwrap().is_none());
    buf.push_bytes(&[5, 1, 2]);
    assert!(buf.decode(&mut comp, -1).unwrap().is_none());
    assert!(buf.decode(&mut comp, -1).unwrap().is_none());
    buf.push_bytes(&[3, 4, 5]);
    let p = buf.decode(&mut comp, -1).unwrap().unwrap();
    assert_eq!(p.id, 1);
    assert_eq!(p.payload, vec![2, 3, 4, 5]);
}

#[test]
fn decode_errors() {
    let mut comp = Compression::new();
    let mut buf = FrameBuffer::new();
    buf.push_bytes(&[0x80, 0x80, 0x80, 0x80, 0x80, 0x01]);
    assert!(matches!(buf.decode(&mut comp, -1), Err(FrameError::BadVarint)));

    let mut buf = FrameBuffer::new();
    buf.push_bytes(&encode_varint(2097152));
    assert!(matches!(buf.decode(&mut comp, -1), Err(FrameError::TooLarge)));

    let mut buf = FrameBuffer::new();
    buf.push_bytes(&[0]);
    assert!(matches!(buf.decode(&mut comp, -1), Err(FrameError::BadPacket)));

    let mut buf = FrameBuffer::new();
    buf.push_bytes(&[4, 10, 1, 2, 3]);
    assert!(matches!(buf.decode(&mut comp, 0), Err(FrameError::Inflate)));

    // a declared inner length above the maximum is refused before inflating
    let mut inner = encode_varint(8388609);
    inner.extend_from_slice(&[0x78, 0x9c, 3, 0, 0, 0, 0, 1]);
    let mut f = encode_varint(inner.len() as u32);
    f.extend(inner);
    let mut buf = FrameBuffer::new();
    buf.push_bytes(&f);
    assert!(matches!(buf.decode(&mut comp, 0), Err(FrameError::Inflate)));
}

#[test]
fn compression_context_round_trip() {
    let mut comp = Compression::new();
    let data: Vec<u8> = b"hello hello hello hello hello".to_vec();
    let z = comp.deflate(&data);
    assert_ne!(z, data);
    assert_eq!(comp.inflate(&z, data.len()).unwrap(), data);
    assert!(comp.inflate(&z, data.len() + 1).is_none());
    assert!(comp.inflate(&[1, 2, 3], 10).is_none());
}
