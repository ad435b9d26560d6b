use pactlers::protocol::{decode_frame, encode_frame, Cmd, FrameDecode, HEADER, N_ADCS};

#[test]
fn constants() {
    assert_eq!(HEADER, [0xFF, 0xFF, 0xFD, 0]);
    assert_eq!(N_ADCS, 5);
}

#[test]
fn frame_of_small_volume() {
    let f = encode_frame(Cmd::new(2, 100));
    assert_eq!(f, vec![0xFF, 0xFF, 0xFD, 0, 2, 2, 100]);
}

#[test]
fn frame_of_volume_250_uses_one_byte() {
    let f = encode_frame(Cmd::new(0, 250));
    assert_eq!(f, vec![0xFF, 0xFF, 0xFD, 0, 2, 0, 250]);
}

#[test]
fn frame_of_volume_251_uses_three_bytes() {
    let f = encode_frame(Cmd::new(0, 251));
    assert_eq!(f, vec![0xFF, 0xFF, 0xFD, 0, 4, 0, 251, 251, 0]);
}

#[test]
fn frame_of_large_volume() {
    let f = encode_frame(Cmd::new(1, 4095));
    assert_eq!(f, vec![0xFF, 0xFF, 0xFD, 0, 4, 1, 251, 0xFF, 0x0F]);
}

#[test]
fn frame_roundtrip() {
    for &(s, v) in &[(0u8, 0u16), (4, 250), (3, 251), (1, 4095), (255, u16::MAX)] {
        let c = Cmd::new(s, v);
        let mut f = encode_frame(c);
        let n = f.len();
        f.extend_from_slice(&[0xFF, 0x00, 7]);
        assert_eq!(decode_frame(&f), FrameDecode::Frame(c, n));
    }
}

#[test]
fn short_input_is_incomplete() {
    assert_eq!(decode_frame(&[]), FrameDecode::Incomplete);
    assert_eq!(decode_frame(&[0xFF, 0xFF, 0xFD, 0]), FrameDecode::Incomplete);
    // header and length say four payload bytes, only two arrived
    assert_eq!(decode_frame(&[0xFF, 0xFF, 0xFD, 0, 4, 1, 251]), FrameDecode::Incomplete);
}

#[test]
fn garbage_is_skipped_one_byte_at_a_time() {
    assert_eq!(decode_frame(&[0x12, 0xFF, 0xFF, 0xFD, 0, 2, 2, 100]), FrameDecode::Skip(1));
    assert_eq!(
        decode_frame(&[0xFF, 0xFF, 0xFD, 0, 2, 2, 100][1..]),
        FrameDecode::Skip(1)
    );
}

#[test]
fn bad_payload_is_dropped_whole() {
    // volume marker 252 announces a u32: not a u16
    assert_eq!(
        decode_frame(&[0xFF, 0xFF, 0xFD, 0, 3, 1, 252, 0, 9]),
        FrameDecode::Skip(8)
    );
    // the length byte says three bytes but the command takes two
    assert_eq!(decode_frame(&[0xFF, 0xFF, 0xFD, 0, 3, 1, 5, 9]), FrameDecode::Skip(8));
    // empty payload
    assert_eq!(decode_frame(&[0xFF, 0xFF, 0xFD, 0, 0, 1]), FrameDecode::Skip(5));
}
