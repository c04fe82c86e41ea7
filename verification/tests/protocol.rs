use extender_protocol::protocol::{
    decode_len_prefix, encode_len_prefix, frame_message, parse_frame, Codec, FrameError, Message,
    FRAME_HEADER_LEN, PROTOCOL_VERSION,
};

#[test]
fn protocol_version_is_one() {
    assert_eq!(PROTOCOL_VERSION, 1);
    assert_eq!(FRAME_HEADER_LEN, 4);
}

#[test]
fn len_prefix_is_little_endian() {
    assert_eq!(encode_len_prefix(0x0102_0304), [4, 3, 2, 1]);
    assert_eq!(encode_len_prefix(0), [0, 0, 0, 0]);
    assert_eq!(encode_len_prefix(u32::MAX), [255, 255, 255, 255]);
    assert_eq!(decode_len_prefix([4, 3, 2, 1]), 0x0102_0304);
    assert_eq!(decode_len_prefix([0x38, 0x04, 0, 0]), 1080);
}

#[test]
fn len_prefix_roundtrip_on_samples() {
    for n in [0u32, 1, 255, 256, 1920, 65_535, 65_536, 16_777_216, u32::MAX] {
        assert_eq!(decode_len_prefix(encode_len_prefix(n)), n);
        assert_eq!(encode_len_prefix(n), n.to_le_bytes());
    }
}

#[test]
fn frame_is_length_then_body() {
    assert_eq!(frame_message(&[1, 2, 3]).unwrap(), vec![3, 0, 0, 0, 1, 2, 3]);
    assert_eq!(frame_message(&[]).unwrap(), vec![0, 0, 0, 0]);
}

#[test]
fn parse_frame_reads_the_front_frame() {
    let buf = vec![2, 0, 0, 0, 9, 8, 7, 7];
    let (body, used) = parse_frame(&buf).unwrap();
    assert_eq!(body, vec![9, 8]);
    assert_eq!(used, 6);
}

#[test]
fn parse_frame_reports_a_short_header() {
    assert_eq!(parse_frame(&[]), Err(FrameError::UnexpectedEof));
    assert_eq!(parse_frame(&[1, 0, 0]), Err(FrameError::UnexpectedEof));
}

#[test]
fn parse_frame_reports_a_truncated_body() {
    assert_eq!(parse_frame(&[5, 0, 0, 0, 1, 2]), Err(FrameError::UnexpectedEof));
    assert_eq!(parse_frame(&[0, 0, 0, 1]), Err(FrameError::UnexpectedEof));
}

#[test]
fn frames_roundtrip_over_a_buffer() {
    let bodies: Vec<Vec<u8>> = vec![
        vec![0, 128, 15, 184, 8, 0, 2, 4, 1, 2, 3, 4, 2, 5, 6],
        vec![1, 14, 120, 1, 6, 0, 1, 2, 3, 4, 5],
        vec![1, 16, 120, 0, 3, 9, 9, 9],
        vec![],
    ];
    let mut buf = Vec::new();
    for b in &bodies {
        buf.extend_from_slice(&frame_message(b).unwrap());
    }
    let mut pos = 0;
    for expected in &bodies {
        let (got, used) = parse_frame(&buf[pos..]).unwrap();
        assert_eq!(&got, expected);
        pos += used;
    }
    assert_eq!(pos, buf.len());
    assert_eq!(parse_frame(&buf[pos..]), Err(FrameError::UnexpectedEof));
}

#[test]
fn messages_compare_by_value() {
    let start = Message::StreamStart {
        width: 1920,
        height: 1080,
        codec: Codec::H264,
        parameter_sets: vec![vec![1, 2, 3, 4], vec![5, 6]],
    };
    let frame = Message::Frame { pts_value: 7, pts_timescale: 60, keyframe: true, data: vec![0, 1, 2, 3, 4, 5] };
    assert_eq!(start.clone(), start);
    assert_ne!(start, frame);
    assert_ne!(Codec::H264, Codec::Hevc);
}
