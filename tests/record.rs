use tfrecord_prep::record::{mask, parse_frame, push_frame, FrameError};

#[test]
fn mask_rotates_and_offsets() {
    assert_eq!(mask(0), 0xA282_EAD8);
    assert_eq!(mask(1 << 15), 0xA282_EAD9);
    assert_eq!(mask(1), 0xA284_EAD8);
}

#[test]
fn frame_of_empty_payload() {
    let mut out = Vec::new();
    push_frame(&mut out, &[]);
    assert_eq!(out, vec![0, 0, 0, 0, 0, 0, 0, 0, 41, 3, 152, 7, 216, 234, 130, 162]);
}

#[test]
fn frame_of_short_payload() {
    let mut out = vec![7];
    push_frame(&mut out, b"abc");
    assert_eq!(
        out,
        vec![7, 3, 0, 0, 0, 0, 0, 0, 0, 176, 153, 73, 14, 97, 98, 99, 110, 87, 241, 33]
    );
}

#[test]
fn frame_round_trip() {
    let payload: Vec<u8> = (0u8..=255).collect();
    let mut stream = Vec::new();
    push_frame(&mut stream, &payload);
    push_frame(&mut stream, b"next");
    let (first, used) = parse_frame(&stream).ok().unwrap();
    assert_eq!(first, payload);
    assert_eq!(used, payload.len() + 16);
    let (second, used2) = parse_frame(&stream[used..]).ok().unwrap();
    assert_eq!(second, b"next".to_vec());
    assert_eq!(used + used2, stream.len());
}

#[test]
fn every_single_bit_flip_is_detected() {
    let mut frame = Vec::new();
    push_frame(&mut frame, b"payload");
    for at in 0..frame.len() {
        for bit in 0..8 {
            let mut bad = frame.clone();
            bad[at] ^= 1 << bit;
            assert!(parse_frame(&bad).is_err(), "byte {} bit {}", at, bit);
        }
    }
}

#[test]
fn truncated_frames_are_rejected() {
    let mut frame = Vec::new();
    push_frame(&mut frame, b"payload");
    for len in 0..frame.len() {
        assert_eq!(parse_frame(&frame[..len]).err(), Some(FrameError::Truncated));
    }
}
