//! Frame format, encoder and one-shot decode scenarios.

use sha2::Digest;

use dencoder::dencoder::{Decoder, Encoder, EncoderT};
use dencoder::frame::{calcMsgSize, compute_checksum, decode_len, encode_len, MAGIC_BYTE};
use dencoder::transport::BufferSink;
use dencoder::utils::{convert_to_lossy_utf8, to_hex_string};

fn frame_of(p: usize, c: usize, msg: &[u8]) -> Vec<u8> {
    let mut out = vec![0u8; calcMsgSize(p, c, msg.len())];
    Encoder::write_plain(p, c, msg, &mut out).unwrap();
    out
}

#[test]
fn calc_msg_size_values() {
    assert_eq!(calcMsgSize(2, 4, 3), 12);
    assert_eq!(calcMsgSize(1, 0, 0), 3);
    assert_eq!(calcMsgSize(8, 32, 100), 1 + 16 + 100 + 32);
}

#[test]
fn big_endian_length_field() {
    assert_eq!(encode_len(0x0103, 2), vec![0x01, 0x03]);
    assert_eq!(encode_len(0, 2), vec![0x00, 0x00]);
    assert_eq!(encode_len(0xABCD, 2), vec![0xAB, 0xCD]);
    assert_eq!(encode_len(0x01020304, 4), vec![0x01, 0x02, 0x03, 0x04]);
    assert_eq!(decode_len(&[0x01, 0x03]), 0x0103);
    assert_eq!(decode_len(&[0xFF]), 255);
    assert_eq!(decode_len(&[]), 0);
}

#[test]
fn checksum_is_truncated_sha256() {
    let digest = sha2::Sha256::digest([1u8, 2, 3]);
    assert_eq!(compute_checksum(&[1, 2, 3], 4), digest[0..4].to_vec());
    assert_eq!(compute_checksum(&[1, 2, 3], 32), digest[..].to_vec());
    assert_eq!(compute_checksum(&[1, 2, 3], 0), Vec::<u8>::new());
}

#[test]
fn concrete_scenario_p2_c4() {
    // P = 2, C = 4, payload [0x01, 0x02, 0x03]: 12 bytes on the wire.
    let msg = [0x01u8, 0x02, 0x03];
    let out = frame_of(2, 4, &msg);
    let len_ck = sha2::Sha256::digest([0x00u8, 0x03]);
    let msg_ck = sha2::Sha256::digest(msg);
    let expected = vec![
        0xA9, 0x00, 0x03, len_ck[0], len_ck[1], 0x01, 0x02, 0x03, msg_ck[0], msg_ck[1], msg_ck[2],
        msg_ck[3],
    ];
    assert_eq!(out.len(), 12);
    assert_eq!(out, expected);

    let mut dec = Decoder::new_plain(2, 4, 64);
    dec.add(&out).unwrap();
    let mut buf = Vec::new();
    dec.read_msg(&mut buf, 16).unwrap();
    assert_eq!(buf, msg.to_vec());
}

#[test]
fn magic_byte_value() {
    assert_eq!(MAGIC_BYTE, 0xA9);
    let out = frame_of(1, 1, &[]);
    assert_eq!(out[0], 0xA9);
}

#[test]
fn round_trip_various_sizes() {
    for (p, c) in [(1usize, 0usize), (1, 4), (2, 4), (3, 32), (8, 16)] {
        for msg_len in [0usize, 1, 2, 17, 200] {
            let msg: Vec<u8> = (0..msg_len).map(|i| (i * 7 + 3) as u8).collect();
            let out = frame_of(p, c, &msg);
            let mut dec = Decoder::new_plain(p, c, 1024);
            dec.add(&out).unwrap();
            let mut buf = Vec::new();
            dec.read_msg(&mut buf, 512).unwrap();
            assert_eq!(buf, msg, "round trip failed for p={p} c={c} len={msg_len}");
        }
    }
}

#[test]
fn encoder_rejects_oversized_message() {
    // With a one-byte length field, 256 bytes can no longer be framed.
    let msg = vec![0x55u8; 256];
    let mut out = vec![0u8; calcMsgSize(1, 4, 256)];
    let untouched = out.clone();
    assert_eq!(Encoder::write_plain(1, 4, &msg, &mut out), Err(()));
    assert_eq!(out, untouched);

    // Through a real transport: the sink shows zero transmit activity.
    let sink = BufferSink::new(300);
    let mut enc = Encoder::new(sink, 1, 4);
    assert_eq!(enc.write(&msg), Err(()));
    let buf = enc.into_transport().into_buffer();
    assert_eq!(buf, vec![0u8; 300]);

    // 255 bytes still fit.
    let ok_msg = vec![0x55u8; 255];
    let out = frame_of(1, 4, &ok_msg);
    assert_eq!(out.len(), 1 + 2 + 255 + 4);
}

#[test]
fn write_plain_checks_output_size_exactly() {
    let msg = [0x01u8, 0x02, 0x03];
    for bad_len in [0usize, 11, 13, 24] {
        let mut out: Vec<u8> = (0..bad_len).map(|i| i as u8).collect();
        let untouched = out.clone();
        assert_eq!(Encoder::write_plain(2, 4, &msg, &mut out), Err(()));
        assert_eq!(out, untouched);
    }
    let mut out = vec![0u8; 12];
    assert!(Encoder::write_plain(2, 4, &msg, &mut out).is_ok());
}

#[test]
fn encoder_through_buffer_sink_reports_partial() {
    // A sink with too little room takes what fits; write still succeeds,
    // because a partial transmit is reported, not retried.
    let msg = [0x01u8, 0x02, 0x03];
    let full = frame_of(2, 4, &msg);
    let sink = BufferSink::new(5);
    let mut enc = Encoder::new(sink, 2, 4);
    assert!(enc.write(&msg).is_ok());
    let buf = enc.into_transport().into_buffer();
    assert_eq!(buf, full[0..5].to_vec());
}

#[test]
fn hex_string_rendering() {
    assert_eq!(to_hex_string(&[]), "");
    assert_eq!(to_hex_string(&[0xA9]), "a9");
    assert_eq!(to_hex_string(&[0x00, 0xFF, 0x12, 0x34]), "00ff1234");
}

#[test]
fn lossy_utf8_replaces_non_ascii() {
    let mut data = vec![b'a', 200, 0x7F, 128, b'z', 255];
    convert_to_lossy_utf8(&mut data);
    assert_eq!(data, vec![b'a', b'?', 0x7F, b'?', b'z', b'?']);

    let mut ascii = vec![0u8, 1, 65, 127];
    convert_to_lossy_utf8(&mut ascii);
    assert_eq!(ascii, vec![0, 1, 65, 127]);
}
