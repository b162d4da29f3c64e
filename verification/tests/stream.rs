//! Streamed decoding: partial delivery, resynchronization, corruption and
//! the staging-queue adapter, plus the raw transport contracts.

use dencoder::dencoder::{Decoder, DecoderT, Encoder};
use dencoder::frame::calcMsgSize;
use dencoder::transport::{
    BufferSink, CapacityError, CodecError, RxTransport, StagingBuffer, TransmissionStatus,
    TxTransport,
};

fn frame_of(p: usize, c: usize, msg: &[u8]) -> Vec<u8> {
    let mut out = vec![0u8; calcMsgSize(p, c, msg.len())];
    Encoder::write_plain(p, c, msg, &mut out).unwrap();
    out
}

#[test]
fn chunked_delivery_matches_one_shot() {
    let msg = [0x01u8, 0x02, 0x03];
    let frame = frame_of(2, 4, &msg);

    // One byte per call: every call but the last would block.
    let mut dec = Decoder::new_plain(2, 4, 64);
    let mut buf = Vec::new();
    for (i, byte) in frame.iter().enumerate() {
        dec.add(&[*byte]).unwrap();
        if i + 1 < frame.len() {
            assert_eq!(dec.read_msg(&mut buf, 16), Err(CodecError::WouldBlock));
        }
    }
    assert_eq!(dec.read_msg(&mut buf, 16), Ok(()));
    assert_eq!(buf, msg.to_vec());

    // The same frame in one call gives the same payload.
    let mut dec2 = Decoder::new_plain(2, 4, 64);
    dec2.add(&frame).unwrap();
    let mut buf2 = Vec::new();
    assert_eq!(dec2.read_msg(&mut buf2, 16), Ok(()));
    assert_eq!(buf2, buf);
}

#[test]
fn resync_on_leading_noise() {
    let msg = [0xAAu8, 0xBB];
    let frame = frame_of(2, 4, &msg);
    let mut stream = vec![0x00u8, 0x17, 0xFE, 0x42];  // no 0xA9 in here
    stream.extend_from_slice(&frame);

    let mut dec = Decoder::new_plain(2, 4, 64);
    dec.add(&stream).unwrap();
    let mut buf = Vec::new();
    assert_eq!(dec.read_msg(&mut buf, 16), Ok(()));
    assert_eq!(buf, msg.to_vec());
}

#[test]
fn tampered_length_checksum_is_rejected() {
    let msg = [0x01u8, 0x02, 0x03];
    let mut frame = frame_of(2, 4, &msg);
    frame[3] ^= 0x01;  // first byte of the length checksum

    let mut dec = Decoder::new_plain(2, 4, 64);
    dec.add(&frame).unwrap();
    let mut buf = Vec::new();
    assert_eq!(dec.read_msg(&mut buf, 16), Err(CodecError::WouldBlock));
}

#[test]
fn tampered_payload_checksum_is_rejected() {
    let msg = [0x01u8, 0x02, 0x03];
    for bit in 0..8u8 {
        let mut frame = frame_of(2, 4, &msg);
        let last = frame.len() - 1;
        frame[last] ^= 1 << bit;  // last byte of the payload checksum

        let mut dec = Decoder::new_plain(2, 4, 64);
        dec.add(&frame).unwrap();
        let mut buf = Vec::new();
        assert_eq!(dec.read_msg(&mut buf, 16), Err(CodecError::WouldBlock));
    }
}

#[test]
fn payload_larger_than_capacity_is_dropped() {
    let msg = [0x01u8, 0x02, 0x03];
    let frame = frame_of(2, 4, &msg);
    let mut dec = Decoder::new_plain(2, 4, 64);
    dec.add(&frame).unwrap();
    let mut buf = Vec::new();
    // Capacity 2 cannot hold the 3-byte payload: the frame is treated as
    // corrupt and the decoder resynchronizes.
    assert_eq!(dec.read_msg(&mut buf, 2), Err(CodecError::WouldBlock));
}

#[test]
fn frame_overflowing_decode_buffer_is_fatal() {
    let msg = [0x01u8, 0x02, 0x03];
    let frame = frame_of(2, 4, &msg);
    // Room for only 4 accumulated bytes, but a 64-byte staging queue.
    let mut dec = Decoder::new(StagingBuffer::new(64), 2, 4, 4);
    dec.add(&frame).unwrap();
    let mut buf = Vec::new();
    assert_eq!(dec.read_msg(&mut buf, 16), Err(CodecError::Fatal));
}

#[test]
fn read_on_empty_decoder_would_block() {
    let mut dec = Decoder::new_plain(2, 4, 64);
    let mut buf = Vec::new();
    assert_eq!(dec.read(&mut buf, 16), Err(CodecError::WouldBlock));
}

#[test]
fn staging_queue_capacity_and_recover() {
    let mut dec = Decoder::new_plain(2, 4, 8);
    assert_eq!(dec.add(&[1, 2, 3, 4, 5, 6, 7, 8, 9]), Err(CapacityError));
    assert_eq!(dec.add(&[1, 2, 3, 4, 5, 6, 7, 8]), Ok(()));
    assert_eq!(dec.add(&[9]), Err(CapacityError));
    assert_eq!(dec.recover_input(), vec![1, 2, 3, 4, 5, 6, 7, 8]);
    assert_eq!(dec.recover_input(), Vec::<u8>::new());
    assert_eq!(dec.add(&[9]), Ok(()));
}

#[test]
fn clear_resets_only_the_accumulated_frame() {
    let msg = [0x07u8];
    let frame = frame_of(2, 4, &msg);

    // Feed a bogus frame start, let the decoder accumulate it...
    let mut dec = Decoder::new_plain(2, 4, 64);
    dec.add(&[0xA9, 0x00]).unwrap();
    let mut buf = Vec::new();
    assert_eq!(dec.read_msg(&mut buf, 16), Err(CodecError::WouldBlock));
    // ...then reset the in-flight frame and decode a clean one.
    dec.clear();
    dec.add(&frame).unwrap();
    assert_eq!(dec.read_msg(&mut buf, 16), Ok(()));
    assert_eq!(buf, msg.to_vec());
}

#[test]
fn staging_transport_contract() {
    let mut st = StagingBuffer::new(16);
    st.stage(&[1, 2, 3]).unwrap();

    let mut two = vec![0u8; 2];
    assert!(matches!(st.receive(&mut two), Ok(TransmissionStatus::Complete)));
    assert_eq!(two, vec![1, 2]);

    let mut more = vec![0u8; 2];
    assert!(matches!(st.receive(&mut more), Ok(TransmissionStatus::Partial(1))));
    assert_eq!(more[0], 3);

    let mut empty = vec![0u8; 1];
    assert!(matches!(st.receive(&mut empty), Err(CodecError::WouldBlock)));

    st.stage(&[7]).unwrap();
    assert_eq!(st.take_all(), vec![7]);
}

#[test]
fn buffer_sink_contract() {
    let mut sink = BufferSink::new(3);
    let chunks = vec![vec![1u8, 2], vec![3, 4]];
    assert!(matches!(sink.transmit(&chunks), Ok(TransmissionStatus::Partial(3))));
    assert_eq!(sink.into_buffer(), vec![1, 2, 3]);

    let mut sink2 = BufferSink::new(4);
    let chunks2 = vec![vec![9u8], vec![], vec![8, 7, 6]];
    assert!(matches!(sink2.transmit(&chunks2), Ok(TransmissionStatus::Complete)));
    assert_eq!(sink2.into_buffer(), vec![9, 8, 7, 6]);
}
