use ublox::packets::MAX_PAYLOAD_LEN;
use ublox::packets::PacketRef;
use ublox::packets::ParserError;
use ublox::parser::BufParser;
use ublox::parser::Parser;

#[test]
fn test_max_payload_len() {
    assert!(MAX_PAYLOAD_LEN >= 1240);
}

/// Builds a well-formed frame around `payload`.
fn make_frame(class: u8, msg_id: u8, payload: &[u8]) -> Vec<u8> {
    let mut body = vec![
        class,
        msg_id,
        (payload.len() % 256) as u8,
        ((payload.len() / 256) % 256) as u8,
    ];
    body.extend_from_slice(payload);
    let mut ck_a: u8 = 0;
    let mut ck_b: u8 = 0;
    for b in &body {
        ck_a = ck_a.wrapping_add(*b);
        ck_b = ck_b.wrapping_add(ck_a);
    }
    let mut f = vec![0xb5u8, 0x62];
    f.extend_from_slice(&body);
    f.push(ck_a);
    f.push(ck_b);
    f
}

/// Feeds one chunk and collects every outcome of the call.
fn feed(parser: &mut Parser, chunk: &[u8]) -> Vec<Result<PacketRef, ParserError>> {
    let mut out = Vec::new();
    let mut it = parser.consume(chunk);
    while let Some(r) = it.next() {
        out.push(r);
    }
    parser.commit(it);
    out
}

#[test]
fn happy_path_single_frame() {
    let mut parser = Parser::default();
    let frame = make_frame(2, 3, &[1, 2, 3]);
    let out = feed(&mut parser, &frame);
    assert_eq!(out.len(), 1);
    match &out[0] {
        Ok(PacketRef::Unknown { class, msg_id, payload }) => {
            assert_eq!(*class, 2);
            assert_eq!(*msg_id, 3);
            assert_eq!(payload, &vec![1u8, 2, 3]);
        },
        other => panic!("expected a decoded frame, got {:?}", other),
    }
    assert!(parser.is_buffer_empty());
    assert_eq!(parser.buffer_len(), 0);
}

#[test]
fn ack_ack_decodes() {
    let mut parser = Parser::default();
    let frame = make_frame(5, 1, &[6, 7]);
    let out = feed(&mut parser, &frame);
    assert_eq!(out.len(), 1);
    match &out[0] {
        Ok(PacketRef::AckAck { cls, msg }) => {
            assert_eq!(*cls, 6);
            assert_eq!(*msg, 7);
        },
        other => panic!("expected an acknowledgement, got {:?}", other),
    }
}

#[test]
fn ack_with_wrong_payload_len_is_a_dispatch_error() {
    let mut parser = Parser::default();
    let frame = make_frame(5, 1, &[1, 2, 3]);
    let out = feed(&mut parser, &frame);
    assert_eq!(out.len(), 1);
    assert_eq!(
        out[0].as_ref().err(),
        Some(&ParserError::InvalidPacketLen { expect: 2, got: 3 })
    );
}

#[test]
fn corrupted_byte_gives_one_mismatch_then_next_frame_decodes() {
    let mut parser = Parser::default();
    let mut bad = make_frame(2, 3, &[1, 2, 3]);
    let expect = u16::from_le_bytes([bad[9], bad[10]]);
    bad[6] ^= 0x01;
    let good = make_frame(4, 9, &[8]);
    let mut stream = bad.clone();
    stream.extend_from_slice(&good);
    let out = feed(&mut parser, &stream);
    assert_eq!(out.len(), 2);
    match &out[0] {
        Err(ParserError::InvalidChecksum { expect: e, got: g }) => {
            assert_eq!(*e, expect);
            assert_ne!(*e, *g);
        },
        other => panic!("expected a checksum mismatch, got {:?}", other),
    }
    match &out[1] {
        Ok(PacketRef::Unknown { class, msg_id, payload }) => {
            assert_eq!(*class, 4);
            assert_eq!(*msg_id, 9);
            assert_eq!(payload, &vec![8u8]);
        },
        other => panic!("expected a decoded frame, got {:?}", other),
    }
}

#[test]
fn stray_marker_produces_no_outcome_and_blocks_nothing() {
    let mut parser = Parser::default();
    let mut stream = vec![0xb5u8, 0x00];
    stream.extend_from_slice(&make_frame(2, 3, &[7]));
    let out = feed(&mut parser, &stream);
    assert_eq!(out.len(), 1);
    assert!(matches!(&out[0], Ok(PacketRef::Unknown { class: 2, .. })));
}

#[test]
fn oversized_length_is_skipped() {
    let mut parser = Parser::default();
    let mut stream = vec![0xb5u8, 0x62, 0x01, 0x02, 0xff, 0xff];
    stream.extend_from_slice(&make_frame(2, 3, &[7]));
    let out = feed(&mut parser, &stream);
    assert_eq!(out.len(), 1);
    assert!(matches!(&out[0], Ok(PacketRef::Unknown { class: 2, .. })));
}

#[test]
fn pure_noise_yields_nothing_and_empties_the_store() {
    let mut parser = Parser::default();
    let out = feed(&mut parser, &[1, 2, 3, 4, 99]);
    assert_eq!(out.len(), 0);
    assert!(parser.is_buffer_empty());
}

#[test]
fn frame_split_across_chunks_decodes_once_complete() {
    let mut parser = Parser::default();
    let frame = make_frame(2, 3, &[1, 2, 3, 4]);
    let (first, second) = frame.split_at(5);
    let out = feed(&mut parser, first);
    assert_eq!(out.len(), 0);
    assert_eq!(parser.buffer_len(), first.len());
    let out = feed(&mut parser, second);
    assert_eq!(out.len(), 1);
    assert!(matches!(&out[0], Ok(PacketRef::Unknown { class: 2, .. })));
    assert!(parser.is_buffer_empty());
}

/// Reduces an outcome to a comparable shape.
fn tag(r: &Result<PacketRef, ParserError>) -> (u8, Vec<u8>) {
    match r {
        Ok(PacketRef::AckAck { cls, msg }) => (0, vec![*cls, *msg]),
        Ok(PacketRef::Unknown { class, msg_id, payload }) => {
            let mut v = vec![*class, *msg_id];
            v.extend_from_slice(payload);
            (1, v)
        },
        Err(ParserError::InvalidChecksum { expect, got }) => {
            (2, vec![*expect as u8, (*expect >> 8) as u8, *got as u8, (*got >> 8) as u8])
        },
        Err(ParserError::InvalidPacketLen { expect, got }) => (3, vec![*expect as u8, *got as u8]),
    }
}

#[test]
fn ring_backed_parser_decodes_a_frame() {
    let mut parser = BufParser::new(vec![0u8; 64]);
    let frame = make_frame(2, 3, &[1, 2, 3]);
    let mut it = parser.consume(&frame);
    assert_eq!(it.accepted(), frame.len());
    let mut out = Vec::new();
    while let Some(r) = it.next() {
        out.push(r);
    }
    parser.commit(it);
    assert_eq!(out.len(), 1);
    match &out[0] {
        Ok(PacketRef::Unknown { class, msg_id, payload }) => {
            assert_eq!(*class, 2);
            assert_eq!(*msg_id, 3);
            assert_eq!(payload, &vec![1u8, 2, 3]);
        },
        other => panic!("expected a decoded frame, got {:?}", other),
    }
    let mut it = parser.consume(&[]);
    assert!(it.next().is_none());
    parser.commit(it);
}

#[test]
fn ring_backed_parser_rejects_what_does_not_fit() {
    let mut parser = BufParser::new(vec![0u8; 5]);
    let mut it = parser.consume(&[13, 14, 15, 16, 17]);
    assert_eq!(it.accepted(), 4);
    assert!(it.next().is_none());
    parser.commit(it);
    let it = parser.consume(&[18]);
    assert_eq!(it.accepted(), 0);
    parser.commit(it);
}

#[test]
fn outcomes_do_not_depend_on_chunking() {
    let mut stream = make_frame(2, 3, &[1, 2, 3]);
    stream.extend_from_slice(&[0xb5, 0x07, 0x33]);
    let mut corrupt = make_frame(5, 1, &[6, 7]);
    corrupt[7] ^= 0x40;
    stream.extend_from_slice(&corrupt);
    stream.extend_from_slice(&make_frame(5, 1, &[6, 7]));

    let mut whole = Parser::default();
    let expected: Vec<(u8, Vec<u8>)> = feed(&mut whole, &stream).iter().map(tag).collect();
    assert_eq!(expected.len(), 3);

    for chunk_size in 1..stream.len() {
        let mut parser = Parser::default();
        let mut got: Vec<(u8, Vec<u8>)> = Vec::new();
        for chunk in stream.chunks(chunk_size) {
            got.extend(feed(&mut parser, chunk).iter().map(tag));
        }
        assert_eq!(got, expected, "chunk size {}", chunk_size);
    }
}
