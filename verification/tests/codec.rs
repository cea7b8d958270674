use dns_codec::buffer::{BytePacketBuffer, DnsError, CAPACITY};
use dns_codec::header::{DnsHeader, ResultCode};
use dns_codec::packet::{from_buffer, DnsPacket, DnsQuestion, DnsRecord, QueryType};

fn empty_buffer() -> BytePacketBuffer {
    BytePacketBuffer::new([0u8; CAPACITY])
}

#[test]
fn read_and_write_integers_big_endian() {
    let mut b = empty_buffer();
    b.write_u16(0xABCD).unwrap();
    b.write_u32(0x01020304).unwrap();
    assert_eq!(b.buf[0..6], [0xAB, 0xCD, 0x01, 0x02, 0x03, 0x04]);
    b.seek(0).unwrap();
    assert_eq!(b.read_u16().unwrap(), 0xABCD);
    assert_eq!(b.read_u32().unwrap(), 0x01020304);
    assert_eq!(b.pos(), 6);
}

#[test]
fn read_past_capacity_is_buffer_exhausted() {
    let mut b = empty_buffer();
    b.seek(CAPACITY).unwrap();
    assert_eq!(b.read(), Err(DnsError::BufferExhausted));
    b.seek(CAPACITY - 1).unwrap();
    assert!(b.read().is_ok());
    assert_eq!(b.read(), Err(DnsError::BufferExhausted));
}

#[test]
fn write_past_capacity_is_buffer_full() {
    let mut b = empty_buffer();
    b.seek(CAPACITY).unwrap();
    assert_eq!(b.write(1), Err(DnsError::BufferFull));
    b.seek(CAPACITY - 1).unwrap();
    assert!(b.write(1).is_ok());
    assert_eq!(b.write(2), Err(DnsError::BufferFull));
}

#[test]
fn seek_and_step_are_lazily_validated() {
    let mut b = empty_buffer();
    b.seek(10_000).unwrap();
    assert_eq!(b.pos(), 10_000);
    assert_eq!(b.read(), Err(DnsError::BufferExhausted));
    b.seek(0).unwrap();
    b.step(600).unwrap();
    assert_eq!(b.pos(), 600);
    assert_eq!(b.read(), Err(DnsError::BufferExhausted));
}

// Boundary behavior of peeking a range: the check is a strict inequality
// against the capacity, so a range ending exactly at the last valid index
// is rejected too.
#[test]
fn get_range_boundary_is_strict() {
    let b = empty_buffer();
    assert!(b.get_range(0, 510).is_ok());
    assert!(b.get_range(507, 4).is_ok());
    assert_eq!(b.get_range(508, 4), Err(DnsError::BufferExhausted));
    assert_eq!(b.get_range(0, CAPACITY), Err(DnsError::BufferExhausted));
    assert_eq!(b.get_range(CAPACITY - 1, 1), Err(DnsError::BufferExhausted));
    assert_eq!(b.get_range(CAPACITY, 1), Err(DnsError::BufferExhausted));
}

#[test]
fn set_range_writes_without_moving_cursor() {
    let mut b = empty_buffer();
    b.set_range(3, 4, &[9, 8, 7, 6]).unwrap();
    assert_eq!(b.buf[2..8], [0, 9, 8, 7, 6, 0]);
    assert_eq!(b.pos(), 0);
    assert_eq!(b.set_range(510, 2, &[1, 2]), Err(DnsError::BufferFull));
    assert_eq!(b.set_range(0, 2, &[1]), Err(DnsError::BufferFull));
}

#[test]
fn qname_writes_labels_and_reads_them_back() {
    let mut b = empty_buffer();
    b.write_qname("www.example.com").unwrap();
    assert_eq!(
        b.buf[0..17],
        [
            3, b'w', b'w', b'w', 7, b'e', b'x', b'a', b'm', b'p', b'l', b'e', 3, b'c', b'o',
            b'm', 0
        ]
    );
    b.seek(0).unwrap();
    let mut name = String::new();
    let range = b.read_qname(&mut name).unwrap();
    assert_eq!(name, "www.example.com");
    assert_eq!(b.pos(), 17);
    assert_eq!(range.start, 0);
    assert_eq!(range.end, 17);
}

#[test]
fn qname_read_lower_cases_labels() {
    let mut raw = [0u8; CAPACITY];
    raw[0] = 3;
    raw[1] = b'W';
    raw[2] = b'w';
    raw[3] = b'W';
    let mut b = BytePacketBuffer::new(raw);
    let mut name = String::new();
    b.read_qname(&mut name).unwrap();
    assert_eq!(name, "www");
}

#[test]
fn qname_rejects_long_label() {
    let mut b = empty_buffer();
    let long = "a".repeat(64);
    assert_eq!(b.write_qname(&long), Err(DnsError::InvalidLabel));
    // Nothing was written and the cursor did not move.
    assert_eq!(b.pos(), 0);
    assert_eq!(b.buf[0], 0);
    assert!(b.write_qname(&"a".repeat(63)).is_ok());
}

#[test]
fn qname_rejects_non_ascii_label() {
    let mut b = empty_buffer();
    assert_eq!(b.write_qname("h\u{e9}llo"), Err(DnsError::InvalidLabel));
    assert_eq!(b.pos(), 0);
}

// Name compression: a second name encoded solely as a pointer to the first
// decodes to the same string, and the cursor lands exactly two bytes past
// the pointer's own position.
#[test]
fn qname_follows_compression_pointer() {
    let mut raw = [0u8; CAPACITY];
    raw[0] = 3;
    raw[1] = b'w';
    raw[2] = b'w';
    raw[3] = b'w';
    raw[4] = 0;
    raw[5] = 0xC0; // pointer to offset 0
    raw[6] = 0x00;
    let mut b = BytePacketBuffer::new(raw);
    let mut first = String::new();
    b.read_qname(&mut first).unwrap();
    assert_eq!(first, "www");
    assert_eq!(b.pos(), 5);
    let mut second = String::new();
    b.read_qname(&mut second).unwrap();
    assert_eq!(second, first);
    assert_eq!(b.pos(), 5 + 2);
}

// Pointer-loop defense: a pointer that targets itself fails with
// PointerLoop instead of hanging.
#[test]
fn qname_self_pointer_fails_with_pointer_loop() {
    let mut raw = [0u8; CAPACITY];
    raw[0] = 0xC0;
    raw[1] = 0x00;
    let mut b = BytePacketBuffer::new(raw);
    let mut name = String::new();
    assert_eq!(b.read_qname(&mut name), Err(DnsError::PointerLoop));
}

#[test]
fn qname_pointer_cycle_fails_with_pointer_loop() {
    let mut raw = [0u8; CAPACITY];
    raw[0] = 0xC0; // points to offset 2
    raw[1] = 0x02;
    raw[2] = 0xC0; // points back to offset 0
    raw[3] = 0x00;
    let mut b = BytePacketBuffer::new(raw);
    let mut name = String::new();
    assert_eq!(b.read_qname(&mut name), Err(DnsError::PointerLoop));
}

#[test]
fn result_code_decodes_permissively() {
    assert_eq!(ResultCode::from_num(0), ResultCode::NOERROR);
    assert_eq!(ResultCode::from_num(4), ResultCode::NOTIMP);
    // every other 4-bit value normalizes to NOERROR
    assert_eq!(ResultCode::from_num(1), ResultCode::NOERROR);
    assert_eq!(ResultCode::from_num(3), ResultCode::NOERROR);
    assert_eq!(ResultCode::from_num(5), ResultCode::NOERROR);
    assert_eq!(ResultCode::NOTIMP.to_num(), 4);
    assert_eq!(ResultCode::REFUSED.to_num(), 5);
}

#[test]
fn query_type_codes_round_trip() {
    assert_eq!(QueryType::from_num(1), QueryType::A);
    assert_eq!(QueryType::from_num(5), QueryType::UNKNOWN(5));
    assert_eq!(QueryType::A.to_num(), 1);
    assert_eq!(QueryType::UNKNOWN(5).to_num(), 5);
}

// Header bit-packing: every combination of the four single-bit flags in the
// high flag byte and every 4-bit opcode survives a write/read round trip.
#[test]
fn header_flag_bits_round_trip() {
    for flags in 0u8..16 {
        for opcode in 0u8..16 {
            let mut h = DnsHeader::new();
            h.recursion_desired = flags & 1 != 0;
            h.truncated_message = flags & 2 != 0;
            h.authoritative_answer = flags & 4 != 0;
            h.response = flags & 8 != 0;
            h.opcode = opcode;
            h.rescode = if opcode % 2 == 0 {
                ResultCode::NOERROR
            } else {
                ResultCode::NOTIMP
            };
            h.checking_disabled = flags & 1 != 0;
            h.authed_data = flags & 2 != 0;
            h.z = flags & 4 != 0;
            h.recursion_available = flags & 8 != 0;
            h.id = 0x55AA;
            h.questions = 7;
            let mut b = empty_buffer();
            h.write(&mut b).unwrap();
            b.seek(0).unwrap();
            let mut h2 = DnsHeader::new();
            h2.read(&mut b).unwrap();
            assert_eq!(h2, h);
        }
    }
}

#[test]
fn header_id_bytes_are_big_endian() {
    let mut h = DnsHeader::new();
    h.id = 0x1234;
    assert_eq!(h.get_id().unwrap(), [0x12, 0x34]);
}

fn query_datagram() -> [u8; CAPACITY] {
    let mut raw = [0u8; CAPACITY];
    let head = [
        0x12, 0x34, // id
        0x01, 0x00, // flags: recursion desired
        0x00, 0x01, // one question
        0x00, 0x00, 0x00, 0x00, 0x00, 0x00,
    ];
    raw[..12].copy_from_slice(&head);
    let q = [
        3, b'w', b'w', b'w', 7, b'e', b'x', b'a', b'm', b'p', b'l', b'e', 3, b'c', b'o', b'm',
        0, 0x00, 0x01, 0x00, 0x01,
    ];
    raw[12..12 + q.len()].copy_from_slice(&q);
    raw
}

// End-to-end: a 12-byte header followed by one question decodes to a packet
// with the expected id, count and question.
#[test]
fn decode_single_question_datagram() {
    let mut b = BytePacketBuffer::new(query_datagram());
    let packet = from_buffer(&mut b).unwrap();
    assert_eq!(packet.header.id, 0x1234);
    assert!(packet.header.recursion_desired);
    assert_eq!(packet.header.questions, 1);
    assert_eq!(packet.questions.len(), 1);
    assert_eq!(packet.questions[0].name, "www.example.com");
    assert_eq!(packet.questions[0].qtype, QueryType::A);
    assert!(packet.answers.is_empty());
}

#[test]
fn decode_skips_unknown_record_payload() {
    let mut raw = query_datagram();
    raw[7] = 1; // one answer
    // answer: pointer to the question name, type 99, class 1, ttl, length 4
    let rec = [
        0xC0, 12, // name: pointer to offset 12
        0x00, 99, // type 99: not interpreted
        0x00, 0x01, // class
        0x00, 0x00, 0x00, 60, // ttl
        0x00, 4, // data length
        0xDE, 0xAD, 0xBE, 0xEF, // opaque payload
    ];
    raw[33..33 + rec.len()].copy_from_slice(&rec);
    let mut b = BytePacketBuffer::new(raw);
    let packet = from_buffer(&mut b).unwrap();
    assert_eq!(packet.answers.len(), 1);
    assert_eq!(
        packet.answers[0],
        DnsRecord::UNKNOWN {
            domain: "www.example.com".to_string(),
            qtype: 99,
            data_index_byte: 4,
            ttl: 60,
        }
    );
    // the opaque payload was skipped, not interpreted
    assert_eq!(b.pos(), 33 + rec.len());
}

#[test]
fn decode_address_record() {
    let mut raw = query_datagram();
    raw[7] = 1; // one answer
    let rec = [
        0xC0, 12, // name: pointer to offset 12
        0x00, 0x01, // type A
        0x00, 0x01, // class
        0x00, 0x00, 0x00, 60, // ttl
        0x00, 4, // data length
        8, 8, 4, 4, // address
    ];
    raw[33..33 + rec.len()].copy_from_slice(&rec);
    let mut b = BytePacketBuffer::new(raw);
    let packet = from_buffer(&mut b).unwrap();
    assert_eq!(packet.answers.len(), 1);
    assert_eq!(
        packet.answers[0],
        DnsRecord::A {
            domain: "www.example.com".to_string(),
            addr: 0x08080404,
            ttl: 60,
        }
    );
}

// Opaque-record skip on encode: a message holding one opaque record and one
// address record encodes to exactly the header, question and address-record
// bytes; the opaque record contributes nothing.
#[test]
fn encode_drops_unknown_records() {
    let mut with_opaque = DnsPacket::new();
    with_opaque.questions.push(DnsQuestion::new(
        "www.example.com".to_string(),
        QueryType::A,
    ));
    with_opaque.answers.push(DnsRecord::UNKNOWN {
        domain: "www.example.com".to_string(),
        qtype: 99,
        data_index_byte: 4,
        ttl: 60,
    });
    with_opaque.answers.push(DnsRecord::A {
        domain: "a.example.com".to_string(),
        addr: 0x08080808,
        ttl: 60,
    });
    let mut b1 = empty_buffer();
    with_opaque.write(&mut b1).unwrap();

    let mut without_opaque = DnsPacket::new();
    without_opaque.questions.push(DnsQuestion::new(
        "www.example.com".to_string(),
        QueryType::A,
    ));
    without_opaque.answers.push(DnsRecord::A {
        domain: "a.example.com".to_string(),
        addr: 0x08080808,
        ttl: 60,
    });
    let mut b2 = empty_buffer();
    without_opaque.write(&mut b2).unwrap();

    // question: 17 + 4 bytes; address record: 15 + 14 bytes
    assert_eq!(b2.pos(), 12 + 21 + 29);
    // the opaque record moved the cursor by nothing at all
    assert_eq!(b1.pos(), b2.pos());
    // past the header, the wire bytes are identical: nothing of the opaque
    // record was emitted
    assert_eq!(b1.buf[12..], b2.buf[12..]);
    // it is still counted in the header, though
    assert_eq!(b1.buf[6..8], [0, 2]);
    assert_eq!(b2.buf[6..8], [0, 1]);
}

#[test]
fn record_write_returns_bytes_written() {
    let rec = DnsRecord::A {
        domain: "a".to_string(),
        addr: 1,
        ttl: 2,
    };
    let mut b = empty_buffer();
    assert_eq!(rec.write(&mut b).unwrap(), 3 + 14);
    let opaque = DnsRecord::UNKNOWN {
        domain: "a".to_string(),
        qtype: 99,
        data_index_byte: 7,
        ttl: 2,
    };
    assert_eq!(opaque.write(&mut b).unwrap(), 0);
}

// Round-trip: encoding a decoded message and decoding it again yields the
// same header counts, questions and address records.
#[test]
fn encode_decode_round_trip() {
    let mut raw = query_datagram();
    raw[7] = 1; // one answer
    let rec = [
        0xC0, 12, 0x00, 0x01, 0x00, 0x01, 0x00, 0x00, 0x00, 60, 0x00, 4, 8, 8, 8, 8,
    ];
    raw[33..33 + rec.len()].copy_from_slice(&rec);
    let mut b = BytePacketBuffer::new(raw);
    let mut packet = from_buffer(&mut b).unwrap();

    let mut out = empty_buffer();
    packet.write(&mut out).unwrap();
    out.seek(0).unwrap();
    let packet2 = from_buffer(&mut out).unwrap();

    assert_eq!(packet2.header, packet.header);
    assert_eq!(packet2.questions, packet.questions);
    assert_eq!(packet2.answers, packet.answers);
    assert_eq!(packet2.authorities, packet.authorities);
    assert_eq!(packet2.resources, packet.resources);
}

#[test]
fn encode_overwrites_header_counts() {
    let mut packet = DnsPacket::new();
    packet.header.questions = 99;
    packet.header.answers = 99;
    packet
        .questions
        .push(DnsQuestion::new("a".to_string(), QueryType::A));
    let mut b = empty_buffer();
    packet.write(&mut b).unwrap();
    assert_eq!(packet.header.questions, 1);
    assert_eq!(packet.header.answers, 0);
    assert_eq!(b.buf[4..6], [0, 1]);
    assert_eq!(b.buf[6..8], [0, 0]);
}
