use dns_codec::{Class, Decoder, Encoder, Error, Message, Name, Question, Record, Type};

fn test_cases() -> Vec<(&'static str, Vec<u8>)> {
    vec![
        (
            "codecrafters.io",
            vec![
                12, b'c', b'o', b'd', b'e', b'c', b'r', b'a', b'f', b't', b'e', b'r', b's', 2,
                b'i', b'o', 0,
            ],
        ),
        (
            "api.github.com",
            vec![
                3, b'a', b'p', b'i', 6, b'g', b'i', b't', b'h', b'u', b'b', 3, b'c', b'o', b'm',
                0,
            ],
        ),
    ]
}

fn sample_message() -> Message {
    Message {
        id: 1,
        aa: 1,
        questions: vec![Question {
            name: Name("codecrafters.io".into()),
            qtype: Type::A,
            class: Class::IN,
        }],
        answers: vec![Record {
            name: Name("codecrafters.io".into()),
            rtype: Type::A,
            class: Class::IN,
            ttl: 60,
            rdata: vec![8u8; 4],
        }],
        ..Message::default()
    }
}

fn encode_name(text: &str) -> Result<Vec<u8>, Error> {
    let name = Name(text.into());
    let mut buf = Vec::new();
    let mut enc = Encoder::new(&mut buf);
    name.encode(&mut enc)?;
    Ok(buf)
}

#[test]
fn test_name_encode() {
    for (input, expect) in test_cases() {
        let name = Name(input.into());
        let mut buf = Vec::new();
        let mut encoder = Encoder::new(&mut buf);
        assert!(name.encode(&mut encoder).is_ok());
        assert_eq!(expect, buf);
    }
}

#[test]
fn test_name_decode() {
    for (expect, input) in test_cases() {
        let mut decoder = Decoder::new(&input);
        let name = Name::decode(&mut decoder);
        assert_eq!(Ok(Name(expect.into())), name);
    }
}

#[test]
fn test_msg_encode_decode() {
    let orig_msg = sample_message();

    let mut buf = Vec::new();
    let mut enc = Encoder::new(&mut buf);
    let res = orig_msg.encode(&mut enc);

    assert!(res.is_ok());

    let mut dec = Decoder::new(&mut buf);
    let res = Message::decode(&mut dec);
    assert_eq!(Ok(orig_msg), res);
}

#[test]
fn name_codecrafters_wire_bytes() {
    assert_eq!(
        encode_name("codecrafters.io").unwrap(),
        vec![12, b'c', b'o', b'd', b'e', b'c', b'r', b'a', b'f', b't', b'e', b'r', b's', 2, b'i', b'o', 0]
    );
}

#[test]
fn name_empty_pieces_write_nothing() {
    assert_eq!(encode_name("").unwrap(), vec![0]);
    assert_eq!(encode_name("a..b").unwrap(), vec![1, b'a', 1, b'b', 0]);
    assert_eq!(encode_name("a.").unwrap(), vec![1, b'a', 0]);
}

#[test]
fn name_label_of_63_bytes_is_accepted() {
    let label = "x".repeat(63);
    let wire = encode_name(&label).unwrap();
    assert_eq!(wire.len(), 65);
    assert_eq!(wire[0], 63);
    let mut dec = Decoder::new(&wire);
    assert_eq!(Name::decode(&mut dec), Ok(Name(label)));
}

#[test]
fn name_label_too_long_is_refused() {
    let text = format!("ok.{}.io", "y".repeat(64));
    let name = Name(text);
    let mut buf = vec![1u8, 2];
    let mut enc = Encoder::new(&mut buf);
    enc.set_offset(2);
    assert_eq!(name.encode(&mut enc), Err(Error::LabelTooLong(64)));
    assert_eq!(enc.offset(), 2);
    assert_eq!(buf, vec![1, 2]);
}

#[test]
fn name_utf8_label_round_trips() {
    let wire = encode_name("caf\u{e9}.example").unwrap();
    assert_eq!(&wire[0..6], &[5, b'c', b'a', b'f', 0xC3, 0xA9]);
    let mut dec = Decoder::new(&wire);
    assert_eq!(Name::decode(&mut dec), Ok(Name("caf\u{e9}.example".into())));
}

#[test]
fn name_invalid_utf8_label_is_refused() {
    let wire = [2u8, 0xC3, 0x28, 0];
    let mut dec = Decoder::new(&wire);
    assert_eq!(Name::decode(&mut dec), Err(Error::DecodeUtf8));
}

#[test]
fn name_truncated_label_reports_read() {
    let wire = [5u8, b'a', b'b'];
    let mut dec = Decoder::new(&wire);
    assert_eq!(
        Name::decode(&mut dec),
        Err(Error::Read { offset: 1, read_len: 5, buf_len: 3 })
    );
    let wire = [1u8, b'a'];
    let mut dec = Decoder::new(&wire);
    assert_eq!(
        Name::decode(&mut dec),
        Err(Error::Read { offset: 2, read_len: 1, buf_len: 2 })
    );
}

#[test]
fn compressed_name_points_back() {
    // "codecrafters.io" at offset 0, then "www" followed by a pointer to it,
    // then a bare pointer to the "io" label at offset 13.
    let mut wire = test_cases()[0].1.clone();
    wire.extend_from_slice(&[3, b'w', b'w', b'w', 0xC0, 0x00]);
    wire.extend_from_slice(&[0xC0, 13]);
    let mut dec = Decoder::new(&wire);
    assert_eq!(Name::decode(&mut dec), Ok(Name("codecrafters.io".into())));
    assert_eq!(Name::decode(&mut dec), Ok(Name("www.codecrafters.io".into())));
    assert_eq!(dec.offset(), 23);
    assert_eq!(Name::decode(&mut dec), Ok(Name("io".into())));
    assert_eq!(dec.offset(), 25);
}

#[test]
fn pointer_to_unread_offset_adds_nothing() {
    let wire = [1u8, b'a', 0xC0, 0x30];
    let mut dec = Decoder::new(&wire);
    assert_eq!(Name::decode(&mut dec), Ok(Name("a".into())));
    assert_eq!(dec.offset(), 4);
}

#[test]
fn message_with_compressed_second_question() {
    let mut wire = vec![0x12, 0x34, 0x01, 0x00, 0, 2, 0, 0, 0, 0, 0, 0];
    wire.extend_from_slice(&test_cases()[0].1);
    wire.extend_from_slice(&[0, 1, 0, 1]);
    wire.extend_from_slice(&[0xC0, 12, 0, 15, 0, 1]);
    let msg = Message::from_bytes(&wire).unwrap();
    assert_eq!(msg.id, 0x1234);
    assert_eq!(msg.rd, 1);
    assert_eq!(msg.questions.len(), 2);
    assert_eq!(msg.questions[0].name, Name("codecrafters.io".into()));
    assert_eq!(msg.questions[1].name, Name("codecrafters.io".into()));
    assert_eq!(msg.questions[1].qtype, Type::MX);
}

#[test]
fn message_counts_on_the_wire() {
    let msg = sample_message();
    let bytes = msg.to_bytes().unwrap();
    assert_eq!(&bytes[0..4], &[0, 1, 0b0000_0100, 0]);
    assert_eq!(&bytes[4..6], &[0, 1]);
    assert_eq!(&bytes[6..8], &[0, 1]);
    assert_eq!(&bytes[8..12], &[0, 0, 0, 0]);
    let back = Message::from_bytes(&bytes).unwrap();
    assert_eq!(back, msg);
}

#[test]
fn message_all_header_fields_round_trip() {
    let msg = Message {
        id: 0xBEEF,
        qr: 1,
        opcode: 9,
        aa: 0,
        tc: 1,
        rd: 1,
        ra: 1,
        z: 5,
        rcode: 3,
        nscount: 7,
        arcount: 300,
        questions: vec![Question {
            name: Name("api.github.com".into()),
            qtype: Type::UNKNOWN(99),
            class: Class::UNKNOWN(200),
        }],
        answers: vec![],
    };
    let bytes = msg.to_bytes().unwrap();
    assert_eq!(bytes[2], 0b1100_1011);
    assert_eq!(bytes[3], 0b1101_0011);
    assert_eq!(Message::from_bytes(&bytes), Ok(msg));
}

#[test]
fn message_truncated_anywhere_reports_read() {
    let bytes = sample_message().to_bytes().unwrap();
    for k in 0..bytes.len() {
        match Message::from_bytes(&bytes[..k]) {
            Err(Error::Read { offset, read_len, buf_len }) => {
                assert_eq!(buf_len, k);
                assert!(offset + read_len > k);
                assert!(offset <= k);
            }
            other => panic!("prefix of {} bytes gave {:?}", k, other),
        }
    }
    assert_eq!(
        Message::from_bytes(&[]),
        Err(Error::Read { offset: 0, read_len: 2, buf_len: 0 })
    );
    assert_eq!(
        Message::from_bytes(&bytes[..13]),
        Err(Error::Read { offset: 13, read_len: 12, buf_len: 13 })
    );
}

#[test]
fn message_encode_appends_after_existing_bytes() {
    let msg = sample_message();
    let mut buf = vec![0xAA, 0xBB];
    let mut enc = Encoder::new(&mut buf);
    enc.set_offset(2);
    assert!(msg.encode(&mut enc).is_ok());
    let alone = msg.to_bytes().unwrap();
    assert_eq!(&buf[0..2], &[0xAA, 0xBB]);
    assert_eq!(&buf[2..], &alone[..]);
}

#[test]
fn message_with_long_label_is_refused() {
    let mut msg = sample_message();
    msg.answers[0].name = Name("z".repeat(70));
    assert_eq!(msg.to_bytes(), Err(Error::LabelTooLong(70)));
}

#[test]
fn type_codes_on_the_wire() {
    let cases = [
        (Type::A, 1u16),
        (Type::NS, 2),
        (Type::CNAME, 5),
        (Type::SOA, 6),
        (Type::MX, 15),
        (Type::TXT, 16),
        (Type::AXFR, 252),
        (Type::ANY, 255),
        (Type::UNKNOWN(28), 28),
    ];
    for (t, code) in cases {
        let mut buf = Vec::new();
        let mut enc = Encoder::new(&mut buf);
        t.encode(&mut enc);
        assert_eq!(buf, code.to_be_bytes().to_vec());
        let mut dec = Decoder::new(&buf);
        assert_eq!(Type::decode(&mut dec), Ok(t));
    }
}

#[test]
fn class_codes_on_the_wire() {
    let cases = [
        (Class::IN, 1u16),
        (Class::CS, 2),
        (Class::CH, 3),
        (Class::HS, 4),
        (Class::UNKNOWN(255), 255),
    ];
    for (c, code) in cases {
        let mut buf = Vec::new();
        let mut enc = Encoder::new(&mut buf);
        c.encode(&mut enc);
        assert_eq!(buf, code.to_be_bytes().to_vec());
        let mut dec = Decoder::new(&buf);
        assert_eq!(Class::decode(&mut dec), Ok(c));
    }
}

#[test]
fn unnamed_code_decodes_to_unknown() {
    let data = [0x01u8, 0x00, 0x00, 0x01];
    let mut dec = Decoder::new(&data);
    assert_eq!(Type::decode(&mut dec), Ok(Type::UNKNOWN(256)));
    assert_eq!(Class::decode(&mut dec), Ok(Class::IN));
}

#[test]
fn record_wire_form() {
    let rec = Record {
        name: Name("io".into()),
        rtype: Type::TXT,
        class: Class::CH,
        ttl: 0x01020304,
        rdata: vec![9, 8, 7],
    };
    let mut buf = Vec::new();
    let mut enc = Encoder::new(&mut buf);
    assert!(rec.encode(&mut enc).is_ok());
    assert_eq!(
        buf,
        vec![2, b'i', b'o', 0, 0, 16, 0, 3, 1, 2, 3, 4, 0, 3, 9, 8, 7]
    );
    let mut dec = Decoder::new(&buf);
    assert_eq!(Record::decode(&mut dec), Ok(rec));
}

#[test]
fn record_short_rdata_reports_read() {
    let buf = [0u8, 0, 1, 0, 1, 0, 0, 0, 60, 0, 4, 8, 8];
    let mut dec = Decoder::new(&buf);
    assert_eq!(
        Record::decode(&mut dec),
        Err(Error::Read { offset: 11, read_len: 4, buf_len: 13 })
    );
}
