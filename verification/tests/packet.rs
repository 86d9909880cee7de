use dns_codec::packet::Packet;
use dns_codec::{CodecError, RData};

fn compressed() -> Vec<u8> {
    vec![
        // Header
        0xAA, 0xAA, 0x01, 0x00, 0x00, 0x02, 0x00, 0x00, 0x00, 0x00, 0x00, 0x00,
        // codecrafters.io, A, Class 1
        0x0C, 0x63, 0x6F, 0x64, 0x65, 0x63, 0x72, 0x61, 0x66, 0x74, 0x65, 0x72, 0x73, 0x02,
        0x69, 0x6F, 0x00, 0x00, 0x01, 0x00, 0x01,
        // testing.codecrafters.io, A, class 1
        0x7, 0x74, 0x65, 0x73, 0x74, 0x69, 0x6e, 0x67, 0xc0, 0xc, 0x00, 0x01, 0x00, 0x01,
    ]
}

fn reply() -> Vec<u8> {
    let mut data = vec![0x12, 0x34, 0x81, 0x80, 0, 1, 0, 2, 0, 0, 0, 0];
    data.extend_from_slice(&[1, b'a', 2, b'b', b'c', 0, 0, 1, 0, 1]);
    data.extend_from_slice(&[1, b'a', 2, b'b', b'c', 0, 0, 1, 0, 1, 0, 0, 0, 60, 0, 4, 10, 0, 0, 1]);
    data.extend_from_slice(&[1, b'a', 2, b'b', b'c', 0, 0, 5, 0, 1, 0, 0, 0, 61, 0, 2, 7, 7]);
    data
}

#[test]
fn parse_multiple_questions() {
    let data = [
        0xc2, 0xa5, 0x1, 0x0, 0x0, 0x2, 0x0, 0x0, 0x0, 0x0, 0x0, 0x0, 0x3, 0x61, 0x62, 0x63,
        0x11, 0x6c, 0x6f, 0x6e, 0x67, 0x61, 0x73, 0x73, 0x64, 0x6f, 0x6d, 0x61, 0x69, 0x6e,
        0x6e, 0x61, 0x6d, 0x65, 0x3, 0x63, 0x6f, 0x6d, 0x0, 0x0, 0x1, 0x0, 0x1, 0x3, 0x64,
        0x65, 0x66, 0xc0, 0x10, 0x0, 0x1, 0x0, 0x1,
    ];

    let packet = match Packet::parse(&data) {
        Ok(v) => v,
        Err(e) => {
            panic!("error in parsing packet: {}", format!("{:?}", e));
        }
    };

    assert_eq!(packet.questions.len(), 2);
    assert_eq!(packet.questions[0].name.to_text(), "abc.longassdomainname.com");
    assert_eq!(packet.questions[1].name.to_text(), "def.longassdomainname.com");
    for question in packet.questions {
        println!("{}", question.name.to_text());
    }
}

#[test]
fn parse_compressed_packet() {
    let data = [
        // Header
        0xAA, 0xAA, 0x01, 0x00, 0x00, 0x02, 0x00, 0x00, 0x00, 0x00, 0x00, 0x00,
        // codecrafters.io, A, Class 1
        0x0C, 0x63, 0x6F, 0x64, 0x65, 0x63, 0x72, 0x61, 0x66, 0x74, 0x65, 0x72, 0x73, 0x02,
        0x69, 0x6F, 0x00, 0x00, 0x01, 0x00, 0x01,
        //
        // testing.codecrafters.io, A, class 1
        0x7, 0x74, 0x65, 0x73, 0x74, 0x69, 0x6e, 0x67, 0xc0, 0xc, 0x00, 0x01, 0x00, 0x01,
    ];

    let packet = match Packet::parse(&data) {
        Ok(v) => v,
        Err(e) => {
            panic!("failed to parse packet: {}", format!("{:?}", e));
        }
    };

    let mut buf = Vec::with_capacity(data.len());
    packet.write_to(&mut buf);

    // Names are written in full: the pointer of the second question gives
    // way to the labels that it stood for.
    let mut expected = data[..41].to_vec();
    expected.extend_from_slice(&data[12..29]);
    expected.extend_from_slice(&[0x00, 0x01, 0x00, 0x01]);
    assert_eq!(buf, expected);
}

#[test]
fn compressed_questions_resolve_to_full_names() {
    let data = compressed();
    let packet = Packet::parse(&data).unwrap();
    assert_eq!(packet.header.ident, 0xAAAA);
    assert_eq!(packet.header.qd_count, 2);
    assert_eq!(packet.questions.len(), 2);
    assert!(packet.answers.is_empty());
    assert_eq!(packet.questions[0].name.to_text(), "codecrafters.io");
    assert_eq!(packet.questions[1].name.to_text(), "testing.codecrafters.io");
    assert_eq!(packet.questions[0].q_type, 1);
    assert_eq!(packet.questions[0].class, 1);
    assert_eq!(packet.questions[1].q_type, 1);
    assert_eq!(packet.questions[1].class, 1);
    assert_eq!(packet.questions[0].length(), 21);
    assert_eq!(packet.questions[1].name.length(), 10);
    assert_eq!(packet.questions[1].length(), 14);
}

#[test]
fn message_without_pointers_is_written_back_byte_for_byte() {
    let data = reply();
    let packet = Packet::parse(&data).unwrap();
    assert_eq!(packet.questions.len(), 1);
    assert_eq!(packet.answers.len(), 2);
    assert_eq!(packet.answers[0].rdata, RData::A([10, 0, 0, 1]));
    assert_eq!(packet.answers[0].ttl, 60);
    assert_eq!(packet.answers[1].rdata, RData::Unsupported(vec![7, 7]));
    let mut buf = Vec::new();
    packet.write_to(&mut buf);
    assert_eq!(buf, data);
}

#[test]
fn written_message_is_read_back_the_same() {
    let data = compressed();
    let packet = Packet::parse(&data).unwrap();
    let mut first = Vec::new();
    packet.write_to(&mut first);
    let again = Packet::parse(&first).unwrap();
    assert_eq!(again.header, Packet::parse(&data).unwrap().header);
    assert_eq!(again.questions.len(), 2);
    assert_eq!(again.questions[0].name.to_text(), "codecrafters.io");
    assert_eq!(again.questions[1].name.to_text(), "testing.codecrafters.io");
    // what was written holds no pointer: the second name now counts all its bytes
    assert_eq!(again.questions[1].name.length(), 25);
    let mut second = Vec::new();
    again.write_to(&mut second);
    assert_eq!(second, first);
}

#[test]
fn answers_may_point_into_questions() {
    let mut data = vec![0, 1, 0x81, 0x80, 0, 1, 0, 1, 0, 0, 0, 0];
    data.extend_from_slice(&[1, b'a', 2, b'b', b'c', 0, 0, 1, 0, 1]);
    data.extend_from_slice(&[0xC0, 12, 0, 1, 0, 1, 0, 0, 1, 0, 0, 4, 1, 2, 3, 4]);
    let packet = Packet::parse(&data).unwrap();
    assert_eq!(packet.answers.len(), 1);
    assert_eq!(packet.answers[0].name.to_text(), "a.bc");
    assert_eq!(packet.answers[0].name.length(), 2);
    assert_eq!(packet.answers[0].length(), 16);
    assert_eq!(packet.answers[0].ttl, 256);
    assert_eq!(packet.answers[0].rdata, RData::A([1, 2, 3, 4]));
}

#[test]
fn bytes_behind_the_last_record_are_not_read() {
    let mut data = reply();
    data.extend_from_slice(&[0xFF, 0xFF, 0xFF]);
    let packet = Packet::parse(&data).unwrap();
    assert_eq!(packet.answers.len(), 2);
    let mut buf = Vec::new();
    packet.write_to(&mut buf);
    assert_eq!(buf, reply());
}

#[test]
fn header_alone_is_a_message() {
    let data = [0u8; 12];
    let packet = Packet::parse(&data).unwrap();
    assert!(packet.questions.is_empty());
    assert!(packet.answers.is_empty());
    let mut buf = Vec::new();
    packet.write_to(&mut buf);
    assert_eq!(buf, data);
}

#[test]
fn message_shorter_than_a_header_is_malformed() {
    assert_eq!(Packet::parse(&[]).err(), Some(CodecError::MalformedHeader));
    assert_eq!(Packet::parse(&[0; 11]).err(), Some(CodecError::MalformedHeader));
}

#[test]
fn message_reports_the_first_failure() {
    // two questions counted, one there
    let data = compressed();
    assert_eq!(
        Packet::parse(&data[..33]).err(),
        Some(CodecError::TruncatedName)
    );
    assert_eq!(
        Packet::parse(&data[..29]).err(),
        Some(CodecError::TruncatedQuestion)
    );
    assert_eq!(
        Packet::parse(&data[..41]).err(),
        Some(CodecError::TruncatedName)
    );
    assert_eq!(
        Packet::parse(&data[..42]).err(),
        Some(CodecError::TruncatedName)
    );
    assert_eq!(
        Packet::parse(&data[..46]).err(),
        Some(CodecError::TruncatedQuestion)
    );
    assert_eq!(
        Packet::parse(&data[..20]).err(),
        Some(CodecError::TruncatedName)
    );
    // an answer counted and missing
    let mut data = reply();
    data[7] = 3;
    assert_eq!(Packet::parse(&data).err(), Some(CodecError::TruncatedName));
    // an address of three bytes
    let mut data = reply();
    data[37] = 3;
    assert_eq!(Packet::parse(&data).err(), Some(CodecError::MalformedRData));
    // a payload longer than what is left
    let mut data = reply();
    let last = data.len() - 3;
    data[last] = 9;
    assert_eq!(Packet::parse(&data).err(), Some(CodecError::TruncatedRecord));
    // a pointer ahead of itself
    let mut data = compressed();
    data[42] = 0x30;
    assert_eq!(Packet::parse(&data).err(), Some(CodecError::InvalidPointer));
    // a length byte above 63
    let mut data = compressed();
    data[12] = 0x4C;
    assert_eq!(Packet::parse(&data).err(), Some(CodecError::LabelTooLong));
}

#[test]
fn message_clone_holds_the_same() {
    let data = reply();
    let packet = Packet::parse(&data).unwrap();
    let copy = packet.clone();
    let mut a = Vec::new();
    packet.write_to(&mut a);
    let mut b = Vec::new();
    copy.write_to(&mut b);
    assert_eq!(a, b);
}
