use dns_codec::{CodecError, Question, RData, RRecord};

fn name_bytes() -> Vec<u8> {
    let mut data = vec![7];
    data.extend_from_slice(b"example");
    data.push(3);
    data.extend_from_slice(b"com");
    data.push(0);
    data
}

fn record_bytes(r_type: u16, payload: &[u8]) -> Vec<u8> {
    let mut data = name_bytes();
    data.extend_from_slice(&r_type.to_be_bytes());
    data.extend_from_slice(&[0x00, 0x01]);
    data.extend_from_slice(&[0x00, 0x01, 0x51, 0x80]);
    data.extend_from_slice(&(payload.len() as u16).to_be_bytes());
    data.extend_from_slice(payload);
    data
}

#[test]
fn question_is_read_and_written() {
    let mut data = name_bytes();
    data.extend_from_slice(&[0x00, 0x1C, 0x12, 0x34]);
    let question = Question::parse(&data, &data).unwrap();
    assert_eq!(question.name.to_text(), "example.com");
    assert_eq!(question.q_type, 28);
    assert_eq!(question.class, 0x1234);
    assert_eq!(question.length(), 17);
    let mut buf = Vec::new();
    question.write_to(&mut buf);
    assert_eq!(buf, data);
}

#[test]
fn question_that_ends_at_its_name_is_truncated() {
    let data = name_bytes();
    assert_eq!(
        Question::parse(&data, &data).err(),
        Some(CodecError::TruncatedQuestion)
    );
}

#[test]
fn question_with_three_bytes_behind_its_name_is_truncated() {
    let mut data = name_bytes();
    data.extend_from_slice(&[0, 1, 0]);
    assert_eq!(
        Question::parse(&data, &data).err(),
        Some(CodecError::TruncatedQuestion)
    );
    data.push(1);
    assert!(Question::parse(&data, &data).is_ok());
}

#[test]
fn question_reports_the_error_of_its_name() {
    let data = [3, b'a'];
    assert_eq!(
        Question::parse(&data, &data).err(),
        Some(CodecError::TruncatedName)
    );
    let data = [0xC0, 0x05, 0, 1, 0, 1];
    assert_eq!(
        Question::parse(&data, &data).err(),
        Some(CodecError::InvalidPointer)
    );
    let data = [0x40, 0, 0, 1, 0, 1];
    assert_eq!(
        Question::parse(&data, &data).err(),
        Some(CodecError::LabelTooLong)
    );
}

#[test]
fn question_length_counts_the_pointer_only() {
    let mut data = vec![0u8; 12];
    data.extend_from_slice(&name_bytes());
    data.extend_from_slice(&[0, 1, 0, 1]);
    let second = data.len();
    data.extend_from_slice(&[3, b'w', b'w', b'w', 0xC0, 12, 0, 1, 0, 1]);
    let question = Question::parse(&data[second..], &data).unwrap();
    assert_eq!(question.name.length(), 6);
    assert_eq!(question.length(), 10);
    assert_eq!(question.name.to_text(), "www.example.com");
    let mut buf = Vec::new();
    question.write_to(&mut buf);
    let mut expected = vec![3, b'w', b'w', b'w'];
    expected.extend_from_slice(&name_bytes());
    expected.extend_from_slice(&[0, 1, 0, 1]);
    assert_eq!(buf, expected);
}

#[test]
fn question_clone_holds_the_same() {
    let mut data = name_bytes();
    data.extend_from_slice(&[0x00, 0x01, 0x00, 0x01]);
    let question = Question::parse(&data, &data).unwrap();
    let copy = question.clone();
    assert_eq!(copy.name.labels(), question.name.labels());
    assert_eq!(copy.q_type, 1);
    assert_eq!(copy.class, 1);
}

#[test]
fn address_record_is_read_and_written() {
    let data = record_bytes(1, &[192, 0, 2, 1]);
    let record = RRecord::parse(&data, &data).unwrap();
    assert_eq!(record.name.to_text(), "example.com");
    assert_eq!(record.r_type, 1);
    assert_eq!(record.class, 1);
    assert_eq!(record.ttl, 86400);
    assert_eq!(record.rdlength, 4);
    assert_eq!(record.rdata, RData::A([192, 0, 2, 1]));
    assert_eq!(record.length(), data.len());
    let mut buf = Vec::new();
    record.write_to(&mut buf);
    assert_eq!(buf, data);
}

#[test]
fn long_address_record_is_read_and_written() {
    let addr = [0x20, 0x01, 0x0d, 0xb8, 0, 0, 0, 0, 0, 0, 0, 0, 0, 0, 0, 1];
    let data = record_bytes(28, &addr);
    let record = RRecord::parse(&data, &data).unwrap();
    assert_eq!(record.rdlength, 16);
    assert_eq!(record.rdata, RData::Aaaa(addr));
    let mut buf = Vec::new();
    record.write_to(&mut buf);
    assert_eq!(buf, data);
}

#[test]
fn record_of_unknown_type_keeps_its_payload() {
    let payload = [3, b'f', b'o', b'o', 0];
    let data = record_bytes(5, &payload);
    let record = RRecord::parse(&data, &data).unwrap();
    assert_eq!(record.r_type, 5);
    assert_eq!(record.rdlength, 5);
    assert_eq!(record.rdata, RData::Unsupported(payload.to_vec()));
    let mut buf = Vec::new();
    record.write_to(&mut buf);
    assert_eq!(buf, data);
}

#[test]
fn record_of_unknown_type_may_be_empty() {
    let data = record_bytes(16, &[]);
    let record = RRecord::parse(&data, &data).unwrap();
    assert_eq!(record.rdata, RData::Unsupported(vec![]));
    assert_eq!(record.length(), data.len());
}

#[test]
fn address_of_another_length_is_malformed() {
    let data = record_bytes(1, &[192, 0, 2]);
    assert_eq!(
        RRecord::parse(&data, &data).err(),
        Some(CodecError::MalformedRData)
    );
    let data = record_bytes(1, &[192, 0, 2, 1, 0]);
    assert_eq!(
        RRecord::parse(&data, &data).err(),
        Some(CodecError::MalformedRData)
    );
    let data = record_bytes(28, &[0; 4]);
    assert_eq!(
        RRecord::parse(&data, &data).err(),
        Some(CodecError::MalformedRData)
    );
}

#[test]
fn record_that_ends_in_its_fixed_fields_is_truncated() {
    let data = record_bytes(1, &[192, 0, 2, 1]);
    let name = name_bytes().len();
    assert_eq!(
        RRecord::parse(&data[..name], &data[..name]).err(),
        Some(CodecError::TruncatedRecord)
    );
    assert_eq!(
        RRecord::parse(&data[..name + 9], &data[..name + 9]).err(),
        Some(CodecError::TruncatedRecord)
    );
}

#[test]
fn record_that_ends_in_its_payload_is_truncated() {
    let data = record_bytes(1, &[192, 0, 2, 1]);
    let short = data.len() - 1;
    assert_eq!(
        RRecord::parse(&data[..short], &data[..short]).err(),
        Some(CodecError::TruncatedRecord)
    );
    // a missing payload is found before its length is held against the type
    let data = record_bytes(1, &[192, 0, 2, 1, 9]);
    let short = data.len() - 3;
    assert_eq!(
        RRecord::parse(&data[..short], &data[..short]).err(),
        Some(CodecError::TruncatedRecord)
    );
}

#[test]
fn record_reports_the_error_of_its_name() {
    let data = [0xC0, 0x00];
    assert_eq!(
        RRecord::parse(&data, &data).err(),
        Some(CodecError::InvalidPointer)
    );
}

#[test]
fn payload_by_type() {
    assert_eq!(
        RRecord::parse_rdata(1, &[1, 2, 3, 4]),
        Ok(RData::A([1, 2, 3, 4]))
    );
    assert_eq!(RRecord::parse_rdata(28, &[7; 16]), Ok(RData::Aaaa([7; 16])));
    assert_eq!(
        RRecord::parse_rdata(5, &[1, 2, 3]),
        Ok(RData::Unsupported(vec![1, 2, 3]))
    );
    assert_eq!(
        RRecord::parse_rdata(1, &[1, 2, 3]),
        Err(CodecError::MalformedRData)
    );
    assert_eq!(
        RRecord::parse_rdata(28, &[1, 2, 3, 4]),
        Err(CodecError::MalformedRData)
    );
}

#[test]
fn payload_is_written_as_it_is() {
    let mut buf = vec![0xEE];
    RData::A([1, 2, 3, 4]).write_to(&mut buf);
    RData::Aaaa([9; 16]).write_to(&mut buf);
    RData::Unsupported(vec![5, 6]).write_to(&mut buf);
    let mut expected = vec![0xEE, 1, 2, 3, 4];
    expected.extend_from_slice(&[9; 16]);
    expected.extend_from_slice(&[5, 6]);
    assert_eq!(buf, expected);
    assert_eq!(RData::A([0; 4]).len(), 4);
    assert_eq!(RData::Aaaa([0; 16]).len(), 16);
    assert_eq!(RData::Unsupported(vec![1, 2, 3]).len(), 3);
}

#[test]
fn record_writes_the_length_of_its_payload() {
    let data = record_bytes(5, &[1, 2, 3]);
    let mut record = RRecord::parse(&data, &data).unwrap();
    record.rdata = RData::Unsupported(vec![8, 9]);
    let mut buf = Vec::new();
    record.write_to(&mut buf);
    assert_eq!(buf, record_bytes(5, &[8, 9]));
}

#[test]
fn record_clone_holds_the_same() {
    let data = record_bytes(5, &[1, 2, 3]);
    let record = RRecord::parse(&data, &data).unwrap();
    let copy = record.clone();
    assert_eq!(copy.rdata, record.rdata);
    assert_eq!(copy.ttl, record.ttl);
    assert_eq!(copy.rdlength, 3);
    assert_eq!(copy.name.to_text(), "example.com");
}
