use dns_codec::{CodecError, Qname};

fn message() -> Vec<u8> {
    let mut data = vec![0xAA, 0xAA, 0x01, 0x00, 0x00, 0x02, 0x00, 0x00, 0x00, 0x00, 0x00, 0x00];
    // at 12: codecrafters.io
    data.push(12);
    data.extend_from_slice(b"codecrafters");
    data.push(2);
    data.extend_from_slice(b"io");
    data.push(0);
    // at 29: testing, then a pointer to 12
    data.push(7);
    data.extend_from_slice(b"testing");
    data.extend_from_slice(&[0xC0, 12]);
    // at 39: a pointer to the label "io" at 25
    data.extend_from_slice(&[0xC0, 25]);
    data
}

#[test]
fn name_without_pointer() {
    let data = message();
    let name = Qname::parse(&data[12..], &data).unwrap();
    assert_eq!(name.length(), 17);
    assert_eq!(name.to_text(), "codecrafters.io");
    assert_eq!(name.labels(), vec![&b"codecrafters"[..], &b"io"[..]]);
}

#[test]
fn pointer_is_followed_when_the_name_is_read() {
    let data = message();
    let name = Qname::parse(&data[29..], &data).unwrap();
    assert_eq!(name.length(), 10);
    assert_eq!(name.to_text(), "testing.codecrafters.io");
    assert_eq!(
        name.labels(),
        vec![&b"testing"[..], &b"codecrafters"[..], &b"io"[..]]
    );
}

#[test]
fn pointer_alone_counts_two_bytes() {
    let data = message();
    let name = Qname::parse(&data[39..], &data).unwrap();
    assert_eq!(name.length(), 2);
    assert_eq!(name.to_text(), "io");
    assert_eq!(name.labels(), vec![&b"io"[..]]);
}

#[test]
fn pointers_are_followed_one_after_the_other() {
    let mut data = message();
    // at 41: www, then a pointer to the name at 29, which ends in a pointer
    data.push(3);
    data.extend_from_slice(b"www");
    data.extend_from_slice(&[0xC0, 29]);
    let name = Qname::parse(&data[41..], &data).unwrap();
    assert_eq!(name.length(), 6);
    assert_eq!(name.to_text(), "www.testing.codecrafters.io");
}

#[test]
fn name_is_written_in_full() {
    let data = message();
    let name = Qname::parse(&data[29..], &data).unwrap();
    let mut buf = vec![0xFF];
    name.write_to(&mut buf);
    let mut expected = vec![0xFF, 7];
    expected.extend_from_slice(b"testing");
    expected.extend_from_slice(&data[12..29]);
    assert_eq!(buf, expected);
}

#[test]
fn root_name() {
    let data = [0u8];
    let name = Qname::parse(&data, &data).unwrap();
    assert_eq!(name.length(), 1);
    assert_eq!(name.to_text(), "");
    assert!(name.labels().is_empty());
    let mut buf = Vec::new();
    name.write_to(&mut buf);
    assert_eq!(buf, vec![0]);
}

#[test]
fn pointer_ahead_of_itself_is_invalid() {
    let mut data = vec![0u8; 12];
    data.extend_from_slice(&[0xC0, 14, 1, b'a', 0]);
    assert_eq!(
        Qname::parse(&data[12..], &data).err(),
        Some(CodecError::InvalidPointer)
    );
}

#[test]
fn pointer_to_itself_is_invalid() {
    let mut data = vec![0u8; 12];
    data.extend_from_slice(&[0xC0, 12]);
    assert_eq!(
        Qname::parse(&data[12..], &data).err(),
        Some(CodecError::InvalidPointer)
    );
}

#[test]
fn pointer_after_a_label_is_checked_at_its_own_place() {
    let mut data = vec![0u8; 12];
    // the pointer stands at 14 and names 14
    data.extend_from_slice(&[1, b'a', 0xC0, 14]);
    assert_eq!(
        Qname::parse(&data[12..], &data).err(),
        Some(CodecError::InvalidPointer)
    );
    // one that names 13 names a place before itself, where the byte 'a' would
    // start a label that does not end before the pointer
    data[15] = 13;
    assert_eq!(
        Qname::parse(&data[12..], &data).err(),
        Some(CodecError::InvalidPointer)
    );
}

#[test]
fn pointer_into_a_loop_is_invalid() {
    let mut data = vec![0u8; 12];
    // the name at 12 would read "a" and come back to 12 for ever
    data.extend_from_slice(&[1, b'a', 0xC0, 12]);
    assert_eq!(
        Qname::parse(&data[12..], &data).err(),
        Some(CodecError::InvalidPointer)
    );
}

#[test]
fn pointer_to_a_name_that_does_not_end_is_invalid() {
    let mut data = vec![0u8; 12];
    // at 12 a label of five bytes is announced; the pointer at 14 cuts it
    data.extend_from_slice(&[5, b'a', 0xC0, 12]);
    assert_eq!(
        Qname::parse(&data[14..], &data).err(),
        Some(CodecError::InvalidPointer)
    );
}

#[test]
fn pointer_into_the_header_is_followed() {
    let mut data = vec![0u8; 12];
    data[3] = 1;
    data[4] = b'x';
    // bytes 3..6 read as the name "x"
    data.extend_from_slice(&[0xC0, 3]);
    let name = Qname::parse(&data[12..], &data).unwrap();
    assert_eq!(name.to_text(), "x");
    assert_eq!(name.length(), 2);
}

#[test]
fn pointer_uses_fourteen_bits() {
    let mut data = vec![0u8; 0x1234];
    data[0x0100] = 1;
    data[0x0101] = b'z';
    data[0x0102] = 0;
    data.extend_from_slice(&[0xC1, 0x00]);
    let name = Qname::parse(&data[0x1234..], &data).unwrap();
    assert_eq!(name.to_text(), "z");
    // the largest pointer names 0x3FFF, which lies ahead here
    data[0x1234] = 0xFF;
    data[0x1235] = 0xFF;
    assert_eq!(
        Qname::parse(&data[0x1234..], &data).err(),
        Some(CodecError::InvalidPointer)
    );
}

#[test]
fn name_that_runs_out_is_truncated() {
    let data = [3, b'a', b'b'];
    assert_eq!(Qname::parse(&data, &data).err(), Some(CodecError::TruncatedName));
    let data = [3, b'a', b'b', b'c'];
    assert_eq!(Qname::parse(&data, &data).err(), Some(CodecError::TruncatedName));
    let data: [u8; 0] = [];
    assert_eq!(Qname::parse(&data, &data).err(), Some(CodecError::TruncatedName));
    let data = [1, b'a', 0xC0];
    assert_eq!(Qname::parse(&data, &data).err(), Some(CodecError::TruncatedName));
}

#[test]
fn length_byte_above_63_is_a_label_too_long() {
    let mut data = vec![64u8];
    data.extend_from_slice(&[b'a'; 64]);
    data.push(0);
    assert_eq!(Qname::parse(&data, &data).err(), Some(CodecError::LabelTooLong));
    let data = [0xBF, 0];
    assert_eq!(Qname::parse(&data, &data).err(), Some(CodecError::LabelTooLong));
}

#[test]
fn label_of_63_bytes_is_read() {
    let mut data = vec![63u8];
    data.extend_from_slice(&[b'a'; 63]);
    data.push(0);
    let name = Qname::parse(&data, &data).unwrap();
    assert_eq!(name.length(), 65);
    assert_eq!(name.to_text(), "a".repeat(63));
}

#[test]
fn bytes_behind_the_name_are_not_read() {
    let data = [1, b'a', 0, 0xC0, 0xFF, 0xFF];
    let name = Qname::parse(&data, &data).unwrap();
    assert_eq!(name.length(), 3);
    assert_eq!(name.to_text(), "a");
}

#[test]
fn name_from_text() {
    let name = Qname::from_text("codecrafters.io").unwrap();
    assert_eq!(name.length(), 17);
    assert_eq!(name.to_text(), "codecrafters.io");
    assert_eq!(name.labels(), vec![&b"codecrafters"[..], &b"io"[..]]);
    let mut buf = Vec::new();
    name.write_to(&mut buf);
    let mut expected = vec![12];
    expected.extend_from_slice(b"codecrafters");
    expected.push(2);
    expected.extend_from_slice(b"io");
    expected.push(0);
    assert_eq!(buf, expected);
}

#[test]
fn name_from_text_is_read_back_from_its_bytes() {
    let name = Qname::from_text("a.bc.def").unwrap();
    let mut buf = Vec::new();
    name.write_to(&mut buf);
    let again = Qname::parse(&buf, &buf).unwrap();
    assert_eq!(again.labels(), name.labels());
    assert_eq!(again.length(), buf.len());
    assert_eq!(again.to_text(), "a.bc.def");
}

#[test]
fn name_from_text_with_a_label_too_long() {
    let long = "a".repeat(64);
    assert_eq!(Qname::from_text(&long).err(), Some(CodecError::LabelTooLong));
    let text = format!("www.{}.com", long);
    assert_eq!(Qname::from_text(&text).err(), Some(CodecError::LabelTooLong));
    let text = format!("www.example.{}", long);
    assert_eq!(Qname::from_text(&text).err(), Some(CodecError::LabelTooLong));
    let text = format!("{}.com", "a".repeat(63));
    assert!(Qname::from_text(&text).is_ok());
}

#[test]
fn name_from_text_counts_bytes_not_characters() {
    // 32 characters of two bytes each make a label of 64 bytes
    let text = "é".repeat(32);
    assert_eq!(Qname::from_text(&text).err(), Some(CodecError::LabelTooLong));
    let text = "é".repeat(31);
    let name = Qname::from_text(&text).unwrap();
    assert_eq!(name.labels()[0].len(), 62);
}

#[test]
fn name_from_text_ends_at_an_empty_label() {
    let name = Qname::from_text("example.com.").unwrap();
    assert_eq!(name.to_text(), "example.com");
    assert_eq!(name.length(), 14);
    let name = Qname::from_text("").unwrap();
    assert_eq!(name.to_text(), "");
    assert_eq!(name.length(), 2);
    let name = Qname::from_text("a..b").unwrap();
    assert_eq!(name.to_text(), "a");
    assert_eq!(name.length(), 6);
    let mut buf = Vec::new();
    name.write_to(&mut buf);
    assert_eq!(buf, vec![1, b'a', 0]);
}

#[test]
fn text_takes_each_byte_as_a_character() {
    let data = [2, 0xE9, b'!', 0];
    let name = Qname::parse(&data, &data).unwrap();
    assert_eq!(name.to_text(), "\u{e9}!");
}

#[test]
fn name_clone_holds_the_same() {
    let data = message();
    let name = Qname::parse(&data[29..], &data).unwrap();
    let copy = name.clone();
    assert_eq!(copy.labels(), name.labels());
    assert_eq!(copy.length(), name.length());
    let owned = Qname::from_text("a.b").unwrap();
    let copy = owned.clone();
    assert_eq!(copy.to_text(), "a.b");
}
