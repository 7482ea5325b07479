use container_codec::command::{parse_command, select_mode, usage, usage_text, Command, Mode};
use container_codec::descriptor::SectionDescriptor;
use container_codec::endian::{decode_i32, encode_i32, ByteOrder};
use container_codec::error::Error;

#[test]
fn encode_i32_in_both_orders() {
    assert_eq!(encode_i32(0x0102_0304, ByteOrder::Little), [4, 3, 2, 1]);
    assert_eq!(encode_i32(0x0102_0304, ByteOrder::Big), [1, 2, 3, 4]);
    assert_eq!(encode_i32(0, ByteOrder::Little), [0, 0, 0, 0]);
    assert_eq!(encode_i32(-1, ByteOrder::Little), [0xff, 0xff, 0xff, 0xff]);
    assert_eq!(encode_i32(-2, ByteOrder::Big), [0xff, 0xff, 0xff, 0xfe]);
    assert_eq!(encode_i32(i32::MIN, ByteOrder::Little), [0, 0, 0, 0x80]);
    assert_eq!(encode_i32(i32::MAX, ByteOrder::Big), [0x7f, 0xff, 0xff, 0xff]);
    assert_eq!(encode_i32(0x3000, ByteOrder::Little), [0, 0x30, 0, 0]);
}

#[test]
fn decode_i32_in_both_orders() {
    assert_eq!(decode_i32([4, 3, 2, 1], ByteOrder::Little), 0x0102_0304);
    assert_eq!(decode_i32([4, 3, 2, 1], ByteOrder::Big), 0x0403_0201);
    assert_eq!(decode_i32([0xff, 0xff, 0xff, 0xff], ByteOrder::Big), -1);
    assert_eq!(decode_i32([0, 0, 0, 0x80], ByteOrder::Little), i32::MIN);
    assert_eq!(decode_i32([0x80, 0, 0, 0], ByteOrder::Big), i32::MIN);
    assert_eq!(decode_i32([0xff, 0xff, 0xff, 0x7f], ByteOrder::Little), i32::MAX);
}

#[test]
fn i32_bytes_agree_with_std() {
    for x in [0, 1, -1, 255, 256, -256, 0x3000, -0x40000, 65535, 65536, i32::MIN, i32::MAX, 0x1234_5678, -0x1234_5678] {
        assert_eq!(encode_i32(x, ByteOrder::Little), x.to_le_bytes());
        assert_eq!(encode_i32(x, ByteOrder::Big), x.to_be_bytes());
        assert_eq!(decode_i32(x.to_le_bytes(), ByteOrder::Little), x);
        assert_eq!(decode_i32(x.to_be_bytes(), ByteOrder::Big), x);
    }
}

#[test]
fn descriptor_is_size_and_after_it_offset() {
    let entry = SectionDescriptor { size: -10, offset: 0x3000 };
    assert_eq!(entry.encode(ByteOrder::Little), [0xf6, 0xff, 0xff, 0xff, 0, 0x30, 0, 0]);
    assert_eq!(entry.encode(ByteOrder::Big), [0xff, 0xff, 0xff, 0xf6, 0, 0, 0x30, 0]);
    assert_eq!(
        SectionDescriptor::decode([0xf6, 0xff, 0xff, 0xff, 0, 0x30, 0, 0], ByteOrder::Little),
        entry
    );
    assert_eq!(
        SectionDescriptor::decode([0, 0, 0, 7, 0, 0, 0x30, 1], ByteOrder::Big),
        SectionDescriptor { size: 7, offset: 0x3001 }
    );
    assert_eq!(SectionDescriptor::decode(entry.encode(ByteOrder::Big), ByteOrder::Big), entry);
}

#[test]
fn descriptor_ends_the_table_on_zero_size_or_low_offset() {
    assert!(SectionDescriptor { size: 0, offset: 0 }.terminates());
    assert!(SectionDescriptor { size: 0, offset: 0x3000 }.terminates());
    assert!(SectionDescriptor { size: 5, offset: 0x2fff }.terminates());
    assert!(SectionDescriptor { size: -5, offset: -1 }.terminates());
    assert!(!SectionDescriptor { size: 5, offset: 0x3000 }.terminates());
    assert!(!SectionDescriptor { size: -5, offset: i32::MAX }.terminates());
}

#[test]
fn payload_len_is_the_magnitude_of_size() {
    assert_eq!(SectionDescriptor { size: -10, offset: 0x3000 }.payload_len(), 10);
    assert_eq!(SectionDescriptor { size: 10, offset: 0x3000 }.payload_len(), 10);
    assert_eq!(SectionDescriptor { size: 0, offset: 0x3000 }.payload_len(), 0);
    assert_eq!(SectionDescriptor { size: i32::MIN, offset: 0x3000 }.payload_len(), 0x8000_0000);
    assert_eq!(SectionDescriptor { size: i32::MAX, offset: 0x3000 }.payload_len(), 0x7fff_ffff);
}

#[test]
fn select_mode_knows_keywords_and_letters() {
    assert_eq!(select_mode("decompress"), Some(Mode::Unpack));
    assert_eq!(select_mode("d"), Some(Mode::Unpack));
    assert_eq!(select_mode("compress"), Some(Mode::PackCompressed));
    assert_eq!(select_mode("c"), Some(Mode::PackCompressed));
    assert_eq!(select_mode("pack"), Some(Mode::PackRaw));
    assert_eq!(select_mode("p"), Some(Mode::PackRaw));
    assert_eq!(select_mode(""), None);
    assert_eq!(select_mode("de"), None);
    assert_eq!(select_mode("Compress"), None);
    assert_eq!(select_mode("unpack"), None);
}

#[test]
fn parse_command_takes_three_words() {
    let words = vec!["c".to_string(), "in.bin".to_string(), "out.bin".to_string()];
    assert_eq!(
        parse_command(&words),
        Ok(Command {
            mode: Mode::PackCompressed,
            input: "in.bin".to_string(),
            output: "out.bin".to_string(),
        })
    );
    let words = vec!["decompress".to_string(), "a".to_string(), "b".to_string()];
    assert_eq!(parse_command(&words).unwrap().mode, Mode::Unpack);
    let words = vec!["x".to_string(), "a".to_string(), "b".to_string()];
    assert_eq!(parse_command(&words), Err(Error::InvalidUsage));
    let words = vec!["c".to_string(), "a".to_string()];
    assert_eq!(parse_command(&words), Err(Error::InvalidUsage));
    let words = vec!["c".to_string(), "a".to_string(), "b".to_string(), "c".to_string()];
    assert_eq!(parse_command(&words), Err(Error::InvalidUsage));
    assert_eq!(parse_command(&Vec::new()), Err(Error::InvalidUsage));
}

#[test]
fn usage_is_an_invalid_usage_error() {
    assert_eq!(usage(), Err(Error::InvalidUsage));
    assert_eq!(usage_text(), "Usage: <decompress|compress|pack> <input> <output>");
}
