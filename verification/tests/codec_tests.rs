use iso8583::IsoError;
use iso8583::IsoMsg;
use iso8583::IsoSpecs;
use iso8583::bits::BitArray128;
use iso8583::iso_field::FieldCharType;
use iso8583::iso_field::FieldSizeType;
use iso8583::iso_field::IsoField;

/// A five-position format: MTI, ASCII-hex bitmap, a variable-length account
/// number, and two fixed fields.
pub struct MiniSpecs {
    handle: Vec<IsoField>,
}

impl MiniSpecs {
    pub fn new() -> MiniSpecs {
        MiniSpecs {
            handle: vec![
                IsoField::new("Message Type Indicator", FieldCharType::Iso8583_ns, 4, FieldSizeType::Fixed),
                IsoField::new("Bitmap", FieldCharType::Iso8583_bmps, 16, FieldSizeType::BitMap),
                IsoField::new("Primary Account Number", FieldCharType::Iso8583_ns, 19, FieldSizeType::LllVar),
                IsoField::new("Processing Code", FieldCharType::Iso8583_ns, 6, FieldSizeType::Fixed),
                IsoField::new("Amount, Txn", FieldCharType::Iso8583_ns, 12, FieldSizeType::Fixed),
            ],
        }
    }
}

impl IsoSpecs for MiniSpecs {
    fn get_handle(&self) -> &Vec<IsoField> {
        &self.handle
    }
}

#[test]
fn truncated_message_test() {
    let spec = MiniSpecs::new();
    let res = IsoMsg::new(&spec, "0100F2".as_bytes());
    assert_eq!(res.err().unwrap(), IsoError::TruncatedMessage { position: 1 });
}

#[test]
fn malformed_bitmap_test() {
    let spec = MiniSpecs::new();
    let res = IsoMsg::new(&spec, "0100GZZZZZZZZZZZZZZZ".as_bytes());
    assert_eq!(res.err().unwrap(), IsoError::MalformedLengthPrefix { position: 1 });
}

#[test]
fn malformed_length_prefix_test() {
    let spec = MiniSpecs::new();
    // primary-only bitmap announcing position 2, whose length prefix is not
    // decimal
    let res = IsoMsg::new(&spec, "01004000000000000000AB1".as_bytes());
    assert_eq!(res.err().unwrap(), IsoError::MalformedLengthPrefix { position: 2 });
}

#[test]
fn truncated_field_test() {
    let spec = MiniSpecs::new();
    // position 2 announces 16 payload bytes but only 3 follow
    let res = IsoMsg::new(&spec, "01004000000000000000016123".as_bytes());
    assert_eq!(res.err().unwrap(), IsoError::TruncatedMessage { position: 2 });
}

#[test]
fn primary_only_round_trip_test() {
    // a bitmap with bit 0 clear occupies 16 hex characters and reproduces
    // itself on emit
    let wire = "01002000000000000000003000";
    let spec = MiniSpecs::new();
    let iso_msg = IsoMsg::new(&spec, wire.as_bytes()).unwrap();
    let mut buffer = vec![0u8; 64];
    let res = iso_msg.get_field(3, &mut buffer);
    assert_eq!(res.unwrap(), 6);
    assert_eq!(&buffer[..6], "003000".as_bytes());
    let n = iso_msg.to_byte_array(&mut buffer).unwrap();
    assert_eq!(std::str::from_utf8(&buffer[..n]).unwrap(), wire);
}

#[test]
fn get_after_set_test() {
    let spec = MiniSpecs::new();
    let mut iso_msg = IsoMsg::new(&spec, "01002000000000000000003000".as_bytes()).unwrap();
    iso_msg.set_field(2, "99".as_bytes()).unwrap();
    let mut buffer = vec![0u8; 64];
    let res = iso_msg.get_field(2, &mut buffer);
    assert_eq!(res.unwrap(), 2);
    assert_eq!(&buffer[..2], "99".as_bytes());
    // the emitted field carries the 3-digit prefix "002"
    let n = iso_msg.to_byte_array(&mut buffer).unwrap();
    assert_eq!(std::str::from_utf8(&buffer[..n]).unwrap(), "0100600000000000000000299003000");
}

#[test]
fn payload_too_long_test() {
    let spec = MiniSpecs::new();
    let mut iso_msg = IsoMsg::new(&spec, "01002000000000000000003000".as_bytes()).unwrap();
    assert_eq!(iso_msg.set_field(3, "1234567".as_bytes()), Err(IsoError::PayloadTooLong));
    assert_eq!(iso_msg.set_field(2, "12345678901234567890".as_bytes()), Err(IsoError::PayloadTooLong));
    // a rejected set leaves the message as it was
    let mut buffer = vec![0u8; 64];
    let res = iso_msg.get_field(3, &mut buffer);
    assert_eq!(res.unwrap(), 6);
    assert_eq!(&buffer[..6], "003000".as_bytes());
}

#[test]
fn position_out_of_range_test() {
    let spec = MiniSpecs::new();
    let mut iso_msg = IsoMsg::new(&spec, "01002000000000000000003000".as_bytes()).unwrap();
    let mut buffer = vec![0u8; 64];
    assert_eq!(iso_msg.get_field(99, &mut buffer), Err(IsoError::PositionOutOfRange));
    assert_eq!(iso_msg.set_field(99, "1".as_bytes()), Err(IsoError::PositionOutOfRange));
    assert_eq!(iso_msg.remove_field(99), Err(IsoError::PositionOutOfRange));
}

#[test]
fn buffer_too_small_test() {
    let spec = MiniSpecs::new();
    let iso_msg = IsoMsg::new(&spec, "01002000000000000000003000".as_bytes()).unwrap();
    let mut small = vec![0u8; 2];
    assert_eq!(iso_msg.get_field(3, &mut small), Err(IsoError::BufferTooSmall));
    assert_eq!(iso_msg.to_byte_array(&mut small), Err(IsoError::BufferTooSmall));
    // failure leaves the destination untouched
    assert_eq!(&small[..], &[0u8, 0u8]);
}

#[test]
fn remove_then_get_test() {
    let spec = MiniSpecs::new();
    let mut iso_msg = IsoMsg::new(&spec, "01002000000000000000003000".as_bytes()).unwrap();
    iso_msg.remove_field(3).unwrap();
    let mut buffer = vec![0u8; 64];
    assert_eq!(iso_msg.get_field(3, &mut buffer), Err(IsoError::FieldNotSet));
}

#[test]
fn bit_array_get_set_test() {
    let mut ba = BitArray128::new();
    assert_eq!(ba.get_bit(0), false);
    ba.set_bit(5, true);
    assert_eq!(ba.get_bit(5), true);
    assert_eq!(ba.get_bit(4), false);
    assert_eq!(ba.to_bytes(1), vec![0x04u8]);
    ba.set_bit(5, false);
    assert_eq!(ba.to_bytes(16), vec![0u8; 16]);
}

#[test]
fn bit_array_from_bytes_test() {
    let ba = BitArray128::from_bytes(&[0x80u8, 0x01u8], 2);
    assert_eq!(ba.get_bit(0), true);
    assert_eq!(ba.get_bit(1), false);
    assert_eq!(ba.get_bit(15), true);
    assert_eq!(ba.get_bit(16), false);
    assert_eq!(ba.to_bytes(3), vec![0x80u8, 0x01u8, 0x00u8]);
}

#[test]
fn hex_codec_test() {
    let bytes = "F2A0".as_bytes();
    let decoded = iso8583::hex::decode_hex_region(bytes, 0, 2).unwrap();
    assert_eq!(decoded, vec![0xF2u8, 0xA0u8]);
    let mut text: Vec<u8> = Vec::new();
    iso8583::hex::push_hex(&mut text, &decoded);
    assert_eq!(text, "F2A0".as_bytes());
    assert_eq!(iso8583::hex::decode_hex_region("f2".as_bytes(), 0, 1).unwrap(), vec![0xF2u8]);
    assert_eq!(iso8583::hex::decode_hex_region("XY".as_bytes(), 0, 1), None);
}

#[test]
fn is_bit_set_test() {
    assert_eq!(IsoMsg::<MiniSpecs>::is_bit_set(0x80000000, 31), true);
    assert_eq!(IsoMsg::<MiniSpecs>::is_bit_set(0x80000000, 30), false);
    assert_eq!(IsoMsg::<MiniSpecs>::is_bit_set(5, 0), true);
    assert_eq!(IsoMsg::<MiniSpecs>::is_bit_set(5, 1), false);
    assert_eq!(IsoMsg::<MiniSpecs>::is_bit_set(5, 2), true);
    assert_eq!(IsoMsg::<MiniSpecs>::is_bit_set(1, 32), false);
}

#[test]
fn convert_u32_test() {
    let arr: &[u8] = &[0x12, 0x34, 0x56, 0x78];
    assert_eq!(IsoMsg::<MiniSpecs>::convert_u32_be(arr), 0x12345678);
    assert_eq!(IsoMsg::<MiniSpecs>::convert_u32_le(arr), 0x78563412);
}

#[test]
fn get_field_length_test() {
    let fixed = IsoField::new("Processing Code", FieldCharType::Iso8583_ns, 6, FieldSizeType::Fixed);
    assert_eq!(IsoMsg::<MiniSpecs>::get_field_length(&fixed, "003000".as_bytes()), 6);
    let var = IsoField::new("Primary Account Number", FieldCharType::Iso8583_ns, 19, FieldSizeType::LllVar);
    assert_eq!(IsoMsg::<MiniSpecs>::get_field_length(&var, "0161234567179299851".as_bytes()), 19);
    let ll = IsoField::new("File Name", FieldCharType::Iso8583_ans, 17, FieldSizeType::LlVar);
    assert_eq!(IsoMsg::<MiniSpecs>::get_field_length(&ll, "07abcdefg".as_bytes()), 9);
    let bitmap = IsoField::new("Bitmap", FieldCharType::Iso8583_bmps, 16, FieldSizeType::BitMap);
    assert_eq!(IsoMsg::<MiniSpecs>::get_field_length(&bitmap, "F224".as_bytes()), 0);
}

#[test]
fn get_field_length_prefix_test() {
    let spec = MiniSpecs::new();
    let iso_msg = IsoMsg::new(&spec, "01002000000000000000003000".as_bytes()).unwrap();
    assert_eq!(iso_msg.get_field_length_prefix(0), 0);
    assert_eq!(iso_msg.get_field_length_prefix(2), 3);
    assert_eq!(iso_msg.get_field_length_prefix(3), 0);
}

#[test]
fn unsupported_char_class_test() {
    // a second bitmap-sized discipline at a data position cannot be parsed
    let spec = OddSpecs::new();
    let res = IsoMsg::new(&spec, "01004000000000000000".as_bytes());
    assert_eq!(res.err().unwrap(), IsoError::UnsupportedCharClass { position: 2 });
}

/// A format whose position 2 wrongly declares the bitmap size discipline.
pub struct OddSpecs {
    handle: Vec<IsoField>,
}

impl OddSpecs {
    pub fn new() -> OddSpecs {
        OddSpecs {
            handle: vec![
                IsoField::new("Message Type Indicator", FieldCharType::Iso8583_ns, 4, FieldSizeType::Fixed),
                IsoField::new("Bitmap", FieldCharType::Iso8583_bmps, 16, FieldSizeType::BitMap),
                IsoField::new("Stray Bitmap", FieldCharType::Iso8583_ns, 16, FieldSizeType::BitMap),
            ],
        }
    }
}

impl IsoSpecs for OddSpecs {
    fn get_handle(&self) -> &Vec<IsoField> {
        &self.handle
    }
}
