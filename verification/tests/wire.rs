use dataflow::data::DataType;
use dataflow::wire::{
    decode_message, decode_row, decode_value, decode_varint, encode_message, encode_row,
    encode_value, encode_varint, WireError, WIRE_VERSION,
};

fn varint(n: u32) -> Vec<u8> {
    let mut out = Vec::new();
    encode_varint(n, &mut out);
    out
}

fn value(v: &DataType) -> Vec<u8> {
    let mut out = Vec::new();
    assert!(encode_value(v, &mut out));
    out
}

#[test]
fn numbers_are_written_in_groups_of_seven_bits() {
    assert_eq!(varint(0), vec![0]);
    assert_eq!(varint(127), vec![127]);
    assert_eq!(varint(128), vec![0x80, 1]);
    assert_eq!(varint(300), vec![0xac, 2]);
    assert_eq!(varint(u32::MAX), vec![0xff, 0xff, 0xff, 0xff, 0x0f]);
    for n in [0, 1, 127, 128, 16383, 16384, 1 << 21, u32::MAX] {
        let mut buf = vec![9];
        encode_varint(n, &mut buf);
        buf.push(7);
        assert_eq!(decode_varint(&buf, 1), Ok((n, buf.len() - 1)));
    }
    assert_eq!(decode_varint(&vec![0x80], 0), Err(WireError::Truncated));
    assert_eq!(decode_varint(&vec![], 0), Err(WireError::Truncated));
    // more than 32 bits, and more than five groups
    assert_eq!(decode_varint(&vec![0xff, 0xff, 0xff, 0xff, 0x1f], 0), Err(WireError::TooLarge));
    assert_eq!(decode_varint(&vec![0x80, 0x80, 0x80, 0x80, 0x80, 0], 0), Err(WireError::TooLarge));
}

#[test]
fn values_have_a_tag_and_a_body() {
    assert_eq!(value(&DataType::Null), vec![0]);
    assert_eq!(value(&DataType::Bool(true)), vec![1, 1]);
    assert_eq!(value(&DataType::Bool(false)), vec![1, 0]);
    assert_eq!(value(&DataType::Int(1)), vec![2, 0, 0, 0, 0, 0, 0, 0, 1]);
    assert_eq!(value(&DataType::Int(-2)), vec![2, 255, 255, 255, 255, 255, 255, 255, 254]);
    assert_eq!(value(&DataType::Int(i64::MIN)), vec![2, 128, 0, 0, 0, 0, 0, 0, 0]);
    assert_eq!(value(&DataType::UnsignedInt(0x0102030405060708)), vec![3, 1, 2, 3, 4, 5, 6, 7, 8]);
    // one second before the epoch, in microseconds
    assert_eq!(
        value(&DataType::Timestamp(-1_000_000)),
        vec![4, 255, 255, 255, 255, 255, 240, 189, 192]
    );
    assert_eq!(value(&DataType::from("hé")), vec![5, 3, b'h', 0xc3, 0xa9]);
    assert_eq!(value(&DataType::from("")), vec![5, 0]);
    assert_eq!(value(&DataType::Bytes(vec![9, 8])), vec![6, 2, 9, 8]);
}

#[test]
fn values_come_back_from_their_encoding() {
    let values = vec![
        DataType::Null,
        DataType::Bool(true),
        DataType::Int(i64::MAX),
        DataType::Int(i64::MIN),
        DataType::Int(-1),
        DataType::UnsignedInt(u64::MAX),
        DataType::Timestamp(1_700_000_000_000_000),
        DataType::Timestamp(i64::MIN),
        DataType::from("a text of some length, with ünïcödé"),
        DataType::Bytes((0..=255u8).collect()),
        DataType::Bytes(vec![0; 300]),
    ];
    for v in &values {
        let mut buf = vec![0xee];
        assert!(encode_value(v, &mut buf));
        let end = buf.len();
        buf.push(0xdd);
        let (found, next) = decode_value(&buf, 1).unwrap();
        assert_eq!(&found, v);
        assert_eq!(next, end);
    }
    let mut encoded = Vec::new();
    assert!(encode_row(&values, &mut encoded));
    let (row, next) = decode_row(&encoded, 0).unwrap();
    assert_eq!(row, values);
    assert_eq!(next, encoded.len());
}

#[test]
fn malformed_values_are_refused() {
    assert_eq!(decode_value(&vec![], 0).err(), Some(WireError::Truncated));
    assert_eq!(decode_value(&vec![7], 0).err(), Some(WireError::MalformedTag(7)));
    assert_eq!(decode_value(&vec![255], 0).err(), Some(WireError::MalformedTag(255)));
    assert_eq!(decode_value(&vec![1], 0).err(), Some(WireError::Truncated));
    assert_eq!(decode_value(&vec![1, 2], 0).err(), Some(WireError::MalformedValue));
    assert_eq!(decode_value(&vec![2, 0, 0, 0, 0, 0, 0, 0], 0).err(), Some(WireError::Truncated));
    assert_eq!(decode_value(&vec![5, 2, b'a'], 0).err(), Some(WireError::Truncated));
    // bytes that are no UTF-8
    assert_eq!(decode_value(&vec![5, 2, 0xc3, 0x28], 0).err(), Some(WireError::MalformedValue));
    assert_eq!(decode_value(&vec![6, 0x80], 0).err(), Some(WireError::Truncated));
    assert_eq!(decode_row(&vec![2, 0], 0).err(), Some(WireError::Truncated));
    assert_eq!(decode_row(&vec![1, 9], 0).err(), Some(WireError::MalformedTag(9)));
}

#[test]
fn messages_carry_a_version_and_rows() {
    let rows: Vec<Vec<DataType>> = vec![
        vec![1.into(), "a".into()],
        vec![],
        vec![DataType::Null, DataType::Timestamp(5), DataType::Bytes(vec![1])],
    ];
    let payload = encode_message(&rows).unwrap();
    assert_eq!(payload[0], WIRE_VERSION);
    assert_eq!(payload[1], 3);
    assert_eq!(&payload[2..5], &[2, 2, 0]);
    assert_eq!(decode_message(&payload), Ok(rows));
    assert_eq!(encode_message(&vec![]).unwrap(), vec![1, 0]);
    assert_eq!(decode_message(&vec![1, 0]), Ok(vec![]));

    assert_eq!(decode_message(&vec![]), Err(WireError::Truncated));
    assert_eq!(decode_message(&vec![2, 0]), Err(WireError::UnknownVersion(2)));
    assert_eq!(decode_message(&vec![0, 0]), Err(WireError::UnknownVersion(0)));
    assert_eq!(decode_message(&vec![1]), Err(WireError::Truncated));
    assert_eq!(decode_message(&vec![1, 1]), Err(WireError::Truncated));
    // bytes after the rows
    assert_eq!(decode_message(&vec![1, 0, 0]), Err(WireError::MalformedValue));
    let mut cut = payload.clone();
    cut.pop();
    assert_eq!(decode_message(&cut), Err(WireError::Truncated));
}
