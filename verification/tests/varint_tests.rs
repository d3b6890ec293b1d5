use sqlite_reader::varint::high_bit;
use sqlite_reader::varint::VarInt;

#[test]
fn test_high_bit() {
    assert!(high_bit(0b10000000));
    assert!(high_bit(0b10111010));

    assert!(!high_bit(0b00000000));
    assert!(!high_bit(0b01111111));
}

#[test]
fn one_byte() {
    let input = &[0x15u8];
    let (value, used) = VarInt::parse(input, 0).unwrap();
    assert_eq!(used, input.len());
    assert_eq!(value, VarInt(0x15));
}

#[test]
fn two_bytes() {
    let input = &[0x87u8, 0x68];
    let (value, used) = VarInt::parse(input, 0).unwrap();
    assert_eq!(used, input.len());
    assert_eq!(value, VarInt(1000));
}

#[test]
fn three_bytes() {
    let input = &[0xc8u8, 0xf2, 0x19];
    let (value, used) = VarInt::parse(input, 0).unwrap();
    assert_eq!(used, input.len());
    assert_eq!(value, VarInt(1194265));
}

#[test]
fn four_bytes() {
    let input = &[0xd1u8, 0x9a, 0xe2, 0x67];
    let (value, used) = VarInt::parse(input, 0).unwrap();
    assert_eq!(used, input.len());
    assert_eq!(value, VarInt(170307943));
}

#[test]
fn varint_round_trips() {
    let samples: Vec<i64> = vec![
        0,
        1,
        0x7f,
        0x80,
        1000,
        1194265,
        170307943,
        i64::MAX,
        -1,
        -1000,
        i64::MIN,
    ];
    for v in samples {
        let enc = VarInt(v).encode();
        assert!(enc.len() >= 1 && enc.len() <= 9);
        let (decoded, used) = VarInt::parse(&enc, 0).unwrap();
        assert_eq!(decoded, VarInt(v));
        assert_eq!(used, enc.len());
    }
}

#[test]
fn nine_byte_form() {
    // every negative value needs all nine bytes
    let enc = VarInt(-1).encode();
    assert_eq!(enc.len(), 9);
    let (decoded, used) = VarInt::parse(&enc, 0).unwrap();
    assert_eq!(decoded, VarInt(-1));
    assert_eq!(used, 9);
}

#[test]
fn truncated_varint_is_an_error() {
    // a lone continuation byte runs off the end of the input
    let input = &[0x87u8];
    assert!(VarInt::parse(input, 0).is_err());
}
