use sqlite_reader::error::DbError;
use sqlite_reader::header::Header;
use sqlite_reader::page::PageType;
use sqlite_reader::record::ColumnType;
use sqlite_reader::record::Record;
use sqlite_reader::record::Value;

fn names(list: &[&str]) -> Vec<String> {
    list.iter().map(|s| s.to_string()).collect()
}

#[test]
fn record_round_trips() {
    let rec = Record {
        values: vec![
            ("a".to_string(), Value::Null),
            ("b".to_string(), Value::Integer(-42)),
            ("c".to_string(), Value::Text(b"pear".to_vec())),
            ("d".to_string(), Value::Blob(vec![0, 1, 2, 255])),
            ("e".to_string(), Value::Real(0x400921fb54442d18)),
        ],
    };
    let bytes = rec.serialize();
    let (back, used) = Record::parse(&bytes, 0, &names(&["a", "b", "c", "d", "e"])).unwrap();
    assert_eq!(used, bytes.len());
    assert_eq!(back.values.len(), 5);
    assert!(matches!(back.values[0].1, Value::Null));
    assert!(matches!(back.values[1].1, Value::Integer(-42)));
    assert!(matches!(&back.values[2].1, Value::Text(t) if t == b"pear"));
    assert!(matches!(&back.values[3].1, Value::Blob(b) if b == &vec![0u8, 1, 2, 255]));
    assert!(matches!(back.values[4].1, Value::Real(0x400921fb54442d18)));
}

#[test]
fn record_wrong_column_count_is_an_error() {
    let rec = Record {
        values: vec![("a".to_string(), Value::Integer(7))],
    };
    let bytes = rec.serialize();
    assert_eq!(
        Record::parse(&bytes, 0, &names(&["a", "b"])).unwrap_err(),
        DbError::MalformedRecord
    );
}

#[test]
fn reserved_serial_types_are_errors() {
    assert_eq!(ColumnType::from_serial(10), Err(DbError::MalformedRecord));
    assert_eq!(ColumnType::from_serial(11), Err(DbError::MalformedRecord));
    assert_eq!(ColumnType::from_serial(-3), Err(DbError::MalformedRecord));
}

#[test]
fn serial_type_sizes() {
    assert_eq!(ColumnType::from_serial(0).unwrap().size(), 0);
    assert_eq!(ColumnType::from_serial(1).unwrap().size(), 1);
    assert_eq!(ColumnType::from_serial(2).unwrap().size(), 2);
    assert_eq!(ColumnType::from_serial(3).unwrap().size(), 3);
    assert_eq!(ColumnType::from_serial(4).unwrap().size(), 4);
    assert_eq!(ColumnType::from_serial(5).unwrap().size(), 6);
    assert_eq!(ColumnType::from_serial(6).unwrap().size(), 8);
    assert_eq!(ColumnType::from_serial(7).unwrap().size(), 8);
    assert_eq!(ColumnType::from_serial(8).unwrap().size(), 0);
    assert_eq!(ColumnType::from_serial(9).unwrap().size(), 0);
    // even from 12 up: a blob of half the excess; odd from 13: text
    assert_eq!(ColumnType::from_serial(12).unwrap().size(), 0);
    assert_eq!(ColumnType::from_serial(20).unwrap().size(), 4);
    assert_eq!(ColumnType::from_serial(13).unwrap().size(), 0);
    assert_eq!(ColumnType::from_serial(21).unwrap().size(), 4);
}

#[test]
fn value_equality_is_reflexive_except_null() {
    let vals = vec![
        Value::Integer(5),
        Value::Real(1),
        Value::Text(b"x".to_vec()),
        Value::Blob(b"x".to_vec()),
    ];
    for v in &vals {
        assert!(v == v);
    }
    let null = Value::Null;
    assert!(!(null == null));
}

#[test]
fn text_and_blob_compare_by_bytes() {
    assert!(Value::Text(b"kiwi".to_vec()) == Value::Blob(b"kiwi".to_vec()));
    assert!(Value::Blob(b"kiwi".to_vec()) == Value::Text(b"kiwi".to_vec()));
    assert!(!(Value::Text(b"kiwi".to_vec()) == Value::Text(b"fig".to_vec())));
    assert!(!(Value::Integer(1) == Value::Text(b"1".to_vec())));
}

#[test]
fn rendering_values() {
    assert_eq!(Value::Null.render(), b"null".to_vec());
    assert_eq!(Value::Integer(0).render(), b"0".to_vec());
    assert_eq!(Value::Integer(1234).render(), b"1234".to_vec());
    assert_eq!(Value::Integer(-56).render(), b"-56".to_vec());
    assert_eq!(Value::Integer(i64::MIN).render(), b"-9223372036854775808".to_vec());
    assert_eq!(Value::Text(b"pear".to_vec()).render(), b"pear".to_vec());
}

#[test]
fn page_type_codes() {
    assert!(PageType::from_byte(0x02).is_ok());
    assert!(PageType::from_byte(0x05).is_ok());
    assert!(PageType::from_byte(0x0a).is_ok());
    assert!(PageType::from_byte(0x0d).is_ok());
    assert_eq!(PageType::from_byte(0x01), Err(DbError::MalformedPage));
}

#[test]
fn header_rejects_bad_magic() {
    let mut bytes = vec![0u8; 100];
    bytes[0] = 0x53;
    assert_eq!(Header::parse(&bytes).unwrap_err(), DbError::MalformedHeader);
}

#[test]
fn header_rejects_bad_page_size() {
    let mut bytes = vec![0u8; 100];
    bytes[..16].copy_from_slice(b"SQLite format 3\0");
    bytes[16] = 0x01;
    bytes[17] = 0x23;
    assert_eq!(Header::parse(&bytes).unwrap_err(), DbError::MalformedHeader);
}

#[test]
fn header_reads_fields() {
    let mut bytes = vec![0u8; 100];
    bytes[..16].copy_from_slice(b"SQLite format 3\0");
    bytes[16] = 0x10;
    bytes[17] = 0x00;
    bytes[20] = 0x00;
    bytes[31] = 3;
    let h = Header::parse(&bytes).unwrap();
    assert_eq!(h.page_size, 4096);
    assert_eq!(h.end_page_reserved_bytes, 0);
    assert_eq!(h.size_in_pages, 3);
}

#[test]
fn header_page_size_one_means_65536() {
    let mut bytes = vec![0u8; 100];
    bytes[..16].copy_from_slice(b"SQLite format 3\0");
    bytes[16] = 0x00;
    bytes[17] = 0x01;
    let h = Header::parse(&bytes).unwrap();
    assert_eq!(h.page_size, 65536);
}
