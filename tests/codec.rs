use sqlite_reader::cell::{decode_record, RecordValue};
use sqlite_reader::codec::encode_varint;
use sqlite_reader::parse_varint;
use sqlite_reader::sql::{create_statement, select_statement, Constraint, CreateStatement};
use sqlite_reader::text::{decimal_bytes, join_fields, text_of};
use sqlite_reader::SqliteError;

#[test]
fn varint_single_byte() {
    assert_eq!(parse_varint(&[0x7f]).unwrap(), (127, 1));
    assert_eq!(parse_varint(&[0x00, 0xff]).unwrap(), (0, 1));
}

#[test]
fn varint_two_bytes() {
    assert_eq!(parse_varint(&[0x81, 0x00]).unwrap(), (128, 2));
    assert_eq!(parse_varint(&[0x82, 0x2c, 0x99]).unwrap(), (300, 2));
}

#[test]
fn varint_nine_bytes_is_twos_complement() {
    assert_eq!(parse_varint(&[0xff; 9]).unwrap(), (-1, 9));
    assert_eq!(parse_varint(&[0xff; 12]).unwrap(), (-1, 9));
}

#[test]
fn varint_truncated() {
    assert_eq!(parse_varint(&[]).unwrap_err(), SqliteError::DecodeTruncated);
    assert_eq!(parse_varint(&[0x80, 0x80]).unwrap_err(), SqliteError::DecodeTruncated);
}

#[test]
fn varint_round_trip() {
    let samples: Vec<i64> = vec![
        0, 1, 127, 128, 240, 2287, 16383, 16384, 1 << 21, (1 << 28) + 5, 1 << 35, 1 << 42,
        (1 << 49) - 1, 1 << 55, (1 << 56) - 1, 1 << 56, i64::MAX, -1, -2, i64::MIN,
    ];
    for v in samples {
        let bytes = encode_varint(v);
        assert_eq!(parse_varint(&bytes).unwrap(), (v, bytes.len()));
    }
}

#[test]
fn varint_encoding_bytes() {
    assert_eq!(encode_varint(0), vec![0x00]);
    assert_eq!(encode_varint(127), vec![0x7f]);
    assert_eq!(encode_varint(128), vec![0x81, 0x00]);
    assert_eq!(encode_varint(300), vec![0x82, 0x2c]);
    assert_eq!(encode_varint(-1), vec![0xff; 9]);
    assert_eq!(encode_varint((1 << 56) - 1).len(), 8);
    assert_eq!(encode_varint(1 << 56).len(), 9);
}

#[test]
fn varint_length_is_first_clear_high_bit_or_nine() {
    let cases: Vec<Vec<u8>> = vec![
        vec![0x05],
        vec![0x80, 0x05],
        vec![0x80, 0x80, 0x80, 0x05, 0x80],
        vec![0x80; 8].into_iter().chain([0x80, 0x01]).collect(),
    ];
    for c in cases {
        let (_, n) = parse_varint(&c).unwrap();
        let first_clear = c.iter().position(|b| b & 0x80 == 0).map(|i| i + 1).unwrap_or(9);
        assert_eq!(n, first_clear.min(9));
    }
}

#[test]
fn record_of_each_serial_type() {
    // header: size 9, then codes 0, 1, 2, 3, 5, 8, 9, 19 (3-byte text) and 18 (3-byte blob)
    let mut p = vec![10, 0, 1, 2, 3, 5, 8, 9, 19, 18];
    p.push(0xfe);
    p.extend([0x01, 0x00]);
    p.extend([0xff, 0xff, 0xfe]);
    p.extend([0x00, 0x00, 0x00, 0x00, 0x01, 0x00]);
    p.extend(b"abc");
    p.extend([1, 2, 3]);
    let vals = decode_record(&p).unwrap();
    assert!(matches!(vals[0], RecordValue::Null));
    assert!(matches!(vals[1], RecordValue::I8(-2)));
    assert!(matches!(vals[2], RecordValue::I16(256)));
    assert!(matches!(vals[3], RecordValue::I24(-2)));
    assert!(matches!(vals[4], RecordValue::I48(256)));
    assert!(matches!(vals[5], RecordValue::I8(0)));
    assert!(matches!(vals[6], RecordValue::I8(1)));
    assert!(matches!(&vals[7], RecordValue::String(s) if s == "abc"));
    assert!(matches!(&vals[8], RecordValue::Blob(b) if b == &vec![1u8, 2, 3]));
}

#[test]
fn record_errors() {
    assert_eq!(decode_record(&[2, 10]).unwrap_err(), SqliteError::DecodeRecord);
    assert_eq!(decode_record(&[2, 1]).unwrap_err(), SqliteError::DecodeRecord);
    assert_eq!(decode_record(&[2, 1, 5, 6]).unwrap_err(), SqliteError::DecodeRecord);
    assert_eq!(decode_record(&[2, 15, 0xff]).unwrap_err(), SqliteError::DecodeRecord);
    assert_eq!(decode_record(&[9]).unwrap_err(), SqliteError::DecodeRecord);
    assert_eq!(decode_record(&[]).unwrap_err(), SqliteError::DecodeTruncated);
}

#[test]
fn double_keeps_its_bits() {
    let mut p = vec![2, 7];
    p.extend(1.5f64.to_be_bytes());
    let vals = decode_record(&p).unwrap();
    assert!(matches!(vals[0], RecordValue::F64(b) if f64::from_bits(b) == 1.5));
    assert!(text_of(&vals[0]).is_none());
}

#[test]
fn value_texts() {
    assert_eq!(decimal_bytes(-42), b"-42".to_vec());
    assert_eq!(decimal_bytes(i64::MIN), b"-9223372036854775808".to_vec());
    assert_eq!(decimal_bytes(0), b"0".to_vec());
    assert_eq!(text_of(&RecordValue::Null).unwrap(), b"null".to_vec());
    assert_eq!(text_of(&RecordValue::Blob(vec![1, 2, 3])).unwrap(), b"blob (3 bytes)".to_vec());
    assert_eq!(text_of(&RecordValue::I24(-70000)).unwrap(), b"-70000".to_vec());
    assert_eq!(
        join_fields(&vec![b"a".to_vec(), b"".to_vec(), b"c".to_vec()]),
        b"a||c".to_vec()
    );
}

#[test]
fn select_grammar() {
    let st = select_statement(b"SELECT COUNT(*) FROM apples").unwrap();
    assert!(st.operation.is_some());
    assert_eq!(st.table, b"apples".to_vec());
    let st = select_statement(b"select  a ,b,\"c d\" from  t where x='y z' ;").unwrap();
    assert!(st.operation.is_none());
    assert_eq!(st.columns, vec![b"a".to_vec(), b"b".to_vec(), b"c d".to_vec()]);
    let w = st.where_clause.unwrap();
    assert_eq!((w.column, w.value), (b"x".to_vec(), b"y z".to_vec()));
    assert_eq!(select_statement(b"SELECT a FROM t extra").unwrap_err(), SqliteError::ParseError);
    assert_eq!(select_statement(b"SELECT a, FROM t").unwrap_err(), SqliteError::ParseError);
}

#[test]
fn create_table_grammar() {
    let sql = b"CREATE TABLE apples\n(\n\tid integer primary key autoincrement,\n\tname text NOT NULL,\n\t\"size range\" text\n)";
    match create_statement(sql).unwrap() {
        CreateStatement::Table(t) => {
            assert_eq!(t.name, b"apples".to_vec());
            assert_eq!(t.columns.len(), 3);
            assert_eq!(t.columns[0].datatype, b"integer".to_vec());
            assert_eq!(
                t.columns[0].constraints,
                vec![Constraint::PrimaryKey, Constraint::Autoincrement]
            );
            assert_eq!(t.columns[1].constraints, vec![Constraint::NotNull]);
            assert_eq!(t.columns[2].name, b"size range".to_vec());
        }
        _ => panic!("expected a table"),
    }
    match create_statement(b"CREATE TABLE sqlite_sequence(name,seq)").unwrap() {
        CreateStatement::Table(t) => {
            assert_eq!(t.columns.len(), 2);
            assert!(t.columns[1].datatype.is_empty());
        }
        _ => panic!("expected a table"),
    }
}

#[test]
fn create_index_grammar() {
    match create_statement(b"CREATE INDEX idx_companies_country\n\ton companies (country)").unwrap() {
        CreateStatement::Index(i) => {
            assert_eq!(i.name, b"idx_companies_country".to_vec());
            assert_eq!(i.table, b"companies".to_vec());
            assert_eq!(i.table_column, b"country".to_vec());
        }
        _ => panic!("expected an index"),
    }
    assert_eq!(create_statement(b"CREATE VIEW v AS SELECT 1").unwrap_err(), SqliteError::ParseError);
}
