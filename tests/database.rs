use matidb::database::{format_value, Row, Value};

#[test]
fn test_serialize_long() {
    let row = Row { values: vec![Value::Long(42)] };
    let bytes = row.to_bytes();
    let restored = Row::from_bytes(&bytes).unwrap();
    assert!(matches!(restored.values[0], Value::Long(42)));
}

#[test]
fn test_serialize_text() {
    let row = Row { values: vec![Value::Text("hello".to_string())] };
    let bytes = row.to_bytes();
    let restored = Row::from_bytes(&bytes).unwrap();
    assert!(matches!(&restored.values[0], Value::Text(s) if s == "hello"));
}

#[test]
fn test_serialize_bool() {
    let row = Row { values: vec![Value::Bool(true), Value::Bool(false)] };
    let bytes = row.to_bytes();
    let restored = Row::from_bytes(&bytes).unwrap();
    assert!(matches!(restored.values[0], Value::Bool(true)));
    assert!(matches!(restored.values[1], Value::Bool(false)));
}

#[test]
fn test_serialize_mixed() {
    let row = Row {
        values: vec![
            Value::Long(123),
            Value::Text("Alice".to_string()),
            Value::Bool(true),
        ],
    };
    let bytes = row.to_bytes();
    let restored = Row::from_bytes(&bytes).unwrap();
    assert_eq!(restored.values.len(), 3);
    assert!(matches!(restored.values[0], Value::Long(123)));
    assert!(matches!(&restored.values[1], Value::Text(s) if s == "Alice"));
    assert!(matches!(restored.values[2], Value::Bool(true)));
}

#[test]
fn test_serialize_empty_string() {
    let row = Row { values: vec![Value::Text("".to_string())] };
    let bytes = row.to_bytes();
    let restored = Row::from_bytes(&bytes).unwrap();
    assert!(matches!(&restored.values[0], Value::Text(s) if s.is_empty()));
}

#[test]
fn test_serialize_large_number() {
    let row = Row { values: vec![Value::Long(i64::MAX), Value::Long(i64::MIN)] };
    let bytes = row.to_bytes();
    let restored = Row::from_bytes(&bytes).unwrap();
    assert!(matches!(restored.values[0], Value::Long(n) if n == i64::MAX));
    assert!(matches!(restored.values[1], Value::Long(n) if n == i64::MIN));
}

#[test]
fn test_from_bytes_invalid_tag() {
    let bytes = vec![99, 0, 0, 0, 0];
    let result = Row::from_bytes(&bytes);
    assert!(result.is_err());
    assert!(result.unwrap_err().contains("Unknown type tag"));
}

#[test]
fn test_from_bytes_truncated_long() {
    let bytes = vec![0, 1, 2, 3];
    let result = Row::from_bytes(&bytes);
    assert!(result.is_err());
}

#[test]
fn test_from_bytes_truncated_text() {
    let bytes = vec![1, 10, 0, 0, 0, 65, 66];
    let result = Row::from_bytes(&bytes);
    assert!(result.is_err());
}

#[test]
fn encoding_is_exact() {
    let row = Row {
        values: vec![Value::Long(-2), Value::Text("hé".to_string()), Value::Bool(true)],
    };
    assert_eq!(
        row.to_bytes(),
        vec![0, 0xfe, 0xff, 0xff, 0xff, 0xff, 0xff, 0xff, 0xff, 1, 3, 0, 0, 0, b'h', 0xc3, 0xa9, 2, 1]
    );
}

#[test]
fn empty_row_round_trips() {
    let row = Row { values: vec![] };
    assert!(row.to_bytes().is_empty());
    assert!(Row::from_bytes(&[]).unwrap().values.is_empty());
}

#[test]
fn unknown_tag_message_names_the_tag() {
    assert_eq!(Row::from_bytes(&[7]).unwrap_err(), "Unknown type tag: 7");
}

#[test]
fn truncated_fields_are_rejected() {
    let row = Row {
        values: vec![Value::Long(5), Value::Text("abc".to_string()), Value::Bool(false)],
    };
    let bytes = row.to_bytes();
    // cutting inside any field fails; cutting between values succeeds
    for cut in 1..bytes.len() {
        let res = Row::from_bytes(&bytes[..cut]);
        if cut == 9 || cut == 17 {
            assert!(res.is_ok());
        } else {
            assert!(res.is_err(), "cut at {}", cut);
        }
    }
    assert_eq!(Row::from_bytes(&[2]).unwrap_err(), "Unexpected end of data for Bool");
    assert_eq!(Row::from_bytes(&[1, 0]).unwrap_err(), "Unexpected end of data for Text length");
    assert_eq!(Row::from_bytes(&[1, 2, 0, 0, 0, 65]).unwrap_err(), "Unexpected end of data for Text content");
    assert_eq!(Row::from_bytes(&[0, 1]).unwrap_err(), "Unexpected end of data for Long");
}

#[test]
fn invalid_utf8_is_rejected() {
    assert!(Row::from_bytes(&[1, 1, 0, 0, 0, 0xff]).is_err());
}

#[test]
fn nonzero_bool_byte_reads_true() {
    let row = Row::from_bytes(&[2, 5]).unwrap();
    assert!(matches!(row.values[0], Value::Bool(true)));
}

#[test]
fn values_format_for_output() {
    assert_eq!(format_value(&Value::Long(-17)), "-17");
    assert_eq!(format_value(&Value::Long(i64::MIN)), "-9223372036854775808");
    assert_eq!(format_value(&Value::Text("x y".to_string())), "x y");
    assert_eq!(format_value(&Value::Bool(true)), "true");
    assert_eq!(format_value(&Value::Bool(false)), "false");
}
