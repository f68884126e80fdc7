use matidb::protocol::{read_query, Response, ResponseDecoder};

fn decode(data: &[u8]) -> Result<Response, String> {
    let text = String::from_utf8(data.to_vec()).unwrap();
    let mut decoder = ResponseDecoder::new();
    for line in text.split_inclusive('\n') {
        if let Some(done) = decoder.feed_line(line) {
            return done;
        }
    }
    Err(decoder.end_of_input())
}

#[test]
fn test_ok_response_serialization() {
    let response = Response::Success("Query executed successfully".to_string());
    let bytes = response.to_bytes();
    let expected = b"OK\nQuery executed successfully\nEND\n";
    assert_eq!(bytes, expected);
}

#[test]
fn test_error_response_serialization() {
    let response = Response::Error("Table not found".to_string());
    let bytes = response.to_bytes();
    let expected = b"ERROR\nTable not found\nEND\n";
    assert_eq!(bytes, expected);
}

#[test]
fn test_ok_response_deserialization() {
    let data = b"OK\nQuery executed successfully\nEND\n";
    let response = decode(data).unwrap();
    match response {
        Response::Success(msg) => assert_eq!(msg, "Query executed successfully"),
        _ => panic!("Expected Ok response"),
    }
}

#[test]
fn test_error_response_deserialization() {
    let data = b"ERROR\nTable not found\nEND\n";
    let response = decode(data).unwrap();
    match response {
        Response::Error(msg) => assert_eq!(msg, "Table not found"),
        _ => panic!("Expected Error response"),
    }
}

#[test]
fn test_multiline_response() {
    let response = Response::Success("Row 1\nRow 2\nRow 3".to_string());
    let bytes = response.to_bytes();
    let parsed = decode(&bytes).unwrap();
    match parsed {
        Response::Success(msg) => assert_eq!(msg, "Row 1\nRow 2\nRow 3"),
        _ => panic!("Expected Ok response"),
    }
}

#[test]
fn test_read_query() {
    let query = read_query("SELECT * FROM users\n");
    assert_eq!(query, "SELECT * FROM users");
}

#[test]
fn unknown_status_is_rejected() {
    assert_eq!(decode(b"MAYBE\nx\nEND\n").unwrap_err(), "Invalid response: MAYBE");
}

#[test]
fn early_end_of_input_is_reported() {
    assert_eq!(decode(b"").unwrap_err(), "Connection closed");
    assert_eq!(decode(b"OK\npartial\n").unwrap_err(), "Connection closed before END marker");
}

#[test]
fn empty_content_round_trips() {
    let bytes = Response::Error(String::new()).to_bytes();
    assert_eq!(bytes, b"ERROR\n\nEND\n");
    match decode(&bytes).unwrap() {
        Response::Error(msg) => assert_eq!(msg, ""),
        _ => panic!("Expected Error response"),
    }
}
