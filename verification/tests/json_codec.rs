use rooster::json::{decode_records, encode_records};
use rooster::record::{Password, SafeString};

fn record(name: &str, username: &str, password: &str, created: i64, updated: i64) -> Password {
    Password {
        name: name.to_string(),
        username: username.to_string(),
        password: SafeString::new(password.to_string()),
        created_at: created,
        updated_at: updated,
    }
}

#[test]
fn encode_produces_exact_document() {
    let records = vec![record("YouTube", "me@example.com", "swordfish", 1000, 1000)];
    let doc = encode_records(&records);
    assert_eq!(
        doc,
        "{\"passwords\":[{\"name\":\"YouTube\",\"username\":\"me@example.com\",\
         \"password\":\"swordfish\",\"created_at\":1000,\"updated_at\":1000}]}"
    );
}

#[test]
fn encode_escapes_quotes_and_backslashes() {
    let records = vec![record("a\"b\\c", "u", "p", 0, -7)];
    let doc = encode_records(&records);
    assert_eq!(
        doc,
        "{\"passwords\":[{\"name\":\"a\\\"b\\\\c\",\"username\":\"u\",\
         \"password\":\"p\",\"created_at\":0,\"updated_at\":-7}]}"
    );
}

#[test]
fn decode_inverts_encode() {
    let records = vec![
        record("one", "u1", "p1", 5, 6),
        record("Two \"quoted\"", "u\\2", "p\n2", -3, 9_007_199_254_740_993),
    ];
    let doc = encode_records(&records);
    let back = decode_records(&doc).unwrap();
    assert_eq!(back.len(), 2);
    assert_eq!(back[0].name, "one");
    assert_eq!(back[1].name, "Two \"quoted\"");
    assert_eq!(back[1].username, "u\\2");
    assert_eq!(back[1].password.inner, "p\n2");
    assert_eq!(back[1].created_at, -3);
    assert_eq!(back[1].updated_at, 9_007_199_254_740_993);
}

#[test]
fn decode_tolerates_whitespace_and_field_order() {
    let doc = " { \"passwords\" : [ { \"updated_at\" : 2 , \"password\" : \"p\" ,\n\
               \"created_at\" : 1 , \"name\" : \"A\" , \"username\" : \"u\" } ] } ";
    let records = decode_records(doc).unwrap();
    assert_eq!(records.len(), 1);
    assert_eq!(records[0].name, "A");
    assert_eq!(records[0].created_at, 1);
    assert_eq!(records[0].updated_at, 2);
}

#[test]
fn decode_tolerates_unknown_fields() {
    let doc = "{\"junk\":{\"nested\":[1,-2,\"x\",true,null],\"deep\":{\"a\":[]}},\
               \"passwords\":[{\"name\":\"A\",\"username\":\"u\",\"password\":\"p\",\
               \"created_at\":1,\"updated_at\":2,\"color\":\"red\",\"tags\":[\"a\",\"b\"]}],\
               \"more\":false}";
    let records = decode_records(doc).unwrap();
    assert_eq!(records.len(), 1);
    assert_eq!(records[0].name, "A");
    assert_eq!(records[0].password.inner, "p");
}

#[test]
fn decode_handles_simple_escapes() {
    let doc = "{\"passwords\":[{\"name\":\"a\\\"b\",\"username\":\"c\\\\d\",\
               \"password\":\"x\\n\\t\\r\\b\\f\\/y\",\"created_at\":0,\"updated_at\":0}]}";
    let records = decode_records(doc).unwrap();
    assert_eq!(records[0].name, "a\"b");
    assert_eq!(records[0].username, "c\\d");
    assert_eq!(records[0].password.inner, "x\n\t\r\u{8}\u{c}/y");
}

#[test]
fn decode_handles_unicode_escapes() {
    let doc = "{\"passwords\":[{\"name\":\"\\u0041\\u00e9\\u2603\",\"username\":\"\\uD83D\\uDE00\",\
               \"password\":\"tab\\u0009end\",\"created_at\":0,\"updated_at\":0}]}";
    let records = decode_records(doc).unwrap();
    assert_eq!(records[0].name, "A\u{e9}\u{2603}");
    assert_eq!(records[0].username, "\u{1F600}");
    assert_eq!(records[0].password.inner, "tab\tend");
}

#[test]
fn decode_rejects_bad_unicode_escapes() {
    // A lone high surrogate, a lone low surrogate, and a short escape.
    for bad in ["\\uD83Dx", "\\uDC00", "\\u12"] {
        let doc = format!(
            "{{\"passwords\":[{{\"name\":\"{bad}\",\"username\":\"u\",\"password\":\"p\",\
             \"created_at\":0,\"updated_at\":0}}]}}"
        );
        assert!(decode_records(&doc).is_none());
    }
}

#[test]
fn decode_rejects_malformed_documents() {
    assert!(decode_records("").is_none());
    assert!(decode_records("{}").is_none());
    assert!(decode_records("{\"passwords\":}").is_none());
    assert!(decode_records("{\"passwords\":[{}]}").is_none());
    assert!(decode_records("{\"passwords\":[]}x").is_none());
    assert!(decode_records(
        "{\"passwords\":[{\"name\":\"A\",\"username\":\"u\",\"created_at\":1,\"updated_at\":2}]}",
    )
    .is_none());
    assert!(decode_records(
        "{\"passwords\":[{\"name\":\"A\",\"username\":\"u\",\"password\":\"p\",\
         \"created_at\":99999999999999999999,\"updated_at\":2}]}",
    )
    .is_none());
}

#[test]
fn decode_keeps_array_order() {
    let doc = "{\"passwords\":[\
               {\"name\":\"b\",\"username\":\"u\",\"password\":\"p\",\"created_at\":1,\"updated_at\":1},\
               {\"name\":\"a\",\"username\":\"u\",\"password\":\"p\",\"created_at\":1,\"updated_at\":1}]}";
    let records = decode_records(doc).unwrap();
    assert_eq!(records[0].name, "b");
    assert_eq!(records[1].name, "a");
}

#[test]
fn decode_accepts_extreme_timestamps() {
    let doc = format!(
        "{{\"passwords\":[{{\"name\":\"A\",\"username\":\"u\",\"password\":\"p\",\
         \"created_at\":{},\"updated_at\":{}}}]}}",
        i64::MIN,
        i64::MAX
    );
    let records = decode_records(&doc).unwrap();
    assert_eq!(records[0].created_at, i64::MIN);
    assert_eq!(records[0].updated_at, i64::MAX);
}
