use afire::{headers_to_string, Header};

#[test]
fn new_stores_name_and_value() {
    let h = Header::new("Content-Type", "text/html");
    assert_eq!(h.name(), "Content-Type");
    assert_eq!(h.value(), "text/html");
}

#[test]
fn new_keeps_whitespace_and_case() {
    let h = Header::new(" X-Key ", " Value ");
    assert_eq!(h.name(), " X-Key ");
    assert_eq!(h.value(), " Value ");
}

#[test]
fn copy_equals_original() {
    let h1 = &Header::new("Content-Type", "text/html");
    let h2 = Header::new("Content-Type", "text/html");
    assert!(h1.copy() == h2);
}

#[test]
fn equality_is_on_name_and_value() {
    assert!(Header::new("a", "b") == Header::new("a", "b"));
    assert!(Header::new("a", "b") != Header::new("a", "c"));
    assert!(Header::new("a", "b") != Header::new("A", "b"));
}

#[test]
fn from_string_parses_name_and_value() {
    let h1 = Header::new("Content-Type", "text/html");
    let h2 = Header::from_string("Content-Type: text/html").unwrap();
    assert!(h2 == h1);
}

#[test]
fn from_string_trims_both_sides() {
    let h = Header::from_string("  Host \t:\t example.com  ").unwrap();
    assert_eq!(h.name(), "Host");
    assert_eq!(h.value(), "example.com");
}

#[test]
fn from_string_allows_empty_sides() {
    let h = Header::from_string(":").unwrap();
    assert_eq!(h.name(), "");
    assert_eq!(h.value(), "");
}

#[test]
fn from_string_rejects_no_colon() {
    assert!(Header::from_string("NoColonHere").is_none());
    assert!(Header::from_string("").is_none());
}

#[test]
fn from_string_rejects_two_colons() {
    assert!(Header::from_string("a:b:c").is_none());
    assert!(Header::from_string("Host: localhost:8080").is_none());
}

#[test]
fn to_string_renders_name_colon_value() {
    let h = Header::new("Content-Type", "text/html");
    assert_eq!(h.to_string(), "Content-Type: text/html");
}

#[test]
fn round_trip_through_text() {
    let h = Header::new("Accept", "*/*");
    let back = Header::from_string(&h.to_string()).unwrap();
    assert!(back == h);
}

#[test]
fn round_trip_trims_untrimmed_parts() {
    let h = Header::new(" Accept", "*/* ");
    let back = Header::from_string(&h.to_string()).unwrap();
    assert!(back == Header::new("Accept", "*/*"));
}

#[test]
fn headers_joined_with_crlf() {
    let hs = vec![
        Header::new("Content-Type", "text/plain"),
        Header::new("Content-Length", "0"),
    ];
    assert_eq!(headers_to_string(hs), "Content-Type: text/plain\r\nContent-Length: 0");
}

#[test]
fn headers_single_and_empty() {
    assert_eq!(headers_to_string(vec![Header::new("a", "b")]), "a: b");
    assert_eq!(headers_to_string(Vec::new()), "");
}
