use gpfdist_rs::util::{parse_query_map, percent_decode};

#[test]
fn test_parse_query_map_empty() {
    let map = parse_query_map("/df/parquet");
    assert!(map.is_empty());
}

#[test]
fn test_parse_query_map_single() {
    let map = parse_query_map("/df/parquet?path=/data");
    assert_eq!(map.get("path"), Some(&"/data".to_string()));
}

#[test]
fn test_parse_query_map_multiple() {
    let map = parse_query_map("/df/parquet?path=/data&limit=100");
    assert_eq!(map.get("path"), Some(&"/data".to_string()));
    assert_eq!(map.get("limit"), Some(&"100".to_string()));
}

#[test]
fn test_percent_decode_simple() {
    assert_eq!(percent_decode("hello"), "hello");
}

#[test]
fn test_percent_decode_with_encoding() {
    assert_eq!(percent_decode("hello%20world"), "hello world");
    assert_eq!(percent_decode("test%2Bvalue"), "test+value");
}

#[test]
fn test_percent_decode_plus() {
    assert_eq!(percent_decode("hello+world"), "hello world");
}

#[test]
fn the_last_binding_of_a_name_wins() {
    let map = parse_query_map("/p?a=1&b&a=2=3&=4&c=");
    assert_eq!(map.get("a"), Some(&"2=3".to_string()));
    assert_eq!(map.get("b"), None);
    assert_eq!(map.get(""), Some(&"4".to_string()));
    assert_eq!(map.get("c"), Some(&"".to_string()));
}

#[test]
fn escapes_that_are_no_bytes_stay() {
    assert_eq!(percent_decode("%zz%4"), "%zz\u{4}");
    assert_eq!(percent_decode("100%"), "100%");
    assert_eq!(percent_decode("%+1"), "\u{1}");
    assert_eq!(percent_decode("%e9%41"), "\u{e9}A");
    let (a, b) = ("a%20b", "%2Fc");
    assert_eq!(percent_decode("a%20b%2Fc"), percent_decode(a) + &percent_decode(b));
}
