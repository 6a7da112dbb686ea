use deadlock_api_ingest::http::{find_http_in_packet, parse_http_request, unfold_http_headers};

#[test]
fn test_unfold_http_headers_simple() {
    let http_data = "GET / HTTP/1.1\r\nHost: example.com\r\n\r\n";
    let unfolded = unfold_http_headers(http_data);
    assert!(unfolded.contains("Host: example.com"));
}

#[test]
fn test_unfold_http_headers_with_folding() {
    let http_data =
        "GET / HTTP/1.1\r\nHost: example.com\r\nX-Custom-Header: value1\r\n value2\r\n\r\n";
    let unfolded = unfold_http_headers(http_data);
    assert!(
        unfolded.contains("X-Custom-Header: value1 value2"),
        "Folded header should be unfolded. Got: {unfolded}"
    );
}

#[test]
fn test_unfold_http_headers_with_tab_folding() {
    let http_data =
        "GET / HTTP/1.1\r\nHost: example.com\r\nX-Custom-Header: value1\r\n\tvalue2\r\n\r\n";
    let unfolded = unfold_http_headers(http_data);
    assert!(
        unfolded.contains("X-Custom-Header: value1 value2"),
        "Tab-folded header should be unfolded. Got: {unfolded}"
    );
}

#[test]
fn test_parse_http_request_with_folded_host_header() {
    let http_data = "GET /path HTTP/1.1\r\nHost: replay404\r\n .valve.net\r\n\r\n";
    let url = parse_http_request(http_data);
    assert_eq!(
        url,
        Some("http://replay404 .valve.net/path".to_string()),
        "Should parse folded Host header"
    );
}

#[test]
fn test_parse_http_request() {
    let http_data = "GET / HTTP/1.1\r\nHost: www.example.com\r\n\r\n";
    assert_eq!(
        parse_http_request(http_data).unwrap(),
        "http://www.example.com/"
    );
}

#[test]
fn test_find_http_in_packet() {
    let payload =
        b"\x00\x01randomdataGET /path HTTP/1.1\r\nHost: example.com\r\n\r\nmore".to_vec();
    let found = find_http_in_packet(&payload).unwrap();
    assert!(found.contains("GET /path HTTP/1.1"));
}

#[test]
fn unfold_gives_exact_text() {
    let http_data = "GET / HTTP/1.1\r\nHost: replay404\r\n .valve.net\r\nAccept: */*\r\n\r\n";
    assert_eq!(
        unfold_http_headers(http_data),
        "GET / HTTP/1.1\r\nHost: replay404 .valve.net\r\nAccept: */*\r\n"
    );
}

#[test]
fn unfold_of_empty_text_is_empty() {
    assert_eq!(unfold_http_headers(""), "");
}

#[test]
fn unfold_keeps_request_line_and_drops_blank_lines() {
    assert_eq!(unfold_http_headers("GET /\n\nA: b\n"), "GET /\r\nA: b\r\n");
    assert_eq!(unfold_http_headers("\nfoo"), "\r\nfoo\r\n");
}

#[test]
fn unfold_trims_continuation_and_joins_with_one_space() {
    assert_eq!(
        unfold_http_headers("GET / HTTP/1.1\r\nX: a\r\n \t  b  \r\n\tc\r\n"),
        "GET / HTTP/1.1\r\nX: a b c\r\n"
    );
}

#[test]
fn unfold_keeps_a_bare_carriage_return_at_the_end() {
    assert_eq!(unfold_http_headers("GET /\nX: y\r"), "GET /\r\nX: y\r\r\n");
}

#[test]
fn find_returns_region_up_to_header_end() {
    let payload = b"junkGET /a HTTP/1.1\r\nHost: h\r\n\r\nbody".to_vec();
    assert_eq!(
        find_http_in_packet(&payload).unwrap(),
        "GET /a HTTP/1.1\r\nHost: h\r\n\r\n"
    );
}

#[test]
fn find_without_marker_is_none() {
    assert_eq!(find_http_in_packet(b"POST /a HTTP/1.1\r\n\r\n"), None);
    assert_eq!(find_http_in_packet(b""), None);
}

#[test]
fn find_caps_partial_region() {
    let mut payload = b"GET /".to_vec();
    payload.extend(std::iter::repeat(b'a').take(3000));
    let found = find_http_in_packet(&payload).unwrap();
    assert_eq!(found.len(), 1024);
    assert!(found.starts_with("GET /aaaa"));
}

#[test]
fn find_ignores_marker_beyond_scan_cap() {
    let mut payload = vec![b'x'; 4093];
    payload.extend_from_slice(b"GET / HTTP/1.1\r\n\r\n");
    assert_eq!(find_http_in_packet(&payload), None);
    let mut payload = vec![b'x'; 4092];
    payload.extend_from_slice(b"GET / HTTP/1.1\r\n\r\n");
    assert_eq!(
        find_http_in_packet(&payload).unwrap(),
        "GET / HTTP/1.1\r\n\r\n"
    );
}

#[test]
fn find_decodes_invalid_bytes_lossily() {
    let payload = b"GET /\xff HTTP/1.1\r\n\r\n".to_vec();
    assert_eq!(
        find_http_in_packet(&payload).unwrap(),
        "GET /\u{fffd} HTTP/1.1\r\n\r\n"
    );
}

#[test]
fn find_decodes_multibyte_text() {
    let payload = "GET /caf\u{e9} HTTP/1.1\r\n\r\n".as_bytes().to_vec();
    assert_eq!(
        find_http_in_packet(&payload).unwrap(),
        "GET /caf\u{e9} HTTP/1.1\r\n\r\n"
    );
}

#[test]
fn parse_absolute_target_needs_no_host() {
    assert_eq!(
        parse_http_request("GET http://replay1.valve.net/a/b HTTP/1.1\r\n\r\n"),
        Some("http://replay1.valve.net/a/b".to_string())
    );
    assert_eq!(
        parse_http_request("GET https://example.com/x HTTP/1.1\r\nHost: other\r\n\r\n"),
        Some("https://example.com/x".to_string())
    );
}

#[test]
fn parse_host_is_case_insensitive_and_trimmed() {
    assert_eq!(
        parse_http_request("GET /p?q=1 HTTP/1.1\r\nAccept: x\r\nhOsT :   example.org  \r\n\r\n"),
        Some("http://example.org/p?q=1".to_string())
    );
}

#[test]
fn parse_without_host_or_target_is_none() {
    assert_eq!(parse_http_request("GET /p HTTP/1.1\r\nAccept: x\r\n\r\n"), None);
    assert_eq!(parse_http_request("GET\r\nHost: h\r\n\r\n"), None);
    assert_eq!(parse_http_request(""), None);
    assert_eq!(parse_http_request("   \r\nHost: h\r\n"), None);
}

#[test]
fn parse_strips_leading_slashes_of_target() {
    assert_eq!(
        parse_http_request("GET ///a/b HTTP/1.1\r\nHost: h\r\n\r\n"),
        Some("http://h/a/b".to_string())
    );
}

#[test]
fn parse_reads_headers_only_up_to_the_first_empty_line() {
    assert_eq!(
        parse_http_request("GET /p HTTP/1.1\r\n\r\nHost: example.com\r\n"),
        None
    );
    assert_eq!(
        parse_http_request("GET /p HTTP/1.1\r\nA: b\r\n\r\n \r\nHost: h\r\n"),
        None
    );
    assert_eq!(
        parse_http_request("GET /p HTTP/1.1\nA: b\n\nHost: h\n"),
        None
    );
    assert_eq!(
        parse_http_request("GET /p HTTP/1.1\r\nA: b\r\nHost: h\r\n\r\nHost: other\r\n"),
        Some("http://h/p".to_string())
    );
}

#[test]
fn parse_stops_at_line_that_is_blank_once_trimmed() {
    assert_eq!(
        parse_http_request("GET /p HTTP/1.1\r\n\u{a0}\r\nHost: h\r\n"),
        None
    );
    assert_eq!(
        parse_http_request("GET /p HTTP/1.1\r\n \r\nHost: h\r\n"),
        None
    );
}

#[test]
fn parse_joins_a_continuation_before_it_reads_the_host() {
    assert_eq!(
        parse_http_request("GET /p HTTP/1.1\r\nHost:\r\n\texample.org\r\n\r\n"),
        Some("http://example.org/p".to_string())
    );
    assert_eq!(
        parse_http_request("GET /p HTTP/1.1\r\n x\r\nHost: h\r\n\r\n"),
        Some("http://h/p".to_string())
    );
}

#[test]
fn parse_takes_only_the_target_itself_as_absolute() {
    assert_eq!(
        parse_http_request("GET /http://a/b HTTP/1.1\r\nHost: h\r\n\r\n"),
        Some("http://h/http://a/b".to_string())
    );
    assert_eq!(parse_http_request("GET /http://a/b HTTP/1.1\r\n\r\n"), None);
    assert_eq!(
        parse_http_request("GET http://a/b HTTP/1.1\r\n\r\n"),
        Some("http://a/b".to_string())
    );
}

#[test]
fn unfold_joins_any_number_of_continuation_lines() {
    assert_eq!(
        unfold_http_headers("GET / HTTP/1.1\r\nA: 1\r\n 2\r\n\t3\r\n  4 \r\nB: 5\r\n 6\r\n"),
        "GET / HTTP/1.1\r\nA: 1 2 3 4\r\nB: 5 6\r\n"
    );
}
