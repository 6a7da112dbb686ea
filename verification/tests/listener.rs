use deadlock_api_ingest::ingestion_cache::{is_ingested, IngestionCache};
use deadlock_api_ingest::listener::{
    extract_salts, on_payload, record_delivery, should_deliver, ConnectionTable,
    MAX_CONCURRENT_STREAMS,
};
use deadlock_api_ingest::salts::Salts;

#[test]
fn test_extract_salts_with_query_params() {
    let http_data_without_query =
        "GET /1422450/37959196_937530290.meta.bz2 HTTP/1.1\r\nHost: replay404.valve.net\r\n\r\n";
    let packet_without_query = format!("randomdata{http_data_without_query}").into_bytes();
    let salts = extract_salts(&packet_without_query);
    assert!(
        salts.is_some(),
        "Should extract salts from URL without query params"
    );

    let http_data_with_query = "GET /1422450/37959196_937530290.meta.bz2?v=2 HTTP/1.1\r\nHost: replay404.valve.net\r\n\r\n";
    let packet_with_query = format!("randomdata{http_data_with_query}").into_bytes();
    let salts_with_query = extract_salts(&packet_with_query);
    assert!(
        salts_with_query.is_some(),
        "Should extract salts from URL with query params"
    );
}

#[test]
fn test_multi_packet_http_request() {
    let packet1 = b"GET /1422450/37959196_937530290.meta.bz2 HTTP/1.1\r\n";
    let packet2 = b"Host: replay404.valve.net\r\n\r\n";

    let salts1 = extract_salts(packet1);
    assert!(
        salts1.is_none(),
        "Incomplete request should not extract salts"
    );

    let mut combined = packet1.to_vec();
    combined.extend_from_slice(packet2);
    let salts_combined = extract_salts(&combined);
    assert!(
        salts_combined.is_some(),
        "Complete reassembled request should extract salts"
    );
}

#[test]
fn test_fragmented_http_request_with_body() {
    let packet1 = b"randomdataGET /1422450/37959196_937530290.meta.bz2 HTTP/1.1\r\nHo";
    let packet2 = b"st: replay404.valve.net\r\n\r\n";

    let salts1 = extract_salts(packet1);
    assert!(
        salts1.is_none(),
        "Fragmented request should not extract salts"
    );

    let mut combined = packet1.to_vec();
    combined.extend_from_slice(packet2);
    let salts_combined = extract_salts(&combined);
    assert!(
        salts_combined.is_some(),
        "Reassembled fragmented request should extract salts"
    );
}

fn expected() -> Salts {
    Salts {
        match_id: 37959196,
        cluster_id: 404,
        metadata_salt: Some(937530290),
        replay_salt: None,
    }
}

fn frame(src_port: u16, body: &[u8]) -> Vec<u8> {
    let mut packet = vec![0u8; 40];
    packet[0] = 0x45;
    packet[9] = 6;
    packet[12..16].copy_from_slice(&[192, 168, 1, 100]);
    packet[16..20].copy_from_slice(&[10, 0, 0, 1]);
    packet[20..22].copy_from_slice(&src_port.to_be_bytes());
    packet[22..24].copy_from_slice(&[0x00, 0x50]);
    packet.extend_from_slice(body);
    packet
}

#[test]
fn extract_gives_the_exact_record() {
    let packet = b"randomdataGET /1422450/37959196_937530290.meta.bz2?v=2 HTTP/1.1\r\nHost: replay404.valve.net\r\n\r\n";
    assert_eq!(extract_salts(packet), Some(expected()));
}

#[test]
fn table_reassembles_a_request_split_over_two_frames() {
    let mut table = ConnectionTable::new();
    let first = frame(
        1000,
        b"GET /1422450/37959196_937530290.meta.bz2 HTTP/1.1\r\n",
    );
    let mut second = frame(1000, b"Host: replay404.valve.net\r\n\r\n");
    second[39] = b'\n';
    assert_eq!(table.process_payload(&first), None);
    assert_eq!(table.len(), 1);
    assert_eq!(table.process_payload(&second), Some(expected()));
    assert_eq!(table.len(), 1);
    assert_eq!(table.process_payload(&second), None);

    let mut joined = first.clone();
    joined.extend_from_slice(&second);
    assert_eq!(extract_salts(&joined), Some(expected()));
}

#[test]
fn table_keeps_connections_apart() {
    let mut table = ConnectionTable::new();
    let first = frame(
        1000,
        b"GET /1422450/37959196_937530290.meta.bz2 HTTP/1.1\r\nHo",
    );
    let other = frame(2000, b"st: replay404.valve.net\r\n\r\n");
    assert_eq!(table.process_payload(&first), None);
    assert_eq!(table.process_payload(&other), None);
    assert_eq!(table.len(), 2);
    assert_eq!(table.process_payload(&[0u8; 10]), None);
    assert_eq!(table.len(), 2);
}

#[test]
fn table_keeps_fresh_connections_over_the_cap() {
    let mut table = ConnectionTable::new();
    for port in 0..(MAX_CONCURRENT_STREAMS as u16 + 5) {
        assert_eq!(table.process_payload(&frame(port, b"x")), None);
    }
    assert_eq!(table.len(), MAX_CONCURRENT_STREAMS + 5);
}

#[test]
fn retain_fresh_drops_what_idled_too_long() {
    let mut table = ConnectionTable::new();
    for port in 0..4u16 {
        table.process_payload(&frame(port, b"x"));
    }
    table.retain_fresh(&vec![5, 11, 10, 12], 10);
    assert_eq!(table.len(), 2);
    table.retain_fresh(&vec![0, 0], 0);
    assert_eq!(table.len(), 2);
    table.retain_fresh(&vec![1, 0], 0);
    assert_eq!(table.len(), 1);
}

#[test]
fn delivery_is_decided_by_what_the_cache_holds() {
    let mut cache = IngestionCache::new();
    let salts = expected();
    assert!(should_deliver(&cache, &salts));
    record_delivery(&mut cache, &salts);
    assert!(!should_deliver(&cache, &salts));
    assert!(is_ingested(&cache, salts.match_id, true));
    assert!(!is_ingested(&cache, salts.match_id, false));
    let replay = Salts { metadata_salt: None, replay_salt: Some(1), ..salts };
    assert!(should_deliver(&cache, &replay));
    record_delivery(&mut cache, &replay);
    assert!(!should_deliver(&cache, &replay));
    let neither = Salts { metadata_salt: None, replay_salt: None, ..salts };
    assert!(!should_deliver(&cache, &neither));
}

#[test]
fn frame_gives_a_delivery_only_once() {
    let mut table = ConnectionTable::new();
    let mut cache = IngestionCache::new();
    let request = frame(
        1000,
        b"GET /1422450/37959196_937530290.meta.bz2 HTTP/1.1\r\nHost: replay404.valve.net\r\n\r\n",
    );
    assert_eq!(on_payload(&mut table, &cache, &request), Some(expected()));
    assert_eq!(on_payload(&mut table, &cache, &request), Some(expected()));
    record_delivery(&mut cache, &expected());
    assert_eq!(on_payload(&mut table, &cache, &request), None);
    assert_eq!(on_payload(&mut table, &cache, b"short"), None);
    assert_eq!(table.len(), 1);
}
