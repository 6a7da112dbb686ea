use deadlock_api_ingest::ingestion_cache::{mark_ingested, IngestionCache};
use deadlock_api_ingest::salts::Salts;
use deadlock_api_ingest::scan_cache::{
    extract_replay_url, initial_cache_dir_ingest, watch_cache_dir, FileChange,
};

const URL: &str = "http://replay404.valve.net/1422450/37959196_937530290.meta.bz2";

fn cache_file(url: &str) -> Vec<u8> {
    let mut data = vec![0x01, 0x00, 0x00, 0x00, 0x2a, 0xff, 0x10, b' '];
    data.extend_from_slice(url.as_bytes());
    data.extend_from_slice(b"\0\0HTTP/1.1 200 OK\r\n");
    data
}

fn expected() -> Salts {
    Salts { match_id: 37959196, cluster_id: 404, metadata_salt: Some(937530290), replay_salt: None }
}

#[test]
fn replay_url_is_found_in_a_cache_file() {
    assert_eq!(extract_replay_url(&cache_file(URL)), Some(URL.to_string()));
}

#[test]
fn host_begins_behind_the_last_byte_that_is_no_host_byte() {
    assert_eq!(
        extract_replay_url(b"xx-replay7.valve.net/1422450/1_2.dem.bz2 "),
        Some("http://replay7.valve.net/1422450/1_2.dem.bz2".to_string())
    );
    assert_eq!(
        extract_replay_url(b"replay7.valve.net/a/1422450\n"),
        Some("http://replay7.valve.net/a/1422450".to_string())
    );
    assert_eq!(extract_replay_url(b"cdn.replay7.valve.net/1422450/1_2.dem.bz2 "), None);
}

#[test]
fn path_begins_at_the_first_slash_behind_the_host() {
    assert_eq!(
        extract_replay_url(b"replay7.valve.net:80/1422450/x\""),
        Some("http://replay7.valve.net/1422450/x".to_string())
    );
}

#[test]
fn path_without_end_stops_the_search() {
    assert_eq!(extract_replay_url(b"replay7.valve.net/1422450/1_2.dem.bz2"), None);
    assert_eq!(
        extract_replay_url(b"replay7.valve.net/1422450/1_2.dem.bz2'"),
        Some("http://replay7.valve.net/1422450/1_2.dem.bz2".to_string())
    );
}

#[test]
fn later_occurrence_is_used_when_the_first_gives_nothing() {
    assert_eq!(
        extract_replay_url(b"cdn.valve.net/1422450/a replay9.valve.net/1422450/b\r"),
        Some("http://replay9.valve.net/1422450/b".to_string())
    );
    assert_eq!(
        extract_replay_url(b"replay1.valve.net/other/a replay9.valve.net/1422450/b\r"),
        Some("http://replay9.valve.net/1422450/b".to_string())
    );
    assert_eq!(
        extract_replay_url(b"replay1.valve.net/\xff1422450 replay9.valve.net/1422450/b\r"),
        Some("http://replay9.valve.net/1422450/b".to_string())
    );
}

#[test]
fn files_without_a_replay_url_give_nothing() {
    assert_eq!(extract_replay_url(b""), None);
    assert_eq!(extract_replay_url(b"http://example.com/1422450/1_2.meta.bz2 "), None);
    assert_eq!(extract_replay_url(b"replay7.valve.net "), None);
    assert_eq!(extract_replay_url(b"replay7.valve.net/other/1_2.meta.bz2 "), None);
}

#[test]
fn only_the_first_200_bytes_are_read() {
    let mut data = vec![b' '; 130];
    data.extend_from_slice(URL.as_bytes());
    data.push(b' ');
    assert_eq!(data.len(), 193);
    assert_eq!(extract_replay_url(&data), Some(URL.to_string()));
    let mut data = vec![b' '; 138];
    data.extend_from_slice(URL.as_bytes());
    data.push(b' ');
    assert_eq!(data.len(), 201);
    assert_eq!(extract_replay_url(&data), None);
}

#[test]
fn first_batch_holds_the_records_of_the_files() {
    let files = vec![
        cache_file(URL),
        b"nothing here".to_vec(),
        cache_file("http://replay183.valve.net/1422450/42476710_428480166.dem.bz2"),
        cache_file("http://replay183.valve.net/1422450/100000001_1.dem.bz2"),
        cache_file("http://replay183.valve.net/1422450/notes.txt"),
    ];
    assert_eq!(
        initial_cache_dir_ingest(&files),
        vec![
            expected(),
            Salts {
                match_id: 42476710,
                cluster_id: 183,
                metadata_salt: None,
                replay_salt: Some(428480166),
            },
        ]
    );
    assert_eq!(initial_cache_dir_ingest(&vec![]), vec![]);
}

#[test]
fn watcher_delivers_what_is_new() {
    let mut cache = IngestionCache::new();
    let data = cache_file(URL);
    assert_eq!(watch_cache_dir(&cache, FileChange::Created, &data), Some(expected()));
    assert_eq!(watch_cache_dir(&cache, FileChange::DataModified, &data), Some(expected()));
    assert_eq!(watch_cache_dir(&cache, FileChange::Other, &data), None);
    assert_eq!(watch_cache_dir(&cache, FileChange::Created, b"junk"), None);
    mark_ingested(&mut cache, 37959196, false);
    assert_eq!(watch_cache_dir(&cache, FileChange::Created, &data), Some(expected()));
    mark_ingested(&mut cache, 37959196, true);
    assert_eq!(watch_cache_dir(&cache, FileChange::Created, &data), None);
}
