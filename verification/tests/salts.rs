use deadlock_api_ingest::salts::Salts;

#[test]
fn test_extract_salts() {
    let cases: &[(&str, u32, u64, Option<u32>, Option<u32>)] = &[
        (
            "http://replay404.valve.net/1422450/37959196_937530290.meta.bz2",
            404,
            37959196,
            Some(937530290),
            None,
        ),
        (
            "http://replay400.valve.net/1422450/38090632_88648761.meta.bz2",
            400,
            38090632,
            Some(88648761),
            None,
        ),
        (
            "http://replay183.valve.net/1422450/42476710_428480166.meta.bz2",
            183,
            42476710,
            Some(428480166),
            None,
        ),
        (
            "http://replay183.valve.net/1422450/42476710_428480166.dem.bz2",
            183,
            42476710,
            None,
            Some(428480166),
        ),
        (
            "http://replay404.valve.net/1422450/37959196_937530290.meta.bz2?v=2",
            404,
            37959196,
            Some(937530290),
            None,
        ),
        (
            "http://replay183.valve.net/1422450/42476710_428480166.dem.bz2?v=2",
            183,
            42476710,
            None,
            Some(428480166),
        ),
    ];

    for &(url, cluster_id, match_id, metadata_salt, replay_salt) in cases {
        let salts = Salts::from_url(url).unwrap();
        assert_eq!(salts.cluster_id, cluster_id);
        assert_eq!(salts.match_id, match_id);
        assert_eq!(salts.metadata_salt, metadata_salt);
        assert_eq!(salts.replay_salt, replay_salt);
    }
}

#[test]
fn query_string_gives_the_identical_record() {
    let plain = Salts::from_url("http://replay404.valve.net/1422450/37959196_937530290.meta.bz2");
    let query =
        Salts::from_url("http://replay404.valve.net/1422450/37959196_937530290.meta.bz2?v=2");
    assert_eq!(
        plain,
        Some(Salts {
            match_id: 37959196,
            cluster_id: 404,
            metadata_salt: Some(937530290),
            replay_salt: None,
        })
    );
    assert_eq!(plain, query);
}

#[test]
fn suffix_selects_the_salt() {
    let dem = Salts::from_url("http://replay1.valve.net/a/2_3.dem.bz2").unwrap();
    assert_eq!(dem.replay_salt, Some(3));
    assert_eq!(dem.metadata_salt, None);
    let meta = Salts::from_url("http://replay1.valve.net/a/2_3.meta.bz2").unwrap();
    assert_eq!(meta.metadata_salt, Some(3));
    assert_eq!(meta.replay_salt, None);
}

#[test]
fn urls_off_the_template_give_nothing() {
    let bad = [
        "",
        "https://replay404.valve.net/1422450/1_2.meta.bz2",
        "http://cdn404.valve.net/1422450/1_2.meta.bz2",
        "http://replay404.valve.com/1422450/1_2.meta.bz2",
        "http://replay404.valve.net/1_2.meta.bz2",
        "http://replay404.valve.net/1422450/1_2.meta",
        "http://replay404.valve.net/1422450/1_2.bz2",
        "http://replay404.valve.net/1422450/12.meta.bz2",
        "http://replay404.valve.net/1422450/_2.meta.bz2",
        "http://replay404.valve.net/1422450/1_.meta.bz2",
        "http://replay404.valve.net/1422450/1_2_3.meta.bz2",
        "http://replay404.valve.net/1422450/a_2.meta.bz2",
        "http://replay404.valve.net/1422450/1_b.dem.bz2",
        "http://replay.valve.net/1422450/1_2.meta.bz2",
        "http://replayx.valve.net/1422450/1_2.meta.bz2",
        "http://replay-4.valve.net/1422450/1_2.meta.bz2",
        "http://replay404.valve.net/1422450/1_2.meta.bz2/",
        "http://replay404.valve.net/1422450/1_ 2.meta.bz2",
        "http://replay404.valve.net/14?22450/1_2.meta.bz2",
    ];
    for url in bad {
        assert_eq!(Salts::from_url(url), None, "{url}");
    }
}

#[test]
fn numbers_are_held_to_their_widths() {
    assert_eq!(
        Salts::from_url("http://replay4294967295.valve.net/x/18446744073709551615_4294967295.dem.bz2"),
        Some(Salts {
            match_id: u64::MAX,
            cluster_id: u32::MAX,
            metadata_salt: None,
            replay_salt: Some(u32::MAX),
        })
    );
    assert_eq!(
        Salts::from_url("http://replay4294967296.valve.net/x/1_2.dem.bz2"),
        None
    );
    assert_eq!(
        Salts::from_url("http://replay1.valve.net/x/18446744073709551616_2.dem.bz2"),
        None
    );
    assert_eq!(
        Salts::from_url("http://replay1.valve.net/x/1_4294967296.dem.bz2"),
        None
    );
    assert_eq!(
        Salts::from_url("http://replay1.valve.net/x/1_99999999999999999999999999.meta.bz2"),
        None
    );
}

#[test]
fn plus_sign_and_leading_zeros_are_read() {
    assert_eq!(
        Salts::from_url("http://replay+007.valve.net/x/y/z/+0042_000.meta.bz2"),
        Some(Salts { match_id: 42, cluster_id: 7, metadata_salt: Some(0), replay_salt: None })
    );
    assert_eq!(Salts::from_url("http://replay+.valve.net/x/1_2.meta.bz2"), None);
    assert_eq!(Salts::from_url("http://replay1.valve.net/x/++1_2.meta.bz2"), None);
}

#[test]
fn first_domain_marker_and_last_segment_count() {
    assert_eq!(
        Salts::from_url("http://replay5.valve.net/.valve.net/a/6_7.dem.bz2"),
        Some(Salts { match_id: 6, cluster_id: 5, metadata_salt: None, replay_salt: Some(7) })
    );
}

#[test]
fn written_url_reads_back_as_the_record() {
    let records = [
        Salts { match_id: 0, cluster_id: 0, metadata_salt: Some(0), replay_salt: None },
        Salts { match_id: 37959196, cluster_id: 404, metadata_salt: None, replay_salt: Some(7) },
        Salts {
            match_id: u64::MAX,
            cluster_id: u32::MAX,
            metadata_salt: Some(u32::MAX),
            replay_salt: None,
        },
        Salts { match_id: 10, cluster_id: 100, metadata_salt: None, replay_salt: Some(1000) },
    ];
    for record in records {
        for dir in ["1422450", "", "a/b/.valve.net/c", "x.meta.bz2"] {
            let (salt, suffix) = match record.metadata_salt {
                Some(salt) => (salt, "meta"),
                None => (record.replay_salt.unwrap(), "dem"),
            };
            let url = format!(
                "http://replay{}.valve.net/{}/{}_{}.{}.bz2",
                record.cluster_id, dir, record.match_id, salt, suffix
            );
            assert_eq!(Salts::from_url(&url), Some(record), "{url}");
        }
    }
}
