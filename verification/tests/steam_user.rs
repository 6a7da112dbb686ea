use deadlock_api_ingest::steam_user::{
    current_steam_id3, extract_all_quoted, extract_quoted, parse_block, parse_login_users,
    steam_id3, ParsedUser,
};

const LOGIN_USERS: &str = "\"users\"\n{\n\t\"76561198000000001\"\n\t{\n\t\t\"AccountName\"\t\t\"foo\"\n\t\t\"MostRecent\"\t\t\"0\"\n\t}\n\t\"76561198000000002\"\r\n\t{\r\n\t\t\"PersonaName\"\t\t\"bar baz\"\n\t\t\"MostRecent\"\t\t\"1\"\n\t}\n}\n\"76561198000000003\"\n{\n}\n";

fn chars(s: &str) -> Vec<char> {
    s.chars().collect()
}

#[test]
fn login_users_are_listed_in_order() {
    assert_eq!(
        parse_login_users(LOGIN_USERS),
        vec![
            ParsedUser { steam_id: 76561198000000001, most_recent: false },
            ParsedUser { steam_id: 76561198000000002, most_recent: true },
        ]
    );
}

#[test]
fn login_users_of_text_without_block_are_none() {
    assert_eq!(parse_login_users(""), vec![]);
    assert_eq!(parse_login_users("\"users\"\n\"1\"\n"), vec![]);
    assert_eq!(parse_login_users("{"), vec![]);
    assert_eq!(parse_login_users("{\n}\n\"1\"\n{\n}"), vec![]);
}

#[test]
fn id_without_block_is_skipped() {
    let text = "{\n\"5\"\n\"6\"\n{\n\"MostRecent\" \"1\"\n\"MostRecent\" \"0\"\n}\n\"7\"\n{\n\"MostRecent\" \"1\"";
    assert_eq!(
        parse_login_users(text),
        vec![
            ParsedUser { steam_id: 6, most_recent: false },
            ParsedUser { steam_id: 7, most_recent: true },
        ]
    );
}

#[test]
fn current_account_is_the_most_recent_one() {
    assert_eq!(current_steam_id3(LOGIN_USERS), Some(39734274));
    assert_eq!(current_steam_id3("{\n\"76561197960265728\"\n{\n\"MostRecent\" \"1\"\n}\n}"), Some(0));
    assert_eq!(current_steam_id3("{\n\"5\"\n{\n\"MostRecent\" \"1\"\n}\n}"), None);
    assert_eq!(current_steam_id3("{\n\"76561198000000001\"\n{\n}\n}"), None);
    assert_eq!(current_steam_id3(""), None);
}

#[test]
fn account_id_is_the_offset_from_the_base() {
    assert_eq!(steam_id3(76561197960265728), Some(0));
    assert_eq!(steam_id3(76561197960265727), None);
    assert_eq!(steam_id3(76561197960265728 + 4294967295), Some(u32::MAX));
    assert_eq!(steam_id3(76561197960265728 + 4294967296), None);
    assert_eq!(steam_id3(0), None);
    assert_eq!(steam_id3(u64::MAX), None);
}

#[test]
fn quoted_text_is_unwrapped() {
    assert_eq!(extract_quoted("  \"abc\"\t"), Some("abc".to_string()));
    assert_eq!(extract_quoted("\"\""), Some(String::new()));
    assert_eq!(extract_quoted("\"a\" \"b\""), Some("a\" \"b".to_string()));
    assert_eq!(extract_quoted("\""), None);
    assert_eq!(extract_quoted("abc"), None);
    assert_eq!(extract_quoted("\"abc"), None);
    assert_eq!(extract_quoted(""), None);
}

#[test]
fn all_quoted_texts_are_found() {
    assert_eq!(
        extract_all_quoted("\t\"Key\"\t\t\"Some value\" x \"\" \"open"),
        vec!["Key".to_string(), "Some value".to_string(), String::new()]
    );
    assert_eq!(extract_all_quoted("no quotes"), Vec::<String>::new());
    assert_eq!(extract_all_quoted("\"half"), Vec::<String>::new());
}

#[test]
fn block_is_read_up_to_its_closing_brace() {
    let lines = vec![
        chars("{"),
        chars("\t\"A\"\t\"1\""),
        chars("junk"),
        chars("\"B\" \"2\" \"3\""),
        chars("  }  "),
        chars("\"C\" \"4\""),
    ];
    let (pairs, next) = parse_block(&lines, 1);
    assert_eq!(
        pairs,
        vec![(chars("A"), chars("1")), (chars("B"), chars("2"))]
    );
    assert_eq!(next, 5);
    let (pairs, next) = parse_block(&lines, 5);
    assert_eq!(pairs, vec![(chars("C"), chars("4"))]);
    assert_eq!(next, 6);
    let (pairs, next) = parse_block(&lines, 6);
    assert!(pairs.is_empty());
    assert_eq!(next, 6);
}
