use magic_mail::config::{db_file_path, parse_allowed_domains, parse_i64_or, parse_u16_or};
use magic_mail::smtp::SMTP_PORT_DEFAULT;

#[test]
fn ports_parse_like_str_parse() {
    assert_eq!(parse_u16_or(Some("8080"), 1), 8080);
    assert_eq!(parse_u16_or(Some("+25"), 1), 25);
    assert_eq!(parse_u16_or(Some("65535"), 1), 65535);
    assert_eq!(parse_u16_or(Some("65536"), 1), 1);
    assert_eq!(parse_u16_or(Some("-1"), 1), 1);
    assert_eq!(parse_u16_or(Some(" 80"), 1), 1);
    assert_eq!(parse_u16_or(Some(""), 1), 1);
    assert_eq!(parse_u16_or(Some("+"), 1), 1);
    assert_eq!(parse_u16_or(None, SMTP_PORT_DEFAULT), 2525);
    for s in ["0", "007", "+1", "x", "99999999999999999999999"] {
        assert_eq!(parse_u16_or(Some(s), 7), s.parse::<u16>().unwrap_or(7));
    }
}

#[test]
fn lifetimes_parse_like_str_parse() {
    assert_eq!(parse_i64_or(Some("10"), 3), 10);
    assert_eq!(parse_i64_or(Some("-15"), 3), -15);
    assert_eq!(parse_i64_or(Some("+15"), 3), 15);
    assert_eq!(parse_i64_or(Some("-9223372036854775808"), 3), i64::MIN);
    assert_eq!(parse_i64_or(Some("9223372036854775807"), 3), i64::MAX);
    assert_eq!(parse_i64_or(Some("9223372036854775808"), 3), 3);
    assert_eq!(parse_i64_or(Some("-"), 3), 3);
    assert_eq!(parse_i64_or(Some("1.5"), 3), 3);
    assert_eq!(parse_i64_or(None, 10), 10);
    for s in ["-0", "12a", "", "--1", "+-1", "42"] {
        assert_eq!(parse_i64_or(Some(s), 9), s.parse::<i64>().unwrap_or(9));
    }
}

#[test]
fn allowed_domains_are_split_trimmed_and_nonempty() {
    assert_eq!(
        parse_allowed_domains("temp.realblue.lol, od3n.online ,,od3n.info,  "),
        vec!["temp.realblue.lol".to_string(), "od3n.online".to_string(), "od3n.info".to_string()]
    );
    assert!(parse_allowed_domains("").is_empty());
    assert!(parse_allowed_domains(" , ,").is_empty());
    assert_eq!(parse_allowed_domains("one"), vec!["one".to_string()]);
}

#[test]
fn database_path_drops_the_scheme() {
    assert_eq!(db_file_path("sqlite:tempmail.db?mode=rwc"), "tempmail.db?mode=rwc");
    assert_eq!(db_file_path("sqlite:/var/data/tempmail.db?mode=rwc"), "/var/data/tempmail.db?mode=rwc");
    assert_eq!(db_file_path("sqlite://x.db"), "//x.db");
    assert_eq!(db_file_path("plain.db"), "plain.db");
}
