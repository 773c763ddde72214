use beet::config::{parse_line, Config};

#[test]
fn parse_line_splits_on_the_single_equals() {
    assert_eq!(parse_line("PORT=8080"), Some(("PORT".to_string(), "8080".to_string())));
    assert_eq!(parse_line("  HOST =  0.0.0.0 \t"), Some(("HOST".to_string(), "0.0.0.0".to_string())));
    assert_eq!(parse_line("EMPTY="), Some(("EMPTY".to_string(), "".to_string())));
    assert_eq!(parse_line("=x"), Some(("".to_string(), "x".to_string())));
    assert_eq!(parse_line("no equals here"), None);
    assert_eq!(parse_line("A=B=C"), None);
    assert_eq!(parse_line(""), None);
    assert_eq!(parse_line("\u{3000}K\u{a0}=\u{2028}v\u{2029}"), Some(("K".to_string(), "v".to_string())));
}

#[test]
fn settings_are_read_line_by_line() {
    let text = "PORT=8080\nHOST=127.0.0.1\r\nSHARD_COUNT=16\ngarbage line\n";
    let cfg = Config::from_contents(text);
    assert_eq!(cfg.get(&"PORT".to_string()).map(|s| s.as_str()), Some("8080"));
    assert_eq!(cfg.get(&"HOST".to_string()).map(|s| s.as_str()), Some("127.0.0.1"));
    assert_eq!(cfg.get(&"garbage line".to_string()), None);
    let server = cfg.get_server_cfg().expect("server settings");
    assert_eq!(server.port.as_str(), "8080");
    assert_eq!(server.host.as_str(), "127.0.0.1");
    assert_eq!(cfg.get_storage_cfg().map(|s| s.shard_count), Some(16));
}

#[test]
fn later_lines_win() {
    let cfg = Config::from_contents("PORT=1\nPORT=2\nPORT = 3 \nPORT==4");
    assert_eq!(cfg.get(&"PORT".to_string()).map(|s| s.as_str()), Some("3"));
}

#[test]
fn missing_settings_give_none() {
    let cfg = Config::from_contents("PORT=8080\n");
    assert!(cfg.get_server_cfg().is_none());
    assert!(cfg.get_storage_cfg().is_none());
    let empty = Config::from_contents("");
    assert!(empty.get(&"PORT".to_string()).is_none());
}

#[test]
fn shard_count_must_be_a_usize() {
    let read = |v: &str| Config::from_contents(&format!("SHARD_COUNT={}", v)).get_storage_cfg().map(|s| s.shard_count);
    assert_eq!(read("4"), Some(4));
    assert_eq!(read("+4"), Some(4));
    assert_eq!(read(" 4 "), Some(4));
    assert_eq!(read("0"), Some(0));
    assert_eq!(read("-4"), None);
    assert_eq!(read("four"), None);
    assert_eq!(read(""), None);
    assert_eq!(read("99999999999999999999999999"), None);
    assert_eq!(read(&usize::MAX.to_string()), Some(usize::MAX));
}

#[test]
fn a_final_carriage_return_without_newline_is_trimmed_as_whitespace() {
    let cfg = Config::from_contents("A=1\r\nB=2\r");
    assert_eq!(cfg.get(&"A".to_string()).map(|s| s.as_str()), Some("1"));
    assert_eq!(cfg.get(&"B".to_string()).map(|s| s.as_str()), Some("2"));
}
