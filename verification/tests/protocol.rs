use beet::request::{Request, EngineRequestError};
use beet::text::{char_is_white_space, next_word, parse_u128, decode_scalar, scalar_is_white_space};
use bytes::Bytes;

fn parse(s: &[u8]) -> Request {
    Request::parse(&Bytes::copy_from_slice(s))
}

fn reason(r: Request) -> String {
    match r {
        Request::Invalid(i) => i.reason,
        _ => panic!("expected an invalid request"),
    }
}

#[test]
fn set_command_parses() {
    match parse(b"SET key_1 cached_payload_data 5000") {
        Request::SetKey(s) => {
            assert_eq!(&s.key[..], b"key_1");
            assert_eq!(&s.value[..], b"cached_payload_data");
            assert_eq!(s.ttl, 5000);
        }
        _ => panic!("expected SET"),
    }
}

#[test]
fn get_command_parses() {
    match parse(b"GET test_key") {
        Request::Get(g) => assert_eq!(&g.key[..], b"test_key"),
        _ => panic!("expected GET"),
    }
}

#[test]
fn extra_words_are_ignored() {
    match parse(b"GET a b c") {
        Request::Get(g) => assert_eq!(&g.key[..], b"a"),
        _ => panic!("expected GET"),
    }
    match parse(b"SET k v 7 trailing words") {
        Request::SetKey(s) => {
            assert_eq!(&s.key[..], b"k");
            assert_eq!(&s.value[..], b"v");
            assert_eq!(s.ttl, 7);
        }
        _ => panic!("expected SET"),
    }
}

#[test]
fn runs_of_whitespace_separate_words() {
    match parse(b"  \tSET   k\t\tv  \x0b 12  ") {
        Request::SetKey(s) => {
            assert_eq!(&s.key[..], b"k");
            assert_eq!(&s.value[..], b"v");
            assert_eq!(s.ttl, 12);
        }
        _ => panic!("expected SET"),
    }
}

#[test]
fn unicode_whitespace_separates_words() {
    // U+3000 IDEOGRAPHIC SPACE and U+00A0 NO-BREAK SPACE are whitespace.
    let line = "GET\u{3000}schl\u{fc}ssel\u{a0}rest";
    match parse(line.as_bytes()) {
        Request::Get(g) => assert_eq!(&g.key[..], "schl\u{fc}ssel".as_bytes()),
        _ => panic!("expected GET"),
    }
}

#[test]
fn multibyte_keys_are_kept_whole() {
    let line = "SET \u{1f600}k\u{e9} v\u{4e2d} 1";
    match parse(line.as_bytes()) {
        Request::SetKey(s) => {
            assert_eq!(&s.key[..], "\u{1f600}k\u{e9}".as_bytes());
            assert_eq!(&s.value[..], "v\u{4e2d}".as_bytes());
            assert_eq!(s.ttl, 1);
        }
        _ => panic!("expected SET"),
    }
}

#[test]
fn invalid_utf8_is_rejected() {
    assert_eq!(reason(parse(b"GET \xff")), "Invalid UTF-8");
    assert_eq!(reason(parse(b"SET \xc3 v 1")), "Invalid UTF-8");
    // An encoded surrogate is not UTF-8 either.
    assert_eq!(reason(parse(b"GET \xed\xa0\x80")), "Invalid UTF-8");
}

#[test]
fn empty_requests_are_rejected() {
    assert_eq!(reason(parse(b"")), "Empty request");
    assert_eq!(reason(parse(b"  \t ")), "Empty request");
    assert_eq!(reason(parse("\u{2003}".as_bytes())), "Empty request");
}

#[test]
fn missing_arguments_are_rejected() {
    assert_eq!(reason(parse(b"GET")), "Missing key for GET");
    assert_eq!(reason(parse(b"GET   ")), "Missing key for GET");
    assert_eq!(reason(parse(b"SET")), "Missing arguments for SET");
    assert_eq!(reason(parse(b"SET k")), "Missing arguments for SET");
    assert_eq!(reason(parse(b"SET k v")), "Missing arguments for SET");
}

#[test]
fn bad_ttls_are_rejected() {
    assert_eq!(reason(parse(b"SET k v x")), "Invalid TTL");
    assert_eq!(reason(parse(b"SET k v -1")), "Invalid TTL");
    assert_eq!(reason(parse(b"SET k v 1.5")), "Invalid TTL");
    assert_eq!(reason(parse(b"SET k v +")), "Invalid TTL");
    assert_eq!(reason(parse(b"SET k v 340282366920938463463374607431768211456")), "Invalid TTL");
}

#[test]
fn ttl_edge_values_parse() {
    match parse(b"SET k v +42") {
        Request::SetKey(s) => assert_eq!(s.ttl, 42),
        _ => panic!("expected SET"),
    }
    match parse(b"SET k v 340282366920938463463374607431768211455") {
        Request::SetKey(s) => assert_eq!(s.ttl, u128::MAX),
        _ => panic!("expected SET"),
    }
    match parse(b"SET k v 0007") {
        Request::SetKey(s) => assert_eq!(s.ttl, 7),
        _ => panic!("expected SET"),
    }
}

#[test]
fn unknown_commands_are_rejected() {
    assert_eq!(reason(parse(b"get k")), "Invalid command");
    assert_eq!(reason(parse(b"DEL k")), "Invalid command");
    assert_eq!(reason(parse(b"GETX k")), "Invalid command");
}

#[test]
fn parse_u128_matches_str_parse() {
    let cases: [&str; 12] = [
        "0", "1", "+1", "", "+", "-0", "12a", " 1", "18446744073709551616",
        "340282366920938463463374607431768211455", "340282366920938463463374607431768211456", "00",
    ];
    for c in cases.iter() {
        let b = c.as_bytes();
        assert_eq!(parse_u128(b, 0, b.len()), c.parse::<u128>().ok(), "case {:?}", c);
    }
    assert_eq!(parse_u128(b"xx123yy", 2, 5), Some(123));
}

#[test]
fn next_word_walks_the_words() {
    let s = b" ab  c ";
    assert_eq!(next_word(s, 0), Some((1, 3)));
    assert_eq!(next_word(s, 3), Some((5, 6)));
    assert_eq!(next_word(s, 6), None);
}

#[test]
fn whitespace_matches_char_is_whitespace() {
    for u in 0u32..0x3100 {
        if let Some(c) = char::from_u32(u) {
            assert_eq!(char_is_white_space(c), c.is_whitespace(), "U+{:04X}", u);
            assert_eq!(scalar_is_white_space(u), c.is_whitespace(), "U+{:04X}", u);
        }
    }
}

#[test]
fn decode_scalar_reads_each_width() {
    let s = "a\u{e9}\u{4e2d}\u{1f600}".as_bytes();
    assert_eq!(decode_scalar(s, 0), (0x61, 1));
    assert_eq!(decode_scalar(s, 1), (0xe9, 2));
    assert_eq!(decode_scalar(s, 3), (0x4e2d, 3));
    assert_eq!(decode_scalar(s, 6), (0x1f600, 4));
}

#[test]
fn error_message_names_the_details() {
    let e = EngineRequestError { details: "Invalid TTL".to_string() };
    assert_eq!(e.message(), "Application Error: Invalid TTL");
}
