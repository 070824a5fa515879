use yakking_yak::cli::utils::{decodeBase64, splitAndClean, ConnectionData};
use yakking_yak::codec::{
    encode_base64_bytes, encode_base64_str, i32_to_decimal, i64_to_decimal, parse_i32, parse_i64,
    parse_usize, try_decode_base64, usize_to_decimal,
};
use yakking_yak::text::{
    join_prefix, join_words, remove_char, split_and_clean, split_nonempty, str_chars, str_equal,
};

#[test]
fn split_and_clean_trims_and_drops_empty_pieces() {
    let v = split_and_clean("  a , b ,, \t,c  ", ',');
    assert_eq!(v, vec!["a", "b", "c"]);
    assert_eq!(split_and_clean("", ','), Vec::<&str>::new());
    assert_eq!(split_and_clean(" , , ", ','), Vec::<&str>::new());
    assert_eq!(splitAndClean("/trust  bob ", ' '), vec!["/trust", "bob"]);
}

#[test]
fn split_and_clean_trims_unicode_whitespace() {
    let v = split_and_clean("\u{3000}x\u{a0};\u{2003}y", ';');
    assert_eq!(v, vec!["x", "y"]);
}

#[test]
fn split_nonempty_keeps_spaces() {
    assert_eq!(split_nonempty("*a* b**c*", '*'), vec!["a", " b", "c"]);
    assert_eq!(split_nonempty("&&&", '&'), Vec::<&str>::new());
}

#[test]
fn str_helpers() {
    assert!(str_equal("abc", "abc"));
    assert!(!str_equal("abc", "abd"));
    assert!(!str_equal("abc", "ab"));
    assert_eq!(str_chars("héé"), vec!['h', 'é', 'é']);
    assert_eq!(remove_char("a\rb\r\rc", '\r'), "abc");
    let words = vec!["/broadcast", "hello", "there"];
    assert_eq!(join_words(&words, 1), "hello there");
    assert_eq!(join_words(&words, 3), "");
    assert_eq!(join_prefix(&words, 2, '*'), "/broadcast*hello");
}

#[test]
fn decimal_round_trips() {
    assert_eq!(i32_to_decimal(-123), "-123");
    assert_eq!(i32_to_decimal(0), "0");
    assert_eq!(i32_to_decimal(i32::MIN), "-2147483648");
    assert_eq!(parse_i32("42"), Some(42));
    assert_eq!(parse_i32("+5"), Some(5));
    assert_eq!(parse_i32("-2147483648"), Some(i32::MIN));
    assert_eq!(parse_i32("2147483648"), None);
    assert_eq!(parse_i32(""), None);
    assert_eq!(parse_i32("-"), None);
    assert_eq!(parse_i32("1a"), None);
    for n in [0i32, 7, -7, 12345, i32::MAX, i32::MIN] {
        assert_eq!(parse_i32(&i32_to_decimal(n)), Some(n));
        assert_eq!(i32_to_decimal(n), n.to_string());
    }
}

#[test]
fn unsigned_and_long_parsing() {
    assert_eq!(parse_usize("+7"), Some(7));
    assert_eq!(parse_usize("-0"), None);
    assert_eq!(parse_usize("18446744073709551615"), Some(usize::MAX));
    assert_eq!(parse_usize("18446744073709551616"), None);
    assert_eq!(parse_i64("-9223372036854775808"), Some(i64::MIN));
    assert_eq!(parse_i64("9223372036854775808"), None);
    assert_eq!(parse_i64("1700000000000"), Some(1_700_000_000_000));
    assert_eq!(usize_to_decimal(9876), "9876");
    assert_eq!(i64_to_decimal(-1_700_000_000_000), "-1700000000000");
    for s in ["0", "12", "+12", "007"] {
        assert_eq!(parse_usize(s), s.parse::<usize>().ok());
    }
}

#[test]
fn base64_text_round_trips() {
    assert_eq!(encode_base64_str("hi"), "aGk=");
    assert_eq!(encode_base64_str(""), "");
    assert_eq!(try_decode_base64("aGk="), Some("hi".to_string()));
    assert_eq!(try_decode_base64("a*k="), None);
    assert_eq!(try_decode_base64("/w=="), None);
    assert_eq!(decodeBase64("Ym9i"), "bob");
    assert_eq!(encode_base64_bytes(&vec![0u8, 255]), "AP8=");
    let s = "ünïcödé text";
    assert_eq!(try_decode_base64(&encode_base64_str(s)), Some(s.to_string()));
}

#[test]
fn connection_url() {
    let c = ConnectionData {
        server: "localhost:8080".to_string(),
        group: "g".to_string(),
        name: "n".to_string(),
        password: "p".to_string(),
    };
    assert_eq!(c.get_ip(), "http://localhost:8080/ws/");
}

#[test]
fn split_and_clean_is_idempotent() {
    let r = yakking_yak::text::split_and_clean(" a b ;; c\t; ;", ';');
    assert_eq!(r, vec!["a b", "c"]);
    let joined = r.join(";");
    assert_eq!(yakking_yak::text::split_and_clean(&joined, ';'), r);
}
