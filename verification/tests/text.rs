use ip_proxy_pool::ipv4::{format_ipv4, parse_ipv4};
use ip_proxy_pool::text::{
    chars_of, decimal_text, eq_ignore_ascii_case, find_text, index_of, join_port, last_index_of,
    parse_unsigned, same_text, skip_all, slice_text, split_words, starts_at, trimmed,
    trimmed_end_matches, white_space,
};

#[test]
fn white_space_is_that_of_unicode() {
    for n in 0..0x11_0000u32 {
        if let Some(c) = char::from_u32(n) {
            assert_eq!(white_space(c), c.is_whitespace());
        }
    }
}

#[test]
fn trimming_is_that_of_std() {
    for s in ["", " ", "a", " a b\t", "\u{3000}x\u{85}", "\r\n\r\n", "a\r\n\r\n", "\n\r\n", "b\r\r\n"] {
        assert_eq!(trimmed(s), s.trim());
        assert_eq!(trimmed_end_matches(s, "\r\n"), s.trim_end_matches("\r\n"));
        let words: Vec<String> = s.split_whitespace().map(|w| w.to_string()).collect();
        assert_eq!(split_words(s), words);
    }
}

#[test]
fn searching_is_that_of_std() {
    let v = chars_of("a//b//");
    let double = chars_of("//");
    assert_eq!(find_text(&v, &double), Some(1));
    assert_eq!(find_text(&chars_of("a/b"), &double), None);
    assert_eq!(index_of(&v, 3, '/'), 4);
    assert_eq!(index_of(&v, 0, 'x'), 6);
    assert_eq!(last_index_of(&v, 0, 5, '/'), Some(4));
    assert_eq!(last_index_of(&v, 0, 1, '/'), None);
    assert!(starts_at(&v, 1, &double));
    assert!(!starts_at(&v, 5, &double));
    assert_eq!(skip_all(&chars_of("ababc"), 0, &chars_of("ab")), 4);
    assert_eq!(skip_all(&v, 0, &chars_of("")), 0);
    assert_eq!(slice_text("b\u{fc}c", 1, 3), "\u{fc}c");
    assert!(same_text("a", "a"));
    assert!(!same_text("a", "A"));
    assert!(eq_ignore_ascii_case("CoNNect", "CONNECT"));
    assert!(!eq_ignore_ascii_case("\u{e4}", "\u{c4}"));
}

#[test]
fn numbers_are_those_of_std() {
    for n in [0, 7, 10, 65535, u64::MAX] {
        assert_eq!(decimal_text(n), n.to_string());
        let v = chars_of(&n.to_string());
        assert_eq!(parse_unsigned(&v, 0, v.len(), u64::MAX), Some(n));
    }
    for s in ["", "+", "-1", "+5", "005", "65536", "65535", "1 ", "x"] {
        let v = chars_of(s);
        assert_eq!(
            parse_unsigned(&v, 0, v.len(), 65535),
            s.parse::<u16>().ok().map(|n| n as u64)
        );
    }
    assert_eq!(join_port("h", 80), "h:80");
}

#[test]
fn addresses_are_read_back() {
    for octets in [[0, 0, 0, 0], [10, 0, 0, 1], [255, 255, 255, 255], [1, 20, 255, 9]] {
        assert_eq!(parse_ipv4(&format_ipv4(octets)), Some(octets));
    }
    assert_eq!(format_ipv4([192, 168, 0, 1]), "192.168.0.1");
    for s in ["", "1.2.3", "1.2.3.4.5", "256.1.1.1", "1.2.3.04", "1.2.3.+4", " 1.2.3.4", "a.b.c.d"] {
        assert_eq!(parse_ipv4(s), None);
    }
}
