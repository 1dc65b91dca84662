use swasm::text::{bytes_equal, is_utf8, split, trim_spaces, words, Separator};

#[test]
fn split_keeps_empty_pieces() {
    assert_eq!(
        split(b"a||b|", Separator::Byte(b'|')),
        vec![b"a".to_vec(), vec![], b"b".to_vec(), vec![]]
    );
    assert_eq!(split(b"", Separator::Byte(b'|')), vec![Vec::<u8>::new()]);
    assert_eq!(
        split(b"x y\tz", Separator::Space),
        vec![b"x".to_vec(), b"y".to_vec(), b"z".to_vec()]
    );
}

#[test]
fn words_skip_runs_of_spaces() {
    assert_eq!(
        words(b"  Term*   Op_ \t=> Sum "),
        vec![b"Term*".to_vec(), b"Op_".to_vec(), b"=>".to_vec(), b"Sum".to_vec()]
    );
    assert!(words(b" \n ").is_empty());
}

#[test]
fn trim_both_ends() {
    assert_eq!(trim_spaces(b" \t a b \r\n"), b"a b");
    assert_eq!(trim_spaces(b"   "), b"");
    assert_eq!(trim_spaces(b"x"), b"x");
}

#[test]
fn equal_bytes() {
    assert!(bytes_equal(b"abc", b"abc"));
    assert!(!bytes_equal(b"abc", b"abd"));
    assert!(!bytes_equal(b"ab", b"abc"));
}

#[test]
fn utf8_validation() {
    assert!(is_utf8(b""));
    assert!(is_utf8(b"plain ascii"));
    assert!(is_utf8("\u{e9}t\u{e9} \u{20ac} \u{1f600}".as_bytes()));
    assert!(is_utf8(&[0xf4, 0x8f, 0xbf, 0xbf]));
    assert!(!is_utf8(&[0xff]));
    assert!(!is_utf8(&[0xc3]));
    assert!(!is_utf8(&[0xc0, 0x80]));
    assert!(!is_utf8(&[0xe0, 0x80, 0x80]));
    assert!(!is_utf8(&[0xed, 0xa0, 0x80]));
    assert!(!is_utf8(&[0xf4, 0x90, 0x80, 0x80]));
    assert!(!is_utf8(&[0xe2, 0x82]));
    assert!(!is_utf8(&[b'a', 0x80]));
    for s in ["", "abc", "\u{7ff}", "\u{800}", "\u{ffff}", "\u{10000}", "\u{10ffff}"] {
        assert_eq!(is_utf8(s.as_bytes()), true);
    }
}
