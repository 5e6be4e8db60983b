use samply::text::{
    bytes_of, chars_of, copy_of, decimal_of, find_char, has_prefix, lines_of, parse_decimal_u32,
    parse_decimal_u64, parse_number, rfind_char, same_bytes, split_at_each, split_at_most,
    string_of, trimmed,
};

fn strings(pieces: Vec<&[char]>) -> Vec<String> {
    pieces.into_iter().map(string_of).collect()
}

#[test]
fn text_is_split_as_the_standard_library_does() {
    for s in ["", "a", "a,b", ",", "a,,b,", "ä,ö,ü,ß"] {
        let chars = chars_of(s);
        assert_eq!(
            strings(split_at_each(&chars, ',')),
            s.split(',').collect::<Vec<_>>()
        );
        for n in 1..4 {
            assert_eq!(
                strings(split_at_most(&chars, n, ',')),
                s.splitn(n, ',').collect::<Vec<_>>()
            );
        }
    }
}

#[test]
fn lines_end_as_the_standard_library_has_it() {
    for s in ["", "a", "a\n", "a\r\nb", "a\rb\n\n", "\n\r\n", "a\r"] {
        assert_eq!(
            strings(lines_of(&chars_of(s))),
            s.lines().collect::<Vec<_>>()
        );
    }
}

#[test]
fn white_space_is_trimmed_as_the_standard_library_does() {
    for s in ["", " ", "\t a b \r\n", "\u{a0}x\u{3000}", "\u{200b}x", "x\u{85}"] {
        assert_eq!(string_of(trimmed(&chars_of(s))), s.trim());
    }
}

#[test]
fn numbers_are_read_as_the_standard_library_does() {
    for s in [
        "", "0", "+", "+7", "-1", "007", "4294967295", "4294967296", "18446744073709551615",
        "18446744073709551616", "12a", " 1", "٣",
    ] {
        let chars = chars_of(s);
        assert_eq!(parse_decimal_u32(&chars), s.parse::<u32>().ok());
        assert_eq!(parse_decimal_u64(&chars), s.parse::<u64>().ok());
        assert_eq!(
            parse_number(&chars, 16),
            u64::from_str_radix(s, 16).ok()
        );
    }
    assert_eq!(parse_number(&chars_of("fFfF"), 16), Some(0xffff));
}

#[test]
fn numbers_are_written_and_read_back() {
    for n in [0, 9, 10, 99, 100, 4294967296, u64::MAX] {
        assert_eq!(decimal_of(n), n.to_string());
        assert_eq!(parse_decimal_u64(&chars_of(&decimal_of(n))), Some(n));
    }
}

#[test]
fn characters_and_bytes_are_found() {
    let chars = chars_of("a:b:c");
    assert_eq!(find_char(&chars, ':'), 1);
    assert_eq!(find_char(&chars, 'x'), 5);
    assert_eq!(rfind_char(&chars, ':'), 4);
    assert_eq!(rfind_char(&chars, 'x'), 0);
    assert!(has_prefix(&chars, &['a', ':']));
    assert!(!has_prefix(&chars, &['b']));
    assert!(!has_prefix(&['a'], &chars));
    assert_eq!(bytes_of("ä"), vec![0xc3, 0xa4]);
    assert_eq!(copy_of(b"xy"), b"xy");
    assert!(same_bytes(b"xy", b"xy"));
    assert!(!same_bytes(b"xy", b"xyz"));
    assert!(!same_bytes(b"xy", b"xz"));
}
