use avalon::text::{chars_of, find, parse_u32, push_decimal, split_str, NumberError};

#[test]
fn numbers_are_read_as_the_standard_library_reads_them() {
    for text in [
        "", "+", "-", "0", "+0", "-0", "007", "+007", "4294967295", "4294967296", "42949672950",
        "99999999999x", "x99999999999", "1x", " 1", "1 ", "++1", "+-1", "1+", "\u{661}", "1_000",
        "00000000000000000000000000000001",
    ] {
        let said = match parse_u32(text) {
            Ok(n) => Ok(n),
            Err(e) => Err(e.text().to_string()),
        };
        assert_eq!(text.parse::<u32>().map_err(|e| e.to_string()), said, "{:?}", text);
    }
    assert_eq!(Err(NumberError::Empty), parse_u32(""));
    assert_eq!(Err(NumberError::InvalidDigit), parse_u32("+"));
    assert_eq!(Err(NumberError::TooLarge), parse_u32("4294967296"));
}

#[test]
fn numbers_are_written_in_decimal() {
    for n in [0, 1, 9, 10, 99, 100, 65535, 4294967295, u64::MAX] {
        let mut out = "n=".to_string();
        push_decimal(&mut out, n);
        assert_eq!(format!("n={}", n), out);
    }
}

#[test]
fn texts_are_split_as_the_standard_library_splits_them() {
    for text in ["", ",", "a", "a,b", ",a,,b,", "\u{e4},\u{1f600}", "a://b", "://", "a:////b", ":://:"] {
        for pat in [",", "://", ":", "//"] {
            assert_eq!(
                text.split(pat).collect::<Vec<&str>>(),
                split_str(text, pat),
                "{:?} {:?}",
                text,
                pat
            );
        }
    }
}

#[test]
fn the_first_occurrence_is_found() {
    let text = chars_of("abcabc");
    assert_eq!(Some(1), find(&text, &chars_of("bc"), 0));
    assert_eq!(Some(4), find(&text, &chars_of("bc"), 2));
    assert_eq!(None, find(&text, &chars_of("bc"), 5));
    assert_eq!(Some(6), find(&text, &chars_of(""), 6));
    assert_eq!(None, find(&text, &chars_of("abcabca"), 0));
}
