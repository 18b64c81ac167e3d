use dally_eval::text::{
    append_decimal, append_quoted, append_signed, chars_of, is_word, parse_i32, parse_u16,
    split_on, trimmed,
};

const SAMPLES: [&str; 27] = [
    "", "0", "7", "+7", "-7", "-0", "+", "-", "+-7", "00042", "65535", "65536", "99999999999999",
    "2147483647", "2147483648", "-2147483648", "-2147483649", "4294967296", "12a", " 12", "1_0",
    "0x10", "\u{661}", "18446744073709551617", "+65535", "--1", "1.0",
];

#[test]
fn numbers_are_read_like_std_reads_them() {
    for s in SAMPLES {
        let chars = chars_of(s);
        assert_eq!(parse_u16(&chars), s.parse::<u16>().ok(), "{s:?}");
        assert_eq!(parse_i32(&chars), s.parse::<i32>().ok(), "{s:?}");
    }
    for v in 0..=u16::MAX {
        assert_eq!(parse_u16(&chars_of(&v.to_string())), Some(v));
    }
    for v in -70_000i32..70_000 {
        assert_eq!(parse_i32(&chars_of(&v.to_string())), Some(v));
    }
}

#[test]
fn numbers_are_written_like_std_writes_them() {
    for n in [0u64, 9, 10, 255, 1_317_480, u64::MAX] {
        let mut out = String::from("n=");
        append_decimal(&mut out, n);
        assert_eq!(out, format!("n={n}"));
    }
    for n in [0i64, -1, 256, -129, i64::MIN, i64::MAX] {
        let mut out = String::new();
        append_signed(&mut out, n);
        assert_eq!(out, format!("{n}"));
    }
}

#[test]
fn trimming_and_splitting_follow_std() {
    for s in ["", " ", " a b ", "\u{a0}x\u{2003}", "a,b,,c", ",", "a", "\t,\n"] {
        let chars = chars_of(s);
        let t: String = trimmed(&chars).iter().collect();
        assert_eq!(t, s.trim());
        let parts: Vec<String> = split_on(&chars, ',').iter().map(|p| p.iter().collect()).collect();
        let want: Vec<&str> = s.split(',').collect();
        assert_eq!(parts, want);
    }
}

#[test]
fn quoting_follows_the_debug_format() {
    for s in ["", "add 1,2", "a\"b\\c", "tab\tnewline\n", "\u{e9}\u{200b}\u{1f600}", "it's"] {
        let mut out = String::from("got ");
        append_quoted(&mut out, &chars_of(s));
        assert_eq!(out, format!("got {s:?}"));
    }
}

#[test]
fn words_are_compared_whole() {
    assert!(is_word(&chars_of("add"), "add"));
    assert!(!is_word(&chars_of("ad"), "add"));
    assert!(!is_word(&chars_of("adds"), "add"));
    assert!(!is_word(&chars_of("Add"), "add"));
    assert!(is_word(&[], ""));
}
