use memtrace::text::{
    chars_of, is_space_char, parse_unsigned_chars, push_decimal, same_chars, split_lines,
    split_words, string_of, trimmed,
};

fn chars(s: &str) -> Vec<char> {
    s.chars().collect()
}

fn strings(v: Vec<Vec<char>>) -> Vec<String> {
    v.into_iter().map(|l| l.into_iter().collect()).collect()
}

#[test]
fn whitespace_agrees_with_std_on_every_char() {
    for u in 0u32..=0x10FFFF {
        if let Some(c) = char::from_u32(u) {
            assert_eq!(is_space_char(c), c.is_whitespace(), "code point {:#x}", u);
        }
    }
}

#[test]
fn chars_of_keeps_every_char() {
    let s = "a\u{e9}b\u{1F600}\n";
    assert_eq!(chars_of(s), chars(s));
    assert_eq!(chars_of(""), Vec::<char>::new());
}

#[test]
fn string_of_builds_the_string() {
    assert_eq!(string_of(&chars("libc.so.6")), "libc.so.6");
    assert_eq!(string_of(&chars("")), "");
    assert_eq!(string_of(&chars("\u{26A0} x")), "\u{26A0} x");
}

#[test]
fn same_chars_compares() {
    assert!(same_chars(&chars("Rss"), &chars("Rss")));
    assert!(!same_chars(&chars("Rss"), &chars("Pss")));
    assert!(!same_chars(&chars("Rss"), &chars("Rss ")));
}

#[test]
fn lines_agree_with_std() {
    let samples = [
        "",
        "\n",
        "\n\n",
        "a",
        "a\n",
        "a\nb",
        "a\r\nb\r\n",
        "foo\nbar\n\r\nbaz\r",
        "\r",
        "\r\n",
        "x\r\r\n",
        "one\n\ntwo\n",
        "  Rss: 4 kB\nPss: 2 kB",
    ];
    for s in samples {
        let ours = strings(split_lines(&chars(s)));
        let std: Vec<String> = s.lines().map(|l| l.to_string()).collect();
        assert_eq!(ours, std, "input {:?}", s);
    }
}

#[test]
fn words_agree_with_std() {
    let samples = [
        "",
        "   ",
        "a",
        " a  b\tc\n",
        "7f3a2b000000-7f3a2b021000 r--p 00000000 08:01 123 /usr/lib/libc.so.6",
        "x\u{3000}y\u{a0}z",
        "  192 kB",
    ];
    for s in samples {
        let ours = strings(split_words(&chars(s)));
        let std: Vec<String> = s.split_whitespace().map(|w| w.to_string()).collect();
        assert_eq!(ours, std, "input {:?}", s);
    }
}

#[test]
fn trim_agrees_with_std() {
    for s in ["", " ", " Rss ", "Rss", "\tPrivate_Dirty\u{3000}", "a b"] {
        let ours: String = trimmed(&chars(s)).into_iter().collect();
        assert_eq!(ours, s.trim(), "input {:?}", s);
    }
}

#[test]
fn numbers_agree_with_std() {
    let samples = [
        "", "+", "-", "0", "42", "+42", "-42", "++1", "1a", "ff", "FF", "fF0", "7f3a2b000000",
        "18446744073709551615", "18446744073709551616", "ffffffffffffffff",
        "10000000000000000", "00000000000000000000001", " 1", "1 ", "\u{663}",
    ];
    for s in samples {
        let c = chars(s);
        assert_eq!(parse_unsigned_chars(&c, 10), u64::from_str_radix(s, 10).ok(), "dec {:?}", s);
        assert_eq!(parse_unsigned_chars(&c, 16), u64::from_str_radix(s, 16).ok(), "hex {:?}", s);
        assert_eq!(parse_unsigned_chars(&c, 10), s.parse::<u64>().ok(), "parse {:?}", s);
    }
}

#[test]
fn decimal_agrees_with_std() {
    for n in [0u64, 7, 9, 10, 11, 99, 100, 4821, 4294967295, u64::MAX] {
        let mut s = String::from("pid ");
        push_decimal(&mut s, n);
        assert_eq!(s, format!("pid {}", n));
    }
}
