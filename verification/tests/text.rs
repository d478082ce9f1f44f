use suppa::text::{decimal_chars, parse_u64_chars, split_lines, trim_chars};

fn chars(s: &str) -> Vec<char> {
    s.chars().collect()
}

#[test]
fn decimal_text_reads_back() {
    for n in [0u64, 7, 10, 12345, u64::MAX] {
        let d = decimal_chars(n);
        assert_eq!(d.iter().collect::<String>(), n.to_string());
        assert_eq!(parse_u64_chars(&d), Some(n));
    }
}

#[test]
fn parse_refuses_what_u64_parse_refuses() {
    assert_eq!(parse_u64_chars(&chars("")), None);
    assert_eq!(parse_u64_chars(&chars("12a")), None);
    assert_eq!(parse_u64_chars(&chars("-1")), None);
    assert_eq!(parse_u64_chars(&chars("18446744073709551616")), None);
    assert_eq!(parse_u64_chars(&chars("+5")), Some(5));
    assert_eq!(parse_u64_chars(&chars("007")), Some(7));
}

#[test]
fn lines_split_like_str_lines() {
    let text = "a\r\nb\n\nc";
    let lines: Vec<String> = split_lines(&chars(text)).iter().map(|l| l.iter().collect()).collect();
    let expected: Vec<String> = text.lines().map(|l| l.to_string()).collect();
    assert_eq!(lines, expected);
    assert!(split_lines(&chars("")).is_empty());
    assert_eq!(split_lines(&chars("x\n")).len(), 1);
}

#[test]
fn trim_removes_surrounding_whitespace() {
    assert_eq!(trim_chars(&chars(" \t a b \n")).iter().collect::<String>(), "a b");
    assert!(trim_chars(&chars("   ")).is_empty());
}
