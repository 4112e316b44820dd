use tangle::header::parse_header;
use tangle::normalize::normalize;
use tangle::text::{
    chars_of, find_char, is_whitespace, same_text, skip_blank, skip_whitespace, string_of,
};
use tangle::{Ilk, Span};

fn chars(s: &str) -> Vec<char> {
    s.chars().collect()
}

fn key(s: &str) -> String {
    normalize(&chars(s)).into_iter().collect()
}

#[test]
fn chars_of_and_string_of_round_trip() {
    let s = "⟨a b⟩≡ héllo\n";
    assert_eq!(chars_of(s), chars(s));
    assert_eq!(string_of(&chars(s)), s);
    assert_eq!(chars_of(""), Vec::<char>::new());
}

#[test]
fn same_text_compares_characters() {
    assert!(same_text(&chars("rust"), &chars("rust")));
    assert!(!same_text(&chars("rust"), &chars("rusty")));
    assert!(!same_text(&chars("rust"), &chars("ruse")));
    assert!(same_text(&chars(""), &chars("")));
}

#[test]
fn whitespace_is_unicode_white_space() {
    for c in [' ', '\t', '\n', '\r', '\u{0B}', '\u{0C}', '\u{85}', '\u{A0}', '\u{3000}'] {
        assert!(is_whitespace(c));
    }
    for c in ['a', '⟨', '≡', '\u{200B}', '0'] {
        assert!(!is_whitespace(c));
    }
    for c in ['\u{1}', 'x', '\u{2003}', '\u{2028}', '\u{FEFF}'] {
        assert_eq!(is_whitespace(c), c.is_whitespace());
    }
}

#[test]
fn normalize_trims_and_collapses() {
    assert_eq!(key("  foo \n\t bar  "), "foo bar");
    assert_eq!(key("a\nb"), "a b");
    assert_eq!(key("one   two\t\tthree"), "one two three");
}

#[test]
fn normalize_empty_and_blank() {
    assert_eq!(key(""), "");
    assert_eq!(key("  \n\t"), "");
}

#[test]
fn normalize_keeps_a_canonical_key() {
    assert_eq!(key("a b c"), "a b c");
    assert_eq!(key("helper"), "helper");
}

#[test]
fn normalize_folds_other_whitespace_to_a_space() {
    assert_eq!(key("a\u{A0}\u{3000}b"), "a b");
    assert_eq!(key("a\tb"), "a b");
}

#[test]
fn normalize_is_idempotent() {
    for name in ["", "  x  ", "a \n b", "\t\ta\u{2003}b c\r\n", "⟨ weird ⟩  name"] {
        let once = key(name);
        assert_eq!(key(&once), once);
    }
}

#[test]
fn header_starts_a_section() {
    let body = chars("⟨greet⟩≡\nhello\n");
    let header = parse_header(&body);
    assert_eq!(header.name, Span { lo: 1, hi: 6, ilk: Ilk::SectionName });
    assert!(header.is_first);
    assert_eq!(header.code, Span { lo: 9, hi: body.len(), ilk: Ilk::JustCode });
    assert_eq!(body[header.name.lo..header.name.hi].iter().collect::<String>(), "greet");
    assert_eq!(body[header.code.lo..header.code.hi].iter().collect::<String>(), "hello\n");
}

#[test]
fn header_continues_a_section() {
    let body = chars("⟨greet⟩+≡\nworld\n");
    let header = parse_header(&body);
    assert_eq!(header.name, Span { lo: 1, hi: 6, ilk: Ilk::SectionName });
    assert!(!header.is_first);
    assert_eq!(body[header.code.lo..header.code.hi].iter().collect::<String>(), "world\n");
}

#[test]
fn header_absent_leaves_the_body() {
    let body = chars("fn a () { \"bee\" }\n");
    let header = parse_header(&body);
    assert_eq!(header.name, Span { lo: 0, hi: 0, ilk: Ilk::SectionName });
    assert!(!header.is_first);
    assert_eq!(header.code, Span { lo: 0, hi: body.len(), ilk: Ilk::JustCode });
}

#[test]
fn header_needs_the_assignment_sign() {
    let body = chars("⟨helper⟩\nmain();\n");
    let header = parse_header(&body);
    assert_eq!(header.name, Span { lo: 0, hi: 0, ilk: Ilk::SectionName });
    assert!(!header.is_first);
    assert_eq!(header.code.lo, 0);
    let body = chars("⟨helper⟩ ≡\n");
    assert_eq!(parse_header(&body).code.lo, 0);
    let body = chars("⟨helper⟩+\n");
    assert_eq!(parse_header(&body).code.lo, 0);
}

#[test]
fn header_needs_both_delimiters() {
    let body = chars("⟨helper≡\ncode\n");
    let header = parse_header(&body);
    assert_eq!(header.name.hi, 0);
    assert_eq!(header.code.lo, 0);
    let body = chars("helper⟩≡\ncode\n");
    assert_eq!(parse_header(&body).code.lo, 0);
    let body = chars("x ⟨helper⟩≡\ncode\n");
    assert_eq!(parse_header(&body).code.lo, 0);
}

#[test]
fn header_allows_whitespace_around() {
    let body = chars(" \n\t⟨a b⟩≡ \t\ncode\n");
    let header = parse_header(&body);
    assert_eq!(body[header.name.lo..header.name.hi].iter().collect::<String>(), "a b");
    assert!(header.is_first);
    assert_eq!(body[header.code.lo..header.code.hi].iter().collect::<String>(), "code\n");
}

#[test]
fn header_may_be_followed_by_code_at_once() {
    let body = chars("⟨a⟩≡x = 1;\n");
    let header = parse_header(&body);
    assert_eq!(body[header.code.lo..].iter().collect::<String>(), "x = 1;\n");
    let body = chars("⟨a⟩≡  x\n");
    let header = parse_header(&body);
    assert_eq!(body[header.code.lo..].iter().collect::<String>(), "x\n");
}

#[test]
fn header_strips_one_line_end_only() {
    let body = chars("⟨a⟩≡\n\ncode\n");
    let header = parse_header(&body);
    assert_eq!(body[header.code.lo..].iter().collect::<String>(), "\ncode\n");
}

#[test]
fn header_name_may_span_lines() {
    let body = chars("⟨a long\n   name⟩≡\n");
    let header = parse_header(&body);
    let raw: Vec<char> = body[header.name.lo..header.name.hi].to_vec();
    assert_eq!(raw.iter().collect::<String>(), "a long\n   name");
    assert_eq!(normalize(&raw).into_iter().collect::<String>(), "a long name");
    assert_eq!(header.code.lo, body.len());
}

#[test]
fn header_alone_leaves_no_code() {
    let body = chars("⟨a⟩≡");
    let header = parse_header(&body);
    assert_eq!(header.name, Span { lo: 1, hi: 2, ilk: Ilk::SectionName });
    assert!(header.is_first);
    assert_eq!(header.code, Span { lo: 4, hi: 4, ilk: Ilk::JustCode });
}

#[test]
fn header_of_the_root_has_an_empty_name() {
    let body = chars("⟨⟩≡\n⟨helper⟩\nmain();\n");
    let header = parse_header(&body);
    assert_eq!(header.name, Span { lo: 1, hi: 1, ilk: Ilk::SectionName });
    assert!(header.is_first);
    assert_eq!(body[header.code.lo..].iter().collect::<String>(), "⟨helper⟩\nmain();\n");
}

#[test]
fn header_of_an_empty_body() {
    let header = parse_header(&[]);
    assert_eq!(header.name, Span { lo: 0, hi: 0, ilk: Ilk::SectionName });
    assert!(!header.is_first);
    assert_eq!(header.code, Span { lo: 0, hi: 0, ilk: Ilk::JustCode });
}

#[test]
fn ilk_describes_itself() {
    assert_eq!(Ilk::SectionName.describe(), "Section Name");
    assert_eq!(Ilk::JustCode.describe(), "Just Code");
    assert_eq!(Ilk::NotFound(String::from("nothing here")).describe(), "nothing here");
    assert_eq!(Ilk::Unterminated("code block").describe(), "Unterminated code block");
}

#[test]
fn header_line_may_end_in_carriage_return_and_line_feed() {
    let body = chars("⟨a⟩≡ \r\ncode\r\n");
    let header = parse_header(&body);
    assert!(header.is_first);
    assert_eq!(body[header.code.lo..].iter().collect::<String>(), "code\r\n");
    let body = chars("⟨a⟩≡\rcode");
    let header = parse_header(&body);
    assert_eq!(body[header.code.lo..].iter().collect::<String>(), "\rcode");
    let body = chars("⟨a⟩≡\r");
    assert_eq!(parse_header(&body).code.lo, 4);
}

#[test]
fn find_char_gives_the_first_place_or_the_length() {
    let s = chars("a⟩b⟩");
    assert_eq!(find_char(&s, '⟩', 0), 1);
    assert_eq!(find_char(&s, '⟩', 1), 1);
    assert_eq!(find_char(&s, '⟩', 2), 3);
    assert_eq!(find_char(&s, '⟩', 4), 4);
    assert_eq!(find_char(&s, '⟩', 9), 4);
    assert_eq!(find_char(&s, 'x', 0), 4);
}

#[test]
fn skipping_stops_at_the_first_other_character() {
    let s = chars(" \t\n x \t");
    assert_eq!(skip_whitespace(&s, 0), 4);
    assert_eq!(skip_whitespace(&s, 4), 4);
    assert_eq!(skip_whitespace(&s, 5), 7);
    assert_eq!(skip_whitespace(&s, 70), 7);
    assert_eq!(skip_blank(&s, 0), 2);
    assert_eq!(skip_blank(&s, 2), 2);
    assert_eq!(skip_blank(&s, 5), 7);
    assert_eq!(skip_blank(&s, 8), 7);
}
