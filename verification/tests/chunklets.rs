use tangle::tokenizer::{tokenize, Chunklet};

fn letters(s: &str) -> Vec<char> {
    s.chars().collect()
}

fn raw(code: &[char], chunklets: &[Chunklet]) -> String {
    let mut text = String::new();
    for chunklet in chunklets {
        let (lo, hi) = match *chunklet {
            Chunklet::Text { lo, hi } => (lo, hi),
            Chunklet::SectionReference { lo, hi } => (lo, hi),
        };
        text.extend(code[lo..hi].iter());
    }
    text
}

#[test]
fn tokenize_empty_body() {
    assert_eq!(tokenize(&[]), vec![]);
}

#[test]
fn tokenize_plain_text() {
    let code = letters("fn main() {}\n");
    assert_eq!(tokenize(&code), vec![Chunklet::Text { lo: 0, hi: code.len() }]);
}

#[test]
fn tokenize_single_reference() {
    let code = letters("⟨x y⟩");
    assert_eq!(tokenize(&code), vec![Chunklet::SectionReference { lo: 0, hi: 5 }]);
}

#[test]
fn tokenize_text_and_references() {
    let code = letters("a⟨x⟩bc⟨y z⟩\n");
    assert_eq!(
        tokenize(&code),
        vec![
            Chunklet::Text { lo: 0, hi: 1 },
            Chunklet::SectionReference { lo: 1, hi: 4 },
            Chunklet::Text { lo: 4, hi: 6 },
            Chunklet::SectionReference { lo: 6, hi: 11 },
            Chunklet::Text { lo: 11, hi: 12 },
        ]
    );
}

#[test]
fn tokenize_adjacent_references() {
    let code = letters("⟨a⟩⟨b⟩");
    assert_eq!(
        tokenize(&code),
        vec![
            Chunklet::SectionReference { lo: 0, hi: 3 },
            Chunklet::SectionReference { lo: 3, hi: 6 },
        ]
    );
}

#[test]
fn tokenize_unclosed_reference_is_text() {
    let code = letters("a⟨x and more");
    assert_eq!(tokenize(&code), vec![Chunklet::Text { lo: 0, hi: code.len() }]);
}

#[test]
fn tokenize_first_close_wins() {
    let code = letters("⟨a⟨b⟩c⟩");
    assert_eq!(
        tokenize(&code),
        vec![Chunklet::SectionReference { lo: 0, hi: 5 }, Chunklet::Text { lo: 5, hi: 7 }]
    );
}

#[test]
fn tokenize_close_before_open_is_text() {
    let code = letters("⟩a⟨b⟩");
    assert_eq!(
        tokenize(&code),
        vec![Chunklet::Text { lo: 0, hi: 2 }, Chunklet::SectionReference { lo: 2, hi: 5 }]
    );
}

#[test]
fn tokenize_reference_over_lines() {
    let code = letters("x\n⟨a\nb⟩\ny");
    assert_eq!(
        tokenize(&code),
        vec![
            Chunklet::Text { lo: 0, hi: 2 },
            Chunklet::SectionReference { lo: 2, hi: 7 },
            Chunklet::Text { lo: 7, hi: 9 },
        ]
    );
}

#[test]
fn tokenize_empty_reference() {
    let code = letters("⟨⟩");
    assert_eq!(tokenize(&code), vec![Chunklet::SectionReference { lo: 0, hi: 2 }]);
}

#[test]
fn tokenize_is_lossless() {
    for body in ["", "plain", "⟨a⟩", "x⟨a⟩y⟨b", "⟩⟩⟨⟨⟩⟩", "a\n⟨b\nc⟩\n⟨d⟩e", "≡⟨≡⟩≡"] {
        let code = letters(body);
        assert_eq!(raw(&code, &tokenize(&code)), body);
    }
}
