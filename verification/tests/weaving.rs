use tangle::tokenizer::Chunklet;
use tangle::weave::WeaveError;
use tangle::web::{CodeBlock, Web};

fn text(s: &str) -> Vec<char> {
    s.chars().collect()
}

fn block(tag: &str, body: &str, offset: usize) -> CodeBlock {
    CodeBlock { tag: text(tag), body: text(body), offset }
}

fn web(bodies: &[&str]) -> Web {
    let blocks: Vec<CodeBlock> =
        bodies.iter().enumerate().map(|(i, body)| block("rust", body, i)).collect();
    Web::build(&blocks, &text("rust"))
}

fn weave(web: &Web, key: &str) -> Result<String, WeaveError> {
    web.weave(&text(key)).map(|out| out.into_iter().collect())
}

#[test]
fn web_of_no_blocks_is_empty() {
    let web = Web::build(&[], &text("rust"));
    assert!(web.sections.is_empty());
    assert_eq!(web.position(&text("")), None);
    assert!(!web.contains(&text("")));
    assert!(Web::new().sections.is_empty());
}

#[test]
fn web_ignores_other_tags() {
    let blocks = vec![
        block("text", "⟨greet⟩≡\nignored\n", 0),
        block("rust", "⟨greet⟩≡\nhello\n", 40),
        block("Rust", "⟨greet⟩+≡\nignored too\n", 80),
        block("", "⟨other⟩≡\nignored\n", 120),
    ];
    let web = Web::build(&blocks, &text("rust"));
    assert_eq!(web.sections.len(), 1);
    assert_eq!(web.sections[0].name, text("greet"));
    assert_eq!(web.sections[0].fragments.len(), 1);
    assert_eq!(web.sections[0].fragments[0].offset, 40);
    assert_eq!(weave(&web, "greet"), Ok(String::from("hello\n")));
    assert!(!web.contains(&text("other")));
}

#[test]
fn web_without_the_other_block_is_the_same() {
    let with = vec![
        block("rust", "⟨a⟩≡\none\n", 0),
        block("python", "⟨a⟩+≡\nnot this\n", 10),
        block("rust", "⟨a⟩+≡\ntwo\n", 20),
    ];
    let without = vec![block("rust", "⟨a⟩≡\none\n", 0), block("rust", "⟨a⟩+≡\ntwo\n", 20)];
    let left = Web::build(&with, &text("rust"));
    let right = Web::build(&without, &text("rust"));
    assert_eq!(left.sections.len(), right.sections.len());
    assert_eq!(weave(&left, "a"), weave(&right, "a"));
    assert_eq!(weave(&left, "a"), Ok(String::from("one\ntwo\n")));
}

#[test]
fn web_groups_fragments_by_key_in_document_order() {
    let web = web(&["⟨a⟩≡\n1\n", "⟨b⟩≡\n2\n", "⟨a⟩+≡\n3\n", "top\n", "⟨b⟩+≡\n4\n"]);
    assert_eq!(web.sections.len(), 3);
    assert_eq!(web.sections[0].name, text("a"));
    assert_eq!(web.sections[1].name, text("b"));
    assert_eq!(web.sections[2].name, text(""));
    let offsets: Vec<usize> = web.sections[0].fragments.iter().map(|f| f.offset).collect();
    assert_eq!(offsets, vec![0, 2]);
    let offsets: Vec<usize> = web.sections[1].fragments.iter().map(|f| f.offset).collect();
    assert_eq!(offsets, vec![1, 4]);
    assert_eq!(web.position(&text("b")), Some(1));
    assert_eq!(web.position(&text("")), Some(2));
    assert_eq!(web.position(&text("c")), None);
}

#[test]
fn web_records_each_fragment() {
    let web = web(&["⟨a⟩≡\nx ⟨b⟩\n", "⟨a⟩+≡\ny\n"]);
    let first = &web.sections[0].fragments[0];
    assert!(first.starts_section);
    assert_eq!(first.code, text("x ⟨b⟩\n"));
    assert_eq!(first.tag, text("rust"));
    assert_eq!(
        first.chunklets,
        vec![
            Chunklet::Text { lo: 0, hi: 2 },
            Chunklet::SectionReference { lo: 2, hi: 5 },
            Chunklet::Text { lo: 5, hi: 6 },
        ]
    );
    let second = &web.sections[0].fragments[1];
    assert!(!second.starts_section);
    assert_eq!(second.code, text("y\n"));
}

#[test]
fn web_files_names_under_their_canonical_key() {
    let web = web(&["⟨  my \n  helper ⟩≡\nfn helper(){}\n", "⟨my helper⟩+≡\n// more\n"]);
    assert_eq!(web.sections.len(), 1);
    assert_eq!(web.sections[0].name, text("my helper"));
    assert_eq!(weave(&web, "my helper"), Ok(String::from("fn helper(){}\n// more\n")));
}

#[test]
fn block_reads_its_key_and_fragment() {
    let (key, fragment) = block("rust", " ⟨ a  b ⟩+≡ \nbody\n", 7).fragment();
    assert_eq!(key, text("a b"));
    assert_eq!(fragment.code, text("body\n"));
    assert!(!fragment.starts_section);
    assert_eq!(fragment.offset, 7);
    let (key, fragment) = block("rust", "body only\n", 9).fragment();
    assert_eq!(key, text(""));
    assert_eq!(fragment.code, text("body only\n"));
    assert!(!fragment.starts_section);
}

#[test]
fn append_adds_to_a_section_or_makes_one() {
    let mut web = Web::new();
    let (key, fragment) = block("rust", "⟨a⟩≡\n1\n", 0).fragment();
    web.append(key, fragment);
    let (key, fragment) = block("rust", "⟨b⟩≡\n2\n", 1).fragment();
    web.append(key, fragment);
    let (key, fragment) = block("rust", "⟨a⟩+≡\n3\n", 2).fragment();
    web.append(key, fragment);
    assert_eq!(web.sections.len(), 2);
    assert_eq!(web.sections[0].fragments.len(), 2);
    assert_eq!(web.sections[1].fragments.len(), 1);
    assert_eq!(weave(&web, "a"), Ok(String::from("1\n3\n")));
}

#[test]
fn weave_unknown_key_is_not_found() {
    let web = web(&["⟨a⟩≡\n1\n"]);
    assert_eq!(weave(&web, ""), Err(WeaveError::NotFound));
    assert_eq!(weave(&web, "b"), Err(WeaveError::NotFound));
    assert_eq!(weave(&Web::new(), ""), Err(WeaveError::NotFound));
}

#[test]
fn weave_does_not_normalize_the_key_asked_for() {
    let web = web(&["⟨a b⟩≡\n1\n"]);
    assert_eq!(weave(&web, "a b"), Ok(String::from("1\n")));
    assert_eq!(weave(&web, " a  b "), Err(WeaveError::NotFound));
}

#[test]
fn weave_concatenates_fragments_in_order() {
    let web = web(&["⟨greet⟩≡\nhello\n", "⟨greet⟩+≡\nworld\n"]);
    assert_eq!(weave(&web, "greet"), Ok(String::from("hello\nworld\n")));
}

#[test]
fn weave_order_ignores_the_flags() {
    let web = web(&["⟨greet⟩+≡\nhello\n", "⟨greet⟩≡\nworld\n", "⟨greet⟩≡\nagain\n"]);
    assert_eq!(weave(&web, "greet"), Ok(String::from("hello\nworld\nagain\n")));
}

#[test]
fn weave_inlines_a_reference_behind_its_marker() {
    let web = web(&["⟨helper⟩≡\nfn helper(){}\n", "⟨⟩≡\n⟨helper⟩\nmain();\n"]);
    assert_eq!(
        weave(&web, ""),
        Ok(String::from("// ⟨helper⟩\nfn helper(){}\n\nmain();\n"))
    );
}

#[test]
fn weave_resolves_references_by_canonical_name() {
    let web = web(&["⟨my helper⟩≡\nh();\n", "a\n⟨ my\n   helper ⟩b\n"]);
    assert_eq!(weave(&web, ""), Ok(String::from("a\n// ⟨my helper⟩\nh();\nb\n")));
}

#[test]
fn weave_omits_an_unresolved_reference() {
    let with = web(&["⟨⟩≡\nbefore\n⟨nowhere⟩\nafter\n"]);
    let without = web(&["⟨⟩≡\nbefore\n\nafter\n"]);
    assert_eq!(weave(&with, ""), Ok(String::from("before\n\nafter\n")));
    assert_eq!(weave(&with, ""), weave(&without, ""));
}

#[test]
fn weave_expands_every_reference_anew() {
    let web = web(&["⟨x⟩≡\nX\n", "⟨⟩≡\n⟨x⟩⟨x⟩"]);
    assert_eq!(weave(&web, ""), Ok(String::from("// ⟨x⟩\nX\n// ⟨x⟩\nX\n")));
}

#[test]
fn weave_follows_nested_references() {
    let web = web(&["⟨⟩≡\n[⟨a⟩]\n", "⟨a⟩≡\n(⟨b⟩)", "⟨b⟩≡\nB"]);
    assert_eq!(weave(&web, ""), Ok(String::from("[// ⟨a⟩\n(// ⟨b⟩\nB)]\n")));
    assert_eq!(weave(&web, "a"), Ok(String::from("(// ⟨b⟩\nB)")));
}

#[test]
fn weave_reports_a_section_that_refers_to_itself() {
    let web = web(&["⟨a⟩≡\nx ⟨a⟩\n"]);
    assert_eq!(weave(&web, "a"), Err(WeaveError::Cycle { section: 0 }));
}

#[test]
fn weave_reports_a_cycle_through_other_sections() {
    let web = web(&["⟨a⟩≡\n⟨b⟩\n", "⟨b⟩≡\n⟨c⟩\n", "⟨c⟩≡\n⟨b⟩\n", "⟨d⟩≡\nfine\n"]);
    assert_eq!(weave(&web, "a"), Err(WeaveError::Cycle { section: 1 }));
    assert_eq!(weave(&web, "c"), Err(WeaveError::Cycle { section: 2 }));
    assert_eq!(weave(&web, "d"), Ok(String::from("fine\n")));
    assert_eq!(weave(&web, "d"), Ok(String::from("fine\n")));
}

#[test]
fn weave_empty_section_gives_empty_text() {
    let web = web(&["⟨a⟩≡\n"]);
    assert_eq!(weave(&web, "a"), Ok(String::new()));
}

#[test]
fn unresolved_lists_each_dangling_reference() {
    let blocks = vec![
        block("rust", "⟨a⟩≡\nx ⟨gone⟩ y ⟨b⟩\n", 10),
        block("rust", "⟨b⟩≡\n⟨ not\n here ⟩⟨a⟩", 50),
        block("text", "⟨c⟩≡\n⟨ignored⟩\n", 90),
        block("rust", "⟨a⟩+≡\n⟨gone⟩", 130),
    ];
    let web = Web::build(&blocks, &text("rust"));
    let found = web.unresolved();
    let listed: Vec<(String, usize, usize)> =
        found.iter().map(|u| (u.name.iter().collect(), u.offset, u.at)).collect();
    assert_eq!(
        listed,
        vec![
            (String::from("gone"), 10, 2),
            (String::from("gone"), 130, 0),
            (String::from("not here"), 50, 0),
        ]
    );
}

#[test]
fn unresolved_is_empty_when_every_reference_resolves() {
    let web = web(&["⟨a⟩≡\n⟨b⟩\n", "⟨b⟩≡\ndone\n", "plain\n"]);
    assert!(web.unresolved().is_empty());
    assert!(Web::new().unresolved().is_empty());
}
