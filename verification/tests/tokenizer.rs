use universal_lsif::crawler::get_words;
use universal_lsif::crawler::query_plan;
use universal_lsif::crawler::{has_extension, matches_extensions};

fn words_of(text: &str) -> Vec<String> {
    get_words(text.to_string()).into_iter().map(|(w, _r)| w).collect()
}

#[test]
fn test_for_each_word() {
    let text = r#"
            let value = a.b.c();
            for_each_word(text.to_string(), |word, _range| -> Result<()> {
                words.push(word.to_string());
                Ok(())
            }
        "#;
    let mut words = Vec::new();
    for (word, _range) in get_words(text.to_string()) {
        words.push(word.to_string());
    }

    assert_eq!(
        words,
        vec![
            "let",
            "value",
            "a",
            "b",
            "c",
            "for_each_word",
            "text",
            "to_string",
            "word",
            "_range",
            "Result",
            "words",
            "push",
            "word",
            "to_string",
            "Ok"
        ]
        .into_iter()
        .map(|it| it.to_string())
        .collect::<Vec<_>>()
    );
}

#[test]
fn test_for_each_word_2() {
    let text = r#"
        type a struct {
            b   c.d
            e f
            g        h
        }
        "#;
    let mut words = Vec::new();
    for (word, _range) in get_words(text.to_string()) {
        words.push(word.to_string());
    }

    assert_eq!(
        words,
        vec!["type", "a", "struct", "b", "c", "d", "e", "f", "g", "h"]
            .into_iter()
            .map(|it| it.to_string())
            .collect::<Vec<_>>()
    );
}

#[test]
fn tokens_with_ranges() {
    let ws = get_words("let value = a.b.c();".to_string());
    let flat: Vec<(String, u64, u64, u64)> = ws
        .into_iter()
        .map(|(w, r)| {
            let lr = r.range();
            assert_eq!(lr.start.line, lr.end.line);
            (w, lr.start.line, lr.start.character, lr.end.character)
        })
        .collect();
    assert_eq!(
        flat,
        vec![
            ("let".to_string(), 0, 0, 3),
            ("value".to_string(), 0, 4, 9),
            ("a".to_string(), 0, 12, 13),
            ("b".to_string(), 0, 14, 15),
            ("c".to_string(), 0, 16, 17),
        ]
    );
}

#[test]
fn tokens_across_lines() {
    let ws = get_words("foo\nbar baz".to_string());
    let flat: Vec<(String, u64, u64)> = ws
        .into_iter()
        .map(|(w, r)| {
            let lr = r.range();
            (w, lr.start.line, lr.start.character)
        })
        .collect();
    assert_eq!(
        flat,
        vec![
            ("foo".to_string(), 0, 0),
            ("bar".to_string(), 1, 0),
            ("baz".to_string(), 1, 4),
        ]
    );
}

#[test]
fn apostrophe_words() {
    assert_eq!(words_of("don't stop"), vec!["don't".to_string(), "stop".to_string()]);
}

#[test]
fn apostrophe_not_a_word_start() {
    assert_eq!(words_of("'tis x"), vec!["tis".to_string(), "x".to_string()]);
}

#[test]
fn empty_text_has_no_words() {
    assert_eq!(words_of(""), Vec::<String>::new());
}

#[test]
fn keywords_never_planned() {
    let keywords = vec!["if".to_string(), "while".to_string()];
    let plan = query_plan("if foo while bar".to_string(), &keywords);
    let words: Vec<String> = plan.into_iter().map(|(w, _r)| w).collect();
    assert_eq!(words, vec!["foo".to_string(), "bar".to_string()]);
}

#[test]
fn extension_matching() {
    assert!(has_extension("/p/src/main.rs", "rs"));
    assert!(!has_extension("/p/src/main.rs", "go"));
    assert!(has_extension("a.tar.gz", "gz"));
    assert!(!has_extension("a.tar.gz", "tar.gz"));
    assert!(!has_extension("/p/.gitignore", "gitignore"));
    assert!(!has_extension("/p/Makefile", ""));
    let exts = vec!["rs".to_string(), "go".to_string()];
    assert!(matches_extensions("/p/a.go", &exts));
    assert!(!matches_extensions("/p/a.c", &exts));
}

#[test]
fn keyword_filter_keeps_order_and_ranges() {
    let keywords = vec!["fn".to_string()];
    let plan = query_plan("fn foo".to_string(), &keywords);
    assert_eq!(plan.len(), 1);
    assert_eq!(plan[0].0, "foo");
    assert_eq!(plan[0].1.range().start.character, 3);
}
