use pebble::slug::slugify;

#[test]
fn commands_add_test_slugify_basic() {
    assert_eq!(slugify("Implement Task Node"), "implement-task-node");
    assert_eq!(slugify("  Lots   of  Spaces  "), "lots-of-spaces");
    assert_eq!(slugify("Punctuation! (is) removed?"), "punctuation-is-removed");
    assert_eq!(slugify("Already-Slugified"), "already-slugified");
}

#[test]
fn commands_add_test_slugify_mixed_separators() {
    assert_eq!(slugify("mix_of_dashes-and_underscores"), "mix_of_dashes-and_underscores");
    assert_eq!(slugify("---Trim-Repeating---"), "trim-repeating");
    assert_eq!(slugify("123-Numbers-456"), "123-numbers-456");
}

#[test]
fn commands_add_test_slugify_empty_fallback() {
    assert_eq!(slugify(""), "task");
    assert_eq!(slugify("!!!"), "task");
}

#[test]
fn commands_add_test_slugify_reserved_chars() {
    assert_eq!(slugify("Windows: < > : \" / \\ | ? *"), "windows");
    assert_eq!(slugify("macOS: / and :"), "macos-and");
    assert_eq!(slugify("Linux/Unix: \0 and /"), "linux-unix-and");
}

#[test]
fn commands_write_tests_test_slugify_basic() {
    assert_eq!(slugify("Implement Task Node"), "implement-task-node");
    assert_eq!(slugify("  Lots   of  Spaces  "), "lots-of-spaces");
    assert_eq!(slugify("Punctuation! (is) removed?"), "punctuation-is-removed");
    assert_eq!(slugify("Already-Slugified"), "already-slugified");
}

#[test]
fn commands_write_tests_test_slugify_mixed_separators() {
    assert_eq!(slugify("mix_of_dashes-and_underscores"), "mix_of_dashes-and_underscores");
    assert_eq!(slugify("---Trim-Repeating---"), "trim-repeating");
    assert_eq!(slugify("123-Numbers-456"), "123-numbers-456");
}

#[test]
fn commands_write_tests_test_slugify_empty_fallback() {
    assert_eq!(slugify(""), "task");
    assert_eq!(slugify("!!!"), "task");
}

#[test]
fn commands_write_tests_test_slugify_reserved_chars() {
    assert_eq!(slugify("Windows: < > : \" / \\ | ? *"), "windows");
    assert_eq!(slugify("macOS: / and :"), "macos-and");
    assert_eq!(slugify("Linux/Unix: \0 and /"), "linux-unix-and");
}

#[test]
fn test_slugify_transliterates_non_ascii() {
    assert_eq!(slugify("café"), "cafe");
    assert_eq!(slugify("über cool"), "uber-cool");
    assert_eq!(slugify("naïve approach"), "naive-approach");
    assert_eq!(slugify("résumé"), "resume");
    assert_eq!(slugify("Æneid"), "aeneid");
    assert_eq!(slugify("日本語テスト"), "ri-ben-yu-tesuto");
}

#[test]
fn test_slugify_strips_newlines_from_transliteration() {
    assert_eq!(slugify("before\u{2028}after"), "before-after");
    assert_eq!(slugify("before\u{2029}after"), "before-after");
    assert_eq!(slugify("a\u{2028}\u{2029}b"), "a-b");
}

#[test]
fn test_slugify_handles_unknown_characters() {
    assert_eq!(slugify("test\u{0378}value"), "test-value");
    assert_eq!(slugify("\u{0378}\u{0379}"), "task");
}

#[test]
fn test_slugify_handles_empty_transliterations() {
    assert_eq!(slugify("\u{0001}hello"), "hello");
    assert_eq!(slugify("hello\u{0002}world"), "hello-world");
    assert_eq!(slugify("\u{FEFF}hello"), "hello");
    assert_eq!(slugify("soft\u{00AD}hyphen"), "softhyphen");
}

#[test]
fn test_slugify_handles_multi_char_transliterations() {
    assert_eq!(slugify("北"), "bei");
    assert_eq!(slugify("Ж"), "zh");
    assert_eq!(slugify("Жизнь"), "zhizn");
}

#[test]
fn test_slugify_never_produces_unsafe_filenames() {
    let edge_cases = [
        "\u{2028}\u{2029}",
        "\u{0378}\u{0379}",
        "\u{0001}\u{0002}",
        "\u{200B}\u{FEFF}",
    ];
    for input in &edge_cases {
        let slug = slugify(input);
        assert!(!slug.is_empty(), "slug must never be empty for {input:?}");
        assert!(!slug.contains('\n'), "slug must never contain newline for {input:?}");
        assert!(!slug.contains('/'), "slug must never contain slash for {input:?}");
        assert!(!slug.contains('\0'), "slug must never contain null for {input:?}");
        assert!(
            slug.chars().all(|c| c.is_ascii_alphanumeric() || c == '-' || c == '_'),
            "slug contains unexpected char for {input:?}: {slug:?}"
        );
    }
}

#[test]
fn slugify_caps_length_at_eighty_without_trailing_dash() {
    let long = "word ".repeat(40);
    let slug = slugify(&long);
    assert!(slug.len() <= 80);
    assert!(!slug.ends_with('-'));
    assert!(slug.starts_with("word-word"));
}

#[test]
fn slug_from_transliterated_text() {
    assert_eq!(pebble::slug::slug_from_ascii("Implement Task Node"), "implement-task-node");
    assert_eq!(pebble::slug::slug_from_ascii("--a__b--"), "a__b");
    assert_eq!(pebble::slug::slug_from_ascii("!!!"), "task");
    assert_eq!(pebble::slug::slug_from_ascii(&"x".repeat(100)).len(), 80);
}
