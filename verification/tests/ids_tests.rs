use pebble::ids::{
    generate_unique_id, generate_unique_id_with, required_random_id_length,
    MAX_ATTEMPTS_PER_LENGTH,
};
use std::cell::Cell;

#[test]
fn returns_unique_id_first_try() {
    let existing_ids: Vec<String> = Vec::new();
    let id = generate_unique_id_with("issue", &existing_ids, 4, |_| "abcd".to_string());
    assert_eq!(id.as_deref(), Some("issue-abcd"));
}

#[test]
fn bumps_length_after_exhausting_attempts() {
    let existing_ids = vec!["issue-aaaa".to_string()];

    let calls = Cell::new(0usize);
    let id = generate_unique_id_with("issue", &existing_ids, 4, |len| {
        calls.set(calls.get() + 1);
        if len == 4 {
            "aaaa".to_string()
        } else {
            "bbbbb".to_string()
        }
    })
    .expect("a fresh id is found");

    let suffix = id
        .strip_prefix("issue-")
        .expect("id should start with issue-");
    assert_eq!(suffix.len(), 5);
    assert_eq!(suffix, "bbbbb");
    assert_eq!(calls.get(), MAX_ATTEMPTS_PER_LENGTH + 1);
}

#[test]
fn generated_suffix_uses_expected_alphabet() {
    let existing_ids: Vec<String> = Vec::new();
    let id = generate_unique_id("issue", &existing_ids, 16).expect("a fresh id is found");
    let suffix = id
        .strip_prefix("issue-")
        .expect("id should start with issue-");

    assert_eq!(suffix.len(), 16);
    for ch in suffix.chars() {
        assert!(
            ch.is_ascii_digit() || ch.is_ascii_lowercase(),
            "unexpected character in suffix: {ch}"
        );
    }
}

#[test]
fn random_id_length_grows_with_task_count() {
    assert_eq!(required_random_id_length(0), 8);
    assert_eq!(required_random_id_length(1), 8);
    assert_eq!(required_random_id_length(2), 8);
    // 36^8 = 2821109907456 < 5e11 * 9, 36^9 = 101559956668416 >= 4.5e12
    assert_eq!(required_random_id_length(3), 9);
    // 5e11 * 1000^2 = 5e17; 36^11 = 131621703842267136 < 5e17 <= 36^12
    assert_eq!(required_random_id_length(1000), 12);
    let big = required_random_id_length(usize::MAX);
    assert!(big >= 30);
}
