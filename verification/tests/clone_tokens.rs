use lithograph::clone_tokens::body_content_hash;
use lithograph::clone_tokens::{shared_tokens, word_tokens};

fn two_pointer_jaccard(a: &[u32], b: &[u32]) -> f64 {
    let shared = shared_tokens(&a.to_vec(), &b.to_vec());
    let union = a.len() + b.len() - shared;
    if union == 0 {
        0.0
    } else {
        shared as f64 / union as f64
    }
}

#[test]
fn two_pointer_jaccard_matches_set_definition() {
    assert_eq!(two_pointer_jaccard(&[], &[]), 0.0);
    assert_eq!(two_pointer_jaccard(&[1, 2, 3], &[]), 0.0);
    assert_eq!(two_pointer_jaccard(&[1, 2, 3], &[4, 5, 6]), 0.0);
    assert_eq!(two_pointer_jaccard(&[1, 2, 3], &[1, 2, 3]), 1.0);
    assert_eq!(two_pointer_jaccard(&[1, 2, 3], &[2, 3, 4]), 0.5);
    assert_eq!(two_pointer_jaccard(&[1, 2], &[1, 2, 3, 4]), 0.5);
}

#[test]
fn shared_tokens_counts_the_intersection() {
    assert_eq!(shared_tokens(&vec![1, 4, 9, 12], &vec![2, 4, 12, 30]), 2);
    assert_eq!(shared_tokens(&vec![], &vec![7]), 0);
    assert_eq!(shared_tokens(&vec![5, 6], &vec![5, 6]), 2);
}

#[test]
fn word_tokens_reads_the_body_lines_lower_cased_and_unique() {
    let text = "def calculate_total(items):\n    total = 0\n    for item in items:\n        total += item.price\n    return total\n\n\ndef Other(x):\n    return x\n";
    let tokens = word_tokens(text, 1, 5);
    assert_eq!(
        tokens,
        vec!["calculate_total", "def", "for", "in", "item", "items", "price", "return", "total"]
    );
    assert_eq!(word_tokens(text, 8, 9), vec!["def", "other", "return"]);
    assert_eq!(word_tokens(text, 0, 1), vec!["calculate_total", "def", "items"]);
    assert!(word_tokens(text, 20, 30).is_empty());
    assert!(word_tokens(text, 3, 2).is_empty());
}

#[test]
fn word_tokens_strip_carriage_returns_and_drop_single_characters() {
    assert_eq!(word_tokens("alpha\r\nbeta\r\n", 1, 2), vec!["alpha", "beta"]);
    assert_eq!(word_tokens("é x y_z", 1, 1), vec!["y_z"]);
    assert_eq!(word_tokens("é x ab _ cd", 1, 1), vec!["ab", "cd"]);
}

#[test]
fn body_content_hash_digests_the_body_lines_joined_by_newlines() {
    let text = "a\nb\r\nc\nd\n";
    assert_eq!(body_content_hash(text, 2, 3), blake3::hash(b"b\nc").to_hex().to_string());
    assert_eq!(body_content_hash(text, 0, 1), blake3::hash(b"a").to_hex().to_string());
    assert_eq!(body_content_hash(text, 3, 99), blake3::hash(b"c\nd").to_hex().to_string());
    assert_eq!(body_content_hash(text, 7, 9), blake3::hash(b"").to_hex().to_string());
}
