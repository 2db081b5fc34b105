use vector_store::encoding::within_limit;
use vector_store::encoding::FeatureVector;

fn letters(text: &str) -> usize {
    text.chars().filter(|c| c.is_ascii_alphabetic()).count()
}

#[test]
fn encode_has_26_nonnegative_entries_summing_to_letter_count() {
    for text in [
        "",
        "I like apples",
        "Hello, World! 123",
        "The quick brown fox jumps over the lazy dog",
        "....!!!???",
    ] {
        let v = FeatureVector::encode(text);
        assert_eq!(v.counts.len(), 26);
        let sum: u64 = v.counts.iter().sum();
        assert_eq!(sum as usize, letters(text));
    }
}

#[test]
fn encode_counts_each_letter() {
    let v = FeatureVector::encode("I like apples");
    // a:1 e:2 i:2 k:1 l:2 p:2 s:1
    let mut expected = vec![0u64; 26];
    expected[0] = 1;
    expected[4] = 2;
    expected[8] = 2;
    expected[10] = 1;
    expected[11] = 2;
    expected[15] = 2;
    expected[18] = 1;
    assert_eq!(v.counts, expected);
}

#[test]
fn encode_is_case_insensitive() {
    let upper = FeatureVector::encode("ABC");
    let lower = FeatureVector::encode("abc");
    assert_eq!(upper.counts, lower.counts);
    let mixed = FeatureVector::encode("HeLLo WoRLD");
    let plain = FeatureVector::encode("hello world");
    assert_eq!(mixed.counts, plain.counts);
}

#[test]
fn encode_ignores_non_letters() {
    let with_digit = FeatureVector::encode("a1a");
    let without = FeatureVector::encode("aa");
    assert_eq!(with_digit.counts, without.counts);
    let noisy = FeatureVector::encode(" a-b_c 9!");
    let clean = FeatureVector::encode("abc");
    assert_eq!(noisy.counts, clean.counts);
}

#[test]
fn encode_ignores_non_ascii_letters() {
    // the accented letter is not an ASCII letter, so it does not count
    let accented = FeatureVector::encode("h\u{e9}llo");
    let bare = FeatureVector::encode("hllo");
    assert_eq!(accented.counts, bare.counts);
}

#[test]
fn encode_empty_is_all_zeros() {
    let v = FeatureVector::encode("");
    assert_eq!(v.counts, vec![0u64; 26]);
}

#[test]
fn within_limit_accepts_ordinary_texts() {
    assert!(within_limit(""));
    assert!(within_limit("I like apples"));
    assert!(within_limit("12345"));
}
