use kokoro_rs::phonemes::{phonemize, tokenize, vocab, MAX_PHONEME_LENGTH};

/// Phonemes for a few words; others are left as they are.
fn backend(part: &str, lang: &str) -> Result<Vec<String>, String> {
    if lang != "en-us" {
        return Err(format!("unknown language {lang}"));
    }
    let said: Vec<String> = part
        .split_whitespace()
        .map(|word| match word {
            "Hello" => "h_ə_l_ˈoʊ".to_string(),
            "there" => "ð_ˈɛɹ".to_string(),
            other => other.to_string(),
        })
        .collect();
    // In two sentences, with white space to be normalised.
    Ok(vec![said.join("  "), String::new()])
}

#[test]
fn vocab_has_the_expected_size() {
    assert_eq!(vocab().len(), 114);
}

#[test]
fn tokenize_maps_known_phonemes_and_drops_others() {
    assert_eq!(tokenize("hɛlˈoʊ"), [50, 86, 54, 156, 57, 135]);
    // Digits are outside the vocabulary and are dropped rather than mapped to a
    // placeholder token.
    assert_eq!(tokenize("h3h"), [50, 50]);
}

#[test]
fn tokenize_truncates_to_the_context_length() {
    let long = "a".repeat(MAX_PHONEME_LENGTH + 50);
    assert_eq!(tokenize(&long).len(), MAX_PHONEME_LENGTH);
}

#[test]
fn phonemize_produces_vocabulary_only_output() {
    let phonemes = phonemize("Hello there.", "en-us", backend).expect("phonemise");
    assert!(!phonemes.is_empty());
    assert!(
        phonemes.chars().all(|c| vocab().contains_key(&c)),
        "{phonemes:?}"
    );
    assert!(!phonemes.contains("  "));
}

#[test]
fn phonemize_marks_stress() {
    // Stress marks are what distinguish this from a plain phoneme dump; losing them
    // flattens the prosody.
    assert!(phonemize("Hello there.", "en-us", backend).unwrap().contains('ˈ'));
}

#[test]
fn phonemize_keeps_punctuation_and_drops_the_unknown() {
    assert_eq!(phonemize("Hello, there!", "en-us", backend).unwrap(), "həlˈoʊ, ðˈɛɹ!");
    // Neither the digit nor the braces are in the vocabulary.
    assert_eq!(phonemize("{a7}: b", "en-us", backend).unwrap(), "a: b");
    assert_eq!(phonemize("  ", "en-us", backend).unwrap(), "");
}

#[test]
fn phonemize_reports_the_backends_error() {
    assert_eq!(
        phonemize("a", "xx", backend),
        Err("unknown language xx".to_string())
    );
    // A text that is only punctuation never reaches the backend.
    assert_eq!(phonemize("?!", "xx", backend), Ok("?!".to_string()));
}

#[test]
fn known_phonemes_map_one_to_one() {
    let phonemes = "h, a. b";
    let ids: Vec<i64> = phonemes.chars().map(|c| vocab().get(&c).unwrap()).collect();
    assert_eq!(tokenize(phonemes), ids);
    assert_eq!(vocab().get(&'7'), None);
    assert_eq!(vocab().get(&' '), Some(16));
}
