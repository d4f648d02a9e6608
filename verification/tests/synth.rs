use kokoro_rs::phonemes::MAX_PHONEME_LENGTH;
use kokoro_rs::synth::model::{no_audio_message, ModelInput, SynthError, Synthesiser};
use kokoro_rs::synth::{split_phonemes, SAMPLE_RATE};
use kokoro_rs::trim::frame_count;
use kokoro_rs::voices::{StyleArray, StyleError, Voices, STYLE_DIM};

#[test]
fn short_phonemes_stay_in_one_batch() {
    assert_eq!(split_phonemes("həlˈoʊ fɹʌm ɹˈʌst."), ["həlˈoʊ fɹʌm ɹˈʌst."]);
}

#[test]
fn punctuation_stays_attached_to_the_preceding_phonemes() {
    assert_eq!(split_phonemes("wˌʌn. tˈuː."), ["wˌʌn. tˈuː."]);
}

#[test]
fn over_long_phonemes_are_split_at_punctuation() {
    let clause = "a".repeat(300);
    let batches = split_phonemes(&format!("{clause}. {clause}."));
    assert_eq!(batches.len(), 2);
    assert!(
        batches
            .iter()
            .all(|b| b.chars().count() < MAX_PHONEME_LENGTH)
    );
    assert!(batches[0].ends_with('.'));
}

#[test]
fn empty_input_produces_no_batches() {
    assert!(split_phonemes("").is_empty());
    assert!(split_phonemes("   ").is_empty());
}

#[test]
fn over_long_clauses_are_split_between_words() {
    let clause = vec!["abcde"; 200].join(" ");
    let batches = split_phonemes(&clause);
    assert!(batches.len() > 1);
    for batch in &batches {
        assert!(batch.chars().count() < MAX_PHONEME_LENGTH);
        assert!(batch.split(' ').all(|word| word == "abcde"), "{batch:?}");
    }
    assert_eq!(batches.join(" "), clause);
}

#[test]
fn a_single_over_long_word_is_cut() {
    let word = "a".repeat(1200);
    let batches = split_phonemes(&word);
    assert!(batches.iter().all(|b| b.chars().count() < MAX_PHONEME_LENGTH));
    assert_eq!(batches.concat(), word);
}

#[test]
fn batches_hold_every_phoneme() {
    let text = format!("{}; {}, x!  y? {}", "b ".repeat(150), "c".repeat(520), "d".repeat(509));
    let letters = |s: &str| s.chars().filter(|c| !c.is_whitespace()).collect::<String>();
    let batches = split_phonemes(&text);
    assert_eq!(letters(&batches.concat()), letters(&text));
    assert!(batches.iter().all(|b| b.chars().count() < MAX_PHONEME_LENGTH));
}

fn array(rows: usize, width: usize) -> StyleArray<u32> {
    StyleArray {
        rows,
        depth: 1,
        width,
        data: (0..rows * width).map(|i| (i / width) as u32).collect(),
    }
}

fn synthesiser(inputs: &[&str]) -> Synthesiser<u32> {
    let members = vec![
        ("good.npy".to_string(), array(10, STYLE_DIM)),
        ("thin.npy".to_string(), array(10, 8)),
    ];
    let names = inputs.iter().map(|s| s.to_string()).collect();
    Synthesiser::new(Voices::from_members(members).unwrap(), &names)
}

#[test]
fn the_token_input_goes_by_its_newer_name() {
    assert_eq!(synthesiser(&["style", "input_ids"]).token_input(), "input_ids");
    assert_eq!(synthesiser(&["style", "tokens", "speed"]).token_input(), "tokens");
    assert_eq!(SAMPLE_RATE, 24_000);
}

#[test]
fn the_model_is_given_padded_tokens_and_a_style() {
    let synth = synthesiser(&[]);
    let input = synth.model_input("h, h", "good").unwrap().unwrap();
    assert_eq!(input.tokens, [0, 50, 3, 16, 50, 0]);
    // The style is that of four tokens: the padding does not count.
    assert_eq!(input.style, vec![4; STYLE_DIM]);
    assert!(synth.model_input("123", "good").unwrap().is_none());
    assert_eq!(synth.model_input("h", "bad").err(), Some(StyleError::UnknownVoice));
    assert_eq!(synth.model_input("h", "thin").err(), Some(StyleError::Width(8)));
    // Without tokens the voice is not looked at.
    assert!(synth.model_input("", "bad").unwrap().is_none());
    assert_eq!(synth.voices().names(), ["good", "thin"]);
}

#[test]
fn phonemes_are_synthesised_as_the_model_answers() {
    let synth = synthesiser(&[]);
    let mut echo = |input: &ModelInput<u32>| Ok::<_, String>(vec![input.tokens.len() as u32]);
    assert_eq!(synth.create_from_phonemes("hhh", "good", &mut echo).unwrap(), [5]);
    assert_eq!(synth.create_from_phonemes("", "good", &mut echo).unwrap(), [0u32; 0]);
    assert!(matches!(
        synth.create_from_phonemes("h", "bad", &mut echo),
        Err(SynthError::Style(StyleError::UnknownVoice))
    ));
    let mut broken = |_: &ModelInput<u32>| Err::<Vec<u32>, String>("out of memory".to_string());
    assert!(matches!(
        synth.create_from_phonemes("h", "good", &mut broken),
        Err(SynthError::Backend(e)) if e == "out of memory"
    ));
    let mut mute = |_: &ModelInput<u32>| Ok::<Vec<u32>, String>(Vec::new());
    assert!(matches!(
        synth.create_from_phonemes("h\"", "good", &mut mute),
        Err(SynthError::NoAudio(phonemes)) if phonemes == "h\""
    ));
    assert_eq!(no_audio_message("h\""), "the model returned no audio for \"h\\\"\"");
}

#[test]
fn batches_are_spoken_one_after_the_other_without_the_silence() {
    let synth = synthesiser(&[]);
    // Two batches; the model pads each with a hop of silence either side.
    let clause = "a".repeat(300);
    let mut run = |input: &ModelInput<u32>| {
        let mut audio = vec![0; 512];
        audio.extend(vec![input.tokens.len() as u32; 512]);
        audio.extend(vec![0; 512]);
        Ok::<_, String>(audio)
    };
    let mut hear = |audio: &Vec<u32>| {
        (0..frame_count(audio.len()))
            .map(|f| audio.get(f * 512).is_some_and(|&s| s != 0))
            .collect::<Vec<bool>>()
    };
    let audio = synth
        .speak(&format!("{clause}. {clause}"), "good", &mut run, &mut hear)
        .unwrap();
    let mut expected = vec![303; 512];
    expected.extend(vec![302; 512]);
    assert_eq!(audio, expected);
}

#[test]
fn text_is_phonemised_before_it_is_spoken() {
    let synth = synthesiser(&[]);
    let espeak = |part: &str, lang: &str| {
        if lang == "en-us" { Ok(vec![part.to_lowercase()]) } else { Err(lang.to_string()) }
    };
    let mut run = |input: &ModelInput<u32>| {
        Ok::<_, String>(input.tokens.iter().map(|&t| t as u32).collect())
    };
    let mut hear = |audio: &Vec<u32>| vec![true; frame_count(audio.len())];
    let audio = synth.create("H, h", "good", "en-us", espeak, &mut run, &mut hear).unwrap();
    assert_eq!(audio, [0, 50, 3, 16, 50, 0]);
    assert!(matches!(
        synth.create("H", "good", "xx", espeak, &mut run, &mut hear),
        Err(SynthError::Backend(e)) if e == "xx"
    ));
}

#[test]
fn every_batch_holds_something() {
    // As long as a batch can be, and without a mark to split at.
    let longest = "a".repeat(509);
    assert_eq!(split_phonemes(&longest), [longest.clone()]);
    assert_eq!(split_phonemes(&"a".repeat(510)).concat(), "a".repeat(510));
    for text in [
        format!("{longest}."),
        format!(". {longest}"),
        format!("{longest} {longest}"),
        ", ; .".to_string(),
    ] {
        for batch in split_phonemes(&text) {
            assert!(!batch.is_empty(), "{text:?}");
            assert_eq!(batch.trim(), batch);
        }
    }
}

#[test]
fn phonemes_that_fit_are_spoken_as_they_stand() {
    let synth = synthesiser(&[]);
    let mut run = |input: &ModelInput<u32>| {
        Ok::<_, String>(input.tokens.iter().map(|&t| t as u32).collect())
    };
    let mut hear = |audio: &Vec<u32>| vec![true; frame_count(audio.len())];
    let audio = synth.speak("h.h ,h", "good", &mut run, &mut hear).unwrap();
    assert_eq!(audio, [0, 50, 4, 50, 16, 3, 50, 0]);
    assert_eq!(synth.speak("", "good", &mut run, &mut hear).unwrap(), [0u32; 0]);
}

#[test]
fn a_voice_without_vectors_matters_only_where_one_is_needed() {
    let members = vec![
        ("none.npy".to_string(), array(0, STYLE_DIM)),
        ("thin.npy".to_string(), array(0, 8)),
    ];
    let synth = Synthesiser::new(Voices::from_members(members).unwrap(), &Vec::new());
    assert!(!synth.voices().is_usable("none"));
    // The width is looked at before the rows, and the voice only where tokens are left.
    assert!(synth.voices().is_usable("thin"));
    assert_eq!(synth.model_input("h", "thin").err(), Some(StyleError::Width(8)));
    assert!(synth.model_input("123", "none").unwrap().is_none());
    let mut run = |_: &ModelInput<u32>| Err::<Vec<u32>, String>("not to be run".to_string());
    let mut hear = |audio: &Vec<u32>| vec![true; frame_count(audio.len())];
    assert_eq!(synth.speak("123", "none", &mut run, &mut hear).unwrap(), [0u32; 0]);
}
