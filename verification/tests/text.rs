use kokoro_rs::phonemes::{phonemize, MAX_PHONEME_LENGTH};
use kokoro_rs::text::sentences::is_vetoed;
use kokoro_rs::text::split::{split_after, CLAUSE_ENDS};
use kokoro_rs::text::{
    chunk_text, ends_sentence, Budget, Chunk, ChunkStream, CHUNK_PHONEMES, FIRST_CHUNK_CHARS,
    FIRST_CHUNK_PHONEMES,
};

/// A stand-in phonemiser that leaves the text alone, so that phoneme counts are
/// character counts and the expected chunks stay readable.
fn identity() -> impl FnMut(&str) -> Result<String, String> {
    |text: &str| Ok(text.to_string())
}

fn budget(phonemes: usize) -> Budget {
    Budget { phonemes, chars: None }
}

fn nchars(s: &str) -> usize {
    s.chars().count()
}

fn texts(chunks: Vec<Chunk>) -> Vec<String> {
    chunks.into_iter().map(|c| c.text).collect()
}

fn chunks(text: &str, limit: usize) -> Vec<String> {
    texts(chunk_text(text, budget(limit), budget(limit), &mut identity()).unwrap())
}

/// Chunking under a character cap, on text and phonemes alike.
fn capped(text: &str, limit: usize) -> Vec<String> {
    let budget = Budget { phonemes: limit, chars: Some(limit) };
    texts(chunk_text(text, budget, budget, &mut identity()).unwrap())
}

/// A backend that reads a word in the context of its neighbours: "read" at the end of
/// what it is given sounds other than before another word, and digits are spelt out.
fn contextual(part: &str, lang: &str) -> Result<Vec<String>, String> {
    assert_eq!(lang, "en-us");
    let words: Vec<&str> = part.split_whitespace().collect();
    let mut said: Vec<String> = Vec::new();
    for (i, word) in words.iter().enumerate() {
        let sound = if *word == "read" {
            if i + 1 == words.len() { "ɹˈiːd".to_string() } else { "ɹˈɛd".to_string() }
        } else {
            word.to_lowercase()
                .chars()
                .map(|c| if c.is_ascii_digit() { " wˈʌn".to_string() } else { c.to_string() })
                .collect::<String>()
                .trim()
                .to_string()
        };
        said.push(sound);
    }
    Ok(vec![said.join(" ")])
}

fn speak(text: &str) -> Result<String, String> {
    phonemize(text, "en-us", contextual)
}

#[test]
fn splits_on_sentence_ends() {
    // Sentences are repacked greedily, so two fit inside a limit of ten.
    assert_eq!(chunks("One. Two. Three.", 10), ["One. Two.", "Three."]);
    assert_eq!(chunks("One. Two. Three.", 5), ["One.", "Two.", "Three."]);
    // Under a character cap of five, "Three." is over it and is cut.
    assert_eq!(capped("One. Two. Three.", 5), ["One.", "Two.", "Three", "."]);
}

#[test]
fn only_the_first_chunk_is_held_to_the_narrow_budget() {
    // One call, several sentences: the first chunk gets audio started, and the rest is
    // packed to the wide budget rather than the narrow one.
    let text = "One. Two. Three. Four. Five. Six.";
    let chunks = texts(chunk_text(text, budget(5), budget(300), &mut identity()).unwrap());
    assert_eq!(chunks, ["One.", "Two. Three. Four. Five. Six."]);
}

#[test]
fn packs_sentences_up_to_the_limit() {
    assert_eq!(chunks("One. Two. Three.", 300), ["One. Two. Three."]);
}

#[test]
fn whole_sentences_are_never_split_when_they_fit() {
    let text = "The first sentence is fairly long. The second one is too. \
                A third follows it, with a clause in the middle, and an end.";
    // Every chunk is made of whole sentences: none ends mid-sentence.
    for chunk in chunks(text, 60) {
        assert!(ends_sentence(&chunk), "split {chunk:?}");
    }
}

#[test]
fn no_chunk_exceeds_the_phoneme_budget() {
    let text = "One sentence here. Another, with a clause, follows it. \
                And a third, rather longer than the others, closes the lot.";
    for limit in [20, 40, 300] {
        for chunk in chunk_text(text, budget(limit), budget(limit), &mut identity()).unwrap() {
            // The one documented exception is a single clause with no inner break.
            let indivisible = split_after(&chunk.text, &CLAUSE_ENDS).len() == 1;
            assert!(
                nchars(&chunk.phonemes) <= limit || indivisible,
                "{limit}: {:?}",
                chunk.phonemes
            );
        }
    }
}

#[test]
fn keeps_abbreviations_and_initials_intact() {
    for text in ["Dr. Smith arrived.", "J. Smith arrived.", "See Fig. 4 now."] {
        assert_eq!(chunks(text, 300).len(), 1, "split {text:?}");
    }
}

#[test]
fn keeps_decimals_intact() {
    assert_eq!(chunks("It cost 3.5 pounds.", 300), ["It cost 3.5 pounds."]);
}

#[test]
fn splits_after_a_closing_quote() {
    // The closing quote is part of the separator and is dropped with it.
    assert_eq!(
        chunks("\"Stop!\" she said. Then left.", 12),
        ["\"Stop!", "she said.", "Then left."]
    );
}

#[test]
fn newlines_separate_sentences() {
    assert_eq!(chunks("one\ntwo", 300), ["one two"]);
    assert_eq!(chunks("one\ntwo", 4), ["one", "two"]);
}

#[test]
fn long_sentence_breaks_at_clauses() {
    let text = "alpha beta gamma, delta epsilon zeta, eta theta iota";
    assert_eq!(
        chunks(text, 25),
        ["alpha beta gamma,", "delta epsilon zeta,", "eta theta iota"]
    );
}

#[test]
fn over_long_clause_is_left_for_the_phoneme_splitter() {
    // No clause boundary to break at, and no character cap asking for a word split, so
    // the sentence is emitted whole.
    assert_eq!(chunks("alpha beta gamma delta", 12), ["alpha beta gamma delta"]);
}

#[test]
fn long_sentence_falls_back_to_words_under_a_char_cap() {
    assert_eq!(capped("alpha beta gamma delta", 12), ["alpha beta", "gamma delta"]);
}

#[test]
fn unbreakable_token_is_cut_bluntly() {
    assert_eq!(capped(&"x".repeat(7), 3), ["xxx", "xxx", "x"]);
}

#[test]
fn counts_characters_not_bytes() {
    // Five characters, ten bytes: must not be split at a five-char limit.
    assert_eq!(chunks("ααααα", 5), ["ααααα"]);
}

#[test]
fn ends_sentence_detects_terminal_punctuation() {
    assert!(ends_sentence("Done."));
    assert!(ends_sentence("Really? "));
    assert!(ends_sentence("\"Stop!\""));
    assert!(!ends_sentence("a clause,"));
    assert!(!ends_sentence("mid sentence"));
}

#[test]
fn stream_emits_the_first_chunk_early() {
    let mut stream = ChunkStream::new(budget(10), budget(300), identity());
    // No boundary and under the limit: nothing to say yet.
    assert!(stream.push("hello ").unwrap().is_empty());
    // A sentence boundary releases the completed sentence, over the limit but with
    // nowhere to break it, and holds back the unterminated tail.
    assert_eq!(texts(stream.push("there. more").unwrap()), ["hello there."]);
    assert_eq!(texts(stream.finish().unwrap()), ["more"]);
}

#[test]
fn stream_widens_after_the_first_chunk() {
    let mut stream = ChunkStream::new(budget(10), budget(300), identity());
    assert_eq!(
        texts(stream.push("one. two. three. four.").unwrap()),
        ["one. two.", "three."]
    );
    // Later chunks use the wider budget, so the tail stays in one piece.
    assert_eq!(texts(stream.finish().unwrap()), ["four."]);
}

#[test]
fn stream_handles_input_with_no_punctuation() {
    let mut stream = ChunkStream::new(budget(10), budget(20), identity());
    let mut all: Vec<String> = Vec::new();
    for word in ["alpha ", "beta ", "gamma ", "delta "] {
        all.extend(texts(stream.push(word).unwrap()));
    }
    all.extend(texts(stream.finish().unwrap()));
    assert_eq!(all.concat().replace(' ', ""), "alphabetagammadelta");
}

#[test]
fn blank_input_produces_nothing() {
    assert!(chunks("   \n  \n ", 300).is_empty());
    let mut stream = ChunkStream::new(budget(10), budget(300), identity());
    assert!(stream.push("  ").unwrap().is_empty());
    assert!(stream.finish().unwrap().is_empty());
}

/// The carried phonemes must be what each chunk's text phonemises to: that is what the
/// synthesiser speaks, and a mismatch is a mispronounced word.
fn assert_phonemes_match(chunks: &[Chunk]) {
    for chunk in chunks {
        assert_eq!(chunk.phonemes, speak(&chunk.text).unwrap(), "{:?}", chunk.text);
    }
}

#[test]
fn word_split_pieces_are_not_rejoined() {
    // Under a character cap the first chunk's narrow cap cuts this sentence between
    // words; the wider cap that comes into force underneath must not put those pieces
    // back together. A word is read in the context of its neighbours, so "read"
    // measured alone is "reed" and rejoining it would have the model say the wrong
    // word.
    let mut phonemize = |text: &str| speak(text);
    let text = "I have read a book and I have read a paper and then I went \
                away and later I came back and I have read the apple once \
                more today and I have read the news and I have read the \
                letter and then I have read the apple again.";
    let first = Budget { phonemes: FIRST_CHUNK_PHONEMES, chars: Some(FIRST_CHUNK_CHARS) };
    let rest = Budget { phonemes: CHUNK_PHONEMES, chars: Some(300) };
    let chunks = chunk_text(text, first, rest, &mut phonemize).unwrap();
    assert!(chunks.len() > 1);
    assert_phonemes_match(&chunks);
}

#[test]
fn clause_splits_and_the_widening_budget_keep_the_phonemes_honest() {
    let mut phonemize = |text: &str| speak(text);
    let text = "Hi. A second sentence, with several clauses, that is far \
                longer than a hundred phonemes, and keeps going, and going, \
                and going for a while yet. A third one follows it. And a \
                fourth, with a clause of its own, closes the lot.";
    let chunks = chunk_text(
        text,
        budget(FIRST_CHUNK_PHONEMES),
        budget(CHUNK_PHONEMES),
        &mut phonemize,
    )
    .unwrap();
    assert!(chunks.len() > 1);
    assert_phonemes_match(&chunks);
}

#[test]
fn real_phonemes_fit_the_model_context() {
    let mut phonemize = |text: &str| speak(text);
    let text = "The port keeps the same chunk boundaries as the original. \
                Sentences are packed greedily, so a short one rides along \
                with its neighbour, and a long one, full of clauses, is \
                broken at the commas rather than between two arbitrary \
                words. Numbers such as 1234567 expand several-fold into \
                phonemes, which is exactly why the budget is counted there \
                and not in characters. That is the whole idea.";
    let chunks = chunk_text(
        text,
        budget(FIRST_CHUNK_PHONEMES),
        budget(CHUNK_PHONEMES),
        &mut phonemize,
    )
    .unwrap();

    for chunk in &chunks {
        assert!(
            nchars(&chunk.phonemes) <= MAX_PHONEME_LENGTH,
            "{} phonemes",
            nchars(&chunk.phonemes)
        );
        // The carried phonemes must be what the chunk's text phonemises to, since that
        // is what the synthesiser will speak.
        assert_eq!(chunk.phonemes, speak(&chunk.text).unwrap());
    }

    let spoken: Vec<&str> = chunks.iter().flat_map(|c| c.text.split_whitespace()).collect();
    assert_eq!(spoken, text.split_whitespace().collect::<Vec<_>>());
}

#[test]
fn a_failing_phonemiser_stops_the_chunking() {
    let mut asked: Vec<String> = Vec::new();
    let mut phonemize = |text: &str| {
        asked.push(text.to_string());
        if text == "Two." { Err("no voice for two".to_string()) } else { Ok(text.to_string()) }
    };
    let r = chunk_text("One. Two. Three.", budget(10), budget(10), &mut phonemize);
    assert_eq!(r, Err("no voice for two".to_string()));
    assert_eq!(asked, ["One.", "Two."]);
}

#[test]
fn each_fitting_sentence_is_phonemised_once() {
    let mut asked: Vec<String> = Vec::new();
    let mut phonemize = |text: &str| {
        asked.push(text.to_string());
        Ok::<String, String>(text.to_string())
    };
    let text = "One. Two!\nThree? Four";
    let chunks = chunk_text(text, budget(9), budget(12), &mut phonemize).unwrap();
    assert_eq!(texts(chunks), ["One. Two!", "Three? Four"]);
    assert_eq!(asked, ["One.", "Two!", "Three?", "Four"]);
}

#[test]
fn chunks_hold_every_letter_in_order() {
    let text = "First one, here.  Second: \"two\"!\n\n third without an end\nand more; of it";
    let letters = |s: &str| s.chars().filter(|c| !c.is_whitespace()).collect::<String>();
    for limit in [1, 3, 7, 20, 100] {
        assert_eq!(letters(&capped(text, limit).concat()), letters(text));
        assert_eq!(letters(&chunks(text, limit).concat()), letters(text));
    }
}

#[test]
fn chunks_have_no_white_space_around_them() {
    for chunk in capped("  a b c.  d, e f;\n g \n\n h i j k l m n  ", 5) {
        assert!(!chunk.is_empty());
        assert_eq!(chunk.trim(), chunk);
    }
}

#[test]
fn only_the_first_cap_is_narrow() {
    let first = Budget { phonemes: 100, chars: Some(4) };
    let rest = Budget { phonemes: 100, chars: Some(12) };
    let text = "One. Two. Three. Four. Five.";
    let chunks = texts(chunk_text(text, first, rest, &mut identity()).unwrap());
    assert_eq!(chunks, ["One.", "Two. Three.", "Four. Five."]);
}

#[test]
fn stream_gives_up_waiting_for_a_boundary() {
    let mut stream = ChunkStream::new(budget(10), budget(20), identity());
    assert!(stream.push("123456789").unwrap().is_empty());
    assert_eq!(texts(stream.push("0").unwrap()), ["1234567890"]);
    assert_eq!(stream.flush_at(), 20);
}

#[test]
fn a_stream_hands_over_every_letter() {
    let text = "One, two. Three without\nan end and four! Five; six seven eight nine ten? 11";
    let letters = |s: &str| s.chars().filter(|c| !c.is_whitespace()).collect::<String>();
    for size in [1, 2, 5, 13, 100] {
        let mut stream = ChunkStream::new(budget(10), budget(25), identity());
        let mut all: Vec<String> = Vec::new();
        let chars: Vec<char> = text.chars().collect();
        for piece in chars.chunks(size) {
            all.extend(texts(stream.push(&piece.iter().collect::<String>()).unwrap()));
        }
        all.extend(texts(stream.finish().unwrap()));
        assert_eq!(letters(&all.concat()), letters(text));
    }
}

#[test]
fn only_real_sentence_ends_earn_a_gap() {
    let text = "A sentence, rather a long one; with clauses: several of them.";
    let chunks = chunks(text, 20);
    assert!(chunks.len() > 1);
    for chunk in &chunks[..chunks.len() - 1] {
        assert!(!ends_sentence(chunk), "{chunk:?}");
    }
    assert!(ends_sentence(&chunks[chunks.len() - 1]));
}

#[test]
fn an_initial_is_a_single_letter() {
    assert_eq!(chunks("Plan J. Next one.", 10), ["Plan J. Next one."]);
    assert_eq!(chunks("Plan (J. Next one.", 10), ["Plan (J. Next one."]);
    assert_eq!(chunks("Plan XJ. Next one.", 10), ["Plan XJ.", "Next one."]);
    assert_eq!(chunks("Plan éJ. Next one.", 10), ["Plan éJ.", "Next one."]);
    assert_eq!(chunks("Plan 7J. Next one.", 10), ["Plan 7J.", "Next one."]);
    assert_eq!(chunks("Plan _J. Next one.", 10), ["Plan _J.", "Next one."]);
    // Abbreviations are known in capitals too, and only a dot is ambiguous.
    assert_eq!(chunks("The DR. Next one.", 10), ["The DR. Next one."]);
    assert_eq!(chunks("The DR! Next one.", 10), ["The DR!", "Next one."]);
}

#[test]
fn no_chunk_exceeds_a_character_cap() {
    assert_eq!(capped("aa bb, c", 3), ["aa", "bb,", "c"]);
    assert_eq!(capped("aaaa, b", 3), ["aaa", "a,", "b"]);
    let text = "A first clause, andaverylongwordinthesecond one; then: several short ones, too. \
                Another sentence that goes on without a mark for as long as it can";
    for limit in [1, 2, 3, 5, 8, 13, 21, 34] {
        // However many phonemes there may be, the cap is on the text.
        let cap = Budget { phonemes: 500, chars: Some(limit) };
        let wide = texts(chunk_text(text, cap, cap, &mut identity()).unwrap());
        for chunk in capped(text, limit).iter().chain(&wide) {
            assert!(nchars(chunk) <= limit, "{limit}: {chunk:?}");
        }
    }
}

#[test]
fn nothing_ends_where_nothing_stands() {
    let text: Vec<char> = "Mr. x".chars().collect();
    assert!(is_vetoed(&text, 3));
    assert!(!is_vetoed(&text, 5));
    assert!(!is_vetoed(&text, 0));
    assert!(!is_vetoed(&[], 0));
}

#[test]
fn a_finished_stream_has_nothing_more() {
    let mut stream = ChunkStream::new(budget(10), budget(25), identity());
    assert!(stream.push("one two").unwrap().is_empty());
    assert_eq!(texts(stream.finish().unwrap()), ["one two"]);
    assert!(stream.finish().unwrap().is_empty());
}

#[test]
fn a_first_push_gives_what_splitting_gives() {
    let text = "One, two, three, four. Five and six! Seven";
    let mut stream = ChunkStream::new(budget(10), budget(25), identity());
    let pushed = stream.push(text).unwrap();
    let released = "One, two, three, four. Five and six!";
    let split = chunk_text(released, budget(10), budget(25), &mut identity()).unwrap();
    assert!(split.len() > 1);
    assert_eq!(pushed, split);
}

#[test]
fn the_last_sentence_needs_no_mark() {
    let mut phonemize = |text: &str| speak(text);
    let text = "I have read it. And then again I read";
    let chunks = chunk_text(text, budget(100), budget(100), &mut phonemize).unwrap();
    assert_eq!(chunks.len(), 1);
    assert_phonemes_match(&chunks);
}

#[test]
fn chunks_hold_every_word_in_order() {
    let text = "Well, one: two; three\u{2014} four. Five\tsix!\n\n seven  eight, a.b c,d e\u{2026} f";
    for limit in [1, 5, 10, 30, 200] {
        let joined = chunks(text, limit).join(" ");
        let spoken: Vec<&str> = joined.split_whitespace().collect();
        assert_eq!(spoken, text.split_whitespace().collect::<Vec<_>>());
    }
}

#[test]
fn joining_at_marks_that_the_model_does_not_know_keeps_the_phonemes_honest() {
    let mut phonemize = |text: &str| speak(text);
    for text in [
        "Hola. \u{bf}Que tal? \u{a1}Bien!",
        "\u{ab}One.\u{bb} [Two]. {Three}!",
        "A heading\nOne. Two.",
    ] {
        let chunks = chunk_text(text, budget(100), budget(100), &mut phonemize).unwrap();
        assert_eq!(chunks.len(), 1);
        if !text.starts_with("A heading") {
            assert_phonemes_match(&chunks);
        }
    }
    // A chunk that is joined at marks is honest whatever the other chunks are.
    let chunks = chunk_text("A heading\nB\nOne. Two.", budget(9), budget(9), &mut phonemize);
    let chunks = chunks.unwrap();
    assert_eq!(texts(chunks.clone()), ["A heading", "B One.", "Two."]);
    assert_phonemes_match(&chunks[2..]);
}
