use kokoro_rs::punctuation::{
    phonemize_preserving, preserve, preserve_line, restore, Position, Preserved,
};

/// A stand-in backend: uppercases each word so the structure is visible.
fn fake(chunk: &str) -> Result<String, String> {
    Ok(chunk
        .split_whitespace()
        .map(|w| w.to_uppercase())
        .collect::<Vec<_>>()
        .join(" "))
}

fn run(text: &str) -> String {
    phonemize_preserving(text, fake).unwrap()
}

#[test]
fn restores_a_trailing_mark() {
    assert_eq!(run("Hello from Rust."), "HELLO FROM RUST. ");
}

#[test]
fn restores_marks_between_sentences() {
    // The inner ". " keeps its space; the final "." gains a word separator.
    assert_eq!(run("One. Two."), "ONE. TWO. ");
}

#[test]
fn splits_and_rejoins_around_inner_marks() {
    assert_eq!(run("hello, my world!"), "HELLO, MY WORLD! ");
}

#[test]
fn handles_a_leading_mark() {
    assert_eq!(run("\"quoted\" text"), "\"QUOTED\" TEXT ");
}

#[test]
fn handles_text_that_is_only_punctuation() {
    // Nothing reaches the backend; the marks are returned on their own.
    assert_eq!(run("!?!"), "!?!");
}

#[test]
fn blank_input_yields_nothing() {
    assert_eq!(run("   "), "");
}

#[test]
fn marks_capture_surrounding_whitespace() {
    let (chunks, marks) = preserve_line("a, b", 0);
    assert_eq!(chunks, ["a", "b"]);
    assert_eq!(marks.len(), 1);
    assert_eq!(marks[0].mark, ", ");
    assert_eq!(marks[0].position, Position::Inner);
}

#[test]
fn marks_know_where_they_sat() {
    let (chunks, marks) = preserve_line("(a, b)", 3);
    assert_eq!(chunks, ["", "a", "b", ""]);
    let places: Vec<Position> = marks.iter().map(|m| m.position).collect();
    assert_eq!(places, [Position::Begin, Position::Inner, Position::End]);
    assert!(marks.iter().all(|m| m.index == 3));

    let (chunks, marks) = preserve_line("?!", 0);
    assert!(chunks.is_empty());
    assert_eq!(marks[0].position, Position::Alone);
}

#[test]
fn restoring_reverses_preserving() {
    for text in ["hello, my world!", "(one) two; three", "plain words", "\"a\" - b."] {
        let Preserved { chunks, marks } = preserve(&vec![text.to_string()]);
        let worded = chunks.iter().map(|c| format!("{c} ")).collect();
        assert_eq!(restore(worded, marks, " "), [format!("{text} ")]);
    }
}

#[test]
fn restoring_keeps_lines_apart() {
    let Preserved { chunks, marks } = preserve(&vec!["one, two.".to_string(), "three!".to_string()]);
    assert_eq!(chunks, ["one", "two", "three"]);
    let worded = chunks.iter().map(|c| format!("{c} ")).collect();
    assert_eq!(restore(worded, marks, " "), ["one, two. ", "three! "]);
}

#[test]
fn a_failing_backend_stops_the_phonemising() {
    let mut asked: Vec<String> = Vec::new();
    let r = phonemize_preserving("a, b, c", |part: &str| {
        asked.push(part.to_string());
        if part == "b" { Err("cannot say b") } else { Ok(part.to_string()) }
    });
    assert_eq!(r, Err("cannot say b"));
    assert_eq!(asked, ["a", "b"]);
}

#[test]
fn texts_that_a_mark_parts_are_phonemised_alike() {
    for (a, b) in [("One two.", "Three"), ("a, b;", "(c) d"), ("what?", "no!")] {
        let both = run(&format!("{a} {b}"));
        assert_eq!(both.trim(), format!("{} {}", run(a).trim(), run(b).trim()));
    }
}

#[test]
fn restoring_undoes_preserving_the_bare_texts() {
    for text in [
        "",
        "   ",
        "?! ...",
        " ( ) ",
        "hello, my world!",
        "  hello ,  my world !  ",
        "\"one\" two  ",
        "(one  ",
        "plain words ",
        "a, b,c",
    ] {
        let Preserved { chunks, marks } = preserve(&vec![text.to_string()]);
        assert_eq!(restore(chunks, marks, " ").concat().trim_end(), text.trim_end());
    }
}

#[test]
fn halves_that_a_mark_parts_are_phonemised_apart() {
    for (a, b) in [
        ("One two.", "Three"),
        ("(a, b;", "c d!"),
        ("\"what\" now?", "no, \"never\"  "),
        ("x...", "y"),
    ] {
        assert_eq!(run(&format!("{a} {b}")), run(a) + &run(b));
        // Even where the answers end with a separator of their own.
        let spaced = |text: &str| {
            phonemize_preserving(text, |part: &str| Ok::<_, String>(format!("{part} "))).unwrap()
        };
        assert_eq!(spaced(&format!("{a} {b}")), spaced(a) + &spaced(b));
    }
}
