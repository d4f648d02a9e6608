use kokoro_rs::cli::options::{Options, UsageError};
use kokoro_rs::cli::run::{Action, Event, Run};
use kokoro_rs::cli::speaker::{after_close, Ending, Play, Speaker, NOTHING_TO_SPEAK};
use kokoro_rs::cli::{INTERRUPTED, NOTHING_SPOKEN, OK, USAGE};

#[test]
fn exit_codes_are_told_apart() {
    assert_eq!((OK, NOTHING_SPOKEN, USAGE, INTERRUPTED), (0, 1, 2, 130));
    assert_eq!(NOTHING_TO_SPEAK, "no speakable text in input");
}

#[test]
fn options_are_checked_in_order() {
    let mut options = Options::defaults();
    assert_eq!(options.fault(), None);
    assert_eq!(options.voice, "af_heart");
    assert_eq!(options.chunk_phonemes, 500);
    options.gap_is_negative = true;
    assert_eq!(options.fault(), Some(UsageError::Gap));
    options.chunk_phonemes = 511;
    assert_eq!(options.fault(), Some(UsageError::ManyPhonemes));
    options.chunk_phonemes = 19;
    assert_eq!(options.fault(), Some(UsageError::FewPhonemes));
    options.chunk_chars = Some(19);
    assert_eq!(options.fault(), Some(UsageError::FewChars));
    options.speed_in_range = false;
    assert_eq!(options.fault(), Some(UsageError::Speed));
    let limits = Options { chunk_phonemes: 510, chunk_chars: Some(20), ..Options::defaults() };
    assert_eq!(limits.fault(), None);
}

#[test]
fn usage_errors_say_what_is_wrong() {
    let texts: Vec<String> = [
        UsageError::Speed,
        UsageError::FewChars,
        UsageError::FewPhonemes,
        UsageError::ManyPhonemes,
        UsageError::Gap,
        UsageError::UnknownVoice,
        UsageError::NoText,
    ]
    .iter()
    .map(|e| e.message("a\tb"))
    .collect();
    assert_eq!(
        texts,
        [
            "--speed must be between 0.5 and 2.0",
            "--chunk-chars must be at least 20",
            "--chunk-phonemes must be at least 20",
            "--chunk-phonemes cannot exceed 510",
            "--gap cannot be negative",
            "unknown voice \"a\\tb\" (try --list-voices)",
            "no text given; pass it as an argument or pipe it in (kokoro-rs --help)",
        ]
    );
}

#[test]
fn the_first_budget_is_narrow() {
    let (first, rest) = Options::defaults().budgets();
    assert_eq!((first.phonemes, first.chars), (100, None));
    assert_eq!((rest.phonemes, rest.chars), (500, None));
    let options = Options { chunk_phonemes: 50, chunk_chars: Some(300), ..Options::defaults() };
    let (first, rest) = options.budgets();
    assert_eq!((first.phonemes, first.chars), (50, Some(100)));
    assert_eq!((rest.phonemes, rest.chars), (50, Some(300)));
    let options = Options { chunk_chars: Some(30), ..Options::defaults() };
    assert_eq!(options.budgets().0.chars, Some(30));
}

#[test]
fn a_run_speaks_its_arguments() {
    let mut run = Run::new(Options {
        text: vec!["hello".to_string(), "there".to_string()],
        ..Options::defaults()
    });
    assert!(run.awaits(&Event::Begin));
    assert!(matches!(run.next(Event::Begin), Action::PrepareFiles));
    assert!(!run.awaits(&Event::Begin));
    assert!(matches!(run.next(Event::FilesReady { interrupted: false }), Action::LoadModel));
    // A terminal does not matter where there is text.
    let loaded = Event::Loaded { has_voice: true, terminal: true };
    assert!(matches!(run.next(loaded), Action::Push(text) if text == "hello there"));
    assert!(matches!(run.next(Event::Spoken { interrupted: false }), Action::Finish));
    assert!(matches!(run.next(Event::Spoken { interrupted: false }), Action::End));
    assert!(!run.awaits(&Event::Spoken { interrupted: false }));
}

#[test]
fn a_run_speaks_lines_as_they_arrive() {
    let mut run = Run::new(Options::defaults());
    run.next(Event::Begin);
    run.next(Event::FilesReady { interrupted: false });
    let loaded = Event::Loaded { has_voice: true, terminal: false };
    assert!(matches!(run.next(loaded), Action::ReadLine));
    let line = Event::Read(Some("one.".to_string()));
    assert!(matches!(run.next(line), Action::Push(text) if text == "one.\n"));
    assert!(matches!(run.next(Event::Spoken { interrupted: false }), Action::ReadLine));
    assert!(matches!(run.next(Event::Read(None)), Action::Finish));
    assert!(matches!(run.next(Event::Spoken { interrupted: false }), Action::End));
}

#[test]
fn an_interrupt_ends_a_run() {
    let mut run = Run::new(Options::defaults());
    run.next(Event::Begin);
    assert!(matches!(
        run.next(Event::FilesReady { interrupted: true }),
        Action::Exit(INTERRUPTED)
    ));
    let mut run = Run::new(Options::defaults());
    run.next(Event::Begin);
    run.next(Event::FilesReady { interrupted: false });
    run.next(Event::Loaded { has_voice: true, terminal: false });
    run.next(Event::Read(Some(String::new())));
    assert!(matches!(run.next(Event::Spoken { interrupted: true }), Action::End));
}

#[test]
fn a_run_lists_or_refuses() {
    // Devices are listed whatever the other options are.
    let mut run = Run::new(Options {
        list_devices: true,
        speed_in_range: false,
        ..Options::defaults()
    });
    assert!(matches!(run.next(Event::Begin), Action::ListDevices));
    assert!(matches!(run.next(Event::Listed), Action::Exit(OK)));

    let mut run = Run::new(Options { gap_is_negative: true, ..Options::defaults() });
    assert!(matches!(run.next(Event::Begin), Action::Refuse(UsageError::Gap)));

    let mut run = Run::new(Options { list_voices: true, ..Options::defaults() });
    run.next(Event::Begin);
    run.next(Event::FilesReady { interrupted: false });
    let loaded = Event::Loaded { has_voice: false, terminal: true };
    assert!(matches!(run.next(loaded), Action::ListVoices));
    assert!(matches!(run.next(Event::Listed), Action::Exit(OK)));

    for (has_voice, error) in [(false, UsageError::UnknownVoice), (true, UsageError::NoText)] {
        let mut run = Run::new(Options::defaults());
        run.next(Event::Begin);
        run.next(Event::FilesReady { interrupted: false });
        match run.next(Event::Loaded { has_voice, terminal: true }) {
            Action::Refuse(e) => assert_eq!(e, error),
            other => panic!("{other:?}"),
        }
    }
}

#[test]
fn gaps_come_after_sentences_only() {
    let mut speaker = Speaker::new();
    let gap = Some(2880);
    assert!(speaker.begin(false));
    assert_eq!(
        speaker.play(false, 100, "a clause,", gap),
        Play::Write { open: true, gap: None }
    );
    assert_eq!(
        speaker.play(false, 100, "and its end.", gap),
        Play::Write { open: false, gap: None }
    );
    // A chunk without audio leaves the gap that is due.
    assert_eq!(speaker.play(false, 0, "***", gap), Play::Skip);
    assert_eq!(
        speaker.play(false, 10, "Next", gap),
        Play::Write { open: false, gap }
    );
    assert_eq!(speaker.spoken(), 210 + 2880);
    assert_eq!(
        speaker.play(false, 10, "\"Done!\"", gap),
        Play::Write { open: false, gap: None }
    );
    assert_eq!(
        speaker.play(false, 10, "more", None),
        Play::Write { open: false, gap: None }
    );
}

#[test]
fn speaking_ends_as_it_went() {
    let mut speaker = Speaker::new();
    assert_eq!(speaker.finish(false), Ending::Nothing(NOTHING_SPOKEN));
    assert_eq!(speaker.finish(true), Ending::Exit(INTERRUPTED));
    speaker.play(false, 1, "x", None);
    assert_eq!(speaker.finish(false), Ending::Close);
    assert_eq!(speaker.finish(true), Ending::Close);
    assert_eq!(speaker.play(true, 1, "x", None), Play::Stop);
    assert!(speaker.is_interrupted());
    assert_eq!(speaker.finish(false), Ending::Stop(INTERRUPTED));

    let mut speaker = Speaker::new();
    assert!(!speaker.begin(true));
    assert_eq!(speaker.finish(false), Ending::Exit(INTERRUPTED));
    assert_eq!(after_close(false), OK);
    assert_eq!(after_close(true), INTERRUPTED);
}

#[test]
fn refused_options_are_an_error_of_usage() {
    let mut run = Run::new(Options { gap_is_negative: true, ..Options::defaults() });
    assert_eq!(run.next(Event::Begin).exit_code(), Some(USAGE));
    assert_eq!(Action::Exit(INTERRUPTED).exit_code(), Some(INTERRUPTED));
    assert_eq!(Action::ReadLine.exit_code(), None);
    assert_eq!(Action::End.exit_code(), None);
}

#[test]
fn a_gap_is_due_after_the_last_sentence_that_sounded() {
    let gap = Some(7);
    let mut speaker = Speaker::new();
    for (frames, text, due) in [
        (5, "One.", None),
        (0, "a clause,", None),
        (5, "two,", gap),
        (0, "Three.", None),
        (5, "four", None),
        (5, "Five?", None),
        (5, "six", gap),
    ] {
        match speaker.play(false, frames, text, gap) {
            Play::Skip => assert_eq!(frames, 0),
            Play::Write { gap, .. } => assert_eq!(gap, due, "{text}"),
            Play::Stop => panic!("nothing interrupts"),
        }
    }
}
