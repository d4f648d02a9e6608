//! The options, and what is wrong with them.

use vstd::prelude::*;

use crate::chars::{quote, quoted};
use crate::numbers::{decimal, to_decimal};
use crate::phonemes::MAX_PHONEME_LENGTH;
use crate::text::packer::Budget;
use crate::text::{CHUNK_PHONEMES, FIRST_CHUNK_CHARS, FIRST_CHUNK_PHONEMES};

verus! {

/// The voice spoken with unless another one is asked for.
pub const DEFAULT_VOICE: &'static str = "af_heart";

/// The language that the phonemiser is told unless another one is asked for.
pub const DEFAULT_LANG: &'static str = "en-us";

/// The least characters or phonemes that a chunk may be held to.
pub const LEAST_CHUNK: usize = 20;

/// The options that decide what is done.
pub struct Options {
    /// The text to speak; without any, standard input is read.
    pub text: Vec<String>,
    pub voice: String,
    pub list_voices: bool,
    pub list_devices: bool,
    pub chunk_chars: Option<usize>,
    pub chunk_phonemes: usize,
    /// Whether the speech rate is one that the model is good for.
    pub speed_in_range: bool,
    /// Whether the silence between sentences is to be less than none.
    pub gap_is_negative: bool,
}

/// What is wrong with the options.
#[derive(Debug, Clone, Copy, PartialEq, Eq, Structural)]
pub enum UsageError {
    Speed,
    FewChars,
    FewPhonemes,
    ManyPhonemes,
    Gap,
    UnknownVoice,
    NoText,
}

/// What is wrong with the options, if anything: of several things the first.
pub open spec fn fault_of(options: Options) -> Option<UsageError> {
    if !options.speed_in_range {
        Some(UsageError::Speed)
    } else if options.chunk_chars matches Some(n) && n < LEAST_CHUNK {
        Some(UsageError::FewChars)
    } else if options.chunk_phonemes < LEAST_CHUNK {
        Some(UsageError::FewPhonemes)
    } else if options.chunk_phonemes > MAX_PHONEME_LENGTH {
        Some(UsageError::ManyPhonemes)
    } else if options.gap_is_negative {
        Some(UsageError::Gap)
    } else {
        None
    }
}

/// The budgets for the first chunk and for every later one.
pub open spec fn budgets_of(chunk_chars: Option<usize>, chunk_phonemes: usize) -> (Budget, Budget) {
    (
        Budget {
            phonemes: if FIRST_CHUNK_PHONEMES < chunk_phonemes {
                FIRST_CHUNK_PHONEMES
            } else {
                chunk_phonemes
            },
            chars: match chunk_chars {
                Some(n) => Some(
                    if FIRST_CHUNK_CHARS < n {
                        FIRST_CHUNK_CHARS
                    } else {
                        n
                    },
                ),
                None => None,
            },
        },
        Budget { phonemes: chunk_phonemes, chars: chunk_chars },
    )
}

impl Options {
    /// The options without any being given.
    pub fn defaults() -> (r: Self)
        ensures
            r.text@.len() == 0,
            r.voice@ == DEFAULT_VOICE@,
            !r.list_voices && !r.list_devices,
            r.chunk_chars is None,
            r.chunk_phonemes == CHUNK_PHONEMES,
            r.speed_in_range && !r.gap_is_negative,
            fault_of(r) is None,
    {
        Options {
            text: Vec::new(),
            voice: DEFAULT_VOICE.to_owned(),
            list_voices: false,
            list_devices: false,
            chunk_chars: None,
            chunk_phonemes: CHUNK_PHONEMES,
            speed_in_range: true,
            gap_is_negative: false,
        }
    }

    /// What is wrong with the options, if anything.
    pub fn fault(&self) -> (r: Option<UsageError>)
        ensures
            r == fault_of(*self),
    {
        if !self.speed_in_range {
            return Some(UsageError::Speed);
        }
        if let Some(n) = self.chunk_chars {
            if n < LEAST_CHUNK {
                return Some(UsageError::FewChars);
            }
        }
        if self.chunk_phonemes < LEAST_CHUNK {
            Some(UsageError::FewPhonemes)
        } else if self.chunk_phonemes > MAX_PHONEME_LENGTH {
            Some(UsageError::ManyPhonemes)
        } else if self.gap_is_negative {
            Some(UsageError::Gap)
        } else {
            None
        }
    }

    /// The budgets for the first chunk, which is deliberately short so that sound
    /// starts quickly, and for every later one.
    pub fn budgets(&self) -> (r: (Budget, Budget))
        ensures
            r == budgets_of(self.chunk_chars, self.chunk_phonemes),
    {
        let first = Budget {
            phonemes: if FIRST_CHUNK_PHONEMES < self.chunk_phonemes {
                FIRST_CHUNK_PHONEMES
            } else {
                self.chunk_phonemes
            },
            chars: match self.chunk_chars {
                Some(n) => Some(
                    if FIRST_CHUNK_CHARS < n {
                        FIRST_CHUNK_CHARS
                    } else {
                        n
                    },
                ),
                None => None,
            },
        };
        (first, Budget { phonemes: self.chunk_phonemes, chars: self.chunk_chars })
    }
}

impl UsageError {
    /// What the user is told.
    pub open spec fn text_of(self, voice: Seq<char>) -> Seq<char> {
        match self {
            UsageError::Speed => "--speed must be between 0.5 and 2.0"@,
            UsageError::FewChars => "--chunk-chars must be at least "@ + decimal(
                LEAST_CHUNK as nat,
            ),
            UsageError::FewPhonemes => "--chunk-phonemes must be at least "@ + decimal(
                LEAST_CHUNK as nat,
            ),
            UsageError::ManyPhonemes => "--chunk-phonemes cannot exceed "@ + decimal(
                MAX_PHONEME_LENGTH as nat,
            ),
            UsageError::Gap => "--gap cannot be negative"@,
            UsageError::UnknownVoice => "unknown voice "@ + quoted(voice)
                + " (try --list-voices)"@,
            UsageError::NoText =>
                "no text given; pass it as an argument or pipe it in (kokoro-rs --help)"@,
        }
    }

    /// What the user is told, `voice` being the one asked for.
    pub fn message(&self, voice: &str) -> (r: String)
        ensures
            r@ == self.text_of(voice@),
    {
        match self {
            UsageError::Speed => "--speed must be between 0.5 and 2.0".to_owned(),
            UsageError::FewChars => {
                let mut text = "--chunk-chars must be at least ".to_owned();
                text.append(&to_decimal(LEAST_CHUNK as u64));
                text
            },
            UsageError::FewPhonemes => {
                let mut text = "--chunk-phonemes must be at least ".to_owned();
                text.append(&to_decimal(LEAST_CHUNK as u64));
                text
            },
            UsageError::ManyPhonemes => {
                let mut text = "--chunk-phonemes cannot exceed ".to_owned();
                text.append(&to_decimal(MAX_PHONEME_LENGTH as u64));
                text
            },
            UsageError::Gap => "--gap cannot be negative".to_owned(),
            UsageError::UnknownVoice => {
                let mut text = "unknown voice ".to_owned();
                text.append(&quote(voice));
                text.append(" (try --list-voices)");
                text
            },
            UsageError::NoText =>
                "no text given; pass it as an argument or pipe it in (kokoro-rs --help)".to_owned(),
        }
    }
}

/// Options are in order exactly where the speech rate is in range, the character cap, where
/// there is one, and the phonemes of a chunk are twenty or more, the phonemes no more than
/// the model reads, and the gap is not negative.
pub proof fn options_in_order_are_accepted(options: Options)
    ensures
        fault_of(options) is None <==> {
            &&& options.speed_in_range
            &&& options.chunk_chars matches Some(n) ==> n >= 20
            &&& 20 <= options.chunk_phonemes <= 510
            &&& !options.gap_is_negative
        },
{
}

/// What is said to be wrong with the options is wrong with them, and it is the first thing
/// that is.
pub proof fn the_first_fault_is_told(options: Options)
    ensures
        fault_of(options) == Some(UsageError::Speed) <==> !options.speed_in_range,
        fault_of(options) == Some(UsageError::FewChars) <==> options.speed_in_range && (
        options.chunk_chars matches Some(n) && n < 20),
        fault_of(options) matches Some(e) && e != UsageError::Speed && e != UsageError::FewChars
            ==> options.speed_in_range && (options.chunk_chars matches Some(n) ==> n >= 20),
        fault_of(options) == Some(UsageError::FewPhonemes) ==> options.chunk_phonemes < 20,
        fault_of(options) == Some(UsageError::ManyPhonemes) ==> options.chunk_phonemes > 510,
        fault_of(options) == Some(UsageError::Gap) ==> options.gap_is_negative && 20
            <= options.chunk_phonemes <= 510,
        fault_of(options) != Some(UsageError::UnknownVoice),
        fault_of(options) != Some(UsageError::NoText),
{
}

/// Every chunk but the first is held to what was asked for, and the first one to that or to
/// what gets sound started, whichever is less.
pub proof fn only_the_first_chunk_is_kept_short(chunk_chars: Option<usize>, chunk_phonemes: usize)
    ensures
        ({
            let (first, rest) = budgets_of(chunk_chars, chunk_phonemes);
            &&& rest.phonemes == chunk_phonemes
            &&& rest.chars == chunk_chars
            &&& first.phonemes <= chunk_phonemes
            &&& first.phonemes <= FIRST_CHUNK_PHONEMES
            &&& first.phonemes == chunk_phonemes || first.phonemes == FIRST_CHUNK_PHONEMES
            &&& first.chars is Some <==> chunk_chars is Some
            &&& first.chars matches Some(n) ==> {
                &&& n <= chunk_chars->Some_0
                &&& n <= FIRST_CHUNK_CHARS
                &&& n == chunk_chars->Some_0 || n == FIRST_CHUNK_CHARS
            }
        }),
{
}

} // verus!
