//! Running the model.
//!
//! The model itself is run by the caller, as is the measuring of how loud its audio
//! is: what a sample is made of is nothing to the logic here.

use vstd::prelude::*;

use crate::chars::{contents, nchars, quote, quoted, to_chars};
use crate::phonemes::{
    is_phonemized, phonemize, speaks_any, tokenize, tokens, MAX_PHONEME_LENGTH,
};
use crate::synth::{batches, split_phonemes};
use crate::trim::{audible, frames_in, trim};
use crate::voices::{has_vector, rank, style_of, Rank, StyleArray, StyleError, Voices};

verus! {

/// The token the model expects either side of the phonemes.
pub const PAD: i64 = 0;

/// The name that newer exports of the model give the token input.
pub const TOKEN_INPUT: &'static str = "input_ids";

/// The name that older exports of the model give the token input.
pub const OLD_TOKEN_INPUT: &'static str = "tokens";

/// What the model is run on.
pub struct ModelInput<T> {
    pub tokens: Vec<i64>,
    pub style: Vec<T>,
}

/// The contents of a [`ModelInput`].
#[verifier::ext_equal]
pub struct Input<T> {
    pub tokens: Seq<i64>,
    pub style: Seq<T>,
}

impl<T> View for ModelInput<T> {
    type V = Input<T>;

    open spec fn view(&self) -> Input<T> {
        Input { tokens: self.tokens@, style: self.style@ }
    }
}

/// Why there is no audio.
#[derive(Debug)]
pub enum SynthError<E> {
    /// The voice has no style vector to give.
    Style(StyleError),
    /// The phonemiser or the model failed.
    Backend(E),
    /// The model returned no audio for these phonemes.
    NoAudio(String),
}

/// The contents of a [`SynthError`].
pub enum Fault<E> {
    Style(StyleError),
    Backend(E),
    NoAudio(Seq<char>),
}

/// What synthesising came to.
pub open spec fn audio_heard<T, E>(r: Result<Vec<T>, SynthError<E>>) -> Result<Seq<T>, Fault<E>> {
    match r {
        Ok(audio) => Ok(audio@),
        Err(SynthError::Style(e)) => Err(Fault::Style(e)),
        Err(SynthError::Backend(e)) => Err(Fault::Backend(e)),
        Err(SynthError::NoAudio(phonemes)) => Err(Fault::NoAudio(phonemes@)),
    }
}

/// What the user is told where the model returned no audio for `phonemes`.
pub open spec fn no_audio_text(phonemes: Seq<char>) -> Seq<char> {
    "the model returned no audio for "@ + quoted(phonemes)
}

/// What the user is told where the model returned no audio for `phonemes`.
pub fn no_audio_message(phonemes: &str) -> (r: String)
    ensures
        r@ == no_audio_text(phonemes@),
{
    let mut text = "the model returned no audio for ".to_owned();
    text.append(&quote(phonemes));
    text
}

/// Tokens with a pad either side of them.
pub open spec fn padded(ids: Seq<i64>) -> Seq<i64> {
    seq![PAD] + ids + seq![PAD]
}

/// What the model is run on for `phonemes`: their tokens, padded, and the style
/// that the voice has for that many of them. There is nothing to run it on where no
/// token is left.
pub open spec fn input_of<T>(
    voices: Map<Seq<char>, StyleArray<T>>,
    phonemes: Seq<char>,
    voice: Seq<char>,
) -> Result<Option<Input<T>>, StyleError> {
    let ids = tokens(phonemes);
    if ids.len() == 0 {
        Ok(None)
    } else {
        match style_of(voices, voice, ids.len() as int) {
            Ok(style) => Ok(Some(Input { tokens: padded(ids), style })),
            Err(e) => Err(e),
        }
    }
}

/// Whether the batches `list` can be spoken: the voice has a vector to give where any token
/// is left of them.
pub open spec fn can_speak<T>(
    voices: Map<Seq<char>, StyleArray<T>>,
    list: Seq<Seq<char>>,
    voice: Seq<char>,
) -> bool {
    forall|k: int|
        0 <= k < list.len() && tokens(#[trigger] list[k]).len() > 0 ==> has_vector(voices, voice)
}

/// What running the model came to.
pub open spec fn run_heard<T, E>(r: Result<Vec<T>, E>) -> Result<Seq<T>, E> {
    match r {
        Ok(audio) => Ok(audio@),
        Err(e) => Err(e),
    }
}

/// Whether `run` may answer `reply` for `input`.
pub open spec fn may_run<T, E, M>(run: M, input: Input<T>, reply: Result<Seq<T>, E>) -> bool
    where M: FnMut(&ModelInput<T>) -> Result<Vec<T>, E>
{
    exists|asked: &ModelInput<T>, answer: Result<Vec<T>, E>|
        asked@ == input && #[trigger] call_ensures(run, (asked,), answer) && reply
            == run_heard(answer)
}

/// Whether `run` can be asked for any input.
pub open spec fn runs_any<T, E, M>(run: M) -> bool
    where M: FnMut(&ModelInput<T>) -> Result<Vec<T>, E>
{
    forall|input: &ModelInput<T>| #[trigger] call_requires(run, (input,))
}

/// Whether `hear` may say of the frames of `audio` that those in `loud` are heard.
pub open spec fn may_hear<T, H>(hear: H, audio: Seq<T>, loud: Seq<bool>) -> bool
    where H: FnMut(&Vec<T>) -> Vec<bool>
{
    exists|asked: &Vec<T>, answer: Vec<bool>|
        asked@ == audio && #[trigger] call_ensures(hear, (asked,), answer) && answer@ == loud
}

/// Whether `hear` can be asked for any audio, and says something of each frame.
pub open spec fn hears_any<T, H>(hear: H) -> bool
    where H: FnMut(&Vec<T>) -> Vec<bool>
{
    &&& forall|audio: &Vec<T>| #[trigger] call_requires(hear, (audio,))
    &&& forall|audio: &Vec<T>, loud: Vec<bool>| #[trigger]
        call_ensures(hear, (audio,), loud) ==> loud@.len() == frames_in(audio@.len() as int)
}

/// What is made of the model's answer for `phonemes`. The model always has something
/// to say, so no audio is an error.
pub open spec fn answered<T, E>(reply: Result<Seq<T>, E>, phonemes: Seq<char>) -> Result<
    Seq<T>,
    Fault<E>,
> {
    match reply {
        Err(e) => Err(Fault::Backend(e)),
        Ok(audio) => if audio.len() == 0 {
            Err(Fault::NoAudio(phonemes))
        } else {
            Ok(audio)
        },
    }
}

/// Whether running the model on `input`, which was made of `phonemes`, may come to
/// `r`.
pub open spec fn may_give<T, E, M>(
    run: M,
    input: Input<T>,
    phonemes: Seq<char>,
    r: Result<Seq<T>, Fault<E>>,
) -> bool
    where M: FnMut(&ModelInput<T>) -> Result<Vec<T>, E>
{
    exists|reply: Result<Seq<T>, E>| #[trigger]
        may_run(run, input, reply) && r == answered(reply, phonemes)
}

/// Whether `r` is what `phonemes`, as they stand, may be synthesised to.
pub open spec fn is_synthesis<T, E, M>(
    run: M,
    voices: Map<Seq<char>, StyleArray<T>>,
    phonemes: Seq<char>,
    voice: Seq<char>,
    r: Result<Seq<T>, Fault<E>>,
) -> bool
    where M: FnMut(&ModelInput<T>) -> Result<Vec<T>, E>
{
    match input_of(voices, phonemes, voice) {
        Err(e) => r == Err::<Seq<T>, Fault<E>>(Fault::Style(e)),
        Ok(None) => r == Ok::<Seq<T>, Fault<E>>(Seq::empty()),
        Ok(Some(input)) => may_give(run, input, phonemes, r),
    }
}

/// Whether `r` is what one batch of phonemes may be synthesised to, the silence
/// around it gone.
pub open spec fn is_batch_audio<T, E, M, H>(
    run: M,
    hear: H,
    voices: Map<Seq<char>, StyleArray<T>>,
    batch: Seq<char>,
    voice: Seq<char>,
    r: Result<Seq<T>, Fault<E>>,
) -> bool
    where M: FnMut(&ModelInput<T>) -> Result<Vec<T>, E>, H: FnMut(&Vec<T>) -> Vec<bool>
{
    match r {
        Err(e) => is_synthesis(run, voices, batch, voice, Err::<Seq<T>, Fault<E>>(e)),
        Ok(part) => exists|audio: Seq<T>, loud: Seq<bool>|
            {
                let range = audible(audio.len() as int, loud);
                &&& is_synthesis(run, voices, batch, voice, Ok::<Seq<T>, Fault<E>>(audio))
                &&& #[trigger] may_hear(hear, audio, loud)
                &&& part == audio.subrange(range.0, range.1)
            },
    }
}

/// The batches that phonemes are spoken in: those that fit the model's context are one
/// batch as they stand.
pub open spec fn spoken_batches(phonemes: Seq<char>) -> Seq<Seq<char>> {
    if phonemes.len() <= MAX_PHONEME_LENGTH {
        seq![phonemes]
    } else {
        batches(phonemes)
    }
}

/// Whether `r` is what the batches `list` may be synthesised to: the audio of each, one
/// after the other, up to the first one that fails.
pub open spec fn is_audio<T, E, M, H>(
    run: M,
    hear: H,
    voices: Map<Seq<char>, StyleArray<T>>,
    list: Seq<Seq<char>>,
    voice: Seq<char>,
    r: Result<Seq<T>, Fault<E>>,
) -> bool
    where M: FnMut(&ModelInput<T>) -> Result<Vec<T>, E>, H: FnMut(&Vec<T>) -> Vec<bool>
{
    exists|parts: Seq<Seq<T>>|
        {
            &&& parts.len() <= list.len()
            &&& forall|k: int|
                0 <= k < parts.len() ==> is_batch_audio(
                    run,
                    hear,
                    voices,
                    list[k],
                    voice,
                    Ok::<Seq<T>, Fault<E>>(#[trigger] parts[k]),
                )
            &&& match r {
                Ok(audio) => parts.len() == list.len() && audio == #[trigger] parts.flatten(),
                Err(e) => parts.len() < list.len() && is_batch_audio(
                    run,
                    hear,
                    voices,
                    list[parts.len() as int],
                    voice,
                    Err::<Seq<T>, Fault<E>>(e),
                ),
            }
        }
}

/// The name of the model's token input: the newer one where `inputs` has it.
pub open spec fn token_input_of(inputs: Seq<Seq<char>>) -> Seq<char> {
    if inputs.contains(TOKEN_INPUT@) {
        TOKEN_INPUT@
    } else {
        OLD_TOKEN_INPUT@
    }
}

/// The voices and what is known of the model, which is run from outside.
pub struct Synthesiser<T> {
    voices: Voices<T>,
    token_input: &'static str,
}

impl<T> Synthesiser<T> {
    /// The voices to speak with.
    pub closed spec fn pack(&self) -> Map<Seq<char>, StyleArray<T>> {
        self.voices@
    }

    /// Whether the voices are well-formed.
    pub closed spec fn wf(&self) -> bool {
        self.voices.wf()
    }

    /// The name of the model's token input.
    pub closed spec fn token_name(&self) -> Seq<char> {
        self.token_input@
    }

    /// Takes up a model with inputs of these names.
    pub fn new(voices: Voices<T>, inputs: &Vec<String>) -> (r: Self)
        requires
            voices.wf(),
        ensures
            r.wf(),
            r.pack() == voices@,
            r.token_name() == token_input_of(contents(inputs@)),
    {
        let wanted = to_chars(TOKEN_INPUT);
        let ghost names = contents(inputs@);
        let mut i: usize = 0;
        while i < inputs.len()
            invariant
                i <= inputs@.len(),
                wanted@ == TOKEN_INPUT@,
                names == contents(inputs@),
                voices.wf(),
                forall|k: int| 0 <= k < i ==> #[trigger] names[k] != TOKEN_INPUT@,
            decreases inputs@.len() - i,
        {
            let name = to_chars(&inputs[i]);
            assert(names[i as int] == name@);
            match rank(&name, &wanted) {
                Rank::Same => {
                    assert(names.contains(TOKEN_INPUT@));
                    return Synthesiser { voices, token_input: TOKEN_INPUT };
                },
                Rank::Before => {
                    proof {
                        crate::voices::lemma_precedes(name@, wanted@);
                    }
                },
                Rank::After => {
                    proof {
                        crate::voices::lemma_precedes(name@, wanted@);
                    }
                },
            }
            i += 1;
        }
        Synthesiser { voices, token_input: OLD_TOKEN_INPUT }
    }

    /// The voices to speak with.
    pub fn voices(&self) -> (r: &Voices<T>)
        requires
            self.wf(),
        ensures
            r.wf(),
            r@ == self.pack(),
    {
        &self.voices
    }

    /// The name of the model's token input.
    pub fn token_input(&self) -> (r: &'static str)
        ensures
            r@ == self.token_name(),
    {
        self.token_input
    }
}

impl<T: Copy> Synthesiser<T> {
    /// What the model is to be run on for `phonemes`, if there is anything.
    pub fn model_input(&self, phonemes: &str, voice: &str) -> (r: Result<
        Option<ModelInput<T>>,
        StyleError,
    >)
        requires
            self.wf(),
            tokens(phonemes@).len() > 0 ==> has_vector(self.pack(), voice@),
        ensures
            match r {
                Err(e) => input_of(self.pack(), phonemes@, voice@) == Err::<Option<Input<T>>, _>(e),
                Ok(None) => input_of(self.pack(), phonemes@, voice@) == Ok::<_, StyleError>(
                    None::<Input<T>>,
                ),
                Ok(Some(input)) => input_of(self.pack(), phonemes@, voice@) == Ok::<_, StyleError>(
                    Some(input@),
                ),
            },
    {
        let mut ids = tokenize(phonemes);
        let ghost all = ids@;
        if ids.len() == 0 {
            return Ok(None);
        }
        // The style vector is chosen by token count, before the padding below.
        match self.voices.style(voice, ids.len()) {
            Err(e) => Err(e),
            Ok(style) => {
                let mut padded_ids: Vec<i64> = Vec::new();
                padded_ids.push(PAD);
                padded_ids.append(&mut ids);
                padded_ids.push(PAD);
                assert(padded_ids@ =~= padded(all));
                Ok(Some(ModelInput { tokens: padded_ids, style }))
            },
        }
    }

    /// Synthesises phonemes that fit the model's context, as they stand.
    pub fn create_from_phonemes<E, M>(&self, phonemes: &str, voice: &str, run: &mut M) -> (r:
        Result<Vec<T>, SynthError<E>>)
        where M: FnMut(&ModelInput<T>) -> Result<Vec<T>, E>
        requires
            self.wf(),
            tokens(phonemes@).len() > 0 ==> has_vector(self.pack(), voice@),
            runs_any(*old(run)),
        ensures
            *final(run) == *old(run),
            is_synthesis(*old(run), self.pack(), phonemes@, voice@, audio_heard(r)),
    {
        let input = match self.model_input(phonemes, voice) {
            Err(e) => {
                return Err(SynthError::Style(e));
            },
            Ok(None) => {
                let none: Vec<T> = Vec::new();
                assert(none@ =~= Seq::empty());
                return Ok(none);
            },
            Ok(Some(input)) => input,
        };
        let reply = run(&input);
        let ghost said = run_heard(reply);
        assert(may_run(*run, input@, said));
        let r = match reply {
            Err(e) => Err(SynthError::Backend(e)),
            Ok(audio) => if audio.len() == 0 {
                Err(SynthError::NoAudio(phonemes.to_owned()))
            } else {
                Ok(audio)
            },
        };
        assert(audio_heard(r) == answered(said, phonemes@));
        assert(may_give(*run, input@, phonemes@, audio_heard(r)));
        r
    }

    /// Synthesises phonemes of any length. Those that fit the model's context, as the
    /// phonemes of a chunk mostly do, are handed to it as they stand.
    pub fn speak<E, M, H>(&self, phonemes: &str, voice: &str, run: &mut M, hear: &mut H) -> (r:
        Result<Vec<T>, SynthError<E>>)
        where M: FnMut(&ModelInput<T>) -> Result<Vec<T>, E>, H: FnMut(&Vec<T>) -> Vec<bool>
        requires
            self.wf(),
            can_speak(self.pack(), spoken_batches(phonemes@), voice@),
            runs_any(*old(run)),
            hears_any(*old(hear)),
        ensures
            *final(run) == *old(run),
            *final(hear) == *old(hear),
            is_audio(
                *old(run),
                *old(hear),
                self.pack(),
                spoken_batches(phonemes@),
                voice@,
                audio_heard(r),
            ),
    {
        let list = if nchars(phonemes) <= MAX_PHONEME_LENGTH {
            let mut whole: Vec<String> = Vec::new();
            whole.push(phonemes.to_owned());
            assert(contents(whole@) =~= seq![phonemes@]);
            whole
        } else {
            split_phonemes(phonemes)
        };
        self.speak_batches(&list, voice, run, hear)
    }

    /// Synthesises batches of phonemes, one after the other. Each is padded with silence
    /// by the model; trimming it keeps the joins from sounding halting.
    pub fn speak_batches<E, M, H>(
        &self,
        list: &Vec<String>,
        voice: &str,
        run: &mut M,
        hear: &mut H,
    ) -> (r: Result<Vec<T>, SynthError<E>>)
        where M: FnMut(&ModelInput<T>) -> Result<Vec<T>, E>, H: FnMut(&Vec<T>) -> Vec<bool>
        requires
            self.wf(),
            can_speak(self.pack(), contents(list@), voice@),
            runs_any(*old(run)),
            hears_any(*old(hear)),
        ensures
            *final(run) == *old(run),
            *final(hear) == *old(hear),
            is_audio(
                *old(run),
                *old(hear),
                self.pack(),
                contents(list@),
                voice@,
                audio_heard(r),
            ),
    {
        let ghost all = contents(list@);
        let ghost mut parts: Seq<Seq<T>> = Seq::empty();
        let mut audio: Vec<T> = Vec::new();
        let mut i: usize = 0;
        assert(audio@ =~= parts.flatten());
        while i < list.len()
            invariant
                i <= list@.len(),
                all == contents(list@),
                self.wf(),
                can_speak(self.pack(), all, voice@),
                *run == *old(run),
                *hear == *old(hear),
                runs_any(*run),
                hears_any(*hear),
                parts.len() == i,
                audio@ == parts.flatten(),
                forall|k: int|
                    0 <= k < i ==> is_batch_audio(
                        *run,
                        *hear,
                        self.pack(),
                        all[k],
                        voice@,
                        Ok::<Seq<T>, Fault<E>>(#[trigger] parts[k]),
                    ),
            decreases list@.len() - i,
        {
            assert(all[i as int] == list@[i as int]@);
            let whole = match self.create_from_phonemes(&list[i], voice, run) {
                Ok(whole) => whole,
                Err(e) => {
                    let ghost unfinished = parts.flatten();
                    return Err(e);
                },
            };
            let loud = hear(&whole);
            let ghost said = whole@;
            assert(may_hear(*hear, said, loud@));
            let mut part = trim(whole, &loud);
            proof {
                assert(is_batch_audio(
                    *run,
                    *hear,
                    self.pack(),
                    all[i as int],
                    voice@,
                    Ok::<Seq<T>, Fault<E>>(part@),
                ));
                parts.lemma_flatten_push(part@);
                parts = parts.push(part@);
            }
            audio.append(&mut part);
            i += 1;
        }
        Ok(audio)
    }

    /// Synthesises one piece of text.
    pub fn create<E, P, M, H>(
        &self,
        text: &str,
        voice: &str,
        lang: &str,
        espeak: P,
        run: &mut M,
        hear: &mut H,
    ) -> (r: Result<Vec<T>, SynthError<E>>)
        where
            P: FnMut(&str, &str) -> Result<Vec<String>, E>,
            M: FnMut(&ModelInput<T>) -> Result<Vec<T>, E>,
            H: FnMut(&Vec<T>) -> Vec<bool>,
        requires
            self.wf(),
            forall|said: Seq<char>| #[trigger]
                is_phonemized(espeak, lang@, text@, Ok::<Seq<char>, E>(said)) ==> can_speak(
                    self.pack(),
                    batches(said),
                    voice@,
                ),
            speaks_any(espeak),
            runs_any(*old(run)),
            hears_any(*old(hear)),
        ensures
            *final(run) == *old(run),
            *final(hear) == *old(hear),
            exists|phonemes: Result<Seq<char>, E>| #[trigger]
                is_phonemized(espeak, lang@, text@, phonemes) && match phonemes {
                    Ok(said) => is_audio(
                        *old(run),
                        *old(hear),
                        self.pack(),
                        batches(said),
                        voice@,
                        audio_heard(r),
                    ),
                    Err(e) => audio_heard(r) == Err::<Seq<T>, Fault<E>>(Fault::Backend(e)),
                },
    {
        match phonemize(text, lang, espeak) {
            Err(e) => {
                assert(is_phonemized(espeak, lang@, text@, Err::<Seq<char>, E>(e)));
                Err(SynthError::Backend(e))
            },
            Ok(phonemes) => {
                assert(is_phonemized(espeak, lang@, text@, Ok::<Seq<char>, E>(phonemes@)));
                self.speak_batches(&split_phonemes(&phonemes), voice, run, hear)
            },
        }
    }
}

} // verus!
