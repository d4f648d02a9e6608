//! What the user is told, and that what is answered is taken as it is.

use vstd::prelude::*;

use crate::audio::{not_wav, DeviceError};
use crate::chars::quoted;
use crate::cli::options::UsageError;
use crate::models::{Fetch, ModelFiles, Resolution, Verdict};
use crate::numbers::decimal;
use crate::punctuation::Mark;
use crate::synth::model::{
    audio_heard, no_audio_text, run_heard, Fault, ModelInput, SynthError,
};
use crate::text::chunk::{heard, outcome_of};
use crate::text::packer::{Chunk, Packer, Spoken};
use crate::voices::{style_heard, StyleError};

verus! {

/// The number twenty in digits.
proof fn lemma_twenty()
    ensures
        decimal(20) == seq!['2', '0'],
{
    reveal_with_fuel(decimal, 3);
    assert(decimal(20) =~= seq!['2', '0']);
}

/// Every fault of the options is told in words that name the option, and the limits where it
/// has any.
pub proof fn faults_name_their_option(voice: Seq<char>)
    ensures
        UsageError::Speed.text_of(voice) == "--speed must be between 0.5 and 2.0"@,
        UsageError::FewChars.text_of(voice) == "--chunk-chars must be at least 20"@,
        UsageError::FewPhonemes.text_of(voice) == "--chunk-phonemes must be at least 20"@,
        UsageError::ManyPhonemes.text_of(voice) == "--chunk-phonemes cannot exceed 510"@,
        UsageError::Gap.text_of(voice) == "--gap cannot be negative"@,
        UsageError::UnknownVoice.text_of(voice) == "unknown voice "@ + quoted(voice)
            + " (try --list-voices)"@,
        UsageError::NoText.text_of(voice)
            == "no text given; pass it as an argument or pipe it in (kokoro-rs --help)"@,
{
    lemma_twenty();
    reveal_with_fuel(decimal, 4);
    assert(decimal(510) =~= seq!['5', '1', '0']);
    reveal_strlit("--chunk-chars must be at least ");
    reveal_strlit("--chunk-chars must be at least 20");
    reveal_strlit("--chunk-phonemes must be at least ");
    reveal_strlit("--chunk-phonemes must be at least 20");
    reveal_strlit("--chunk-phonemes cannot exceed ");
    reveal_strlit("--chunk-phonemes cannot exceed 510");
    assert(UsageError::FewChars.text_of(voice) =~= "--chunk-chars must be at least 20"@);
    assert(UsageError::FewPhonemes.text_of(voice) =~= "--chunk-phonemes must be at least 20"@);
    assert(UsageError::ManyPhonemes.text_of(voice) =~= "--chunk-phonemes cannot exceed 510"@);
}

/// Every other error names what was asked for, or what was found in its place.
pub proof fn errors_name_what_was_asked_for(name: Seq<char>, n: usize)
    ensures
        DeviceError::NoIndex(n).text_of(name) == "no output device with index "@ + decimal(
            n as nat,
        ),
        DeviceError::NoMatch.text_of(name) == "no output device matching "@ + quoted(name),
        StyleError::UnknownVoice.text_of(name) == "unknown voice "@ + name,
        StyleError::Width(n).text_of(name) == "voice "@ + name + " has style width "@ + decimal(
            n as nat,
        ) + ", expected 256"@,
        not_wav(name) == "only WAV output is supported, but "@ + name + " was requested"@,
        no_audio_text(name) == "the model returned no audio for "@ + quoted(name),
{
    reveal_with_fuel(decimal, 4);
    assert(decimal(256) =~= seq!['2', '5', '6']);
    reveal_strlit(", expected ");
    reveal_strlit(", expected 256");
    let start = "voice "@ + name + " has style width "@ + decimal(n as nat);
    assert(start + ", expected "@ + decimal(256) =~= start + ", expected 256"@);
}

/// What a phonemiser, a model or a voice answers is taken as it is: a value with all that is
/// in it, and an error as the error that it is.
pub proof fn answers_are_taken_as_they_are<T, E>(
    text: String,
    audio: Vec<T>,
    chunks: Vec<Chunk>,
    e: E,
    style: StyleError,
    k: int,
)
    ensures
        heard(Ok::<String, E>(text)) == Ok::<Seq<char>, E>(text@),
        heard(Err::<String, E>(e)) == Err::<Seq<char>, E>(e),
        run_heard(Ok::<Vec<T>, E>(audio)) == Ok::<Seq<T>, E>(audio@),
        run_heard(Err::<Vec<T>, E>(e)) == Err::<Seq<T>, E>(e),
        style_heard(Ok::<Vec<T>, StyleError>(audio)) == Ok::<Seq<T>, StyleError>(audio@),
        style_heard(Err::<Vec<T>, StyleError>(style)) == Err::<Seq<T>, StyleError>(style),
        audio_heard(Ok::<Vec<T>, SynthError<E>>(audio)) == Ok::<Seq<T>, Fault<E>>(audio@),
        audio_heard(Err::<Vec<T>, SynthError<E>>(SynthError::Style(style))) == Err::<
            Seq<T>,
            Fault<E>,
        >(Fault::Style(style)),
        audio_heard(Err::<Vec<T>, SynthError<E>>(SynthError::Backend(e))) == Err::<
            Seq<T>,
            Fault<E>,
        >(Fault::Backend(e)),
        audio_heard(Err::<Vec<T>, SynthError<E>>(SynthError::NoAudio(text))) == Err::<
            Seq<T>,
            Fault<E>,
        >(Fault::NoAudio(text@)),
        outcome_of(Err::<Vec<Chunk>, E>(e)) == Err::<Seq<Spoken>, E>(e),
        outcome_of(Ok::<Vec<Chunk>, E>(chunks)) matches Ok(list) && list.len() == chunks@.len(),
        0 <= k < chunks@.len() ==> (outcome_of(Ok::<Vec<Chunk>, E>(chunks)) matches Ok(list)
            && list[k].text == chunks@[k].text@ && list[k].phonemes == chunks@[k].phonemes@),
{
}

/// What is handed on is handed on as it is: the tokens and the style to the model, the chunk
/// being filled to the packer, a mark to where it stood, and what is to be fetched to where
/// it is to be put.
pub proof fn contents_are_handed_on<T>(
    input: ModelInput<T>,
    packer: Packer,
    mark: Mark,
    files: ModelFiles,
    k: int,
)
    ensures
        input@.tokens == input.tokens@,
        input@.style == input.style@,
        packer@.budget == packer.budget,
        packer@.rest == packer.rest,
        packer@.open == packer.open,
        packer@.held is Some <==> packer.buf is Some,
        packer.buf matches Some(chunk) ==> packer@.held->0.text == chunk.text@
            && packer@.held->0.phonemes == chunk.phonemes@,
        packer@.out.len() == packer.out@.len(),
        0 <= k < packer.out@.len() ==> packer@.out[k].text == packer.out@[k].text@
            && packer@.out[k].phonemes == packer.out@[k].phonemes@,
        mark@.index == mark.index,
        mark@.mark == mark.mark@,
        mark@.position == mark.position,
        files@.fetches.len() == files.fetches@.len(),
        0 <= k < files.fetches@.len() ==> files@.fetches[k].url == files.fetches@[k].url@
            && files@.fetches[k].path == files.fetches@[k].path@,
        files.paths matches Ok((model, voices)) ==> files@.paths == Ok::<_, Seq<char>>(
            (model@, voices@),
        ),
        files.paths matches Err(message) ==> files@.paths == Err::<(Seq<char>, Seq<char>), _>(
            message@,
        ),
{
}

/// What is to be done about a file is told as it is.
pub proof fn resolutions_are_told_as_they_are(path: String, fetch: Fetch)
    ensures
        Resolution::Ready(path)@ == Verdict::Ready(path@),
        Resolution::Fail(path)@ == Verdict::Fail(path@),
        (Resolution::Fetch { url: fetch.url, path: fetch.path })@ == (Verdict::Fetch {
            url: fetch.url@,
            path: fetch.path@,
        }),
{
}

} // verus!
