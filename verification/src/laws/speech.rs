//! What the model is run on, and what becomes of its audio.

use vstd::prelude::*;

use crate::phonemes::{in_vocab, token, token_from, tokens, VOCAB};
use crate::synth::batches;
use crate::synth::model::{
    input_of, is_audio, is_batch_audio, is_synthesis, may_hear, may_run, spoken_batches,
    token_input_of, Fault, Input, ModelInput,
};
use crate::trim::audible;
use crate::voices::{style_of, StyleArray, StyleError};

verus! {

/// Every phoneme within the model's context adds its token at the end, if it has one, and
/// phonemes past it add nothing.
pub proof fn tokens_come_one_by_one(phonemes: Seq<char>, c: char)
    ensures
        tokens(Seq::empty()).len() == 0,
        phonemes.len() < 510 ==> tokens(phonemes.push(c)) == match token(c) {
            Some(id) => tokens(phonemes).push(id),
            None => tokens(phonemes),
        },
        phonemes.len() >= 510 ==> tokens(phonemes.push(c)) == tokens(phonemes),
{
    reveal(Seq::filter_map);
    let more = phonemes.push(c);
    assert(more.drop_last() =~= phonemes);
    assert(Seq::<char>::empty().filter_map(|c: char| token(c)).len() == 0);
    if phonemes.len() >= 510 {
        assert(more.take(510) =~= phonemes.take(510));
        assert(phonemes.len() == 510 ==> phonemes.take(510) =~= phonemes);
    }
}

/// The token of a phoneme is the one that the first entry of the vocabulary for it has, and
/// there is none where the vocabulary has no entry.
pub proof fn tokens_are_those_of_the_vocabulary(c: char, i: int)
    requires
        0 <= i <= VOCAB@.len(),
        i < VOCAB@.len() ==> VOCAB@[i].0 == c,
        forall|j: int| 0 <= j < i ==> (#[trigger] VOCAB@[j]).0 != c,
    ensures
        i < VOCAB@.len() ==> token(c) == Some(VOCAB@[i].1),
        i == VOCAB@.len() ==> token(c) is None,
        in_vocab(c) <==> i < VOCAB@.len(),
{
    lemma_token_from(c, 0, i);
}

proof fn lemma_token_from(c: char, from: int, i: int)
    requires
        0 <= from <= i <= VOCAB@.len(),
        forall|j: int| from <= j < i ==> (#[trigger] VOCAB@[j]).0 != c,
    ensures
        token_from(c, from) == token_from(c, i),
    decreases i - from,
{
    if from < i {
        assert(VOCAB@[from].0 != c);
        lemma_token_from(c, from + 1, i);
    }
}

/// There are tokens exactly where one of the phonemes within the model's context is in the
/// vocabulary.
proof fn lemma_any_tokens(phonemes: Seq<char>)
    ensures
        tokens(phonemes).len() > 0 <==> exists|k: int|
            0 <= k < phonemes.len() && k < 510 && in_vocab(#[trigger] phonemes[k]),
    decreases phonemes.len(),
{
    if phonemes.len() == 0 {
        tokens_come_one_by_one(phonemes, ' ');
        assert(phonemes =~= Seq::empty());
    } else {
        let less = phonemes.drop_last();
        let n = less.len() as int;
        lemma_any_tokens(less);
        tokens_come_one_by_one(less, phonemes.last());
        assert(less.push(phonemes.last()) =~= phonemes);
        assert(phonemes[n] == phonemes.last());
        if tokens(less).len() > 0 {
            let k = choose|k: int| 0 <= k < less.len() && k < 510 && in_vocab(#[trigger] less[k]);
            assert(in_vocab(phonemes[k]));
        }
        if exists|k: int| 0 <= k < phonemes.len() && k < 510 && in_vocab(#[trigger] phonemes[k]) {
            let k = choose|k: int|
                0 <= k < phonemes.len() && k < 510 && in_vocab(#[trigger] phonemes[k]);
            if k < n {
                assert(in_vocab(less[k]));
            }
        }
    }
}

/// Wherever any phoneme within the model's context is in the vocabulary, and the voice has a
/// style for it, the model is run: on the tokens of all such phonemes, in order, with a zero
/// before them and one after, and on the style for as many tokens as there are. It is not
/// run only where no phoneme is in the vocabulary; and where the voice has no style, that is
/// the error.
pub proof fn the_model_is_run_on_every_known_phoneme<T>(
    voices: Map<Seq<char>, StyleArray<T>>,
    phonemes: Seq<char>,
    voice: Seq<char>,
)
    ensures
        ({
            let known = exists|k: int|
                0 <= k < phonemes.len() && k < 510 && in_vocab(#[trigger] phonemes[k]);
            let ids = tokens(phonemes);
            let n = ids.len() as int;
            &&& !known ==> input_of(voices, phonemes, voice) == Ok::<_, StyleError>(
                None::<Input<T>>,
            )
            &&& known ==> match style_of(voices, voice, n) {
                Err(e) => input_of(voices, phonemes, voice) == Err::<Option<Input<T>>, _>(e),
                Ok(style) => {
                    &&& input_of(voices, phonemes, voice) is Ok
                    &&& input_of(voices, phonemes, voice)->Ok_0 is Some
                    &&& input_of(voices, phonemes, voice)->Ok_0->Some_0.style == style
                    &&& input_of(voices, phonemes, voice)->Ok_0->Some_0.tokens.len() == n + 2
                    &&& input_of(voices, phonemes, voice)->Ok_0->Some_0.tokens[0] == 0
                    &&& input_of(voices, phonemes, voice)->Ok_0->Some_0.tokens[n + 1] == 0
                    &&& forall|k: int|
                        0 <= k < n ==> input_of(voices, phonemes, voice)->Ok_0->Some_0.tokens[k
                            + 1] == #[trigger] ids[k]
                },
            }
        }),
{
    lemma_any_tokens(phonemes);
}

/// What is asked of the model is the input it was to be run on, and what it answers is what
/// it is taken to have answered.
pub proof fn the_model_is_heard_as_it_answers<T, E, M>(
    run: M,
    input: Input<T>,
    reply: Result<Seq<T>, E>,
)
    where M: FnMut(&ModelInput<T>) -> Result<Vec<T>, E>
    requires
        may_run(run, input, reply),
    ensures
        exists|asked: &ModelInput<T>, answer: Result<Vec<T>, E>|
            {
                &&& asked.tokens@ == input.tokens
                &&& asked.style@ == input.style
                &&& #[trigger] call_ensures(run, (asked,), answer)
                &&& match answer {
                    Ok(audio) => reply == Ok::<Seq<T>, E>(audio@),
                    Err(e) => reply == Err::<Seq<T>, E>(e),
                }
            },
{
    let (asked, answer) = choose|asked: &ModelInput<T>, answer: Result<Vec<T>, E>|
        asked@ == input && #[trigger] call_ensures(run, (asked,), answer) && reply
            == crate::synth::model::run_heard(answer);
    assert(asked.tokens@ == input.tokens);
}

/// Phonemes are synthesised to what the model, `run`, answers for their input, whatever that
/// is, where it answers with any audio: an answer without is an error that names the
/// phonemes, and the model's own error is passed on. Without tokens there is no audio and no
/// error.
pub proof fn speech_is_what_the_model_answers<T, E, M>(
    run: M,
    voices: Map<Seq<char>, StyleArray<T>>,
    phonemes: Seq<char>,
    voice: Seq<char>,
    answer: Result<Seq<T>, E>,
    r: Result<Seq<T>, Fault<E>>,
)
    where M: FnMut(&ModelInput<T>) -> Result<Vec<T>, E>
    requires
        is_synthesis(run, voices, phonemes, voice, r),
        forall|input: Input<T>, reply: Result<Seq<T>, E>| #[trigger]
            may_run(run, input, reply) ==> reply == answer,
    ensures
        match input_of(voices, phonemes, voice) {
            Err(e) => r matches Err(fault) && fault == Fault::<E>::Style(e),
            Ok(None) => r matches Ok(audio) && audio.len() == 0,
            Ok(Some(_)) => match answer {
                Err(e) => r matches Err(fault) && fault == Fault::Backend(e),
                Ok(audio) => {
                    &&& audio.len() > 0 ==> r == Ok::<Seq<T>, Fault<E>>(audio)
                    &&& audio.len() == 0 ==> (r matches Err(fault) && fault == Fault::<E>::NoAudio(
                        phonemes,
                    ))
                },
            },
        },
{
}

/// A batch comes to its audio from the first frame that is heard to the end of the last, and
/// fails where synthesising it does.
pub proof fn batches_are_trimmed<T, E, M, H>(
    run: M,
    hear: H,
    voices: Map<Seq<char>, StyleArray<T>>,
    batch: Seq<char>,
    voice: Seq<char>,
    audio: Seq<T>,
    loud: Seq<bool>,
    r: Result<Seq<T>, Fault<E>>,
)
    where M: FnMut(&ModelInput<T>) -> Result<Vec<T>, E>, H: FnMut(&Vec<T>) -> Vec<bool>
    requires
        is_batch_audio(run, hear, voices, batch, voice, r),
        forall|s: Result<Seq<T>, Fault<E>>| #[trigger]
            is_synthesis(run, voices, batch, voice, s) ==> s == Ok::<Seq<T>, Fault<E>>(audio),
        forall|a: Seq<T>, l: Seq<bool>| #[trigger] may_hear(hear, a, l) ==> l == loud,
    ensures
        r matches Ok(part) && part == audio.subrange(
            audible(audio.len() as int, loud).0,
            audible(audio.len() as int, loud).1,
        ),
{
    match r {
        Err(e) => {
            assert(is_synthesis(run, voices, batch, voice, Err::<Seq<T>, Fault<E>>(e)));
        },
        Ok(part) => {
            let (a, l) = choose|a: Seq<T>, l: Seq<bool>|
                {
                    let range = audible(a.len() as int, l);
                    &&& is_synthesis(run, voices, batch, voice, Ok::<Seq<T>, Fault<E>>(a))
                    &&& #[trigger] may_hear(hear, a, l)
                    &&& part == a.subrange(range.0, range.1)
                };
            assert(Ok::<Seq<T>, Fault<E>>(a) == Ok::<Seq<T>, Fault<E>>(audio));
        },
    }
}

/// An error of a batch is that of synthesising it.
pub proof fn batches_fail_as_synthesis_does<T, E, M, H>(
    run: M,
    hear: H,
    voices: Map<Seq<char>, StyleArray<T>>,
    batch: Seq<char>,
    voice: Seq<char>,
    fault: Fault<E>,
)
    where M: FnMut(&ModelInput<T>) -> Result<Vec<T>, E>, H: FnMut(&Vec<T>) -> Vec<bool>
    requires
        is_batch_audio(run, hear, voices, batch, voice, Err::<Seq<T>, Fault<E>>(fault)),
    ensures
        is_synthesis(run, voices, batch, voice, Err::<Seq<T>, Fault<E>>(fault)),
{
}

/// Batches are spoken one after the other: no batches come to no audio, and the audio of
/// some batches is that of all but the last, followed by that of the last one.
pub proof fn batches_are_spoken_in_turn<T, E, M, H>(
    run: M,
    hear: H,
    voices: Map<Seq<char>, StyleArray<T>>,
    list: Seq<Seq<char>>,
    voice: Seq<char>,
    audio: Seq<T>,
)
    where M: FnMut(&ModelInput<T>) -> Result<Vec<T>, E>, H: FnMut(&Vec<T>) -> Vec<bool>
    requires
        is_audio(run, hear, voices, list, voice, Ok::<Seq<T>, Fault<E>>(audio)),
    ensures
        list.len() == 0 ==> audio.len() == 0,
        list.len() > 0 ==> exists|before: Seq<T>, part: Seq<T>|
            {
                &&& audio == #[trigger] (before + part)
                &&& is_audio(
                    run,
                    hear,
                    voices,
                    list.drop_last(),
                    voice,
                    Ok::<Seq<T>, Fault<E>>(before),
                )
                &&& is_batch_audio(
                    run,
                    hear,
                    voices,
                    list.last(),
                    voice,
                    Ok::<Seq<T>, Fault<E>>(part),
                )
            },
{
    let parts = choose|parts: Seq<Seq<T>>|
        {
            &&& parts.len() == list.len()
            &&& forall|k: int|
                0 <= k < parts.len() ==> is_batch_audio(
                    run,
                    hear,
                    voices,
                    list[k],
                    voice,
                    Ok::<Seq<T>, Fault<E>>(#[trigger] parts[k]),
                )
            &&& audio == #[trigger] parts.flatten()
        };
    if list.len() > 0 {
        let less = parts.drop_last();
        let n = less.len() as int;
        let before = less.flatten();
        less.lemma_flatten_push(parts.last());
        assert(less.push(parts.last()) =~= parts);
        assert(audio == before + parts.last());
        assert(is_batch_audio(
            run,
            hear,
            voices,
            list[n],
            voice,
            Ok::<Seq<T>, Fault<E>>(parts[n]),
        ));
        assert forall|k: int| 0 <= k < less.len() implies is_batch_audio(
            run,
            hear,
            voices,
            list.drop_last()[k],
            voice,
            Ok::<Seq<T>, Fault<E>>(#[trigger] less[k]),
        ) by {
            assert(less[k] == parts[k]);
        }
        assert(is_audio(
            run,
            hear,
            voices,
            list.drop_last(),
            voice,
            Ok::<Seq<T>, Fault<E>>(before),
        ));
    }
}

/// Whether a batch may come to audio.
pub open spec fn may_sound<T, E, M, H>(
    run: M,
    hear: H,
    voices: Map<Seq<char>, StyleArray<T>>,
    batch: Seq<char>,
    voice: Seq<char>,
) -> bool
    where M: FnMut(&ModelInput<T>) -> Result<Vec<T>, E>, H: FnMut(&Vec<T>) -> Vec<bool>
{
    exists|part: Seq<T>| #[trigger]
        is_batch_audio(run, hear, voices, batch, voice, Ok::<Seq<T>, Fault<E>>(part))
}

/// Where speaking fails, all batches before one were spoken and that one failed with the
/// same error.
pub proof fn speaking_fails_with_the_first_error<T, E, M, H>(
    run: M,
    hear: H,
    voices: Map<Seq<char>, StyleArray<T>>,
    list: Seq<Seq<char>>,
    voice: Seq<char>,
    fault: Fault<E>,
)
    where M: FnMut(&ModelInput<T>) -> Result<Vec<T>, E>, H: FnMut(&Vec<T>) -> Vec<bool>
    requires
        is_audio(run, hear, voices, list, voice, Err::<Seq<T>, Fault<E>>(fault)),
    ensures
        exists|k: int|
            {
                &&& 0 <= k < list.len()
                &&& is_batch_audio(
                    run,
                    hear,
                    voices,
                    #[trigger] list[k],
                    voice,
                    Err::<Seq<T>, Fault<E>>(fault),
                )
                &&& forall|j: int|
                    0 <= j < k ==> may_sound::<T, E, M, H>(
                        run,
                        hear,
                        voices,
                        #[trigger] list[j],
                        voice,
                    )
            },
{
    let parts = choose|parts: Seq<Seq<T>>|
        {
            &&& #[trigger] parts.len() < list.len()
            &&& forall|k: int|
                0 <= k < parts.len() ==> is_batch_audio(
                    run,
                    hear,
                    voices,
                    list[k],
                    voice,
                    Ok::<Seq<T>, Fault<E>>(#[trigger] parts[k]),
                )
            &&& is_batch_audio(
                run,
                hear,
                voices,
                list[parts.len() as int],
                voice,
                Err::<Seq<T>, Fault<E>>(fault),
            )
        };
    let k = parts.len() as int;
    assert forall|j: int| 0 <= j < k implies may_sound::<T, E, M, H>(
        run,
        hear,
        voices,
        #[trigger] list[j],
        voice,
    ) by {
        assert(is_batch_audio(
            run,
            hear,
            voices,
            list[j],
            voice,
            Ok::<Seq<T>, Fault<E>>(parts[j]),
        ));
    }
    assert(list[k] == list[parts.len() as int]);
}

/// Phonemes that fit the model's context are spoken in one batch, as they stand, and others
/// in batches.
pub proof fn phonemes_that_fit_are_spoken_whole(phonemes: Seq<char>)
    ensures
        phonemes.len() <= 510 ==> spoken_batches(phonemes).len() == 1 && spoken_batches(phonemes)[0]
            == phonemes,
        phonemes.len() > 510 ==> spoken_batches(phonemes) == batches(phonemes),
{
}

/// The token input has its newer name exactly where the model has an input of that name.
pub proof fn the_newer_name_is_preferred(inputs: Seq<Seq<char>>)
    ensures
        inputs.contains("input_ids"@) ==> token_input_of(inputs) == "input_ids"@,
        !inputs.contains("input_ids"@) ==> token_input_of(inputs) == "tokens"@,
{
}

/// The small letters have tokens in the order of the alphabet, but for the one letter that
/// is written otherwise.
pub proof fn letters_have_tokens_in_order(c: char)
    requires
        'a' <= c <= 'z',
    ensures
        c != 'g' ==> token(c) == Some((c as i64 - 54) as i64),
        c == 'g' ==> token(c) is None,
{
    let n = c as int;
    let i = if n < 103 {
        n - 67
    } else {
        n - 68
    };
    if c != 'g' {
        assert(VOCAB@[i].0 == c && VOCAB@[i].1 == n - 54);
        tokens_are_those_of_the_vocabulary(c, i);
    } else {
        tokens_are_those_of_the_vocabulary(c, 114);
    }
}

/// Tokens grow from each entry of the vocabulary to the next, so that no two phonemes share
/// one, and none is that of the padding.
pub proof fn tokens_are_distinct(i: int)
    requires
        0 <= i < 113,
    ensures
        VOCAB@.len() == 114,
        0 < VOCAB@[i].1 < VOCAB@[i + 1].1 < 178,
{
}

} // verus!
