//! Turning text into the phoneme token IDs the model expects.
//!
//! Text is phonemised to IPA, then each character is looked up in the model's
//! vocabulary. Characters outside it, of which a phonemiser emits a few that the
//! model was never trained on, are dropped.

use vstd::prelude::*;

use crate::chars::{
    contents, is_blank, join, joined, lemma_trim, split_words, to_chars, trim, trim_bounds, trimmed,
    words,
};
use crate::punctuation::{take_apart, is_preserving, kept_texts, splice, spliced, Preserved};
use crate::text::chunk::heard;

verus! {

/// The model's context length, in phonemes.
pub const MAX_PHONEME_LENGTH: usize = 510;

/// The model's phoneme vocabulary. The IDs are not contiguous: they index the
/// model's embedding table, and the gaps are phonemes the released checkpoint
/// does not use.
pub const VOCAB: [(char, i64); 114] = [
    (';', 1), (':', 2), (',', 3), ('.', 4), ('!', 5), ('?', 6), ('\u{2014}', 9), ('\u{2026}', 10),
    ('"', 11), ('(', 12), (')', 13), ('\u{201c}', 14), ('\u{201d}', 15), (' ', 16),
    ('\u{303}', 17), ('\u{2a3}', 18), ('\u{2a5}', 19), ('\u{2a6}', 20), ('\u{2a8}', 21),
    ('\u{1d5d}', 22), ('\u{ab67}', 23), ('A', 24), ('I', 25), ('O', 31), ('Q', 33), ('S', 35),
    ('T', 36), ('W', 39), ('Y', 41), ('\u{1d4a}', 42), ('a', 43), ('b', 44), ('c', 45), ('d', 46),
    ('e', 47), ('f', 48), ('h', 50), ('i', 51), ('j', 52), ('k', 53), ('l', 54), ('m', 55),
    ('n', 56), ('o', 57), ('p', 58), ('q', 59), ('r', 60), ('s', 61), ('t', 62), ('u', 63),
    ('v', 64), ('w', 65), ('x', 66), ('y', 67), ('z', 68), ('\u{251}', 69), ('\u{250}', 70),
    ('\u{252}', 71), ('\u{e6}', 72), ('\u{3b2}', 75), ('\u{254}', 76), ('\u{255}', 77),
    ('\u{e7}', 78), ('\u{256}', 80), ('\u{f0}', 81), ('\u{2a4}', 82), ('\u{259}', 83),
    ('\u{25a}', 85), ('\u{25b}', 86), ('\u{25c}', 87), ('\u{25f}', 90), ('\u{261}', 92),
    ('\u{265}', 99), ('\u{268}', 101), ('\u{26a}', 102), ('\u{29d}', 103), ('\u{26f}', 110),
    ('\u{270}', 111), ('\u{14b}', 112), ('\u{273}', 113), ('\u{272}', 114), ('\u{274}', 115),
    ('\u{f8}', 116), ('\u{278}', 118), ('\u{3b8}', 119), ('\u{153}', 120), ('\u{279}', 123),
    ('\u{27e}', 125), ('\u{27b}', 126), ('\u{281}', 128), ('\u{27d}', 129), ('\u{282}', 130),
    ('\u{283}', 131), ('\u{288}', 132), ('\u{2a7}', 133), ('\u{28a}', 135), ('\u{28b}', 136),
    ('\u{28c}', 138), ('\u{263}', 139), ('\u{264}', 140), ('\u{3c7}', 142), ('\u{28e}', 143),
    ('\u{292}', 147), ('\u{294}', 148), ('\u{2c8}', 156), ('\u{2cc}', 157), ('\u{2d0}', 158),
    ('\u{2b0}', 162), ('\u{2b2}', 164), ('\u{2193}', 169), ('\u{2192}', 171), ('\u{2197}', 172),
    ('\u{2198}', 173), ('\u{1d7b}', 177),
];

/// The ID of `c` in the vocabulary from its `i`th entry on, if it is there.
pub open spec fn token_from(c: char, i: int) -> Option<i64>
    decreases VOCAB@.len() - i,
{
    if 0 <= i < VOCAB@.len() {
        if VOCAB@[i].0 == c {
            Some(VOCAB@[i].1)
        } else {
            token_from(c, i + 1)
        }
    } else {
        None
    }
}

/// The ID of `c` in the vocabulary, if it is there.
pub open spec fn token(c: char) -> Option<i64> {
    token_from(c, 0)
}

/// Whether `c` is in the vocabulary.
pub open spec fn in_vocab(c: char) -> bool {
    token(c) is Some
}

/// The ID that `entries` have for `c` from the `i`th one on, if they have it.
pub open spec fn entry_from(entries: Seq<(char, i64)>, c: char, i: int) -> Option<i64>
    decreases entries.len() - i,
{
    if 0 <= i < entries.len() {
        if entries[i].0 == c {
            Some(entries[i].1)
        } else {
            entry_from(entries, c, i + 1)
        }
    } else {
        None
    }
}

/// Looking a phoneme up in the entries of the model's vocabulary gives its ID there.
proof fn lemma_entry_from(c: char, i: int)
    ensures
        entry_from(VOCAB@, c, i) == token_from(c, i),
    decreases VOCAB@.len() - i,
{
    if 0 <= i < VOCAB@.len() {
        lemma_entry_from(c, i + 1);
    }
}

/// A phoneme vocabulary, by character.
pub struct Vocabulary {
    entries: [(char, i64); 114],
}

impl View for Vocabulary {
    type V = Seq<(char, i64)>;

    closed spec fn view(&self) -> Seq<(char, i64)> {
        self.entries@
    }
}

impl Vocabulary {
    /// How many phonemes the vocabulary has.
    pub fn len(&self) -> (r: usize)
        ensures
            r == self@.len(),
    {
        self.entries.len()
    }

    /// The ID of `c`, if the vocabulary has it.
    pub fn get(&self, c: &char) -> (r: Option<i64>)
        ensures
            r == entry_from(self@, *c, 0),
    {
        let mut i: usize = 0;
        while i < self.entries.len()
            invariant
                i <= self@.len(),
                entry_from(self@, *c, 0) == entry_from(self@, *c, i as int),
            decreases self@.len() - i,
        {
            if self.entries[i].0 == *c {
                return Some(self.entries[i].1);
            }
            i += 1;
        }
        None
    }

    /// Whether the vocabulary has `c`.
    pub fn contains_key(&self, c: &char) -> (r: bool)
        ensures
            r == entry_from(self@, *c, 0) is Some,
    {
        self.get(c).is_some()
    }
}

/// The model's phoneme vocabulary.
pub fn vocab() -> (r: Vocabulary)
    ensures
        r@ == VOCAB@,
        forall|c: char| #[trigger] entry_from(r@, c, 0) == token(c),
{
    proof {
        assert forall|c: char| #[trigger] entry_from(VOCAB@, c, 0) == token(c) by {
            lemma_entry_from(c, 0);
        }
    }
    Vocabulary { entries: VOCAB }
}

/// The characters of `s` that the vocabulary has, without white space at either
/// end.
pub open spec fn voiced(s: Seq<char>) -> Seq<char> {
    trim(s.filter(|c: char| in_vocab(c)))
}

/// What the sentences that a phonemiser answers with come to: one line of words,
/// the phoneme separator `_` gone and a single space at every word break.
pub open spec fn single_line(sentences: Seq<Seq<char>>) -> Seq<char> {
    join(words(join(sentences, seq![' ']).filter(|c: char| c != '_')), seq![' '])
}

/// Whether `espeak` may answer `reply` for a punctuation-free `part` of a text in
/// `lang`. It is not asked for a blank one.
pub open spec fn may_speak<F, E>(
    espeak: F,
    lang: Seq<char>,
    part: Seq<char>,
    reply: Result<Seq<char>, E>,
) -> bool
    where F: FnMut(&str, &str) -> Result<Vec<String>, E>
{
    if is_blank(part) {
        reply == Ok::<Seq<char>, E>(Seq::empty())
    } else {
        exists|asked: &str, tongue: &str, answer: Result<Vec<String>, E>|
            asked@ == part && tongue@ == lang && #[trigger] call_ensures(
                espeak,
                (asked, tongue),
                answer,
            ) && reply == match answer {
                Ok(list) => Ok::<Seq<char>, E>(single_line(contents(list@))),
                Err(e) => Err(e),
            }
    }
}

/// Whether `espeak` can be asked for any text in any language.
pub open spec fn speaks_any<F, E>(espeak: F) -> bool
    where F: FnMut(&str, &str) -> Result<Vec<String>, E>
{
    forall|part: &str, lang: &str| #[trigger] call_requires(espeak, (part, lang))
}

/// Puts the sentences of phonemes that a phonemiser answers with on one line. The
/// `_` that separates phonemes is discarded, and white space normalised to a
/// single space per word break.
pub fn on_one_line(sentences: &Vec<String>) -> (r: String)
    ensures
        r@ == single_line(contents(sentences@)),
{
    proof {
        reveal_strlit(" ");
        assert(" "@ =~= seq![' ']);
    }
    let whole = to_chars(&joined(sentences, " "));
    let ghost bare = |c: char| c != '_';
    let mut kept: Vec<char> = Vec::new();
    let mut i: usize = 0;
    assert(whole@.take(0).filter(bare) =~= Seq::empty());
    while i < whole.len()
        invariant
            i <= whole@.len(),
            bare == (|c: char| c != '_'),
            kept@ == whole@.take(i as int).filter(bare),
        decreases whole@.len() - i,
    {
        proof {
            assert(whole@.take(i + 1).drop_last() =~= whole@.take(i as int));
            reveal(Seq::filter);
        }
        if whole[i] != '_' {
            kept.push(whole[i]);
        }
        i += 1;
    }
    assert(whole@.take(i as int) =~= whole@);
    joined(&split_words(&kept), " ")
}

/// Phonemises one punctuation-free chunk, returning space-separated words of IPA
/// phonemes.
pub fn espeak<F, E>(chunk: &str, lang: &str, backend: &mut F) -> (r: Result<String, E>)
    where F: FnMut(&str, &str) -> Result<Vec<String>, E>
    requires
        speaks_any(*old(backend)),
    ensures
        *final(backend) == *old(backend),
        may_speak(*old(backend), lang@, chunk@, heard(r)),
{
    let chars = to_chars(chunk);
    let (from, to) = trim_bounds(&chars);
    proof {
        lemma_trim(chunk@);
    }
    if from == to {
        return Ok(String::new());
    }
    match backend(chunk, lang) {
        Ok(sentences) => Ok(on_one_line(&sentences)),
        Err(e) => Err(e),
    }
}

/// Whether `r` is what `text` in `lang` is phonemised to.
pub open spec fn is_phonemized<F, E>(
    espeak: F,
    lang: Seq<char>,
    text: Seq<char>,
    r: Result<Seq<char>, E>,
) -> bool
    where F: FnMut(&str, &str) -> Result<Vec<String>, E>
{
    let answers = |part: Seq<char>, reply: Result<Seq<char>, E>| may_speak(
        espeak,
        lang,
        part,
        reply,
    );
    match r {
        Ok(phonemes) => exists|whole: Seq<char>| #[trigger] is_preserving(
            answers,
            text,
            Ok(whole),
        ) && phonemes == voiced(whole),
        Err(e) => is_preserving(answers, text, Err(e)),
    }
}

/// The characters of `s` that the vocabulary has, without white space at either
/// end.
pub fn keep_voiced(s: &str) -> (r: String)
    ensures
        r@ == voiced(s@),
{
    let chars = to_chars(s);
    let known = vocab();
    let ghost voice = |c: char| in_vocab(c);
    let mut kept = String::new();
    let mut i: usize = 0;
    assert(s@.take(0).filter(voice) =~= Seq::empty());
    while i < chars.len()
        invariant
            i <= chars@.len(),
            chars@ == s@,
            forall|c: char| #[trigger] entry_from(known@, c, 0) == token(c),
            voice == (|c: char| in_vocab(c)),
            kept@ == s@.take(i as int).filter(voice),
        decreases chars@.len() - i,
    {
        proof {
            assert(s@.take(i + 1).drop_last() =~= s@.take(i as int));
            reveal(Seq::filter);
        }
        if known.contains_key(&chars[i]) {
            kept.push(chars[i]);
        }
        i += 1;
    }
    assert(s@.take(i as int) =~= s@);
    trimmed(&kept)
}

/// Phonemises `text` to IPA, keeping only vocabulary characters.
///
/// `backend` turns a piece of text in a language into sentences of phonemes.
/// Punctuation is hidden from it and spliced back into the phonemes afterwards:
/// it would be dropped otherwise, and the model relies on it for pauses and
/// sentence-final intonation.
pub fn phonemize<F, E>(text: &str, lang: &str, backend: F) -> (r: Result<String, E>)
    where F: FnMut(&str, &str) -> Result<Vec<String>, E>
    requires
        speaks_any(backend),
    ensures
        is_phonemized(backend, lang@, text@, heard(r)),
{
    let ghost answers = |part: Seq<char>, reply: Result<Seq<char>, E>| may_speak(
        backend,
        lang@,
        part,
        reply,
    );
    let Preserved { chunks, marks } = match take_apart(text) {
        Some(kept) => kept,
        None => {
            let whole = String::new();
            assert(is_preserving(answers, text@, Ok(whole@)));
            return Ok(keep_voiced(&whole));
        },
    };
    let mut speak = backend;
    let ghost texts = contents(chunks@);
    let mut spoken: Vec<String> = Vec::new();
    let mut i: usize = 0;
    while i < chunks.len()
        invariant
            i <= chunks@.len(),
            speak == backend,
            speaks_any(backend),
            answers == (|part: Seq<char>, reply: Result<Seq<char>, E>| may_speak(
                backend,
                lang@,
                part,
                reply,
            )),
            !is_blank(text@),
            texts == contents(chunks@),
            texts == kept_texts(seq![text@]),
            spoken@.len() == i,
            forall|k: int|
                0 <= k < i ==> #[trigger] answers(texts[k], Ok(contents(spoken@)[k])),
        decreases chunks@.len() - i,
    {
        let ghost before = contents(spoken@);
        let reply = espeak(&chunks[i], lang, &mut speak);
        assert(answers(texts[i as int], heard(reply)));
        match reply {
            Ok(line) => {
                spoken.push(line);
                assert(contents(spoken@) =~= before.push(line@));
            },
            Err(e) => {
                proof {
                    let unfinished = spliced(text@, before);
                    assert(is_preserving(answers, text@, Err(e)));
                }
                return Err(e);
            },
        }
        i += 1;
    }
    let whole = splice(&spoken, marks);
    assert(whole@ == spliced(text@, contents(spoken@)));
    assert(is_preserving(answers, text@, Ok(whole@)));
    Ok(keep_voiced(&whole))
}

/// The token IDs of `phonemes`: of as many as fit the model's context, those that
/// the vocabulary has.
pub open spec fn tokens(phonemes: Seq<char>) -> Seq<i64> {
    let kept = if phonemes.len() <= MAX_PHONEME_LENGTH {
        phonemes
    } else {
        phonemes.take(MAX_PHONEME_LENGTH as int)
    };
    kept.filter_map(|c: char| token(c))
}

/// Maps phonemes to token IDs, truncating to the model's context length.
pub fn tokenize(phonemes: &str) -> (r: Vec<i64>)
    ensures
        r@ == tokens(phonemes@),
{
    let chars = to_chars(phonemes);
    let known = vocab();
    let ghost look = |c: char| token(c);
    let mut ids: Vec<i64> = Vec::new();
    let mut i: usize = 0;
    assert(phonemes@.take(0).filter_map(look) =~= Seq::empty());
    while i < chars.len() && i < MAX_PHONEME_LENGTH
        invariant
            i <= chars@.len(),
            i <= MAX_PHONEME_LENGTH,
            chars@ == phonemes@,
            forall|c: char| #[trigger] entry_from(known@, c, 0) == token(c),
            look == (|c: char| token(c)),
            ids@ == phonemes@.take(i as int).filter_map(look),
        decreases chars@.len() - i,
    {
        proof {
            assert(phonemes@.take(i + 1).drop_last() =~= phonemes@.take(i as int));
            reveal(Seq::filter_map);
        }
        if let Some(id) = known.get(&chars[i]) {
            ids.push(id);
        }
        i += 1;
    }
    assert(phonemes@.len() <= MAX_PHONEME_LENGTH ==> phonemes@.take(i as int) =~= phonemes@);
    ids
}

} // verus!
