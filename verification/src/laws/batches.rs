//! What the model is given: batches of phonemes and their tokens.

use vstd::prelude::*;

use crate::chars::{
    is_space, lemma_trim, letters, space_end, space_start, trim, words, words_from,
};
use crate::laws::budget::lemma_words_solid;
use crate::laws::letters::{
    lemma_cut_every_letters, lemma_letters_add, lemma_letters_blank, lemma_letters_of_add,
    lemma_letters_of_one, lemma_letters_push_space, lemma_letters_trim, lemma_words_letters,
    letters_of,
};
use crate::laws::solid::{all_solid, is_word, lemma_cut_solid, solid};
use crate::phonemes::{in_vocab, token, tokens, voiced, MAX_PHONEME_LENGTH};
use crate::synth::{
    batched, batches, fitting, fitting_parts, fitting_words, is_break, marked_parts, LONGEST_RUN,
};
use crate::text::split::cut_every;

verus! {

/// Whether all of `list` fits the model's context.
pub open spec fn all_fit(list: Seq<Seq<char>>) -> bool {
    forall|k: int| 0 <= k < list.len() ==> (#[trigger] list[k]).len() < MAX_PHONEME_LENGTH
}

proof fn lemma_fit_add(a: Seq<Seq<char>>, b: Seq<Seq<char>>)
    requires
        all_fit(a),
        all_fit(b),
    ensures
        all_fit(a + b),
{
}

proof fn lemma_cut_fits(s: Seq<char>)
    ensures
        all_fit(cut_every(s, LONGEST_RUN as int)),
    decreases s.len(),
{
    let limit = LONGEST_RUN as int;
    if s.len() > limit {
        lemma_cut_fits(s.skip(limit));
        lemma_fit_add(seq![s.take(limit)], cut_every(s.skip(limit), limit));
    }
}

proof fn lemma_words_fit(list: Seq<Seq<char>>)
    requires
        forall|k: int| 0 <= k < list.len() ==> is_word(#[trigger] list[k]),
    ensures
        all_fit(fitting_words(list)),
        all_solid(fitting_words(list)),
        letters_of(fitting_words(list)) == letters_of(list),
    decreases list.len(),
{
    if list.len() > 0 {
        let less = fitting_words(list.drop_last());
        lemma_words_fit(list.drop_last());
        lemma_letters_of_one(list.last());
        lemma_letters_of_add(list.drop_last(), seq![list.last()]);
        assert(list =~= list.drop_last() + seq![list.last()]);
        assert(is_word(list[list.len() - 1]));
        if list.last().len() < MAX_PHONEME_LENGTH {
            lemma_letters_of_add(less, seq![list.last()]);
            assert(less.push(list.last()) =~= less + seq![list.last()]);
        } else {
            let cut = cut_every(list.last(), LONGEST_RUN as int);
            assert(is_word(list[list.len() - 1]));
            lemma_cut_solid(list.last(), LONGEST_RUN as int);
            lemma_cut_fits(list.last());
            lemma_fit_add(less, cut);
            lemma_cut_every_letters(list.last(), LONGEST_RUN as int);
            lemma_letters_of_add(less, cut);
        }
    }
}

proof fn lemma_fitting(part: Seq<char>)
    ensures
        all_fit(fitting(part)),
        all_solid(fitting(part)),
        letters_of(fitting(part)) == letters(part),
{
    let t = trim(part);
    lemma_trim(part);
    lemma_letters_trim(part);
    if t.len() == 0 {
        lemma_letters_blank(part);
    } else if t.len() < MAX_PHONEME_LENGTH {
        lemma_letters_of_one(t);
    } else {
        lemma_words_solid(t, 0);
        assert forall|k: int| 0 <= k < words(t).len() implies is_word(#[trigger] words(t)[k]) by {
            assert(words_from(t, 0)[k].len() > 0);
            assert forall|j: int| 0 <= j < words(t)[k].len() implies !is_space(
                #[trigger] words(t)[k][j],
            ) by {
                assert(!is_space(words_from(t, 0)[k][j]));
            }
        }
        lemma_words_fit(words(t));
        lemma_words_letters(t);
    }
}

/// All the parts fit the model's context, with no white space round them, and hold every
/// phoneme.
pub proof fn lemma_fitting_parts(list: Seq<Seq<char>>)
    ensures
        all_fit(fitting_parts(list)),
        all_solid(fitting_parts(list)),
        letters_of(fitting_parts(list)) == letters_of(list),
    decreases list.len(),
{
    if list.len() > 0 {
        lemma_fitting_parts(list.drop_last());
        lemma_fitting(list.last());
        lemma_fit_add(fitting_parts(list.drop_last()), fitting(list.last()));
        lemma_letters_of_add(fitting_parts(list.drop_last()), fitting(list.last()));
        lemma_letters_of_one(list.last());
        lemma_letters_of_add(list.drop_last(), seq![list.last()]);
        assert(list =~= list.drop_last() + seq![list.last()]);
    }
}

proof fn lemma_marked_letters(s: Seq<char>, prev: int, i: int)
    requires
        0 <= prev <= i <= s.len(),
    ensures
        letters_of(marked_parts(s, prev, i)) == letters(s.skip(prev)),
    decreases s.len() - i,
{
    if i < s.len() {
        if is_break(s[i]) {
            let before = s.subrange(prev, i);
            let mark = s.subrange(i, i + 1);
            let rest = marked_parts(s, i + 1, i + 1);
            lemma_marked_letters(s, i + 1, i + 1);
            lemma_letters_of_one(before);
            lemma_letters_of_one(mark);
            lemma_letters_of_add(seq![before], seq![mark]);
            assert(seq![before, mark] =~= seq![before] + seq![mark]);
            lemma_letters_of_add(seq![before, mark], rest);
            lemma_letters_add(before, mark);
            lemma_letters_add(before + mark, s.skip(i + 1));
            assert(before + mark + s.skip(i + 1) =~= s.skip(prev));
        } else {
            lemma_marked_letters(s, prev, i + 1);
        }
    } else {
        lemma_letters_of_one(s.subrange(prev, s.len() as int));
        assert(s.subrange(prev, s.len() as int) =~= s.skip(prev));
    }
}

proof fn lemma_batched(parts: Seq<Seq<char>>, current: Seq<char>, i: int)
    requires
        0 <= i <= parts.len(),
        all_fit(parts),
        all_solid(parts),
        current.len() < MAX_PHONEME_LENGTH,
        current.len() == 0 || solid(current),
    ensures
        all_fit(batched(parts, current, i)),
        all_solid(batched(parts, current, i)),
        letters_of(batched(parts, current, i)) == letters(current) + letters_of(parts.skip(i)),
    decreases parts.len() - i,
{
    lemma_trim(current);
    lemma_letters_trim(current);
    lemma_letters_of_one(trim(current));
    if i < parts.len() {
        let part = parts[i];
        let rest = parts.skip(i + 1);
        assert(parts.skip(i) =~= seq![part] + rest);
        lemma_letters_of_one(part);
        lemma_letters_of_add(seq![part], rest);
        if current.len() == 0 {
            lemma_letters_blank(current);
            lemma_batched(parts, part, i + 1);
            assert(letters(current) + (letters(part) + letters_of(rest)) =~= letters(part)
                + letters_of(rest));
        } else if current.len() + part.len() + 1 >= MAX_PHONEME_LENGTH {
            lemma_trim_solid(current);
            lemma_batched(parts, part, i + 1);
            lemma_fit_add(seq![trim(current)], batched(parts, part, i + 1));
            lemma_letters_of_add(seq![trim(current)], batched(parts, part, i + 1));
        } else if part.len() == 1 && is_break(part[0]) {
            lemma_batched(parts, current + part, i + 1);
            lemma_letters_add(current, part);
            assert(letters(current) + letters(part) + letters_of(rest) =~= letters(current) + (
            letters(part) + letters_of(rest)));
        } else {
            let spaced = current.push(' ');
            lemma_batched(parts, spaced + part, i + 1);
            lemma_letters_add(spaced, part);
            lemma_letters_push_space(current);
            assert(letters(current) + letters(part) + letters_of(rest) =~= letters(current) + (
            letters(part) + letters_of(rest)));
        }
    } else {
        assert(parts.skip(i) =~= Seq::empty());
        assert(letters(current) + Seq::empty() =~= letters(current));
        if current.len() == 0 {
            lemma_letters_blank(current);
        } else {
            lemma_trim_solid(current);
        }
    }
}

/// A text without white space at its ends is not changed by trimming.
pub proof fn lemma_trim_solid(s: Seq<char>)
    requires
        solid(s),
    ensures
        trim(s) == s,
{
    assert(space_end(s, 0) == 0);
    assert(space_start(s, s.len() as int) == s.len());
    assert(s.subrange(0, s.len() as int) =~= s);
}

/// Every batch of phonemes fits the model's context and has something in it, with no
/// white space around it, and the batches together hold every phoneme, in order:
/// nothing is left out, and nothing but white space added.
pub proof fn batches_fit_and_keep_every_phoneme(phonemes: Seq<char>)
    ensures
        all_fit(batches(phonemes)),
        all_solid(batches(phonemes)),
        letters_of(batches(phonemes)) == letters(phonemes),
{
    let parts = marked_parts(phonemes, 0, 0);
    lemma_marked_letters(phonemes, 0, 0);
    assert(phonemes.skip(0) =~= phonemes);
    lemma_fitting_parts(parts);
    let list = fitting_parts(parts);
    lemma_batched(list, Seq::empty(), 0);
    lemma_letters_blank(Seq::empty());
    assert(list.skip(0) =~= list);
    assert(Seq::<char>::empty() + letters_of(list) =~= letters_of(list));
}

/// Phonemes without a mark to break them at are one part.
proof fn lemma_unmarked(s: Seq<char>, i: int)
    requires
        0 <= i <= s.len(),
        forall|k: int| 0 <= k < s.len() ==> !is_break(#[trigger] s[k]),
    ensures
        marked_parts(s, 0, i) == seq![s],
    decreases s.len() - i,
{
    if i < s.len() {
        lemma_unmarked(s, i + 1);
    } else {
        assert(s.subrange(0, s.len() as int) =~= s);
    }
}

/// Phonemes that fit the model's context and have no mark to break them at are one
/// batch, as they stand.
pub proof fn unmarked_phonemes_that_fit_are_one_batch(s: Seq<char>)
    requires
        solid(s),
        s.len() < MAX_PHONEME_LENGTH,
        forall|k: int| 0 <= k < s.len() ==> !is_break(#[trigger] s[k]),
    ensures
        batches(s) == seq![s],
{
    reveal_with_fuel(fitting_parts, 2);
    reveal_with_fuel(batched, 2);
    lemma_unmarked(s, 0);
    lemma_trim_solid(s);
    assert(seq![s].drop_last() =~= Seq::empty());
    assert(seq![s].last() == s);
    assert(fitting_parts(seq![s]) =~= seq![s]);
    assert(batches(s) =~= seq![s]);
}

/// A batch is tokenised whole: no phoneme of it is cut off.
pub proof fn batches_are_not_truncated(phonemes: Seq<char>, k: int)
    requires
        0 <= k < batches(phonemes).len(),
    ensures
        tokens(batches(phonemes)[k]) == batches(phonemes)[k].filter_map(|c: char| token(c)),
{
    batches_fit_and_keep_every_phoneme(phonemes);
}

proof fn lemma_filter_map_len(s: Seq<char>, look: spec_fn(char) -> Option<i64>)
    ensures
        s.filter_map(look).len() <= s.len(),
        (forall|k: int| 0 <= k < s.len() ==> look(#[trigger] s[k]) is Some) ==> s.filter_map(look)
            == s.map_values(|c: char| look(c)->Some_0),
    decreases s.len(),
{
    reveal(Seq::filter_map);
    if s.len() > 0 {
        lemma_filter_map_len(s.drop_last(), look);
        if forall|k: int| 0 <= k < s.len() ==> look(#[trigger] s[k]) is Some {
            assert(look(s[s.len() - 1]) is Some);
            assert(s.filter_map(look) =~= s.map_values(|c: char| look(c)->Some_0));
        }
    } else {
        assert(s.filter_map(look) =~= s.map_values(|c: char| look(c)->Some_0));
    }
}

/// No more tokens are made than the model's context has room for.
pub proof fn tokens_fit_the_context(phonemes: Seq<char>)
    ensures
        tokens(phonemes).len() <= MAX_PHONEME_LENGTH,
        tokens(phonemes).len() <= phonemes.len(),
{
    lemma_filter_map_len(phonemes, |c: char| token(c));
    lemma_filter_map_len(phonemes.take(MAX_PHONEME_LENGTH as int), |c: char| token(c));
}

/// Phonemes that the vocabulary has and that fit the context are tokenised one to
/// one.
pub proof fn known_phonemes_are_tokenised_one_to_one(phonemes: Seq<char>)
    requires
        phonemes.len() <= MAX_PHONEME_LENGTH,
        forall|k: int| 0 <= k < phonemes.len() ==> in_vocab(#[trigger] phonemes[k]),
    ensures
        tokens(phonemes).len() == phonemes.len(),
        forall|k: int|
            0 <= k < phonemes.len() ==> token(phonemes[k]) == Some(#[trigger] tokens(phonemes)[k]),
{
    lemma_filter_map_len(phonemes, |c: char| token(c));
}

/// What is phonemised holds only phonemes that the vocabulary has, with no white
/// space at either end.
pub proof fn phonemes_are_known(s: Seq<char>)
    ensures
        forall|k: int| 0 <= k < voiced(s).len() ==> in_vocab(#[trigger] voiced(s)[k]),
        voiced(s).len() == 0 || solid(voiced(s)),
{
    let voice = |c: char| in_vocab(c);
    let kept = s.filter(voice);
    lemma_trim(kept);
    crate::chars::lemma_space_end(kept, 0);
    crate::chars::lemma_space_start(kept, kept.len() as int);
    assert forall|k: int| 0 <= k < voiced(s).len() implies in_vocab(#[trigger] voiced(s)[k]) by {
        let from = crate::chars::space_end(kept, 0);
        assert(voiced(s)[k] == kept[from + k]);
        s.lemma_filter_pred(voice, from + k);
    }
}

} // verus!
