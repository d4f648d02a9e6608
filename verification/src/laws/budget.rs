//! How large chunks get.

use vstd::prelude::*;

use crate::chars::{
    is_space, lemma_space_end, lemma_word_end, space_end, word_end, words, words_from,
};
use crate::cli::options::{budgets_of, fault_of, Options};
use crate::laws::solid::positive;
use crate::laws::steps::lemma_part_follows;
use crate::phonemes::MAX_PHONEME_LENGTH;
use crate::text::chunk::{chunking, Progress};
use crate::text::packer::{Budget, Packing, Spoken};
use crate::text::sentences::{pieces, sentences, text_sentences};
use crate::text::split::{
    break_long, clauses, cut_every, cut_long, hard_pieces, lemma_mark_gaps, mark_gaps, packed,
    word_pieces, CLAUSE_ENDS,
};

verus! {

/// Whether `text` has no clause to break it at.
pub open spec fn indivisible(text: Seq<char>) -> bool {
    clauses(text).len() < 2
}

/// Whether white space follows one of `marks` at `j`.
spec fn is_hit(s: Seq<char>, marks: Seq<char>, j: int) -> bool {
    marks.contains(s[j]) && j + 1 < s.len() && is_space(s[j + 1])
}

/// Up to the first gap after a mark there is no other.
proof fn lemma_first_gap(s: Seq<char>, marks: Seq<char>, i: int)
    requires
        0 <= i <= s.len(),
    ensures
        mark_gaps(s, marks, i).len() == 0 ==> forall|j: int|
            i <= j < s.len() ==> !#[trigger] is_hit(s, marks, j),
        mark_gaps(s, marks, i).len() > 0 ==> {
            let first = mark_gaps(s, marks, i)[0];
            &&& forall|j: int| i <= j < first.0 - 1 ==> !#[trigger] is_hit(s, marks, j)
            &&& mark_gaps(s, marks, i).drop_first() == mark_gaps(s, marks, first.1)
        },
    decreases s.len() - i,
{
    if i < s.len() {
        let end = space_end(s, i + 1);
        lemma_space_end(s, i + 1);
        if marks.contains(s[i]) && i + 1 < end {
            assert(mark_gaps(s, marks, i).drop_first() =~= mark_gaps(s, marks, end));
        } else {
            lemma_first_gap(s, marks, i + 1);
            assert(mark_gaps(s, marks, i) == mark_gaps(s, marks, i + 1));
            assert(!is_hit(s, marks, i)) by {
                if i + 1 < s.len() && is_space(s[i + 1]) {
                    lemma_space_end(s, i + 2);
                    assert(end >= i + 2);
                }
            }
        }
    }
}

/// A text without such a gap is in one part.
proof fn lemma_no_gap(s: Seq<char>, marks: Seq<char>, i: int)
    requires
        0 <= i <= s.len(),
        forall|j: int| i <= j < s.len() ==> !#[trigger] is_hit(s, marks, j),
    ensures
        mark_gaps(s, marks, i).len() == 0,
    decreases s.len() - i,
{
    if i < s.len() {
        lemma_space_end(s, i + 1);
        assert(!is_hit(s, marks, i));
        lemma_no_gap(s, marks, i + 1);
    }
}

/// Leaving texts out does not make a list longer.
proof fn lemma_filter_shorter(list: Seq<Seq<char>>, keep: spec_fn(Seq<char>) -> bool)
    ensures
        list.filter(keep).len() <= list.len(),
{
    list.lemma_filter_len(keep);
}

/// A text without a gap after a clause end cannot be divided.
proof fn lemma_indivisible(s: Seq<char>)
    requires
        forall|j: int| 0 <= j < s.len() ==> !#[trigger] is_hit(s, CLAUSE_ENDS@, j),
    ensures
        indivisible(s),
{
    lemma_no_gap(s, CLAUSE_ENDS@, 0);
    lemma_filter_shorter(pieces(s, mark_gaps(s, CLAUSE_ENDS@, 0)), |p: Seq<char>| p.len() > 0);
}

/// The gaps from the end of the `k`th one on are the ones that follow it.
proof fn lemma_gaps_after(s: Seq<char>, marks: Seq<char>, k: int)
    requires
        0 <= k <= mark_gaps(s, marks, 0).len(),
    ensures
        mark_gaps(
            s,
            marks,
            if k == 0 {
                0
            } else {
                mark_gaps(s, marks, 0)[k - 1].1
            },
        ) == mark_gaps(s, marks, 0).skip(k),
    decreases k,
{
    let gaps = mark_gaps(s, marks, 0);
    if k == 0 {
        assert(gaps.skip(0) =~= gaps);
    } else {
        lemma_gaps_after(s, marks, k - 1);
        lemma_mark_gaps(s, marks, 0);
        let prev = if k == 1 {
            0
        } else {
            gaps[k - 2].1
        };
        lemma_first_gap(s, marks, prev);
        assert(gaps.skip(k - 1)[0] == gaps[k - 1]);
        assert(gaps.skip(k - 1).drop_first() =~= gaps.skip(k));
    }
}

/// A clause cannot be divided further.
pub proof fn clauses_are_indivisible(s: Seq<char>, k: int)
    requires
        0 <= k < clauses(s).len(),
    ensures
        indivisible(clauses(s)[k]),
{
    let marks = CLAUSE_ENDS@;
    let gaps = mark_gaps(s, marks, 0);
    let all = pieces(s, gaps);
    let solid = |p: Seq<char>| p.len() > 0;
    assert(all.filter(solid).contains(clauses(s)[k]));
    all.lemma_filter_contains_rev(solid, clauses(s)[k]);
    assert(all.contains(clauses(s)[k]));
    let n = choose|n: int| 0 <= n < all.len() && all[n] == clauses(s)[k];
    let clause = all[n];
    let from = if n == 0 {
        0
    } else {
        gaps[n - 1].1
    };
    let to = if n == gaps.len() {
        s.len() as int
    } else {
        gaps[n].0
    };
    lemma_mark_gaps(s, marks, 0);
    lemma_gaps_after(s, marks, n);
    lemma_first_gap(s, marks, from);
    if n < gaps.len() {
        assert(gaps.skip(n)[0] == gaps[n]);
        if n > 0 {
            assert(gaps[n - 1].1 < gaps[n].0);
        }
    }
    assert(clause == s.subrange(from, to));
    assert forall|j: int| 0 <= j < clause.len() implies !#[trigger] is_hit(clause, marks, j) by {
        if is_hit(clause, marks, j) {
            assert(clause[j] == s[from + j]);
            assert(clause[j + 1] == s[from + j + 1]);
            assert(is_hit(s, marks, from + j));
        }
    }
    lemma_indivisible(clause);
}

/// The words of a text from `i` on are free of white space and not empty.
pub proof fn lemma_words_solid(s: Seq<char>, i: int)
    requires
        0 <= i <= s.len(),
    ensures
        forall|k: int, j: int| #![trigger words_from(s, i)[k][j]]
            0 <= k < words_from(s, i).len() && 0 <= j < words_from(s, i)[k].len() ==> !is_space(
                words_from(s, i)[k][j],
            ),
        forall|k: int| #![trigger words_from(s, i)[k]]
            0 <= k < words_from(s, i).len() ==> words_from(s, i)[k].len() > 0,
    decreases s.len() - i,
{
    let from = space_end(s, i);
    lemma_space_end(s, i);
    if from < s.len() {
        let to = word_end(s, from);
        lemma_word_end(s, from);
        lemma_words_solid(s, to);
        let rest = words_from(s, to);
        let all = words_from(s, i);
        assert forall|k: int, j: int| #![trigger all[k][j]]
            0 <= k < all.len() && 0 <= j < all[k].len() implies !is_space(all[k][j]) by {
            if k > 0 {
                assert(all[k] == rest[k - 1]);
                assert(!is_space(rest[k - 1][j]));
            }
        }
        assert forall|k: int| #![trigger all[k]] 0 <= k < all.len() implies all[k].len() > 0 by {
            if k > 0 {
                assert(all[k] == rest[k - 1]);
            }
        }
    }
}

proof fn lemma_cut_capped(s: Seq<char>, limit: int)
    ensures
        all_within(cut_every(s, limit), limit),
    decreases s.len(),
{
    if s.len() > limit && limit > 0 {
        lemma_cut_capped(s.skip(limit), limit);
        lemma_within_add(seq![s.take(limit)], cut_every(s.skip(limit), limit), limit);
    }
}

/// Whether no text of `list` is longer than `limit`.
pub open spec fn all_within(list: Seq<Seq<char>>, limit: int) -> bool {
    forall|k: int| 0 <= k < list.len() ==> (#[trigger] list[k]).len() <= limit
}

proof fn lemma_within_add(a: Seq<Seq<char>>, b: Seq<Seq<char>>, limit: int)
    requires
        all_within(a, limit),
        all_within(b, limit),
    ensures
        all_within(a + b, limit),
{
}

proof fn lemma_cut_long_capped(list: Seq<Seq<char>>, limit: int)
    requires
        limit > 0,
    ensures
        all_within(cut_long(list, limit), limit),
    decreases list.len(),
{
    if list.len() > 0 {
        let less = cut_long(list.drop_last(), limit);
        lemma_cut_long_capped(list.drop_last(), limit);
        if list.last().len() > limit {
            lemma_cut_capped(list.last(), limit);
            lemma_within_add(less, cut_every(list.last(), limit), limit);
        }
    }
}

proof fn lemma_word_pieces_capped(s: Seq<char>, limit: int)
    requires
        limit > 0,
    ensures
        all_within(word_pieces(s, limit), limit),
{
    lemma_cut_long_capped(packed(words(s), limit, Seq::empty(), 0), limit);
    lemma_cut_capped(s, limit);
}

proof fn lemma_break_long_capped(list: Seq<Seq<char>>, limit: int)
    requires
        limit > 0,
    ensures
        all_within(break_long(list, limit), limit),
    decreases list.len(),
{
    if list.len() > 0 {
        let less = break_long(list.drop_last(), limit);
        lemma_break_long_capped(list.drop_last(), limit);
        if list.last().len() > limit {
            lemma_word_pieces_capped(list.last(), limit);
            lemma_within_add(less, word_pieces(list.last(), limit), limit);
        }
    }
}

/// No piece that a sentence is broken into is longer than the limit.
pub proof fn hard_pieces_stay_within_the_limit(s: Seq<char>, limit: int)
    requires
        limit > 0,
    ensures
        all_within(hard_pieces(s, limit), limit),
{
    lemma_break_long_capped(packed(clauses(s), limit, Seq::empty(), 0), limit);
    lemma_word_pieces_capped(s, limit);
}

/// A clause is no longer than the text it is part of.
pub proof fn clauses_are_no_longer(s: Seq<char>)
    ensures
        all_within(clauses(s), s.len() as int),
{
    let gaps = mark_gaps(s, CLAUSE_ENDS@, 0);
    let all = pieces(s, gaps);
    let keep = |p: Seq<char>| p.len() > 0;
    lemma_mark_gaps(s, CLAUSE_ENDS@, 0);
    assert forall|k: int| 0 <= k < clauses(s).len() implies (#[trigger] clauses(s)[k]).len()
        <= s.len() by {
        assert(all.filter(keep).contains(clauses(s)[k]));
        all.lemma_filter_contains_rev(keep, clauses(s)[k]);
        let n = choose|n: int| 0 <= n < all.len() && all[n] == clauses(s)[k];
        if 0 < n < gaps.len() {
            assert(gaps[n - 1].1 < gaps[n].0);
        }
    }
}

/// Whether a chunk is as small as can be: within the phonemes of `budget`, or without
/// a clause to break it at.
pub open spec fn within_phonemes(chunk: Spoken, budget: Budget) -> bool {
    chunk.phonemes.len() <= budget.phonemes || indivisible(chunk.text)
}

/// Whether a text is within the character cap of `budget`, if that has one.
pub open spec fn within_chars(text: Seq<char>, budget: Budget) -> bool {
    budget.chars matches Some(cap) ==> text.len() <= cap
}

/// Whether the character cap of `first` is no wider than that of `rest`.
pub open spec fn caps_ordered(first: Budget, rest: Budget) -> bool {
    rest.chars matches Some(wide) ==> (first.chars matches Some(narrow) && narrow <= wide)
}

/// The budget that the chunk `k` is held to.
pub open spec fn budget_for(k: int, first: Budget, rest: Budget) -> Budget {
    if k == 0 {
        first
    } else {
        rest
    }
}

/// Whether the chunks packed so far stay within the phonemes of their budgets.
spec fn phonemes_fit(packing: Packing, first: Budget, rest: Budget) -> bool {
    &&& packing.rest == rest
    &&& packing.budget == budget_for(packing.out.len() as int, first, rest)
    &&& forall|k: int|
        0 <= k < packing.out.len() ==> within_phonemes(
            #[trigger] packing.out[k],
            budget_for(k, first, rest),
        )
    &&& packing.held matches Some(held) ==> within_phonemes(held, packing.budget)
}

proof fn lemma_push_phonemes(
    packing: Packing,
    piece: Spoken,
    joinable: bool,
    first: Budget,
    rest: Budget,
)
    requires
        first.phonemes <= rest.phonemes,
        phonemes_fit(packing, first, rest),
        within_phonemes(piece, packing.budget),
    ensures
        phonemes_fit(packing.push(piece, joinable), first, rest),
{
}

proof fn lemma_clauses_phonemes<E>(
    p: Progress<E>,
    parts: Seq<Seq<char>>,
    i: int,
    joinable: bool,
    replies: Seq<Result<Seq<char>, E>>,
    first: Budget,
    rest: Budget,
)
    requires
        0 <= i <= parts.len(),
        first.phonemes <= rest.phonemes,
        phonemes_fit(p.packing, first, rest),
        forall|k: int| 0 <= k < parts.len() ==> indivisible(#[trigger] parts[k]),
    ensures
        phonemes_fit(p.clauses(parts, i, joinable, replies).packing, first, rest),
    decreases parts.len() - i,
{
    if p.failed is None && i < parts.len() {
        if let Ok(phonemes) = replies[p.asked.len() as int] {
            let piece = Spoken { text: parts[i], phonemes };
            lemma_push_phonemes(p.packing, piece, i > 0 || joinable, first, rest);
            let next = Progress {
                packing: p.packing.push(piece, i > 0 || joinable),
                asked: p.asked.push(parts[i]),
                ..p
            };
            lemma_clauses_phonemes(next, parts, i + 1, joinable, replies, first, rest);
        }
    }
}

proof fn lemma_parts_phonemes<E>(
    p: Progress<E>,
    parts: Seq<Seq<char>>,
    i: int,
    joinable: bool,
    replies: Seq<Result<Seq<char>, E>>,
    first: Budget,
    rest: Budget,
)
    requires
        0 <= i <= parts.len(),
        first.phonemes <= rest.phonemes,
        phonemes_fit(p.packing, first, rest),
    ensures
        phonemes_fit(p.parts(parts, i, joinable, replies).packing, first, rest),
    decreases parts.len() - i,
{
    if p.failed is None && i < parts.len() {
        let text = parts[i];
        if let Ok(phonemes) = replies[p.asked.len() as int] {
            let packing = if phonemes.len() > p.packing.budget.phonemes && p.packing.held is Some {
                p.packing.close()
            } else {
                p.packing
            };
            assert(phonemes_fit(packing, first, rest));
            if phonemes.len() <= packing.budget.phonemes || clauses(text).len() < 2 {
                lemma_push_phonemes(packing, Spoken { text, phonemes }, joinable, first, rest);
            } else {
                assert forall|k: int| 0 <= k < clauses(text).len() implies indivisible(
                    #[trigger] clauses(text)[k],
                ) by {
                    clauses_are_indivisible(text, k);
                }
                let next = Progress { packing, asked: p.asked.push(text), ..p };
                lemma_clauses_phonemes(next, clauses(text), 0, joinable, replies, first, rest);
            }
        }
        let next = p.part(text, joinable, replies);
        lemma_parts_phonemes(next, parts, i + 1, joinable, replies, first, rest);
    }
}

proof fn lemma_sentences_phonemes<E>(
    p: Progress<E>,
    list: Seq<Seq<char>>,
    i: int,
    replies: Seq<Result<Seq<char>, E>>,
    first: Budget,
    rest: Budget,
)
    requires
        0 <= i <= list.len(),
        first.phonemes <= rest.phonemes,
        phonemes_fit(p.packing, first, rest),
    ensures
        phonemes_fit(p.sentences(list, i, replies).packing, first, rest),
    decreases list.len() - i,
{
    if p.failed is None && i < list.len() {
        let ready = p.before_sentence(list[i]);
        let parts = ready.cut(list[i]);
        assert(phonemes_fit(ready.packing, first, rest));
        lemma_parts_phonemes(ready, parts, 0, parts.len() == 1, replies, first, rest);
        lemma_sentences_phonemes(p.sentence(list[i], replies), list, i + 1, replies, first, rest);
    }
}

/// The first chunk stays within the phonemes of the first budget and every later one
/// within those of the other, unless a chunk has no clause to break it at: nothing is
/// joined to a chunk that would carry it over its budget.
pub proof fn chunks_stay_within_their_phonemes<E>(
    text: Seq<char>,
    first: Budget,
    rest: Budget,
    replies: Seq<Result<Seq<char>, E>>,
)
    requires
        first.phonemes <= rest.phonemes,
    ensures
        chunking(text, first, rest, replies).outcome() matches Ok(chunks) ==> forall|k: int|
            0 <= k < chunks.len() ==> within_phonemes(
                #[trigger] chunks[k],
                budget_for(k, first, rest),
            ),
{
    let start = Progress::<E>::start(first, rest);
    lemma_sentences_phonemes(start, text_sentences(text), 0, replies, first, rest);
}

/// Whether the chunks packed so far stay within the character caps of their budgets.
spec fn chars_fit(packing: Packing, first: Budget, rest: Budget) -> bool {
    &&& packing.rest == rest
    &&& packing.budget == budget_for(packing.out.len() as int, first, rest)
    &&& forall|k: int|
        0 <= k < packing.out.len() ==> within_chars(
            (#[trigger] packing.out[k]).text,
            budget_for(k, first, rest),
        )
    &&& packing.held matches Some(held) ==> within_chars(held.text, packing.budget)
}

proof fn lemma_push_chars(
    packing: Packing,
    piece: Spoken,
    joinable: bool,
    first: Budget,
    rest: Budget,
)
    requires
        caps_ordered(first, rest),
        chars_fit(packing, first, rest),
        within_chars(piece.text, packing.budget),
    ensures
        chars_fit(packing.push(piece, joinable), first, rest),
{
}

proof fn lemma_clauses_chars<E>(
    p: Progress<E>,
    parts: Seq<Seq<char>>,
    i: int,
    joinable: bool,
    replies: Seq<Result<Seq<char>, E>>,
    first: Budget,
    rest: Budget,
)
    requires
        0 <= i <= parts.len(),
        caps_ordered(first, rest),
        chars_fit(p.packing, first, rest),
        forall|k: int|
            0 <= k < parts.len() ==> within_chars(#[trigger] parts[k], p.packing.budget)
                && within_chars(parts[k], rest),
    ensures
        chars_fit(p.clauses(parts, i, joinable, replies).packing, first, rest),
    decreases parts.len() - i,
{
    if p.failed is None && i < parts.len() {
        if let Ok(phonemes) = replies[p.asked.len() as int] {
            let piece = Spoken { text: parts[i], phonemes };
            lemma_push_chars(p.packing, piece, i > 0 || joinable, first, rest);
            let next = Progress {
                packing: p.packing.push(piece, i > 0 || joinable),
                asked: p.asked.push(parts[i]),
                ..p
            };
            lemma_clauses_chars(next, parts, i + 1, joinable, replies, first, rest);
        }
    }
}

proof fn lemma_parts_chars<E>(
    p: Progress<E>,
    parts: Seq<Seq<char>>,
    i: int,
    joinable: bool,
    replies: Seq<Result<Seq<char>, E>>,
    first: Budget,
    rest: Budget,
)
    requires
        0 <= i <= parts.len(),
        caps_ordered(first, rest),
        chars_fit(p.packing, first, rest),
        forall|k: int|
            0 <= k < parts.len() ==> within_chars(#[trigger] parts[k], p.packing.budget)
                && within_chars(parts[k], rest),
    ensures
        chars_fit(p.parts(parts, i, joinable, replies).packing, first, rest),
    decreases parts.len() - i,
{
    if p.failed is None && i < parts.len() {
        let text = parts[i];
        assert(within_chars(parts[i], p.packing.budget));
        if let Ok(phonemes) = replies[p.asked.len() as int] {
            let packing = if phonemes.len() > p.packing.budget.phonemes && p.packing.held is Some {
                p.packing.close()
            } else {
                p.packing
            };
            if phonemes.len() <= packing.budget.phonemes || clauses(text).len() < 2 {
                lemma_push_chars(packing, Spoken { text, phonemes }, joinable, first, rest);
            } else {
                clauses_are_no_longer(text);
                let next = Progress { packing, asked: p.asked.push(text), ..p };
                lemma_clauses_chars(next, clauses(text), 0, joinable, replies, first, rest);
            }
        }
        let next = p.part(text, joinable, replies);
        lemma_part_follows(p, text, joinable, replies);
        lemma_parts_chars(next, parts, i + 1, joinable, replies, first, rest);
    }
}

proof fn lemma_sentences_chars<E>(
    p: Progress<E>,
    list: Seq<Seq<char>>,
    i: int,
    replies: Seq<Result<Seq<char>, E>>,
    first: Budget,
    rest: Budget,
)
    requires
        0 <= i <= list.len(),
        caps_ordered(first, rest),
        positive(first),
        positive(rest),
        chars_fit(p.packing, first, rest),
    ensures
        chars_fit(p.sentences(list, i, replies).packing, first, rest),
    decreases list.len() - i,
{
    if p.failed is None && i < list.len() {
        let ready = p.before_sentence(list[i]);
        let parts = ready.cut(list[i]);
        assert(chars_fit(ready.packing, first, rest));
        if let Some(cap) = ready.packing.budget.chars {
            hard_pieces_stay_within_the_limit(list[i], cap as int);
        }
        lemma_parts_chars(ready, parts, 0, parts.len() == 1, replies, first, rest);
        lemma_sentences_chars(p.sentence(list[i], replies), list, i + 1, replies, first, rest);
    }
}

/// A character cap is one: no chunk is longer than its budget allows, the first one
/// being held to the first budget and every later one to the other. With the same cap
/// in both, no chunk is longer than that.
pub proof fn chunks_stay_within_their_caps<E>(
    text: Seq<char>,
    first: Budget,
    rest: Budget,
    replies: Seq<Result<Seq<char>, E>>,
)
    requires
        caps_ordered(first, rest),
        positive(first),
        positive(rest),
    ensures
        chunking(text, first, rest, replies).outcome() matches Ok(chunks) ==> forall|k: int|
            0 <= k < chunks.len() ==> within_chars(
                (#[trigger] chunks[k]).text,
                budget_for(k, first, rest),
            ),
{
    let start = Progress::<E>::start(first, rest);
    lemma_sentences_chars(start, text_sentences(text), 0, replies, first, rest);
}

/// Options that are accepted come to budgets that every text can be split under: the
/// first one allows no more than the other, neither holds a chunk to nothing, and no
/// chunk is sized past the model's context.
pub proof fn accepted_options_give_sound_budgets(options: Options)
    requires
        fault_of(options) is None,
    ensures
        ({
            let (first, rest) = budgets_of(options.chunk_chars, options.chunk_phonemes);
            &&& caps_ordered(first, rest)
            &&& positive(first)
            &&& positive(rest)
            &&& 0 < first.phonemes <= rest.phonemes <= MAX_PHONEME_LENGTH
        }),
{
}

} // verus!
