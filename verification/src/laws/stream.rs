//! What a stream of text comes to.

use vstd::prelude::*;

use crate::chars::{
    lemma_space_end, lemma_space_start, lemma_trim, letters, space_end, space_start, trim,
};
use crate::laws::letters::{
    chunks_keep_every_letter, lemma_letters_add, lemma_letters_blank, lemma_letters_of_add,
    lemma_letters_of_one, letters_of, line_keeps_closers, lines_keep_closers,
    stream_keeps_closers, streamed, streams_keep_every_letter, texts,
};
use crate::laws::solid::{blank_text_yields_nothing, positive, positive_caps_can_chunk};
use crate::laws::steps::{
    lemma_clauses_follow, lemma_part_follows, lemma_parts_follow, lemma_sentences_follow,
};
use crate::text::chunk::{
    chunking, is_chunking, may_answer, may_answer_all, outcome_of, Progress,
};
use crate::text::packer::{Budget, Chunk, Spoken};
use crate::text::sentences::{
    break_at, breaks, is_closer, is_terminal, lemma_breaks_from, lemma_line_end, line_end,
    text_sentences,
};
use crate::text::split::clauses;
use crate::text::stream::{budget_after, is_push, patience, released};

verus! {

/// Whether `phonemize` has one answer for every text.
pub open spec fn is_pure<F, E>(phonemize: F) -> bool
    where F: FnMut(&str) -> Result<String, E>
{
    forall|text: Seq<char>, a: Result<Seq<char>, E>, b: Result<Seq<char>, E>|
        #[trigger] may_answer(phonemize, text, a) && #[trigger] may_answer(phonemize, text, b)
            ==> a == b
}

/// Whether `replies` are what `voice` answers for `asked`.
spec fn agree<E>(
    voice: spec_fn(Seq<char>) -> Result<Seq<char>, E>,
    asked: Seq<Seq<char>>,
    replies: Seq<Result<Seq<char>, E>>,
) -> bool {
    forall|i: int| 0 <= i < asked.len() ==> #[trigger] replies[i] == voice(asked[i])
}

proof fn lemma_agree_earlier<E>(
    voice: spec_fn(Seq<char>) -> Result<Seq<char>, E>,
    earlier: Seq<Seq<char>>,
    asked: Seq<Seq<char>>,
    replies: Seq<Result<Seq<char>, E>>,
)
    requires
        agree(voice, asked, replies),
        earlier.len() <= asked.len(),
        forall|i: int| 0 <= i < earlier.len() ==> asked[i] == #[trigger] earlier[i],
    ensures
        agree(voice, earlier, replies),
{
    assert forall|i: int| 0 <= i < earlier.len() implies #[trigger] replies[i] == voice(
        earlier[i],
    ) by {
        assert(asked[i] == earlier[i]);
    }
}

proof fn lemma_clauses_agree<E>(
    voice: spec_fn(Seq<char>) -> Result<Seq<char>, E>,
    p: Progress<E>,
    parts: Seq<Seq<char>>,
    i: int,
    joinable: bool,
    a: Seq<Result<Seq<char>, E>>,
    b: Seq<Result<Seq<char>, E>>,
)
    requires
        0 <= i <= parts.len(),
        agree(voice, p.clauses(parts, i, joinable, a).asked, a),
        agree(voice, p.clauses(parts, i, joinable, b).asked, b),
    ensures
        p.clauses(parts, i, joinable, a) == p.clauses(parts, i, joinable, b),
    decreases parts.len() - i,
{
    if p.failed is None && i < parts.len() {
        let n = p.asked.len() as int;
        lemma_clauses_follow(p, parts, i, joinable, a);
        lemma_clauses_follow(p, parts, i, joinable, b);
        assert(a[n] == voice(parts[i]));
        assert(b[n] == voice(parts[i]));
        if let Ok(phonemes) = a[n] {
            let piece = Spoken { text: parts[i], phonemes };
            let next = Progress {
                packing: p.packing.push(piece, i > 0 || joinable),
                asked: p.asked.push(parts[i]),
                ..p
            };
            lemma_clauses_agree(voice, next, parts, i + 1, joinable, a, b);
        }
    }
}

proof fn lemma_part_agree<E>(
    voice: spec_fn(Seq<char>) -> Result<Seq<char>, E>,
    p: Progress<E>,
    text: Seq<char>,
    joinable: bool,
    a: Seq<Result<Seq<char>, E>>,
    b: Seq<Result<Seq<char>, E>>,
)
    requires
        agree(voice, p.part(text, joinable, a).asked, a),
        agree(voice, p.part(text, joinable, b).asked, b),
    ensures
        p.part(text, joinable, a) == p.part(text, joinable, b),
{
    let n = p.asked.len() as int;
    lemma_part_follows(p, text, joinable, a);
    lemma_part_follows(p, text, joinable, b);
    assert(a[n] == voice(text));
    assert(b[n] == voice(text));
    if let Ok(phonemes) = a[n] {
        let packing = if phonemes.len() > p.packing.budget.phonemes && p.packing.held is Some {
            p.packing.close()
        } else {
            p.packing
        };
        if phonemes.len() > packing.budget.phonemes && clauses(text).len() >= 2 {
            let asking = Progress { packing, asked: p.asked.push(text), ..p };
            lemma_clauses_agree(voice, asking, clauses(text), 0, joinable, a, b);
        }
    }
}

proof fn lemma_parts_agree<E>(
    voice: spec_fn(Seq<char>) -> Result<Seq<char>, E>,
    p: Progress<E>,
    parts: Seq<Seq<char>>,
    i: int,
    joinable: bool,
    a: Seq<Result<Seq<char>, E>>,
    b: Seq<Result<Seq<char>, E>>,
)
    requires
        0 <= i <= parts.len(),
        agree(voice, p.parts(parts, i, joinable, a).asked, a),
        agree(voice, p.parts(parts, i, joinable, b).asked, b),
    ensures
        p.parts(parts, i, joinable, a) == p.parts(parts, i, joinable, b),
    decreases parts.len() - i,
{
    if p.failed is None && i < parts.len() {
        let x = p.part(parts[i], joinable, a);
        let y = p.part(parts[i], joinable, b);
        let after_x = x.parts(parts, i + 1, joinable, a);
        let after_y = y.parts(parts, i + 1, joinable, b);
        assert(p.parts(parts, i, joinable, a) == after_x);
        assert(p.parts(parts, i, joinable, b) == after_y);
        lemma_parts_follow(x, parts, i + 1, joinable, a);
        lemma_parts_follow(y, parts, i + 1, joinable, b);
        lemma_agree_earlier(voice, x.asked, after_x.asked, a);
        lemma_agree_earlier(voice, y.asked, after_y.asked, b);
        lemma_part_agree(voice, p, parts[i], joinable, a, b);
        lemma_parts_agree(voice, x, parts, i + 1, joinable, a, b);
    }
}

proof fn lemma_sentences_agree<E>(
    voice: spec_fn(Seq<char>) -> Result<Seq<char>, E>,
    p: Progress<E>,
    list: Seq<Seq<char>>,
    i: int,
    a: Seq<Result<Seq<char>, E>>,
    b: Seq<Result<Seq<char>, E>>,
)
    requires
        0 <= i <= list.len(),
        agree(voice, p.sentences(list, i, a).asked, a),
        agree(voice, p.sentences(list, i, b).asked, b),
    ensures
        p.sentences(list, i, a) == p.sentences(list, i, b),
    decreases list.len() - i,
{
    if p.failed is None && i < list.len() {
        let x = p.sentence(list[i], a);
        let y = p.sentence(list[i], b);
        let after_x = x.sentences(list, i + 1, a);
        let after_y = y.sentences(list, i + 1, b);
        assert(p.sentences(list, i, a) == after_x);
        assert(p.sentences(list, i, b) == after_y);
        lemma_sentences_follow(x, list, i + 1, a);
        lemma_sentences_follow(y, list, i + 1, b);
        lemma_agree_earlier(voice, x.asked, after_x.asked, a);
        lemma_agree_earlier(voice, y.asked, after_y.asked, b);
        let ready = p.before_sentence(list[i]);
        let parts = ready.cut(list[i]);
        lemma_parts_agree(voice, ready, parts, 0, parts.len() == 1, a, b);
        lemma_sentences_agree(voice, x, list, i + 1, a, b);
    }
}

/// With a phonemiser that has one answer for every text, a text has one splitting:
/// whatever splits it, the same chunks come of it, or the same error.
pub proof fn a_pure_phonemiser_gives_one_splitting<F, E>(
    phonemize: F,
    text: Seq<char>,
    first: Budget,
    rest: Budget,
    a: Result<Vec<Chunk>, E>,
    b: Result<Vec<Chunk>, E>,
)
    where F: FnMut(&str) -> Result<String, E>
    requires
        is_pure(phonemize),
        is_chunking(phonemize, text, first, rest, a),
        is_chunking(phonemize, text, first, rest, b),
    ensures
        outcome_of(a) == outcome_of(b),
{
    let x = choose|replies: Seq<Result<Seq<char>, E>>|
        {
            let run = #[trigger] chunking(text, first, rest, replies);
            &&& may_answer_all(phonemize, run.asked, replies)
            &&& outcome_of(a) == run.outcome()
        };
    let y = choose|replies: Seq<Result<Seq<char>, E>>|
        {
            let run = #[trigger] chunking(text, first, rest, replies);
            &&& may_answer_all(phonemize, run.asked, replies)
            &&& outcome_of(b) == run.outcome()
        };
    let voice = |t: Seq<char>|
        choose|reply: Result<Seq<char>, E>| #[trigger] may_answer(phonemize, t, reply);
    let run_x = chunking(text, first, rest, x);
    let run_y = chunking(text, first, rest, y);
    assert forall|i: int| 0 <= i < run_x.asked.len() implies #[trigger] x[i] == voice(
        run_x.asked[i],
    ) by {
        assert(may_answer(phonemize, run_x.asked[i], x[i]));
    }
    assert forall|i: int| 0 <= i < run_y.asked.len() implies #[trigger] y[i] == voice(
        run_y.asked[i],
    ) by {
        assert(may_answer(phonemize, run_y.asked[i], y[i]));
    }
    let start = Progress::<E>::start(first, rest);
    lemma_sentences_agree(voice, start, text_sentences(text), 0, x, y);
}

/// The first thing fed to a stream, for a phonemiser that has one answer for every text:
/// it comes to what splitting all of it up to the last sentence boundary comes to, and
/// what follows that is held back. Without a boundary it comes to nothing and all of it
/// is held back, unless it is too long to wait for one: then it comes to what splitting
/// all of it does. `pushed` is what feeding it gives, `left` what is held back, and
/// `split` what splitting gives.
pub proof fn the_first_push_gives_what_splitting_gives<F, E>(
    phonemize: F,
    piece: Seq<char>,
    first: Budget,
    rest: Budget,
    pushed: Result<Vec<Chunk>, E>,
    left: Seq<char>,
    split: Result<Vec<Chunk>, E>,
)
    where F: FnMut(&str) -> Result<String, E>
    requires
        is_pure(phonemize),
        is_push(phonemize, Seq::<char>::empty() + piece, first, rest, pushed, left),
    ensures
        breaks(piece).len() > 0 ==> {
            let (start, end) = breaks(piece).last();
            &&& left == piece.skip(end)
            &&& is_chunking(phonemize, piece.subrange(0, start), first, rest, split)
                ==> outcome_of(pushed) == outcome_of(split)
        },
        breaks(piece).len() == 0 && piece.len() < patience(first) ==> left == piece && (
        pushed matches Ok(chunks) && chunks@.len() == 0),
        breaks(piece).len() == 0 && piece.len() >= patience(first) ==> {
            &&& left == Seq::<char>::empty()
            &&& is_chunking(phonemize, piece, first, rest, split) ==> outcome_of(pushed)
                == outcome_of(split)
        },
{
    assert(Seq::<char>::empty() + piece =~= piece);
    if let Some((text, _)) = released(piece, first) {
        if is_chunking(phonemize, text, first, rest, split) {
            a_pure_phonemiser_gives_one_splitting(phonemize, text, first, rest, pushed, split);
        }
    }
}

/// Once a stream is finished nothing is held back, and finishing it again gives nothing.
pub proof fn finishing_again_gives_nothing<F, E>(
    phonemize: F,
    budget: Budget,
    rest: Budget,
    r: Result<Vec<Chunk>, E>,
)
    where F: FnMut(&str) -> Result<String, E>
    requires
        is_chunking(phonemize, Seq::empty(), budget, rest, r),
    ensures
        r matches Ok(chunks) && chunks@.len() == 0,
{
    let replies = choose|replies: Seq<Result<Seq<char>, E>>|
        {
            let run = #[trigger] chunking(Seq::empty(), budget, rest, replies);
            &&& may_answer_all(phonemize, run.asked, replies)
            &&& outcome_of(r) == run.outcome()
        };
    blank_text_yields_nothing(Seq::empty(), budget, rest, replies);
    assert(outcome_of(r)->Ok_0.len() == 0);
}

/// All of the pieces, one after the other.
pub open spec fn fed(pieces: Seq<Seq<char>>) -> Seq<char>
    decreases pieces.len(),
{
    if pieces.len() == 0 {
        Seq::empty()
    } else {
        fed(pieces.drop_last()) + pieces.last()
    }
}

/// Whether no closing quote or bracket follows the end of a sentence directly.
pub open spec fn closers_stand_apart(s: Seq<char>) -> bool {
    forall|i: int| 0 <= i < s.len() - 1 && is_terminal(#[trigger] s[i]) ==> !is_closer(s[i + 1])
}

proof fn lemma_apart_inside(s: Seq<char>, from: int, to: int)
    requires
        closers_stand_apart(s),
        0 <= from <= to <= s.len(),
    ensures
        closers_stand_apart(s.subrange(from, to)),
{
    let t = s.subrange(from, to);
    assert forall|i: int| 0 <= i < t.len() - 1 && is_terminal(#[trigger] t[i]) implies !is_closer(
        t[i + 1],
    ) by {
        assert(t[i] == s[from + i]);
        assert(t[i + 1] == s[from + i + 1]);
    }
}

/// The white space at either end aside, a text is part of itself.
proof fn lemma_trim_apart(s: Seq<char>)
    requires
        closers_stand_apart(s),
    ensures
        closers_stand_apart(trim(s)),
{
    lemma_trim(s);
    let from = space_end(s, 0);
    let to = space_start(s, s.len() as int);
    lemma_space_end(s, 0);
    lemma_space_start(s, s.len() as int);
    if from < to {
        lemma_apart_inside(s, from, to);
    }
}

/// A boundary takes no closer with it where none follows the end of a sentence.
proof fn lemma_breaks_apart(s: Seq<char>, k: int)
    requires
        closers_stand_apart(s),
        0 <= k < breaks(s).len(),
    ensures
        !is_closer(s[breaks(s)[k].0]),
{
    lemma_breaks_from(s, 0);
    let b = breaks(s)[k];
    assert(break_at(s, b.0 - 1) == Some(b));
    assert(is_terminal(s[b.0 - 1]));
}

proof fn lemma_lines_apart(s: Seq<char>, i: int)
    requires
        closers_stand_apart(s),
        0 <= i <= s.len(),
    ensures
        lines_keep_closers(s, i),
    decreases s.len() - i,
{
    let end = line_end(s, i);
    lemma_line_end(s, i);
    let line = s.subrange(i, end);
    lemma_apart_inside(s, i, end);
    lemma_trim_apart(line);
    assert forall|k: int| #![trigger breaks(trim(line))[k]]
        0 <= k < breaks(trim(line)).len() implies !is_closer(
        trim(line)[breaks(trim(line))[k].0],
    ) by {
        lemma_breaks_apart(trim(line), k);
    }
    assert(line_keeps_closers(line));
    if end < s.len() {
        lemma_lines_apart(s, end + 1);
    }
}

/// What a stream holds back is the end of what it was fed.
proof fn lemma_held_is_the_end(pieces: Seq<Seq<char>>, budgets: Seq<Budget>) -> (from: int)
    ensures
        0 <= from <= fed(pieces).len(),
        streamed(pieces, budgets).1 == fed(pieces).skip(from),
    decreases pieces.len(),
{
    if pieces.len() == 0 {
        assert(streamed(pieces, budgets).1 =~= fed(pieces).skip(0));
        0
    } else {
        let before = lemma_held_is_the_end(pieces.drop_last(), budgets);
        let held = streamed(pieces.drop_last(), budgets).1;
        let pending = held + pieces.last();
        assert(pending =~= fed(pieces).skip(before));
        match released(pending, budgets[pieces.len() - 1]) {
            None => before,
            Some((text, left)) => {
                let from = if breaks(pending).len() > 0 {
                    lemma_breaks_from(pending, 0);
                    before + breaks(pending).last().1
                } else {
                    fed(pieces).len() as int
                };
                assert(left =~= fed(pieces).skip(from));
                from
            },
        }
    }
}

/// A piece is held with what came before.
proof fn lemma_pending_apart(pieces: Seq<Seq<char>>, budgets: Seq<Budget>)
    requires
        pieces.len() > 0,
        closers_stand_apart(fed(pieces)),
    ensures
        closers_stand_apart(streamed(pieces.drop_last(), budgets).1 + pieces.last()),
        closers_stand_apart(fed(pieces.drop_last())),
{
    let all = fed(pieces);
    let before = lemma_held_is_the_end(pieces.drop_last(), budgets);
    let pending = streamed(pieces.drop_last(), budgets).1 + pieces.last();
    assert(pending =~= all.subrange(before, all.len() as int));
    lemma_apart_inside(all, before, all.len() as int);
    assert(fed(pieces.drop_last()) =~= all.subrange(0, fed(pieces.drop_last()).len() as int));
    lemma_apart_inside(all, 0, fed(pieces.drop_last()).len() as int);
}

proof fn lemma_stream_apart(pieces: Seq<Seq<char>>, budgets: Seq<Budget>)
    requires
        closers_stand_apart(fed(pieces)),
    ensures
        stream_keeps_closers(pieces, budgets),
    decreases pieces.len(),
{
    if pieces.len() > 0 {
        lemma_pending_apart(pieces, budgets);
        lemma_stream_apart(pieces.drop_last(), budgets);
        let pending = streamed(pieces.drop_last(), budgets).1 + pieces.last();
        if breaks(pending).len() > 0 {
            lemma_breaks_apart(pending, breaks(pending).len() - 1);
        }
    }
}

/// The texts of the chunks that feeding a stream `pieces` came to, or none where
/// phonemising failed; `budgets` and `replies` are those in force and given at each of
/// them.
pub open spec fn stream_chunks<E>(
    pieces: Seq<Seq<char>>,
    budgets: Seq<Budget>,
    rest: Budget,
    replies: Seq<Seq<Result<Seq<char>, E>>>,
) -> Option<Seq<Seq<char>>>
    decreases pieces.len(),
{
    if pieces.len() == 0 {
        Some(Seq::empty())
    } else {
        let n = pieces.len() - 1;
        let pending = streamed(pieces.drop_last(), budgets).1 + pieces.last();
        match stream_chunks(pieces.drop_last(), budgets, rest, replies) {
            None => None,
            Some(before) => match released(pending, budgets[n]) {
                None => Some(before),
                Some((text, _)) => match chunking(text, budgets[n], rest, replies[n]).outcome() {
                    Ok(chunks) => Some(before + texts(chunks)),
                    Err(_) => None,
                },
            },
        }
    }
}

/// Splitting a text in which closers stand apart keeps all of its letters.
proof fn lemma_chunks_apart<E>(
    text: Seq<char>,
    budget: Budget,
    rest: Budget,
    replies: Seq<Result<Seq<char>, E>>,
)
    requires
        closers_stand_apart(text),
        positive(budget),
        positive(rest),
    ensures
        chunking(text, budget, rest, replies).outcome() matches Ok(chunks) ==> letters_of(
            texts(chunks),
        ) == letters(text),
{
    lemma_trim_apart(text);
    lemma_lines_apart(trim(text), 0);
    positive_caps_can_chunk(text, budget, rest);
    chunks_keep_every_letter(text, budget, rest, replies);
}

proof fn lemma_stream_chunks<E>(
    pieces: Seq<Seq<char>>,
    budgets: Seq<Budget>,
    rest: Budget,
    replies: Seq<Seq<Result<Seq<char>, E>>>,
)
    requires
        closers_stand_apart(fed(pieces)),
        positive(rest),
        pieces.len() <= budgets.len(),
        forall|k: int| 0 <= k < budgets.len() ==> positive(#[trigger] budgets[k]),
    ensures
        stream_chunks(pieces, budgets, rest, replies) matches Some(said) ==> letters_of(said)
            == letters_of(streamed(pieces, budgets).0),
    decreases pieces.len(),
{
    if pieces.len() > 0 {
        let n = pieces.len() - 1;
        lemma_pending_apart(pieces, budgets);
        lemma_stream_chunks(pieces.drop_last(), budgets, rest, replies);
        let (out, held) = streamed(pieces.drop_last(), budgets);
        let pending = held + pieces.last();
        if let Some(before) = stream_chunks(pieces.drop_last(), budgets, rest, replies) {
            if let Some((text, left)) = released(pending, budgets[n]) {
                assert(positive(budgets[n]));
                if breaks(pending).len() > 0 {
                    lemma_breaks_from(pending, 0);
                    lemma_apart_inside(pending, 0, breaks(pending).last().0);
                }
                lemma_chunks_apart(text, budgets[n], rest, replies[n]);
                if let Ok(chunks) = chunking(text, budgets[n], rest, replies[n]).outcome() {
                    lemma_letters_of_add(before, texts(chunks));
                    lemma_letters_of_add(out, seq![text]);
                    lemma_letters_of_one(text);
                    assert(out.push(text) =~= out + seq![text]);
                }
            }
        }
    } else {
        assert(streamed(pieces, budgets).0 =~= Seq::empty());
    }
}

/// The chunks of what a stream releases and of what is left at its end.
proof fn lemma_stream_speaks<E>(
    pieces: Seq<Seq<char>>,
    budgets: Seq<Budget>,
    rest: Budget,
    replies: Seq<Seq<Result<Seq<char>, E>>>,
)
    requires
        closers_stand_apart(fed(pieces)),
        positive(rest),
        budgets.len() == pieces.len() + 1,
        forall|k: int| 0 <= k < budgets.len() ==> positive(#[trigger] budgets[k]),
    ensures
        ({
            let held = streamed(pieces, budgets).1;
            let n = pieces.len() as int;
            stream_chunks(pieces, budgets, rest, replies) matches Some(said) ==> chunking(
                held,
                budgets[n],
                rest,
                replies[n],
            ).outcome() matches Ok(chunks) ==> letters_of(said + texts(chunks)) == letters(
                fed(pieces),
            )
        }),
{
    let n = pieces.len() as int;
    let held = streamed(pieces, budgets).1;
    let from = lemma_held_is_the_end(pieces, budgets);
    assert(held =~= fed(pieces).subrange(from, fed(pieces).len() as int));
    lemma_apart_inside(fed(pieces), from, fed(pieces).len() as int);
    assert(positive(budgets[n]));
    lemma_chunks_apart(held, budgets[n], rest, replies[n]);
    lemma_stream_apart(pieces, budgets);
    streams_keep_every_letter(pieces, budgets);
    lemma_stream_chunks(pieces, budgets, rest, replies);
    lemma_fed_letters(pieces);
    if let Some(said) = stream_chunks(pieces, budgets, rest, replies) {
        if let Ok(chunks) = chunking(held, budgets[n], rest, replies[n]).outcome() {
            lemma_letters_of_add(said, texts(chunks));
        }
    }
}

proof fn lemma_fed_letters(pieces: Seq<Seq<char>>)
    ensures
        letters(fed(pieces)) == letters_of(pieces),
    decreases pieces.len(),
{
    if pieces.len() == 0 {
        lemma_letters_blank(fed(pieces));
    } else {
        lemma_fed_letters(pieces.drop_last());
        lemma_letters_add(fed(pieces.drop_last()), pieces.last());
    }
}

/// What a stream holds back, and the budget in force.
pub struct Holding {
    pub text: Seq<char>,
    pub budget: Budget,
}

/// Whether feeding a new stream `pieces`, one after the other, comes to `results`;
/// `states` are what it holds before each of them and at the end.
pub open spec fn is_fed<F, E>(
    phonemize: F,
    first: Budget,
    rest: Budget,
    pieces: Seq<Seq<char>>,
    results: Seq<Result<Vec<Chunk>, E>>,
    states: Seq<Holding>,
) -> bool
    where F: FnMut(&str) -> Result<String, E>
{
    &&& results.len() == pieces.len()
    &&& states.len() == pieces.len() + 1
    &&& states[0] == Holding { text: Seq::empty(), budget: first }
    &&& forall|k: int|
        0 <= k < pieces.len() ==> is_push(
            phonemize,
            states[k].text + #[trigger] pieces[k],
            states[k].budget,
            rest,
            results[k],
            states[k + 1].text,
        ) && states[k + 1].budget == budget_after(states[k].budget, rest, results[k])
}

/// The texts of the chunks in `results`, in order.
pub open spec fn all_texts<E>(results: Seq<Result<Vec<Chunk>, E>>) -> Seq<Seq<char>>
    decreases results.len(),
{
    if results.len() == 0 {
        Seq::empty()
    } else {
        all_texts(results.drop_last()) + match outcome_of(results.last()) {
            Ok(chunks) => texts(chunks),
            Err(_) => Seq::empty(),
        }
    }
}

/// The answers that `r` came of.
spec fn answers_behind<F, E>(
    phonemize: F,
    text: Seq<char>,
    budget: Budget,
    rest: Budget,
    r: Result<Vec<Chunk>, E>,
) -> Seq<Result<Seq<char>, E>>
    where F: FnMut(&str) -> Result<String, E>
{
    choose|replies: Seq<Result<Seq<char>, E>>|
        {
            let run = #[trigger] chunking(text, budget, rest, replies);
            &&& may_answer_all(phonemize, run.asked, replies)
            &&& outcome_of(r) == run.outcome()
        }
}

/// The budget in force is the first or the later one.
proof fn lemma_fed_budgets<F, E>(
    phonemize: F,
    first: Budget,
    rest: Budget,
    pieces: Seq<Seq<char>>,
    results: Seq<Result<Vec<Chunk>, E>>,
    states: Seq<Holding>,
    k: int,
)
    where F: FnMut(&str) -> Result<String, E>
    requires
        is_fed(phonemize, first, rest, pieces, results, states),
        0 <= k <= pieces.len(),
    ensures
        states[k].budget == first || states[k].budget == rest,
    decreases k,
{
    if k > 0 {
        lemma_fed_budgets(phonemize, first, rest, pieces, results, states, k - 1);
        assert(is_push(
            phonemize,
            states[k - 1].text + pieces[k - 1],
            states[k - 1].budget,
            rest,
            results[k - 1],
            states[k].text,
        ));
    }
}

/// What a stream holds and has said after `k` pieces.
proof fn lemma_fed<F, E>(
    phonemize: F,
    first: Budget,
    rest: Budget,
    pieces: Seq<Seq<char>>,
    results: Seq<Result<Vec<Chunk>, E>>,
    states: Seq<Holding>,
    budgets: Seq<Budget>,
    replies: Seq<Seq<Result<Seq<char>, E>>>,
    k: int,
)
    where F: FnMut(&str) -> Result<String, E>
    requires
        is_fed(phonemize, first, rest, pieces, results, states),
        0 <= k <= pieces.len(),
        forall|i: int| 0 <= i < results.len() ==> #[trigger] results[i] is Ok,
        budgets == Seq::new(states.len(), |i: int| states[i].budget),
        forall|i: int|
            0 <= i < pieces.len() ==> (released(
                states[i].text + pieces[i],
                states[i].budget,
            ) matches Some((text, _)) ==> #[trigger] replies[i] == answers_behind(
                phonemize,
                text,
                states[i].budget,
                rest,
                results[i],
            )),
    ensures
        streamed(pieces.take(k), budgets).1 == states[k].text,
        stream_chunks(pieces.take(k), budgets, rest, replies) == Some(all_texts(results.take(k))),
    decreases k,
{
    if k == 0 {
        assert(pieces.take(0).len() == 0);
        assert(results.take(0).len() == 0);
    } else {
        let i = k - 1;
        lemma_fed(phonemize, first, rest, pieces, results, states, budgets, replies, i);
        assert(pieces.take(k).drop_last() =~= pieces.take(i));
        assert(pieces.take(k).last() == pieces[i]);
        assert(results.take(k).drop_last() =~= results.take(i));
        assert(results.take(k).last() == results[i]);
        let pending = states[i].text + pieces[i];
        assert(is_push(phonemize, pending, states[i].budget, rest, results[i], states[k].text));
        assert(results[i] is Ok);
        match released(pending, states[i].budget) {
            Some((text, _)) => {
                assert(replies[i] == answers_behind(
                    phonemize,
                    text,
                    states[i].budget,
                    rest,
                    results[i],
                ));
                assert(outcome_of(results[i]) == chunking(
                    text,
                    states[i].budget,
                    rest,
                    replies[i],
                ).outcome());
            },
            None => {
                assert(texts(outcome_of(results[i])->Ok_0) =~= Seq::empty());
                assert(all_texts(results.take(k)) =~= all_texts(results.take(i)));
            },
        }
    }
}

/// However a text arrives, the chunks of everything fed to a stream and of finishing it
/// hold all of its letters, in order. Only a closing quote or bracket right after the end
/// of a sentence may be dropped, so there is to be none; and nothing is to fail.
/// `results` are what feeding it `pieces` gives, and `last` is what finishing it gives.
pub proof fn streams_speak_every_letter<F, E>(
    phonemize: F,
    first: Budget,
    rest: Budget,
    pieces: Seq<Seq<char>>,
    results: Seq<Result<Vec<Chunk>, E>>,
    states: Seq<Holding>,
    last: Result<Vec<Chunk>, E>,
)
    where F: FnMut(&str) -> Result<String, E>
    requires
        closers_stand_apart(fed(pieces)),
        positive(first),
        positive(rest),
        is_fed(phonemize, first, rest, pieces, results, states),
        is_chunking(phonemize, states.last().text, states.last().budget, rest, last),
        forall|k: int| 0 <= k < results.len() ==> #[trigger] results[k] is Ok,
        last is Ok,
    ensures
        letters_of(all_texts(results.push(last))) == letters(fed(pieces)),
{
    let n = pieces.len() as int;
    let budgets = Seq::new(states.len(), |i: int| states[i].budget);
    let replies = Seq::new(
        states.len(),
        |i: int|
            if i < n {
                answers_behind(
                    phonemize,
                    released(states[i].text + pieces[i], states[i].budget)->Some_0.0,
                    states[i].budget,
                    rest,
                    results[i],
                )
            } else {
                answers_behind(phonemize, states[i].text, states[i].budget, rest, last)
            },
    );
    assert forall|k: int| 0 <= k < budgets.len() implies positive(#[trigger] budgets[k]) by {
        lemma_fed_budgets(phonemize, first, rest, pieces, results, states, k);
    }
    lemma_fed(phonemize, first, rest, pieces, results, states, budgets, replies, n);
    assert(pieces.take(n) =~= pieces);
    assert(results.take(n) =~= results);
    lemma_stream_speaks(pieces, budgets, rest, replies);
    let all = results.push(last);
    assert(all.drop_last() =~= results);
    assert(outcome_of(last) == chunking(
        states[n].text,
        budgets[n],
        rest,
        replies[n],
    ).outcome());
}

} // verus!
