//! What is spoken of a text that is still growing.

use vstd::prelude::*;

use crate::text::chunk::{
    chunking, heard, is_chunking, may_answer, may_answer_all, outcome_of,
};
use crate::text::packer::{spoken, Budget, Chunk};
use crate::text::sentences::{breaks, lemma_breaks_from};
use crate::text::stream::{budget_after, is_push, released};

verus! {

/// A growing text is spoken up to the end of its last whole sentence, and what comes after it
/// is held back. Only the separator between the two is left out.
pub proof fn whole_sentences_are_released(pending: Seq<char>, budget: Budget)
    requires
        breaks(pending).len() > 0,
    ensures
        ({
            let cut = breaks(pending)[breaks(pending).len() - 1];
            &&& released(pending, budget) matches Some((text, tail))
            &&& text.len() == cut.0
            &&& tail.len() == pending.len() - cut.1
            &&& text + pending.subrange(cut.0, cut.1) + tail == pending
        }),
{
    lemma_breaks_from(pending, 0);
    let cut = breaks(pending)[breaks(pending).len() - 1];
    assert(pending.subrange(0, cut.0) + pending.subrange(cut.0, cut.1) + pending.skip(cut.1)
        =~= pending);
}

/// Text in which no sentence ends is held back until it is as long as a chunk may be, by the
/// cap on characters where there is one and by that on phonemes otherwise, and then all of
/// it is spoken.
pub proof fn unfinished_sentences_are_held_back(pending: Seq<char>, budget: Budget)
    requires
        breaks(pending).len() == 0,
    ensures
        ({
            let most = match budget.chars {
                Some(cap) => cap,
                None => budget.phonemes,
            };
            &&& pending.len() < most ==> released(pending, budget) is None
            &&& pending.len() >= most ==> released(pending, budget) == Some(
                (pending, Seq::<char>::empty()),
            )
        }),
{
}

/// What is held back yields no chunk and stays as it is. What is released is split into
/// chunks, and what came after it is held back.
pub proof fn what_is_released_is_split<F, E>(
    phonemize: F,
    pending: Seq<char>,
    budget: Budget,
    rest: Budget,
    r: Result<Vec<Chunk>, E>,
    left: Seq<char>,
) where F: FnMut(&str) -> Result<String, E>
    requires
        is_push(phonemize, pending, budget, rest, r, left),
    ensures
        released(pending, budget) is None ==> left == pending && r is Ok && r->Ok_0@.len() == 0,
        released(pending, budget) matches Some((text, tail)) ==> left == tail && is_chunking(
            phonemize,
            text,
            budget,
            rest,
            r,
        ),
{
}

/// A splitting is what the phonemiser's own answers make of it: there are answers, one for
/// each text that it was asked for and each of them one that it may give for that text, that
/// the chunks, or the error, come of.
pub proof fn splittings_come_of_answers<F, E>(
    phonemize: F,
    text: Seq<char>,
    first: Budget,
    rest: Budget,
    r: Result<Vec<Chunk>, E>,
) -> (replies: Seq<Result<Seq<char>, E>>) where F: FnMut(&str) -> Result<String, E>
    requires
        is_chunking(phonemize, text, first, rest, r),
    ensures
        ({
            let run = chunking(text, first, rest, replies);
            &&& replies.len() == run.asked.len()
            &&& forall|i: int|
                0 <= i < run.asked.len() ==> may_answer(
                    phonemize,
                    run.asked[i],
                    #[trigger] replies[i],
                )
            &&& r matches Err(e) ==> run.failed == Some(e)
            &&& r matches Ok(chunks) ==> run.failed is None && spoken(chunks@)
                == run.packing.finish()
        }),
{
    choose|replies: Seq<Result<Seq<char>, E>>|
        {
            let run = #[trigger] chunking(text, first, rest, replies);
            &&& may_answer_all(phonemize, run.asked, replies)
            &&& outcome_of(r) == run.outcome()
        }
}

/// An answer for a text is one that the phonemiser gives when it is asked for just that text.
pub proof fn answers_are_for_the_text_asked<F, E>(
    phonemize: F,
    text: Seq<char>,
    reply: Result<Seq<char>, E>,
) where F: FnMut(&str) -> Result<String, E>
    requires
        may_answer(phonemize, text, reply),
    ensures
        exists|asked: &str, answer: Result<String, E>| #[trigger]
            call_ensures(phonemize, (asked,), answer) && asked@ == text && match reply {
                Ok(phonemes) => answer matches Ok(said) && said@ == phonemes,
                Err(e) => answer == Err::<String, E>(e),
            },
{
    let (asked, answer) = choose|asked: &str, answer: Result<String, E>|
        asked@ == text && #[trigger] call_ensures(phonemize, (asked,), answer) && reply == heard(
            answer,
        );
    assert(call_ensures(phonemize, (asked,), answer));
}

/// The narrow budget is in force until a chunk is out, and the wide one from then on.
pub proof fn the_first_chunk_widens_the_budget<E>(
    budget: Budget,
    rest: Budget,
    chunks: Vec<Chunk>,
    e: E,
)
    ensures
        chunks@.len() == 0 ==> budget_after(budget, rest, Ok::<Vec<Chunk>, E>(chunks)) == budget,
        chunks@.len() > 0 ==> budget_after(budget, rest, Ok::<Vec<Chunk>, E>(chunks)) == rest,
        budget_after(budget, rest, Err::<Vec<Chunk>, E>(e)) == budget,
{
}

} // verus!
