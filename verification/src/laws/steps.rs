//! What every step of splitting a text leaves alone.

use vstd::prelude::*;

use crate::text::chunk::Progress;
use crate::text::packer::Spoken;
use crate::text::split::clauses;

verus! {

/// Whether `after` can follow `before`: the budget in force is the one from
/// before or the wide one, and what the phonemiser was asked earlier stands.
pub open spec fn follows<E>(before: Progress<E>, after: Progress<E>) -> bool {
    &&& after.packing.rest == before.packing.rest
    &&& after.packing.budget == before.packing.budget || after.packing.budget
        == before.packing.rest
    &&& before.asked.len() <= after.asked.len()
    &&& forall|i: int| 0 <= i < before.asked.len() ==> after.asked[i] == #[trigger] before.asked[i]
}

/// Phonemising clauses: the first one is asked for next.
pub proof fn lemma_clauses_follow<E>(
    p: Progress<E>,
    parts: Seq<Seq<char>>,
    i: int,
    joinable: bool,
    replies: Seq<Result<Seq<char>, E>>,
)
    requires
        0 <= i <= parts.len(),
    ensures
        follows(p, p.clauses(parts, i, joinable, replies)),
        p.failed is None && i < parts.len() ==> {
            let after = p.clauses(parts, i, joinable, replies);
            after.asked.len() > p.asked.len() && after.asked[p.asked.len() as int] == parts[i]
        },
    decreases parts.len() - i,
{
    if p.failed is None && i < parts.len() {
        if let Ok(phonemes) = replies[p.asked.len() as int] {
            let piece = Spoken { text: parts[i], phonemes };
            let next = Progress {
                packing: p.packing.push(piece, i > 0 || joinable),
                asked: p.asked.push(parts[i]),
                ..p
            };
            lemma_clauses_follow(next, parts, i + 1, joinable, replies);
            let after = next.clauses(parts, i + 1, joinable, replies);
            assert(next.asked[p.asked.len() as int] == parts[i]);
            assert forall|k: int| 0 <= k < p.asked.len() implies after.asked[k]
                == #[trigger] p.asked[k] by {
                assert(next.asked[k] == p.asked[k]);
            }
        }
    }
}

/// Phonemising a piece: it is asked for next.
pub proof fn lemma_part_follows<E>(
    p: Progress<E>,
    text: Seq<char>,
    joinable: bool,
    replies: Seq<Result<Seq<char>, E>>,
)
    ensures
        follows(p, p.part(text, joinable, replies)),
        p.part(text, joinable, replies).asked.len() > p.asked.len(),
        p.part(text, joinable, replies).asked[p.asked.len() as int] == text,
{
    if let Ok(phonemes) = replies[p.asked.len() as int] {
        let packing = if phonemes.len() > p.packing.budget.phonemes && p.packing.held is Some {
            p.packing.close()
        } else {
            p.packing
        };
        if !(phonemes.len() <= packing.budget.phonemes || clauses(text).len() < 2) {
            let next = Progress { packing, asked: p.asked.push(text), ..p };
            lemma_clauses_follow(next, clauses(text), 0, joinable, replies);
            let after = next.clauses(clauses(text), 0, joinable, replies);
            assert(next.asked[p.asked.len() as int] == text);
            assert forall|k: int| 0 <= k < p.asked.len() implies after.asked[k]
                == #[trigger] p.asked[k] by {
                assert(next.asked[k] == p.asked[k]);
            }
        }
    }
}

/// Phonemising the pieces of a sentence.
pub proof fn lemma_parts_follow<E>(
    p: Progress<E>,
    parts: Seq<Seq<char>>,
    i: int,
    joinable: bool,
    replies: Seq<Result<Seq<char>, E>>,
)
    requires
        0 <= i <= parts.len(),
    ensures
        follows(p, p.parts(parts, i, joinable, replies)),
    decreases parts.len() - i,
{
    if p.failed is None && i < parts.len() {
        let next = p.part(parts[i], joinable, replies);
        lemma_part_follows(p, parts[i], joinable, replies);
        lemma_parts_follow(next, parts, i + 1, joinable, replies);
        let after = next.parts(parts, i + 1, joinable, replies);
        assert forall|k: int| 0 <= k < p.asked.len() implies after.asked[k]
            == #[trigger] p.asked[k] by {
            assert(next.asked[k] == p.asked[k]);
        }
    }
}

/// Taking up a sentence.
pub proof fn lemma_sentence_follows<E>(
    p: Progress<E>,
    sentence: Seq<char>,
    replies: Seq<Result<Seq<char>, E>>,
)
    ensures
        follows(p, p.before_sentence(sentence)),
        follows(p, p.sentence(sentence, replies)),
{
    let ready = p.before_sentence(sentence);
    let parts = ready.cut(sentence);
    lemma_parts_follow(ready, parts, 0, parts.len() == 1, replies);
}

/// Going through the sentences of a text.
pub proof fn lemma_sentences_follow<E>(
    p: Progress<E>,
    list: Seq<Seq<char>>,
    i: int,
    replies: Seq<Result<Seq<char>, E>>,
)
    requires
        0 <= i <= list.len(),
    ensures
        follows(p, p.sentences(list, i, replies)),
    decreases list.len() - i,
{
    if p.failed is None && i < list.len() {
        let next = p.sentence(list[i], replies);
        lemma_sentence_follows(p, list[i], replies);
        lemma_sentences_follow(next, list, i + 1, replies);
        let after = next.sentences(list, i + 1, replies);
        assert forall|k: int| 0 <= k < p.asked.len() implies after.asked[k]
            == #[trigger] p.asked[k] by {
            assert(next.asked[k] == p.asked[k]);
        }
    }
}

/// Once the phonemiser has failed, nothing more is done.
pub proof fn lemma_failed<E>(
    p: Progress<E>,
    list: Seq<Seq<char>>,
    i: int,
    joinable: bool,
    replies: Seq<Result<Seq<char>, E>>,
)
    ensures
        p.failed is Some ==> p.parts(list, i, joinable, replies) == p,
        p.failed is Some ==> p.sentences(list, i, replies) == p,
{
}

} // verus!
