//! How sentences are grouped into chunks.

use vstd::prelude::*;

use crate::text::chunk::{chunking, Progress};
use crate::text::packer::{Budget, Packing, Spoken};
use crate::text::sentences::text_sentences;
use crate::text::split::{clauses, hard_pieces};

verus! {

/// All of `list` in one chunk, in order.
pub open spec fn all_joined(list: Seq<Spoken>) -> Spoken
    decreases list.len(),
{
    if list.len() <= 1 {
        list[0]
    } else {
        all_joined(list.drop_last()).joined(list.last())
    }
}

/// Whether each of `chunks` is one of `groups`, joined.
pub open spec fn joined_groups(groups: Seq<Seq<Spoken>>, chunks: Seq<Spoken>) -> bool {
    &&& groups.len() == chunks.len()
    &&& forall|k: int|
        0 <= k < groups.len() ==> groups[k].len() > 0 && chunks[k] == all_joined(
            #[trigger] groups[k],
        )
}

/// The sentences of `text`, each with the phonemes that the phonemiser answered.
pub open spec fn spoken_sentences<E>(
    text: Seq<char>,
    replies: Seq<Result<Seq<char>, E>>,
) -> Seq<Spoken> {
    Seq::new(
        text_sentences(text).len(),
        |i: int| Spoken { text: text_sentences(text)[i], phonemes: replies[i]->Ok_0 },
    )
}

/// The chunk that `groups[k]` makes.
pub open spec fn group_chunk(groups: Seq<Seq<Spoken>>, k: int) -> Spoken {
    all_joined(groups[k])
}

/// Whether the groups are as large as they can be: a chunk of two or more pieces has no more
/// phonemes than it may have, and the first piece of the next one would have been too many.
/// The first chunk may have `first` phonemes, every later one `rest`.
pub open spec fn filled_groups(groups: Seq<Seq<Spoken>>, first: int, rest: int) -> bool {
    forall|k: int|
        0 <= k < groups.len() ==> {
            let limit = if k == 0 {
                first
            } else {
                rest
            };
            let size = (#[trigger] group_chunk(groups, k)).phonemes.len();
            &&& groups[k].len() > 1 ==> size <= limit
            &&& k + 1 < groups.len() ==> size + 1 + groups[k + 1][0].phonemes.len() > limit
        }
}

/// Whether what was packed after `base` is `groups`, those make up `all`, and each is as
/// large as it can be, `limit` phonemes being what the first of them may have.
spec fn packs(
    packing: Packing,
    base: Seq<Spoken>,
    groups: Seq<Seq<Spoken>>,
    all: Seq<Spoken>,
    limit: Budget,
) -> bool {
    &&& packing.open
    &&& groups.flatten() == all
    &&& forall|k: int| 0 <= k < groups.len() ==> (#[trigger] groups[k]).len() > 0
    &&& filled_groups(groups, limit.phonemes as int, packing.rest.phonemes as int)
    &&& if groups.len() == 0 {
        packing.held is None && packing.out == base && packing.budget == limit
    } else {
        &&& packing.held == Some(all_joined(groups.last()))
        &&& packing.out == base + Seq::new(
            (groups.len() - 1) as nat,
            |k: int| all_joined(groups[k]),
        )
        &&& packing.budget == if groups.len() == 1 {
            limit
        } else {
            packing.rest
        }
    }
}

/// The groups once `piece` is packed too.
proof fn lemma_push_packs(
    packing: Packing,
    base: Seq<Spoken>,
    piece: Spoken,
    groups: Seq<Seq<Spoken>>,
    all: Seq<Spoken>,
    limit: Budget,
) -> (after: Seq<Seq<Spoken>>)
    requires
        packs(packing, base, groups, all, limit),
        packing.budget.chars is None,
        packing.rest.chars is None,
    ensures
        packs(packing.push(piece, true), base, after, all.push(piece), limit),
        packing.push(piece, true).budget.chars is None,
        packing.push(piece, true).rest == packing.rest,
        packing.push(piece, true).held is Some,
{
    let next = packing.push(piece, true);
    let first = limit.phonemes as int;
    let rest = packing.rest.phonemes as int;
    let joins = packing.held is Some && packing.budget.allows(packing.held->0, piece);
    let after = if joins {
        groups.drop_last().push(groups.last().push(piece))
    } else {
        groups.push(seq![piece])
    };
    if joins {
        let last = groups.last();
        assert(last.push(piece).drop_last() =~= last);
        assert(groups =~= groups.drop_last().push(last));
        groups.drop_last().lemma_flatten_push(last);
        groups.drop_last().lemma_flatten_push(last.push(piece));
        assert(next.out =~= base + Seq::new(
            (after.len() - 1) as nat,
            |k: int| all_joined(after[k]),
        ));
    } else {
        groups.lemma_flatten_push(seq![piece]);
        assert(next.out =~= base + Seq::new(
            (after.len() - 1) as nat,
            |k: int| all_joined(after[k]),
        ));
    }
    assert(after.flatten() =~= all.push(piece));
    assert forall|k: int| 0 <= k < after.len() implies {
        let limit = if k == 0 {
            first
        } else {
            rest
        };
        let size = (#[trigger] group_chunk(after, k)).phonemes.len();
        &&& after[k].len() > 1 ==> size <= limit
        &&& k + 1 < after.len() ==> size + 1 + after[k + 1][0].phonemes.len() > limit
    } by {
        if k < groups.len() {
            let old_chunk = group_chunk(groups, k);
            if k + 1 < groups.len() {
                assert(after[k] == groups[k]);
                assert(after[k + 1][0] == groups[k + 1][0]);
            }
        }
    }
    after
}

/// The chunks of a packing are its groups, joined.
proof fn lemma_packed_groups(
    packing: Packing,
    base: Seq<Spoken>,
    groups: Seq<Seq<Spoken>>,
    all: Seq<Spoken>,
    limit: Budget,
)
    requires
        packs(packing, base, groups, all, limit),
    ensures
        packing.finish().len() == base.len() + groups.len(),
        packing.finish().take(base.len() as int) == base,
        joined_groups(groups, packing.finish().skip(base.len() as int)),
{
    let chunks = packing.finish();
    assert(chunks.take(base.len() as int) =~= base);
    let tail = chunks.skip(base.len() as int);
    assert forall|k: int| 0 <= k < groups.len() implies groups[k].len() > 0 && tail[k]
        == all_joined(#[trigger] groups[k]) by {
        assert(tail[k] == chunks[base.len() + k]);
    }
}

proof fn lemma_sentences_pack<E>(
    p: Progress<E>,
    text: Seq<char>,
    i: int,
    replies: Seq<Result<Seq<char>, E>>,
    groups: Seq<Seq<Spoken>>,
    first: Budget,
) -> (after: Seq<Seq<Spoken>>)
    requires
        0 <= i <= text_sentences(text).len(),
        p.failed is None,
        p.packing.budget.chars is None,
        p.packing.rest.chars is None,
        p.packing.held is None ==> i == 0,
        i == 0 ==> p.packing.budget == first,
        p.asked == text_sentences(text).take(i),
        forall|k: int|
            0 <= k < text_sentences(text).len() ==> (#[trigger] replies[k] matches Ok(phonemes)
                && phonemes.len() <= p.packing.rest.phonemes && (k == 0 ==> phonemes.len()
                <= first.phonemes)),
        packs(
            p.packing,
            Seq::empty(),
            groups,
            spoken_sentences(text, replies).take(i),
            first,
        ),
    ensures
        ({
            let end = p.sentences(text_sentences(text), i, replies);
            &&& end.failed is None
            &&& end.asked == text_sentences(text)
            &&& end.packing.rest == p.packing.rest
            &&& packs(
                end.packing,
                Seq::empty(),
                after,
                spoken_sentences(text, replies),
                first,
            )
        }),
    decreases text_sentences(text).len() - i,
{
    let list = text_sentences(text);
    let said = spoken_sentences(text, replies);
    if i < list.len() {
        let piece = said[i];
        assert(p.before_sentence(list[i]) == p);
        assert(p.cut(list[i]) =~= seq![list[i]]);
        let parts = seq![list[i]];
        let next = p.part(list[i], true, replies);
        assert(p.parts(parts, 0, true, replies) == next.parts(parts, 1, true, replies));
        assert(next.parts(parts, 1, true, replies) == next);
        assert(p.sentence(list[i], replies) == next);
        assert(p.asked.len() == i);
        assert(replies[i] is Ok);
        assert(next.packing == p.packing.push(piece, true));
        let more = lemma_push_packs(
            p.packing,
            Seq::empty(),
            piece,
            groups,
            said.take(i),
            first,
        );
        assert(said.take(i).push(piece) =~= said.take(i + 1));
        assert(p.asked.push(list[i]) =~= list.take(i + 1));
        lemma_sentences_pack(next, text, i + 1, replies, more, first)
    } else {
        assert(list.take(i) =~= list);
        assert(said.take(i) =~= said);
        groups
    }
}

/// Without character caps, a sentence that fits is never split: each sentence is
/// phonemised once and every chunk is a run of whole sentences, spoken with the
/// phonemes that they were measured with, so that no sentence is lost, repeated
/// or moved. Every chunk takes as many sentences as it may.
pub proof fn sentences_that_fit_stay_whole<E>(
    text: Seq<char>,
    first: Budget,
    rest: Budget,
    replies: Seq<Result<Seq<char>, E>>,
)
    requires
        first.chars is None,
        rest.chars is None,
        forall|k: int|
            0 <= k < text_sentences(text).len() ==> (#[trigger] replies[k] matches Ok(phonemes)
                && phonemes.len() <= rest.phonemes && (k == 0 ==> phonemes.len()
                <= first.phonemes)),
    ensures
        chunking(text, first, rest, replies).asked == text_sentences(text),
        chunking(text, first, rest, replies).outcome() matches Ok(chunks) && exists|
            groups: Seq<Seq<Spoken>>,
        |
            joined_groups(groups, chunks) && #[trigger] groups.flatten() == spoken_sentences(
                text,
                replies,
            ) && filled_groups(groups, first.phonemes as int, rest.phonemes as int),
{
    let start = Progress::<E>::start(first, rest);
    let none = Seq::<Seq<Spoken>>::empty();
    assert(none.flatten() =~= Seq::<Spoken>::empty());
    assert(spoken_sentences(text, replies).take(0) =~= Seq::empty());
    assert(start.asked =~= text_sentences(text).take(0));
    let groups = lemma_sentences_pack(start, text, 0, replies, none, first);
    let end = start.sentences(text_sentences(text), 0, replies);
    let said = spoken_sentences(text, replies);
    lemma_packed_groups(end.packing, Seq::empty(), groups, said, first);
    assert(end.packing.finish().skip(0) =~= end.packing.finish());
}

/// The clauses of a sentence, each with the phonemes that the phonemiser answered, those
/// before them being `before` answers.
pub open spec fn spoken_clauses<E>(
    sentence: Seq<char>,
    before: int,
    replies: Seq<Result<Seq<char>, E>>,
) -> Seq<Spoken> {
    Seq::new(
        clauses(sentence).len(),
        |i: int| Spoken { text: clauses(sentence)[i], phonemes: replies[before + i]->Ok_0 },
    )
}

proof fn lemma_clauses_pack<E>(
    p: Progress<E>,
    base: Seq<Spoken>,
    sentence: Seq<char>,
    before: int,
    i: int,
    replies: Seq<Result<Seq<char>, E>>,
    groups: Seq<Seq<Spoken>>,
    limit: Budget,
) -> (after: Seq<Seq<Spoken>>)
    requires
        0 <= i <= clauses(sentence).len(),
        p.failed is None,
        p.packing.budget.chars is None,
        p.packing.rest.chars is None,
        p.asked.len() == before + i,
        forall|k: int|
            before <= k < before + clauses(sentence).len() ==> #[trigger] replies[k] is Ok,
        packs(p.packing, base, groups, spoken_clauses(sentence, before, replies).take(i), limit),
    ensures
        ({
            let end = p.clauses(clauses(sentence), i, true, replies);
            &&& end.failed is None
            &&& end.asked == p.asked + clauses(sentence).skip(i)
            &&& end.packing.rest == p.packing.rest
            &&& packs(
                end.packing,
                base,
                after,
                spoken_clauses(sentence, before, replies),
                limit,
            )
        }),
    decreases clauses(sentence).len() - i,
{
    let list = clauses(sentence);
    let said = spoken_clauses(sentence, before, replies);
    if i < list.len() {
        let piece = said[i];
        let asked = p.asked.push(list[i]);
        assert(replies[before + i] is Ok);
        let next = Progress { packing: p.packing.push(piece, true), asked, ..p };
        let more = lemma_push_packs(p.packing, base, piece, groups, said.take(i), limit);
        assert(said.take(i).push(piece) =~= said.take(i + 1));
        let after = lemma_clauses_pack(
            next,
            base,
            sentence,
            before,
            i + 1,
            replies,
            more,
            limit,
        );
        assert(asked + list.skip(i + 1) =~= p.asked + list.skip(i));
        after
    } else {
        assert(said.take(i) =~= said);
        assert(p.asked + list.skip(i) =~= p.asked);
        groups
    }
}

/// Without character caps, a sentence that is over the limit even in a chunk of its own is
/// split at its clauses, where it has two or more: what was packed before it stays as it
/// is, every clause is phonemised once, in order, and the chunks that the sentence makes
/// are runs of whole clauses, each with as many clauses as it may have.
pub proof fn long_sentences_are_split_at_clauses<E>(
    p: Progress<E>,
    sentence: Seq<char>,
    replies: Seq<Result<Seq<char>, E>>,
)
    requires
        p.failed is None,
        p.packing.held is None ==> p.packing.open,
        p.packing.budget.chars is None,
        p.packing.rest.chars is None,
        clauses(sentence).len() >= 2,
        replies[p.asked.len() as int] matches Ok(phonemes) && phonemes.len()
            > p.packing.budget.phonemes && (p.packing.held is Some ==> phonemes.len()
            > p.packing.rest.phonemes),
        forall|k: int|
            p.asked.len() < k <= p.asked.len() + clauses(sentence).len()
                ==> #[trigger] replies[k] is Ok,
    ensures
        ({
            let end = p.sentence(sentence, replies);
            let before = p.packing.finish();
            let chunks = end.packing.finish();
            let said = spoken_clauses(sentence, p.asked.len() as int + 1, replies);
            let limit = if p.packing.held is Some {
                p.packing.rest.phonemes
            } else {
                p.packing.budget.phonemes
            };
            &&& end.failed is None
            &&& end.asked == p.asked.push(sentence) + clauses(sentence)
            &&& before.len() <= chunks.len()
            &&& chunks.take(before.len() as int) == before
            &&& exists|groups: Seq<Seq<Spoken>>|
                joined_groups(groups, chunks.skip(before.len() as int))
                    && #[trigger] groups.flatten() == said && filled_groups(
                    groups,
                    limit as int,
                    p.packing.rest.phonemes as int,
                )
        }),
{
    assert(p.before_sentence(sentence) == p);
    assert(p.cut(sentence) =~= seq![sentence]);
    let parts = seq![sentence];
    let end = p.part(sentence, true, replies);
    assert(p.parts(parts, 0, true, replies) == end.parts(parts, 1, true, replies));
    assert(end.parts(parts, 1, true, replies) == end);
    let packing = if p.packing.held is Some {
        p.packing.close()
    } else {
        p.packing
    };
    let base = packing.out;
    let asked = p.asked.push(sentence);
    let ready = Progress { packing, asked, ..p };
    let none = Seq::<Seq<Spoken>>::empty();
    assert(none.flatten() =~= Seq::<Spoken>::empty());
    let before = p.asked.len() as int + 1;
    assert(spoken_clauses(sentence, before, replies).take(0) =~= Seq::empty());
    let groups = lemma_clauses_pack(
        ready,
        base,
        sentence,
        before,
        0,
        replies,
        none,
        packing.budget,
    );
    assert(end == ready.clauses(clauses(sentence), 0, true, replies));
    assert(clauses(sentence).skip(0) =~= clauses(sentence));
    assert(base =~= p.packing.finish());
    lemma_packed_groups(
        end.packing,
        base,
        groups,
        spoken_clauses(sentence, before, replies),
        packing.budget,
    );
}

/// A sentence that fits a chunk of its own, or cannot be split at clauses, is packed as it
/// is: it joins the chunk being filled exactly where both have room in it together, and
/// starts a chunk otherwise, and everything before it stays as it is.
pub proof fn other_sentences_are_packed_as_they_are<E>(
    p: Progress<E>,
    sentence: Seq<char>,
    replies: Seq<Result<Seq<char>, E>>,
)
    requires
        p.failed is None,
        p.packing.budget.chars matches Some(cap) ==> sentence.len() <= cap,
        replies[p.asked.len() as int] matches Ok(phonemes) && (clauses(sentence).len() < 2
            || phonemes.len() <= p.packing.budget.phonemes || p.packing.held is Some
            && phonemes.len() <= p.packing.rest.phonemes),
    ensures
        ({
            let end = p.sentence(sentence, replies);
            let before = p.packing.finish();
            let chunks = end.packing.finish();
            let phonemes = replies[p.asked.len() as int]->Ok_0;
            let joins = p.packing.held is Some && p.packing.open && before.last().phonemes.len()
                + 1 + phonemes.len() <= p.packing.budget.phonemes && (
            p.packing.budget.chars matches Some(cap) ==> before.last().text.len() + 1
                + sentence.len() <= cap);
            &&& end.failed is None
            &&& end.asked == p.asked.push(sentence)
            &&& joins ==> {
                let last = before.last();
                &&& chunks.len() == before.len()
                &&& chunks.drop_last() == before.drop_last()
                &&& chunks.last().text == last.text + seq![' '] + sentence
                &&& chunks.last().phonemes == last.phonemes + seq![' '] + phonemes
            }
            &&& !joins ==> {
                &&& chunks.len() == before.len() + 1
                &&& chunks.drop_last() == before
                &&& chunks.last().text == sentence
                &&& chunks.last().phonemes == phonemes
            }
        }),
{
    assert(p.before_sentence(sentence) == p);
    assert(p.cut(sentence) =~= seq![sentence]);
    let parts = seq![sentence];
    let end = p.part(sentence, true, replies);
    assert(p.parts(parts, 0, true, replies) == end.parts(parts, 1, true, replies));
    assert(end.parts(parts, 1, true, replies) == end);
    let before = p.packing.finish();
    let chunks = end.packing.finish();
    assert(chunks.drop_last() =~= end.packing.out);
    if p.packing.held is Some {
        assert(before.drop_last() =~= p.packing.out);
        let last = before.last();
        let phonemes = replies[p.asked.len() as int]->Ok_0;
        assert(last.text.push(' ') + sentence =~= last.text + seq![' '] + sentence);
        assert(last.phonemes.push(' ') + phonemes =~= last.phonemes + seq![' '] + phonemes);
    }
}

/// Pieces that must stay apart, or come first, land in chunks of their own.
proof fn lemma_parts_stay_apart<E>(
    p: Progress<E>,
    parts: Seq<Seq<char>>,
    i: int,
    replies: Seq<Result<Seq<char>, E>>,
    said: Seq<Spoken>,
)
    requires
        0 <= i <= parts.len() == said.len(),
        p.failed is None,
        i == 0 ==> p.packing.held is None,
        forall|k: int|
            0 <= k < parts.len() ==> {
                let at = p.asked.len() - i + k;
                &&& replies[at] == Ok::<Seq<char>, E>((#[trigger] said[k]).phonemes)
                &&& said[k].text == parts[k]
                &&& said[k].phonemes.len() <= p.packing.budget.phonemes
                &&& said[k].phonemes.len() <= p.packing.rest.phonemes
            },
    ensures
        ({
            let end = p.parts(parts, i, parts.len() == 1, replies);
            &&& end.failed is None
            &&& end.asked == p.asked + parts.skip(i)
            &&& end.packing.finish() == p.packing.finish() + said.skip(i)
        }),
    decreases parts.len() - i,
{
    if i < parts.len() {
        let piece = said[i];
        let joinable = parts.len() == 1;
        let next = p.part(parts[i], joinable, replies);
        assert(replies[p.asked.len() as int] == Ok::<Seq<char>, E>(piece.phonemes));
        assert(next.packing == p.packing.push(piece, joinable));
        assert(next.packing.finish() =~= p.packing.finish().push(piece));
        assert forall|k: int| 0 <= k < parts.len() implies {
            let at = next.asked.len() - (i + 1) + k;
            &&& replies[at] == Ok::<Seq<char>, E>((#[trigger] said[k]).phonemes)
            &&& said[k].text == parts[k]
            &&& said[k].phonemes.len() <= next.packing.budget.phonemes
            &&& said[k].phonemes.len() <= next.packing.rest.phonemes
        } by {
            assert(next.asked.len() - (i + 1) + k == p.asked.len() - i + k);
        }
        lemma_parts_stay_apart(next, parts, i + 1, replies, said);
        assert(p.asked.push(parts[i]) + parts.skip(i + 1) =~= p.asked + parts.skip(i));
        assert(p.packing.finish().push(piece) + said.skip(i + 1) =~= p.packing.finish()
            + said.skip(i));
    } else {
        assert(p.asked + parts.skip(i) =~= p.asked);
        assert(p.packing.finish() + said.skip(i) =~= p.packing.finish());
    }
}

/// A sentence over the character cap shares no chunk with what was packed before it. The cap
/// that then applies, the wide one where there is anything before it, cuts it into pieces,
/// and each piece is a chunk of its own, spoken with the phonemes that it was measured with.
pub proof fn sentences_over_the_cap_are_cut<E>(
    p: Progress<E>,
    sentence: Seq<char>,
    replies: Seq<Result<Seq<char>, E>>,
    parts: Seq<Seq<char>>,
    said: Seq<Spoken>,
)
    requires
        p.failed is None,
        p.packing.budget.chars matches Some(cap) && sentence.len() > cap,
        ({
            let budget = if p.packing.held is Some {
                p.packing.rest
            } else {
                p.packing.budget
            };
            &&& parts == match budget.chars {
                Some(cap) => hard_pieces(sentence, cap as int),
                None => seq![sentence],
            }
            &&& parts.len() == said.len()
            &&& forall|k: int|
                0 <= k < parts.len() ==> {
                    &&& replies[p.asked.len() + k] == Ok::<Seq<char>, E>(
                        (#[trigger] said[k]).phonemes,
                    )
                    &&& said[k].text == parts[k]
                    &&& said[k].phonemes.len() <= budget.phonemes
                    &&& said[k].phonemes.len() <= p.packing.rest.phonemes
                }
        }),
    ensures
        p.sentence(sentence, replies).failed is None,
        p.sentence(sentence, replies).asked == p.asked + parts,
        p.sentence(sentence, replies).packing.finish() == p.packing.finish() + said,
{
    let ready = p.before_sentence(sentence);
    assert(ready.packing.held is None);
    assert(ready.packing.finish() =~= p.packing.finish());
    assert(ready.cut(sentence) == parts);
    assert forall|k: int| 0 <= k < parts.len() implies {
        let at = ready.asked.len() - 0 + k;
        &&& replies[at] == Ok::<Seq<char>, E>((#[trigger] said[k]).phonemes)
        &&& said[k].text == parts[k]
        &&& said[k].phonemes.len() <= ready.packing.budget.phonemes
        &&& said[k].phonemes.len() <= ready.packing.rest.phonemes
    } by {
        assert(replies[p.asked.len() + k] == Ok::<Seq<char>, E>(said[k].phonemes));
    }
    lemma_parts_stay_apart(ready, parts, 0, replies, said);
    assert(parts.skip(0) =~= parts);
    assert(said.skip(0) =~= said);
}

/// Where the phonemiser fails, no more is asked for, and its error is what comes out.
pub proof fn the_first_failure_ends_the_splitting<E>(
    p: Progress<E>,
    list: Seq<Seq<char>>,
    i: int,
    replies: Seq<Result<Seq<char>, E>>,
    e: E,
)
    requires
        p.failed is None,
        p.packing.budget.chars is None,
        0 <= i < list.len(),
        replies[p.asked.len() as int] == Err::<Seq<char>, E>(e),
    ensures
        p.sentences(list, i, replies).outcome() == Err::<Seq<Spoken>, E>(e),
        p.sentences(list, i, replies).asked == p.asked.push(list[i]),
{
    assert(p.before_sentence(list[i]) == p);
    assert(p.cut(list[i]) =~= seq![list[i]]);
    let parts = seq![list[i]];
    let end = p.part(list[i], true, replies);
    assert(p.parts(parts, 0, true, replies) == end.parts(parts, 1, true, replies));
    assert(end.parts(parts, 1, true, replies) == end);
    assert(end.sentences(list, i + 1, replies) == end);
}

/// A piece joins the chunk being filled exactly where neither must stay apart and both have
/// room in it together, the space between them counted, by phonemes and by characters.
/// Otherwise it starts a chunk, to which the wide budget applies. Nothing packed before it
/// changes.
pub proof fn pieces_join_while_they_fit(p: Packing, piece: Spoken, joinable: bool)
    ensures
        ({
            let before = p.finish();
            let chunks = p.push(piece, joinable).finish();
            let last = before.last();
            let joins = p.held is Some && p.open && joinable && last.phonemes.len() + 1
                + piece.phonemes.len() <= p.budget.phonemes && (p.budget.chars is None
                || last.text.len() + 1 + piece.text.len() <= p.budget.chars->0);
            &&& joins ==> {
                &&& chunks.len() == before.len()
                &&& chunks.drop_last() == before.drop_last()
                &&& chunks.last().text == last.text + seq![' '] + piece.text
                &&& chunks.last().phonemes == last.phonemes + seq![' '] + piece.phonemes
            }
            &&& !joins ==> chunks == before.push(piece)
            &&& p.push(piece, joinable).open == joinable
            &&& p.push(piece, joinable).rest == p.rest
            &&& p.push(piece, joinable).budget == if joins || p.held is None {
                p.budget
            } else {
                p.rest
            }
        }),
{
    let before = p.finish();
    let next = p.push(piece, joinable);
    if p.held is Some {
        let last = before.last();
        assert(before.drop_last() =~= p.out);
        assert(last.text.push(' ') + piece.text =~= last.text + seq![' '] + piece.text);
        assert(last.phonemes.push(' ') + piece.phonemes =~= last.phonemes + seq![' ']
            + piece.phonemes);
    }
    assert(next.finish().drop_last() =~= next.out);
    if next.out.len() == p.finish().len() {
        assert(next.finish() =~= before.push(piece));
    }
}

/// A packing starts with nothing and the budget of the first chunk.
pub proof fn packing_starts_empty(first: Budget, rest: Budget)
    ensures
        Packing::start(first, rest).finish().len() == 0,
        Packing::start(first, rest).budget == first,
        Packing::start(first, rest).rest == rest,
        Packing::start(first, rest).held is None,
        Packing::start(first, rest).open,
{
}

} // verus!
