//! The phonemes a chunk carries are those of its text.

use vstd::prelude::*;

use crate::chars::is_space;
use crate::laws::grouping::{all_joined, joined_groups};
use crate::laws::solid::{
    all_solid, clauses_are_solid, hard_pieces_are_solid, positive, sentences_are_solid, solid,
};
use crate::laws::steps::{
    lemma_clauses_follow, lemma_part_follows, lemma_parts_follow, lemma_sentence_follows,
    lemma_sentences_follow,
};
use crate::phonemes::{in_vocab, token_from};
use crate::punctuation::is_mark;
use crate::text::chunk::{chunking, Progress};
use crate::text::packer::{Budget, Packing, Spoken};
use crate::text::sentences::text_sentences;
use crate::text::split::{clauses, CLAUSE_ENDS};

verus! {

/// Whether `c` is a punctuation mark that the model does not know.
pub open spec fn is_unknown_mark(c: char) -> bool {
    is_mark(c) && !in_vocab(c)
}

/// Whether `c` is neither white space nor a mark that the model does not know.
pub open spec fn is_clear(c: char) -> bool {
    !is_space(c) && !is_unknown_mark(c)
}

/// Whether `s[k]` is clear, and nothing but marks that the model does not know comes after
/// it.
pub open spec fn closes_at(s: Seq<char>, k: int) -> bool {
    &&& 0 <= k < s.len()
    &&& is_clear(s[k])
    &&& forall|j: int| k < j < s.len() ==> is_unknown_mark(#[trigger] s[j])
}

/// Whether `s[k]` is clear, and nothing but marks that the model does not know comes before
/// it.
pub open spec fn opens_at(s: Seq<char>, k: int) -> bool {
    &&& 0 <= k < s.len()
    &&& is_clear(s[k])
    &&& forall|j: int| 0 <= j < k ==> is_unknown_mark(#[trigger] s[j])
}

/// Whether `s` ends with a punctuation mark, and no white space stands before the marks at
/// its end that the model does not know.
pub open spec fn ends_on_mark(s: Seq<char>) -> bool {
    s.len() > 0 && is_mark(s.last()) && exists|k: int| #[trigger] closes_at(s, k)
}

/// Whether no white space stands after the marks at the start of `s` that the model does
/// not know.
pub open spec fn opens_clearly(s: Seq<char>) -> bool {
    exists|k: int| #[trigger] opens_at(s, k)
}

/// Whether `s` ends with a punctuation mark that the model knows.
pub open spec fn ends_on_known_mark(s: Seq<char>) -> bool {
    s.len() > 0 && is_mark(s.last()) && in_vocab(s.last())
}

/// A mark that the model knows is one to end on.
proof fn lemma_known_mark(s: Seq<char>)
    requires
        ends_on_known_mark(s),
    ensures
        ends_on_mark(s),
{
    assert(closes_at(s, s.len() - 1));
}

/// Whether `voice` phonemises two texts that a mark and a space part as it does
/// each of them.
pub open spec fn joins_exactly(voice: spec_fn(Seq<char>) -> Seq<char>) -> bool {
    forall|a: Seq<char>, b: Seq<char>|
        solid(a) && ends_on_mark(a) && solid(b) && opens_clearly(b) ==> #[trigger] voice(
            a.push(' ') + b,
        ) == voice(a).push(' ') + voice(b)
}

/// Whether a phonemiser that speaks with `voice` answered `replies` for `asked`.
pub open spec fn speaks<E>(
    voice: spec_fn(Seq<char>) -> Seq<char>,
    asked: Seq<Seq<char>>,
    replies: Seq<Result<Seq<char>, E>>,
) -> bool {
    forall|i: int|
        0 <= i < asked.len() ==> (#[trigger] replies[i] matches Ok(phonemes) ==> phonemes == voice(
            asked[i],
        ))
}

/// Whether `chunk` carries the phonemes of its text.
pub open spec fn is_honest(voice: spec_fn(Seq<char>) -> Seq<char>, chunk: Spoken) -> bool {
    chunk.phonemes == voice(chunk.text)
}

/// Whether `piece` is one of the texts asked for, with what was answered.
pub open spec fn was_asked<E>(
    asked: Seq<Seq<char>>,
    replies: Seq<Result<Seq<char>, E>>,
    piece: Spoken,
) -> bool {
    exists|i: int|
        0 <= i < asked.len() && #[trigger] asked[i] == piece.text && replies[i] == Ok::<
            Seq<char>,
            E,
        >(piece.phonemes)
}

/// Whether all of `group` was asked for.
pub open spec fn all_asked<E>(
    asked: Seq<Seq<char>>,
    replies: Seq<Result<Seq<char>, E>>,
    group: Seq<Spoken>,
) -> bool {
    forall|j: int| 0 <= j < group.len() ==> was_asked(asked, replies, #[trigger] group[j])
}

/// Whether every text of `group` that is joined to another opens clearly.
pub open spec fn joins_clearly(group: Seq<Spoken>) -> bool {
    forall|j: int| 0 < j < group.len() ==> opens_clearly((#[trigger] group[j]).text)
}

/// Whether every text of `group` that another is joined to ends on a mark.
pub open spec fn joins_at_marks(group: Seq<Spoken>) -> bool {
    forall|j: int| 0 <= j < group.len() - 1 ==> ends_on_mark((#[trigger] group[j]).text)
}

/// Whether every sentence of `list` but the last ends on a mark that the model knows.
pub open spec fn are_marked(list: Seq<Seq<char>>) -> bool {
    forall|k: int| 0 <= k < list.len() - 1 ==> ends_on_known_mark(#[trigger] list[k])
}

/// Whether the texts of `group` are solid, and where `marked` joined at marks.
spec fn is_sound(group: Seq<Spoken>, marked: bool) -> bool {
    &&& group.len() > 0
    &&& forall|j: int| 0 <= j < group.len() ==> solid((#[trigger] group[j]).text)
    &&& marked ==> joins_at_marks(group)
}

/// Whether everything packed so far is `groups`, all of it asked for, and where `marked`
/// each piece was joined to another after a mark.
spec fn packed<E>(
    packing: Packing,
    groups: Seq<Seq<Spoken>>,
    marked: bool,
    asked: Seq<Seq<char>>,
    replies: Seq<Result<Seq<char>, E>>,
) -> bool {
    &&& joined_groups(groups, packing.finish())
    &&& forall|k: int|
        0 <= k < groups.len() ==> is_sound(#[trigger] groups[k], marked) && all_asked(
            asked,
            replies,
            groups[k],
        )
}

/// Whether the last piece in the chunk being filled ends as `s` does.
spec fn ends_like(packing: Packing, groups: Seq<Seq<Spoken>>, s: Seq<char>) -> bool {
    packing.held is Some ==> groups.last().last().text.last() == s.last()
}

/// Whether the chunk being filled, where it may still take another piece, ends on
/// a mark that the model knows.
spec fn may_join(packing: Packing, groups: Seq<Seq<Spoken>>) -> bool {
    packing.held is Some && packing.open ==> ends_on_known_mark(groups.last().last().text)
}

/// Whether `asked` are the first of the texts `all`.
spec fn comes_first(asked: Seq<Seq<char>>, all: Seq<Seq<char>>) -> bool {
    &&& asked.len() <= all.len()
    &&& forall|i: int| 0 <= i < asked.len() ==> all[i] == #[trigger] asked[i]
}

/// The marks that end a clause are known to the model.
proof fn lemma_clause_marks(c: char)
    requires
        CLAUSE_ENDS@.contains(c),
    ensures
        is_mark(c),
        in_vocab(c),
{
    reveal_with_fuel(token_from, 9);
}

proof fn lemma_push_packed<E>(
    packing: Packing,
    groups: Seq<Seq<Spoken>>,
    piece: Spoken,
    joinable: bool,
    marked: bool,
    asked: Seq<Seq<char>>,
    replies: Seq<Result<Seq<char>, E>>,
) -> (after: Seq<Seq<Spoken>>)
    requires
        packed(packing, groups, marked, asked, replies),
        marked && joinable ==> may_join(packing, groups),
        was_asked(asked, replies, piece),
        solid(piece.text),
    ensures
        packed(packing.push(piece, joinable), after, marked, asked, replies),
        packing.push(piece, joinable).held is Some,
        after.len() > 0,
        after.last().len() > 0,
        after.last().last() == piece,
        packing.push(piece, joinable).open == joinable,
{
    let chunks = packing.push(piece, joinable).finish();
    match packing.held {
        Some(held) if joinable && packing.open && packing.budget.allows(held, piece) => {
            let last = groups.last();
            let more = last.push(piece);
            let after = groups.drop_last().push(more);
            assert(groups[groups.len() - 1] == last);
            assert(more.drop_last() =~= last);
            assert(all_joined(more) == held.joined(piece));
            if marked {
                lemma_known_mark(last.last().text);
                assert forall|j: int| 0 <= j < more.len() - 1 implies ends_on_mark(
                    (#[trigger] more[j]).text,
                ) by {
                    assert(more[j] == last[j]);
                }
            }
            assert forall|j: int| 0 <= j < more.len() implies was_asked(
                asked,
                replies,
                #[trigger] more[j],
            ) && solid(more[j].text) by {
                if j < last.len() {
                    assert(more[j] == last[j]);
                }
            }
            assert forall|k: int| 0 <= k < after.len() implies is_sound(#[trigger] after[k], marked)
                && all_asked(asked, replies, after[k]) && chunks[k] == all_joined(after[k]) by {
                if k < groups.len() - 1 {
                    assert(after[k] == groups[k]);
                }
            }
            after
        },
        _ => {
            let after = groups.push(seq![piece]);
            assert forall|k: int| 0 <= k < after.len() implies is_sound(#[trigger] after[k], marked)
                && all_asked(asked, replies, after[k]) && chunks[k] == all_joined(after[k]) by {
                if k < groups.len() {
                    assert(after[k] == groups[k]);
                }
            }
            after
        },
    }
}

proof fn lemma_clauses_packed<E>(
    p: Progress<E>,
    groups: Seq<Seq<Spoken>>,
    text: Seq<char>,
    i: int,
    joinable: bool,
    marked: bool,
    asked: Seq<Seq<char>>,
    replies: Seq<Result<Seq<char>, E>>,
) -> (after: Seq<Seq<Spoken>>)
    requires
        solid(text),
        0 <= i <= clauses(text).len(),
        packed(p.packing, groups, marked, asked, replies),
        comes_first(p.clauses(clauses(text), i, joinable, replies).asked, asked),
        marked && i == 0 && joinable ==> may_join(p.packing, groups),
        i > 0 ==> p.packing.held is Some && groups.last().last().text == clauses(text)[i - 1],
    ensures
        ({
            let end = p.clauses(clauses(text), i, joinable, replies);
            &&& packed(end.packing, after, marked, asked, replies)
            &&& end.failed is None ==> ends_like(end.packing, after, text)
        }),
    decreases clauses(text).len() - i,
{
    let parts = clauses(text);
    let end = p.clauses(parts, i, joinable, replies);
    clauses_are_solid(text);
    if p.failed is None && i < parts.len() {
        lemma_clauses_follow(p, parts, i, joinable, replies);
        let at = p.asked.len() as int;
        assert(end.asked[at] == parts[i]);
        if i > 0 {
            assert(CLAUSE_ENDS@.contains(parts[i - 1].last()));
            lemma_clause_marks(parts[i - 1].last());
        }
        match replies[at] {
            Ok(phonemes) => {
                let piece = Spoken { text: parts[i], phonemes };
                assert(solid(parts[i]));
                assert(asked[at] == parts[i]);
                let more = lemma_push_packed(
                    p.packing,
                    groups,
                    piece,
                    i > 0 || joinable,
                    marked,
                    asked,
                    replies,
                );
                let next = Progress {
                    packing: p.packing.push(piece, i > 0 || joinable),
                    asked: p.asked.push(parts[i]),
                    ..p
                };
                lemma_clauses_packed(next, more, text, i + 1, joinable, marked, asked, replies)
            },
            Err(_) => groups,
        }
    } else {
        groups
    }
}

proof fn lemma_part_packed<E>(
    p: Progress<E>,
    groups: Seq<Seq<Spoken>>,
    text: Seq<char>,
    joinable: bool,
    marked: bool,
    asked: Seq<Seq<char>>,
    replies: Seq<Result<Seq<char>, E>>,
) -> (after: Seq<Seq<Spoken>>)
    requires
        solid(text),
        packed(p.packing, groups, marked, asked, replies),
        comes_first(p.part(text, joinable, replies).asked, asked),
        marked && joinable ==> may_join(p.packing, groups),
    ensures
        ({
            let end = p.part(text, joinable, replies);
            &&& packed(end.packing, after, marked, asked, replies)
            &&& p.failed is None && end.failed is None ==> ends_like(end.packing, after, text)
        }),
{
    let at = p.asked.len() as int;
    let end = p.part(text, joinable, replies);
    lemma_part_follows(p, text, joinable, replies);
    assert(end.asked[at] == text);
    match replies[at] {
        Ok(phonemes) => {
            let packing = if phonemes.len() > p.packing.budget.phonemes && p.packing.held is Some {
                p.packing.close()
            } else {
                p.packing
            };
            assert(packing.finish() =~= p.packing.finish());
            if phonemes.len() <= packing.budget.phonemes || clauses(text).len() < 2 {
                assert(asked[at] == text);
                lemma_push_packed(
                    packing,
                    groups,
                    Spoken { text, phonemes },
                    joinable,
                    marked,
                    asked,
                    replies,
                )
            } else {
                let asking = Progress { packing, asked: p.asked.push(text), ..p };
                lemma_clauses_packed(asking, groups, text, 0, joinable, marked, asked, replies)
            }
        },
        Err(_) => groups,
    }
}

proof fn lemma_parts_packed<E>(
    p: Progress<E>,
    groups: Seq<Seq<Spoken>>,
    parts: Seq<Seq<char>>,
    i: int,
    joinable: bool,
    marked: bool,
    asked: Seq<Seq<char>>,
    replies: Seq<Result<Seq<char>, E>>,
) -> (after: Seq<Seq<Spoken>>)
    requires
        0 <= i <= parts.len(),
        all_solid(parts),
        joinable ==> parts.len() == 1,
        packed(p.packing, groups, marked, asked, replies),
        comes_first(p.parts(parts, i, joinable, replies).asked, asked),
        marked && i == 0 && joinable ==> may_join(p.packing, groups),
        i > 0 && p.failed is None ==> ends_like(p.packing, groups, parts[i - 1]),
    ensures
        ({
            let end = p.parts(parts, i, joinable, replies);
            &&& packed(end.packing, after, marked, asked, replies)
            &&& end.failed is None && parts.len() > 0 ==> ends_like(
                end.packing,
                after,
                parts.last(),
            )
        }),
    decreases parts.len() - i,
{
    if p.failed is None && i < parts.len() {
        let next = p.part(parts[i], joinable, replies);
        let end = p.parts(parts, i, joinable, replies);
        lemma_parts_follow(next, parts, i + 1, joinable, replies);
        assert(end == next.parts(parts, i + 1, joinable, replies));
        assert forall|k: int| 0 <= k < next.asked.len() implies asked[k]
            == #[trigger] next.asked[k] by {
            assert(end.asked[k] == next.asked[k]);
        }
        let more = lemma_part_packed(p, groups, parts[i], joinable, marked, asked, replies);
        lemma_parts_packed(next, more, parts, i + 1, joinable, marked, asked, replies)
    } else {
        groups
    }
}

proof fn lemma_sentences_packed<E>(
    p: Progress<E>,
    groups: Seq<Seq<Spoken>>,
    list: Seq<Seq<char>>,
    i: int,
    marked: bool,
    asked: Seq<Seq<char>>,
    replies: Seq<Result<Seq<char>, E>>,
) -> (after: Seq<Seq<Spoken>>)
    requires
        0 <= i <= list.len(),
        all_solid(list),
        marked ==> are_marked(list),
        positive(p.packing.budget),
        positive(p.packing.rest),
        packed(p.packing, groups, marked, asked, replies),
        comes_first(p.sentences(list, i, replies).asked, asked),
        marked && i < list.len() && p.failed is None ==> may_join(p.packing, groups),
    ensures
        packed(p.sentences(list, i, replies).packing, after, marked, asked, replies),
    decreases list.len() - i,
{
    if p.failed is None && i < list.len() {
        let ready = p.before_sentence(list[i]);
        let parts = ready.cut(list[i]);
        if let Some(cap) = ready.packing.budget.chars {
            hard_pieces_are_solid(list[i], cap as int);
        }
        let next = p.sentence(list[i], replies);
        let end = p.sentences(list, i, replies);
        assert(end == next.sentences(list, i + 1, replies));
        lemma_sentence_follows(p, list[i], replies);
        lemma_sentences_follow(next, list, i + 1, replies);
        assert forall|k: int| 0 <= k < next.asked.len() implies asked[k]
            == #[trigger] next.asked[k] by {
            assert(end.asked[k] == next.asked[k]);
        }
        assert(ready.packing.finish() =~= p.packing.finish());
        let more = lemma_parts_packed(ready, groups, parts, 0, parts.len() == 1, marked, asked, replies);
        if i + 1 < list.len() {
            assert(marked ==> ends_on_known_mark(list[i]));
        }
        assert(next.failed is None && next.packing.held is Some ==> solid(
            more[more.len() - 1].last().text,
        ));
        lemma_sentences_packed(next, more, list, i + 1, marked, asked, replies)
    } else {
        groups
    }
}

/// What is joined ends as the last of it does.
proof fn lemma_joined_end(group: Seq<Spoken>)
    requires
        group.len() > 0,
        ends_on_mark(group.last().text),
    ensures
        ends_on_mark(all_joined(group).text),
{
    let last = group.last().text;
    let whole = all_joined(group).text;
    let off = whole.len() - last.len();
    let k = choose|k: int| #[trigger] closes_at(last, k);
    if group.len() > 1 {
        let before = all_joined(group.drop_last()).text.push(' ');
        assert(whole == before + last);
    }
    assert(whole[off + k] == last[k]);
    assert forall|j: int| off + k < j < whole.len() implies is_unknown_mark(#[trigger] whole[j]) by {
        assert(whole[j] == last[j - off]);
    }
    assert(closes_at(whole, off + k));
}

/// What is joined at marks carries the phonemes of its text.
proof fn lemma_group_honest<E>(
    voice: spec_fn(Seq<char>) -> Seq<char>,
    group: Seq<Spoken>,
    asked: Seq<Seq<char>>,
    replies: Seq<Result<Seq<char>, E>>,
)
    requires
        joins_exactly(voice),
        speaks(voice, asked, replies),
        is_sound(group, true),
        all_asked(asked, replies, group),
        joins_clearly(group),
    ensures
        is_honest(voice, all_joined(group)),
        solid(all_joined(group).text),
        all_joined(group).text.last() == group.last().text.last(),
    decreases group.len(),
{
    let last = group[group.len() - 1];
    assert(was_asked(asked, replies, last));
    assert(is_honest(voice, last)) by {
        let i = choose|i: int|
            0 <= i < asked.len() && #[trigger] asked[i] == last.text && replies[i] == Ok::<
                Seq<char>,
                E,
            >(last.phonemes);
        assert(replies[i] matches Ok(phonemes) ==> phonemes == voice(asked[i]));
    }
    if group.len() > 1 {
        let less = group.drop_last();
        assert forall|j: int| 0 <= j < less.len() implies solid((#[trigger] less[j]).text)
            && was_asked(asked, replies, less[j]) && ends_on_mark(less[j].text) && (j > 0
            ==> opens_clearly(less[j].text)) by {
            assert(less[j] == group[j]);
        }
        lemma_group_honest(voice, less, asked, replies);
        let before = all_joined(less);
        assert(ends_on_mark(group[less.len() - 1].text));
        lemma_joined_end(less);
        assert(opens_clearly(last.text));
        assert(voice(before.text.push(' ') + last.text) == voice(before.text).push(' ') + voice(
            last.text,
        ));
    }
}

/// Every chunk is one or more of the texts that were phonemised, joined, and a chunk that
/// is joined only at marks carries exactly the phonemes that its own text is phonemised to,
/// however it was split and rejoined. At a join no white space is to stand next to a mark
/// that the model does not know. Those that were cut apart between words, whose phonemes
/// depend on their neighbours, stay apart, and clauses end on marks: so all chunks are
/// joined only at marks where every sentence but the last ends on a mark that the model
/// knows. A line without one would be joined to the next with nothing between them.
pub proof fn chunks_carry_their_own_phonemes<E>(
    voice: spec_fn(Seq<char>) -> Seq<char>,
    text: Seq<char>,
    first: Budget,
    rest: Budget,
    replies: Seq<Result<Seq<char>, E>>,
)
    requires
        joins_exactly(voice),
        positive(first),
        positive(rest),
        speaks(voice, chunking(text, first, rest, replies).asked, replies),
    ensures
        chunking(text, first, rest, replies).outcome() matches Ok(chunks) ==> exists|
            groups: Seq<Seq<Spoken>>,
        |
            {
                &&& #[trigger] joined_groups(groups, chunks)
                &&& forall|k: int|
                    0 <= k < groups.len() ==> all_asked(
                        chunking(text, first, rest, replies).asked,
                        replies,
                        #[trigger] groups[k],
                    )
                &&& are_marked(text_sentences(text)) ==> forall|k: int|
                    0 <= k < groups.len() ==> joins_at_marks(#[trigger] groups[k])
                &&& forall|k: int|
                    0 <= k < chunks.len() && joins_at_marks(groups[k]) && joins_clearly(groups[k])
                        ==> is_honest(voice, #[trigger] chunks[k])
            },
{
    sentences_are_solid(text);
    let start = Progress::<E>::start(first, rest);
    let none = Seq::<Seq<Spoken>>::empty();
    let run = chunking(text, first, rest, replies);
    let marked = are_marked(text_sentences(text));
    assert(start.packing.finish() =~= Seq::empty());
    let groups = lemma_sentences_packed(
        start,
        none,
        text_sentences(text),
        0,
        marked,
        run.asked,
        replies,
    );
    if let Ok(chunks) = run.outcome() {
        assert(joined_groups(groups, chunks));
        assert forall|k: int|
            0 <= k < chunks.len() && joins_at_marks(groups[k]) && joins_clearly(
                groups[k],
            ) implies is_honest(voice, #[trigger] chunks[k]) by {
            assert(is_sound(groups[k], marked));
            assert(is_sound(groups[k], true));
            lemma_group_honest(voice, groups[k], run.asked, replies);
        }
        assert(marked ==> forall|k: int|
            0 <= k < groups.len() ==> joins_at_marks(#[trigger] groups[k])) by {
            if marked {
                assert forall|k: int| 0 <= k < groups.len() implies joins_at_marks(
                    #[trigger] groups[k],
                ) by {
                    assert(is_sound(groups[k], marked));
                }
            }
        }
    }
}

} // verus!
