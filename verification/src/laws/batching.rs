//! How phonemes are put into batches.

use vstd::prelude::*;

use crate::chars::{trim, words};
use crate::laws::batches::{lemma_fitting_parts, lemma_trim_solid};
use crate::laws::solid::{all_solid, solid};
use crate::synth::{batched, batches, fitting_parts, fitting_words, marked_parts};
use crate::text::split::cut_every;

verus! {

/// Whether phonemes are best broken after `c`: a full stop, a comma, an exclamation mark, a
/// question mark or a semicolon.
pub open spec fn is_stop(c: char) -> bool {
    c as int == 46 || c as int == 44 || c as int == 33 || c as int == 63 || c as int == 59
}

/// All of `list` in one batch: a stop follows what came before it directly, anything else
/// after a space.
pub open spec fn run_together(list: Seq<Seq<char>>) -> Seq<char>
    decreases list.len(),
{
    if list.len() <= 1 {
        list[0]
    } else if list.last().len() == 1 && is_stop(list.last()[0]) {
        run_together(list.drop_last()) + list.last()
    } else {
        run_together(list.drop_last()) + seq![' '] + list.last()
    }
}

/// Whether each of `list` is one of `groups`, run together, and as long as it can be: one of
/// two or more parts has less than 510 phonemes, and the next part and a space would have
/// made it that long.
pub open spec fn run_together_groups(groups: Seq<Seq<Seq<char>>>, list: Seq<Seq<char>>) -> bool {
    &&& groups.len() == list.len()
    &&& forall|k: int| 0 <= k < groups.len() ==> (#[trigger] groups[k]).len() > 0
    &&& forall|k: int|
        0 <= k < groups.len() ==> {
            &&& #[trigger] list[k] == run_together(groups[k])
            &&& groups[k].len() > 1 ==> list[k].len() < 510
            &&& k + 1 < groups.len() ==> list[k].len() + 1 + groups[k + 1][0].len() >= 510
        }
}

/// What is run together has no white space round it where its parts have none.
proof fn lemma_run_solid(list: Seq<Seq<char>>)
    requires
        list.len() > 0,
        all_solid(list),
    ensures
        solid(run_together(list)),
    decreases list.len(),
{
    assert(solid(list[list.len() - 1]));
    if list.len() > 1 {
        let less = list.drop_last();
        assert forall|k: int| 0 <= k < less.len() implies solid(#[trigger] less[k]) by {
            assert(less[k] == list[k]);
        }
        lemma_run_solid(less);
        let before = run_together(less);
        let whole = run_together(list);
        assert(whole[0] == before[0]);
        assert(whole.last() == list.last().last());
    }
}

proof fn lemma_batched_groups(parts: Seq<Seq<char>>, held: Seq<Seq<char>>, i: int) -> (groups: Seq<
    Seq<Seq<char>>,
>)
    requires
        0 <= i <= parts.len(),
        all_solid(parts),
        all_solid(held),
        held.len() > 1 ==> run_together(held).len() < 510,
    ensures
        ({
            let text = if held.len() == 0 {
                Seq::empty()
            } else {
                run_together(held)
            };
            &&& run_together_groups(groups, batched(parts, text, i))
            &&& groups.flatten() == held + parts.skip(i)
            &&& held.len() > 0 ==> groups.len() > 0 && groups[0][0] == held[0]
        }),
    decreases parts.len() - i,
{
    let none = Seq::<Seq<Seq<char>>>::empty();
    if i < parts.len() {
        let part = parts[i];
        let one = seq![part];
        assert(solid(parts[i]));
        assert(run_together(one) == part);
        if held.len() == 0 {
            let groups = lemma_batched_groups(parts, one, i + 1);
            assert(one + parts.skip(i + 1) =~= held + parts.skip(i));
            assert(batched(parts, Seq::empty(), i) == batched(parts, part, i + 1));
            groups
        } else {
            lemma_run_solid(held);
            let text = run_together(held);
            lemma_trim_solid(text);
            if text.len() + part.len() + 1 >= 510 {
                let rest = lemma_batched_groups(parts, one, i + 1);
                let groups = seq![held] + rest;
                let after = batched(parts, part, i + 1);
                let list = batched(parts, text, i);
                assert(list == seq![text] + after);
                assert(groups.drop_first() =~= rest);
                assert(groups.flatten() =~= held + (one + parts.skip(i + 1)));
                assert(held + (one + parts.skip(i + 1)) =~= held + parts.skip(i));
                assert forall|k: int| 0 <= k < groups.len() implies (#[trigger] groups[k]).len()
                    > 0 by {
                    if k > 0 {
                        assert(groups[k] == rest[k - 1]);
                    }
                }
                assert forall|k: int| 0 <= k < groups.len() implies {
                    &&& #[trigger] list[k] == run_together(groups[k])
                    &&& groups[k].len() > 1 ==> list[k].len() < 510
                    &&& k + 1 < groups.len() ==> list[k].len() + 1 + groups[k + 1][0].len() >= 510
                } by {
                    if k > 0 {
                        assert(list[k] == after[k - 1]);
                        assert(groups[k] == rest[k - 1]);
                        if k + 1 < groups.len() {
                            assert(groups[k + 1] == rest[k]);
                        }
                    } else {
                        assert(groups[1] == rest[0]);
                    }
                }
                groups
            } else {
                let more = held.push(part);
                assert(more.drop_last() =~= held);
                assert(text.push(' ') + part =~= text + seq![' '] + part);
                assert(batched(parts, text, i) == batched(parts, run_together(more), i + 1));
                let groups = lemma_batched_groups(parts, more, i + 1);
                assert(more + parts.skip(i + 1) =~= held + parts.skip(i));
                assert(groups[0][0] == held[0]);
                groups
            }
        }
    } else if held.len() == 0 {
        assert(none.flatten() =~= Seq::<Seq<char>>::empty());
        assert(held + parts.skip(i) =~= Seq::<Seq<char>>::empty());
        none
    } else {
        lemma_run_solid(held);
        let text = run_together(held);
        lemma_trim_solid(text);
        let groups = none.push(held);
        none.lemma_flatten_push(held);
        assert(none.flatten() =~= Seq::<Seq<char>>::empty());
        assert(groups.flatten() =~= held + parts.skip(i));
        assert(batched(parts, text, i) =~= seq![text]);
        groups
    }
}

/// Parts are put into batches in order, each once, a stop right after what came before it
/// and anything else after a space, and every batch takes as many parts as there is room
/// for.
pub proof fn batches_are_as_long_as_they_can_be(phonemes: Seq<char>)
    ensures
        exists|groups: Seq<Seq<Seq<char>>>|
            #[trigger] groups.flatten() == fitting_parts(marked_parts(phonemes, 0, 0))
                && run_together_groups(groups, batches(phonemes)),
{
    let parts = fitting_parts(marked_parts(phonemes, 0, 0));
    lemma_fitting_parts(marked_parts(phonemes, 0, 0));
    let groups = lemma_batched_groups(parts, Seq::empty(), 0);
    assert(Seq::<Seq<char>>::empty() + parts.skip(0) =~= parts);
}

/// A part that has no stop in it goes on to the next one.
proof fn lemma_parts_from(s: Seq<char>, prev: int, i: int, k: int)
    requires
        0 <= prev <= i <= s.len(),
        forall|n: int| prev <= n < i ==> !is_stop(#[trigger] s[n]),
        0 <= k < marked_parts(s, prev, i).len(),
    ensures
        ({
            let list = marked_parts(s, prev, i);
            &&& list.len() % 2 == 1
            &&& list.flatten() == s.skip(prev)
            &&& k % 2 == 1 ==> list[k].len() == 1 && is_stop(list[k][0])
            &&& k % 2 == 0 ==> forall|n: int|
                0 <= n < list[k].len() ==> !is_stop(#[trigger] list[k][n])
        }),
    decreases s.len() - i,
{
    let list = marked_parts(s, prev, i);
    if i < s.len() {
        if is_stop(s[i]) {
            let before = s.subrange(prev, i);
            let mark = s.subrange(i, i + 1);
            let rest = marked_parts(s, i + 1, i + 1);
            assert(list == seq![before, mark] + rest);
            lemma_some_part(s, i + 1, i + 1);
            let next = if k >= 2 {
                k - 2
            } else {
                0
            };
            lemma_parts_from(s, i + 1, i + 1, next);
            assert(list.drop_first().drop_first() =~= rest);
            assert(list.drop_first()[0] == mark);
            assert(list.drop_first().flatten() == mark + rest.flatten());
            assert(list.flatten() == before + (mark + rest.flatten()));
            assert(list.flatten() =~= s.skip(prev));
            if k >= 2 {
                assert(list[k] == rest[k - 2]);
            } else if k == 0 {
                assert forall|n: int| 0 <= n < list[k].len() implies !is_stop(
                    #[trigger] list[k][n],
                ) by {
                    assert(list[k][n] == s[prev + n]);
                }
            }
        } else {
            lemma_parts_from(s, prev, i + 1, k);
        }
    } else {
        let whole = s.subrange(prev, s.len() as int);
        assert(list =~= seq![whole]);
        list.lemma_flatten_one_element();
        assert(whole =~= s.skip(prev));
        assert forall|n: int| 0 <= n < list[k].len() implies !is_stop(#[trigger] list[k][n]) by {
            assert(list[k][n] == s[prev + n]);
        }
    }
}

/// There is always a part.
proof fn lemma_some_part(s: Seq<char>, prev: int, i: int)
    requires
        0 <= prev <= i <= s.len(),
    ensures
        marked_parts(s, prev, i).len() > 0,
    decreases s.len() - i,
{
    if i < s.len() {
        lemma_some_part(s, prev, i + 1);
    }
}

/// Phonemes are parted at every stop and nowhere else: every second part is a stop, no other
/// part holds one, and together they are the phonemes as they stand.
pub proof fn phonemes_are_parted_at_stops(s: Seq<char>)
    ensures
        ({
            let list = marked_parts(s, 0, 0);
            &&& list.len() % 2 == 1
            &&& list.flatten() == s
            &&& forall|k: int|
                0 <= k < list.len() && k % 2 == 1 ==> (#[trigger] list[k]).len() == 1 && is_stop(
                    list[k][0],
                )
            &&& forall|k: int, n: int|
                0 <= k < list.len() && k % 2 == 0 && 0 <= n < list[k].len() ==> !is_stop(
                    #[trigger] list[k][n],
                )
        }),
{
    let list = marked_parts(s, 0, 0);
    lemma_some_part(s, 0, 0);
    lemma_parts_from(s, 0, 0, 0);
    assert(s.skip(0) =~= s);
    assert forall|k: int| 0 <= k < list.len() && k % 2 == 1 implies (#[trigger] list[k]).len() == 1
        && is_stop(list[k][0]) by {
        lemma_parts_from(s, 0, 0, k);
    }
    assert forall|k: int, n: int|
        0 <= k < list.len() && k % 2 == 0 && 0 <= n < list[k].len() implies !is_stop(
        #[trigger] list[k][n],
    ) by {
        lemma_parts_from(s, 0, 0, k);
    }
}

/// Every part is taken by itself: one that fits is taken whole, without the white space
/// round it, and nothing of a blank one.
pub proof fn parts_that_fit_are_taken_whole(list: Seq<Seq<char>>, part: Seq<char>)
    requires
        trim(part).len() < 510,
    ensures
        trim(part).len() > 0 ==> fitting_parts(list.push(part)) == fitting_parts(list) + seq![
            trim(part),
        ],
        trim(part).len() == 0 ==> fitting_parts(list.push(part)) == fitting_parts(list),
        fitting_parts(Seq::empty()).len() == 0,
{
    assert(list.push(part).drop_last() =~= list);
    if trim(part).len() == 0 {
        assert(fitting_parts(list) + Seq::<Seq<char>>::empty() =~= fitting_parts(list));
    }
}

/// A part that does not fit is taken word by word.
pub proof fn long_parts_are_taken_word_by_word(list: Seq<Seq<char>>, part: Seq<char>)
    requires
        trim(part).len() >= 510,
    ensures
        fitting_parts(list.push(part)) == fitting_parts(list) + fitting_words(words(trim(part))),
{
    assert(list.push(part).drop_last() =~= list);
}

/// A word that fits is taken whole, and only one that does not is cut, every 509 phonemes.
pub proof fn only_long_words_are_cut(list: Seq<Seq<char>>, word: Seq<char>)
    ensures
        word.len() < 510 ==> fitting_words(list.push(word)) == fitting_words(list) + seq![word],
        word.len() >= 510 ==> fitting_words(list.push(word)) == fitting_words(list) + cut_every(
            word,
            509,
        ),
        fitting_words(Seq::empty()).len() == 0,
{
    assert(list.push(word).drop_last() =~= list);
    if word.len() < 510 {
        assert(fitting_words(list).push(word) =~= fitting_words(list) + seq![word]);
    }
}

} // verus!
