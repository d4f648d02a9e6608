//! Marks come back where they were taken from.

use vstd::prelude::*;

use crate::chars::{
    ends_with, is_space, lemma_space_end, lemma_space_start, space_end, space_start, trim_end,
    with_spaces,
};
use crate::punctuation::{
    filler_end, is_alone, is_mark, kept_runs, kept_texts, lemma_filler_end, lemma_run_start,
    lemma_runs_from, line_runs, line_texts, restored, run_start, run_texts, runs_from, separated,
    spliced, starts_run, unseparated, worded, Position, WORD_SEP,
};
use crate::text::sentences::pieces;

verus! {

/// What `voice` makes of a text between two marks; there may be none.
pub open spec fn voiced_piece(voice: spec_fn(Seq<char>) -> Seq<char>, piece: Seq<char>) -> Seq<
    char,
> {
    if piece.len() == 0 {
        Seq::empty()
    } else {
        voice(piece)
    }
}

/// `s` from `i` on, with `voice` applied to every text between two runs of
/// punctuation and the runs left as they are.
pub open spec fn interleaved(
    s: Seq<char>,
    i: int,
    voice: spec_fn(Seq<char>) -> Seq<char>,
) -> Seq<char>
    decreases s.len() - i,
    via interleaved_decrease
{
    let start = run_start(s, i);
    if 0 <= i <= s.len() {
        if start < s.len() {
            let end = filler_end(s, start);
            voiced_piece(voice, s.subrange(i, start)) + s.subrange(start, end) + interleaved(
                s,
                end,
                voice,
            )
        } else {
            voiced_piece(voice, s.subrange(i, s.len() as int))
        }
    } else {
        Seq::empty()
    }
}

#[via_fn]
proof fn interleaved_decrease(s: Seq<char>, i: int, voice: spec_fn(Seq<char>) -> Seq<char>) {
    if 0 <= i && run_start(s, i) < s.len() {
        lemma_run_start(s, i);
        lemma_filler_end(s, run_start(s, i));
    }
}

/// The runs from the end of the `k`th one on are those that follow it.
proof fn lemma_runs_after(s: Seq<char>, k: int)
    requires
        0 <= k <= runs_from(s, 0).len(),
    ensures
        runs_from(
            s,
            if k == 0 {
                0
            } else {
                runs_from(s, 0)[k - 1].1
            },
        ) == runs_from(s, 0).skip(k),
    decreases k,
{
    let all = runs_from(s, 0);
    if k == 0 {
        assert(all.skip(0) =~= all);
    } else {
        lemma_runs_after(s, k - 1);
        lemma_runs_from(s, 0);
        let from = if k == 1 {
            0
        } else {
            all[k - 2].1
        };
        assert(all.skip(k - 1)[0] == all[k - 1]);
        let rest = runs_from(s, all[k - 1].1);
        assert(runs_from(s, from) == seq![all[k - 1]] + rest);
        assert(all.skip(k) =~= all.skip(k - 1).skip(1));
        assert((seq![all[k - 1]] + rest).skip(1) =~= rest);
    }
}

/// Where the `k`th piece of `s` starts.
spec fn piece_from(s: Seq<char>, k: int) -> int {
    if k == 0 {
        0
    } else {
        runs_from(s, 0)[k - 1].1
    }
}

/// The interleaving from the `k`th piece on.
proof fn lemma_interleaved_step(s: Seq<char>, k: int, voice: spec_fn(Seq<char>) -> Seq<char>)
    requires
        0 <= k <= runs_from(s, 0).len(),
    ensures
        ({
            let all = runs_from(s, 0);
            let piece = pieces(s, all)[k];
            let here = interleaved(s, piece_from(s, k), voice);
            if k == all.len() {
                here == voiced_piece(voice, piece)
            } else {
                here == voiced_piece(voice, piece) + s.subrange(all[k].0, all[k].1) + interleaved(
                    s,
                    piece_from(s, k + 1),
                    voice,
                )
            }
        }),
{
    let all = runs_from(s, 0);
    let from = piece_from(s, k);
    lemma_runs_after(s, k);
    lemma_runs_from(s, 0);
    lemma_run_start(s, from);
    if k < all.len() {
        assert(all.skip(k)[0] == all[k]);
    } else {
        assert(all.skip(k).len() == 0);
    }
}

/// Replacing each space with a space changes nothing.
pub proof fn lemma_with_spaces(s: Seq<char>)
    ensures
        with_spaces(s, seq![' ']) == s,
    decreases s.len(),
{
    if s.len() > 0 {
        lemma_with_spaces(s.drop_last());
        assert(s.drop_last().push(s.last()) =~= s);
        assert(s.drop_last() + seq![' '] =~= s.drop_last().push(' '));
    }
}

/// Only the first and the last piece of a line can be empty.
pub proof fn lemma_inner_pieces(s: Seq<char>, k: int)
    requires
        0 <= k <= runs_from(s, 0).len(),
    ensures
        0 < k < runs_from(s, 0).len() ==> pieces(s, runs_from(s, 0))[k].len() > 0,
        k == 0 && runs_from(s, 0).len() > 0 ==> (pieces(s, runs_from(s, 0))[0].len() == 0
            <==> runs_from(s, 0)[0].0 == 0),
        0 < k == runs_from(s, 0).len() ==> (pieces(s, runs_from(s, 0))[k].len() == 0
            <==> runs_from(s, 0)[k - 1].1 == s.len()),
{
    lemma_runs_from(s, 0);
    let all = runs_from(s, 0);
    if 0 < k < all.len() {
        assert(all[k - 1].1 < all[k].0);
    }
}

/// What is taken out of a single line.
pub proof fn lemma_one_line(s: Seq<char>)
    ensures
        kept_texts(seq![s]) == line_texts(s).filter(|t: Seq<char>| t.len() > 0),
        kept_runs(seq![s]) == line_runs(s, 0),
{
    reveal_with_fuel(kept_texts, 2);
    reveal_with_fuel(kept_runs, 2);
    let one = seq![s];
    assert(one.drop_last().len() == 0);
    assert(one.last() == s);
    assert(kept_texts(one) =~= line_texts(s).filter(|t: Seq<char>| t.len() > 0));
    assert(kept_runs(one) =~= line_runs(s, 0));
}

/// The number of the first piece that is kept.
pub open spec fn first_kept(s: Seq<char>) -> int {
    if pieces(s, runs_from(s, 0))[0].len() == 0 {
        1
    } else {
        0
    }
}

/// The number of pieces up to the last one that is kept.
pub open spec fn last_kept(s: Seq<char>) -> int {
    let n = runs_from(s, 0).len() as int;
    if n > 0 && pieces(s, runs_from(s, 0))[n].len() == 0 {
        n
    } else {
        n + 1
    }
}

/// The kept texts of a line are its pieces without the empty ones at either end.
pub proof fn lemma_kept_texts(s: Seq<char>)
    requires
        !is_alone(s),
        s.len() > 0,
    ensures
        first_kept(s) < last_kept(s),
        kept_texts(seq![s]) == pieces(s, runs_from(s, 0)).subrange(first_kept(s), last_kept(s)),
        forall|k: int|
            first_kept(s) <= k < last_kept(s) ==> #[trigger] pieces(s, runs_from(s, 0))[k].len()
                > 0,
{
    let all = runs_from(s, 0);
    let n = all.len() as int;
    let list = pieces(s, all);
    let keep = |t: Seq<char>| t.len() > 0;
    lemma_runs_from(s, 0);
    lemma_one_line(s);
    assert forall|k: int| first_kept(s) <= k < last_kept(s) implies #[trigger] list[k].len()
        > 0 by {
        lemma_inner_pieces(s, k);
    }
    lemma_inner_pieces(s, 0);
    lemma_inner_pieces(s, n);
    if n == 0 {
        assert(list[0] =~= s);
    } else if n == 1 && first_kept(s) == 1 && last_kept(s) == 1 {
        assert(all =~= seq![(0int, s.len() as int)]);
    }
    lemma_filter_ends(list, keep, first_kept(s), last_kept(s));
}

/// A list of which all but the first and the last few are kept.
proof fn lemma_filter_ends(
    list: Seq<Seq<char>>,
    keep: spec_fn(Seq<char>) -> bool,
    from: int,
    to: int,
)
    requires
        0 <= from <= to <= list.len(),
        forall|k: int| 0 <= k < list.len() ==> keep(#[trigger] list[k]) == (from <= k < to),
    ensures
        list.filter(keep) == list.subrange(from, to),
    decreases list.len(),
{
    reveal(Seq::filter);
    if list.len() > 0 {
        let less = list.drop_last();
        if to == list.len() && from < to {
            assert forall|k: int| 0 <= k < less.len() implies keep(#[trigger] less[k]) == (from <= k
                < to - 1) by {
                assert(less[k] == list[k]);
            }
            lemma_filter_ends(less, keep, from, to - 1);
            assert(keep(list[list.len() - 1]));
            assert(less.subrange(from, to - 1).push(list.last()) =~= list.subrange(from, to));
        } else {
            let end = if to == list.len() {
                to - 1
            } else {
                to
            };
            let start = if from > end {
                end
            } else {
                from
            };
            assert(!keep(list[list.len() - 1]));
            assert forall|k: int| 0 <= k < less.len() implies keep(#[trigger] less[k]) == (start
                <= k < end) by {
                assert(less[k] == list[k]);
            }
            lemma_filter_ends(less, keep, start, end);
            assert(less.subrange(start, end) =~= list.subrange(from, to));
        }
    } else {
        assert(list.filter(keep) =~= list.subrange(from, to));
    }
}

/// Whether what `voice` makes of a text can be told from the space after it.
pub open spec fn closed(voice: spec_fn(Seq<char>) -> Seq<char>, part: Seq<char>) -> bool {
    voice(part).len() > 0 && voice(part).last() != ' '
}

/// Whether `word` is what `voice` makes of `part`, with or without a separator that
/// can be told from it.
spec fn says(voice: spec_fn(Seq<char>) -> Seq<char>, part: Seq<char>, word: Seq<char>) -> bool {
    ||| word == voice(part)
    ||| closed(voice, part) && word == voice(part).push(' ')
}

/// Splicing from the `k`th run on: `head` holds what comes before it, the `k`th
/// piece included.
proof fn lemma_restored(
    s: Seq<char>,
    k: int,
    head: Seq<char>,
    voice: spec_fn(Seq<char>) -> Seq<char>,
    list: Seq<Seq<char>>,
)
    requires
        s.len() > 0,
        !is_alone(s),
        first_kept(s) <= k < last_kept(s),
        forall|j: int|
            first_kept(s) <= j < last_kept(s) && j < runs_from(s, 0).len() ==> closed(
                voice,
                #[trigger] pieces(s, runs_from(s, 0))[j],
            ),
        k < runs_from(s, 0).len() ==> head.len() > 0 && head.last() != ' ',
        list.len() == last_kept(s) - k,
        list[0] == head || head.len() > 0 && head.last() != ' ' && list[0] == head.push(' '),
        forall|j: int|
            0 < j < list.len() ==> says(
                voice,
                pieces(s, runs_from(s, 0))[k + j],
                #[trigger] list[j],
            ),
    ensures
        ({
            let all = runs_from(s, 0);
            let whole = if k == all.len() {
                head
            } else {
                head + s.subrange(all[k].0, all[k].1) + interleaved(s, piece_from(s, k + 1), voice)
            };
            restored(list, line_runs(s, 0).skip(k), 0, seq![' ']) == seq![
                separated(whole, seq![' ']),
            ]
        }),
    decreases runs_from(s, 0).len() - k,
{
    let all = runs_from(s, 0);
    let n = all.len() as int;
    let sep = seq![' '];
    let marks = line_runs(s, 0).skip(k);
    lemma_runs_from(s, 0);
    lemma_kept_texts(s);
    assert(k < n ==> unseparated(list[0], sep) == head) by {
        if list[0] == head {
            if ends_with(head, sep) {
                assert(head.subrange(head.len() - 1, head.len() as int)[0] == head.last());
            }
        } else {
            let t = head.push(' ');
            assert(t.subrange(t.len() - 1, t.len() as int) =~= sep);
            assert(t.take(t.len() - 1) =~= head);
        }
    }
    if k == n {
        assert(marks.len() == 0);
        assert(list.len() == 1);
        assert(separated(list[0], sep) == separated(head, sep)) by {
            if list[0] != head {
                if ends_with(head, sep) {
                    assert(head.subrange(head.len() - 1, head.len() as int)[0] == head.last());
                }
                let t = head.push(' ');
                assert(t.subrange(t.len() - 1, t.len() as int) =~= sep);
                assert(head + sep =~= t);
            }
        }
        assert(restored(list, marks, 0, sep) =~= seq![separated(head, sep)]);
    } else {
        let run = s.subrange(all[k].0, all[k].1);
        let rest = marks.drop_first();
        assert(rest =~= line_runs(s, 0).skip(k + 1));
        assert(marks[0] == line_runs(s, 0)[k]);
        assert(marks[0].mark == run);
        lemma_with_spaces(run);
        lemma_inner_pieces(s, 0);
        lemma_inner_pieces(s, n);
        assert(!(k == 0 && all[k].0 == 0));
        if k == n - 1 && all[k].1 == s.len() {
            assert(marks[0].position == Position::End);
            assert(list.len() == 1);
            assert(rest.len() == 0);
            let line = head + separated(run, sep);
            assert(line == separated(head + run, sep)) by {
                let joined = head + run;
                assert(joined.subrange(joined.len() - 1, joined.len() as int) =~= run.subrange(
                    run.len() - 1,
                    run.len() as int,
                ));
                assert(head + (run + sep) =~= joined + sep);
            }
            assert(restored(list.drop_first(), rest, 1, sep) =~= Seq::empty());
            lemma_interleaved_step(s, n, voice);
            assert(interleaved(s, piece_from(s, k + 1), voice) =~= Seq::empty());
            assert(head + run + Seq::empty() =~= head + run);
            assert(restored(list, marks, 0, sep) =~= seq![line]);
        } else {
            assert(marks[0].position == Position::Inner);
            assert(list.len() > 1);
            let piece = pieces(s, all)[k + 1];
            let said = voice(piece);
            assert(says(voice, piece, list[1]));
            let more = head + run + said;
            let next = list.drop_first().update(0, head + run + list[1]);
            if list[1] == said {
                assert(next[0] == more);
            } else {
                assert(next[0] =~= more.push(' '));
            }
            if k + 1 < n {
                assert(closed(voice, pieces(s, all)[k + 1]));
            }
            assert forall|j: int| 0 < j < next.len() implies says(
                voice,
                pieces(s, all)[k + 1 + j],
                #[trigger] next[j],
            ) by {
                assert(next[j] == list[j + 1]);
            }
            lemma_restored(s, k + 1, more, voice, next);
            lemma_interleaved_step(s, k + 1, voice);
            assert(restored(list, marks, 0, sep) == restored(next, rest, 0, sep));
            if k + 1 == n {
                assert(more =~= head + run + interleaved(s, piece_from(s, k + 1), voice));
            } else {
                let after = s.subrange(all[k + 1].0, all[k + 1].1);
                let last = interleaved(s, piece_from(s, k + 2), voice);
                assert(more + after + last =~= head + run + (said + after + last));
            }
        }
    }
}

/// Splicing the marks back in puts each of them, with the white space around it,
/// exactly where it was: between what the texts on either side of it were
/// phonemised to. A separator follows the last word.
pub proof fn marks_come_back_in_place(s: Seq<char>, voice: spec_fn(Seq<char>) -> Seq<char>)
    requires
        s.len() > 0,
        forall|k: int|
            0 <= k < kept_texts(seq![s]).len() ==> closed(voice, #[trigger] kept_texts(seq![s])[k]),
    ensures
        spliced(s, kept_texts(seq![s]).map_values(voice)) == if is_alone(s) {
            s
        } else {
            separated(interleaved(s, 0, voice), seq![' '])
        },
        is_alone(s) ==> interleaved(s, 0, voice) == s,
{
    reveal_strlit(" ");
    assert(WORD_SEP@ =~= seq![' ']);
    let sep = seq![' '];
    let all = runs_from(s, 0);
    let n = all.len() as int;
    let marks = kept_runs(seq![s]);
    let words = kept_texts(seq![s]).map_values(voice);
    let list = words.map_values(|w: Seq<char>| worded(w));
    lemma_one_line(s);
    lemma_runs_from(s, 0);
    lemma_interleaved_step(s, 0, voice);
    if is_alone(s) {
        reveal(Seq::filter);
        assert(kept_texts(seq![s]) =~= Seq::empty());
        reveal_with_fuel(run_texts, 2);
        assert(marks.drop_last() =~= Seq::empty());
        assert(marks.last().mark == s);
        assert(run_texts(marks) =~= s);
        lemma_with_spaces(s);
        lemma_interleaved_step(s, 1, voice);
        assert(interleaved(s, 0, voice) =~= s);
        assert(list.len() == 0);
        assert(restored(list, marks, 0, sep) == seq![s]);
    } else {
        let a = first_kept(s);
        let kept = kept_texts(seq![s]);
        lemma_kept_texts(s);
        assert forall|j: int| first_kept(s) <= j < last_kept(s) implies closed(
            voice,
            #[trigger] pieces(s, all)[j],
        ) by {
            assert(pieces(s, all)[j] == kept[j - a]);
        }
        assert forall|j: int| 0 <= j < list.len() implies #[trigger] list[j] == voice(
            pieces(s, all)[a + j],
        ).push(' ') by {
            assert(kept[j] == pieces(s, all)[a + j]);
            assert(closed(voice, kept[j]));
            assert(list[j] =~= voice(kept[j]).push(' '));
        }
        let said = voice(pieces(s, all)[a]);
        lemma_inner_pieces(s, 0);
        lemma_inner_pieces(s, n);
        if a == 0 {
            assert(marks.skip(0) =~= marks);
            lemma_restored(s, 0, said, voice, list);
        } else {
            // The marks at the very start go before the first word.
            let run = s.subrange(all[0].0, all[0].1);
            let head = run + said;
            assert(marks[0].position == Position::Begin);
            assert(marks[0].mark == run);
            assert(marks.drop_first() =~= marks.skip(1));
            lemma_with_spaces(run);
            let t = said.push(' ');
            assert(t.subrange(t.len() - 1, t.len() as int) =~= sep);
            assert(t.take(t.len() - 1) =~= said);
            assert(list[0] == t);
            let next = list.update(0, head);
            lemma_restored(s, 1, head, voice, next);
            assert(restored(list, marks, 0, sep) == restored(next, marks.drop_first(), 0, sep));
            lemma_interleaved_step(s, 1, voice);
            assert(interleaved(s, 0, voice) == Seq::empty() + run + interleaved(
                s,
                piece_from(s, 1),
                voice,
            ));
            if n == 1 {
                assert(head =~= interleaved(s, 0, voice));
            } else {
                let after = s.subrange(all[1].0, all[1].1);
                let last = interleaved(s, piece_from(s, 2), voice);
                assert(head + after + last =~= interleaved(s, 0, voice));
            }
        }
    }
}

/// Interleaving texts with the marks between them, each text unchanged.
proof fn lemma_interleaved_same(s: Seq<char>, i: int, voice: spec_fn(Seq<char>) -> Seq<char>)
    requires
        0 <= i <= s.len(),
        forall|t: Seq<char>| #[trigger] voice(t) == t,
    ensures
        interleaved(s, i, voice) == s.skip(i),
    decreases s.len() - i,
{
    let start = run_start(s, i);
    lemma_run_start(s, i);
    if start < s.len() {
        let end = filler_end(s, start);
        lemma_filler_end(s, start);
        lemma_interleaved_same(s, end, voice);
        assert(voiced_piece(voice, s.subrange(i, start)) =~= s.subrange(i, start));
        assert(s.subrange(i, start) + s.subrange(start, end) + s.skip(end) =~= s.skip(i));
    } else {
        assert(voiced_piece(voice, s.subrange(i, s.len() as int)) =~= s.skip(i));
    }
}

/// Before a run of punctuation there is no white space: it belongs to the run.
proof fn lemma_piece_end(s: Seq<char>, k: int)
    requires
        0 <= k < runs_from(s, 0).len(),
        pieces(s, runs_from(s, 0))[k].len() > 0,
    ensures
        !is_space(pieces(s, runs_from(s, 0))[k].last()),
{
    let all = runs_from(s, 0);
    let from = piece_from(s, k);
    lemma_runs_from(s, 0);
    lemma_runs_after(s, k);
    lemma_run_start(s, from);
    assert(all.skip(k)[0] == all[k]);
    let to = run_start(s, from);
    assert(to == all[k].0);
    if is_space(s[to - 1]) {
        lemma_space_end(s, to - 1);
        assert(space_end(s, to - 1) == space_end(s, to));
        assert(starts_run(s, to - 1));
    }
}

/// A space at the end goes with the rest of the white space there.
proof fn lemma_trim_end_push(s: Seq<char>)
    ensures
        trim_end(s.push(' ')) == trim_end(s),
        trim_end(separated(s, seq![' '])) == trim_end(s),
        trim_end(unseparated(s, seq![' '])) == trim_end(s),
{
    let t = s.push(' ');
    let sep = seq![' '];
    assert(t.take(s.len() as int) =~= s);
    lemma_space_start_within(s, t, s.len() as int);
    lemma_space_start(s, s.len() as int);
    assert(trim_end(t) =~= trim_end(s));
    assert(s + sep =~= t);
    if ends_with(s, sep) {
        let u = s.drop_last();
        assert(s.subrange(s.len() - 1, s.len() as int)[0] == s.last());
        assert(u =~= s.take(s.len() - 1));
        lemma_space_start_within(u, s, u.len() as int);
        lemma_space_start(u, u.len() as int);
        assert(trim_end(u) =~= trim_end(s));
    }
}

proof fn lemma_space_start_within(x: Seq<char>, y: Seq<char>, j: int)
    requires
        0 <= j <= x.len() <= y.len(),
        y.take(x.len() as int) == x,
    ensures
        space_start(x, j) == space_start(y, j),
    decreases j,
{
    if j > 0 {
        assert(x[j - 1] == y.take(x.len() as int)[j - 1]);
        lemma_space_start_within(x, y, j - 1);
    }
}

/// The texts of a line are its pieces, each closed by the run after it.
proof fn lemma_pieces_closed(s: Seq<char>)
    requires
        s.len() > 0,
        !is_alone(s),
    ensures
        forall|j: int|
            first_kept(s) <= j < last_kept(s) && j < runs_from(s, 0).len() ==> closed(
                |t: Seq<char>| t,
                #[trigger] pieces(s, runs_from(s, 0))[j],
            ),
{
    let same = |t: Seq<char>| t;
    lemma_kept_texts(s);
    assert forall|j: int|
        first_kept(s) <= j < last_kept(s) && j < runs_from(s, 0).len() implies closed(
        same,
        #[trigger] pieces(s, runs_from(s, 0))[j],
    ) by {
        lemma_piece_end(s, j);
    }
}

/// A line that starts with a text comes back as it is.
proof fn lemma_restored_from_text(s: Seq<char>)
    requires
        s.len() > 0,
        !is_alone(s),
        first_kept(s) == 0,
    ensures
        restored(kept_texts(seq![s]), kept_runs(seq![s]), 0, seq![' ']) == seq![
            separated(s, seq![' ']),
        ],
{
    let same = |t: Seq<char>| t;
    let marks = kept_runs(seq![s]);
    let list = kept_texts(seq![s]);
    lemma_one_line(s);
    lemma_runs_from(s, 0);
    lemma_kept_texts(s);
    lemma_pieces_closed(s);
    lemma_interleaved_same(s, 0, same);
    lemma_interleaved_step(s, 0, same);
    assert(s.skip(0) =~= s);
    assert(marks.skip(0) =~= marks);
    assert(list[0] == pieces(s, runs_from(s, 0))[0]);
    if runs_from(s, 0).len() > 0 {
        assert(closed(same, pieces(s, runs_from(s, 0))[0]));
    }
    lemma_restored(s, 0, list[0], same, list);
}

/// A line that starts with marks comes back as it is, but for a space at its end.
proof fn lemma_restored_from_marks(s: Seq<char>)
    requires
        s.len() > 0,
        !is_alone(s),
        first_kept(s) == 1,
    ensures
        ({
            let lines = restored(kept_texts(seq![s]), kept_runs(seq![s]), 0, seq![' ']);
            lines.len() == 1 && trim_end(lines[0]) == trim_end(s)
        }),
{
    let sep = seq![' '];
    let same = |t: Seq<char>| t;
    let all = runs_from(s, 0);
    let n = all.len() as int;
    let marks = kept_runs(seq![s]);
    let list = kept_texts(seq![s]);
    let piece = pieces(s, all)[1];
    lemma_one_line(s);
    lemma_runs_from(s, 0);
    lemma_kept_texts(s);
    lemma_pieces_closed(s);
    lemma_inner_pieces(s, 0);
    assert(list[0] == piece);
    let run = s.subrange(all[0].0, all[0].1);
    let head = run + unseparated(piece, sep);
    let next = list.update(0, head);
    assert(marks[0].position == Position::Begin);
    assert(marks[0].mark == run);
    assert(marks.drop_first() =~= marks.skip(1));
    lemma_with_spaces(run);
    if ends_with(piece, sep) {
        assert(piece.subrange(piece.len() - 1, piece.len() as int)[0] == piece.last());
    }
    if n > 1 {
        assert(closed(same, pieces(s, all)[1]));
        assert(head == run + piece);
    }
    lemma_restored(s, 1, head, same, next);
    let lines = restored(list, marks, 0, sep);
    assert(lines == restored(next, marks.drop_first(), 0, sep));
    lemma_interleaved_same(s, all[0].1, same);
    lemma_interleaved_step(s, 1, same);
    assert(run + s.skip(all[0].1) =~= s);
    if n > 1 {
        let after = s.subrange(all[1].0, all[1].1);
        let last = interleaved(s, piece_from(s, 2), same);
        assert(head + after + last =~= run + (piece + after + last));
        lemma_trim_end_push(s);
    } else {
        assert(run + piece =~= s);
        lemma_trim_end_push(head);
        if ends_with(piece, sep) {
            assert(head.push(' ') =~= s);
        } else {
            assert(head =~= s);
        }
    }
}

/// Restoring undoes preserving: of any line, the texts between its marks and the marks
/// give the line again, but for white space at its end.
pub proof fn restoring_undoes_preserving(s: Seq<char>)
    ensures
        trim_end(
            restored(kept_texts(seq![s]), kept_runs(seq![s]), 0, seq![' ']).flatten(),
        ) == trim_end(s),
{
    let sep = seq![' '];
    let all = runs_from(s, 0);
    let marks = kept_runs(seq![s]);
    let list = kept_texts(seq![s]);
    let lines = restored(list, marks, 0, sep);
    let keep = |t: Seq<char>| t.len() > 0;
    lemma_one_line(s);
    lemma_runs_from(s, 0);
    if s.len() == 0 {
        assert(all.len() == 0);
        lemma_filter_ends(pieces(s, all), keep, 0, 0);
        assert(list.len() == 0);
        assert(marks.len() == 0);
        assert(lines =~= Seq::empty());
        assert(lines.flatten() =~= s);
    } else if is_alone(s) {
        lemma_filter_ends(Seq::empty(), keep, 0, 0);
        assert(list.len() == 0);
        reveal_with_fuel(run_texts, 2);
        assert(marks.drop_last() =~= Seq::empty());
        assert(run_texts(marks) =~= s);
        lemma_with_spaces(s);
        assert(lines =~= seq![s]);
        lines.lemma_flatten_one_element();
    } else {
        if first_kept(s) == 0 {
            lemma_restored_from_text(s);
            lemma_trim_end_push(s);
        } else {
            lemma_restored_from_marks(s);
        }
        lines.lemma_flatten_one_element();
    }
}

/// A kept text has no mark in it, and where the line has no white space at its
/// ends neither has the text.
pub proof fn lemma_kept_solid(s: Seq<char>, k: int)
    requires
        s.len() > 0,
        !is_space(s.last()),
        0 <= k < kept_texts(seq![s]).len(),
    ensures
        kept_texts(seq![s])[k].len() > 0,
        !is_space(kept_texts(seq![s])[k].last()),
        !is_space(s[0]) ==> !is_space(kept_texts(seq![s])[k][0]),
        forall|j: int|
            0 <= j < kept_texts(seq![s])[k].len() ==> !is_mark(
                #[trigger] kept_texts(seq![s])[k][j],
            ),
{
    let all = runs_from(s, 0);
    lemma_one_line(s);
    if is_alone(s) {
        reveal(Seq::filter);
    } else {
        lemma_kept_texts(s);
        lemma_runs_from(s, 0);
        let n = first_kept(s) + k;
        let piece = pieces(s, all)[n];
        assert(kept_texts(seq![s])[k] == piece);
        assert(piece.len() > 0);
        let from = piece_from(s, n);
        lemma_runs_after(s, n);
        lemma_run_start(s, from);
        let to = run_start(s, from);
        if n < all.len() {
            assert(all.skip(n)[0] == all[n]);
            assert(to == all[n].0);
            lemma_piece_end(s, n);
        } else {
            assert(all.skip(n).len() == 0);
            assert(to >= s.len());
        }
        if n > 0 {
            lemma_filler_end(s, all[n - 1].0);
        }
        assert forall|j: int| 0 <= j < piece.len() implies !is_mark(#[trigger] piece[j]) by {
            assert(piece[j] == s[from + j]);
        }
    }
}

} // verus!
