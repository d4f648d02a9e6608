//! What is hidden from the phonemiser, and what is not.

use vstd::prelude::*;

use crate::chars::{ends_with, is_space, lemma_space_end, space_end, with_spaces};
use crate::punctuation::{
    filler_end, is_alone, is_filler, is_mark, kept_runs, kept_texts, lemma_filler_end,
    lemma_run_start, lemma_runs_from, line_runs, line_texts, restored, run_start, run_texts,
    runs_from, separated, starts_run, unseparated, Position, Run,
};
use crate::text::sentences::pieces;

verus! {

/// The punctuation marks, in the order of their code points, and nothing else.
pub proof fn marks_are_these(c: char)
    ensures
        is_mark(c) <==> {
            let n = c as int;
            ||| n == 33 || n == 34 || n == 40 || n == 41 || n == 44 || n == 46
            ||| n == 58 || n == 59 || n == 63 || n == 91 || n == 93 || n == 123 || n == 125
            ||| n == 0xa1 || n == 0xab || n == 0xbb || n == 0xbf
            ||| n == 0x2014 || n == 0x201c || n == 0x201d || n == 0x2026
        },
{
}

/// What is in no run is no mark.
proof fn lemma_outside(s: Seq<char>, i: int, p: int)
    requires
        0 <= i <= p < s.len(),
        forall|k: int| #![trigger runs_from(s, i)[k]]
            0 <= k < runs_from(s, i).len() ==> !(runs_from(s, i)[k].0 <= p < runs_from(s, i)[k].1),
    ensures
        !is_mark(s[p]),
    decreases s.len() - i,
{
    let start = run_start(s, i);
    lemma_run_start(s, i);
    if start <= p {
        let end = filler_end(s, start);
        lemma_filler_end(s, start);
        let rest = runs_from(s, end);
        assert(runs_from(s, i)[0] == (start, end));
        assert forall|k: int| #![trigger rest[k]] 0 <= k < rest.len() implies !(rest[k].0 <= p
            < rest[k].1) by {
            assert(runs_from(s, i)[k + 1] == rest[k]);
        }
        lemma_outside(s, end, p);
    }
}

/// A run starts where there is a mark, or white space and then a mark, and no earlier place
/// since the one before it would do.
proof fn lemma_run(s: Seq<char>, i: int, k: int)
    requires
        0 <= i,
        i == 0 || i <= s.len() && is_filler(s[i - 1]) && (i == s.len() || !is_filler(s[i])),
        0 <= k < runs_from(s, i).len(),
    ensures
        ({
            let r = runs_from(s, i)[k];
            &&& i <= r.0 < r.1 <= s.len()
            &&& r.1 == filler_end(s, r.0)
            &&& starts_run(s, r.0)
            &&& r.0 > 0 ==> i < r.0 && !is_space(s[r.0 - 1])
        }),
    decreases s.len() - i,
{
    let start = run_start(s, i);
    lemma_run_start(s, i);
    assert(start < s.len());
    let end = filler_end(s, start);
    lemma_filler_end(s, start);
    if i < s.len() && !is_filler(s[i]) {
        assert(start > i);
    }
    if k == 0 {
        if i < start && is_space(s[start - 1]) {
            lemma_space_end(s, start - 1);
            assert(space_end(s, start - 1) == space_end(s, start));
            assert(starts_run(s, start - 1));
        }
    } else {
        assert(is_filler(s[end - 1]));
        lemma_run(s, end, k - 1);
        assert(runs_from(s, i)[k] == runs_from(s, end)[k - 1]);
    }
}

/// A run of punctuation is made of marks and white space, with at least one mark, and
/// neither a mark nor white space stands next to it on either side.
pub proof fn runs_are_marks_and_white_space(s: Seq<char>, k: int)
    requires
        0 <= k < runs_from(s, 0).len(),
    ensures
        ({
            let r = runs_from(s, 0)[k];
            &&& 0 <= r.0 < r.1 <= s.len()
            &&& forall|n: int|
                r.0 <= n < r.1 ==> is_space(#[trigger] s[n]) || is_mark(s[n])
            &&& exists|n: int| r.0 <= n < r.1 && #[trigger] is_mark(s[n])
            &&& r.0 > 0 ==> !is_space(s[r.0 - 1]) && !is_mark(s[r.0 - 1])
            &&& r.1 < s.len() ==> !is_space(s[r.1]) && !is_mark(s[r.1])
        }),
        k + 1 < runs_from(s, 0).len() ==> runs_from(s, 0)[k].1 < runs_from(s, 0)[k + 1].0,
{
    lemma_run(s, 0, k);
    lemma_runs_from(s, 0);
    let all = runs_from(s, 0);
    let r = all[k];
    lemma_filler_end(s, r.0);
    lemma_space_end(s, r.0);
    let n = space_end(s, r.0);
    assert(is_mark(s[n]));
    if n >= r.1 {
        assert(r.1 < s.len());
        assert(!is_filler(s[r.1]));
        if r.1 < n {
            assert(is_space(s[r.1]));
        }
    }
    if r.0 > 0 {
        assert forall|l: int| #![trigger all[l]] 0 <= l < all.len() implies !(all[l].0 <= r.0 - 1
            < all[l].1) by {
            if l < k {
                assert(all[l].1 < all[k].0);
            }
            if l > k {
                assert(all[k].1 < all[l].0);
            }
        }
        lemma_outside(s, 0, r.0 - 1);
    }
}

/// Every mark is in a run of punctuation.
pub proof fn every_mark_is_in_a_run(s: Seq<char>, p: int)
    requires
        0 <= p < s.len(),
        is_mark(s[p]),
    ensures
        exists|k: int|
            0 <= k < runs_from(s, 0).len() && (#[trigger] runs_from(s, 0)[k]).0 <= p < runs_from(
                s,
                0,
            )[k].1,
{
    if !exists|k: int|
        0 <= k < runs_from(s, 0).len() && (#[trigger] runs_from(s, 0)[k]).0 <= p < runs_from(
            s,
            0,
        )[k].1 {
        lemma_outside(s, 0, p);
    }
}

/// A piece between two runs holds no mark.
proof fn lemma_piece_unmarked(s: Seq<char>, k: int, i: int)
    requires
        0 <= k <= runs_from(s, 0).len(),
        0 <= i < pieces(s, runs_from(s, 0))[k].len(),
    ensures
        !is_mark(pieces(s, runs_from(s, 0))[k][i]),
{
    let all = runs_from(s, 0);
    lemma_runs_from(s, 0);
    let from = if k == 0 {
        0
    } else {
        all[k - 1].1
    };
    let to = if k == all.len() {
        s.len() as int
    } else {
        all[k].0
    };
    if 0 < k < all.len() {
        assert(all[k - 1].1 < all[k].0);
    }
    let p = from + i;
    assert forall|l: int| #![trigger all[l]] 0 <= l < all.len() implies !(all[l].0 <= p
        < all[l].1) by {
        if l < k - 1 {
            assert(all[l].1 < all[k - 1].0);
        }
        if k < all.len() && l > k {
            assert(all[k].1 < all[l].0);
        }
    }
    lemma_outside(s, 0, p);
    assert(pieces(s, all)[k] == s.subrange(from, to));
}

/// No punctuation mark reaches the phonemiser.
pub proof fn no_mark_reaches_the_phonemiser(lines: Seq<Seq<char>>, j: int, i: int)
    requires
        0 <= j < kept_texts(lines).len(),
        0 <= i < kept_texts(lines)[j].len(),
    ensures
        !is_mark(kept_texts(lines)[j][i]),
    decreases lines.len(),
{
    let before = kept_texts(lines.drop_last());
    let line = lines.last();
    let keep = |t: Seq<char>| t.len() > 0;
    let here = line_texts(line).filter(keep);
    if j < before.len() {
        assert(kept_texts(lines)[j] == before[j]);
        no_mark_reaches_the_phonemiser(lines.drop_last(), j, i);
    } else {
        let one = here[j - before.len()];
        assert(kept_texts(lines)[j] == one);
        assert(here.contains(one));
        line_texts(line).lemma_filter_contains_rev(keep, one);
        let k = choose|k: int| 0 <= k < line_texts(line).len() && line_texts(line)[k] == one;
        lemma_piece_unmarked(line, k, i);
    }
}

/// No text that the phonemiser is asked for is empty.
pub proof fn no_empty_text_reaches_the_phonemiser(lines: Seq<Seq<char>>, j: int)
    requires
        0 <= j < kept_texts(lines).len(),
    ensures
        kept_texts(lines)[j].len() > 0,
    decreases lines.len(),
{
    let before = kept_texts(lines.drop_last());
    let keep = |t: Seq<char>| t.len() > 0;
    let here = line_texts(lines.last()).filter(keep);
    if j < before.len() {
        assert(kept_texts(lines)[j] == before[j]);
        no_empty_text_reaches_the_phonemiser(lines.drop_last(), j);
    } else {
        line_texts(lines.last()).lemma_filter_pred(keep, j - before.len());
        assert(kept_texts(lines)[j] == here[j - before.len()]);
    }
}

/// What stands between two runs of a line, or at either end, reaches the phonemiser, unless
/// it is empty.
pub proof fn every_text_reaches_the_phonemiser(s: Seq<char>, k: int)
    requires
        0 <= k <= runs_from(s, 0).len(),
    ensures
        ({
            let all = runs_from(s, 0);
            let from = if k == 0 {
                0
            } else {
                all[k - 1].1
            };
            let to = if k == all.len() {
                s.len() as int
            } else {
                all[k].0
            };
            from < to ==> kept_texts(seq![s]).contains(s.subrange(from, to))
        }),
{
    let all = runs_from(s, 0);
    let keep = |t: Seq<char>| t.len() > 0;
    lemma_runs_from(s, 0);
    crate::laws::splicing::lemma_one_line(s);
    let from = if k == 0 {
        0
    } else {
        all[k - 1].1
    };
    let to = if k == all.len() {
        s.len() as int
    } else {
        all[k].0
    };
    if from < to {
        if is_alone(s) {
            assert(all[0] == (0int, s.len() as int));
        }
        let list = line_texts(s);
        assert(list[k] == s.subrange(from, to));
        list.lemma_filter_contains(keep, k);
        assert(Seq::<Seq<char>>::empty() + list.filter(keep) =~= list.filter(keep));
        assert(seq![s].drop_last() =~= Seq::empty());
        reveal_with_fuel(kept_texts, 2);
    }
}

/// Every line is taken by itself: what is kept of the lines before it stays the same, its
/// texts and runs come after theirs, and the runs say that they come from it.
pub proof fn lines_are_taken_one_by_one(lines: Seq<Seq<char>>, line: Seq<char>, k: int)
    ensures
        kept_texts(lines.push(line)) == kept_texts(lines) + kept_texts(seq![line]),
        kept_runs(lines.push(line)).len() == kept_runs(lines).len() + kept_runs(seq![line]).len(),
        0 <= k < kept_runs(lines).len() ==> kept_runs(lines.push(line))[k] == kept_runs(lines)[k],
        0 <= k < kept_runs(seq![line]).len() ==> {
            let run = kept_runs(lines.push(line))[kept_runs(lines).len() + k];
            &&& run.index == lines.len()
            &&& run.mark == kept_runs(seq![line])[k].mark
            &&& run.position == kept_runs(seq![line])[k].position
        },
        kept_texts(Seq::empty()).len() == 0,
        kept_runs(Seq::empty()).len() == 0,
{
    assert(lines.push(line).drop_last() =~= lines);
    assert(seq![line].drop_last() =~= Seq::empty());
    reveal_with_fuel(kept_texts, 2);
    reveal_with_fuel(kept_runs, 2);
    let keep = |t: Seq<char>| t.len() > 0;
    assert(kept_texts(seq![line]) =~= line_texts(line).filter(keep));
    assert(kept_runs(seq![line]) =~= line_runs(line, 0));
    assert(line_runs(line, lines.len() as int).len() == line_runs(line, 0).len());
}

/// The runs of a line are kept as they stand. One at the start of the line is said to stand
/// there, one at its end likewise, any other between two texts, and one that is the whole
/// line alone.
pub proof fn runs_say_where_they_stood(line: Seq<char>, num: int, k: int)
    requires
        0 <= k < runs_from(line, 0).len(),
    ensures
        ({
            let r = runs_from(line, 0)[k];
            let run = line_runs(line, num)[k];
            &&& line_runs(line, num).len() == runs_from(line, 0).len()
            &&& run.index == num
            &&& run.mark == line.subrange(r.0, r.1)
            &&& run.position == Position::Alone <==> r.0 == 0 && r.1 == line.len()
            &&& run.position == Position::Begin <==> r.0 == 0 && r.1 < line.len()
            &&& run.position == Position::End <==> r.0 > 0 && r.1 == line.len()
            &&& run.position == Position::Inner <==> r.0 > 0 && r.1 < line.len()
        }),
{
    let all = runs_from(line, 0);
    lemma_runs_from(line, 0);
    let r = all[k];
    if k > 0 {
        assert(all[0].1 < all[k].0);
    }
    if k < all.len() - 1 {
        assert(all[k].1 < all[all.len() - 1].0);
    }
    if r.0 == 0 && r.1 == line.len() {
        assert(all =~= seq![(0int, line.len() as int)]);
        assert(line.subrange(0, line.len() as int) =~= line);
    } else if is_alone(line) {
        assert(all[0] == (0int, line.len() as int));
        assert(all.len() == 1);
    }
}

/// A separator is put where there is none, and taken away where there is one.
pub proof fn separators_are_put_once(text: Seq<char>, sep: Seq<char>)
    requires
        sep.len() > 0,
    ensures
        separated(text + sep, sep) == text + sep,
        unseparated(text + sep, sep) == text,
        !ends_with(text, sep) ==> separated(text, sep) == text + sep,
        !ends_with(text, sep) ==> unseparated(text, sep) == text,
        separated(text, Seq::empty()) == text,
        unseparated(text, Seq::empty()) == text,
{
    let more = text + sep;
    assert(more.subrange(more.len() - sep.len(), more.len() as int) =~= sep);
    assert(more.take(more.len() - sep.len()) =~= text);
}

/// Every space gives way to the separator, and nothing else does.
pub proof fn spaces_give_way(s: Seq<char>, c: char, by: Seq<char>)
    ensures
        with_spaces(Seq::empty(), by).len() == 0,
        with_spaces(s + seq![' '], by) == with_spaces(s, by) + by,
        c != ' ' ==> with_spaces(s + seq![c], by) == with_spaces(s, by) + seq![c],
{
    assert((s + seq![' ']).drop_last() =~= s);
    assert((s + seq![c]).drop_last() =~= s);
    if c != ' ' {
        assert(with_spaces(s, by).push(c) =~= with_spaces(s, by) + seq![c]);
    }
}

/// Once the marks are used up every line ends with one separator.
pub proof fn lines_end_with_a_separator(text: Seq<Seq<char>>, pos: int, sep: Seq<char>, k: int)
    requires
        sep.len() > 0,
        0 <= k < text.len(),
    ensures
        restored(text, Seq::empty(), pos, sep).len() == text.len(),
        ends_with(text[k], sep) ==> restored(text, Seq::empty(), pos, sep)[k] == text[k],
        !ends_with(text[k], sep) ==> restored(text, Seq::empty(), pos, sep)[k] == text[k] + sep,
{
}

/// Where nothing was phonemised the marks are left, one after the other on a single line,
/// with the separator in place of every space.
pub proof fn marks_alone_make_a_line(marks: Seq<Run>, last: Run, pos: int, sep: Seq<char>)
    ensures
        restored(Seq::empty(), marks.push(last), pos, sep).len() == 1,
        marks.len() == 0 ==> restored(Seq::empty(), marks.push(last), pos, sep)[0] == with_spaces(
            last.mark,
            sep,
        ),
        marks.len() > 0 ==> restored(Seq::empty(), marks.push(last), pos, sep)[0] == restored(
            Seq::empty(),
            marks,
            pos,
            sep,
        )[0] + with_spaces(last.mark, sep),
{
    assert(marks.push(last).drop_last() =~= marks);
    lemma_spaces_add(run_texts(marks), last.mark, sep);
    if marks.len() == 0 {
        assert(run_texts(marks) + last.mark =~= last.mark);
    }
}

/// Spaces give way in the two parts of a text as in the whole of it.
proof fn lemma_spaces_add(a: Seq<char>, b: Seq<char>, by: Seq<char>)
    ensures
        with_spaces(a + b, by) == with_spaces(a, by) + with_spaces(b, by),
    decreases b.len(),
{
    if b.len() == 0 {
        assert(a + b =~= a);
        assert(with_spaces(a, by) + with_spaces(b, by) =~= with_spaces(a, by));
    } else {
        assert((a + b).drop_last() =~= a + b.drop_last());
        assert((a + b).last() == b.last());
        lemma_spaces_add(a, b.drop_last(), by);
        assert(with_spaces(a + b, by) =~= with_spaces(a, by) + with_spaces(b, by));
    }
}

/// The first run of marks goes where it stood. A line that it does not come from is told as
/// it is. It stands before the first text at the start of a line, after it at the end, where
/// the line is then done, and between the first two otherwise, in place of the separator
/// that ended the text before it. One that was a line of its own is a line of its own again.
pub proof fn marks_go_where_they_stood(
    text: Seq<Seq<char>>,
    run: Run,
    marks: Seq<Run>,
    sep: Seq<char>,
)
    requires
        text.len() > 0,
        sep.len() > 0,
    ensures
        ({
            let all = seq![run] + marks;
            let mark = with_spaces(run.mark, sep);
            let first = if ends_with(text[0], sep) {
                text[0].take(text[0].len() - sep.len())
            } else {
                text[0]
            };
            let end = if ends_with(mark, sep) {
                mark
            } else {
                mark + sep
            };
            let pos = run.index;
            let rest = text.skip(1);
            &&& restored(text, all, pos - 1, sep) == seq![text[0]] + restored(rest, all, pos, sep)
            &&& run.position == Position::Begin ==> restored(text, all, pos, sep) == restored(
                seq![mark + first] + rest,
                marks,
                pos,
                sep,
            )
            &&& run.position == Position::End ==> restored(text, all, pos, sep) == seq![first
                + end] + restored(rest, marks, pos + 1, sep)
            &&& run.position == Position::Alone ==> restored(text, all, pos, sep) == seq![end]
                + restored(seq![first] + rest, marks, pos + 1, sep)
            &&& run.position == Position::Inner && text.len() == 1 ==> restored(
                text,
                all,
                pos,
                sep,
            ) == restored(seq![first + mark], marks, pos, sep)
            &&& run.position == Position::Inner && text.len() > 1 ==> restored(
                text,
                all,
                pos,
                sep,
            ) == restored(seq![first + mark + text[1]] + text.skip(2), marks, pos, sep)
        }),
{
    let all = seq![run] + marks;
    let mark = with_spaces(run.mark, sep);
    let head = unseparated(text[0], sep);
    assert(all.drop_first() =~= marks);
    assert(all[0] == run);
    assert(text.drop_first() =~= text.skip(1));
    assert(text.update(0, mark + head) =~= seq![mark + head] + text.skip(1));
    assert(text.update(0, head) =~= seq![head] + text.skip(1));
    if text.len() == 1 {
        assert(text.update(0, head + mark) =~= seq![head + mark]);
    } else {
        assert(text.drop_first().update(0, head + mark + text[1]) =~= seq![head + mark + text[1]]
            + text.skip(2));
    }
}

} // verus!
