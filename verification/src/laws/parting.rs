//! What is put together of a text that a mark parts is put together of its two halves.

use vstd::prelude::*;

use crate::chars::{ends_with, is_blank, is_space};
use crate::laws::joining::{lemma_run_start_after, lemma_runs_before};
use crate::laws::splicing::{
    first_kept, last_kept, lemma_inner_pieces, lemma_kept_texts, lemma_one_line,
    lemma_with_spaces,
};
use crate::laws::stream::is_pure;
use crate::punctuation::{
    filler_end, is_alone, is_filler, is_mark, is_preserving, kept_runs, kept_texts,
    lemma_filler_end, lemma_run_start, lemma_runs_from, line_runs, place, restored, run_start,
    runs_from, separated, spliced, unseparated, worded, Position, Run, WORD_SEP,
};
use crate::text::chunk::may_answer;
use crate::text::sentences::pieces;

verus! {

/// How many of the runs stand between two texts.
spec fn inner_runs(marks: Seq<Run>) -> nat
    decreases marks.len(),
{
    if marks.len() == 0 {
        0
    } else {
        let rest = inner_runs(marks.drop_first());
        if marks[0].position == Position::Inner {
            rest + 1
        } else {
            rest
        }
    }
}

/// Whether `marks` are runs of a single line, in which `list` are the texts.
spec fn lined(list: Seq<Seq<char>>, marks: Seq<Run>) -> bool {
    &&& list.len() == inner_runs(marks) + 1
    &&& forall|k: int|
        0 <= k < marks.len() ==> {
            let m = #[trigger] marks[k];
            &&& m.index == 0
            &&& m.mark.len() > 0
            &&& m.position != Position::Alone
            &&& m.position == Position::End ==> k == marks.len() - 1
        }
}

/// Whether none of the runs stands at the start of the line.
spec fn begun(marks: Seq<Run>) -> bool {
    forall|k: int| 0 <= k < marks.len() ==> (#[trigger] marks[k]).position != Position::Begin
}

proof fn lemma_lined_rest(list: Seq<Seq<char>>, marks: Seq<Run>, next: Seq<Seq<char>>)
    requires
        lined(list, marks),
        marks.len() > 0,
        next.len() == list.len() - if marks[0].position == Position::Inner {
            1int
        } else {
            0int
        },
    ensures
        lined(next, marks.drop_first()),
        begun(marks) ==> begun(marks.drop_first()),
{
    let rest = marks.drop_first();
    assert forall|k: int| 0 <= k < rest.len() implies {
        let m = #[trigger] rest[k];
        &&& m.index == 0
        &&& m.mark.len() > 0
        &&& m.position != Position::Alone
        &&& m.position == Position::End ==> k == rest.len() - 1
    } by {
        assert(rest[k] == marks[k + 1]);
    }
    if begun(marks) {
        assert forall|k: int| 0 <= k < rest.len() implies (#[trigger] rest[k]).position
            != Position::Begin by {
            assert(rest[k] == marks[k + 1]);
        }
    }
}

/// What comes before a text has no part in the separator after it.
proof fn lemma_separator_after(x: Seq<char>, t: Seq<char>)
    requires
        t.len() > 0,
    ensures
        unseparated(x + t, seq![' ']) == x + unseparated(t, seq![' ']),
        separated(x + t, seq![' ']) == x + separated(t, seq![' ']),
{
    let sep = seq![' '];
    let whole = x + t;
    assert(whole.subrange(whole.len() - 1, whole.len() as int) =~= t.subrange(
        t.len() - 1,
        t.len() as int,
    ));
    assert(whole.take(whole.len() - 1) =~= x + t.take(t.len() - 1));
    assert(whole + sep =~= x + (t + sep));
}

/// What stands before the first text of a line, the marks at its start aside, comes out
/// before everything else.
proof fn lemma_restored_after(x: Seq<char>, list: Seq<Seq<char>>, marks: Seq<Run>)
    requires
        lined(list, marks),
        begun(marks),
        list[0].len() > 0,
    ensures
        ({
            let line = restored(list, marks, 0, seq![' ']);
            &&& line.len() == 1
            &&& restored(list.update(0, x + list[0]), marks, 0, seq![' ']) == seq![x + line[0]]
        }),
    decreases marks.len(),
{
    let sep = seq![' '];
    let more = list.update(0, x + list[0]);
    lemma_separator_after(x, list[0]);
    if marks.len() == 0 {
        assert(restored(list, marks, 0, sep) =~= seq![separated(list[0], sep)]);
        assert(restored(more, marks, 0, sep) =~= seq![x + separated(list[0], sep)]);
    } else {
        let rest = marks.drop_first();
        let mark = marks[0].mark;
        let head = unseparated(list[0], sep);
        lemma_with_spaces(mark);
        if marks[0].position == Position::Inner {
            let next = list.drop_first().update(0, head + mark + list[1]);
            lemma_lined_rest(list, marks, next);
            lemma_restored_after(x, next, rest);
            assert(restored(list, marks, 0, sep) == restored(next, rest, 0, sep));
            assert(x + head + mark + list[1] =~= x + (head + mark + list[1]));
            assert(more.drop_first().update(0, x + head + mark + list[1]) =~= next.update(
                0,
                x + next[0],
            ));
        } else {
            assert(marks[0].position == Position::End);
            assert(rest.len() == 0);
            assert(inner_runs(rest) == 0);
            assert(list.len() == 1);
            let end = separated(mark, sep);
            assert(restored(list.drop_first(), rest, 1, sep) =~= Seq::empty());
            assert(restored(more.drop_first(), rest, 1, sep) =~= Seq::empty());
            assert(restored(list, marks, 0, sep) =~= seq![head + end]);
            assert(x + head + end =~= x + (head + end));
            assert(restored(more, marks, 0, sep) =~= seq![x + (head + end)]);
        }
    }
}

/// The runs of two texts that a space parts: that at the end of the first stands between
/// them, with the space.
spec fn joined_runs(first: Seq<Run>, second: Seq<Run>) -> Seq<Run> {
    first.drop_last().push(
        Run { mark: first.last().mark.push(' '), position: Position::Inner, ..first.last() },
    ) + second
}

/// A line that ends with marks, and another after it.
proof fn lemma_restored_joined(
    list: Seq<Seq<char>>,
    marks: Seq<Run>,
    list_after: Seq<Seq<char>>,
    marks_after: Seq<Run>,
)
    requires
        lined(list, marks),
        marks.len() > 0,
        marks.last().position == Position::End,
        marks.last().mark.last() != ' ',
        lined(list_after, marks_after),
        begun(marks_after),
        list_after[0].len() > 0,
    ensures
        ({
            let x = restored(list, marks, 0, seq![' ']);
            let y = restored(list_after, marks_after, 0, seq![' ']);
            &&& x.len() == 1
            &&& y.len() == 1
            &&& restored(list + list_after, joined_runs(marks, marks_after), 0, seq![' ']) == seq![
                x[0] + y[0],
            ]
        }),
    decreases marks.len(),
{
    let sep = seq![' '];
    let both = list + list_after;
    let all = joined_runs(marks, marks_after);
    let rest = marks.drop_first();
    let mark = marks[0].mark;
    let head = unseparated(list[0], sep);
    lemma_with_spaces(mark);
    if marks.len() == 1 {
        assert(inner_runs(rest) == 0);
        assert(list.len() == 1);
        let run = mark.push(' ');
        let x = head + run;
        lemma_with_spaces(run);
        lemma_restored_after(x, list_after, marks_after);
        assert(all[0].position == Position::Inner);
        assert(all[0].mark == run);
        assert(all.drop_first() =~= marks_after);
        assert(both.drop_first().update(0, head + run + both[1]) =~= list_after.update(
            0,
            x + list_after[0],
        ));
        assert(restored(list.drop_first(), rest, 1, sep) =~= Seq::empty());
        if ends_with(mark, sep) {
            assert(mark.subrange(mark.len() - 1, mark.len() as int)[0] == mark.last());
        }
        assert(mark + sep =~= run);
        assert(restored(list, marks, 0, sep) =~= seq![x]);
    } else {
        assert(all[0] == marks[0]);
        assert(rest.last() == marks.last());
        assert(all.drop_first() =~= joined_runs(rest, marks_after));
        if marks[0].position == Position::Begin {
            let next = list.update(0, mark + head);
            lemma_lined_rest(list, marks, next);
            lemma_restored_joined(next, rest, list_after, marks_after);
            assert(both.update(0, mark + head) =~= next + list_after);
        } else {
            let next = list.drop_first().update(0, head + mark + list[1]);
            lemma_lined_rest(list, marks, next);
            lemma_restored_joined(next, rest, list_after, marks_after);
            assert(both.drop_first().update(0, head + mark + both[1]) =~= next + list_after);
        }
    }
}

/// The texts and the marks of a line.
proof fn lemma_line_lined(s: Seq<char>, k: int)
    requires
        s.len() > 0,
        !is_alone(s),
        first_kept(s) <= k < last_kept(s),
    ensures
        inner_runs(line_runs(s, 0).skip(k)) == last_kept(s) - 1 - k,
    decreases runs_from(s, 0).len() - k,
{
    let n = runs_from(s, 0).len() as int;
    let marks = line_runs(s, 0).skip(k);
    lemma_runs_from(s, 0);
    lemma_kept_texts(s);
    lemma_inner_pieces(s, 0);
    lemma_inner_pieces(s, n);
    if k < n {
        assert(marks[0] == line_runs(s, 0)[k]);
        assert(marks.drop_first() =~= line_runs(s, 0).skip(k + 1));
        if k + 1 < last_kept(s) {
            assert(marks[0].position == Position::Inner);
            lemma_line_lined(s, k + 1);
        } else {
            assert(marks[0].position == Position::End);
            assert(inner_runs(marks.drop_first()) == 0);
        }
    } else {
        assert(marks.len() == 0);
    }
}

/// A line that is not punctuation alone, with whatever its texts came to.
proof fn lemma_lined(s: Seq<char>, words: Seq<Seq<char>>)
    requires
        s.len() > 0,
        !is_alone(s),
        words.len() == kept_texts(seq![s]).len(),
    ensures
        lined(words, kept_runs(seq![s])),
        !is_filler(s[0]) ==> begun(kept_runs(seq![s])),
{
    let all = runs_from(s, 0);
    let n = all.len() as int;
    let marks = kept_runs(seq![s]);
    lemma_one_line(s);
    lemma_runs_from(s, 0);
    lemma_kept_texts(s);
    lemma_inner_pieces(s, 0);
    lemma_line_lined(s, first_kept(s));
    if first_kept(s) == 0 {
        assert(marks.skip(0) =~= marks);
    } else {
        assert(marks[0].position == Position::Begin);
        assert(marks.skip(1) =~= marks.drop_first());
    }
    if !is_filler(s[0]) {
        assert forall|k: int| 0 <= k < marks.len() implies (#[trigger] marks[k]).position
            != Position::Begin by {
            if k == 0 && all[0].0 == 0 {
                lemma_run_start(s, 0);
                assert(all[0].0 == run_start(s, 0));
            }
        }
    }
}

/// The runs `list`, `off` further on.
spec fn shifted(list: Seq<(int, int)>, off: int) -> Seq<(int, int)> {
    Seq::new(list.len(), |k: int| (list[k].0 + off, list[k].1 + off))
}

/// What is put before a text moves its runs.
proof fn lemma_runs_after_text(c: Seq<char>, b: Seq<char>, off: int, j: int)
    requires
        0 <= off,
        0 <= j <= b.len(),
        c.len() == off + b.len(),
        c.skip(off) == b,
    ensures
        runs_from(c, off + j) == shifted(runs_from(b, j), off),
    decreases b.len() - j,
{
    let start = run_start(b, j);
    lemma_run_start(b, j);
    lemma_run_start_after(c, b, off, j);
    if start < b.len() {
        let end = filler_end(b, start);
        lemma_filler_end(b, start);
        lemma_run_start_after(c, b, off, start);
        lemma_runs_after_text(c, b, off, end);
        assert(runs_from(c, off + j) =~= shifted(runs_from(b, j), off));
    } else {
        assert(runs_from(c, off + j) =~= shifted(runs_from(b, j), off));
    }
}

/// A text that ends with a mark, a space, and a text that does not start with either.
spec fn parted(a: Seq<char>, b: Seq<char>) -> bool {
    &&& a.len() > 0
    &&& is_mark(a.last())
    &&& b.len() > 0
    &&& !is_filler(b[0])
}

/// The runs of a text that a mark parts.
proof fn lemma_runs_parted(a: Seq<char>, b: Seq<char>, i: int)
    requires
        0 <= i < a.len(),
        parted(a, b),
    ensures
        ({
            let mine = runs_from(a, i);
            &&& mine.len() > 0
            &&& mine.last().1 == a.len()
            &&& runs_from(a.push(' ') + b, i) == mine.drop_last().push(
                (mine.last().0, a.len() as int + 1),
            ) + shifted(runs_from(b, 0), a.len() as int + 1)
        }),
    decreases a.len() - i,
{
    let c = a.push(' ') + b;
    let n = a.len() as int;
    let off = n + 1;
    let mine = runs_from(a, i);
    assert(c.take(n) =~= a);
    assert(c.skip(off) =~= b);
    lemma_runs_before(a, c, i);
    lemma_run_start(a, i);
    let start = run_start(a, i);
    let end = filler_end(a, start);
    lemma_filler_end(a, start);
    lemma_runs_before(a, c, start);
    let tail = shifted(runs_from(b, 0), off);
    if end < n {
        lemma_runs_parted(a, b, end);
        let rest = runs_from(a, end);
        assert(mine == seq![(start, end)] + rest);
        assert(mine.last() == rest.last());
        assert(mine.drop_last() =~= seq![(start, end)] + rest.drop_last());
        assert(runs_from(c, i) =~= mine.drop_last().push((mine.last().0, off)) + tail);
    } else {
        assert(run_start(a, end) == end);
        assert(runs_from(a, end) =~= Seq::empty());
        assert(mine =~= seq![(start, end)]);
        assert(c[n] == ' ');
        assert(c[off] == b[0]);
        assert(filler_end(c, n) == off) by {
            reveal_with_fuel(filler_end, 3);
        }
        lemma_runs_after_text(c, b, off, 0);
        assert(runs_from(c, i) =~= mine.drop_last().push((mine.last().0, off)) + tail);
    }
}

/// Where the runs of a text that a mark parts are.
proof fn lemma_parted_runs(a: Seq<char>, b: Seq<char>)
    requires
        parted(a, b),
        !is_alone(a),
    ensures
        ({
            let c = a.push(' ') + b;
            let off = a.len() as int + 1;
            let of_a = runs_from(a, 0);
            let of_b = runs_from(b, 0);
            let of_c = runs_from(c, 0);
            let m = of_a.len() as int;
            &&& m > 0
            &&& of_a[m - 1].1 == a.len()
            &&& m == 1 ==> of_a[0].0 > 0
            &&& of_c.len() == m + of_b.len()
            &&& of_c[m - 1] == (of_a[m - 1].0, off)
            &&& forall|k: int| 0 <= k < m - 1 ==> #[trigger] of_c[k] == of_a[k]
            &&& forall|k: int|
                0 <= k < of_b.len() ==> of_c[m + k] == (
                    (#[trigger] of_b[k]).0 + off,
                    of_b[k].1 + off,
                )
            &&& of_b.len() > 0 ==> of_b[0].0 > 0
            &&& !is_alone(b)
            &&& !is_alone(c)
        }),
{
    let c = a.push(' ') + b;
    let of_a = runs_from(a, 0);
    let of_b = runs_from(b, 0);
    let of_c = runs_from(c, 0);
    let m = of_a.len() as int;
    lemma_runs_parted(a, b, 0);
    lemma_runs_from(a, 0);
    lemma_runs_from(b, 0);
    lemma_run_start(b, 0);
    if of_b.len() > 0 {
        assert(of_b[0].0 == run_start(b, 0));
    }
    if m == 1 && of_a[0].0 == 0 {
        assert(of_a =~= seq![(0int, a.len() as int)]);
    }
    if is_alone(b) {
        assert(of_b[0] == (0int, b.len() as int));
    }
    if is_alone(c) {
        assert(of_c[0] == (0int, c.len() as int));
        assert(of_c.len() == 1);
    }
}

/// The texts of a text that a mark parts are those of its two halves.
proof fn lemma_parted_texts(a: Seq<char>, b: Seq<char>)
    requires
        parted(a, b),
        !is_alone(a),
    ensures
        kept_texts(seq![a.push(' ') + b]) == kept_texts(seq![a]) + kept_texts(seq![b]),
{
    let c = a.push(' ') + b;
    let off = a.len() as int + 1;
    let of_a = runs_from(a, 0);
    let of_b = runs_from(b, 0);
    let of_c = runs_from(c, 0);
    let m = of_a.len() as int;
    let n = of_b.len() as int;
    lemma_parted_runs(a, b);
    lemma_runs_from(a, 0);
    lemma_runs_from(b, 0);
    let in_a = pieces(a, of_a);
    let in_b = pieces(b, of_b);
    let in_c = pieces(c, of_c);
    assert forall|k: int| 0 <= k < m implies #[trigger] in_c[k] == in_a[k] by {
        if k > 0 {
            assert(of_c[k - 1] == of_a[k - 1]);
        }
        assert(of_c[k].0 == of_a[k].0);
        assert(in_c[k] =~= in_a[k]);
    }
    assert forall|k: int| 0 <= k <= n implies in_c[m + k] == #[trigger] in_b[k] by {
        if k > 0 {
            assert(of_c[m + k - 1].1 == of_b[k - 1].1 + off);
        }
        if k < n {
            assert(of_c[m + k].0 == of_b[k].0 + off);
        }
        assert(in_c[m + k] =~= in_b[k]);
    }
    lemma_kept_texts(a);
    lemma_kept_texts(b);
    lemma_kept_texts(c);
    assert(in_b[0].len() > 0);
    assert(in_a[m].len() == 0);
    assert(in_c[0] == in_a[0]);
    assert(in_c[m + n] == in_b[n]);
    assert(first_kept(c) == first_kept(a));
    assert(last_kept(a) == m);
    assert(last_kept(c) == m + last_kept(b));
    let x = in_a.subrange(first_kept(a), m);
    let y = in_b.subrange(0, last_kept(b));
    let z = in_c.subrange(first_kept(c), last_kept(c));
    assert forall|k: int| 0 <= k < z.len() implies #[trigger] z[k] == (x + y)[k] by {
        if k < x.len() {
            assert(in_c[first_kept(c) + k] == in_a[first_kept(c) + k]);
        } else {
            let j = k - x.len();
            assert(in_c[m + j] == in_b[j]);
        }
    }
    assert(z =~= x + y);
}

/// The marks of a text that a mark parts are those of its two halves.
proof fn lemma_parted_marks(a: Seq<char>, b: Seq<char>)
    requires
        parted(a, b),
        !is_alone(a),
    ensures
        ({
            let c = a.push(' ') + b;
            &&& kept_runs(seq![c]) == joined_runs(kept_runs(seq![a]), kept_runs(seq![b]))
            &&& kept_runs(seq![a]).len() > 0
            &&& kept_runs(seq![a]).last().position == Position::End
            &&& kept_runs(seq![a]).last().mark.last() == a.last()
        }),
{
    let c = a.push(' ') + b;
    let off = a.len() as int + 1;
    let of_a = runs_from(a, 0);
    let of_b = runs_from(b, 0);
    let of_c = runs_from(c, 0);
    let m = of_a.len() as int;
    lemma_parted_runs(a, b);
    lemma_runs_from(a, 0);
    lemma_runs_from(b, 0);
    lemma_one_line(a);
    lemma_one_line(b);
    lemma_one_line(c);
    let runs_a = line_runs(a, 0);
    let runs_b = line_runs(b, 0);
    let runs_c = line_runs(c, 0);
    let both = joined_runs(runs_a, runs_b);
    assert(of_a[m - 1].0 < a.len());
    assert forall|k: int| 0 <= k < runs_c.len() implies #[trigger] runs_c[k] == both[k] by {
        if k < m - 1 {
            assert(of_c[k] == of_a[k]);
            assert(of_a[k].1 < of_a[m - 1].0);
            assert(runs_c[k].mark =~= runs_a[k].mark);
            assert(place(c, of_c, k) == place(a, of_a, k));
        } else if k == m - 1 {
            assert(runs_c[k].mark =~= runs_a[k].mark.push(' '));
            assert(place(c, of_c, k) == Position::Inner);
        } else {
            let j = k - m;
            assert(of_c[m + j] == (of_b[j].0 + off, of_b[j].1 + off));
            assert(runs_c[k].mark =~= runs_b[j].mark);
            assert(place(c, of_c, k) == place(b, of_b, j));
        }
    }
    assert(runs_c =~= both);
}

/// Splicing the marks back into a text that a mark parts gives what it gives of the two
/// halves, one after the other. The first half ends with a mark and is more than marks
/// and white space; the second starts with neither; and `voice` is not silent.
pub proof fn halves_are_spliced_apart(
    a: Seq<char>,
    b: Seq<char>,
    voice: spec_fn(Seq<char>) -> Seq<char>,
)
    requires
        a.len() > 0,
        is_mark(a.last()),
        exists|k: int| 0 <= k < a.len() && !is_filler(#[trigger] a[k]),
        b.len() > 0,
        !is_filler(b[0]),
        forall|k: int|
            0 <= k < kept_texts(seq![a]).len() ==> voice(#[trigger] kept_texts(seq![a])[k]).len()
                > 0,
        forall|k: int|
            0 <= k < kept_texts(seq![b]).len() ==> voice(#[trigger] kept_texts(seq![b])[k]).len()
                > 0,
    ensures
        ({
            let c = a.push(' ') + b;
            spliced(c, kept_texts(seq![c]).map_values(voice)) == spliced(
                a,
                kept_texts(seq![a]).map_values(voice),
            ) + spliced(b, kept_texts(seq![b]).map_values(voice))
        }),
{
    reveal_strlit(" ");
    assert(WORD_SEP@ =~= seq![' ']);
    let c = a.push(' ') + b;
    let word = |w: Seq<char>| worded(w);
    assert(!is_alone(a)) by {
        if is_alone(a) {
            lemma_runs_from(a, 0);
            assert(runs_from(a, 0)[0] == (0int, a.len() as int));
            lemma_filler_end(a, 0);
        }
    }
    lemma_parted_runs(a, b);
    lemma_parted_texts(a, b);
    lemma_parted_marks(a, b);
    let of_a = kept_texts(seq![a]).map_values(voice).map_values(word);
    let of_b = kept_texts(seq![b]).map_values(voice).map_values(word);
    let of_c = kept_texts(seq![c]).map_values(voice).map_values(word);
    assert(of_c =~= of_a + of_b);
    lemma_lined(a, of_a);
    lemma_lined(b, of_b);
    assert(of_b.len() > 0);
    assert(voice(kept_texts(seq![b])[0]).len() > 0);
    assert(of_b[0].len() > 0);
    lemma_restored_joined(of_a, kept_runs(seq![a]), of_b, kept_runs(seq![b]));
}

/// A text that a mark parts is phonemised to what its two halves are, one after the
/// other, by a phonemiser that has one answer for every text, and never an empty one:
/// `x`, `y` and `whole` are what the halves and the text are phonemised to.
pub proof fn halves_are_phonemised_apart<F, E>(
    backend: F,
    a: Seq<char>,
    b: Seq<char>,
    x: Seq<char>,
    y: Seq<char>,
    whole: Seq<char>,
)
    where F: FnMut(&str) -> Result<String, E>
    requires
        is_pure(backend),
        forall|part: Seq<char>, words: Seq<char>| #[trigger]
            may_answer(backend, part, Ok::<Seq<char>, E>(words)) ==> words.len() > 0,
        a.len() > 0,
        is_mark(a.last()),
        exists|k: int| 0 <= k < a.len() && !is_filler(#[trigger] a[k]),
        b.len() > 0,
        !is_filler(b[0]),
        ({
            let answers = |part: Seq<char>, reply: Result<Seq<char>, E>|
                may_answer(backend, part, reply);
            &&& is_preserving(answers, a, Ok(x))
            &&& is_preserving(answers, b, Ok(y))
            &&& is_preserving(answers, a.push(' ') + b, Ok(whole))
        }),
    ensures
        whole == x + y,
{
    let c = a.push(' ') + b;
    let voice = |t: Seq<char>| answer_of::<F, E>(backend, t);
    assert(c[0] == a[0]);
    assert(c.last() == b.last());
    assert(!is_blank(b)) by {
        assert(!is_space(b[0]));
    }
    assert(!is_blank(a)) by {
        let k = choose|k: int| 0 <= k < a.len() && !is_filler(#[trigger] a[k]);
        assert(!is_space(a[k]));
    }
    assert(!is_blank(c)) by {
        assert(c[a.len() as int + 1] == b[0]);
    }
    lemma_answers::<F, E>(backend, a, x);
    lemma_answers::<F, E>(backend, b, y);
    lemma_answers::<F, E>(backend, c, whole);
    halves_are_spliced_apart(a, b, voice);
}

/// What `backend` answers for `text`.
spec fn answer_of<F, E>(backend: F, text: Seq<char>) -> Seq<char>
    where F: FnMut(&str) -> Result<String, E>
{
    choose|words: Seq<char>| #[trigger] may_answer(backend, text, Ok::<Seq<char>, E>(words))
}

/// A pure backend speaks every text with the answer it has for it.
proof fn lemma_answers<F, E>(backend: F, text: Seq<char>, whole: Seq<char>)
    where F: FnMut(&str) -> Result<String, E>
    requires
        is_pure(backend),
        forall|part: Seq<char>, words: Seq<char>| #[trigger]
            may_answer(backend, part, Ok::<Seq<char>, E>(words)) ==> words.len() > 0,
        !is_blank(text),
        is_preserving(
            |part: Seq<char>, reply: Result<Seq<char>, E>| may_answer(backend, part, reply),
            text,
            Ok(whole),
        ),
    ensures
        ({
            let kept = kept_texts(seq![text]);
            &&& whole == spliced(
                text,
                kept.map_values(|t: Seq<char>| answer_of::<F, E>(backend, t)),
            )
            &&& forall|k: int|
                0 <= k < kept.len() ==> answer_of::<F, E>(backend, #[trigger] kept[k]).len() > 0
        }),
{
    let answers = |part: Seq<char>, reply: Result<Seq<char>, E>| may_answer(backend, part, reply);
    let texts = kept_texts(seq![text]);
    let words = choose|words: Seq<Seq<char>>|
        {
            &&& words.len() == texts.len()
            &&& forall|i: int| 0 <= i < words.len() ==> #[trigger] answers(texts[i], Ok(words[i]))
            &&& whole == #[trigger] spliced(text, words)
        };
    assert forall|i: int| 0 <= i < words.len() implies #[trigger] words[i] == answer_of::<F, E>(
        backend,
        texts[i],
    ) && words[i].len() > 0 by {
        assert(answers(texts[i], Ok(words[i])));
        assert(may_answer(backend, texts[i], Ok::<Seq<char>, E>(words[i])));
        let other = answer_of::<F, E>(backend, texts[i]);
        assert(may_answer(backend, texts[i], Ok::<Seq<char>, E>(other)));
        assert(Ok::<Seq<char>, E>(other) == Ok::<Seq<char>, E>(words[i]));
    }
    assert(words =~= texts.map_values(|t: Seq<char>| answer_of::<F, E>(backend, t)));
    assert forall|k: int| 0 <= k < texts.len() implies answer_of::<F, E>(
        backend,
        #[trigger] texts[k],
    ).len() > 0 by {
        assert(words[k].len() > 0);
    }
}

} // verus!
