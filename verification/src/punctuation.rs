//! Preserving punctuation across phonemisation.
//!
//! A phonemiser drops punctuation silently, but the model was trained on phoneme
//! strings that contain it: commas and full stops are what give it its pauses and
//! final-syllable intonation. So the marks are hidden from the phonemiser and
//! spliced into the phonemes afterwards.

use vstd::prelude::*;

use crate::chars::{
    contents, ends_with, has_suffix, is_blank, is_space, is_whitespace, join, joined,
    lemma_space_end, lemma_trim, replace_spaces, skip_spaces, space_end, substring, to_chars,
    trim_bounds, with_spaces,
};
use crate::text::chunk::{answers_any, heard, may_answer};
use crate::text::sentences::{pieces, spans};

verus! {

/// Whether `c` is one of the punctuation marks that are hidden from the
/// phonemiser.
pub open spec fn is_mark(c: char) -> bool {
    ||| c == ';' || c == ':' || c == ',' || c == '.' || c == '!' || c == '?'
    ||| c == '\u{a1}' || c == '\u{bf}' || c == '\u{2014}' || c == '\u{2026}'
    ||| c == '"' || c == '\u{ab}' || c == '\u{bb}' || c == '\u{201c}' || c == '\u{201d}'
    ||| c == '(' || c == ')' || c == '{' || c == '}' || c == '[' || c == ']'
}

/// Whether `c` is one of the punctuation marks.
pub fn mark(c: char) -> (r: bool)
    ensures
        r == is_mark(c),
{
    c == ';' || c == ':' || c == ',' || c == '.' || c == '!' || c == '?' || c == '\u{a1}' || c
        == '\u{bf}' || c == '\u{2014}' || c == '\u{2026}' || c == '"' || c == '\u{ab}' || c
        == '\u{bb}' || c == '\u{201c}' || c == '\u{201d}' || c == '(' || c == ')' || c == '{' || c
        == '}' || c == '[' || c == ']'
}

/// Where a mark sat relative to the text around it.
#[derive(Debug, Clone, Copy, PartialEq, Eq, Structural)]
pub enum Position {
    /// At the start of the utterance.
    Begin,
    /// At the end of the utterance.
    End,
    /// Between two pieces of text.
    Inner,
    /// The utterance was nothing but punctuation.
    Alone,
}

/// One run of punctuation, with the white space around it.
#[derive(Debug, Clone)]
pub struct Mark {
    /// Index of the input line this mark came from.
    pub index: usize,
    pub mark: String,
    pub position: Position,
}

/// The contents of a [`Mark`].
#[verifier::ext_equal]
pub struct Run {
    pub index: int,
    pub mark: Seq<char>,
    pub position: Position,
}

impl View for Mark {
    type V = Run;

    open spec fn view(&self) -> Run {
        Run { index: self.index as int, mark: self.mark@, position: self.position }
    }
}

/// The contents of a list of marks.
pub open spec fn runs(list: Seq<Mark>) -> Seq<Run> {
    Seq::new(list.len(), |i: int| list[i]@)
}

/// Whether `c` can stand in a run of punctuation.
pub open spec fn is_filler(c: char) -> bool {
    is_space(c) || is_mark(c)
}

/// The end of the run of marks and white space that starts at `i`.
pub open spec fn filler_end(s: Seq<char>, i: int) -> int
    decreases s.len() - i,
{
    if 0 <= i < s.len() && is_filler(s[i]) {
        filler_end(s, i + 1)
    } else {
        i
    }
}

/// Whether a run of punctuation starts at `i`: there is a mark there, or white
/// space and then a mark.
pub open spec fn starts_run(s: Seq<char>, i: int) -> bool {
    space_end(s, i) < s.len() && is_mark(s[space_end(s, i)])
}

/// Where the first run of punctuation from `i` on starts, which is the end of the
/// text where there is none.
pub open spec fn run_start(s: Seq<char>, i: int) -> int
    decreases s.len() - i,
{
    if 0 <= i < s.len() && !starts_run(s, i) {
        run_start(s, i + 1)
    } else {
        i
    }
}

/// The runs of punctuation from `i` on, each with the white space on either side
/// of it.
pub open spec fn runs_from(s: Seq<char>, i: int) -> Seq<(int, int)>
    decreases s.len() - i,
    via runs_decrease
{
    let start = run_start(s, i);
    if 0 <= i && start < s.len() {
        let end = filler_end(s, start);
        seq![(start, end)] + runs_from(s, end)
    } else {
        Seq::empty()
    }
}

#[via_fn]
proof fn runs_decrease(s: Seq<char>, i: int) {
    if 0 <= i && run_start(s, i) < s.len() {
        lemma_run_start(s, i);
        lemma_filler_end(s, run_start(s, i));
    }
}

/// Where a run of marks and white space ends, and what is known of its inside.
pub proof fn lemma_filler_end(s: Seq<char>, i: int)
    requires
        0 <= i <= s.len(),
    ensures
        i <= filler_end(s, i) <= s.len(),
        i < s.len() && is_filler(s[i]) ==> i < filler_end(s, i),
        forall|k: int| i <= k < filler_end(s, i) ==> is_filler(#[trigger] s[k]),
        filler_end(s, i) < s.len() ==> !is_filler(s[filler_end(s, i)]),
    decreases s.len() - i,
{
    if i < s.len() && is_filler(s[i]) {
        lemma_filler_end(s, i + 1);
    }
}

/// Where the first run of punctuation starts.
pub proof fn lemma_run_start(s: Seq<char>, i: int)
    requires
        0 <= i,
    ensures
        i <= run_start(s, i),
        i <= s.len() ==> run_start(s, i) <= s.len(),
        forall|k: int| i <= k < run_start(s, i) ==> !is_mark(#[trigger] s[k]),
        forall|k: int| i <= k < run_start(s, i) ==> !#[trigger] starts_run(s, k),
        run_start(s, i) < s.len() ==> starts_run(s, run_start(s, i)) && is_filler(
            s[run_start(s, i)],
        ),
    decreases s.len() - i,
{
    if i < s.len() {
        lemma_space_end(s, i);
        if !starts_run(s, i) {
            lemma_run_start(s, i + 1);
            if is_mark(s[i]) {
                assert(space_end(s, i) == i);
            }
        }
    }
}

/// The runs of punctuation of `line`, each with the white space on either side of
/// it, which is swallowed into the run so that it can be replayed verbatim.
pub fn find_marks(line: &[char]) -> (r: Vec<(usize, usize)>)
    ensures
        spans(r@) == runs_from(line@, 0),
{
    let mut found: Vec<(usize, usize)> = Vec::new();
    let len = line.len();
    let mut i: usize = 0;
    assert(spans(found@) + runs_from(line@, 0) =~= runs_from(line@, 0));
    while i < len
        invariant
            i <= len == line@.len(),
            spans(found@) + runs_from(line@, i as int) == runs_from(line@, 0),
        decreases len - i,
    {
        // A run must contain at least one mark, so leading white space is only a
        // candidate prefix.
        let j = skip_spaces(line, i);
        if j >= len || !mark(line[j]) {
            assert(runs_from(line@, i as int) == runs_from(line@, i + 1));
            i += 1;
        } else {
            let mut end = i;
            proof {
                lemma_run_start(line@, i as int);
                lemma_filler_end(line@, i as int);
            }
            while end < len && (is_whitespace(line[end]) || mark(line[end]))
                invariant
                    i <= end <= len == line@.len(),
                    filler_end(line@, end as int) == filler_end(line@, i as int),
                decreases len - end,
            {
                end += 1;
            }
            let ghost before = spans(found@);
            found.push((i, end));
            assert(spans(found@) =~= before.push((i as int, end as int)));
            assert(spans(found@) + runs_from(line@, end as int) =~= before + runs_from(
                line@,
                i as int,
            ));
            i = end;
        }
    }
    assert(runs_from(line@, len as int) =~= Seq::empty());
    assert(spans(found@) + runs_from(line@, len as int) =~= spans(found@));
    found
}

/// Whether `line` is made only of punctuation.
pub open spec fn is_alone(line: Seq<char>) -> bool {
    runs_from(line, 0) == seq![(0int, line.len() as int)]
}

/// Where the `k`th of the runs `all` sits in `line`.
pub open spec fn place(line: Seq<char>, all: Seq<(int, int)>, k: int) -> Position {
    if k == 0 && all[k].0 == 0 {
        Position::Begin
    } else if k == all.len() - 1 && all[k].1 == line.len() {
        Position::End
    } else {
        Position::Inner
    }
}

/// The text of `line` between its runs of punctuation: nothing of a line made
/// only of punctuation.
pub open spec fn line_texts(line: Seq<char>) -> Seq<Seq<char>> {
    if is_alone(line) {
        Seq::empty()
    } else {
        pieces(line, runs_from(line, 0))
    }
}

/// The runs of punctuation of `line`, which is the input line `num`.
pub open spec fn line_runs(line: Seq<char>, num: int) -> Seq<Run> {
    let all = runs_from(line, 0);
    if is_alone(line) {
        seq![Run { index: num, mark: line, position: Position::Alone }]
    } else {
        Seq::new(
            all.len(),
            |k: int|
                Run {
                    index: num,
                    mark: line.subrange(all[k].0, all[k].1),
                    position: place(line, all, k),
                },
        )
    }
}

/// The texts of `lines` between their runs of punctuation, empty ones left out.
pub open spec fn kept_texts(lines: Seq<Seq<char>>) -> Seq<Seq<char>>
    decreases lines.len(),
{
    if lines.len() == 0 {
        Seq::empty()
    } else {
        kept_texts(lines.drop_last()) + line_texts(lines.last()).filter(|t: Seq<char>| t.len() > 0)
    }
}

/// The runs of punctuation of `lines`.
pub open spec fn kept_runs(lines: Seq<Seq<char>>) -> Seq<Run>
    decreases lines.len(),
{
    if lines.len() == 0 {
        Seq::empty()
    } else {
        kept_runs(lines.drop_last()) + line_runs(lines.last(), lines.len() - 1)
    }
}

/// The runs of punctuation lie inside the text, in order and apart.
pub proof fn lemma_runs_from(s: Seq<char>, i: int)
    requires
        0 <= i,
    ensures
        forall|k: int| #![trigger runs_from(s, i)[k]]
            0 <= k < runs_from(s, i).len() ==> {
                let r = runs_from(s, i)[k];
                &&& i <= r.0 < r.1 <= s.len()
                &&& r.1 == filler_end(s, r.0)
            },
        forall|k: int, l: int|
            0 <= k < l < runs_from(s, i).len() ==> (#[trigger] runs_from(s, i)[k]).1 < (
            #[trigger] runs_from(s, i)[l]).0,
    decreases s.len() - i,
{
    let start = run_start(s, i);
    let all = runs_from(s, i);
    lemma_run_start(s, i);
    if start < s.len() {
        let end = filler_end(s, start);
        lemma_filler_end(s, start);
        lemma_runs_from(s, end);
        let rest = runs_from(s, end);
        assert forall|k: int| 0 <= k < all.len() implies {
            let r = #[trigger] all[k];
            &&& i <= r.0 < r.1 <= s.len()
            &&& r.1 == filler_end(s, r.0)
        } by {
            if k > 0 {
                assert(all[k] == rest[k - 1]);
            }
        }
        assert forall|k: int, l: int| 0 <= k < l < all.len() implies (#[trigger] all[k]).1 < (
        #[trigger] all[l]).0 by {
            assert(all[l] == rest[l - 1]);
            if k > 0 {
                assert(all[k] == rest[k - 1]);
            } else {
                lemma_run_start(s, end);
                assert(rest[0].0 == run_start(s, end));
                if rest[0].0 == end {
                    assert(is_filler(s[end]));
                }
                if l > 1 {
                    assert(rest[0].1 < rest[l - 1].0);
                }
            }
        }
    } else {
        assert(all.len() == 0);
    }
}

/// Takes the punctuation out of one line, which is the input line `num`: the
/// text between the runs of punctuation, and the runs.
pub fn preserve_line(line: &str, num: usize) -> (r: (Vec<String>, Vec<Mark>))
    ensures
        contents(r.0@) == line_texts(line@),
        runs(r.1@) == line_runs(line@, num as int),
{
    let chars = to_chars(line);
    let len = chars.len();
    let found = find_marks(&chars);
    let ghost all = runs_from(line@, 0);
    let mut texts: Vec<String> = Vec::new();
    let mut marks: Vec<Mark> = Vec::new();
    assert(spans(found@).len() == found@.len());
    // The line is made only of punctuation marks.
    if found.len() == 1 && found[0].0 == 0 && found[0].1 == len {
        proof {
            assert(spans(found@)[0] == (0int, len as int));
            assert(all =~= seq![(0int, len as int)]);
        }
        marks.push(Mark { index: num, mark: line.to_owned(), position: Position::Alone });
        assert(contents(texts@) =~= Seq::empty());
        assert(runs(marks@) =~= line_runs(line@, num as int));
        return (texts, marks);
    }
    proof {
        if is_alone(line@) {
            assert(spans(found@)[0] == (0int, len as int));
        }
        lemma_runs_from(line@, 0);
    }
    let mut prev: usize = 0;
    let mut k: usize = 0;
    assert(contents(texts@) =~= pieces(line@, all).take(0));
    assert(runs(marks@) =~= line_runs(line@, num as int).take(0));
    while k < found.len()
        invariant
            k <= found@.len() == all.len(),
            len == chars@.len(),
            chars@ == line@,
            all == runs_from(line@, 0),
            spans(found@) == all,
            !is_alone(line@),
            prev == if k == 0 {
                0
            } else {
                all[k - 1].1
            },
            prev <= len,
            contents(texts@) == pieces(line@, all).take(k as int),
            runs(marks@) == line_runs(line@, num as int).take(k as int),
        decreases found@.len() - k,
    {
        let (start, end) = found[k];
        proof {
            lemma_runs_from(line@, 0);
            assert(spans(found@)[k as int] == all[k as int]);
            if k > 0 {
                assert(all[k - 1].1 < all[k as int].0);
            }
        }
        let position = if k == 0 && start == 0 {
            Position::Begin
        } else if k == found.len() - 1 && end == len {
            Position::End
        } else {
            Position::Inner
        };
        let ghost texts_before = contents(texts@);
        let ghost marks_before = runs(marks@);
        texts.push(substring(&chars, prev, start));
        marks.push(Mark { index: num, mark: substring(&chars, start, end), position });
        proof {
            assert(contents(texts@) =~= texts_before.push(pieces(line@, all)[k as int]));
            assert(runs(marks@) =~= marks_before.push(line_runs(line@, num as int)[k as int]));
            assert(pieces(line@, all).take(k + 1) =~= pieces(line@, all).take(k as int).push(
                pieces(line@, all)[k as int],
            ));
            assert(line_runs(line@, num as int).take(k + 1) =~= line_runs(line@, num as int).take(
                k as int,
            ).push(line_runs(line@, num as int)[k as int]));
        }
        prev = end;
        k += 1;
    }
    let ghost texts_before = contents(texts@);
    texts.push(substring(&chars, prev, len));
    proof {
        assert(contents(texts@) =~= texts_before.push(pieces(line@, all)[k as int]));
        assert(pieces(line@, all) =~= pieces(line@, all).take(k as int).push(
            pieces(line@, all)[k as int],
        ));
        assert(line_runs(line@, num as int).take(k as int) =~= line_runs(line@, num as int));
    }
    (texts, marks)
}

/// The text with punctuation removed, plus what is needed to restore it.
pub struct Preserved {
    pub chunks: Vec<String>,
    pub marks: Vec<Mark>,
}

/// Removes punctuation from `lines`, allowing for later restoration.
///
/// `"hello, my world!"` becomes `["hello", "my world"]` with marks `[", ", "!"]`.
pub fn preserve(lines: &Vec<String>) -> (r: Preserved)
    ensures
        contents(r.chunks@) == kept_texts(contents(lines@)),
        runs(r.marks@) == kept_runs(contents(lines@)),
{
    let mut chunks: Vec<String> = Vec::new();
    let mut marks: Vec<Mark> = Vec::new();
    let ghost all = contents(lines@);
    let mut num: usize = 0;
    assert(contents(chunks@) =~= kept_texts(all.take(0)));
    assert(runs(marks@) =~= kept_runs(all.take(0)));
    while num < lines.len()
        invariant
            num <= lines@.len(),
            all == contents(lines@),
            contents(chunks@) == kept_texts(all.take(num as int)),
            runs(marks@) == kept_runs(all.take(num as int)),
        decreases lines@.len() - num,
    {
        let (line_chunks, mut line_marks) = preserve_line(&lines[num], num);
        let ghost solid = |t: Seq<char>| t.len() > 0;
        let ghost texts = contents(line_chunks@);
        let ghost before = contents(chunks@);
        let ghost marks_before = runs(marks@);
        let ghost added = runs(line_marks@);
        let mut k: usize = 0;
        assert(texts.take(0).filter(solid) =~= Seq::empty());
        assert(contents(chunks@) =~= before + texts.take(0).filter(solid));
        while k < line_chunks.len()
            invariant
                k <= line_chunks@.len(),
                texts == contents(line_chunks@),
                solid == (|t: Seq<char>| t.len() > 0),
                contents(chunks@) == before + texts.take(k as int).filter(solid),
            decreases line_chunks@.len() - k,
        {
            let ghost was = contents(chunks@);
            proof {
                assert(texts.take(k + 1).drop_last() =~= texts.take(k as int));
                reveal(Seq::filter);
            }
            if !line_chunks[k].as_str().is_empty() {
                chunks.push(line_chunks[k].clone());
                assert(contents(chunks@) =~= was.push(texts[k as int]));
                assert(before + texts.take(k as int).filter(solid).push(texts[k as int]) =~= was.push(
                    texts[k as int],
                ));
            }
            k += 1;
        }
        marks.append(&mut line_marks);
        proof {
            assert(texts.take(k as int) =~= texts);
            assert(runs(marks@) =~= marks_before + added);
            assert(all.take(num + 1).drop_last() =~= all.take(num as int));
            assert(all.take(num + 1).last() == lines@[num as int]@);
        }
        num += 1;
    }
    assert(all.take(num as int) =~= all);
    Preserved { chunks, marks }
}

/// `text` with the word separator at its end: added, unless it is there already.
pub open spec fn separated(text: Seq<char>, sep: Seq<char>) -> Seq<char> {
    if sep.len() > 0 && !ends_with(text, sep) {
        text + sep
    } else {
        text
    }
}

/// `text` without the word separator at its end.
pub open spec fn unseparated(text: Seq<char>, sep: Seq<char>) -> Seq<char> {
    if sep.len() > 0 && ends_with(text, sep) {
        text.take(text.len() - sep.len())
    } else {
        text
    }
}

/// All the runs, one after the other.
pub open spec fn run_texts(marks: Seq<Run>) -> Seq<char>
    decreases marks.len(),
{
    if marks.len() == 0 {
        Seq::empty()
    } else {
        run_texts(marks.drop_last()) + marks.last().mark
    }
}

/// The lines that come of splicing the runs back into the phonemised texts, `pos`
/// being the number of the line that is put together next.
pub open spec fn restored(
    text: Seq<Seq<char>>,
    marks: Seq<Run>,
    pos: int,
    sep: Seq<char>,
) -> Seq<Seq<char>>
    decreases text.len() + marks.len(),
{
    if marks.len() == 0 {
        // The last word of each line still ends with a separator.
        text.map_values(|t: Seq<char>| separated(t, sep))
    } else if text.len() == 0 {
        // Nothing was phonemised: the marks alone.
        seq![with_spaces(run_texts(marks), sep)]
    } else if marks[0].index != pos {
        seq![text[0]] + restored(text.drop_first(), marks, pos + 1, sep)
    } else {
        let rest = marks.drop_first();
        let mark = with_spaces(marks[0].mark, sep);
        let head = unseparated(text[0], sep);
        match marks[0].position {
            Position::Begin => restored(text.update(0, mark + head), rest, pos, sep),
            Position::End => seq![head + separated(mark, sep)] + restored(
                text.drop_first(),
                rest,
                pos + 1,
                sep,
            ),
            Position::Alone => seq![separated(mark, sep)] + restored(
                text.update(0, head),
                rest,
                pos + 1,
                sep,
            ),
            Position::Inner => if text.len() == 1 {
                // The final part of an inner mark was never phonemised.
                restored(text.update(0, head + mark), rest, pos, sep)
            } else {
                restored(
                    text.drop_first().update(0, head + mark + text[1]),
                    rest,
                    pos,
                    sep,
                )
            },
        }
    }
}

/// `text` with the word separator at its end.
fn separate(text: String, sep: &str) -> (r: String)
    ensures
        r@ == separated(text@, sep@),
{
    let mut text = text;
    if !sep.is_empty() && !has_suffix(&to_chars(&text), &to_chars(sep)) {
        text.append(sep);
    }
    text
}

/// `text` without the word separator at its end.
fn unseparate(text: &str, sep: &str) -> (r: String)
    ensures
        r@ == unseparated(text@, sep@),
{
    let chars = to_chars(text);
    let tail = to_chars(sep);
    if tail.len() > 0 && has_suffix(&chars, &tail) {
        substring(&chars, 0, chars.len() - tail.len())
    } else {
        text.to_owned()
    }
}

/// Splices the marks back into the phonemised texts.
///
/// The reverse of [`preserve`]: `["hello", "my world"]` with `[", ", "!"]`
/// becomes `["hello, my world!"]`.
pub fn restore(text: Vec<String>, marks: Vec<Mark>, word_sep: &str) -> (r: Vec<String>)
    ensures
        contents(r@) == restored(contents(text@), runs(marks@), 0, word_sep@),
{
    let ghost goal = restored(contents(text@), runs(marks@), 0, word_sep@);
    let mut text = text;
    let mut marks = marks;
    let mut out: Vec<String> = Vec::new();
    let mut pos: u128 = 0;
    let ghost total = text.len() + marks.len();
    assert(contents(out@) + goal =~= goal);
    while !marks.is_empty() && !text.is_empty()
        invariant
            contents(out@) + restored(contents(text@), runs(marks@), pos as int, word_sep@) == goal,
            pos + text@.len() + marks@.len() <= total <= 2 * usize::MAX,
        decreases text@.len() + marks@.len(),
    {
        let ghost t = contents(text@);
        let ghost m = runs(marks@);
        let ghost before = contents(out@);
        let ghost at = pos as int;
        if marks[0].index as u128 != pos {
            let line = text.remove(0);
            out.push(line);
            pos += 1;
            proof {
                assert(contents(text@) =~= t.drop_first());
                assert(contents(out@) =~= before.push(t[0]));
                assert(contents(out@) + restored(t.drop_first(), m, at + 1, word_sep@) =~= before
                    + restored(t, m, at, word_sep@));
            }
        } else {
            let current = marks.remove(0);
            let mark = replace_spaces(&current.mark, word_sep);
            let ghost spliced = mark@;
            // The trailing word separator goes before splicing.
            let mut head = unseparate(&text[0], word_sep);
            let ghost bare = head@;
            proof {
                assert(runs(marks@) =~= m.drop_first());
                assert(m[0] == current@);
                assert(t[0] == text@[0]@);
            }
            match current.position {
                Position::Begin => {
                    let mut whole = mark;
                    whole.append(&head);
                    text.set(0, whole);
                    assert(contents(text@) =~= t.update(0, spliced + bare));
                },
                Position::End => {
                    let tail = separate(mark, word_sep);
                    head.append(&tail);
                    let ghost line = head@;
                    let _ = text.remove(0);
                    out.push(head);
                    pos += 1;
                    proof {
                        assert(contents(text@) =~= t.drop_first());
                        assert(contents(out@) =~= before.push(line));
                        assert(contents(out@) + restored(
                            t.drop_first(),
                            m.drop_first(),
                            at + 1,
                            word_sep@,
                        ) =~= before + restored(t, m, at, word_sep@));
                    }
                },
                Position::Alone => {
                    let line = separate(mark, word_sep);
                    let ghost alone = line@;
                    out.push(line);
                    text.set(0, head);
                    pos += 1;
                    proof {
                        assert(contents(text@) =~= t.update(0, bare));
                        assert(contents(out@) =~= before.push(alone));
                        assert(contents(out@) + restored(
                            t.update(0, bare),
                            m.drop_first(),
                            at + 1,
                            word_sep@,
                        ) =~= before + restored(t, m, at, word_sep@));
                    }
                },
                Position::Inner => {
                    head.append(&mark);
                    if text.len() == 1 {
                        text.set(0, head);
                        assert(contents(text@) =~= t.update(0, bare + spliced));
                    } else {
                        head.append(&text[1]);
                        let _ = text.remove(0);
                        text.set(0, head);
                        assert(contents(text@) =~= t.drop_first().update(0, bare + spliced + t[1]));
                    }
                },
            }
        }
    }
    if marks.is_empty() {
        let ghost rest = contents(text@).map_values(|t: Seq<char>| separated(t, word_sep@));
        let ghost before = contents(out@);
        let mut k: usize = 0;
        assert(runs(marks@) =~= Seq::empty());
        assert(contents(out@) =~= before + rest.take(0));
        while k < text.len()
            invariant
                k <= text@.len(),
                rest == contents(text@).map_values(|t: Seq<char>| separated(t, word_sep@)),
                contents(out@) == before + rest.take(k as int),
            decreases text@.len() - k,
        {
            let ghost was = contents(out@);
            out.push(separate(text[k].clone(), word_sep));
            proof {
                assert(contents(out@) =~= was.push(rest[k as int]));
                assert(rest.take(k + 1) =~= rest.take(k as int).push(rest[k as int]));
            }
            k += 1;
        }
        assert(rest.take(k as int) =~= rest);
    } else {
        let ghost m = runs(marks@);
        let ghost before = contents(out@);
        let mut all = String::new();
        let mut k: usize = 0;
        while k < marks.len()
            invariant
                k <= marks@.len(),
                m == runs(marks@),
                all@ == run_texts(m.take(k as int)),
            decreases marks@.len() - k,
        {
            proof {
                assert(m.take(k + 1).drop_last() =~= m.take(k as int));
                assert(m.take(k + 1).last() == marks@[k as int]@);
            }
            all.append(&marks[k].mark);
            k += 1;
        }
        let line = replace_spaces(&all, word_sep);
        let ghost alone = line@;
        out.push(line);
        proof {
            assert(m.take(k as int) =~= m);
            assert(contents(text@) =~= Seq::empty());
            assert(contents(out@) =~= before + seq![alone]);
        }
    }
    out
}

/// The separator between words.
pub const WORD_SEP: &'static str = " ";

/// The words a phonemiser answered with, each followed by a separator.
pub open spec fn worded(words: Seq<char>) -> Seq<char> {
    if words.len() == 0 {
        words
    } else {
        words + WORD_SEP@
    }
}

/// `text` with its punctuation, `words` being what the phonemiser answered for
/// the texts between the marks.
pub open spec fn spliced(text: Seq<char>, words: Seq<Seq<char>>) -> Seq<char> {
    join(
        restored(
            words.map_values(|w: Seq<char>| worded(w)),
            kept_runs(seq![text]),
            0,
            WORD_SEP@,
        ),
        seq!['\n'],
    )
}

/// Whether `r` is what `text` comes to when the texts between its marks are
/// phonemised one after the other, up to the first one that fails; `answers` says
/// which answer a text may get.
pub open spec fn is_preserving<E>(
    answers: spec_fn(Seq<char>, Result<Seq<char>, E>) -> bool,
    text: Seq<char>,
    r: Result<Seq<char>, E>,
) -> bool {
    let texts = kept_texts(seq![text]);
    if is_blank(text) {
        r == Ok::<Seq<char>, E>(Seq::empty())
    } else {
        exists|words: Seq<Seq<char>>|
            {
                &&& words.len() <= texts.len()
                &&& forall|i: int|
                    0 <= i < words.len() ==> #[trigger] answers(texts[i], Ok(words[i]))
                &&& match r {
                    Ok(phonemes) => words.len() == texts.len() && phonemes == #[trigger] spliced(
                        text,
                        words,
                    ),
                    Err(e) => words.len() < texts.len() && answers(
                        texts[words.len() as int],
                        Err(e),
                    ),
                }
            }
    }
}

/// Takes the punctuation out of `text`, which is a single line; nothing is left
/// of a blank one.
pub fn take_apart(text: &str) -> (r: Option<Preserved>)
    ensures
        r is None <==> is_blank(text@),
        r matches Some(kept) ==> contents(kept.chunks@) == kept_texts(seq![text@]) && runs(
            kept.marks@,
        ) == kept_runs(seq![text@]),
{
    let chars = to_chars(text);
    let (from, to) = trim_bounds(&chars);
    proof {
        lemma_trim(text@);
    }
    if from == to {
        return None;
    }
    let mut lines: Vec<String> = Vec::new();
    lines.push(text.to_owned());
    assert(contents(lines@) =~= seq![text@]);
    Some(preserve(&lines))
}

/// Splices the marks back into what the texts between them were phonemised to.
pub fn splice(words: &Vec<String>, marks: Vec<Mark>) -> (r: String)
    ensures
        forall|text: Seq<char>|
            runs(marks@) == kept_runs(seq![text]) ==> r@ == #[trigger] spliced(
                text,
                contents(words@),
            ),
{
    let ghost all = contents(words@);
    let mut phonemised: Vec<String> = Vec::new();
    let mut i: usize = 0;
    assert(contents(phonemised@) =~= all.take(0).map_values(|w: Seq<char>| worded(w)));
    while i < words.len()
        invariant
            i <= words@.len(),
            all == contents(words@),
            contents(phonemised@) == all.take(i as int).map_values(|w: Seq<char>| worded(w)),
        decreases words@.len() - i,
    {
        let ghost before = contents(phonemised@);
        let mut line = words[i].clone();
        // Every word is followed by a separator; restoring relies on that
        // trailing separator being present.
        if !line.as_str().is_empty() {
            line.append(WORD_SEP);
        }
        phonemised.push(line);
        proof {
            assert(contents(phonemised@) =~= before.push(worded(all[i as int])));
            assert(all.take(i + 1).map_values(|w: Seq<char>| worded(w)) =~= all.take(
                i as int,
            ).map_values(|w: Seq<char>| worded(w)).push(worded(all[i as int])));
        }
        i += 1;
    }
    let lines = restore(phonemised, marks, WORD_SEP);
    proof {
        assert(all.take(i as int) =~= all);
        reveal_strlit("\n");
        assert("\n"@ =~= seq!['\n']);
    }
    // Lines are joined with a newline, which is outside the vocabulary and so
    // disappears when the caller filters.
    joined(&lines, "\n")
}

/// Phonemises `text`, keeping its punctuation, using `backend` for the parts
/// between the marks.
pub fn phonemize_preserving<F, E>(text: &str, backend: F) -> (r: Result<String, E>)
    where F: FnMut(&str) -> Result<String, E>
    requires
        answers_any(backend),
    ensures
        is_preserving(
            |part: Seq<char>, reply: Result<Seq<char>, E>| may_answer(backend, part, reply),
            text@,
            heard(r),
        ),
{
    let Preserved { chunks, marks } = match take_apart(text) {
        Some(kept) => kept,
        None => {
            return Ok(String::new());
        },
    };
    let mut speak = backend;
    let ghost answers = |part: Seq<char>, reply: Result<Seq<char>, E>|
        may_answer(backend, part, reply);
    let ghost texts = contents(chunks@);
    let mut words: Vec<String> = Vec::new();
    let mut i: usize = 0;
    while i < chunks.len()
        invariant
            i <= chunks@.len(),
            speak == backend,
            answers_any(backend),
            answers == (|part: Seq<char>, reply: Result<Seq<char>, E>|
                may_answer(backend, part, reply)),
            !is_blank(text@),
            texts == contents(chunks@),
            texts == kept_texts(seq![text@]),
            words@.len() == i,
            forall|k: int|
                0 <= k < i ==> #[trigger] answers(texts[k], Ok(contents(words@)[k])),
        decreases chunks@.len() - i,
    {
        let ghost before = contents(words@);
        let reply = speak(&chunks[i]);
        assert(answers(texts[i as int], heard(reply)));
        match reply {
            Ok(answer) => {
                words.push(answer);
                assert(contents(words@) =~= before.push(answer@));
            },
            Err(e) => {
                proof {
                    let unfinished = spliced(text@, before);
                }
                return Err(e);
            },
        }
        i += 1;
    }
    let whole = splice(&words, marks);
    assert(whole@ == spliced(text@, contents(words@)));
    Ok(whole)
}

} // verus!
