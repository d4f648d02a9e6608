//! Texts that a mark parts are phonemised independently of each other.

use vstd::prelude::*;

use crate::chars::{
    is_blank, is_space, lemma_space_end, lemma_space_start, lemma_trim, space_end, space_start,
    trim,
};
use crate::laws::honest::{
    closes_at, ends_on_mark, is_unknown_mark, joins_exactly, opens_at, opens_clearly,
};
use crate::laws::solid::solid;
use crate::laws::splicing::{
    closed, interleaved, lemma_kept_solid, marks_come_back_in_place, voiced_piece,
};
use crate::phonemes::{in_vocab, is_phonemized, may_speak, voiced};
use crate::punctuation::{
    filler_end, is_filler, is_mark, is_preserving, kept_texts, lemma_filler_end, lemma_run_start, run_start,
    spliced, starts_run,
};

verus! {

/// The characters of `s` that the vocabulary has.
pub open spec fn known(s: Seq<char>) -> Seq<char> {
    s.filter(|c: char| in_vocab(c))
}

/// What a phonemiser that speaks every punctuation-free text with `voice` makes of
/// `text`.
pub open spec fn phonemes_of(voice: spec_fn(Seq<char>) -> Seq<char>, text: Seq<char>) -> Seq<char> {
    if is_blank(text) {
        voiced(Seq::empty())
    } else {
        voiced(spliced(text, kept_texts(seq![text]).map_values(voice)))
    }
}

/// Whether `voice` makes something of every text without a mark: what the model knows of
/// it starts with a sound and ends with one, rather than with white space.
pub open spec fn speaks_clearly(voice: spec_fn(Seq<char>) -> Seq<char>) -> bool {
    forall|part: Seq<char>|
        solid(part) && (forall|k: int| 0 <= k < part.len() ==> !is_mark(#[trigger] part[k]))
            ==> solid(known(#[trigger] voice(part)))
}

/// What has sounds at either end can be told from the space after it.
proof fn lemma_spoken(voice: spec_fn(Seq<char>) -> Seq<char>, part: Seq<char>)
    requires
        speaks_clearly(voice),
        solid(part),
        forall|k: int| 0 <= k < part.len() ==> !is_mark(#[trigger] part[k]),
    ensures
        closed(voice, part),
        solid(known(voice(part))),
{
    let said = voice(part);
    assert(solid(known(said)));
    if said.len() == 0 {
        reveal(Seq::filter);
        assert(known(said).len() == 0);
    } else if said.last() == ' ' {
        assert(said =~= said.drop_last() + seq![' ']);
        lemma_known_add(said.drop_last(), seq![' ']);
        lemma_known_one(' ');
        lemma_space_known();
        assert(known(said).last() == ' ');
    }
}

/// Marks that the model does not know come to nothing.
proof fn lemma_unknown(s: Seq<char>)
    requires
        forall|j: int| 0 <= j < s.len() ==> is_unknown_mark(#[trigger] s[j]),
    ensures
        known(s) == Seq::<char>::empty(),
{
    s.lemma_all_neg_filter_empty(|c: char| in_vocab(c));
    assert(known(s) =~= Seq::empty());
}

/// White space after `j` characters that are put before `b`.
proof fn lemma_space_end_after(c: Seq<char>, b: Seq<char>, off: int, j: int)
    requires
        0 <= off,
        0 <= j <= b.len(),
        c.len() == off + b.len(),
        c.skip(off) == b,
    ensures
        space_end(c, off + j) == off + space_end(b, j),
        starts_run(c, off + j) == starts_run(b, j),
    decreases b.len() - j,
{
    lemma_space_end(b, j);
    if j < b.len() {
        assert(b[j] == c.skip(off)[j]);
        if is_space(b[j]) {
            lemma_space_end_after(c, b, off, j + 1);
        }
    }
    if space_end(b, j) < b.len() {
        assert(b[space_end(b, j)] == c.skip(off)[space_end(b, j)]);
    }
}

pub proof fn lemma_run_start_after(c: Seq<char>, b: Seq<char>, off: int, j: int)
    requires
        0 <= off,
        0 <= j <= b.len(),
        c.len() == off + b.len(),
        c.skip(off) == b,
    ensures
        run_start(c, off + j) == off + run_start(b, j),
        filler_end(c, off + j) == off + filler_end(b, j),
    decreases b.len() - j,
{
    lemma_space_end_after(c, b, off, j);
    if j < b.len() {
        assert(b[j] == c.skip(off)[j]);
        lemma_run_start_after(c, b, off, j + 1);
    }
}

/// What is put before a text has no part in what comes of it.
proof fn lemma_interleaved_after(
    c: Seq<char>,
    b: Seq<char>,
    off: int,
    j: int,
    voice: spec_fn(Seq<char>) -> Seq<char>,
)
    requires
        0 <= off,
        0 <= j <= b.len(),
        c.len() == off + b.len(),
        c.skip(off) == b,
    ensures
        interleaved(c, off + j, voice) == interleaved(b, j, voice),
    decreases b.len() - j,
{
    let start = run_start(b, j);
    lemma_run_start(b, j);
    lemma_run_start_after(c, b, off, j);
    if start < b.len() {
        let end = filler_end(b, start);
        lemma_filler_end(b, start);
        lemma_run_start_after(c, b, off, start);
        lemma_interleaved_after(c, b, off, end, voice);
        assert(c.subrange(off + j, off + start) =~= b.subrange(j, start)) by {
            assert(forall|k: int| 0 <= k < b.len() ==> #[trigger] b[k] == c.skip(off)[k]);
        }
        assert(c.subrange(off + start, off + end) =~= b.subrange(start, end)) by {
            assert(forall|k: int| 0 <= k < b.len() ==> #[trigger] b[k] == c.skip(off)[k]);
        }
    } else {
        assert(c.subrange(off + j, c.len() as int) =~= b.subrange(j, b.len() as int)) by {
            assert(forall|k: int| 0 <= k < b.len() ==> #[trigger] b[k] == c.skip(off)[k]);
        }
    }
}

/// The runs of `a`, which ends with a mark, with something put after it.
pub proof fn lemma_runs_before(a: Seq<char>, c: Seq<char>, i: int)
    requires
        0 <= i < a.len(),
        is_mark(a.last()),
        !is_space(a.last()),
        a.len() <= c.len(),
        c.take(a.len() as int) == a,
    ensures
        space_end(c, i) == space_end(a, i) < a.len(),
        starts_run(c, i) == starts_run(a, i),
        run_start(c, i) == run_start(a, i) < a.len(),
        filler_end(c, i) == if filler_end(a, i) < a.len() {
            filler_end(a, i)
        } else {
            filler_end(c, a.len() as int)
        },
    decreases a.len() - i,
{
    assert(forall|k: int| 0 <= k < a.len() ==> #[trigger] a[k] == c.take(a.len() as int)[k]);
    assert(a[i] == c[i]);
    lemma_space_end(a, i);
    lemma_filler_end(a, i);
    if i + 1 < a.len() {
        lemma_runs_before(a, c, i + 1);
        let at = space_end(a, i);
        assert(a[at] == c[at]);
    } else {
        assert(space_end(a, i) == i);
        assert(starts_run(a, i));
        assert(filler_end(a, i + 1) == i + 1);
    }
}

/// A text that ends with a mark, and after a space another one: each of them comes
/// out as it would on its own.
proof fn lemma_interleaved_joined(
    a: Seq<char>,
    b: Seq<char>,
    i: int,
    voice: spec_fn(Seq<char>) -> Seq<char>,
)
    requires
        0 <= i < a.len(),
        solid(a),
        is_mark(a.last()),
        solid(b),
    ensures
        interleaved(a.push(' ') + b, i, voice) == interleaved(a, i, voice).push(' ') + interleaved(
            b,
            0,
            voice,
        ),
    decreases a.len() - i,
{
    let c = a.push(' ') + b;
    let n = a.len() as int;
    let off = n + 1;
    assert(c.take(n) =~= a);
    assert(c.skip(off) =~= b);
    lemma_runs_before(a, c, i);
    lemma_run_start(a, i);
    let start = run_start(a, i);
    let end = filler_end(a, start);
    lemma_filler_end(a, start);
    lemma_runs_before(a, c, start);
    assert(c.subrange(i, start) =~= a.subrange(i, start)) by {
        assert(forall|k: int| 0 <= k < n ==> #[trigger] a[k] == c.take(n)[k]);
    }
    let piece = voiced_piece(voice, a.subrange(i, start));
    let run = a.subrange(start, end);
    let tail = interleaved(b, 0, voice);
    if end < n {
        lemma_interleaved_joined(a, b, end, voice);
        assert(c.subrange(start, end) =~= run) by {
            assert(forall|k: int| 0 <= k < n ==> #[trigger] a[k] == c.take(n)[k]);
        }
        let rest = interleaved(a, end, voice);
        assert(piece + run + (rest.push(' ') + tail) =~= (piece + run + rest).push(' ') + tail);
    } else {
        let rest = interleaved(a, end, voice);
        assert(run_start(a, end) == end);
        assert(rest =~= Seq::empty());
        assert(c[n] == ' ');
        lemma_run_start_after(c, b, off, 0);
        let stop = filler_end(b, 0);
        lemma_filler_end(b, 0);
        assert(filler_end(c, n) == off + stop);
        lemma_interleaved_after(c, b, off, stop, voice);
        lemma_space_end(b, 0);
        lemma_run_start(b, 0);
        assert(space_end(b, 0) == 0);
        assert(c.subrange(start, off + stop) =~= run.push(' ') + b.subrange(0, stop)) by {
            assert(forall|k: int| 0 <= k < n ==> #[trigger] a[k] == c.take(n)[k]);
            assert(forall|k: int| 0 <= k < b.len() ==> #[trigger] b[k] == c.skip(off)[k]);
        }
        let after = interleaved(b, stop, voice);
        if is_mark(b[0]) {
            assert(starts_run(b, 0));
            assert(tail =~= b.subrange(0, stop) + after);
        } else {
            assert(stop == 0);
            assert(tail =~= b.subrange(0, stop) + after);
        }
        assert(piece + (run.push(' ') + b.subrange(0, stop)) + after =~= (piece + run + rest).push(
            ' ',
        ) + tail);
    }
}

/// Filtering one text and another after it.
proof fn lemma_known_add(x: Seq<char>, y: Seq<char>)
    ensures
        known(x + y) == known(x) + known(y),
{
    Seq::filter_distributes_over_add(x, y, |c: char| in_vocab(c));
}

proof fn lemma_known_one(c: char)
    ensures
        known(seq![c]) == if in_vocab(c) {
            seq![c]
        } else {
            Seq::empty()
        },
{
    reveal_with_fuel(Seq::filter, 2);
    assert(seq![c].drop_last() =~= Seq::empty());
    assert(seq![c].last() == c);
}

/// A space is a sound that the model knows.
proof fn lemma_space_known()
    ensures
        in_vocab(' '),
{
    reveal_with_fuel(crate::phonemes::token_from, 15);
}

/// White space at the end of a text does not outlast trimming.
proof fn lemma_trim_push(x: Seq<char>)
    ensures
        trim(x.push(' ')) == trim(x),
{
    let y = x.push(' ');
    lemma_trim(x);
    lemma_trim(y);
    lemma_space_end(x, 0);
    lemma_space_end(y, 0);
    lemma_space_start(x, x.len() as int);
    lemma_space_start(y, y.len() as int);
    assert(y.take(x.len() as int) =~= x);
    lemma_space_start_same(x, y, x.len() as int);
    assert(space_start(y, y.len() as int) == space_start(y, x.len() as int));
    let from = space_end(x, 0);
    let to = space_start(x, x.len() as int);
    if is_blank(x) {
        assert(is_blank(y)) by {
            assert forall|k: int| 0 <= k < y.len() implies is_space(#[trigger] y[k]) by {
                if k < x.len() {
                    assert(y[k] == x[k]);
                }
            }
        }
        assert(trim(x) =~= trim(y));
    } else {
        assert(from < x.len());
        assert(space_end(y, 0) == from) by {
            assert(!is_space(y[from]));
            let at = space_end(y, 0);
            if at < from {
                assert(y[at] == x[at]);
            }
        }
        assert(y.subrange(from, to) =~= x.subrange(from, to));
    }
}

proof fn lemma_space_start_same(x: Seq<char>, y: Seq<char>, j: int)
    requires
        0 <= j <= x.len() <= y.len(),
        y.take(x.len() as int) == x,
    ensures
        space_start(x, j) == space_start(y, j),
    decreases j,
{
    if j > 0 {
        assert(x[j - 1] == y.take(x.len() as int)[j - 1]);
        lemma_space_start_same(x, y, j - 1);
    }
}

/// Trimming two texts that a space parts, neither of which has more white space
/// there.
proof fn lemma_trim_joined(x: Seq<char>, y: Seq<char>)
    requires
        x.len() > 0,
        !is_space(x.last()),
        y.len() > 0,
        !is_space(y[0]),
    ensures
        trim(x.push(' ') + y) == trim(x).push(' ') + trim(y),
{
    let z = x.push(' ') + y;
    let n = x.len() as int;
    let off = n + 1;
    lemma_space_end(x, 0);
    lemma_space_end(y, 0);
    lemma_space_end(z, 0);
    lemma_space_start(x, n);
    lemma_space_start(y, y.len() as int);
    lemma_space_start(z, z.len() as int);
    let from = space_end(x, 0);
    let to = space_start(y, y.len() as int);
    if from == n {
        assert(is_space(x[n - 1]));
    }
    assert(space_end(z, 0) == from) by {
        let at = space_end(z, 0);
        assert(z[from] == x[from]);
        if at < from {
            assert(z[at] == x[at]);
        }
        if at > from {
            assert(is_space(z[from]));
        }
    }
    assert(to > 0);
    assert(space_start(z, z.len() as int) == off + to) by {
        let at = space_start(z, z.len() as int);
        assert(z[off + to - 1] == y[to - 1]);
        if at > off + to {
            assert(z[at - 1] == y[at - 1 - off]);
        }
        if at < off + to {
            assert(is_space(z[off + to - 1]));
        }
    }
    assert(trim(z) =~= z.subrange(from, off + to));
    assert(trim(x) =~= x.subrange(from, n));
    assert(trim(y) =~= y.subrange(0, to));
    assert(z.subrange(from, off + to) =~= x.subrange(from, n).push(' ') + y.subrange(0, to));
}

/// A text up to the first run of punctuation from `i` on.
proof fn lemma_piece_solid(s: Seq<char>, i: int)
    requires
        0 <= i < s.len(),
        !is_space(s[i]),
        !is_space(s.last()),
        !is_mark(s[i]),
    ensures
        i < run_start(s, i) <= s.len(),
        solid(s.subrange(i, run_start(s, i))),
        forall|k: int|
            0 <= k < run_start(s, i) - i ==> !is_mark(
                #[trigger] s.subrange(i, run_start(s, i))[k],
            ),
{
    let start = run_start(s, i);
    let piece = s.subrange(i, start);
    lemma_run_start(s, i);
    lemma_space_end(s, i);
    assert(space_end(s, i) == i);
    assert(!starts_run(s, i));
    assert(start > i);
    if start < s.len() && is_space(s[start - 1]) {
        lemma_space_end(s, start - 1);
        assert(space_end(s, start - 1) == space_end(s, start));
        assert(starts_run(s, start - 1));
    }
    assert forall|k: int| 0 <= k < start - i implies !is_mark(#[trigger] piece[k]) by {
        assert(piece[k] == s[i + k]);
    }
}

/// What comes of a text that closes clearly ends with a sound.
proof fn lemma_interleaved_last(
    a: Seq<char>,
    i: int,
    k: int,
    voice: spec_fn(Seq<char>) -> Seq<char>,
)
    requires
        0 <= i <= k,
        is_mark(a.last()),
        !is_space(a.last()),
        !is_space(a[i]),
        closes_at(a, k),
        speaks_clearly(voice),
    ensures
        known(interleaved(a, i, voice)).len() > 0,
        !is_space(known(interleaved(a, i, voice)).last()),
    decreases a.len() - i,
{
    assert(a.take(a.len() as int) =~= a);
    lemma_runs_before(a, a, i);
    lemma_run_start(a, i);
    let start = run_start(a, i);
    let end = filler_end(a, start);
    lemma_filler_end(a, start);
    let piece = voiced_piece(voice, a.subrange(i, start));
    let run = a.subrange(start, end);
    let rest = interleaved(a, end, voice);
    let whole = interleaved(a, i, voice);
    assert(whole == piece + run + rest);
    lemma_known_add(piece + run, rest);
    lemma_known_add(piece, run);
    if end <= k {
        lemma_interleaved_last(a, end, k, voice);
    } else {
        if end < a.len() {
            assert(is_unknown_mark(a[end]));
        }
        assert(run_start(a, end) == end);
        assert(rest =~= Seq::empty());
        assert(whole =~= piece + run);
        if k >= start {
            assert(is_filler(a[k]));
            let before = a.subrange(start, k);
            let after = a.subrange(k + 1, end);
            assert(run =~= before + seq![a[k]] + after);
            lemma_known_add(before + seq![a[k]], after);
            lemma_known_add(before, seq![a[k]]);
            lemma_known_one(a[k]);
            lemma_unknown(after);
            assert(known(run) =~= known(before).push(a[k]));
            assert(known(whole).last() == a[k]);
        } else {
            lemma_space_end(a, k + 1);
            if start > k + 1 {
                assert(is_unknown_mark(a[k + 1]));
            }
            assert(start == k + 1);
            lemma_unknown(run);
            lemma_piece_solid(a, i);
            lemma_spoken(voice, a.subrange(i, start));
            assert(known(whole) =~= known(piece));
        }
    }
}

/// What comes of a text that starts with no white space or mark starts with a sound.
proof fn lemma_interleaved_text(b: Seq<char>, i: int, voice: spec_fn(Seq<char>) -> Seq<char>)
    requires
        0 <= i < b.len(),
        !is_filler(b[i]),
        !is_space(b.last()),
        speaks_clearly(voice),
    ensures
        known(interleaved(b, i, voice)).len() > 0,
        !is_space(known(interleaved(b, i, voice))[0]),
{
    let start = run_start(b, i);
    let whole = interleaved(b, i, voice);
    lemma_piece_solid(b, i);
    let said = voice(b.subrange(i, start));
    lemma_spoken(voice, b.subrange(i, start));
    let rest = whole.skip(said.len() as int);
    if start >= b.len() {
        assert(b.subrange(i, b.len() as int) == b.subrange(i, start));
    }
    assert(whole =~= said + rest);
    lemma_known_add(said, rest);
}

/// What comes of a text that opens clearly starts with a sound.
proof fn lemma_interleaved_first(b: Seq<char>, k: int, voice: spec_fn(Seq<char>) -> Seq<char>)
    requires
        solid(b),
        opens_at(b, k),
        speaks_clearly(voice),
    ensures
        known(interleaved(b, 0, voice)).len() > 0,
        !is_space(known(interleaved(b, 0, voice))[0]),
{
    let whole = interleaved(b, 0, voice);
    if !is_filler(b[0]) {
        lemma_interleaved_text(b, 0, voice);
    } else {
        lemma_run_start(b, 0);
        lemma_space_end(b, 0);
        assert(is_mark(b[0]));
        assert(starts_run(b, 0));
        let end = filler_end(b, 0);
        lemma_filler_end(b, 0);
        let rest = interleaved(b, end, voice);
        assert(whole =~= b.subrange(0, end) + rest);
        let before = b.subrange(0, k);
        lemma_unknown(before);
        if end < k {
            assert(is_unknown_mark(b[end]));
        }
        if k < end {
            assert(is_filler(b[k]));
            let after = b.subrange(k + 1, end) + rest;
            assert(whole =~= before + seq![b[k]] + after);
            lemma_known_add(before + seq![b[k]], after);
            lemma_known_add(before, seq![b[k]]);
            lemma_known_one(b[k]);
            assert(known(whole)[0] == b[k]);
        } else {
            lemma_known_add(before, rest);
            lemma_interleaved_text(b, k, voice);
            assert(known(whole) =~= known(rest));
        }
    }
}

/// The phonemes of a solid text, by way of its marks.
proof fn lemma_phonemes_of(voice: spec_fn(Seq<char>) -> Seq<char>, text: Seq<char>)
    requires
        solid(text),
        speaks_clearly(voice),
    ensures
        phonemes_of(voice, text) == trim(known(interleaved(text, 0, voice))),
{
    let kept = kept_texts(seq![text]);
    assert(!is_blank(text)) by {
        assert(!is_space(text[0]));
    }
    assert forall|k: int| 0 <= k < kept.len() implies closed(voice, #[trigger] kept[k]) by {
        lemma_kept_solid(text, k);
        lemma_spoken(voice, kept[k]);
    }
    marks_come_back_in_place(text, voice);
    let whole = interleaved(text, 0, voice);
    let sep = seq![' '];
    lemma_known_add(whole, sep);
    lemma_known_one(' ');
    lemma_space_known();
    lemma_trim_push(known(whole));
    assert(known(whole) + sep =~= known(whole).push(' '));
}

/// A phonemiser that hides the marks of a text from the voice it speaks with, and
/// splices them back in, phonemises two texts that a mark and a space part exactly
/// as it does each of them on its own.
pub proof fn marks_part_texts(voice: spec_fn(Seq<char>) -> Seq<char>)
    requires
        speaks_clearly(voice),
    ensures
        joins_exactly(|text: Seq<char>| phonemes_of(voice, text)),
{
    let speak = |text: Seq<char>| phonemes_of(voice, text);
    assert forall|a: Seq<char>, b: Seq<char>|
        solid(a) && ends_on_mark(a) && solid(b) && opens_clearly(b) implies #[trigger] speak(
        a.push(' ') + b,
    ) == speak(a).push(' ') + speak(b) by {
        let c = a.push(' ') + b;
        assert(c[0] == a[0]);
        assert(c.last() == b.last());
        lemma_phonemes_of(voice, a);
        lemma_phonemes_of(voice, b);
        lemma_phonemes_of(voice, c);
        lemma_interleaved_joined(a, b, 0, voice);
        let last = choose|k: int| #[trigger] closes_at(a, k);
        let first = choose|k: int| #[trigger] opens_at(b, k);
        lemma_interleaved_last(a, 0, last, voice);
        lemma_interleaved_first(b, first, voice);
        let x = interleaved(a, 0, voice);
        let y = interleaved(b, 0, voice);
        lemma_known_add(x.push(' '), y);
        assert(x.push(' ') =~= x + seq![' ']);
        lemma_known_add(x, seq![' ']);
        lemma_known_one(' ');
        lemma_space_known();
        assert(known(x) + seq![' '] =~= known(x).push(' '));
        lemma_trim_joined(known(x), known(y));
    }
}

/// Where a backend speaks with a single voice, the phonemes of a text are those of
/// that voice.
pub proof fn phonemize_speaks_with_the_voice<F, E>(
    espeak: F,
    lang: Seq<char>,
    text: Seq<char>,
    voice: spec_fn(Seq<char>) -> Seq<char>,
    phonemes: Seq<char>,
)
    where F: FnMut(&str, &str) -> Result<Vec<String>, E>
    requires
        forall|part: Seq<char>, reply: Result<Seq<char>, E>| #[trigger]
            may_speak(espeak, lang, part, reply) ==> reply == Ok::<Seq<char>, E>(voice(part)),
        is_phonemized(espeak, lang, text, Ok::<Seq<char>, E>(phonemes)),
    ensures
        phonemes == phonemes_of(voice, text),
{
    let answers = |part: Seq<char>, reply: Result<Seq<char>, E>| may_speak(
        espeak,
        lang,
        part,
        reply,
    );
    let texts = kept_texts(seq![text]);
    let whole = choose|whole: Seq<char>| #[trigger]
        is_preserving(answers, text, Ok(whole)) && phonemes == voiced(whole);
    if !is_blank(text) {
        let words = choose|words: Seq<Seq<char>>|
            {
                &&& words.len() == texts.len()
                &&& forall|i: int|
                    0 <= i < words.len() ==> #[trigger] answers(texts[i], Ok(words[i]))
                &&& whole == #[trigger] spliced(text, words)
            };
        assert forall|i: int| 0 <= i < words.len() implies #[trigger] words[i] == voice(
            texts[i],
        ) by {
            assert(answers(texts[i], Ok(words[i])));
            assert(may_speak(espeak, lang, texts[i], Ok::<Seq<char>, E>(words[i])));
        }
        assert(words =~= texts.map_values(voice));
    }
}

} // verus!
