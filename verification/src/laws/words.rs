//! No word is broken or lost on the way.

use vstd::prelude::*;

use crate::chars::{
    is_blank, is_space, join, lemma_space_end, lemma_space_start, lemma_trim, lemma_word_end,
    space_end, space_start, trim, word_end, words, words_from,
};
use crate::laws::letters::{line_keeps_closers, lines_keep_closers, texts};
use crate::laws::steps::{lemma_failed, lemma_sentence_follows};
use crate::text::chunk::{chunking, Progress};
use crate::text::packer::{Budget, Packing, Spoken};
use crate::text::sentences::{
    breaks, lemma_break_at, lemma_breaks_from, lemma_line_end, line_end, line_sentences, pieces,
    sentences, sentences_from, text_sentences,
};
use crate::text::split::{clauses, lemma_mark_gaps, mark_gaps, CLAUSE_ENDS};

verus! {

/// The words of a list of texts, one text after the other.
pub open spec fn words_of(list: Seq<Seq<char>>) -> Seq<Seq<char>>
    decreases list.len(),
{
    if list.len() == 0 {
        Seq::empty()
    } else {
        words_of(list.drop_last()) + words(list.last())
    }
}

/// White space all the way from `i` to `j` ends where that at `j` does.
proof fn lemma_space_through(s: Seq<char>, i: int, j: int)
    requires
        0 <= i <= j <= s.len(),
        forall|k: int| i <= k < j ==> is_space(#[trigger] s[k]),
    ensures
        space_end(s, i) == space_end(s, j),
    decreases j - i,
{
    if i < j {
        lemma_space_through(s, i + 1, j);
    }
}

/// The words from the middle of some white space on are those after it.
proof fn lemma_words_through(s: Seq<char>, i: int, j: int)
    requires
        0 <= i <= j <= s.len(),
        forall|k: int| i <= k < j ==> is_space(#[trigger] s[k]),
    ensures
        words_from(s, i) == words_from(s, j),
{
    lemma_space_through(s, i, j);
}

/// White space and words with `off` characters put before them.
proof fn lemma_ends_after(c: Seq<char>, y: Seq<char>, off: int, j: int)
    requires
        0 <= off,
        0 <= j <= y.len(),
        c.len() == off + y.len(),
        c.skip(off) == y,
    ensures
        space_end(c, off + j) == off + space_end(y, j),
        word_end(c, off + j) == off + word_end(y, j),
    decreases y.len() - j,
{
    if j < y.len() {
        assert(y[j] == c.skip(off)[j]);
        lemma_ends_after(c, y, off, j + 1);
    }
}

/// What is put before a text has no part in its words.
proof fn lemma_words_after(c: Seq<char>, y: Seq<char>, off: int, j: int)
    requires
        0 <= off,
        0 <= j <= y.len(),
        c.len() == off + y.len(),
        c.skip(off) == y,
    ensures
        words_from(c, off + j) == words_from(y, j),
    decreases y.len() - j,
{
    let from = space_end(y, j);
    lemma_space_end(y, j);
    lemma_ends_after(c, y, off, j);
    if from < y.len() {
        let to = word_end(y, from);
        lemma_word_end(y, from);
        lemma_ends_after(c, y, off, from);
        lemma_words_after(c, y, off, to);
        assert(c.subrange(off + from, off + to) =~= y.subrange(from, to)) by {
            assert(forall|k: int| 0 <= k < y.len() ==> #[trigger] y[k] == c.skip(off)[k]);
        }
    }
}

/// White space and words with something put after them.
proof fn lemma_ends_before(c: Seq<char>, x: Seq<char>, i: int)
    requires
        0 <= i <= x.len() < c.len(),
        c.take(x.len() as int) == x,
        is_space(c[x.len() as int]),
    ensures
        space_end(x, i) < x.len() ==> space_end(c, i) == space_end(x, i),
        word_end(c, i) == word_end(x, i),
    decreases x.len() - i,
{
    if i < x.len() {
        assert(x[i] == c.take(x.len() as int)[i]);
        lemma_ends_before(c, x, i + 1);
    }
}

/// Two texts that white space parts have the words of both.
pub proof fn lemma_words_parted(x: Seq<char>, space: char, y: Seq<char>, i: int)
    requires
        0 <= i <= x.len(),
        is_space(space),
    ensures
        words_from(x.push(space) + y, i) == words_from(x, i) + words(y),
    decreases x.len() - i,
{
    let c = x.push(space) + y;
    let n = x.len() as int;
    assert(c.take(n) =~= x);
    assert(c.skip(n + 1) =~= y);
    assert(c[n] == space);
    lemma_space_end(x, i);
    lemma_ends_before(c, x, i);
    let from = space_end(x, i);
    if from < n {
        let to = word_end(x, from);
        lemma_word_end(x, from);
        lemma_ends_before(c, x, from);
        lemma_words_parted(x, space, y, to);
        assert(c.subrange(from, to) =~= x.subrange(from, to)) by {
            assert(forall|k: int| 0 <= k < n ==> #[trigger] x[k] == c.take(n)[k]);
        }
        assert(words_from(c, i) =~= words_from(x, i) + words(y));
    } else {
        assert forall|k: int| i <= k < n + 1 implies is_space(#[trigger] c[k]) by {
            if k < n {
                assert(c[k] == x[k]);
            }
        }
        lemma_words_through(c, i, n + 1);
        lemma_words_after(c, y, n + 1, 0);
        assert(words_from(x, i) =~= Seq::empty());
        assert(words_from(c, i) =~= words_from(x, i) + words(y));
    }
}

/// A blank text has no words.
pub proof fn lemma_words_blank(s: Seq<char>)
    requires
        is_blank(s),
    ensures
        words(s) == Seq::<Seq<char>>::empty(),
{
    lemma_space_end(s, 0);
    assert(words(s) =~= Seq::empty());
}

/// Two texts that do not meet inside a word, one after the other, have the words of both.
pub proof fn lemma_words_add(x: Seq<char>, y: Seq<char>)
    requires
        x.len() > 0 && y.len() > 0 ==> is_space(x.last()) || is_space(y[0]),
    ensures
        words(x + y) == words(x) + words(y),
{
    if x.len() == 0 {
        assert(x + y =~= y);
        lemma_words_blank(x);
        assert(words(x) + words(y) =~= words(y));
    } else if y.len() == 0 {
        assert(x + y =~= x);
        lemma_words_blank(y);
        assert(words(x) + words(y) =~= words(x));
    } else if is_space(x.last()) {
        let less = x.drop_last();
        let none = Seq::<char>::empty();
        assert(less.push(x.last()) =~= x);
        lemma_words_parted(less, x.last(), y, 0);
        lemma_words_parted(less, x.last(), none, 0);
        assert(less.push(x.last()) + none =~= x);
        lemma_words_blank(none);
        assert(words(less) + words(none) =~= words(less));
    } else {
        let less = y.skip(1);
        let none = Seq::<char>::empty();
        assert(x.push(y[0]) + less =~= x + y);
        assert(none.push(y[0]) + less =~= y);
        lemma_words_parted(x, y[0], less, 0);
        lemma_words_parted(none, y[0], less, 0);
        lemma_words_blank(none);
        assert(words(none) + words(less) =~= words(less));
    }
}

/// Two lists, one after the other, have the words of both.
pub proof fn lemma_words_of_add(a: Seq<Seq<char>>, b: Seq<Seq<char>>)
    ensures
        words_of(a + b) == words_of(a) + words_of(b),
    decreases b.len(),
{
    if b.len() == 0 {
        assert(a + b =~= a);
        assert(words_of(a) + words_of(b) =~= words_of(a));
    } else {
        assert((a + b).drop_last() =~= a + b.drop_last());
        lemma_words_of_add(a, b.drop_last());
        assert(words_of(a + b) =~= words_of(a) + words_of(b));
    }
}

/// A list of a single text has its words.
pub proof fn lemma_words_of_one(s: Seq<char>)
    ensures
        words_of(seq![s]) == words(s),
{
    assert(seq![s].drop_last() =~= Seq::empty());
    assert(words_of(Seq::<Seq<char>>::empty()) + words(s) =~= words(s));
}

/// White space at either end does not count.
pub proof fn lemma_words_trim(s: Seq<char>)
    ensures
        words(trim(s)) == words(s),
{
    let from = space_end(s, 0);
    let to = space_start(s, s.len() as int);
    lemma_trim(s);
    if trim(s).len() == 0 {
        lemma_words_blank(s);
        lemma_words_blank(trim(s));
    } else {
        lemma_space_end(s, 0);
        lemma_space_start(s, s.len() as int);
        let head = s.subrange(0, from);
        let tail = s.subrange(to, s.len() as int);
        assert(s =~= head + trim(s) + tail);
        assert forall|k: int| 0 <= k < tail.len() implies is_space(#[trigger] tail[k]) by {
            assert(tail[k] == s[to + k]);
        }
        if head.len() > 0 {
            assert(head.last() == s[from - 1]);
        }
        lemma_words_add(head, trim(s));
        lemma_words_add(head + trim(s), tail);
        lemma_words_blank(head);
        lemma_words_blank(tail);
        assert(words(s) =~= words(trim(s)));
    }
}

/// Leaving blank texts out of a list leaves its words alone.
proof fn lemma_filter_words(list: Seq<Seq<char>>, keep: spec_fn(Seq<char>) -> bool)
    requires
        forall|s: Seq<char>| !#[trigger] keep(s) ==> is_blank(s),
    ensures
        words_of(list.filter(keep)) == words_of(list),
    decreases list.len(),
{
    reveal(Seq::filter);
    if list.len() > 0 {
        let rest = list.drop_last();
        lemma_filter_words(rest, keep);
        if keep(list.last()) {
            assert(rest.filter(keep).push(list.last()).drop_last() =~= rest.filter(keep));
        } else {
            lemma_words_blank(list.last());
            assert(words_of(list) =~= words_of(rest));
        }
    }
}

/// Trimming every text of a list leaves its words alone.
proof fn lemma_map_trim_words(list: Seq<Seq<char>>)
    ensures
        words_of(list.map_values(|p: Seq<char>| trim(p))) == words_of(list),
    decreases list.len(),
{
    let all = list.map_values(|p: Seq<char>| trim(p));
    if list.len() > 0 {
        lemma_map_trim_words(list.drop_last());
        lemma_words_trim(list.last());
        assert(all.drop_last() =~= list.drop_last().map_values(|p: Seq<char>| trim(p)));
    }
}

/// Whether `cuts` take white space, and nothing else, out of `s`, in order.
spec fn cuts_gaps(s: Seq<char>, cuts: Seq<(int, int)>) -> bool {
    &&& forall|k: int| #![trigger cuts[k]]
        0 <= k < cuts.len() ==> 0 <= cuts[k].0 < cuts[k].1 <= s.len() && is_blank(
            s.subrange(cuts[k].0, cuts[k].1),
        )
    &&& forall|k: int, l: int|
        0 <= k < l < cuts.len() ==> (#[trigger] cuts[k]).1 <= (#[trigger] cuts[l]).0
}

/// The first `k` pieces have the words of the text up to where they end.
proof fn lemma_first_words(s: Seq<char>, cuts: Seq<(int, int)>, k: int)
    requires
        cuts_gaps(s, cuts),
        0 <= k <= cuts.len(),
    ensures
        words_of(pieces(s, cuts).take(k)) == words(
            s.take(
                if k == 0 {
                    0
                } else {
                    cuts[k - 1].1
                },
            ),
        ),
        k > 0 ==> is_space(s[cuts[k - 1].1 - 1]),
    decreases k,
{
    let all = pieces(s, cuts);
    if k == 0 {
        assert(all.take(0) =~= Seq::empty());
        lemma_words_blank(s.take(0));
    } else {
        lemma_first_words(s, cuts, k - 1);
        let prev = if k == 1 {
            0
        } else {
            cuts[k - 2].1
        };
        let (start, end) = cuts[k - 1];
        if k > 1 {
            assert(cuts[k - 2].1 <= cuts[k - 1].0);
        }
        let gap = s.subrange(start, end);
        assert(is_space(gap[0]) && is_space(gap[gap.len() - 1]));
        assert(all.take(k).drop_last() =~= all.take(k - 1));
        assert(all.take(k).last() == s.subrange(prev, start));
        assert(s.take(end) =~= s.take(prev) + s.subrange(prev, start) + gap);
        lemma_words_add(s.take(prev), s.subrange(prev, start));
        lemma_words_add(s.take(prev) + s.subrange(prev, start), gap);
        lemma_words_blank(gap);
        assert(words_of(all.take(k)) =~= words(s.take(end)));
    }
}

/// Cutting only white space out of a text leaves its words alone.
proof fn lemma_pieces_words(s: Seq<char>, cuts: Seq<(int, int)>)
    requires
        cuts_gaps(s, cuts),
    ensures
        words_of(pieces(s, cuts)) == words(s),
{
    let n = cuts.len() as int;
    let all = pieces(s, cuts);
    let prev = if n == 0 {
        0
    } else {
        cuts[n - 1].1
    };
    lemma_first_words(s, cuts, n);
    assert(all.drop_last() =~= all.take(n));
    assert(all.last() == s.subrange(prev, s.len() as int));
    assert(s =~= s.take(prev) + s.subrange(prev, s.len() as int));
    lemma_words_add(s.take(prev), s.subrange(prev, s.len() as int));
}

/// The clauses of a text have its words.
proof fn lemma_clauses_words(s: Seq<char>)
    ensures
        words_of(clauses(s)) == words(s),
{
    let cuts = mark_gaps(s, CLAUSE_ENDS@, 0);
    lemma_mark_gaps(s, CLAUSE_ENDS@, 0);
    assert forall|k: int| #![trigger cuts[k]] 0 <= k < cuts.len() implies is_blank(
        s.subrange(cuts[k].0, cuts[k].1),
    ) by {
        lemma_space_end(s, cuts[k].0);
        let gap = s.subrange(cuts[k].0, cuts[k].1);
        assert forall|j: int| 0 <= j < gap.len() implies is_space(#[trigger] gap[j]) by {
            assert(gap[j] == s[cuts[k].0 + j]);
        }
    }
    lemma_pieces_words(s, cuts);
    lemma_filter_words(pieces(s, cuts), |p: Seq<char>| p.len() > 0);
}

/// The words of all that has been packed so far.
spec fn words_so_far(packing: Packing) -> Seq<Seq<char>> {
    words_of(texts(packing.finish()))
}

/// Two texts with a space between them have the words of both.
pub proof fn lemma_words_spaced(x: Seq<char>, y: Seq<char>)
    ensures
        words(x.push(' ') + y) == words(x) + words(y),
{
    lemma_words_parted(x, ' ', y, 0);
}

/// Packing a piece adds its words.
proof fn lemma_push_words(packing: Packing, piece: Spoken, joinable: bool)
    ensures
        words_so_far(packing.push(piece, joinable)) == words_so_far(packing) + words(piece.text),
        words_so_far(packing.close()) == words_so_far(packing),
{
    let after = packing.push(piece, joinable);
    match packing.held {
        Some(held) => {
            assert(texts(packing.out.push(held)).drop_last() =~= texts(packing.out));
            if joinable && packing.open && packing.budget.allows(held, piece) {
                let both = held.joined(piece);
                assert(texts(packing.out.push(both)).drop_last() =~= texts(packing.out));
                lemma_words_spaced(held.text, piece.text);
                assert(words_so_far(after) =~= words_so_far(packing) + words(piece.text));
            } else {
                let out = packing.out.push(held);
                assert(texts(out.push(piece)).drop_last() =~= texts(out));
            }
        },
        None => {
            assert(texts(packing.out.push(piece)).drop_last() =~= texts(packing.out));
        },
    }
}

proof fn lemma_clauses_say<E>(
    p: Progress<E>,
    parts: Seq<Seq<char>>,
    i: int,
    joinable: bool,
    replies: Seq<Result<Seq<char>, E>>,
)
    requires
        0 <= i <= parts.len(),
        p.clauses(parts, i, joinable, replies).failed is None,
    ensures
        words_so_far(p.clauses(parts, i, joinable, replies).packing) == words_so_far(p.packing)
            + words_of(parts.skip(i)),
    decreases parts.len() - i,
{
    if i < parts.len() {
        let phonemes = replies[p.asked.len() as int]->Ok_0;
        let piece = Spoken { text: parts[i], phonemes };
        let next = Progress {
            packing: p.packing.push(piece, i > 0 || joinable),
            asked: p.asked.push(parts[i]),
            ..p
        };
        lemma_push_words(p.packing, piece, i > 0 || joinable);
        lemma_clauses_say(next, parts, i + 1, joinable, replies);
        assert(parts.skip(i) =~= seq![parts[i]] + parts.skip(i + 1));
        lemma_words_of_add(seq![parts[i]], parts.skip(i + 1));
        lemma_words_of_one(parts[i]);
        assert(words_so_far(p.clauses(parts, i, joinable, replies).packing) =~= words_so_far(
            p.packing,
        ) + words_of(parts.skip(i)));
    } else {
        assert(parts.skip(i) =~= Seq::empty());
        assert(words_so_far(p.packing) + words_of(parts.skip(i)) =~= words_so_far(p.packing));
    }
}

proof fn lemma_part_says<E>(
    p: Progress<E>,
    text: Seq<char>,
    joinable: bool,
    replies: Seq<Result<Seq<char>, E>>,
)
    requires
        p.part(text, joinable, replies).failed is None,
    ensures
        words_so_far(p.part(text, joinable, replies).packing) == words_so_far(p.packing) + words(
            text,
        ),
{
    let phonemes = replies[p.asked.len() as int]->Ok_0;
    let piece = Spoken { text, phonemes };
    let packing = if phonemes.len() > p.packing.budget.phonemes && p.packing.held is Some {
        p.packing.close()
    } else {
        p.packing
    };
    lemma_push_words(p.packing, piece, joinable);
    if phonemes.len() <= packing.budget.phonemes || clauses(text).len() < 2 {
        lemma_push_words(packing, piece, joinable);
    } else {
        let next = Progress { packing, asked: p.asked.push(text), ..p };
        lemma_clauses_say(next, clauses(text), 0, joinable, replies);
        lemma_clauses_words(text);
        assert(clauses(text).skip(0) =~= clauses(text));
    }
}

proof fn lemma_sentences_say<E>(
    p: Progress<E>,
    list: Seq<Seq<char>>,
    i: int,
    replies: Seq<Result<Seq<char>, E>>,
)
    requires
        0 <= i <= list.len(),
        p.sentences(list, i, replies).failed is None,
        p.packing.budget.chars is None,
        p.packing.rest.chars is None,
    ensures
        words_so_far(p.sentences(list, i, replies).packing) == words_so_far(p.packing) + words_of(
            list.skip(i),
        ),
    decreases list.len() - i,
{
    if i < list.len() {
        let parts = seq![list[i]];
        let next = p.sentence(list[i], replies);
        lemma_sentence_follows(p, list[i], replies);
        lemma_failed(next, list, i + 1, true, replies);
        assert(p.before_sentence(list[i]) == p);
        assert(p.cut(list[i]) =~= parts);
        assert(p.parts(parts, 0, true, replies) == p.part(list[i], true, replies).parts(
            parts,
            1,
            true,
            replies,
        ));
        assert(next == p.part(list[i], true, replies));
        lemma_part_says(p, list[i], true, replies);
        lemma_sentences_say(next, list, i + 1, replies);
        assert(list.skip(i) =~= seq![list[i]] + list.skip(i + 1));
        lemma_words_of_add(seq![list[i]], list.skip(i + 1));
        lemma_words_of_one(list[i]);
        assert(words_so_far(p.sentences(list, i, replies).packing) =~= words_so_far(p.packing)
            + words_of(list.skip(i)));
    } else {
        assert(list.skip(i) =~= Seq::empty());
        assert(words_so_far(p.packing) + words_of(list.skip(i)) =~= words_so_far(p.packing));
    }
}

proof fn lemma_line_words(line: Seq<char>)
    requires
        line_keeps_closers(line),
    ensures
        words_of(line_sentences(line)) == words(line),
{
    let s = trim(line);
    let cuts = breaks(s);
    lemma_breaks_from(s, 0);
    assert forall|k: int| #![trigger cuts[k]] 0 <= k < cuts.len() implies is_blank(
        s.subrange(cuts[k].0, cuts[k].1),
    ) by {
        let gap = s.subrange(cuts[k].0, cuts[k].1);
        lemma_break_at(s, cuts[k].0 - 1);
        assert forall|j: int| 0 <= j < gap.len() implies is_space(#[trigger] gap[j]) by {
            assert(gap[j] == s[cuts[k].0 + j]);
        }
    }
    lemma_pieces_words(s, cuts);
    lemma_filter_words(pieces(s, cuts), |p: Seq<char>| !is_blank(p));
    lemma_map_trim_words(sentences(s));
    lemma_words_trim(line);
}

proof fn lemma_lines_words(s: Seq<char>, i: int)
    requires
        0 <= i <= s.len(),
        lines_keep_closers(s, i),
    ensures
        words_of(sentences_from(s, i)) == words(s.skip(i)),
    decreases s.len() - i,
{
    let end = line_end(s, i);
    lemma_line_end(s, i);
    let line = s.subrange(i, end);
    lemma_line_words(line);
    if end < s.len() {
        lemma_lines_words(s, end + 1);
        lemma_words_of_add(line_sentences(line), sentences_from(s, end + 1));
        assert(s.skip(i) =~= line.push(s[end]) + s.skip(end + 1));
        lemma_words_parted(line, s[end], s.skip(end + 1), 0);
        assert(words_of(sentences_from(s, i)) =~= words(s.skip(i)));
    } else {
        assert(s.skip(i) =~= line);
    }
}

/// Texts with a space between each two have the words of all of them.
pub proof fn lemma_joined_words(list: Seq<Seq<char>>)
    ensures
        words(join(list, seq![' '])) == words_of(list),
    decreases list.len(),
{
    let sep = seq![' '];
    if list.len() == 0 {
        lemma_words_blank(join(list, sep));
    } else if list.len() == 1 {
        assert(list =~= seq![list[0]]);
        lemma_words_of_one(list[0]);
    } else {
        let before = join(list.drop_last(), sep);
        lemma_joined_words(list.drop_last());
        lemma_words_spaced(before, list.last());
        assert(before + sep + list.last() =~= before.push(' ') + list.last());
    }
}

/// Without character caps no word of a text is lost or broken: the words of its chunks,
/// with a space between each two of them, are the words of the text, in order. Only a
/// closing quote or bracket between the end of a sentence and the space after it is
/// dropped, so the text must have none there.
pub proof fn chunks_keep_every_word<E>(
    text: Seq<char>,
    first: Budget,
    rest: Budget,
    replies: Seq<Result<Seq<char>, E>>,
)
    requires
        first.chars is None,
        rest.chars is None,
        lines_keep_closers(trim(text), 0),
    ensures
        chunking(text, first, rest, replies).outcome() matches Ok(chunks) ==> words(
            join(texts(chunks), seq![' ']),
        ) == words(text),
{
    let list = text_sentences(text);
    let start = Progress::<E>::start(first, rest);
    let run = chunking(text, first, rest, replies);
    if run.failed is None {
        lemma_sentences_say(start, list, 0, replies);
        assert(list.skip(0) =~= list);
        assert(texts(start.packing.finish()) =~= Seq::empty());
        assert(words_so_far(start.packing) + words_of(list) =~= words_of(list));
        lemma_lines_words(trim(text), 0);
        assert(trim(text).skip(0) =~= trim(text));
        lemma_words_trim(text);
        lemma_joined_words(texts(run.packing.finish()));
    }
}

} // verus!
