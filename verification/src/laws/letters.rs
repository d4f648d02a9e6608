//! Nothing that is to be spoken is lost on the way.

use vstd::prelude::*;

use crate::chars::{
    is_blank, is_space, lemma_space_end, lemma_space_start, lemma_trim, lemma_word_end, letters,
    space_end, space_start, trim, word_end, words, words_from,
};
use crate::laws::steps::{lemma_failed, lemma_sentence_follows};
use crate::text::chunk::{can_chunk, chunking, Progress};
use crate::text::packer::{Budget, Packing, Spoken};
use crate::text::sentences::{
    breaks, is_closer, lemma_break_at, lemma_breaks_from, lemma_line_end, line_end, line_sentences,
    pieces, sentences, sentences_from, text_sentences,
};
use crate::text::stream::released;
use crate::text::split::{
    break_long, can_break, clauses, cut_every, cut_long, hard_pieces, lemma_mark_gaps, mark_gaps,
    packed, word_pieces, CLAUSE_ENDS,
};

verus! {

/// The letters of a list of texts, one text after the other.
pub open spec fn letters_of(list: Seq<Seq<char>>) -> Seq<char>
    decreases list.len(),
{
    if list.len() == 0 {
        Seq::empty()
    } else {
        letters_of(list.drop_last()) + letters(list.last())
    }
}

/// The texts of a list of chunks.
pub open spec fn texts(list: Seq<Spoken>) -> Seq<Seq<char>> {
    list.map_values(|c: Spoken| c.text)
}

/// Two texts, one after the other, have the letters of both.
pub proof fn lemma_letters_add(a: Seq<char>, b: Seq<char>)
    ensures
        letters(a + b) == letters(a) + letters(b),
{
    Seq::filter_distributes_over_add(a, b, |c: char| !is_space(c));
}

/// A blank text has no letters.
pub proof fn lemma_letters_blank(s: Seq<char>)
    requires
        is_blank(s),
    ensures
        letters(s) == Seq::<char>::empty(),
{
    s.lemma_all_neg_filter_empty(|c: char| !is_space(c));
    assert(letters(s) =~= Seq::empty());
}

/// Two lists, one after the other, have the letters of both.
pub proof fn lemma_letters_of_add(a: Seq<Seq<char>>, b: Seq<Seq<char>>)
    ensures
        letters_of(a + b) == letters_of(a) + letters_of(b),
    decreases b.len(),
{
    if b.len() == 0 {
        assert(a + b =~= a);
        assert(letters_of(a) + letters_of(b) =~= letters_of(a));
    } else {
        assert((a + b).drop_last() =~= a + b.drop_last());
        lemma_letters_of_add(a, b.drop_last());
        assert(letters_of(a + b) =~= letters_of(a) + letters_of(b));
    }
}

/// A list of a single text has its letters.
pub proof fn lemma_letters_of_one(s: Seq<char>)
    ensures
        letters_of(seq![s]) == letters(s),
{
    assert(seq![s].drop_last() =~= Seq::empty());
    assert(letters_of(Seq::<Seq<char>>::empty()) + letters(s) =~= letters(s));
}

/// White space at either end does not count.
pub proof fn lemma_letters_trim(s: Seq<char>)
    ensures
        letters(trim(s)) == letters(s),
{
    let from = space_end(s, 0);
    let to = space_start(s, s.len() as int);
    lemma_trim(s);
    if trim(s).len() == 0 {
        lemma_letters_blank(s);
        lemma_letters_blank(trim(s));
    } else {
        lemma_space_end(s, 0);
        lemma_space_start(s, s.len() as int);
        let head = s.subrange(0, from);
        let tail = s.subrange(to, s.len() as int);
        assert(s =~= head + trim(s) + tail);
        lemma_letters_add(head + trim(s), tail);
        lemma_letters_add(head, trim(s));
        assert forall|k: int| 0 <= k < tail.len() implies is_space(#[trigger] tail[k]) by {
            assert(tail[k] == s[to + k]);
        }
        lemma_letters_blank(head);
        lemma_letters_blank(tail);
        assert(letters(s) =~= letters(trim(s)));
    }
}

/// Leaving blank texts out of a list leaves its letters alone.
proof fn lemma_filter_letters(list: Seq<Seq<char>>, keep: spec_fn(Seq<char>) -> bool)
    requires
        forall|s: Seq<char>| !#[trigger] keep(s) ==> is_blank(s),
    ensures
        letters_of(list.filter(keep)) == letters_of(list),
    decreases list.len(),
{
    reveal(Seq::filter);
    if list.len() > 0 {
        let rest = list.drop_last();
        lemma_filter_letters(rest, keep);
        if keep(list.last()) {
            assert(rest.filter(keep).push(list.last()).drop_last() =~= rest.filter(keep));
        } else {
            lemma_letters_blank(list.last());
            assert(letters_of(list) =~= letters_of(rest));
        }
    }
}

/// Trimming every text of a list leaves its letters alone.
proof fn lemma_map_trim_letters(list: Seq<Seq<char>>)
    ensures
        letters_of(list.map_values(|p: Seq<char>| trim(p))) == letters_of(list),
    decreases list.len(),
{
    let all = list.map_values(|p: Seq<char>| trim(p));
    if list.len() > 0 {
        lemma_map_trim_letters(list.drop_last());
        lemma_letters_trim(list.last());
        assert(all.drop_last() =~= list.drop_last().map_values(|p: Seq<char>| trim(p)));
    }
}

/// Whether `cuts` take only white space out of `s`, in order.
spec fn cuts_spaces(s: Seq<char>, cuts: Seq<(int, int)>) -> bool {
    &&& forall|k: int| #![trigger cuts[k]]
        0 <= k < cuts.len() ==> 0 <= cuts[k].0 <= cuts[k].1 <= s.len() && is_blank(
            s.subrange(cuts[k].0, cuts[k].1),
        )
    &&& forall|k: int, l: int|
        0 <= k < l < cuts.len() ==> (#[trigger] cuts[k]).1 <= (#[trigger] cuts[l]).0
}

/// The first `k` pieces have the letters of the text up to where they end.
proof fn lemma_first_pieces(s: Seq<char>, cuts: Seq<(int, int)>, k: int)
    requires
        cuts_spaces(s, cuts),
        0 <= k <= cuts.len(),
    ensures
        letters_of(pieces(s, cuts).take(k)) == letters(
            s.take(
                if k == 0 {
                    0
                } else {
                    cuts[k - 1].1
                },
            ),
        ),
    decreases k,
{
    let all = pieces(s, cuts);
    if k == 0 {
        assert(all.take(0) =~= Seq::empty());
        lemma_letters_blank(s.take(0));
    } else {
        lemma_first_pieces(s, cuts, k - 1);
        let prev = if k == 1 {
            0
        } else {
            cuts[k - 2].1
        };
        let (start, end) = cuts[k - 1];
        if k > 1 {
            assert(cuts[k - 2].1 <= cuts[k - 1].0);
        }
        assert(all.take(k).drop_last() =~= all.take(k - 1));
        assert(all.take(k).last() == s.subrange(prev, start));
        assert(s.take(end) =~= s.take(prev) + s.subrange(prev, start) + s.subrange(start, end));
        lemma_letters_add(s.take(prev) + s.subrange(prev, start), s.subrange(start, end));
        lemma_letters_add(s.take(prev), s.subrange(prev, start));
        lemma_letters_blank(s.subrange(start, end));
        assert(letters_of(all.take(k)) =~= letters(s.take(end)));
    }
}

/// Cutting only white space out of a text leaves its letters alone.
proof fn lemma_pieces_letters(s: Seq<char>, cuts: Seq<(int, int)>)
    requires
        cuts_spaces(s, cuts),
    ensures
        letters_of(pieces(s, cuts)) == letters(s),
{
    let n = cuts.len() as int;
    let all = pieces(s, cuts);
    let prev = if n == 0 {
        0
    } else {
        cuts[n - 1].1
    };
    lemma_first_pieces(s, cuts, n);
    assert(all.drop_last() =~= all.take(n));
    assert(all.last() == s.subrange(prev, s.len() as int));
    assert(s =~= s.take(prev) + s.subrange(prev, s.len() as int));
    lemma_letters_add(s.take(prev), s.subrange(prev, s.len() as int));
}

/// The clauses of a text have its letters.
pub proof fn lemma_clauses_letters(s: Seq<char>)
    ensures
        letters_of(clauses(s)) == letters(s),
{
    let cuts = mark_gaps(s, CLAUSE_ENDS@, 0);
    lemma_mark_gaps(s, CLAUSE_ENDS@, 0);
    assert forall|k: int| #![trigger cuts[k]] 0 <= k < cuts.len() implies is_blank(
        s.subrange(cuts[k].0, cuts[k].1),
    ) by {
        lemma_space_end(s, cuts[k].0);
        let gap = s.subrange(cuts[k].0, cuts[k].1);
        assert forall|j: int| 0 <= j < gap.len() implies is_space(#[trigger] gap[j]) by {
            assert(gap[j] == s[cuts[k].0 + j]);
        }
    }
    lemma_pieces_letters(s, cuts);
    lemma_filter_letters(pieces(s, cuts), |p: Seq<char>| p.len() > 0);
}

/// The words of a text from `i` on have its letters from there on.
proof fn lemma_words_from_letters(s: Seq<char>, i: int)
    requires
        0 <= i <= s.len(),
    ensures
        letters_of(words_from(s, i)) == letters(s.skip(i)),
    decreases s.len() - i,
{
    let from = space_end(s, i);
    lemma_space_end(s, i);
    let gap = s.subrange(i, from);
    assert forall|j: int| 0 <= j < gap.len() implies is_space(#[trigger] gap[j]) by {
        assert(gap[j] == s[i + j]);
    }
    lemma_letters_blank(gap);
    if from < s.len() {
        let to = word_end(s, from);
        lemma_word_end(s, from);
        lemma_words_from_letters(s, to);
        let word = s.subrange(from, to);
        assert(s.skip(i) =~= gap + (word + s.skip(to)));
        lemma_letters_add(gap, word + s.skip(to));
        lemma_letters_add(word, s.skip(to));
        lemma_letters_of_add(seq![word], words_from(s, to));
        lemma_letters_of_one(word);
        assert(letters_of(words_from(s, i)) =~= letters(s.skip(i)));
    } else {
        assert(s.skip(i) =~= gap);
    }
}

/// The words of a text have its letters.
pub proof fn lemma_words_letters(s: Seq<char>)
    ensures
        letters_of(words(s)) == letters(s),
{
    lemma_words_from_letters(s, 0);
    assert(s.skip(0) =~= s);
}

/// Packing parts leaves their letters alone: all it adds is a space between two
/// of them.
pub proof fn lemma_packed_letters(parts: Seq<Seq<char>>, limit: int, held: Seq<char>, i: int)
    requires
        0 <= i <= parts.len(),
    ensures
        letters_of(packed(parts, limit, held, i)) == letters(held) + letters_of(parts.skip(i)),
    decreases parts.len() - i,
{
    if i < parts.len() {
        let part = parts[i];
        assert(parts.skip(i) =~= seq![part] + parts.skip(i + 1));
        lemma_letters_of_add(seq![part], parts.skip(i + 1));
        lemma_letters_of_one(part);
        if held.len() == 0 {
            lemma_packed_letters(parts, limit, part, i + 1);
            lemma_letters_blank(held);
        } else if held.len() + 1 + part.len() > limit {
            lemma_packed_letters(parts, limit, part, i + 1);
            lemma_letters_of_add(seq![held], packed(parts, limit, part, i + 1));
            lemma_letters_of_one(held);
        } else {
            lemma_packed_letters(parts, limit, held.push(' ') + part, i + 1);
            lemma_letters_add(held.push(' '), part);
            lemma_letters_push_space(held);
        }
        assert(letters_of(packed(parts, limit, held, i)) =~= letters(held) + letters_of(
            parts.skip(i),
        ));
    } else {
        assert(parts.skip(i) =~= Seq::empty());
        if held.len() == 0 {
            lemma_letters_blank(held);
        } else {
            lemma_letters_of_one(held);
        }
        assert(letters_of(packed(parts, limit, held, i)) =~= letters(held) + letters_of(
            parts.skip(i),
        ));
    }
}

/// A space at the end does not count.
pub proof fn lemma_letters_push_space(s: Seq<char>)
    ensures
        letters(s.push(' ')) == letters(s),
{
    assert(s.push(' ') =~= s + seq![' ']);
    lemma_letters_add(s, seq![' ']);
    lemma_letters_blank(seq![' ']);
    assert(letters(s.push(' ')) =~= letters(s));
}

/// Cutting a text every so many characters leaves its letters alone.
pub proof fn lemma_cut_every_letters(s: Seq<char>, limit: int)
    requires
        limit > 0,
    ensures
        letters_of(cut_every(s, limit)) == letters(s),
    decreases s.len(),
{
    if s.len() == 0 {
        lemma_letters_blank(s);
    } else if s.len() <= limit {
        lemma_letters_of_one(s);
    } else {
        lemma_cut_every_letters(s.skip(limit), limit);
        lemma_letters_of_add(seq![s.take(limit)], cut_every(s.skip(limit), limit));
        lemma_letters_of_one(s.take(limit));
        assert(s =~= s.take(limit) + s.skip(limit));
        lemma_letters_add(s.take(limit), s.skip(limit));
    }
}

proof fn lemma_cut_long_letters(list: Seq<Seq<char>>, limit: int)
    ensures
        letters_of(cut_long(list, limit)) == letters_of(list),
    decreases list.len(),
{
    if list.len() > 0 {
        let less = cut_long(list.drop_last(), limit);
        lemma_cut_long_letters(list.drop_last(), limit);
        if list.last().len() <= limit || limit <= 0 {
            lemma_letters_of_one(list.last());
            lemma_letters_of_add(less, seq![list.last()]);
            assert(less.push(list.last()) =~= less + seq![list.last()]);
        } else {
            lemma_cut_every_letters(list.last(), limit);
            lemma_letters_of_add(less, cut_every(list.last(), limit));
        }
    }
}

proof fn lemma_word_pieces_letters(s: Seq<char>, limit: int)
    requires
        limit > 0 || s.len() == 0 || words(s).len() >= 2,
    ensures
        letters_of(word_pieces(s, limit)) == letters(s),
{
    if s.len() <= limit {
        lemma_letters_of_one(s);
    } else if words(s).len() >= 2 {
        let list = packed(words(s), limit, Seq::empty(), 0);
        lemma_packed_letters(words(s), limit, Seq::empty(), 0);
        lemma_words_letters(s);
        assert(words(s).skip(0) =~= words(s));
        lemma_letters_blank(Seq::empty());
        lemma_cut_long_letters(list, limit);
        assert(letters_of(list) =~= letters(s));
    } else if limit > 0 {
        lemma_cut_every_letters(s, limit);
    } else {
        lemma_letters_blank(s);
    }
}

proof fn lemma_break_long_letters(list: Seq<Seq<char>>, limit: int)
    ensures
        letters_of(break_long(list, limit)) == letters_of(list),
    decreases list.len(),
{
    if list.len() > 0 {
        let less = break_long(list.drop_last(), limit);
        lemma_break_long_letters(list.drop_last(), limit);
        if list.last().len() <= limit || limit <= 0 {
            lemma_letters_of_one(list.last());
            lemma_letters_of_add(less, seq![list.last()]);
            assert(less.push(list.last()) =~= less + seq![list.last()]);
        } else {
            lemma_word_pieces_letters(list.last(), limit);
            lemma_letters_of_add(less, word_pieces(list.last(), limit));
        }
    }
}

/// Breaking up a sentence loses none of its letters, whatever the limit.
pub proof fn hard_pieces_keep_letters(s: Seq<char>, limit: int)
    requires
        can_break(s, limit),
    ensures
        letters_of(hard_pieces(s, limit)) == letters(s),
{
    if s.len() <= limit {
        lemma_letters_of_one(s);
    } else if clauses(s).len() >= 2 {
        let list = packed(clauses(s), limit, Seq::empty(), 0);
        lemma_packed_letters(clauses(s), limit, Seq::empty(), 0);
        lemma_clauses_letters(s);
        assert(clauses(s).skip(0) =~= clauses(s));
        lemma_letters_blank(Seq::empty());
        lemma_break_long_letters(list, limit);
        assert(letters_of(list) =~= letters(s));
    } else {
        lemma_word_pieces_letters(s, limit);
    }
}

/// The letters of all that has been packed so far.
pub open spec fn packed_so_far(packing: Packing) -> Seq<char> {
    letters_of(texts(packing.finish()))
}

/// Finishing a chunk leaves what is packed alone.
proof fn lemma_close_letters(packing: Packing)
    ensures
        packed_so_far(packing.close()) == packed_so_far(packing),
{
}

/// Packing a piece adds its letters.
proof fn lemma_push_letters(packing: Packing, piece: Spoken, joinable: bool)
    ensures
        packed_so_far(packing.push(piece, joinable)) == packed_so_far(packing) + letters(
            piece.text,
        ),
{
    let after = packing.push(piece, joinable);
    match packing.held {
        Some(held) => {
            assert(texts(packing.out.push(held)).drop_last() =~= texts(packing.out));
            if joinable && packing.open && packing.budget.allows(held, piece) {
                let both = held.joined(piece);
                assert(texts(packing.out.push(both)).drop_last() =~= texts(packing.out));
                lemma_letters_add(held.text.push(' '), piece.text);
                lemma_letters_push_space(held.text);
                assert(packed_so_far(after) =~= packed_so_far(packing) + letters(piece.text));
            } else {
                let out = packing.out.push(held);
                assert(texts(out.push(piece)).drop_last() =~= texts(out));
            }
        },
        None => {
            assert(texts(packing.out.push(piece)).drop_last() =~= texts(packing.out));
        },
    }
}

proof fn lemma_clauses_step<E>(
    p: Progress<E>,
    parts: Seq<Seq<char>>,
    i: int,
    joinable: bool,
    replies: Seq<Result<Seq<char>, E>>,
)
    requires
        0 <= i <= parts.len(),
        p.clauses(parts, i, joinable, replies).failed is None,
    ensures
        packed_so_far(p.clauses(parts, i, joinable, replies).packing) == packed_so_far(p.packing)
            + letters_of(parts.skip(i)),
    decreases parts.len() - i,
{
    if i < parts.len() {
        let phonemes = replies[p.asked.len() as int]->Ok_0;
        let piece = Spoken { text: parts[i], phonemes };
        let next = Progress {
            packing: p.packing.push(piece, i > 0 || joinable),
            asked: p.asked.push(parts[i]),
            ..p
        };
        lemma_push_letters(p.packing, piece, i > 0 || joinable);
        lemma_clauses_step(next, parts, i + 1, joinable, replies);
        assert(parts.skip(i) =~= seq![parts[i]] + parts.skip(i + 1));
        lemma_letters_of_add(seq![parts[i]], parts.skip(i + 1));
        lemma_letters_of_one(parts[i]);
        assert(packed_so_far(p.clauses(parts, i, joinable, replies).packing) =~= packed_so_far(
            p.packing,
        ) + letters_of(parts.skip(i)));
    } else {
        assert(parts.skip(i) =~= Seq::empty());
        assert(packed_so_far(p.packing) + letters_of(parts.skip(i)) =~= packed_so_far(p.packing));
    }
}

proof fn lemma_part_step<E>(
    p: Progress<E>,
    text: Seq<char>,
    joinable: bool,
    replies: Seq<Result<Seq<char>, E>>,
)
    requires
        p.part(text, joinable, replies).failed is None,
    ensures
        packed_so_far(p.part(text, joinable, replies).packing) == packed_so_far(p.packing)
            + letters(text),
{
    let phonemes = replies[p.asked.len() as int]->Ok_0;
    let packing = if phonemes.len() > p.packing.budget.phonemes && p.packing.held is Some {
        p.packing.close()
    } else {
        p.packing
    };
    lemma_close_letters(p.packing);
    if phonemes.len() <= packing.budget.phonemes || clauses(text).len() < 2 {
        lemma_push_letters(packing, Spoken { text, phonemes }, joinable);
    } else {
        let next = Progress { packing, asked: p.asked.push(text), ..p };
        lemma_clauses_step(next, clauses(text), 0, joinable, replies);
        lemma_clauses_letters(text);
        assert(clauses(text).skip(0) =~= clauses(text));
    }
}

proof fn lemma_parts_step<E>(
    p: Progress<E>,
    parts: Seq<Seq<char>>,
    i: int,
    joinable: bool,
    replies: Seq<Result<Seq<char>, E>>,
)
    requires
        0 <= i <= parts.len(),
        p.parts(parts, i, joinable, replies).failed is None,
    ensures
        packed_so_far(p.parts(parts, i, joinable, replies).packing) == packed_so_far(p.packing)
            + letters_of(parts.skip(i)),
    decreases parts.len() - i,
{
    if i < parts.len() {
        let next = p.part(parts[i], joinable, replies);
        lemma_failed(next, parts, i + 1, joinable, replies);
        lemma_part_step(p, parts[i], joinable, replies);
        lemma_parts_step(next, parts, i + 1, joinable, replies);
        assert(parts.skip(i) =~= seq![parts[i]] + parts.skip(i + 1));
        lemma_letters_of_add(seq![parts[i]], parts.skip(i + 1));
        lemma_letters_of_one(parts[i]);
        assert(packed_so_far(p.parts(parts, i, joinable, replies).packing) =~= packed_so_far(
            p.packing,
        ) + letters_of(parts.skip(i)));
    } else {
        assert(parts.skip(i) =~= Seq::empty());
        assert(packed_so_far(p.packing) + letters_of(parts.skip(i)) =~= packed_so_far(p.packing));
    }
}

proof fn lemma_sentences_step<E>(
    p: Progress<E>,
    list: Seq<Seq<char>>,
    i: int,
    replies: Seq<Result<Seq<char>, E>>,
    first: Budget,
    rest: Budget,
)
    requires
        0 <= i <= list.len(),
        p.sentences(list, i, replies).failed is None,
        p.packing.rest == rest,
        p.packing.budget == first || p.packing.budget == rest,
        forall|k: int| #![trigger list[k]]
            0 <= k < list.len() ==> {
                &&& first.chars matches Some(cap) ==> can_break(list[k], cap as int)
                &&& rest.chars matches Some(cap) ==> can_break(list[k], cap as int)
            },
    ensures
        packed_so_far(p.sentences(list, i, replies).packing) == packed_so_far(p.packing)
            + letters_of(list.skip(i)),
    decreases list.len() - i,
{
    if i < list.len() {
        let ready = p.before_sentence(list[i]);
        let parts = ready.cut(list[i]);
        let next = p.sentence(list[i], replies);
        lemma_sentence_follows(p, list[i], replies);
        lemma_failed(next, list, i + 1, true, replies);
        lemma_close_letters(p.packing);
        lemma_parts_step(ready, parts, 0, parts.len() == 1, replies);
        assert(parts.skip(0) =~= parts);
        match ready.packing.budget.chars {
            Some(cap) => {
                hard_pieces_keep_letters(list[i], cap as int);
            },
            None => {
                lemma_letters_of_one(list[i]);
            },
        }
        lemma_sentences_step(next, list, i + 1, replies, first, rest);
        assert(list.skip(i) =~= seq![list[i]] + list.skip(i + 1));
        lemma_letters_of_add(seq![list[i]], list.skip(i + 1));
        lemma_letters_of_one(list[i]);
        assert(packed_so_far(p.sentences(list, i, replies).packing) =~= packed_so_far(p.packing)
            + letters_of(list.skip(i)));
    } else {
        assert(list.skip(i) =~= Seq::empty());
        assert(packed_so_far(p.packing) + letters_of(list.skip(i)) =~= packed_so_far(p.packing));
    }
}

/// The chunks of a text hold the letters of its sentences, all of them and in
/// order, whatever the phonemiser answers and whatever the budgets are: packing
/// and breaking up sentences only ever adds or takes out white space.
pub proof fn chunks_keep_the_letters_of_sentences<E>(
    text: Seq<char>,
    first: Budget,
    rest: Budget,
    replies: Seq<Result<Seq<char>, E>>,
)
    requires
        can_chunk(text, first, rest),
    ensures
        chunking(text, first, rest, replies).outcome() matches Ok(chunks) ==> letters_of(
            texts(chunks),
        ) == letters_of(text_sentences(text)),
{
    let list = text_sentences(text);
    let start = Progress::<E>::start(first, rest);
    if chunking(text, first, rest, replies).failed is None {
        lemma_sentences_step(start, list, 0, replies, first, rest);
        assert(list.skip(0) =~= list);
        assert(texts(start.packing.finish()) =~= Seq::empty());
        assert(packed_so_far(start.packing) + letters_of(list) =~= letters_of(list));
    }
}

/// Whether no sentence boundary of `line` takes a closing quote or bracket with
/// it.
pub open spec fn line_keeps_closers(line: Seq<char>) -> bool {
    let s = trim(line);
    forall|k: int| #![trigger breaks(s)[k]] 0 <= k < breaks(s).len() ==> !is_closer(s[breaks(s)[k].0])
}

/// Whether no sentence boundary of the lines of `s` from `i` on takes a closing
/// quote or bracket with it.
pub open spec fn lines_keep_closers(s: Seq<char>, i: int) -> bool
    decreases s.len() - i,
    via lines_decrease
{
    if 0 <= i <= s.len() {
        let end = line_end(s, i);
        &&& line_keeps_closers(s.subrange(i, end))
        &&& end < s.len() ==> lines_keep_closers(s, end + 1)
    } else {
        true
    }
}

#[via_fn]
proof fn lines_decrease(s: Seq<char>, i: int) {
    if 0 <= i <= s.len() {
        lemma_line_end(s, i);
    }
}

proof fn lemma_line_letters(line: Seq<char>)
    requires
        line_keeps_closers(line),
    ensures
        letters_of(line_sentences(line)) == letters(line),
{
    let s = trim(line);
    let cuts = breaks(s);
    lemma_breaks_from(s, 0);
    assert forall|k: int| #![trigger cuts[k]] 0 <= k < cuts.len() implies is_blank(
        s.subrange(cuts[k].0, cuts[k].1),
    ) by {
        let gap = s.subrange(cuts[k].0, cuts[k].1);
        lemma_break_at(s, cuts[k].0 - 1);
        assert forall|j: int| 0 <= j < gap.len() implies is_space(#[trigger] gap[j]) by {
            assert(gap[j] == s[cuts[k].0 + j]);
        }
    }
    lemma_pieces_letters(s, cuts);
    lemma_filter_letters(pieces(s, cuts), |p: Seq<char>| !is_blank(p));
    lemma_map_trim_letters(sentences(s));
    lemma_letters_trim(line);
}

proof fn lemma_lines_letters(s: Seq<char>, i: int)
    requires
        0 <= i <= s.len(),
        lines_keep_closers(s, i),
    ensures
        letters_of(sentences_from(s, i)) == letters(s.skip(i)),
    decreases s.len() - i,
{
    let end = line_end(s, i);
    lemma_line_end(s, i);
    let line = s.subrange(i, end);
    lemma_line_letters(line);
    if end < s.len() {
        lemma_lines_letters(s, end + 1);
        lemma_letters_of_add(line_sentences(line), sentences_from(s, end + 1));
        let newline = s.subrange(end, end + 1);
        assert(s.skip(i) =~= line + newline + s.skip(end + 1));
        lemma_letters_add(line + newline, s.skip(end + 1));
        lemma_letters_add(line, newline);
        lemma_letters_blank(newline);
        assert(letters_of(sentences_from(s, i)) =~= letters(s.skip(i)));
    } else {
        assert(s.skip(i) =~= line);
    }
}

/// Nothing of a text is lost: its chunks hold all its letters, in order. Only a
/// closing quote or bracket between the end of a sentence and the space after it
/// is dropped, together with that space, so the text must have none there.
pub proof fn chunks_keep_every_letter<E>(
    text: Seq<char>,
    first: Budget,
    rest: Budget,
    replies: Seq<Result<Seq<char>, E>>,
)
    requires
        can_chunk(text, first, rest),
        lines_keep_closers(trim(text), 0),
    ensures
        chunking(text, first, rest, replies).outcome() matches Ok(chunks) ==> letters_of(
            texts(chunks),
        ) == letters(text),
{
    chunks_keep_the_letters_of_sentences(text, first, rest, replies);
    lemma_lines_letters(trim(text), 0);
    assert(trim(text).skip(0) =~= trim(text));
    lemma_letters_trim(text);
}

/// Nothing of a stream is lost: what is released and what is held back have all
/// the letters of what was pending, in order. Again only a closing quote or
/// bracket at the boundary is dropped.
pub proof fn releasing_keeps_every_letter(pending: Seq<char>, budget: Budget)
    requires
        breaks(pending).len() > 0 ==> !is_closer(pending[breaks(pending).last().0]),
    ensures
        released(pending, budget) matches Some((text, left)) ==> letters(text) + letters(left)
            == letters(pending),
{
    if breaks(pending).len() > 0 {
        let (start, end) = breaks(pending).last();
        lemma_breaks_from(pending, 0);
        lemma_break_at(pending, start - 1);
        let head = pending.subrange(0, start);
        let gap = pending.subrange(start, end);
        assert forall|j: int| 0 <= j < gap.len() implies is_space(#[trigger] gap[j]) by {
            assert(gap[j] == pending[start + j]);
        }
        assert(pending =~= head + gap + pending.skip(end));
        lemma_letters_add(head + gap, pending.skip(end));
        lemma_letters_add(head, gap);
        lemma_letters_blank(gap);
        assert(letters(head) + letters(pending.skip(end)) =~= letters(pending));
    } else {
        lemma_letters_blank(Seq::empty());
        assert(letters(pending) + letters(Seq::<char>::empty()) =~= letters(pending));
    }
}

/// What a stream has handed over to be split, and what it holds back, once it was fed
/// `pieces`; `budgets` are those in force at each of them.
pub open spec fn streamed(pieces: Seq<Seq<char>>, budgets: Seq<Budget>) -> (
    Seq<Seq<char>>,
    Seq<char>,
)
    decreases pieces.len(),
{
    if pieces.len() == 0 {
        (Seq::empty(), Seq::empty())
    } else {
        let (out, held) = streamed(pieces.drop_last(), budgets);
        let pending = held + pieces.last();
        match released(pending, budgets[pieces.len() - 1]) {
            Some((text, left)) => (out.push(text), left),
            None => (out, pending),
        }
    }
}

/// Whether the last sentence boundary of a stream never takes a closing quote or
/// bracket with it, while it is fed `pieces`.
pub open spec fn stream_keeps_closers(pieces: Seq<Seq<char>>, budgets: Seq<Budget>) -> bool
    decreases pieces.len(),
{
    pieces.len() > 0 ==> {
        let pending = streamed(pieces.drop_last(), budgets).1 + pieces.last();
        &&& stream_keeps_closers(pieces.drop_last(), budgets)
        &&& breaks(pending).len() > 0 ==> !is_closer(pending[breaks(pending).last().0])
    }
}

/// However a text arrives, a stream neither loses nor repeats any of it: what it has
/// handed over and what it holds back have the letters of all it was fed, in order.
pub proof fn streams_keep_every_letter(pieces: Seq<Seq<char>>, budgets: Seq<Budget>)
    requires
        stream_keeps_closers(pieces, budgets),
    ensures
        letters_of(streamed(pieces, budgets).0) + letters(streamed(pieces, budgets).1)
            == letters_of(pieces),
    decreases pieces.len(),
{
    if pieces.len() == 0 {
        lemma_letters_blank(Seq::empty());
        assert(letters_of(streamed(pieces, budgets).0) + letters(streamed(pieces, budgets).1)
            =~= letters_of(pieces));
    } else {
        let piece = pieces.last();
        let budget = budgets[pieces.len() - 1];
        let (out, held) = streamed(pieces.drop_last(), budgets);
        let pending = held + piece;
        streams_keep_every_letter(pieces.drop_last(), budgets);
        lemma_letters_add(held, piece);
        releasing_keeps_every_letter(pending, budget);
        assert(letters_of(out) + (letters(held) + letters(piece)) =~= letters_of(out) + letters(
            held,
        ) + letters(piece));
        if let Some((text, left)) = released(pending, budget) {
            lemma_letters_of_one(text);
            lemma_letters_of_add(out, seq![text]);
            assert(out.push(text) =~= out + seq![text]);
            assert(letters_of(out) + letters(text) + letters(left) =~= letters_of(out) + (letters(
                text,
            ) + letters(left)));
        }
    }
}

} // verus!
