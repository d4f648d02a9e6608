//! What sentences, clauses and chunks look like.

use vstd::prelude::*;

use crate::chars::{
    is_blank, is_space, lemma_space_end, lemma_trim, lemma_word_end, space_end, space_start, trim,
    trim_end, word_end, words, words_from,
};
use crate::laws::budget::lemma_words_solid;
use crate::laws::steps::lemma_parts_follow;
use crate::text::chunk::{can_chunk, chunking, Progress};
use crate::text::packer::{Budget, Packing, Spoken};
use crate::text::sentences::{
    break_at, breaks, ends_on_terminal, lemma_break_at, lemma_breaks_from, lemma_line_end,
    line_end, line_sentences, pieces, sentences_from, text_sentences,
};
use crate::text::split::{
    break_long, clauses, cut_every, cut_long, hard_pieces, lemma_mark_gaps, mark_gaps, packed,
    word_pieces, CLAUSE_ENDS,
};

verus! {

/// Whether `s` holds something, and neither starts nor ends with white space.
pub open spec fn solid(s: Seq<char>) -> bool {
    s.len() > 0 && !is_space(s[0]) && !is_space(s.last())
}

/// Whether all of `list` is solid.
pub open spec fn all_solid(list: Seq<Seq<char>>) -> bool {
    forall|k: int| 0 <= k < list.len() ==> solid(#[trigger] list[k])
}

/// A list of which everything is kept stays as it is.
proof fn lemma_filter_all(list: Seq<Seq<char>>, keep: spec_fn(Seq<char>) -> bool)
    requires
        forall|k: int| 0 <= k < list.len() ==> keep(#[trigger] list[k]),
    ensures
        list.filter(keep) == list,
    decreases list.len(),
{
    reveal(Seq::filter);
    if list.len() > 0 {
        lemma_filter_all(list.drop_last(), keep);
        assert(list.drop_last().push(list.last()) =~= list);
    }
}

/// The clauses of a solid text are solid. The first one starts as the text does,
/// the last one ends as it does, and each other one ends with a clause mark.
pub proof fn clauses_are_solid(s: Seq<char>)
    requires
        solid(s),
    ensures
        clauses(s).len() > 0,
        all_solid(clauses(s)),
        clauses(s)[0][0] == s[0],
        clauses(s).last().last() == s.last(),
        forall|k: int|
            0 <= k < clauses(s).len() - 1 ==> CLAUSE_ENDS@.contains(
                (#[trigger] clauses(s)[k]).last(),
            ),
{
    let gaps = mark_gaps(s, CLAUSE_ENDS@, 0);
    let all = pieces(s, gaps);
    let keep = |p: Seq<char>| p.len() > 0;
    lemma_mark_gaps(s, CLAUSE_ENDS@, 0);
    assert(!CLAUSE_ENDS@.contains(' '));
    assert forall|k: int| 0 <= k < all.len() implies {
        &&& solid(#[trigger] all[k])
        &&& k < gaps.len() ==> CLAUSE_ENDS@.contains(all[k].last())
        &&& k == gaps.len() ==> all[k].last() == s.last()
    } by {
        if k > 0 {
            lemma_space_end(s, gaps[k - 1].0);
            assert(gaps[k - 1].1 == space_end(s, gaps[k - 1].0));
            assert(gaps[k - 1].0 < gaps[k - 1].1 <= s.len());
            if gaps[k - 1].1 == s.len() {
                assert(is_space(s[s.len() - 1]));
            }
        }
        if k < gaps.len() {
            let mark = s[gaps[k].0 - 1];
            assert(CLAUSE_ENDS@.contains(mark));
            assert(!is_space(mark));
            if k > 0 {
                assert(gaps[k - 1].1 < gaps[k].0);
            }
        }
    }
    lemma_filter_all(all, keep);
}

/// A solid text of a single word has no white space in it.
proof fn lemma_one_word(s: Seq<char>)
    requires
        solid(s),
        words(s).len() < 2,
    ensures
        forall|k: int| 0 <= k < s.len() ==> !is_space(#[trigger] s[k]),
{
    lemma_space_end(s, 0);
    assert(space_end(s, 0) == 0);
    let end = word_end(s, 0);
    lemma_word_end(s, 0);
    if end < s.len() {
        lemma_space_end(s, end);
        let from = space_end(s, end);
        if from == s.len() {
            assert(is_space(s[s.len() - 1]));
        }
        assert(words_from(s, end).len() > 0);
        assert(words(s) == seq![s.subrange(0, end)] + words_from(s, end));
    }
}

/// Packing solid parts gives solid pieces, of which the first starts and the
/// last ends as the parts do.
pub proof fn lemma_packed_solid(parts: Seq<Seq<char>>, limit: int, held: Seq<char>, i: int)
    requires
        0 <= i <= parts.len(),
        all_solid(parts),
        held.len() == 0 || solid(held),
        held.len() > 0 || i < parts.len(),
    ensures
        packed(parts, limit, held, i).len() > 0,
        all_solid(packed(parts, limit, held, i)),
        packed(parts, limit, held, i)[0][0] == if held.len() > 0 {
            held[0]
        } else {
            parts[i][0]
        },
        packed(parts, limit, held, i).last().last() == if i < parts.len() {
            parts.last().last()
        } else {
            held.last()
        },
    decreases parts.len() - i,
{
    if i < parts.len() {
        if held.len() == 0 {
            lemma_packed_solid(parts, limit, parts[i], i + 1);
        } else if held.len() + 1 + parts[i].len() > limit {
            lemma_packed_solid(parts, limit, parts[i], i + 1);
            let rest = packed(parts, limit, parts[i], i + 1);
            let all = packed(parts, limit, held, i);
            assert forall|k: int| 0 <= k < all.len() implies solid(#[trigger] all[k]) by {
                if k > 0 {
                    assert(all[k] == rest[k - 1]);
                }
            }
            assert(all.last() == rest.last());
        } else {
            let joined = held.push(' ') + parts[i];
            assert(joined.last() == parts[i].last());
            lemma_packed_solid(parts, limit, joined, i + 1);
        }
    }
}

/// Cutting a word leaves words, the ends of which are its own.
pub proof fn lemma_cut_solid(s: Seq<char>, limit: int)
    requires
        s.len() > 0,
        limit > 0,
        forall|k: int| 0 <= k < s.len() ==> !is_space(#[trigger] s[k]),
    ensures
        cut_every(s, limit).len() > 0,
        all_solid(cut_every(s, limit)),
        cut_every(s, limit)[0][0] == s[0],
        cut_every(s, limit).last().last() == s.last(),
    decreases s.len(),
{
    if s.len() > limit {
        let rest = cut_every(s.skip(limit), limit);
        lemma_cut_solid(s.skip(limit), limit);
        let all = cut_every(s, limit);
        assert forall|k: int| 0 <= k < all.len() implies solid(#[trigger] all[k]) by {
            if k > 0 {
                assert(all[k] == rest[k - 1]);
            }
        }
        assert(all.last() == rest.last());
    }
}

/// Whether `s` is a single word: there is something in it, and no white space.
pub open spec fn is_word(s: Seq<char>) -> bool {
    s.len() > 0 && forall|k: int| 0 <= k < s.len() ==> !is_space(#[trigger] s[k])
}

/// Packing words leaves only single words over the limit.
proof fn lemma_packed_words(parts: Seq<Seq<char>>, limit: int, held: Seq<char>, i: int)
    requires
        0 <= i <= parts.len(),
        forall|k: int| 0 <= k < parts.len() ==> is_word(#[trigger] parts[k]),
        held.len() <= limit || is_word(held),
    ensures
        forall|k: int| #![trigger packed(parts, limit, held, i)[k]]
            0 <= k < packed(parts, limit, held, i).len() ==> packed(
                parts,
                limit,
                held,
                i,
            )[k].len() <= limit || is_word(packed(parts, limit, held, i)[k]),
    decreases parts.len() - i,
{
    if i < parts.len() {
        if held.len() == 0 {
            lemma_packed_words(parts, limit, parts[i], i + 1);
            assert(packed(parts, limit, held, i) == packed(parts, limit, parts[i], i + 1));
        } else if held.len() + 1 + parts[i].len() > limit {
            lemma_packed_words(parts, limit, parts[i], i + 1);
            let rest = packed(parts, limit, parts[i], i + 1);
            let all = packed(parts, limit, held, i);
            assert forall|k: int| #![trigger all[k]] 0 <= k < all.len() implies all[k].len()
                <= limit || is_word(all[k]) by {
                if k > 0 {
                    assert(all[k] == rest[k - 1]);
                }
            }
        } else {
            let joined = held.push(' ') + parts[i];
            lemma_packed_words(parts, limit, joined, i + 1);
            assert(packed(parts, limit, held, i) == packed(parts, limit, joined, i + 1));
        }
    }
}

/// Two lists of solid texts, one after the other.
proof fn lemma_all_solid_add(a: Seq<Seq<char>>, b: Seq<Seq<char>>)
    requires
        all_solid(a),
        all_solid(b),
    ensures
        all_solid(a + b),
{
}

/// Cutting the words over the limit keeps the ends of the list.
proof fn lemma_cut_long_solid(list: Seq<Seq<char>>, limit: int)
    requires
        limit > 0,
        list.len() > 0,
        all_solid(list),
        forall|k: int|
            0 <= k < list.len() ==> (#[trigger] list[k]).len() <= limit || is_word(list[k]),
    ensures
        cut_long(list, limit).len() > 0,
        all_solid(cut_long(list, limit)),
        cut_long(list, limit)[0][0] == list[0][0],
        cut_long(list, limit).last().last() == list.last().last(),
    decreases list.len(),
{
    let less = cut_long(list.drop_last(), limit);
    if list.len() > 1 {
        lemma_cut_long_solid(list.drop_last(), limit);
    } else {
        assert(less.len() == 0);
    }
    assert(solid(list[list.len() - 1]));
    let added = if list.last().len() <= limit {
        seq![list.last()]
    } else {
        assert(is_word(list[list.len() - 1]));
        lemma_cut_solid(list.last(), limit);
        cut_every(list.last(), limit)
    };
    assert(cut_long(list, limit) =~= less + added);
    lemma_all_solid_add(less, added);
}

/// The pieces that a solid text is broken into between its words are solid.
proof fn lemma_word_pieces_solid(s: Seq<char>, limit: int)
    requires
        solid(s),
        limit > 0,
    ensures
        word_pieces(s, limit).len() > 0,
        all_solid(word_pieces(s, limit)),
        word_pieces(s, limit)[0][0] == s[0],
        word_pieces(s, limit).last().last() == s.last(),
{
    if s.len() > limit {
        if words(s).len() >= 2 {
            lemma_words_ends(s, 0);
            lemma_words_solid(s, 0);
            assert forall|k: int| 0 <= k < words(s).len() implies is_word(
                #[trigger] words(s)[k],
            ) by {
                assert(words_from(s, 0)[k].len() > 0);
                assert forall|j: int| 0 <= j < words(s)[k].len() implies !is_space(
                    #[trigger] words(s)[k][j],
                ) by {
                    assert(!is_space(words_from(s, 0)[k][j]));
                }
            }
            lemma_packed_solid(words(s), limit, Seq::empty(), 0);
            lemma_packed_words(words(s), limit, Seq::empty(), 0);
            lemma_cut_long_solid(packed(words(s), limit, Seq::empty(), 0), limit);
        } else {
            lemma_one_word(s);
            lemma_cut_solid(s, limit);
        }
    }
}

proof fn lemma_break_long_solid(list: Seq<Seq<char>>, limit: int)
    requires
        limit > 0,
        list.len() > 0,
        all_solid(list),
    ensures
        break_long(list, limit).len() > 0,
        all_solid(break_long(list, limit)),
        break_long(list, limit)[0][0] == list[0][0],
        break_long(list, limit).last().last() == list.last().last(),
    decreases list.len(),
{
    let less = break_long(list.drop_last(), limit);
    if list.len() > 1 {
        lemma_break_long_solid(list.drop_last(), limit);
    } else {
        assert(less.len() == 0);
    }
    assert(solid(list[list.len() - 1]));
    let added = if list.last().len() <= limit {
        seq![list.last()]
    } else {
        lemma_word_pieces_solid(list.last(), limit);
        word_pieces(list.last(), limit)
    };
    assert(break_long(list, limit) =~= less + added);
    lemma_all_solid_add(less, added);
}

/// The pieces that a solid sentence is broken into are solid. The first one
/// starts, and the last one ends, as the sentence does.
pub proof fn hard_pieces_are_solid(s: Seq<char>, limit: int)
    requires
        solid(s),
        limit > 0,
    ensures
        hard_pieces(s, limit).len() > 0,
        all_solid(hard_pieces(s, limit)),
        hard_pieces(s, limit)[0][0] == s[0],
        hard_pieces(s, limit).last().last() == s.last(),
{
    if s.len() > limit {
        clauses_are_solid(s);
        if clauses(s).len() >= 2 {
            lemma_packed_solid(clauses(s), limit, Seq::empty(), 0);
            lemma_break_long_solid(packed(clauses(s), limit, Seq::empty(), 0), limit);
        } else {
            lemma_word_pieces_solid(s, limit);
        }
    }
}

/// The words of a text are solid; the first one starts where the text first does
/// and the last one ends where it last does.
pub proof fn lemma_words_ends(s: Seq<char>, i: int)
    requires
        0 <= i < s.len(),
        !is_space(s.last()),
    ensures
        words_from(s, i).len() > 0,
        all_solid(words_from(s, i)),
        !is_space(s[i]) ==> words_from(s, i)[0][0] == s[i],
        words_from(s, i).last().last() == s.last(),
    decreases s.len() - i,
{
    let from = space_end(s, i);
    lemma_space_end(s, i);
    if from == s.len() {
        assert(is_space(s[s.len() - 1]));
    }
    let to = word_end(s, from);
    lemma_word_end(s, from);
    lemma_words_solid(s, i);
    let all = words_from(s, i);
    let rest = words_from(s, to);
    assert(all == seq![s.subrange(from, to)] + rest);
    if to < s.len() {
        lemma_words_ends(s, to);
        assert(all.last() == rest.last());
    } else {
        lemma_space_end(s, to);
        assert(rest.len() == 0);
    }
    assert forall|k: int| 0 <= k < all.len() implies solid(#[trigger] all[k]) by {
        assert(words_from(s, i)[k].len() > 0);
        assert(!is_space(words_from(s, i)[k][0]));
        assert(!is_space(words_from(s, i)[k][all[k].len() - 1]));
    }
}

/// The sentences of a line are solid, and there is one unless the line is blank.
proof fn lemma_line_solid(line: Seq<char>)
    ensures
        all_solid(line_sentences(line)),
        line_sentences(line).len() == 0 <==> is_blank(line),
{
    let s = trim(line);
    let cuts = breaks(s);
    let all = pieces(s, cuts);
    let keep = |p: Seq<char>| !is_blank(p);
    lemma_trim(line);
    lemma_breaks_from(s, 0);
    let kept = all.filter(keep);
    assert forall|k: int| 0 <= k < line_sentences(line).len() implies solid(
        #[trigger] line_sentences(line)[k],
    ) by {
        all.lemma_filter_pred(keep, k);
        lemma_trim(kept[k]);
    }
    if is_blank(line) {
        assert(all.len() == 1) by {
            assert(s.len() == 0);
        }
        all.lemma_filter_len(keep);
        if kept.len() > 0 {
            all.lemma_filter_pred(keep, 0);
            assert(kept.contains(kept[0]));
            all.lemma_filter_contains_rev(keep, kept[0]);
            assert(kept[0] == all[0]);
            assert(is_blank(all[0]));
        }
    } else {
        assert(!is_space(s.last()));
        let last = all[all.len() - 1];
        if cuts.len() > 0 {
            let cut = cuts[cuts.len() - 1];
            lemma_break_at(s, cut.0 - 1);
            assert(break_at(s, cut.0 - 1) == Some(cut));
        }
        assert(last.len() > 0 && last.last() == s.last());
        assert(!is_blank(last)) by {
            assert(!is_space(last[last.len() - 1]));
        }
        all.lemma_filter_contains(keep, all.len() - 1);
    }
}

proof fn lemma_lines_solid(s: Seq<char>, i: int)
    requires
        0 <= i <= s.len(),
    ensures
        all_solid(sentences_from(s, i)),
        sentences_from(s, i).len() == 0 <==> is_blank(s.skip(i)),
    decreases s.len() - i,
{
    let end = line_end(s, i);
    lemma_line_end(s, i);
    let line = s.subrange(i, end);
    let here = line_sentences(line);
    lemma_line_solid(line);
    let all = sentences_from(s, i);
    let tail = s.skip(i);
    if end < s.len() {
        lemma_lines_solid(s, end + 1);
        let rest = sentences_from(s, end + 1);
        assert forall|k: int| 0 <= k < all.len() implies solid(#[trigger] all[k]) by {
            if k < here.len() {
                assert(all[k] == here[k]);
            } else {
                assert(all[k] == rest[k - here.len()]);
            }
        }
        let after = s.skip(end + 1);
        if is_blank(tail) {
            assert forall|k: int| 0 <= k < line.len() implies is_space(#[trigger] line[k]) by {
                assert(line[k] == tail[k]);
            }
            assert forall|k: int| 0 <= k < after.len() implies is_space(#[trigger] after[k]) by {
                assert(after[k] == tail[k + end + 1 - i]);
            }
        } else if is_blank(line) && is_blank(after) {
            assert forall|k: int| 0 <= k < tail.len() implies is_space(#[trigger] tail[k]) by {
                if k < end - i {
                    assert(tail[k] == line[k]);
                } else if k == end - i {
                    assert(tail[k] == '\n');
                } else {
                    assert(tail[k] == after[k - (end + 1 - i)]);
                }
            }
        }
    } else {
        assert(line =~= tail);
    }
}

/// The sentences of a text are solid, and there is one unless the text is blank.
pub proof fn sentences_are_solid(text: Seq<char>)
    ensures
        all_solid(text_sentences(text)),
        text_sentences(text).len() == 0 <==> is_blank(text),
{
    let s = trim(text);
    lemma_trim(text);
    lemma_lines_solid(s, 0);
    assert(s.skip(0) =~= s);
}

/// Any caps of at least one character let every text be broken.
pub proof fn positive_caps_can_chunk(text: Seq<char>, first: Budget, rest: Budget)
    requires
        positive(first),
        positive(rest),
    ensures
        can_chunk(text, first, rest),
{
}

/// Whether the character cap of a budget, if it has one, is at least one.
pub open spec fn positive(budget: Budget) -> bool {
    budget.chars matches Some(cap) ==> cap > 0
}

/// Whether every chunk packed so far, the one being filled included, is solid.
spec fn solid_so_far(packing: Packing) -> bool {
    &&& forall|k: int| 0 <= k < packing.out.len() ==> solid((#[trigger] packing.out[k]).text)
    &&& packing.held matches Some(held) ==> solid(held.text)
}

proof fn lemma_push_solid(packing: Packing, piece: Spoken, joinable: bool)
    requires
        solid_so_far(packing),
        solid(piece.text),
    ensures
        solid_so_far(packing.push(piece, joinable)),
        packing.push(piece, joinable).held is Some,
{
    if let Some(held) = packing.held {
        assert(held.joined(piece).text.last() == piece.text.last());
    }
}

proof fn lemma_clauses_chunk_solid<E>(
    p: Progress<E>,
    parts: Seq<Seq<char>>,
    i: int,
    joinable: bool,
    replies: Seq<Result<Seq<char>, E>>,
)
    requires
        0 <= i <= parts.len(),
        all_solid(parts),
        solid_so_far(p.packing),
        i < parts.len() || p.packing.held is Some,
    ensures
        ({
            let after = p.clauses(parts, i, joinable, replies);
            solid_so_far(after.packing) && (after.failed is None ==> after.packing.held is Some)
        }),
    decreases parts.len() - i,
{
    if p.failed is None && i < parts.len() {
        if let Ok(phonemes) = replies[p.asked.len() as int] {
            let piece = Spoken { text: parts[i], phonemes };
            lemma_push_solid(p.packing, piece, i > 0 || joinable);
            let next = Progress {
                packing: p.packing.push(piece, i > 0 || joinable),
                asked: p.asked.push(parts[i]),
                ..p
            };
            lemma_clauses_chunk_solid(next, parts, i + 1, joinable, replies);
        }
    }
}

proof fn lemma_parts_chunk_solid<E>(
    p: Progress<E>,
    parts: Seq<Seq<char>>,
    i: int,
    joinable: bool,
    replies: Seq<Result<Seq<char>, E>>,
)
    requires
        0 <= i <= parts.len(),
        all_solid(parts),
        solid_so_far(p.packing),
        i < parts.len() || p.failed is Some || p.packing.held is Some,
    ensures
        ({
            let after = p.parts(parts, i, joinable, replies);
            solid_so_far(after.packing) && (after.failed is None ==> after.packing.held is Some)
        }),
    decreases parts.len() - i,
{
    if p.failed is None && i < parts.len() {
        let text = parts[i];
        let next = p.part(text, joinable, replies);
        if let Ok(phonemes) = replies[p.asked.len() as int] {
            let packing = if phonemes.len() > p.packing.budget.phonemes && p.packing.held is Some {
                p.packing.close()
            } else {
                p.packing
            };
            if phonemes.len() <= packing.budget.phonemes || clauses(text).len() < 2 {
                lemma_push_solid(packing, Spoken { text, phonemes }, joinable);
            } else {
                clauses_are_solid(text);
                let asking = Progress { packing, asked: p.asked.push(text), ..p };
                lemma_clauses_chunk_solid(asking, clauses(text), 0, joinable, replies);
            }
        }
        lemma_parts_chunk_solid(next, parts, i + 1, joinable, replies);
    }
}

proof fn lemma_sentences_chunk_solid<E>(
    p: Progress<E>,
    list: Seq<Seq<char>>,
    i: int,
    replies: Seq<Result<Seq<char>, E>>,
)
    requires
        0 <= i <= list.len(),
        all_solid(list),
        positive(p.packing.budget),
        positive(p.packing.rest),
        solid_so_far(p.packing),
    ensures
        ({
            let after = p.sentences(list, i, replies);
            &&& solid_so_far(after.packing)
            &&& after.failed is None && i < list.len() ==> after.packing.held is Some
            &&& i == list.len() ==> after == p
        }),
    decreases list.len() - i,
{
    if p.failed is None && i < list.len() {
        let ready = p.before_sentence(list[i]);
        let parts = ready.cut(list[i]);
        if let Some(cap) = ready.packing.budget.chars {
            hard_pieces_are_solid(list[i], cap as int);
        }
        lemma_parts_chunk_solid(ready, parts, 0, parts.len() == 1, replies);
        lemma_parts_follow(ready, parts, 0, parts.len() == 1, replies);
        lemma_sentences_chunk_solid(p.sentence(list[i], replies), list, i + 1, replies);
    }
}

/// Every chunk has a text to speak, with no white space around it, and a text
/// yields no chunk exactly where it is blank.
pub proof fn chunks_are_solid<E>(
    text: Seq<char>,
    first: Budget,
    rest: Budget,
    replies: Seq<Result<Seq<char>, E>>,
)
    requires
        positive(first),
        positive(rest),
    ensures
        chunking(text, first, rest, replies).outcome() matches Ok(chunks) ==> {
            &&& forall|k: int| 0 <= k < chunks.len() ==> solid((#[trigger] chunks[k]).text)
            &&& chunks.len() == 0 <==> is_blank(text)
        },
{
    let start = Progress::<E>::start(first, rest);
    sentences_are_solid(text);
    lemma_sentences_chunk_solid(start, text_sentences(text), 0, replies);
}

/// A blank text is not phonemised at all, and yields no chunk.
pub proof fn blank_text_yields_nothing<E>(
    text: Seq<char>,
    first: Budget,
    rest: Budget,
    replies: Seq<Result<Seq<char>, E>>,
)
    requires
        is_blank(text),
    ensures
        chunking(text, first, rest, replies).asked.len() == 0,
        chunking(text, first, rest, replies).outcome() == Ok::<Seq<Spoken>, E>(Seq::empty()),
{
    sentences_are_solid(text);
}

/// Where a sentence had to be split at its clauses, no clause but the last counts as
/// the end of a sentence, so that no gap is put there.
pub proof fn clause_breaks_do_not_end_sentences(s: Seq<char>, k: int)
    requires
        solid(s),
        0 <= k < clauses(s).len() - 1,
    ensures
        !ends_on_terminal(clauses(s)[k]),
{
    clauses_are_solid(s);
    let clause = clauses(s)[k];
    assert(CLAUSE_ENDS@.contains(clause.last()));
    assert(solid(clause));
    assert(space_start(clause, clause.len() as int) == clause.len());
    assert(trim_end(clause) =~= clause);
}

} // verus!
