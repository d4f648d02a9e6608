//! How a text that is too long is broken up.

use vstd::prelude::*;

use crate::chars::{is_space, lemma_space_end, space_end, words};
use crate::text::sentences::pieces;
use crate::text::split::{
    break_long, clauses, cut_every, cut_long, hard_pieces, mark_gaps, packed, word_pieces,
    CLAUSE_ENDS,
};

verus! {

/// All of `list`, with a space between each two.
pub open spec fn spaced(list: Seq<Seq<char>>) -> Seq<char>
    decreases list.len(),
{
    if list.len() <= 1 {
        list[0]
    } else {
        spaced(list.drop_last()) + seq![' '] + list.last()
    }
}

/// Whether each of `list` is one of `groups`, spaced, and as long as it can be: one of two
/// or more parts is no longer than `limit`, and would be with the first part of the next.
pub open spec fn spaced_groups(
    groups: Seq<Seq<Seq<char>>>,
    list: Seq<Seq<char>>,
    limit: int,
) -> bool {
    &&& groups.len() == list.len()
    &&& forall|k: int| 0 <= k < groups.len() ==> (#[trigger] groups[k]).len() > 0
    &&& forall|k: int|
        0 <= k < groups.len() ==> {
            &&& #[trigger] list[k] == spaced(groups[k])
            &&& groups[k].len() > 1 ==> list[k].len() <= limit
            &&& k + 1 < groups.len() ==> list[k].len() + 1 + groups[k + 1][0].len() > limit
        }
}

/// Texts with a space between them are no shorter than the first.
proof fn lemma_spaced_solid(list: Seq<Seq<char>>)
    requires
        list.len() > 0,
        list[0].len() > 0,
    ensures
        spaced(list).len() > 0,
    decreases list.len(),
{
    if list.len() > 1 {
        lemma_spaced_solid(list.drop_last());
    }
}

proof fn lemma_packed(parts: Seq<Seq<char>>, limit: int, held: Seq<Seq<char>>, i: int) -> (groups:
    Seq<Seq<Seq<char>>>)
    requires
        0 <= i <= parts.len(),
        forall|k: int| 0 <= k < parts.len() ==> (#[trigger] parts[k]).len() > 0,
        held.len() > 0 ==> held[0].len() > 0,
        held.len() > 1 ==> spaced(held).len() <= limit,
    ensures
        ({
            let text = if held.len() == 0 {
                Seq::empty()
            } else {
                spaced(held)
            };
            &&& spaced_groups(groups, packed(parts, limit, text, i), limit)
            &&& groups.flatten() == held + parts.skip(i)
            &&& held.len() > 0 ==> groups.len() > 0 && groups[0][0] == held[0]
        }),
    decreases parts.len() - i,
{
    let none = Seq::<Seq<Seq<char>>>::empty();
    if i < parts.len() {
        let part = parts[i];
        let one = seq![part];
        assert(spaced(one) == part);
        if held.len() == 0 {
            let groups = lemma_packed(parts, limit, one, i + 1);
            assert(one + parts.skip(i + 1) =~= held + parts.skip(i));
            assert(packed(parts, limit, Seq::empty(), i) == packed(parts, limit, part, i + 1));
            groups
        } else {
            lemma_spaced_solid(held);
            let text = spaced(held);
            if text.len() + 1 + part.len() > limit {
                let rest = lemma_packed(parts, limit, one, i + 1);
                let groups = seq![held] + rest;
                let after = packed(parts, limit, part, i + 1);
                let list = packed(parts, limit, text, i);
                assert(list == seq![text] + after);
                assert(groups.drop_first() =~= rest);
                assert(groups.flatten() =~= held + (one + parts.skip(i + 1)));
                assert(held + (one + parts.skip(i + 1)) =~= held + parts.skip(i));
                assert forall|k: int| 0 <= k < groups.len() implies (#[trigger] groups[k]).len()
                    > 0 by {
                    if k > 0 {
                        assert(groups[k] == rest[k - 1]);
                    }
                }
                assert forall|k: int| 0 <= k < groups.len() implies {
                    &&& #[trigger] list[k] == spaced(groups[k])
                    &&& groups[k].len() > 1 ==> list[k].len() <= limit
                    &&& k + 1 < groups.len() ==> list[k].len() + 1 + groups[k + 1][0].len()
                        > limit
                } by {
                    if k > 0 {
                        assert(list[k] == after[k - 1]);
                        assert(groups[k] == rest[k - 1]);
                        if k + 1 < groups.len() {
                            assert(groups[k + 1] == rest[k]);
                        }
                    } else {
                        assert(groups[1] == rest[0]);
                    }
                }
                groups
            } else {
                let more = held.push(part);
                assert(more.drop_last() =~= held);
                assert(text.push(' ') + part =~= text + seq![' '] + part);
                let groups = lemma_packed(parts, limit, more, i + 1);
                assert(spaced(more) == text.push(' ') + part);
                assert(packed(parts, limit, text, i) == packed(parts, limit, spaced(more), i + 1));
                assert(more + parts.skip(i + 1) =~= held + parts.skip(i));
                assert(groups[0][0] == held[0]);
                groups
            }
        }
    } else if held.len() == 0 {
        assert(none.flatten() =~= Seq::<Seq<char>>::empty());
        assert(held + parts.skip(i) =~= Seq::<Seq<char>>::empty());
        none
    } else {
        lemma_spaced_solid(held);
        let groups = none.push(held);
        none.lemma_flatten_push(held);
        assert(none.flatten() =~= Seq::<Seq<char>>::empty());
        assert(groups.flatten() =~= held + parts.skip(i));
        let list = packed(parts, limit, spaced(held), i);
        assert(list =~= seq![spaced(held)]);
        assert(spaced_groups(groups, list, limit));
        groups
    }
}

/// Parts are packed in order, each once, with a space between each two in a piece, and
/// every piece takes as many parts as there is room for.
pub proof fn parts_are_packed_while_they_fit(parts: Seq<Seq<char>>, limit: int)
    requires
        forall|k: int| 0 <= k < parts.len() ==> (#[trigger] parts[k]).len() > 0,
    ensures
        exists|groups: Seq<Seq<Seq<char>>>|
            #[trigger] groups.flatten() == parts && spaced_groups(
                groups,
                packed(parts, limit, Seq::empty(), 0),
                limit,
            ),
{
    let groups = lemma_packed(parts, limit, Seq::empty(), 0);
    assert(Seq::<Seq<char>>::empty() + parts.skip(0) =~= parts);
}

/// A text cut bluntly keeps all of its characters in order, and every piece but the last is
/// as long as it may be.
pub proof fn blunt_cuts_are_of_equal_length(s: Seq<char>, limit: int, k: int)
    requires
        limit > 0,
        0 <= k < cut_every(s, limit).len(),
    ensures
        cut_every(s, limit)[k].len() == if k + 1 < cut_every(s, limit).len() {
            limit
        } else {
            s.len() - limit * k
        },
        0 < cut_every(s, limit)[k].len() <= limit,
        limit * k + cut_every(s, limit)[k].len() <= s.len(),
        forall|n: int|
            0 <= n < cut_every(s, limit)[k].len() ==> #[trigger] cut_every(s, limit)[k][n]
                == s[limit * k + n],
    decreases s.len(),
{
    if s.len() > limit {
        let rest = s.skip(limit);
        let list = cut_every(s, limit);
        assert(list == seq![s.take(limit)] + cut_every(rest, limit));
        lemma_cut_something(rest, limit);
        if k > 0 {
            blunt_cuts_are_of_equal_length(rest, limit, k - 1);
            assert(list[k] == cut_every(rest, limit)[k - 1]);
            assert(limit * k == limit + limit * (k - 1)) by (nonlinear_arith);
            assert(0 <= limit * (k - 1)) by (nonlinear_arith)
                requires
                    limit > 0,
                    k > 0,
            ;
            let from = limit * (k - 1);
            assert forall|n: int| 0 <= n < list[k].len() implies #[trigger] list[k][n] == s[limit
                * k + n] by {
                assert(cut_every(rest, limit)[k - 1][n] == rest[from + n]);
                assert(from + n < rest.len());
            }
        } else {
            assert(limit * k == 0) by (nonlinear_arith)
                requires
                    k == 0,
            ;
        }
    } else {
        assert(k == 0);
        assert(limit * k == 0) by (nonlinear_arith)
            requires
                k == 0,
        ;
    }
}

/// Something is left of a text that is cut bluntly unless it is empty.
pub proof fn lemma_cut_something(s: Seq<char>, limit: int)
    requires
        limit > 0,
    ensures
        cut_every(s, limit).len() == 0 <==> s.len() == 0,
{
}

/// A text that fits is not broken.
pub proof fn texts_that_fit_are_not_broken(s: Seq<char>, limit: int)
    requires
        s.len() <= limit,
    ensures
        hard_pieces(s, limit).len() == 1,
        hard_pieces(s, limit)[0] == s,
        word_pieces(s, limit).len() == 1,
        word_pieces(s, limit)[0] == s,
{
}

/// A list of which everything fits stays as it is.
proof fn lemma_nothing_long(list: Seq<Seq<char>>, limit: int)
    requires
        forall|k: int| 0 <= k < list.len() ==> (#[trigger] list[k]).len() <= limit,
    ensures
        break_long(list, limit) == list,
        cut_long(list, limit) == list,
    decreases list.len(),
{
    if list.len() > 0 {
        let shorter = list.drop_last();
        assert forall|k: int| 0 <= k < shorter.len() implies (#[trigger] shorter[k]).len()
            <= limit by {
            assert(shorter[k] == list[k]);
        }
        lemma_nothing_long(shorter, limit);
        assert(list[list.len() - 1].len() <= limit);
        assert(shorter.push(list.last()) =~= list);
    }
}

/// Pieces that are packed of parts that fit, fit.
proof fn lemma_packed_fit(parts: Seq<Seq<char>>, limit: int, held: Seq<char>, i: int)
    requires
        0 <= i <= parts.len(),
        held.len() <= limit,
        forall|k: int| 0 <= k < parts.len() ==> (#[trigger] parts[k]).len() <= limit,
    ensures
        forall|k: int|
            0 <= k < packed(parts, limit, held, i).len() ==> (#[trigger] packed(
                parts,
                limit,
                held,
                i,
            )[k]).len() <= limit,
    decreases parts.len() - i,
{
    if i < parts.len() {
        if held.len() == 0 {
            lemma_packed_fit(parts, limit, parts[i], i + 1);
            assert(packed(parts, limit, held, i) == packed(parts, limit, parts[i], i + 1));
        } else if held.len() + 1 + parts[i].len() > limit {
            lemma_packed_fit(parts, limit, parts[i], i + 1);
            let rest = packed(parts, limit, parts[i], i + 1);
            assert forall|k: int| 0 <= k < packed(parts, limit, held, i).len() implies (
            #[trigger] packed(parts, limit, held, i)[k]).len() <= limit by {
                if k > 0 {
                    assert(packed(parts, limit, held, i)[k] == rest[k - 1]);
                }
            }
        } else {
            lemma_packed_fit(parts, limit, held.push(' ') + parts[i], i + 1);
            assert(packed(parts, limit, held, i) == packed(
                parts,
                limit,
                held.push(' ') + parts[i],
                i + 1,
            ));
        }
    }
}

/// A text that is too long is broken at its clauses, where it has two or more and each of
/// them fits: the pieces are runs of whole clauses, as many to a piece as there is room for.
pub proof fn long_texts_are_broken_at_clauses(s: Seq<char>, limit: int)
    requires
        s.len() > limit >= 0,
        clauses(s).len() >= 2,
        forall|k: int| 0 <= k < clauses(s).len() ==> (#[trigger] clauses(s)[k]).len() <= limit,
    ensures
        exists|groups: Seq<Seq<Seq<char>>>|
            #[trigger] groups.flatten() == clauses(s) && spaced_groups(
                groups,
                hard_pieces(s, limit),
                limit,
            ),
{
    lemma_clauses_solid(s);
    parts_are_packed_while_they_fit(clauses(s), limit);
    let list = packed(clauses(s), limit, Seq::empty(), 0);
    lemma_packed_fit(clauses(s), limit, Seq::empty(), 0);
    lemma_nothing_long(list, limit);
}

/// A text that is too long and has no two clauses is broken between its words, where it has
/// two or more and each of them fits: the pieces are runs of whole words, as many to a piece
/// as there is room for.
pub proof fn long_clauses_are_broken_between_words(s: Seq<char>, limit: int)
    requires
        s.len() > limit >= 0,
        clauses(s).len() < 2,
        words(s).len() >= 2,
        forall|k: int|
            0 <= k < words(s).len() ==> 0 < (#[trigger] words(s)[k]).len() <= limit,
    ensures
        exists|groups: Seq<Seq<Seq<char>>>|
            #[trigger] groups.flatten() == words(s) && spaced_groups(
                groups,
                hard_pieces(s, limit),
                limit,
            ),
{
    parts_are_packed_while_they_fit(words(s), limit);
    let list = packed(words(s), limit, Seq::empty(), 0);
    lemma_packed_fit(words(s), limit, Seq::empty(), 0);
    lemma_nothing_long(list, limit);
}

/// A single token that is too long is cut bluntly.
pub proof fn long_tokens_are_cut_bluntly(s: Seq<char>, limit: int)
    requires
        s.len() > limit,
        clauses(s).len() < 2,
        words(s).len() < 2,
    ensures
        hard_pieces(s, limit) == cut_every(s, limit),
{
}

/// What is too long of a list is broken where it stands, and everything else stays as it is.
pub proof fn only_long_texts_are_broken(list: Seq<Seq<char>>, last: Seq<char>, limit: int)
    requires
        limit > 0,
    ensures
        last.len() <= limit ==> break_long(list.push(last), limit) == break_long(list, limit)
            + seq![last],
        last.len() <= limit ==> cut_long(list.push(last), limit) == cut_long(list, limit)
            + seq![last],
        last.len() > limit && words(last).len() < 2 ==> break_long(list.push(last), limit)
            == break_long(list, limit) + cut_every(last, limit),
        last.len() > limit && words(last).len() >= 2 ==> break_long(list.push(last), limit)
            == break_long(list, limit) + cut_long(
            packed(words(last), limit, Seq::empty(), 0),
            limit,
        ),
        last.len() > limit ==> cut_long(list.push(last), limit) == cut_long(list, limit)
            + cut_every(last, limit),
        break_long(Seq::empty(), limit).len() == 0,
        cut_long(Seq::empty(), limit).len() == 0,
{
    assert(list.push(last).drop_last() =~= list);
    if last.len() <= limit {
        assert(break_long(list, limit).push(last) =~= break_long(list, limit) + seq![last]);
        assert(cut_long(list, limit).push(last) =~= cut_long(list, limit) + seq![last]);
    }
}

/// No clause is empty.
proof fn lemma_clauses_solid(s: Seq<char>)
    ensures
        forall|k: int| 0 <= k < clauses(s).len() ==> (#[trigger] clauses(s)[k]).len() > 0,
{
    let all = pieces(s, mark_gaps(s, CLAUSE_ENDS@, 0));
    let solid = |p: Seq<char>| p.len() > 0;
    assert forall|k: int| 0 <= k < clauses(s).len() implies (#[trigger] clauses(s)[k]).len()
        > 0 by {
        all.lemma_filter_pred(solid, k);
    }
}

/// The gap after a mark is among those from any place before it on, unless that place is in
/// the gap of another mark.
proof fn lemma_gap_is_found(s: Seq<char>, marks: Seq<char>, from: int, i: int)
    requires
        0 <= from <= i < s.len(),
        marks.contains(s[i]),
        forall|k: int| 0 <= k < marks.len() ==> !is_space(#[trigger] marks[k]),
        i + 1 < space_end(s, i + 1),
    ensures
        mark_gaps(s, marks, from).contains((i + 1, space_end(s, i + 1))),
    decreases i - from,
{
    let gap = (i + 1, space_end(s, i + 1));
    let list = mark_gaps(s, marks, from);
    lemma_space_end(s, from + 1);
    let end = space_end(s, from + 1);
    if from == i {
        assert(list[0] == gap);
    } else if marks.contains(s[from]) && from + 1 < end {
        if i < end {
            assert(is_space(s[i]));
            let k = choose|k: int| 0 <= k < marks.len() && marks[k] == s[i];
            assert(!is_space(marks[k]));
        }
        lemma_gap_is_found(s, marks, end, i);
        let rest = mark_gaps(s, marks, end);
        let k = choose|k: int| 0 <= k < rest.len() && rest[k] == gap;
        assert(list[k + 1] == rest[k]);
    } else {
        lemma_gap_is_found(s, marks, from + 1, i);
    }
}

/// A gap is white space after a mark, all of it.
proof fn lemma_gaps_follow_marks(s: Seq<char>, marks: Seq<char>, from: int, k: int)
    requires
        0 <= from,
        0 <= k < mark_gaps(s, marks, from).len(),
    ensures
        ({
            let gap = mark_gaps(s, marks, from)[k];
            &&& from < gap.0 < gap.1 <= s.len()
            &&& marks.contains(s[gap.0 - 1])
            &&& gap.1 == space_end(s, gap.0)
        }),
    decreases s.len() - from,
{
    if from < s.len() {
        let end = space_end(s, from + 1);
        lemma_space_end(s, from + 1);
        let list = mark_gaps(s, marks, from);
        if marks.contains(s[from]) && from + 1 < end {
            if k > 0 {
                lemma_gaps_follow_marks(s, marks, end, k - 1);
                assert(list[k] == mark_gaps(s, marks, end)[k - 1]);
            }
        } else {
            lemma_gaps_follow_marks(s, marks, from + 1, k);
        }
    }
}

/// A clause ends after a comma, a semicolon, a colon or a dash that white space follows, of
/// which all is taken.
pub proof fn clauses_end_after_their_marks(s: Seq<char>, i: int, end: int)
    requires
        0 <= i < s.len(),
        s[i] == ',' || s[i] == ';' || s[i] == ':' || s[i] == '\u{2014}',
        i + 1 < end <= s.len(),
        forall|k: int| i < k < end ==> is_space(#[trigger] s[k]),
        end == s.len() || !is_space(s[end]),
    ensures
        mark_gaps(s, CLAUSE_ENDS@, 0).contains((i + 1, end)),
{
    let marks = CLAUSE_ENDS@;
    assert(marks[0] == ',' && marks[1] == ';' && marks[2] == ':' && marks[3] == '\u{2014}');
    assert(marks.contains(s[i]));
    lemma_space_end(s, i + 1);
    let stop = space_end(s, i + 1);
    if stop < end {
        assert(is_space(s[stop]));
    }
    if end < stop {
        assert(is_space(s[end]));
    }
    lemma_gap_is_found(s, marks, 0, i);
}

/// A clause ends nowhere else.
pub proof fn clauses_end_nowhere_else(s: Seq<char>, k: int)
    requires
        0 <= k < mark_gaps(s, CLAUSE_ENDS@, 0).len(),
    ensures
        ({
            let gap = mark_gaps(s, CLAUSE_ENDS@, 0)[k];
            let c = s[gap.0 - 1];
            &&& 0 < gap.0 < gap.1 <= s.len()
            &&& c == ',' || c == ';' || c == ':' || c == '\u{2014}'
            &&& forall|n: int| gap.0 <= n < gap.1 ==> is_space(#[trigger] s[n])
            &&& gap.1 < s.len() ==> !is_space(s[gap.1])
        }),
{
    lemma_gaps_follow_marks(s, CLAUSE_ENDS@, 0, k);
    let gap = mark_gaps(s, CLAUSE_ENDS@, 0)[k];
    lemma_space_end(s, gap.0);
}

/// Whether `piece` is what stands between the gap before the place `k` and the one after it,
/// or between either end of the text and the gap next to it.
pub open spec fn is_between_gaps(s: Seq<char>, piece: Seq<char>, k: int) -> bool {
    let cuts = mark_gaps(s, CLAUSE_ENDS@, 0);
    let from = if k == 0 {
        0
    } else {
        cuts[k - 1].1
    };
    let to = if k == cuts.len() {
        s.len() as int
    } else {
        cuts[k].0
    };
    0 <= k <= cuts.len() && piece == s.subrange(from, to)
}

/// Everything between two ends of clauses is a clause, unless it is empty.
pub proof fn every_piece_between_gaps_is_a_clause(s: Seq<char>, piece: Seq<char>, k: int)
    requires
        is_between_gaps(s, piece, k),
        piece.len() > 0,
    ensures
        clauses(s).contains(piece),
{
    let all = pieces(s, mark_gaps(s, CLAUSE_ENDS@, 0));
    assert(all[k] == piece);
    all.lemma_filter_contains(|p: Seq<char>| p.len() > 0, k);
}

/// Nothing else is a clause.
pub proof fn clauses_are_pieces_between_gaps(s: Seq<char>, j: int)
    requires
        0 <= j < clauses(s).len(),
    ensures
        clauses(s)[j].len() > 0,
        exists|k: int| #[trigger] is_between_gaps(s, clauses(s)[j], k),
        clauses(s).len() <= mark_gaps(s, CLAUSE_ENDS@, 0).len() + 1,
{
    let all = pieces(s, mark_gaps(s, CLAUSE_ENDS@, 0));
    let solid = |p: Seq<char>| p.len() > 0;
    let one = clauses(s)[j];
    assert(all.filter(solid).contains(one));
    all.lemma_filter_contains_rev(solid, one);
    all.lemma_filter_pred(solid, j);
    all.lemma_filter_len(solid);
    let k = choose|k: int| 0 <= k < all.len() && all[k] == one;
    assert(is_between_gaps(s, one, k));
}

} // verus!
