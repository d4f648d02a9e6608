//! Breaking up a sentence that is too long.

use vstd::prelude::*;

use crate::chars::{
    contents, holds, lemma_space_end, nchars, skip_spaces, space_end, split_words, substring,
    to_chars, words,
};
use crate::text::sentences::pieces;

verus! {

/// Punctuation that ends a clause: the preferred place to break a sentence that
/// is too long to synthesise in one piece.
pub const CLAUSE_ENDS: [char; 4] = [',', ';', ':', '\u{2014}'];

/// The white space that follows any of `marks`, from `s[i]` on.
pub open spec fn mark_gaps(s: Seq<char>, marks: Seq<char>, i: int) -> Seq<(int, int)>
    decreases s.len() - i,
    via gaps_decrease
{
    if 0 <= i < s.len() {
        let end = space_end(s, i + 1);
        if marks.contains(s[i]) && i + 1 < end {
            seq![(i + 1, end)] + mark_gaps(s, marks, end)
        } else {
            mark_gaps(s, marks, i + 1)
        }
    } else {
        Seq::empty()
    }
}

#[via_fn]
proof fn gaps_decrease(s: Seq<char>, marks: Seq<char>, i: int) {
    lemma_space_end(s, i + 1);
}

/// `s` split on the white space that follows any of `marks`, each mark kept
/// with the text before it and empty pieces left out.
pub open spec fn parts_after(s: Seq<char>, marks: Seq<char>) -> Seq<Seq<char>> {
    pieces(s, mark_gaps(s, marks, 0)).filter(|p: Seq<char>| p.len() > 0)
}

/// The clauses of `s`.
pub open spec fn clauses(s: Seq<char>) -> Seq<Seq<char>> {
    parts_after(s, CLAUSE_ENDS@)
}

/// Greedily packs `parts[i..]` into pieces of at most `limit` characters, each
/// two parts in a piece joined by a space; `held` is the piece being filled. A
/// part over the limit lands in a piece by itself, to be broken up further.
pub open spec fn packed(parts: Seq<Seq<char>>, limit: int, held: Seq<char>, i: int) -> Seq<
    Seq<char>,
>
    decreases parts.len() - i,
{
    if 0 <= i < parts.len() {
        if held.len() == 0 {
            packed(parts, limit, parts[i], i + 1)
        } else if held.len() + 1 + parts[i].len() > limit {
            seq![held] + packed(parts, limit, parts[i], i + 1)
        } else {
            packed(parts, limit, held.push(' ') + parts[i], i + 1)
        }
    } else if held.len() == 0 {
        Seq::empty()
    } else {
        seq![held]
    }
}

/// `s` cut every `limit` characters.
pub open spec fn cut_every(s: Seq<char>, limit: int) -> Seq<Seq<char>>
    decreases s.len(),
{
    if s.len() == 0 || limit <= 0 {
        Seq::empty()
    } else if s.len() <= limit {
        seq![s]
    } else {
        seq![s.take(limit)] + cut_every(s.skip(limit), limit)
    }
}

/// `list` with each text over the limit cut bluntly. A limit of none cuts nothing.
pub open spec fn cut_long(list: Seq<Seq<char>>, limit: int) -> Seq<Seq<char>>
    decreases list.len(),
{
    if list.len() == 0 {
        Seq::empty()
    } else if list.last().len() <= limit || limit <= 0 {
        cut_long(list.drop_last(), limit).push(list.last())
    } else {
        cut_long(list.drop_last(), limit) + cut_every(list.last(), limit)
    }
}

/// `s` broken between its words into pieces of at most `limit` characters, a single
/// unbroken token bluntly.
pub open spec fn word_pieces(s: Seq<char>, limit: int) -> Seq<Seq<char>> {
    if s.len() <= limit {
        seq![s]
    } else if words(s).len() >= 2 {
        cut_long(packed(words(s), limit, Seq::empty(), 0), limit)
    } else {
        cut_every(s, limit)
    }
}

/// `list` with each text over the limit broken between its words. A limit of none
/// breaks nothing.
pub open spec fn break_long(list: Seq<Seq<char>>, limit: int) -> Seq<Seq<char>>
    decreases list.len(),
{
    if list.len() == 0 {
        Seq::empty()
    } else if list.last().len() <= limit || limit <= 0 {
        break_long(list.drop_last(), limit).push(list.last())
    } else {
        break_long(list.drop_last(), limit) + word_pieces(list.last(), limit)
    }
}

/// `s` broken into pieces of at most `limit` characters: at its clauses if it has two
/// or more, and a clause that is itself over the limit, or a text without one, between
/// its words; a single unbroken token bluntly.
pub open spec fn hard_pieces(s: Seq<char>, limit: int) -> Seq<Seq<char>> {
    if s.len() <= limit {
        seq![s]
    } else if clauses(s).len() >= 2 {
        break_long(packed(clauses(s), limit, Seq::empty(), 0), limit)
    } else {
        word_pieces(s, limit)
    }
}

/// Whether `s` can be broken under `limit`: only a single unbroken token has to
/// be cut every `limit` characters, which a limit of none does not allow.
pub open spec fn can_break(s: Seq<char>, limit: int) -> bool {
    limit > 0 || s.len() == 0 || clauses(s).len() >= 2 || words(s).len() >= 2
}

/// The gaps after marks lie inside the text, in order and apart.
pub proof fn lemma_mark_gaps(s: Seq<char>, marks: Seq<char>, i: int)
    requires
        0 <= i,
    ensures
        forall|k: int| #![trigger mark_gaps(s, marks, i)[k]]
            0 <= k < mark_gaps(s, marks, i).len() ==> {
                let g = mark_gaps(s, marks, i)[k];
                &&& i < g.0 < g.1 <= s.len()
                &&& marks.contains(s[g.0 - 1])
                &&& g.1 == space_end(s, g.0)
            },
        forall|k: int, l: int|
            0 <= k < l < mark_gaps(s, marks, i).len() ==> (#[trigger] mark_gaps(s, marks, i)[k]).1
                < (#[trigger] mark_gaps(s, marks, i)[l]).0,
    decreases s.len() - i,
{
    if i < s.len() {
        let end = space_end(s, i + 1);
        lemma_space_end(s, i + 1);
        if marks.contains(s[i]) && i + 1 < end {
            lemma_mark_gaps(s, marks, end);
            let rest = mark_gaps(s, marks, end);
            assert forall|k: int| 0 <= k < mark_gaps(s, marks, i).len() implies {
                let g = #[trigger] mark_gaps(s, marks, i)[k];
                &&& i < g.0 < g.1 <= s.len()
                &&& marks.contains(s[g.0 - 1])
                &&& g.1 == space_end(s, g.0)
            } by {
                if k > 0 {
                    assert(mark_gaps(s, marks, i)[k] == rest[k - 1]);
                }
            }
            assert forall|k: int, l: int| 0 <= k < l < mark_gaps(s, marks, i).len() implies (
            #[trigger] mark_gaps(s, marks, i)[k]).1 < (#[trigger] mark_gaps(
                s,
                marks,
                i,
            )[l]).0 by {
                assert(mark_gaps(s, marks, i)[l] == rest[l - 1]);
                if k > 0 {
                    assert(mark_gaps(s, marks, i)[k] == rest[k - 1]);
                }
            }
        } else {
            lemma_mark_gaps(s, marks, i + 1);
            assert(mark_gaps(s, marks, i) == mark_gaps(s, marks, i + 1));
        }
    } else {
        assert(mark_gaps(s, marks, i).len() == 0);
    }
}

/// Splits on the white space that follows any of `marks`, keeping the mark.
pub fn split_after(text: &str, marks: &[char]) -> (r: Vec<String>)
    ensures
        contents(r@) == parts_after(text@, marks@),
{
    let s = to_chars(text);
    let len = s.len();
    let ghost gaps = mark_gaps(s@, marks@, 0);
    let ghost all = pieces(s@, gaps);
    let ghost solid = |p: Seq<char>| p.len() > 0;
    let ghost mut n: int = 0;
    let mut parts: Vec<String> = Vec::new();
    let mut prev: usize = 0;
    let mut i: usize = 0;
    proof {
        assert(all.take(0).filter(solid) =~= Seq::empty());
        assert(contents(parts@) =~= Seq::empty());
    }
    while i < len
        invariant
            prev <= i <= len == s@.len(),
            gaps == mark_gaps(s@, marks@, 0),
            all == pieces(s@, gaps),
            solid == (|p: Seq<char>| p.len() > 0),
            0 <= n <= gaps.len(),
            prev == if n == 0 {
                0
            } else {
                gaps[n - 1].1
            },
            mark_gaps(s@, marks@, i as int) == gaps.skip(n),
            contents(parts@) == all.take(n).filter(solid),
        decreases len - i,
    {
        let ghost at = i as int;
        let end = skip_spaces(&s, i + 1);
        if holds(marks, s[i]) && i + 1 < end {
            proof {
                assert(gaps.skip(n)[0] == (at + 1, end as int));
                assert(gaps.skip(n).drop_first() == gaps.skip(n + 1));
                assert(mark_gaps(s@, marks@, at).drop_first() =~= mark_gaps(s@, marks@, end as int));
                assert(all[n] == s@.subrange(prev as int, at + 1));
                lemma_one_part(contents(parts@), all, n);
            }
            let ghost before = contents(parts@);
            parts.push(substring(&s, prev, i + 1));
            assert(contents(parts@) == before.push(all[n]));
            prev = end;
            i = end;
            proof {
                n = n + 1;
            }
        } else {
            i += 1;
        }
    }
    proof {
        assert(mark_gaps(s@, marks@, len as int).len() == 0);
        assert(n == gaps.len());
        assert(all[n] == s@.subrange(prev as int, len as int));
        lemma_one_part(contents(parts@), all, n);
        assert(all.take(n + 1) == all);
    }
    let ghost before = contents(parts@);
    if prev < len {
        parts.push(substring(&s, prev, len));
        assert(contents(parts@) == before.push(all[n]));
    }
    parts
}

/// Taking one more part into account: an empty one changes nothing, any other
/// one is added at the end.
proof fn lemma_one_part(found: Seq<Seq<char>>, all: Seq<Seq<char>>, n: int)
    requires
        0 <= n < all.len(),
        found == all.take(n).filter(|p: Seq<char>| p.len() > 0),
    ensures
        all.take(n + 1).filter(|p: Seq<char>| p.len() > 0) == if all[n].len() > 0 {
            found.push(all[n])
        } else {
            found
        },
{
    assert(all.take(n + 1).drop_last() == all.take(n));
    reveal(Seq::filter);
}

/// Greedily packs `parts` into pieces of at most `limit` characters, rejoining
/// them with a single space.
pub fn pack(parts: &Vec<String>, limit: usize) -> (r: Vec<String>)
    ensures
        contents(r@) == packed(contents(parts@), limit as int, Seq::empty(), 0),
{
    let mut out: Vec<String> = Vec::new();
    let mut held = String::new();
    let mut i: usize = 0;
    assert(contents(out@) =~= Seq::empty());
    assert(contents(out@) + packed(contents(parts@), limit as int, held@, 0) =~= packed(
        contents(parts@),
        limit as int,
        Seq::empty(),
        0,
    ));
    while i < parts.len()
        invariant
            i <= parts@.len(),
            contents(out@) + packed(contents(parts@), limit as int, held@, i as int) == packed(
                contents(parts@),
                limit as int,
                Seq::empty(),
                0,
            ),
        decreases parts@.len() - i,
    {
        let part = &parts[i];
        assert(contents(parts@)[i as int] == part@);
        let ghost before = contents(out@);
        let ghost was = held@;
        if held.as_str().is_empty() {
            held = part.clone();
        } else if over_limit(&held, part, limit) {
            out.push(held);
            assert(contents(out@) == before.push(was));
            held = part.clone();
            assert(contents(out@) + packed(contents(parts@), limit as int, held@, i + 1) =~= before
                + packed(contents(parts@), limit as int, was, i as int));
        } else {
            held.push(' ');
            held.append(part);
        }
        i += 1;
    }
    let ghost before = contents(out@);
    if !held.as_str().is_empty() {
        let ghost was = held@;
        out.push(held);
        assert(contents(out@) =~= before + seq![was]);
    } else {
        assert(before + Seq::<Seq<char>>::empty() =~= before);
    }
    out
}

/// Whether `held` and `part`, with a space between them, come to more than
/// `limit` characters.
fn over_limit(held: &str, part: &str, limit: usize) -> (r: bool)
    ensures
        r == (held@.len() + 1 + part@.len() > limit),
{
    let held_len = nchars(held);
    let part_len = nchars(part);
    held_len >= limit || part_len > limit - held_len - 1
}

/// Cuts each text over the limit bluntly.
fn cut_all(list: &Vec<String>, limit: usize) -> (r: Vec<String>)
    ensures
        contents(r@) == cut_long(contents(list@), limit as int),
{
    let ghost all = contents(list@);
    let mut out: Vec<String> = Vec::new();
    let mut i: usize = 0;
    assert(contents(out@) =~= cut_long(all.take(0), limit as int));
    while i < list.len()
        invariant
            i <= list@.len(),
            all == contents(list@),
            contents(out@) == cut_long(all.take(i as int), limit as int),
        decreases list@.len() - i,
    {
        let ghost before = contents(out@);
        let text = &list[i];
        proof {
            assert(all.take(i + 1).drop_last() =~= all.take(i as int));
            assert(all.take(i + 1).last() == text@);
        }
        if nchars(text) <= limit || limit == 0 {
            out.push(text.clone());
            assert(contents(out@) =~= before.push(text@));
        } else {
            let mut cut = chop(&to_chars(text), limit);
            let ghost added = contents(cut@);
            out.append(&mut cut);
            assert(contents(out@) =~= before + added);
        }
        i += 1;
    }
    assert(all.take(i as int) =~= all);
    out
}

/// Breaks a text between its words, and a single unbroken token bluntly.
fn split_between_words(text: &str, limit: usize) -> (r: Vec<String>)
    requires
        limit > 0 || text@.len() == 0 || words(text@).len() >= 2,
    ensures
        contents(r@) == word_pieces(text@, limit as int),
{
    if nchars(text) <= limit {
        let mut out: Vec<String> = Vec::new();
        out.push(text.to_owned());
        assert(contents(out@) =~= seq![text@]);
        return out;
    }
    let s = to_chars(text);
    let tokens = split_words(&s);
    assert(contents(tokens@).len() == tokens@.len());
    if tokens.len() >= 2 {
        return cut_all(&pack(&tokens, limit), limit);
    }
    // A single unbroken token longer than the limit: cut it bluntly.
    chop(&s, limit)
}

/// Breaks a single over-long sentence, preferring clause then word boundaries.
pub fn hard_split(text: &str, limit: usize) -> (r: Vec<String>)
    requires
        can_break(text@, limit as int),
    ensures
        contents(r@) == hard_pieces(text@, limit as int),
{
    if nchars(text) <= limit {
        let mut out: Vec<String> = Vec::new();
        out.push(text.to_owned());
        assert(contents(out@) =~= seq![text@]);
        return out;
    }
    // Clause boundaries first: breaking at a comma is far less audible than
    // breaking between two arbitrary words.
    let parts = split_after(text, &CLAUSE_ENDS);
    assert(contents(parts@).len() == parts@.len());
    if parts.len() < 2 {
        return split_between_words(text, limit);
    }
    let list = pack(&parts, limit);
    let ghost all = contents(list@);
    let mut out: Vec<String> = Vec::new();
    let mut i: usize = 0;
    assert(contents(out@) =~= break_long(all.take(0), limit as int));
    while i < list.len()
        invariant
            i <= list@.len(),
            all == contents(list@),
            contents(out@) == break_long(all.take(i as int), limit as int),
        decreases list@.len() - i,
    {
        let ghost before = contents(out@);
        let piece = &list[i];
        proof {
            assert(all.take(i + 1).drop_last() =~= all.take(i as int));
            assert(all.take(i + 1).last() == piece@);
        }
        if nchars(piece) <= limit || limit == 0 {
            out.push(piece.clone());
            assert(contents(out@) =~= before.push(piece@));
        } else {
            // A clause that is over the limit by itself.
            let mut broken = split_between_words(piece, limit);
            let ghost added = contents(broken@);
            out.append(&mut broken);
            assert(contents(out@) =~= before + added);
        }
        i += 1;
    }
    assert(all.take(i as int) =~= all);
    out
}

/// Cuts `s` every `limit` characters.
pub fn chop(s: &[char], limit: usize) -> (r: Vec<String>)
    requires
        limit > 0,
    ensures
        contents(r@) == cut_every(s@, limit as int),
{
    let mut out: Vec<String> = Vec::new();
    let len = s.len();
    let mut i: usize = 0;
    assert(s@.skip(0) == s@);
    assert(contents(out@) + cut_every(s@, limit as int) =~= cut_every(s@, limit as int));
    while len - i > limit
        invariant
            i <= len == s@.len(),
            limit > 0,
            contents(out@) + cut_every(s@.skip(i as int), limit as int) == cut_every(
                s@,
                limit as int,
            ),
        decreases len - i,
    {
        let ghost before = contents(out@);
        let ghost rest = s@.skip(i as int);
        out.push(substring(s, i, i + limit));
        proof {
            assert(rest.take(limit as int) == s@.subrange(i as int, i + limit));
            assert(rest.skip(limit as int) == s@.skip(i + limit));
            assert(contents(out@) == before.push(rest.take(limit as int)));
            assert(contents(out@) + cut_every(s@.skip(i + limit), limit as int) =~= before
                + cut_every(rest, limit as int));
        }
        i += limit;
    }
    let ghost before = contents(out@);
    if i < len {
        out.push(substring(s, i, len));
        assert(s@.skip(i as int) == s@.subrange(i as int, len as int));
        assert(contents(out@) =~= before + seq![s@.skip(i as int)]);
    } else {
        assert(before + Seq::<Seq<char>>::empty() =~= before);
    }
    out
}

} // verus!
