//! Where sentences end.

use vstd::prelude::*;

use vstd::slice::slice_subrange;

use crate::chars::{
    alphanumeric, back_over_spaces, contents, ends_with, has_suffix, is_alphanumeric, is_blank,
    is_space, lemma_space_end, lowercase, skip_spaces, space_end, substring, to_chars, to_lowercase,
    trim, trim_bounds, trim_end,
};

verus! {

/// Titles and abbreviations whose trailing dot does not end a sentence, in
/// lower case. Splitting on these would insert an audible pause mid-phrase
/// ("Dr. | Smith").
pub const ABBREVIATIONS: [&'static str; 43] = [
    "mr", "mrs", "ms", "mx", "dr", "prof", "rev", "hon", "sr", "jr", "st", "mt", "gen", "col",
    "sgt", "capt", "lt", "cmdr", "inc", "ltd", "co", "corp", "dept", "est", "fig", "no", "vol",
    "ch", "sec", "ref", "approx", "vs", "etc", "al", "ca", "cf", "viz", "i.e", "e.g", "a.m",
    "p.m", "u.s", "u.k",
];

/// Whether `lowered` ends with one of the abbreviations.
pub open spec fn has_abbreviation(lowered: Seq<char>) -> bool {
    exists|i: int| 0 <= i < ABBREVIATIONS@.len() && ends_with(lowered, #[trigger] ABBREVIATIONS@[i]@)
}

/// Whether `lowered`, a text already in lower case, ends with one of the
/// abbreviations. They are matched as a plain suffix.
pub fn ends_with_abbreviation(lowered: &[char]) -> (r: bool)
    ensures
        r == has_abbreviation(lowered@),
{
    let mut i: usize = 0;
    while i < 43
        invariant
            i <= 43,
            forall|k: int| 0 <= k < i ==> !ends_with(lowered@, #[trigger] ABBREVIATIONS@[k]@),
        decreases 43 - i,
    {
        let abbreviation = to_chars(ABBREVIATIONS[i]);
        if has_suffix(lowered, &abbreviation) {
            assert(ends_with(lowered@, ABBREVIATIONS@[i as int]@));
            return true;
        }
        i += 1;
    }
    false
}

/// Whether `c` is terminal punctuation, which can end a sentence.
pub open spec fn is_terminal(c: char) -> bool {
    c == '.' || c == '!' || c == '?' || c == '\u{2026}'
}

/// Whether `c` is a closing quote or bracket, which may stand between the
/// punctuation that ends a sentence and the space after it.
pub open spec fn is_closer(c: char) -> bool {
    c == '"' || c == '\'' || c == ')' || c == ']' || c == '\u{201d}' || c == '\u{2019}'
}

/// Whether `c` can end a sentence.
pub fn terminal(c: char) -> (r: bool)
    ensures
        r == is_terminal(c),
{
    c == '.' || c == '!' || c == '?' || c == '\u{2026}'
}

/// Whether `c` is a closing quote or bracket.
pub fn closer(c: char) -> (r: bool)
    ensures
        r == is_closer(c),
{
    c == '"' || c == '\'' || c == ')' || c == ']' || c == '\u{201d}' || c == '\u{2019}'
}

/// Whether `c` is a letter of the Latin alphabet without diacritics.
pub open spec fn is_ascii_letter(c: char) -> bool {
    'a' <= c <= 'z' || 'A' <= c <= 'Z'
}

/// Whether the dot at `dot` follows a single initial, as in "J. Smith": one
/// letter that nothing a word is made of comes before.
pub open spec fn is_initial(s: Seq<char>, dot: int) -> bool {
    &&& 1 <= dot
    &&& is_ascii_letter(s[dot - 1])
    &&& !(2 <= dot && (alphanumeric(s[dot - 2]) || s[dot - 2] == '_'))
}

/// Whether the text up to `end` closes with the dot of an abbreviation or an
/// initial, so that no sentence ends there.
pub open spec fn vetoed(s: Seq<char>, end: int) -> bool {
    &&& 0 < end
    &&& s[end - 1] == '.'
    &&& is_initial(s, end - 1) || has_abbreviation(lowercase(s.subrange(0, end - 1)))
}

/// The sentence boundary at `s[i]`, if there is one: terminal punctuation that
/// is not vetoed, then at most one closer, then white space. It covers the
/// closer and the white space, so the text on either side of it is what a split
/// yields.
pub open spec fn break_at(s: Seq<char>, i: int) -> Option<(int, int)> {
    let start = i + 1;
    let cursor = if start < s.len() && is_closer(s[start]) {
        start + 1
    } else {
        start
    };
    let end = space_end(s, cursor);
    if is_terminal(s[i]) && !vetoed(s, start) && cursor < end {
        Some((start, end))
    } else {
        None
    }
}

/// The sentence boundaries at `s[i]` and after it, in order.
pub open spec fn breaks_from(s: Seq<char>, i: int) -> Seq<(int, int)>
    decreases s.len() - i,
{
    if 0 <= i < s.len() {
        match break_at(s, i) {
            Some(b) => seq![b] + breaks_from(s, i + 1),
            None => breaks_from(s, i + 1),
        }
    } else {
        Seq::empty()
    }
}

/// The sentence boundaries of `s`, in order.
pub open spec fn breaks(s: Seq<char>) -> Seq<(int, int)> {
    breaks_from(s, 0)
}

/// The pieces that `cuts` leaves of `s`: what is before, between and after them.
pub open spec fn pieces(s: Seq<char>, cuts: Seq<(int, int)>) -> Seq<Seq<char>> {
    Seq::new(
        cuts.len() + 1,
        |k: int|
            s.subrange(
                if k == 0 {
                    0
                } else {
                    cuts[k - 1].1
                },
                if k == cuts.len() {
                    s.len() as int
                } else {
                    cuts[k].0
                },
            ),
    )
}

/// The pieces of `s` between its sentence boundaries, blank ones left out.
pub open spec fn sentences(s: Seq<char>) -> Seq<Seq<char>> {
    pieces(s, breaks(s)).filter(|p: Seq<char>| !is_blank(p))
}

/// The end of the line that `s[i]` is in.
pub open spec fn line_end(s: Seq<char>, i: int) -> int
    decreases s.len() - i,
{
    if 0 <= i < s.len() && s[i] != '\n' {
        line_end(s, i + 1)
    } else {
        i
    }
}

/// Where a line ends, and what is known of its inside.
pub proof fn lemma_line_end(s: Seq<char>, i: int)
    requires
        0 <= i <= s.len(),
    ensures
        i <= line_end(s, i) <= s.len(),
        forall|k: int| i <= k < line_end(s, i) ==> #[trigger] s[k] != '\n',
        line_end(s, i) < s.len() ==> s[line_end(s, i)] == '\n',
    decreases s.len() - i,
{
    if i < s.len() && s[i] != '\n' {
        lemma_line_end(s, i + 1);
    }
}

/// The sentences of one line, each without the white space at either end.
pub open spec fn line_sentences(line: Seq<char>) -> Seq<Seq<char>> {
    sentences(trim(line)).map_values(|p: Seq<char>| trim(p))
}

/// The sentences of the lines of `s` from `i` on. A newline ends a sentence
/// whether or not it is punctuated.
pub open spec fn sentences_from(s: Seq<char>, i: int) -> Seq<Seq<char>>
    decreases s.len() - i,
    via sentences_decrease
{
    if 0 <= i <= s.len() {
        let end = line_end(s, i);
        let here = line_sentences(s.subrange(i, end));
        if end < s.len() {
            here + sentences_from(s, end + 1)
        } else {
            here
        }
    } else {
        Seq::empty()
    }
}

#[via_fn]
proof fn sentences_decrease(s: Seq<char>, i: int) {
    if 0 <= i <= s.len() {
        lemma_line_end(s, i);
    }
}

/// The sentences of `text`, in order.
pub open spec fn text_sentences(text: Seq<char>) -> Seq<Seq<char>> {
    sentences_from(trim(text), 0)
}

/// Whether `s` ends on sentence-final punctuation, white space and one closer
/// after it aside.
pub open spec fn ends_on_terminal(s: Seq<char>) -> bool {
    let t = trim_end(s);
    if t.len() > 0 && is_closer(t.last()) {
        t.len() > 1 && is_terminal(t[t.len() - 2])
    } else {
        t.len() > 0 && is_terminal(t.last())
    }
}

/// The contents of a list of boundaries.
pub open spec fn spans(list: Seq<(usize, usize)>) -> Seq<(int, int)> {
    Seq::new(list.len(), |i: int| (list[i].0 as int, list[i].1 as int))
}

/// What is known of a single boundary.
pub proof fn lemma_break_at(s: Seq<char>, i: int)
    requires
        0 <= i < s.len(),
    ensures
        break_at(s, i) matches Some(b) ==> {
            &&& b.0 == i + 1
            &&& b.0 < b.1 <= s.len()
            &&& is_space(s[b.1 - 1])
            &&& forall|k: int|
                b.0 <= k < b.1 ==> is_space(#[trigger] s[k]) || k == b.0 && is_closer(s[k])
            &&& b.1 < s.len() ==> !is_space(s[b.1])
        },
{
    let start = i + 1;
    let cursor = if start < s.len() && is_closer(s[start]) {
        start + 1
    } else {
        start
    };
    lemma_space_end(s, cursor);
}

/// The boundaries of a text lie inside it, each after the one before it, and
/// never touch: between two of them stands at least the punctuation that the
/// second one follows.
pub proof fn lemma_breaks_from(s: Seq<char>, i: int)
    requires
        0 <= i,
    ensures
        forall|k: int| #![trigger breaks_from(s, i)[k]]
            0 <= k < breaks_from(s, i).len() ==> {
                let b = breaks_from(s, i)[k];
                &&& i < b.0 < b.1 <= s.len()
                &&& break_at(s, b.0 - 1) == Some(b)
            },
        forall|k: int, l: int|
            0 <= k < l < breaks_from(s, i).len() ==> (#[trigger] breaks_from(s, i)[k]).1 < (
            #[trigger] breaks_from(s, i)[l]).0,
    decreases s.len() - i,
{
    if i < s.len() {
        lemma_breaks_from(s, i + 1);
        lemma_break_at(s, i);
        let rest = breaks_from(s, i + 1);
        if let Some(b) = break_at(s, i) {
            assert forall|l: int| 0 <= l < rest.len() implies b.1 < (#[trigger] rest[l]).0 by {
                let at = rest[l].0 - 1;
                assert(break_at(s, at) == Some(rest[l]));
                assert(is_terminal(s[at]));
                if at < b.1 {
                    assert(is_space(s[at]) || is_closer(s[at]));
                }
            }
            assert forall|k: int| 0 <= k < breaks_from(s, i).len() implies {
                let b = #[trigger] breaks_from(s, i)[k];
                &&& i < b.0 < b.1 <= s.len()
                &&& break_at(s, b.0 - 1) == Some(b)
            } by {
                if k > 0 {
                    assert(breaks_from(s, i)[k] == rest[k - 1]);
                }
            }
            assert forall|k: int, l: int| 0 <= k < l < breaks_from(s, i).len() implies (
            #[trigger] breaks_from(s, i)[k]).1 < (#[trigger] breaks_from(s, i)[l]).0 by {
                assert(breaks_from(s, i)[l] == rest[l - 1]);
                if k > 0 {
                    assert(breaks_from(s, i)[k] == rest[k - 1]);
                }
            }
        }
    }
}

/// Whether the text ending at `end` closes with an abbreviation or an initial
/// rather than with the end of a sentence. Only a dot is ambiguous: "!" and "?"
/// always end a sentence.
pub fn is_vetoed(text: &[char], end: usize) -> (r: bool)
    requires
        end <= text@.len(),
    ensures
        r == vetoed(text@, end as int),
{
    if end == 0 || text[end - 1] != '.' {
        return false;
    }
    let dot = end - 1;
    if dot >= 1 {
        let letter = text[dot - 1];
        if ('a' <= letter && letter <= 'z') || ('A' <= letter && letter <= 'Z') {
            let in_word = if dot >= 2 {
                let before = text[dot - 2];
                is_alphanumeric(before) || before == '_'
            } else {
                false
            };
            if !in_word {
                return true;
            }
        }
    }
    let lowered = to_lowercase(&substring(text, 0, dot));
    ends_with_abbreviation(&to_chars(&lowered))
}

/// The separators at every sentence boundary in `text`.
///
/// A boundary is terminal punctuation, then an optional closing quote or
/// bracket, then white space. The range covers the closer and the white space.
/// Decimals like "3.5" never match, since the dot there is not followed by white
/// space.
pub fn sentence_breaks(text: &[char]) -> (r: Vec<(usize, usize)>)
    ensures
        spans(r@) == breaks(text@),
{
    let mut found: Vec<(usize, usize)> = Vec::new();
    let len = text.len();
    let mut i: usize = 0;
    while i < len
        invariant
            i <= len == text@.len(),
            spans(found@) + breaks_from(text@, i as int) == breaks(text@),
        decreases len - i,
    {
        let ghost before = spans(found@);
        if terminal(text[i]) && !is_vetoed(text, i + 1) {
            let start = i + 1;
            let cursor = if start < len && closer(text[start]) {
                start + 1
            } else {
                start
            };
            let end = skip_spaces(text, cursor);
            if end > cursor {
                found.push((start, end));
                assert(spans(found@) == before.push((start as int, end as int)));
                assert(spans(found@) + breaks_from(text@, i + 1) == before + breaks_from(
                    text@,
                    i as int,
                ));
            }
        }
        i += 1;
    }
    assert(spans(found@) + breaks_from(text@, len as int) == spans(found@));
    found
}

/// The pieces of `s` that `list` tells where to find.
pub open spec fn cut_out(s: Seq<char>, list: Seq<(usize, usize)>) -> Seq<Seq<char>> {
    Seq::new(list.len(), |k: int| s.subrange(list[k].0 as int, list[k].1 as int))
}

/// Adds a piece of `text` to `found`, unless it is blank.
fn push_solid(text: &[char], from: usize, to: usize, found: &mut Vec<(usize, usize)>)
    requires
        from <= to <= text@.len(),
    ensures
        final(found)@ == if is_blank(text@.subrange(from as int, to as int)) {
            old(found)@
        } else {
            old(found)@.push((from, to))
        },
{
    let ghost piece = text@.subrange(from as int, to as int);
    let solid = skip_spaces(text, from);
    proof {
        lemma_space_end(text@, from as int);
        assert(forall|n: int| 0 <= n < piece.len() ==> #[trigger] piece[n] == text@[from + n]);
        if solid < to {
            assert(!is_space(piece[solid - from]));
        }
    }
    if solid < to {
        found.push((from, to));
    }
}

/// Splits `text` at every sentence boundary, dropping blank pieces: where each
/// piece starts and ends.
pub fn split_sentences(text: &[char]) -> (r: Vec<(usize, usize)>)
    ensures
        forall|k: int| 0 <= k < r@.len() ==> (#[trigger] r@[k]).0 <= r@[k].1 <= text@.len(),
        cut_out(text@, r@) == sentences(text@),
{
    let cuts = sentence_breaks(text);
    let ghost marks = breaks(text@);
    let ghost all = pieces(text@, marks);
    let ghost solid = |p: Seq<char>| !is_blank(p);
    let mut found: Vec<(usize, usize)> = Vec::new();
    let mut prev: usize = 0;
    let mut k: usize = 0;
    proof {
        lemma_breaks_from(text@, 0);
        assert(all.take(0).filter(solid) =~= Seq::empty());
        assert(cut_out(text@, found@) =~= Seq::empty());
    }
    while k < cuts.len()
        invariant
            k <= cuts@.len() == marks.len(),
            spans(cuts@) == marks,
            marks == breaks_from(text@, 0),
            all == pieces(text@, marks),
            solid == (|p: Seq<char>| !is_blank(p)),
            prev == if k == 0 {
                0
            } else {
                marks[k - 1].1
            },
            prev <= text@.len(),
            forall|n: int|
                0 <= n < found@.len() ==> (#[trigger] found@[n]).0 <= found@[n].1 <= text@.len(),
            cut_out(text@, found@) == all.take(k as int).filter(solid),
        decreases cuts@.len() - k,
    {
        proof {
            lemma_breaks_from(text@, 0);
            assert(spans(cuts@)[k as int] == marks[k as int]);
            if 0 < k {
                assert(marks[k - 1].1 < marks[k as int].0);
            }
            assert(all[k as int] == text@.subrange(prev as int, cuts@[k as int].0 as int));
            lemma_one_more(text@, found@, all, k as int, (prev, cuts@[k as int].0));
        }
        push_solid(text, prev, cuts[k].0, &mut found);
        prev = cuts[k].1;
        k += 1;
    }
    let len = text.len();
    proof {
        assert(all[k as int] == text@.subrange(prev as int, len as int));
        lemma_one_more(text@, found@, all, k as int, (prev, len));
        assert(all.take(all.len() as int) == all);
    }
    push_solid(text, prev, len, &mut found);
    found
}

/// Taking one more piece into account: a blank one changes nothing, any other
/// one is added at the end.
proof fn lemma_one_more(
    s: Seq<char>,
    found: Seq<(usize, usize)>,
    all: Seq<Seq<char>>,
    k: int,
    piece: (usize, usize),
)
    requires
        0 <= k < all.len(),
        all[k] == s.subrange(piece.0 as int, piece.1 as int),
        cut_out(s, found) == all.take(k).filter(|p: Seq<char>| !is_blank(p)),
    ensures
        cut_out(
            s,
            if is_blank(all[k]) {
                found
            } else {
                found.push(piece)
            },
        ) == all.take(k + 1).filter(|p: Seq<char>| !is_blank(p)),
{
    let solid = |p: Seq<char>| !is_blank(p);
    assert(all.take(k + 1).drop_last() == all.take(k));
    reveal(Seq::filter);
    if !is_blank(all[k]) {
        assert(cut_out(s, found.push(piece)) == cut_out(s, found).push(all[k]));
    }
}

/// The sentences of `text`, line by line, each without the white space at
/// either end.
pub fn sentences_of(text: &str) -> (r: Vec<String>)
    ensures
        contents(r@) == text_sentences(text@),
{
    let chars = to_chars(text);
    let (from, to) = trim_bounds(&chars);
    let s = slice_subrange(chars.as_slice(), from, to);
    let len = s.len();
    let mut found: Vec<String> = Vec::new();
    let mut i: usize = 0;
    assert(contents(found@) + sentences_from(s@, 0) =~= sentences_from(s@, 0));
    loop
        invariant_except_break
            contents(found@) + sentences_from(s@, i as int) == sentences_from(s@, 0),
        invariant
            i <= len == s@.len(),
        ensures
            contents(found@) == sentences_from(s@, 0),
        decreases len - i,
    {
        let mut end = i;
        while end < len && s[end] != '\n'
            invariant
                i <= end <= len == s@.len(),
                line_end(s@, end as int) == line_end(s@, i as int),
            decreases len - end,
        {
            end += 1;
        }
        let ghost before = contents(found@);
        let ghost here = line_sentences(s@.subrange(i as int, end as int));
        let line = slice_subrange(s, i, end);
        let (line_from, line_to) = trim_bounds(line);
        let block = slice_subrange(line, line_from, line_to);
        let spots = split_sentences(block);
        let mut k: usize = 0;
        assert(contents(found@) =~= before + here.take(0));
        while k < spots.len()
            invariant
                k <= spots@.len() == here.len(),
                here == sentences(block@).map_values(|p: Seq<char>| trim(p)),
                cut_out(block@, spots@) == sentences(block@),
                forall|n: int|
                    0 <= n < spots@.len() ==> (#[trigger] spots@[n]).0 <= spots@[n].1
                        <= block@.len(),
                contents(found@) == before + here.take(k as int),
            decreases spots@.len() - k,
        {
            let (a, b) = spots[k];
            let piece = slice_subrange(block, a, b);
            let (piece_from, piece_to) = trim_bounds(piece);
            proof {
                assert(cut_out(block@, spots@)[k as int] == piece@);
                assert(here[k as int] == trim(piece@));
            }
            let ghost was = contents(found@);
            found.push(substring(piece, piece_from, piece_to));
            assert(contents(found@) =~= was.push(here[k as int]));
            assert(here.take(k + 1) =~= here.take(k as int).push(here[k as int]));
            k += 1;
        }
        assert(here.take(here.len() as int) == here);
        if end == len {
            break;
        }
        assert(contents(found@) + sentences_from(s@, end + 1) =~= before + sentences_from(
            s@,
            i as int,
        ));
        i = end + 1;
    }
    found
}

/// Splits at the last sentence boundary: where the head ends, and where the
/// tail starts.
pub fn rsplit_sentence(text: &[char]) -> (r: Option<(usize, usize)>)
    ensures
        r is None <==> breaks(text@).len() == 0,
        r matches Some(cut) ==> breaks(text@).last() == (cut.0 as int, cut.1 as int) && cut.0
            < cut.1 <= text@.len(),
{
    let cuts = sentence_breaks(text);
    assert(spans(cuts@).len() == cuts@.len());
    if cuts.len() == 0 {
        None
    } else {
        let last = cuts[cuts.len() - 1];
        proof {
            lemma_breaks_from(text@, 0);
            assert(spans(cuts@).last() == (last.0 as int, last.1 as int));
        }
        Some(last)
    }
}

/// Whether a chunk ends on sentence-final punctuation.
///
/// Synthesising each chunk separately clips the pause the model would have put
/// between sentences, so the caller reinstates one: but only here, never at a
/// boundary that merely split an over-long sentence.
pub fn ends_sentence(chunk: &str) -> (r: bool)
    ensures
        r == ends_on_terminal(chunk@),
{
    let chars = to_chars(chunk);
    let end = back_over_spaces(&chars, chars.len());
    if end == 0 {
        false
    } else if closer(chars[end - 1]) {
        end >= 2 && terminal(chars[end - 2])
    } else {
        terminal(chars[end - 1])
    }
}

} // verus!
