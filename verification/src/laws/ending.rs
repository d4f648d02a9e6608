//! Where sentences end, and where they do not.

use vstd::prelude::*;

use crate::chars::{
    alphanumeric, is_blank, is_space, lemma_space_end, lemma_space_start, lowercase, space_end,
    space_start, trim, trim_end,
};
use crate::text::sentences::{
    break_at, breaks, breaks_from, ends_on_terminal, has_abbreviation, lemma_break_at,
    lemma_breaks_from, line_end, line_sentences, pieces, sentences, sentences_from, text_sentences,
    vetoed, ABBREVIATIONS,
};

verus! {

/// The boundary at a place is among those from any place before it on.
proof fn lemma_break_is_found(s: Seq<char>, from: int, i: int)
    requires
        0 <= from <= i < s.len(),
        break_at(s, i) is Some,
    ensures
        breaks_from(s, from).contains(break_at(s, i)->0),
    decreases i - from,
{
    let b = break_at(s, i)->0;
    let list = breaks_from(s, from);
    if from == i {
        assert(list[0] == b);
    } else {
        lemma_break_is_found(s, from + 1, i);
        let rest = breaks_from(s, from + 1);
        let k = choose|k: int| 0 <= k < rest.len() && rest[k] == b;
        if break_at(s, from) is Some {
            assert(list[k + 1] == rest[k]);
        } else {
            assert(list[k] == rest[k]);
        }
    }
}

/// A sentence ends after a full stop, an exclamation mark, a question mark or an ellipsis
/// that white space follows, of which all is taken, and between which and the punctuation
/// one closing quote or bracket may stand, unless the dot is that of an abbreviation or an
/// initial.
pub proof fn sentences_end_after_their_punctuation(s: Seq<char>, i: int, after: int, end: int)
    requires
        0 <= i < after < end <= s.len(),
        s[i] == '.' || s[i] == '!' || s[i] == '?' || s[i] == '\u{2026}',
        !vetoed(s, i + 1),
        after == i + 1 || after == i + 2 && {
            let c = s[i + 1];
            c == '"' || c == '\'' || c == ')' || c == ']' || c == '\u{201d}' || c == '\u{2019}'
        },
        forall|k: int| after <= k < end ==> is_space(#[trigger] s[k]),
        end == s.len() || !is_space(s[end]),
    ensures
        breaks(s).contains((i + 1, end)),
{
    assert(is_space(s[after]));
    lemma_space_end(s, after);
    let stop = space_end(s, after);
    if stop < end {
        assert(is_space(s[stop]));
    }
    if end < stop {
        assert(is_space(s[end]));
    }
    assert(break_at(s, i) == Some((i + 1, end)));
    lemma_break_is_found(s, 0, i);
}

/// A sentence ends nowhere else, and where it ends the closing quote or bracket and all of
/// the white space are taken.
pub proof fn sentences_end_nowhere_else(s: Seq<char>, k: int)
    requires
        0 <= k < breaks(s).len(),
    ensures
        ({
            let b = breaks(s)[k];
            let c = s[b.0];
            let closed = c == '"' || c == '\'' || c == ')' || c == ']' || c == '\u{201d}' || c
                == '\u{2019}';
            &&& 1 <= b.0 < b.1 <= s.len()
            &&& s[b.0 - 1] == '.' || s[b.0 - 1] == '!' || s[b.0 - 1] == '?' || s[b.0 - 1]
                == '\u{2026}'
            &&& !vetoed(s, b.0)
            &&& closed ==> b.0 + 1 < b.1
            &&& forall|n: int|
                b.0 <= n < b.1 && !(closed && n == b.0) ==> is_space(#[trigger] s[n])
            &&& b.1 < s.len() ==> !is_space(s[b.1])
        }),
        k + 1 < breaks(s).len() ==> breaks(s)[k].1 < breaks(s)[k + 1].0,
{
    lemma_breaks_from(s, 0);
    let b = breaks_from(s, 0)[k];
    assert(break_at(s, b.0 - 1) == Some(b));
    lemma_break_at(s, b.0 - 1);
    let cursor = if b.0 < s.len() && (s[b.0] == '"' || s[b.0] == '\'' || s[b.0] == ')' || s[b.0]
        == ']' || s[b.0] == '\u{201d}' || s[b.0] == '\u{2019}') {
        b.0 + 1
    } else {
        b.0
    };
    lemma_space_end(s, cursor);
    assert(b.1 == space_end(s, cursor));
}

/// Only a dot can be that of an abbreviation or an initial: any other punctuation ends a
/// sentence whatever comes before it.
pub proof fn only_dots_are_ambiguous(s: Seq<char>, end: int)
    requires
        0 < end <= s.len(),
        s[end - 1] != '.',
    ensures
        !vetoed(s, end),
{
}

/// The dot after a single letter that no word goes on in is that of an initial.
pub proof fn initials_do_not_end_sentences(s: Seq<char>, dot: int)
    requires
        1 <= dot < s.len(),
        s[dot] == '.',
        65 <= s[dot - 1] as int <= 90 || 97 <= s[dot - 1] as int <= 122,
        dot == 1 || !alphanumeric(s[dot - 2]) && s[dot - 2] != '_',
    ensures
        vetoed(s, dot + 1),
{
}

/// The dot after an abbreviation, in letters of either case, ends no sentence.
pub proof fn abbreviations_do_not_end_sentences(s: Seq<char>, dot: int, before: Seq<char>, n: int)
    requires
        0 <= dot < s.len(),
        s[dot] == '.',
        0 <= n < ABBREVIATIONS@.len(),
        lowercase(s.subrange(0, dot)) == before + ABBREVIATIONS@[n]@,
    ensures
        vetoed(s, dot + 1),
{
    let lowered = before + ABBREVIATIONS@[n]@;
    let suffix = ABBREVIATIONS@[n]@;
    assert(lowered.subrange(lowered.len() - suffix.len(), lowered.len() as int) =~= suffix);
    assert(s.subrange(0, dot + 1 - 1) =~= s.subrange(0, dot));
    assert(has_abbreviation(lowercase(s.subrange(0, dot))));
}

/// Any other dot can end a sentence: one that comes neither after an abbreviation nor after
/// a single letter.
pub proof fn other_dots_end_sentences(s: Seq<char>, dot: int)
    requires
        0 <= dot < s.len(),
        s[dot] == '.',
        forall|n: int, before: Seq<char>|
            0 <= n < ABBREVIATIONS@.len() ==> lowercase(s.subrange(0, dot)) != #[trigger] (before
                + ABBREVIATIONS@[n]@),
        dot == 0 || !(65 <= s[dot - 1] as int <= 90 || 97 <= s[dot - 1] as int <= 122) || dot >= 2
            && (alphanumeric(s[dot - 2]) || s[dot - 2] == '_'),
    ensures
        !vetoed(s, dot + 1),
{
    assert(s.subrange(0, dot + 1 - 1) =~= s.subrange(0, dot));
    let lowered = lowercase(s.subrange(0, dot));
    if has_abbreviation(lowered) {
        let n = choose|n: int|
            0 <= n < ABBREVIATIONS@.len() && crate::chars::ends_with(
                lowered,
                #[trigger] ABBREVIATIONS@[n]@,
            );
        let suffix = ABBREVIATIONS@[n]@;
        assert(lowered =~= lowered.take(lowered.len() - suffix.len()) + suffix);
    }
}

/// Every piece between two boundaries, or at either end, is a sentence unless it is blank.
pub proof fn every_piece_between_breaks_is_a_sentence(s: Seq<char>, k: int)
    requires
        0 <= k <= breaks(s).len(),
    ensures
        ({
            let from = if k == 0 {
                0
            } else {
                breaks(s)[k - 1].1
            };
            let to = if k == breaks(s).len() {
                s.len() as int
            } else {
                breaks(s)[k].0
            };
            !is_blank(s.subrange(from, to)) ==> sentences(s).contains(s.subrange(from, to))
        }),
{
    let all = pieces(s, breaks(s));
    if !is_blank(all[k]) {
        all.lemma_filter_contains(|p: Seq<char>| !is_blank(p), k);
    }
}

/// Whether `piece` is what stands between the boundary before the place `k` and the one
/// after it, or between either end of the text and the boundary next to it.
pub open spec fn is_between_breaks(s: Seq<char>, piece: Seq<char>, k: int) -> bool {
    let cuts = breaks(s);
    let from = if k == 0 {
        0
    } else {
        cuts[k - 1].1
    };
    let to = if k == cuts.len() {
        s.len() as int
    } else {
        cuts[k].0
    };
    0 <= k <= cuts.len() && piece == s.subrange(from, to)
}

/// Nothing else is a sentence, and no piece is one twice.
pub proof fn sentences_are_pieces_between_breaks(s: Seq<char>, j: int)
    requires
        0 <= j < sentences(s).len(),
    ensures
        !is_blank(sentences(s)[j]),
        exists|k: int| #[trigger] is_between_breaks(s, sentences(s)[j], k),
        sentences(s).len() <= breaks(s).len() + 1,
{
    let all = pieces(s, breaks(s));
    let solid = |p: Seq<char>| !is_blank(p);
    let one = sentences(s)[j];
    assert(all.filter(solid).contains(one));
    all.lemma_filter_contains_rev(solid, one);
    all.lemma_filter_pred(solid, j);
    all.lemma_filter_len(solid);
    let k = choose|k: int| 0 <= k < all.len() && all[k] == one;
    assert(is_between_breaks(s, one, k));
}

/// White space at the end of a text makes no difference to how it ends.
pub proof fn white_space_ends_no_sentence(s: Seq<char>, blank: Seq<char>)
    requires
        is_blank(blank),
    ensures
        ends_on_terminal(s + blank) == ends_on_terminal(s),
    decreases blank.len(),
{
    if blank.len() == 0 {
        assert(s + blank =~= s);
    } else {
        let last = blank.last();
        let shorter = blank.drop_last();
        assert(is_space(blank[blank.len() - 1]));
        assert forall|i: int| 0 <= i < shorter.len() implies is_space(#[trigger] shorter[i]) by {
            assert(shorter[i] == blank[i]);
        }
        white_space_ends_no_sentence(s, shorter);
        let t = s + shorter;
        assert(s + blank =~= t.push(last));
        lemma_trimmed_end(t, last);
    }
}

/// White space at the end is trimmed away, and nothing else is.
proof fn lemma_trimmed_end(s: Seq<char>, c: char)
    ensures
        is_space(c) ==> trim_end(s.push(c)) == trim_end(s),
        !is_space(c) ==> trim_end(s.push(c)) == s.push(c),
{
    let more = s.push(c);
    if is_space(c) {
        lemma_same_start(s, c, s.len() as int);
        assert(space_start(more, more.len() as int) == space_start(more, s.len() as int));
        lemma_space_start(s, s.len() as int);
        assert(trim_end(more) =~= trim_end(s));
    } else {
        assert(space_start(more, more.len() as int) == more.len());
        assert(trim_end(more) =~= more);
    }
}

/// Where white space starts is settled by what comes before it.
proof fn lemma_same_start(s: Seq<char>, c: char, j: int)
    requires
        0 <= j <= s.len(),
    ensures
        space_start(s.push(c), j) == space_start(s, j),
    decreases j,
{
    if 0 < j {
        assert(s.push(c)[j - 1] == s[j - 1]);
        lemma_same_start(s, c, j - 1);
    }
}

/// A text ends a sentence exactly where its last character is a full stop, an exclamation
/// mark, a question mark or an ellipsis, or a closing quote or bracket right after one.
pub proof fn the_last_character_ends_the_sentence(s: Seq<char>, c: char)
    requires
        !is_space(c),
    ensures
        !ends_on_terminal(Seq::empty()),
        c == '.' || c == '!' || c == '?' || c == '\u{2026}' ==> ends_on_terminal(s.push(c)),
        c == '"' || c == '\'' || c == ')' || c == ']' || c == '\u{201d}' || c == '\u{2019}' ==> (
        ends_on_terminal(s.push(c)) <==> s.len() > 0 && (s.last() == '.' || s.last() == '!'
            || s.last() == '?' || s.last() == '\u{2026}')),
        ends_on_terminal(s.push(c)) ==> c == '.' || c == '!' || c == '?' || c == '\u{2026}' || c
            == '"' || c == '\'' || c == ')' || c == ']' || c == '\u{201d}' || c == '\u{2019}',
{
    lemma_trimmed_end(s, c);
    let none = Seq::<char>::empty();
    assert(trim_end(none) =~= none);
    assert(s.push(c).last() == c);
    if s.len() > 0 {
        assert(s.push(c)[s.push(c).len() - 2] == s.last());
    }
}

/// The line that starts at a place is the same when what comes before it is taken away.
proof fn lemma_same_line(s: Seq<char>, from: int, i: int)
    requires
        0 <= from <= i <= s.len(),
    ensures
        line_end(s.skip(from), i - from) == line_end(s, i) - from,
    decreases s.len() - i,
{
    let t = s.skip(from);
    if i < s.len() && s[i] != '\n' {
        assert(t[i - from] == s[i]);
        lemma_same_line(s, from, i + 1);
    } else if i < s.len() {
        assert(t[i - from] == s[i]);
    }
}

/// The sentences from a place on are those of the text from there on.
proof fn lemma_same_sentences(s: Seq<char>, from: int, i: int)
    requires
        0 <= from <= i <= s.len(),
    ensures
        sentences_from(s.skip(from), i - from) == sentences_from(s, i),
    decreases s.len() - i,
{
    let t = s.skip(from);
    let end = line_end(s, i);
    crate::text::sentences::lemma_line_end(s, i);
    lemma_same_line(s, from, i);
    assert(t.subrange(i - from, end - from) =~= s.subrange(i, end));
    if end < s.len() {
        lemma_same_sentences(s, from, end + 1);
    }
}

/// A line ends with a newline, and with nothing before it.
proof fn lemma_line(line: Seq<char>, rest: Seq<char>, i: int)
    requires
        0 <= i <= line.len(),
        !line.contains('\n'),
    ensures
        line_end(line + seq!['\n'] + rest, i) == line.len(),
        line_end(line, i) == line.len(),
    decreases line.len() - i,
{
    let s = line + seq!['\n'] + rest;
    if i < line.len() {
        assert(s[i] == line[i]);
        assert(line.contains(line[i]));
        lemma_line(line, rest, i + 1);
    } else {
        assert(s[i] == '\n');
    }
}

/// A newline ends a sentence whether or not it is punctuated: the sentences of a text are
/// those of its first line and then those of the text after it.
pub proof fn newlines_end_sentences(line: Seq<char>, rest: Seq<char>)
    requires
        !line.contains('\n'),
    ensures
        sentences_from(line + seq!['\n'] + rest, 0) == line_sentences(line) + sentences_from(
            rest,
            0,
        ),
        sentences_from(line, 0) == line_sentences(line),
{
    let s = line + seq!['\n'] + rest;
    lemma_line(line, rest, 0);
    assert(s.subrange(0, line.len() as int) =~= line);
    assert(line.subrange(0, line.len() as int) =~= line);
    let next = line.len() + 1;
    lemma_same_sentences(s, next as int, next as int);
    assert(s.skip(next as int) =~= rest);
}

/// The sentences of a line are told one by one, without the white space round each.
pub proof fn sentences_of_a_line_are_trimmed(line: Seq<char>, k: int)
    requires
        0 <= k < sentences(trim(line)).len(),
    ensures
        line_sentences(line).len() == sentences(trim(line)).len(),
        line_sentences(line)[k] == trim(sentences(trim(line))[k]),
{
}

/// A text that ends with one of the abbreviations has one.
proof fn lemma_abbreviation(before: Seq<char>, n: int)
    requires
        0 <= n < 43,
    ensures
        has_abbreviation(before + ABBREVIATIONS@[n]@),
{
    let suffix = ABBREVIATIONS@[n]@;
    let whole = before + suffix;
    assert(whole.subrange(whole.len() - suffix.len(), whole.len() as int) =~= suffix);
    assert(crate::chars::ends_with(whole, ABBREVIATIONS@[n]@));
}

/// These are the abbreviations, titles and the like, whatever comes before them.
pub proof fn these_are_abbreviations(before: Seq<char>)
    ensures
        ABBREVIATIONS@.len() == 43,
        has_abbreviation(before + "mr"@),
        has_abbreviation(before + "mrs"@),
        has_abbreviation(before + "ms"@),
        has_abbreviation(before + "mx"@),
        has_abbreviation(before + "dr"@),
        has_abbreviation(before + "prof"@),
        has_abbreviation(before + "rev"@),
        has_abbreviation(before + "hon"@),
        has_abbreviation(before + "sr"@),
        has_abbreviation(before + "jr"@),
        has_abbreviation(before + "st"@),
        has_abbreviation(before + "mt"@),
        has_abbreviation(before + "gen"@),
        has_abbreviation(before + "col"@),
        has_abbreviation(before + "sgt"@),
        has_abbreviation(before + "capt"@),
        has_abbreviation(before + "lt"@),
        has_abbreviation(before + "cmdr"@),
        has_abbreviation(before + "inc"@),
        has_abbreviation(before + "ltd"@),
        has_abbreviation(before + "co"@),
        has_abbreviation(before + "corp"@),
        has_abbreviation(before + "dept"@),
        has_abbreviation(before + "est"@),
        has_abbreviation(before + "fig"@),
        has_abbreviation(before + "no"@),
        has_abbreviation(before + "vol"@),
        has_abbreviation(before + "ch"@),
        has_abbreviation(before + "sec"@),
        has_abbreviation(before + "ref"@),
        has_abbreviation(before + "approx"@),
        has_abbreviation(before + "vs"@),
        has_abbreviation(before + "etc"@),
        has_abbreviation(before + "al"@),
        has_abbreviation(before + "ca"@),
        has_abbreviation(before + "cf"@),
        has_abbreviation(before + "viz"@),
        has_abbreviation(before + "i.e"@),
        has_abbreviation(before + "e.g"@),
        has_abbreviation(before + "a.m"@),
        has_abbreviation(before + "p.m"@),
        has_abbreviation(before + "u.s"@),
        has_abbreviation(before + "u.k"@),
{
    lemma_abbreviation(before, 0);
    lemma_abbreviation(before, 1);
    lemma_abbreviation(before, 2);
    lemma_abbreviation(before, 3);
    lemma_abbreviation(before, 4);
    lemma_abbreviation(before, 5);
    lemma_abbreviation(before, 6);
    lemma_abbreviation(before, 7);
    lemma_abbreviation(before, 8);
    lemma_abbreviation(before, 9);
    lemma_abbreviation(before, 10);
    lemma_abbreviation(before, 11);
    lemma_abbreviation(before, 12);
    lemma_abbreviation(before, 13);
    lemma_abbreviation(before, 14);
    lemma_abbreviation(before, 15);
    lemma_abbreviation(before, 16);
    lemma_abbreviation(before, 17);
    lemma_abbreviation(before, 18);
    lemma_abbreviation(before, 19);
    lemma_abbreviation(before, 20);
    lemma_abbreviation(before, 21);
    lemma_abbreviation(before, 22);
    lemma_abbreviation(before, 23);
    lemma_abbreviation(before, 24);
    lemma_abbreviation(before, 25);
    lemma_abbreviation(before, 26);
    lemma_abbreviation(before, 27);
    lemma_abbreviation(before, 28);
    lemma_abbreviation(before, 29);
    lemma_abbreviation(before, 30);
    lemma_abbreviation(before, 31);
    lemma_abbreviation(before, 32);
    lemma_abbreviation(before, 33);
    lemma_abbreviation(before, 34);
    lemma_abbreviation(before, 35);
    lemma_abbreviation(before, 36);
    lemma_abbreviation(before, 37);
    lemma_abbreviation(before, 38);
    lemma_abbreviation(before, 39);
    lemma_abbreviation(before, 40);
    lemma_abbreviation(before, 41);
    lemma_abbreviation(before, 42);
}

/// The sentences of a text are those of its lines, one line after the other, once the white
/// space at its ends is gone.
pub proof fn texts_are_split_line_by_line(text: Seq<char>, line: Seq<char>, rest: Seq<char>)
    requires
        !line.contains('\n'),
    ensures
        trim(text) == line ==> text_sentences(text) == line_sentences(line),
        trim(text) == line + seq!['\n'] + rest ==> text_sentences(text) == line_sentences(line)
            + sentences_from(rest, 0),
{
    newlines_end_sentences(line, rest);
}

} // verus!
