//! Preparing phonemes for the model.

use vstd::prelude::*;

pub mod model;

use crate::chars::{contents, nchars, split_words, substring, to_chars, trim, trimmed, words};
use crate::phonemes::MAX_PHONEME_LENGTH;
use crate::text::split::{chop, cut_every};

verus! {

/// The model always outputs at this rate.
pub const SAMPLE_RATE: u32 = 24_000;

/// The most phonemes that a batch holds: fewer than the model's context.
pub const LONGEST_RUN: usize = 509;

/// Whether a phoneme string is best broken after `c`.
pub open spec fn is_break(c: char) -> bool {
    c == '.' || c == ',' || c == '!' || c == '?' || c == ';'
}

/// Whether a phoneme string is best broken after `c`.
fn is_break_mark(c: char) -> (r: bool)
    ensures
        r == is_break(c),
{
    c == '.' || c == ',' || c == '!' || c == '?' || c == ';'
}

/// `s` split on punctuation from `i` on, the marks kept as parts of their own;
/// the part that `s[i]` is in starts at `prev`.
pub open spec fn marked_parts(s: Seq<char>, prev: int, i: int) -> Seq<Seq<char>>
    decreases s.len() - i,
{
    if 0 <= i < s.len() {
        if is_break(s[i]) {
            seq![s.subrange(prev, i), s.subrange(i, i + 1)] + marked_parts(s, i + 1, i + 1)
        } else {
            marked_parts(s, prev, i + 1)
        }
    } else {
        seq![s.subrange(prev, s.len() as int)]
    }
}

/// Words that fit the model's context, a longer one cut bluntly.
pub open spec fn fitting_words(list: Seq<Seq<char>>) -> Seq<Seq<char>>
    decreases list.len(),
{
    if list.len() == 0 {
        Seq::empty()
    } else if list.last().len() < MAX_PHONEME_LENGTH {
        fitting_words(list.drop_last()).push(list.last())
    } else {
        fitting_words(list.drop_last()) + cut_every(list.last(), LONGEST_RUN as int)
    }
}

/// What a part comes to once the white space at either end is gone: nothing of a
/// blank one, and the words of one that does not fit the model's context.
pub open spec fn fitting(part: Seq<char>) -> Seq<Seq<char>> {
    let t = trim(part);
    if t.len() == 0 {
        Seq::empty()
    } else if t.len() < MAX_PHONEME_LENGTH {
        seq![t]
    } else {
        fitting_words(words(t))
    }
}

/// All the parts that fit, in order.
pub open spec fn fitting_parts(list: Seq<Seq<char>>) -> Seq<Seq<char>>
    decreases list.len(),
{
    if list.len() == 0 {
        Seq::empty()
    } else {
        fitting_parts(list.drop_last()) + fitting(list.last())
    }
}

/// Packs `parts[i..]` into batches of fewer phonemes than the model's context;
/// `current` is the batch being filled. A mark follows what came before directly,
/// anything else after a space.
pub open spec fn batched(parts: Seq<Seq<char>>, current: Seq<char>, i: int) -> Seq<Seq<char>>
    decreases parts.len() - i,
{
    if 0 <= i < parts.len() {
        let part = parts[i];
        if current.len() == 0 {
            batched(parts, part, i + 1)
        } else if current.len() + part.len() + 1 >= MAX_PHONEME_LENGTH {
            seq![trim(current)] + batched(parts, part, i + 1)
        } else if part.len() == 1 && is_break(part[0]) {
            batched(parts, current + part, i + 1)
        } else {
            batched(parts, current.push(' ') + part, i + 1)
        }
    } else if current.len() == 0 {
        Seq::empty()
    } else {
        seq![trim(current)]
    }
}

/// The batches of a phoneme string.
pub open spec fn batches(phonemes: Seq<char>) -> Seq<Seq<char>> {
    batched(fitting_parts(marked_parts(phonemes, 0, 0)), Seq::empty(), 0)
}

/// Adds to `parts` what `part` comes to.
fn push_fitting(part: &[char], parts: &mut Vec<String>)
    ensures
        contents(final(parts)@) == contents(old(parts)@) + fitting(part@),
{
    let whole = trimmed(&substring(part, 0, part.len()));
    assert(part@.subrange(0, part@.len() as int) =~= part@);
    let ghost before = contents(parts@);
    let count = nchars(&whole);
    if count == 0 {
        assert(before + Seq::<Seq<char>>::empty() =~= before);
    } else if count < MAX_PHONEME_LENGTH {
        parts.push(whole);
        assert(contents(parts@) =~= before + seq![whole@]);
    } else {
        let list = split_words(&to_chars(&whole));
        let ghost all = contents(list@);
        let mut k: usize = 0;
        assert(contents(parts@) =~= before + fitting_words(all.take(0)));
        while k < list.len()
            invariant
                k <= list@.len(),
                all == contents(list@),
                contents(parts@) == before + fitting_words(all.take(k as int)),
            decreases list@.len() - k,
        {
            let ghost was = contents(parts@);
            proof {
                assert(all.take(k + 1).drop_last() =~= all.take(k as int));
                assert(all.take(k + 1).last() == list@[k as int]@);
            }
            let word = &list[k];
            if nchars(word) < MAX_PHONEME_LENGTH {
                parts.push(word.clone());
                assert(contents(parts@) =~= was.push(word@));
                assert(before + fitting_words(all.take(k as int)).push(word@) =~= was.push(word@));
            } else {
                let mut cut = chop(&to_chars(word), LONGEST_RUN);
                let ghost added = contents(cut@);
                parts.append(&mut cut);
                assert(contents(parts@) =~= was + added);
                assert(before + (fitting_words(all.take(k as int)) + added) =~= was + added);
            }
            k += 1;
        }
        assert(all.take(k as int) =~= all);
    }
}

/// Splits a phoneme string into batches that fit the model's context.
///
/// Chunks are already sized so this rarely fires, but a chunk dense in short
/// words can still exceed the context. Splits land on punctuation where possible
/// and else between words, since a break mid-word is audible; only a single word
/// longer than the context is cut.
pub fn split_phonemes(phonemes: &str) -> (r: Vec<String>)
    ensures
        contents(r@) == batches(phonemes@),
{
    let s = to_chars(phonemes);
    let len = s.len();
    let ghost all = marked_parts(s@, 0, 0);
    let ghost mut seen: Seq<Seq<char>> = Seq::empty();
    let mut parts: Vec<String> = Vec::new();
    let mut prev: usize = 0;
    let mut i: usize = 0;
    assert(contents(parts@) =~= fitting_parts(seen));
    assert(seen + marked_parts(s@, 0, 0) =~= all);
    while i < len
        invariant
            prev <= i <= len == s@.len(),
            all == marked_parts(s@, 0, 0),
            seen + marked_parts(s@, prev as int, i as int) == all,
            contents(parts@) == fitting_parts(seen),
        decreases len - i,
    {
        if is_break_mark(s[i]) {
            let ghost text = s@.subrange(prev as int, i as int);
            let ghost mark = s@.subrange(i as int, i + 1);
            push_fitting(vstd::slice::slice_subrange(s.as_slice(), prev, i), &mut parts);
            push_fitting(vstd::slice::slice_subrange(s.as_slice(), i, i + 1), &mut parts);
            proof {
                let before = seen;
                assert(before.push(text).drop_last() =~= before);
                assert(before.push(text).push(mark).drop_last() =~= before.push(text));
                assert(fitting_parts(before.push(text)) == fitting_parts(before) + fitting(text));
                seen = before.push(text).push(mark);
                assert(fitting_parts(seen) == fitting_parts(before.push(text)) + fitting(mark));
                assert(seen + marked_parts(s@, i + 1, i + 1) =~= before + marked_parts(
                    s@,
                    prev as int,
                    i as int,
                ));
            }
            prev = i + 1;
        }
        i += 1;
    }
    push_fitting(vstd::slice::slice_subrange(s.as_slice(), prev, len), &mut parts);
    proof {
        assert(all.drop_last() =~= seen);
        assert(all.last() == s@.subrange(prev as int, len as int));
    }
    let ghost fitted = contents(parts@);
    let ghost goal = batched(fitted, Seq::empty(), 0);
    let mut out: Vec<String> = Vec::new();
    let mut current = String::new();
    let mut k: usize = 0;
    assert(contents(out@) + goal =~= goal);
    while k < parts.len()
        invariant
            k <= parts@.len(),
            fitted == contents(parts@),
            contents(out@) + batched(fitted, current@, k as int) == goal,
        decreases parts@.len() - k,
    {
        let ghost before = contents(out@);
        let ghost was = current@;
        let part = &parts[k];
        assert(fitted[k as int] == part@);
        let held = nchars(&current);
        let count = nchars(part);
        // Lengths are in characters.
        if held == 0 {
            current = part.clone();
        } else if held >= MAX_PHONEME_LENGTH || count >= MAX_PHONEME_LENGTH || held + count + 1
            >= MAX_PHONEME_LENGTH {
            out.push(trimmed(&current));
            current = part.clone();
            proof {
                assert(contents(out@) =~= before.push(trim(was)));
                assert(contents(out@) + batched(fitted, current@, k + 1) =~= before + batched(
                    fitted,
                    was,
                    k as int,
                ));
            }
        } else {
            let is_mark = count == 1 && is_break_mark(part.get_char(0));
            if !is_mark {
                current.push(' ');
            }
            current.append(part);
        }
        k += 1;
    }
    let ghost before = contents(out@);
    if !current.as_str().is_empty() {
        out.push(trimmed(&current));
        assert(contents(out@) =~= before + seq![trim(current@)]);
    } else {
        assert(before + Seq::<Seq<char>>::empty() =~= before);
    }
    out
}

} // verus!
