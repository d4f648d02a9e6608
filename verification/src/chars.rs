//! Text as a sequence of characters.
//!
//! Everything this library decides about text it decides one Unicode scalar
//! value at a time, so the contracts speak of `Seq<char>` and the code works on
//! slices of `char`; a `String` is only taken apart on the way in and put
//! together on the way out.

use vstd::prelude::*;

verus! {

/// What appending one character to a string does: [`String::push`] puts the
/// character at the end and leaves the rest alone.
pub assume_specification[ String::push ](s: &mut String, c: char)
    ensures
        final(s)@ == old(s)@.push(c),
;

/// Whether `c` counts as a letter or a digit: the result of
/// [`char::is_alphanumeric`], which goes by Unicode's character tables.
pub uninterp spec fn alphanumeric(c: char) -> bool;

/// Calls [`char::is_alphanumeric`], whose answer is a property of the character
/// alone.
#[verifier::external_body]
pub(crate) fn is_alphanumeric(c: char) -> (r: bool)
    ensures
        r == alphanumeric(c),
{
    c.is_alphanumeric()
}

/// `s` in lower case: the result of [`str::to_lowercase`], which goes by
/// Unicode's case mappings.
pub uninterp spec fn lowercase(s: Seq<char>) -> Seq<char>;

/// Calls [`str::to_lowercase`], whose result is a function of the text alone.
#[verifier::external_body]
pub(crate) fn to_lowercase(s: &str) -> (r: String)
    ensures
        r@ == lowercase(s@),
{
    s.to_lowercase()
}

/// `s` in double quotes, with what cannot be printed escaped: the result of
/// formatting a `str` with its [`std::fmt::Debug`], which goes by Unicode's
/// character tables.
pub uninterp spec fn quoted(s: Seq<char>) -> Seq<char>;

/// Formats a text with the `Debug` of `str`, whose result is a function of the text
/// alone.
#[verifier::external_body]
pub(crate) fn quote(s: &str) -> (r: String)
    ensures
        r@ == quoted(s@),
{
    format!("{s:?}")
}

/// Whether `c` is white space: the characters with Unicode's `White_Space`
/// property.
pub open spec fn is_space(c: char) -> bool {
    ||| '\u{9}' <= c <= '\u{d}'
    ||| c == ' '
    ||| c == '\u{85}'
    ||| c == '\u{a0}'
    ||| c == '\u{1680}'
    ||| '\u{2000}' <= c <= '\u{200a}'
    ||| c == '\u{2028}'
    ||| c == '\u{2029}'
    ||| c == '\u{202f}'
    ||| c == '\u{205f}'
    ||| c == '\u{3000}'
}

/// Whether `c` is white space.
pub fn is_whitespace(c: char) -> (r: bool)
    ensures
        r == is_space(c),
{
    ('\u{9}' <= c && c <= '\u{d}') || c == ' ' || c == '\u{85}' || c == '\u{a0}' || c == '\u{1680}'
        || ('\u{2000}' <= c && c <= '\u{200a}') || c == '\u{2028}' || c == '\u{2029}' || c
        == '\u{202f}' || c == '\u{205f}' || c == '\u{3000}'
}

/// Whether every character of `s` is white space.
pub open spec fn is_blank(s: Seq<char>) -> bool {
    forall|i: int| 0 <= i < s.len() ==> is_space(#[trigger] s[i])
}

/// The characters of `s` that are not white space, in order.
pub open spec fn letters(s: Seq<char>) -> Seq<char> {
    s.filter(|c: char| !is_space(c))
}

/// The end of the run of white space that starts at `i`, which is `i` itself
/// where there is none.
pub open spec fn space_end(s: Seq<char>, i: int) -> int
    decreases s.len() - i,
{
    if 0 <= i < s.len() && is_space(s[i]) {
        space_end(s, i + 1)
    } else {
        i
    }
}

/// The start of the run of white space that ends at `j`.
pub open spec fn space_start(s: Seq<char>, j: int) -> int
    decreases j,
{
    if 0 < j <= s.len() && is_space(s[j - 1]) {
        space_start(s, j - 1)
    } else {
        j
    }
}

/// The end of the run of anything but white space that starts at `i`.
pub open spec fn word_end(s: Seq<char>, i: int) -> int
    decreases s.len() - i,
{
    if 0 <= i < s.len() && !is_space(s[i]) {
        word_end(s, i + 1)
    } else {
        i
    }
}

/// `s` without the white space at its end.
pub open spec fn trim_end(s: Seq<char>) -> Seq<char> {
    s.subrange(0, space_start(s, s.len() as int))
}

/// `s` without the white space at either end.
pub open spec fn trim(s: Seq<char>) -> Seq<char> {
    let from = space_end(s, 0);
    let to = space_start(s, s.len() as int);
    if from < to {
        s.subrange(from, to)
    } else {
        Seq::empty()
    }
}

/// The words of `s` from `i` on: its runs of anything but white space.
pub open spec fn words_from(s: Seq<char>, i: int) -> Seq<Seq<char>>
    decreases s.len() - i,
    via words_decrease
{
    let from = space_end(s, i);
    if 0 <= i && from < s.len() {
        let to = word_end(s, from);
        seq![s.subrange(from, to)] + words_from(s, to)
    } else {
        Seq::empty()
    }
}

#[via_fn]
proof fn words_decrease(s: Seq<char>, i: int) {
    lemma_space_end(s, i);
    if 0 <= i && space_end(s, i) < s.len() {
        lemma_word_end(s, space_end(s, i));
    }
}

/// The words of `s`.
pub open spec fn words(s: Seq<char>) -> Seq<Seq<char>> {
    words_from(s, 0)
}

/// `parts` one after the other, with `sep` between each two.
pub open spec fn join(parts: Seq<Seq<char>>, sep: Seq<char>) -> Seq<char>
    decreases parts.len(),
{
    if parts.len() == 0 {
        Seq::empty()
    } else if parts.len() == 1 {
        parts[0]
    } else {
        join(parts.drop_last(), sep) + sep + parts.last()
    }
}

/// Whether `s` ends with `suffix`.
pub open spec fn ends_with(s: Seq<char>, suffix: Seq<char>) -> bool {
    &&& suffix.len() <= s.len()
    &&& s.subrange(s.len() - suffix.len(), s.len() as int) == suffix
}

/// `s` with `by` in place of every space.
pub open spec fn with_spaces(s: Seq<char>, by: Seq<char>) -> Seq<char>
    decreases s.len(),
{
    if s.len() == 0 {
        s
    } else if s.last() == ' ' {
        with_spaces(s.drop_last(), by) + by
    } else {
        with_spaces(s.drop_last(), by).push(s.last())
    }
}

/// The contents of a list of strings.
pub open spec fn contents(list: Seq<String>) -> Seq<Seq<char>> {
    Seq::new(list.len(), |i: int| list[i]@)
}

/// Where a run of white space ends, and what is known of its inside.
pub proof fn lemma_space_end(s: Seq<char>, i: int)
    ensures
        0 <= i <= s.len() ==> i <= space_end(s, i) <= s.len(),
        i > s.len() || i < 0 ==> space_end(s, i) == i,
        forall|k: int| i <= k < space_end(s, i) ==> is_space(#[trigger] s[k]),
        0 <= i && space_end(s, i) < s.len() ==> !is_space(s[space_end(s, i)]),
    decreases s.len() - i,
{
    if 0 <= i < s.len() && is_space(s[i]) {
        lemma_space_end(s, i + 1);
    }
}

/// Where a run of white space starts, and what is known of its inside.
pub proof fn lemma_space_start(s: Seq<char>, j: int)
    requires
        0 <= j <= s.len(),
    ensures
        0 <= space_start(s, j) <= j,
        forall|k: int| space_start(s, j) <= k < j ==> is_space(#[trigger] s[k]),
        0 < space_start(s, j) ==> !is_space(s[space_start(s, j) - 1]),
    decreases j,
{
    if 0 < j && is_space(s[j - 1]) {
        lemma_space_start(s, j - 1);
    }
}

/// Where a word ends, and what is known of its inside.
pub proof fn lemma_word_end(s: Seq<char>, i: int)
    ensures
        0 <= i <= s.len() ==> i <= word_end(s, i) <= s.len(),
        0 <= i < s.len() && !is_space(s[i]) ==> i < word_end(s, i),
        forall|k: int| i <= k < word_end(s, i) ==> !is_space(#[trigger] s[k]),
        0 <= i && word_end(s, i) < s.len() ==> is_space(s[word_end(s, i)]),
    decreases s.len() - i,
{
    if 0 <= i < s.len() && !is_space(s[i]) {
        lemma_word_end(s, i + 1);
    }
}

/// What is left after trimming: nothing of a blank text, and otherwise a text
/// with no white space at either end.
pub proof fn lemma_trim(s: Seq<char>)
    ensures
        trim(s).len() == 0 <==> is_blank(s),
        trim(s).len() <= s.len(),
        trim(s).len() > 0 ==> !is_space(trim(s)[0]) && !is_space(trim(s).last()),
        trim(s).len() > 0 ==> space_end(s, 0) < space_start(s, s.len() as int),
{
    let from = space_end(s, 0);
    let to = space_start(s, s.len() as int);
    lemma_space_end(s, 0);
    lemma_space_start(s, s.len() as int);
    if from < s.len() {
        assert(!is_space(s[from]));
        assert(from < to);
    }
    if !is_blank(s) {
        let k = choose|k: int| 0 <= k < s.len() && !is_space(#[trigger] s[k]);
        assert(from <= k < to);
    } else {
        assert(from == s.len());
    }
}

/// The characters of `s`, one by one.
pub fn to_chars(s: &str) -> (r: Vec<char>)
    ensures
        r@ == s@,
{
    let mut r: Vec<char> = Vec::new();
    for c in it: s.chars()
        invariant
            r@ == it.seq().take(it.index() as int),
            it.seq() == s@,
    {
        r.push(c);
    }
    r
}

/// How many characters `s` has.
pub fn nchars(s: &str) -> (r: usize)
    ensures
        r == s@.len(),
{
    s.unicode_len()
}

/// The string of `s[from..to]`.
pub fn substring(s: &[char], from: usize, to: usize) -> (r: String)
    requires
        from <= to <= s@.len(),
    ensures
        r@ == s@.subrange(from as int, to as int),
{
    let mut r = String::new();
    let mut i = from;
    while i < to
        invariant
            from <= i <= to <= s@.len(),
            r@ == s@.subrange(from as int, i as int),
        decreases to - i,
    {
        r.push(s[i]);
        i += 1;
    }
    r
}

/// The end of the run of white space that starts at `i`.
pub fn skip_spaces(s: &[char], i: usize) -> (r: usize)
    requires
        i <= s@.len(),
    ensures
        r == space_end(s@, i as int),
        i <= r <= s@.len(),
{
    let mut k = i;
    while k < s.len() && is_whitespace(s[k])
        invariant
            i <= k <= s@.len(),
            space_end(s@, k as int) == space_end(s@, i as int),
        decreases s@.len() - k,
    {
        k += 1;
    }
    k
}

/// The start of the run of white space that ends at `j`.
pub fn back_over_spaces(s: &[char], j: usize) -> (r: usize)
    requires
        j <= s@.len(),
    ensures
        r == space_start(s@, j as int),
        r <= j,
{
    let mut k = j;
    while 0 < k && is_whitespace(s[k - 1])
        invariant
            k <= j <= s@.len(),
            space_start(s@, k as int) == space_start(s@, j as int),
        decreases k,
    {
        k -= 1;
    }
    k
}

/// Where `s` starts and ends once the white space at either end is gone.
pub fn trim_bounds(s: &[char]) -> (r: (usize, usize))
    ensures
        r.0 <= r.1 <= s@.len(),
        s@.subrange(r.0 as int, r.1 as int) == trim(s@),
{
    let from = skip_spaces(s, 0);
    let to = back_over_spaces(s, s.len());
    if from < to {
        (from, to)
    } else {
        (0, 0)
    }
}

/// Whether `s` ends with `suffix`.
pub fn has_suffix(s: &[char], suffix: &[char]) -> (r: bool)
    ensures
        r == ends_with(s@, suffix@),
{
    if s.len() < suffix.len() {
        return false;
    }
    let len = s.len();
    let base = len - suffix.len();
    let mut i: usize = 0;
    while i < suffix.len()
        invariant
            base + suffix@.len() == len == s@.len(),
            i <= suffix@.len(),
            forall|k: int| 0 <= k < i ==> s@[base + k] == #[trigger] suffix@[k],
        decreases suffix@.len() - i,
    {
        if s[base + i] != suffix[i] {
            assert(s@.subrange(base as int, s@.len() as int)[i as int] != suffix@[i as int]);
            return false;
        }
        i += 1;
    }
    assert(s@.subrange(base as int, s@.len() as int) =~= suffix@);
    true
}

/// Whether `list` holds `c`.
pub fn holds(list: &[char], c: char) -> (r: bool)
    ensures
        r == list@.contains(c),
{
    let mut i: usize = 0;
    while i < list.len()
        invariant
            i <= list@.len(),
            forall|k: int| 0 <= k < i ==> list@[k] != c,
        decreases list@.len() - i,
    {
        if list[i] == c {
            return true;
        }
        i += 1;
    }
    false
}

/// `s` with `by` in place of every space.
pub fn replace_spaces(s: &str, by: &str) -> (r: String)
    ensures
        r@ == with_spaces(s@, by@),
{
    let c = to_chars(s);
    let mut r = String::new();
    let mut i: usize = 0;
    while i < c.len()
        invariant
            i <= c@.len(),
            c@ == s@,
            r@ == with_spaces(s@.take(i as int), by@),
        decreases c@.len() - i,
    {
        assert(s@.take(i + 1).drop_last() =~= s@.take(i as int));
        if c[i] == ' ' {
            r.append(by);
        } else {
            r.push(c[i]);
        }
        i += 1;
    }
    assert(s@.take(i as int) =~= s@);
    r
}

/// `parts` one after the other, with `sep` between each two.
pub fn joined(parts: &Vec<String>, sep: &str) -> (r: String)
    ensures
        r@ == join(contents(parts@), sep@),
{
    let ghost all = contents(parts@);
    let mut r = String::new();
    let mut i: usize = 0;
    assert(all.take(0) =~= Seq::empty());
    while i < parts.len()
        invariant
            i <= parts@.len(),
            all == contents(parts@),
            r@ == join(all.take(i as int), sep@),
        decreases parts@.len() - i,
    {
        proof {
            assert(all.take(i + 1).drop_last() =~= all.take(i as int));
            assert(all.take(i + 1).last() == parts@[i as int]@);
        }
        if i > 0 {
            r.append(sep);
        }
        r.append(&parts[i]);
        assert(i == 0 ==> r@ =~= parts@[0]@);
        i += 1;
    }
    assert(all.take(i as int) =~= all);
    r
}

/// `s` without the white space at either end.
pub fn trimmed(s: &str) -> (r: String)
    ensures
        r@ == trim(s@),
{
    let c = to_chars(s);
    let (from, to) = trim_bounds(&c);
    substring(&c, from, to)
}

/// The words of `s`: its runs of anything but white space.
pub fn split_words(s: &[char]) -> (r: Vec<String>)
    ensures
        contents(r@) == words(s@),
{
    let mut r: Vec<String> = Vec::new();
    let mut i: usize = 0;
    loop
        invariant
            i <= s@.len(),
            contents(r@) + words_from(s@, i as int) == words(s@),
        ensures
            contents(r@) == words(s@),
        decreases s@.len() - i,
    {
        let from = skip_spaces(s, i);
        if from == s.len() {
            assert(words_from(s@, i as int) == Seq::<Seq<char>>::empty());
            assert(contents(r@) + words_from(s@, i as int) == contents(r@));
            break;
        }
        let mut to = from;
        proof {
            lemma_space_end(s@, i as int);
            lemma_word_end(s@, from as int);
        }
        while to < s.len() && !is_whitespace(s[to])
            invariant
                from <= to <= s@.len(),
                word_end(s@, to as int) == word_end(s@, from as int),
            decreases s@.len() - to,
        {
            to += 1;
        }
        let ghost before = contents(r@);
        r.push(substring(s, from, to));
        assert(contents(r@) == before.push(s@.subrange(from as int, to as int)));
        assert(contents(r@) + words_from(s@, to as int) == before + words_from(s@, i as int));
        i = to;
    }
    r
}

} // verus!
