//! What phonemising makes of a text's words.

use vstd::prelude::*;

use crate::chars::{contents, is_blank, is_space, join, letters, trim, words};
use crate::laws::solid::is_word;
use crate::laws::words::{
    lemma_joined_words, lemma_words_of_one, lemma_words_spaced, words_of,
};
use crate::phonemes::{in_vocab, may_speak, single_line, voiced};
use crate::punctuation::{is_preserving, kept_texts, spliced};

verus! {

/// `s` without the separator between phonemes.
pub open spec fn without_separators(s: Seq<char>) -> Seq<char> {
    s.filter(|c: char| c != '_')
}

proof fn lemma_without_add(a: Seq<char>, b: Seq<char>)
    ensures
        without_separators(a + b) == without_separators(a) + without_separators(b),
{
    Seq::filter_distributes_over_add(a, b, |c: char| c != '_');
}

proof fn lemma_without_joined(list: Seq<Seq<char>>)
    ensures
        words(without_separators(join(list, seq![' ']))) == words_of(
            list.map_values(|s: Seq<char>| without_separators(s)),
        ),
    decreases list.len(),
{
    let sep = seq![' '];
    let bare = list.map_values(|s: Seq<char>| without_separators(s));
    if list.len() == 0 {
        reveal(Seq::filter);
        crate::laws::words::lemma_words_blank(without_separators(join(list, sep)));
    } else if list.len() == 1 {
        assert(bare =~= seq![without_separators(list[0])]);
        lemma_words_of_one(without_separators(list[0]));
    } else {
        let less = list.drop_last();
        let before = join(less, sep);
        lemma_without_joined(less);
        lemma_without_add(before + sep, list.last());
        lemma_without_add(before, sep);
        reveal_with_fuel(Seq::filter, 2);
        assert(sep.drop_last() =~= Seq::empty());
        assert(without_separators(sep) =~= sep);
        let x = without_separators(before);
        let y = without_separators(list.last());
        assert(x + sep + y =~= x.push(' ') + y);
        lemma_words_spaced(x, y);
        assert(bare.drop_last() =~= less.map_values(|s: Seq<char>| without_separators(s)));
        assert(bare.last() == y);
    }
}

/// The words that a phonemiser answers with are kept, all of them and in order, whatever
/// sentences they come in: only the separators between their phonemes go, and a single space
/// is left between each two of them.
pub proof fn every_spoken_word_is_kept(sentences: Seq<Seq<char>>)
    ensures
        words(single_line(sentences)) == words_of(
            sentences.map_values(|s: Seq<char>| s.filter(|c: char| c != '_')),
        ),
        single_line(sentences) == join(words(single_line(sentences)), seq![' ']),
{
    let whole = without_separators(join(sentences, seq![' ']));
    lemma_without_joined(sentences);
    lemma_words_are_words(whole);
    lemma_joined_words(words(whole));
    lemma_words_of_words(words(whole));
    let bare = sentences.map_values(|s: Seq<char>| without_separators(s));
    assert(bare =~= sentences.map_values(|s: Seq<char>| s.filter(|c: char| c != '_')));
}

proof fn lemma_words_are_words(s: Seq<char>)
    ensures
        forall|k: int| 0 <= k < words(s).len() ==> is_word(#[trigger] words(s)[k]),
{
    crate::laws::budget::lemma_words_solid(s, 0);
    assert forall|k: int| 0 <= k < words(s).len() implies is_word(#[trigger] words(s)[k]) by {
        assert(crate::chars::words_from(s, 0)[k].len() > 0);
        assert forall|j: int| 0 <= j < words(s)[k].len() implies !is_space(
            #[trigger] words(s)[k][j],
        ) by {
            assert(!is_space(crate::chars::words_from(s, 0)[k][j]));
        }
    }
}

/// A word has no words but itself.
pub proof fn a_word_is_one_word(s: Seq<char>)
    requires
        s.len() > 0,
        forall|k: int| 0 <= k < s.len() ==> !is_space(#[trigger] s[k]),
    ensures
        words(s) == seq![s],
{
    reveal_with_fuel(crate::chars::words_from, 2);
    assert(!is_space(s[0]));
    crate::chars::lemma_space_end(s, 0);
    crate::chars::lemma_word_end(s, 0);
    assert(crate::chars::space_end(s, 0) == 0);
    let to = crate::chars::word_end(s, 0);
    if to < s.len() {
        assert(is_space(s[to]));
    }
    assert(s.subrange(0, to) =~= s);
    crate::chars::lemma_space_end(s, to);
    assert(words(s) =~= seq![s]);
}

proof fn lemma_words_of_words(list: Seq<Seq<char>>)
    requires
        forall|k: int| 0 <= k < list.len() ==> is_word(#[trigger] list[k]),
    ensures
        words_of(list) == list,
    decreases list.len(),
{
    if list.len() > 0 {
        let less = list.drop_last();
        assert forall|k: int| 0 <= k < less.len() implies is_word(#[trigger] less[k]) by {
            assert(less[k] == list[k]);
        }
        lemma_words_of_words(less);
        assert(is_word(list[list.len() - 1]));
        a_word_is_one_word(list.last());
        assert(less + seq![list.last()] =~= list);
    } else {
        assert(words_of(list) =~= list);
    }
}

/// Two texts with white space between them have the words of both, and none else.
pub proof fn white_space_parts_words(x: Seq<char>, space: char, y: Seq<char>)
    requires
        is_space(space),
    ensures
        words(x.push(space) + y) == words(x) + words(y),
{
    crate::laws::words::lemma_words_parted(x, space, y, 0);
}

/// A text that is not blank is spoken as it stands, in the language that was asked for, and
/// comes to the words that are answered; a blank one is not spoken.
pub proof fn texts_are_spoken_as_they_stand<F, E>(
    espeak: F,
    lang: Seq<char>,
    part: Seq<char>,
    reply: Result<Seq<char>, E>,
)
    where F: FnMut(&str, &str) -> Result<Vec<String>, E>
    requires
        may_speak(espeak, lang, part, reply),
    ensures
        is_blank(part) ==> (reply matches Ok(said) && said.len() == 0),
        !is_blank(part) ==> exists|asked: &str, tongue: &str, answer: Result<Vec<String>, E>|
            {
                &&& asked@ == part
                &&& tongue@ == lang
                &&& #[trigger] call_ensures(espeak, (asked, tongue), answer)
                &&& match answer {
                    Ok(list) => reply == Ok::<Seq<char>, E>(single_line(contents(list@))),
                    Err(e) => reply == Err::<Seq<char>, E>(e),
                }
            },
{
}

/// Whether `text` may get an answer.
pub open spec fn may_be_said<E>(
    answers: spec_fn(Seq<char>, Result<Seq<char>, E>) -> bool,
    text: Seq<char>,
) -> bool {
    exists|said: Seq<char>| #[trigger] answers(text, Ok(said))
}

/// Phonemising fails where one of the texts between the marks cannot be spoken, with the
/// error of the first one that cannot, and does not fail where all of them can. A blank text
/// is phonemised to nothing.
pub proof fn phonemising_fails_with_the_first_error<E>(
    answers: spec_fn(Seq<char>, Result<Seq<char>, E>) -> bool,
    text: Seq<char>,
    r: Result<Seq<char>, E>,
)
    requires
        is_preserving(answers, text, r),
    ensures
        is_blank(text) ==> (r matches Ok(said) && said.len() == 0),
        r matches Err(e) ==> exists|k: int|
            {
                &&& 0 <= k < kept_texts(seq![text]).len()
                &&& answers(#[trigger] kept_texts(seq![text])[k], Err(e))
                &&& forall|j: int|
                    0 <= j < k ==> may_be_said(answers, #[trigger] kept_texts(seq![text])[j])
            },
        !is_blank(text) ==> (r matches Ok(whole) ==> exists|said: Seq<Seq<char>>|
            {
                &&& said.len() == kept_texts(seq![text]).len()
                &&& forall|k: int|
                    0 <= k < said.len() ==> #[trigger] answers(
                        kept_texts(seq![text])[k],
                        Ok(said[k]),
                    )
                &&& whole == #[trigger] spliced(text, said)
            }),
{
    let texts = kept_texts(seq![text]);
    if let Err(e) = r {
        let said = choose|said: Seq<Seq<char>>|
            {
                &&& #[trigger] said.len() < texts.len()
                &&& forall|i: int| 0 <= i < said.len() ==> #[trigger] answers(texts[i], Ok(said[i]))
                &&& answers(texts[said.len() as int], Err(e))
            };
        let k = said.len() as int;
        assert forall|j: int| 0 <= j < k implies may_be_said(answers, #[trigger] texts[j]) by {
            assert(answers(texts[j], Ok(said[j])));
        }
        assert(answers(texts[k], Err(e)));
    }
}

/// What is handed on of the phonemes is every one that the vocabulary has, in order, but for
/// white space at either end.
pub proof fn every_known_phoneme_is_kept(s: Seq<char>)
    ensures
        exists|head: Seq<char>, tail: Seq<char>|
            {
                &&& is_blank(head)
                &&& is_blank(tail)
                &&& s.filter(|c: char| in_vocab(c)) == #[trigger] (head + voiced(s) + tail)
            },
        voiced(s).len() > 0 ==> !is_space(voiced(s)[0]) && !is_space(voiced(s).last()),
{
    trimming_takes_only_white_space(s.filter(|c: char| in_vocab(c)));
}

/// Trimming takes the white space at either end, and nothing else.
pub proof fn trimming_takes_only_white_space(s: Seq<char>)
    ensures
        exists|head: Seq<char>, tail: Seq<char>|
            is_blank(head) && is_blank(tail) && s == #[trigger] (head + trim(s) + tail),
        trim(s).len() > 0 ==> !is_space(trim(s)[0]) && !is_space(trim(s).last()),
{
    let none = Seq::<char>::empty();
    crate::chars::lemma_trim(s);
    if trim(s).len() == 0 {
        assert(s =~= s + trim(s) + none);
        assert(is_blank(none));
    } else {
        let from = crate::chars::space_end(s, 0);
        let to = crate::chars::space_start(s, s.len() as int);
        crate::chars::lemma_space_end(s, 0);
        crate::chars::lemma_space_start(s, s.len() as int);
        let head = s.subrange(0, from);
        let tail = s.subrange(to, s.len() as int);
        assert forall|k: int| 0 <= k < tail.len() implies is_space(#[trigger] tail[k]) by {
            assert(tail[k] == s[to + k]);
        }
        assert(is_blank(head));
        assert(s =~= head + trim(s) + tail);
    }
}

/// White space is what Unicode calls so: these code points and no others.
pub proof fn white_space_is_this(c: char)
    ensures
        is_space(c) <==> {
            let n = c as int;
            ||| n == 9 || n == 10 || n == 11 || n == 12 || n == 13 || n == 32 || n == 133 || n == 160
            ||| n == 5760 || 8191 < n < 8203 || n == 8232 || n == 8233 || n == 8239 || n == 8287
            ||| n == 12288
        },
{
}

/// Texts are joined in order, with the separator between each two and nowhere else.
pub proof fn joining_puts_separators_between(
    parts: Seq<Seq<char>>,
    part: Seq<char>,
    sep: Seq<char>,
)
    ensures
        join(Seq::empty(), sep).len() == 0,
        join(seq![part], sep) == part,
        parts.len() > 0 ==> join(parts.push(part), sep) == join(parts, sep) + sep + part,
{
    assert(parts.push(part).drop_last() =~= parts);
}

/// The letters of a text are all that is not white space, in order.
pub proof fn letters_are_all_but_white_space(s: Seq<char>, c: char)
    ensures
        letters(Seq::empty()).len() == 0,
        is_space(c) ==> letters(s.push(c)) == letters(s),
        !is_space(c) ==> letters(s.push(c)) == letters(s).push(c),
{
    reveal(Seq::filter);
    assert(s.push(c).drop_last() =~= s);
}

} // verus!
