//! Splitting text into chunks.

use vstd::prelude::*;

use crate::chars::{contents, nchars};
use crate::text::packer::{spoken, Budget, Chunk, Packer, Packing, Spoken};
use crate::text::sentences::{sentences_of, text_sentences};
use crate::text::split::{can_break, clauses, hard_pieces, hard_split, split_after, CLAUSE_ENDS};

verus! {

/// What a phonemiser answered, as a value.
pub open spec fn heard<E>(reply: Result<String, E>) -> Result<Seq<char>, E> {
    match reply {
        Ok(phonemes) => Ok(phonemes@),
        Err(e) => Err(e),
    }
}

/// Whether `phonemize` may answer `reply` when it is asked for `text`.
pub open spec fn may_answer<F, E>(phonemize: F, text: Seq<char>, reply: Result<Seq<char>, E>) -> bool
    where F: FnMut(&str) -> Result<String, E>
{
    exists|asked: &str, answer: Result<String, E>|
        asked@ == text && #[trigger] call_ensures(phonemize, (asked,), answer) && heard(answer)
            == reply
}

/// Whether `phonemize`, asked for each of `asked` in turn, may give `replies`.
pub open spec fn may_answer_all<F, E>(
    phonemize: F,
    asked: Seq<Seq<char>>,
    replies: Seq<Result<Seq<char>, E>>,
) -> bool
    where F: FnMut(&str) -> Result<String, E>
{
    &&& asked.len() == replies.len()
    &&& forall|i: int|
        0 <= i < asked.len() ==> #[trigger] may_answer(phonemize, asked[i], replies[i])
}

/// Whether `phonemize` can be asked for any text.
pub open spec fn answers_any<F, E>(phonemize: F) -> bool
    where F: FnMut(&str) -> Result<String, E>
{
    forall|text: &str| #[trigger] call_requires(phonemize, (text,))
}

/// How far the splitting of a text has come: the chunks packed so far, the texts
/// that the phonemiser was asked for, and the error it stopped at, if any.
pub struct Progress<E> {
    pub packing: Packing,
    pub asked: Seq<Seq<char>>,
    pub failed: Option<E>,
}

impl<E> Progress<E> {
    /// Nothing done yet.
    pub open spec fn start(first: Budget, rest: Budget) -> Progress<E> {
        Progress { packing: Packing::start(first, rest), asked: Seq::empty(), failed: None }
    }

    /// The chunks, or the error that the phonemiser stopped at.
    pub open spec fn outcome(self) -> Result<Seq<Spoken>, E> {
        match self.failed {
            Some(e) => Err(e),
            None => Ok(self.packing.finish()),
        }
    }

    /// The clauses of a sentence from `i` on, each phonemised and packed.
    /// Clauses may rejoin each other; the first one may join what came before
    /// only if `joinable`. The phonemiser's answers are `replies`.
    pub open spec fn clauses(
        self,
        parts: Seq<Seq<char>>,
        i: int,
        joinable: bool,
        replies: Seq<Result<Seq<char>, E>>,
    ) -> Progress<E>
        decreases parts.len() - i,
    {
        if self.failed is Some || !(0 <= i < parts.len()) {
            self
        } else {
            let asked = self.asked.push(parts[i]);
            match replies[self.asked.len() as int] {
                Err(e) => Progress { asked, failed: Some(e), ..self },
                Ok(phonemes) => {
                    let piece = Spoken { text: parts[i], phonemes };
                    let packing = self.packing.push(piece, i > 0 || joinable);
                    Progress { packing, asked, ..self }.clauses(parts, i + 1, joinable, replies)
                },
            }
        }
    }

    /// One piece of a sentence, phonemised and packed. A piece over the budget
    /// in force belongs in the next chunk, which may be wider; one that is over
    /// the budget even on its own is split again at its clauses, where it has
    /// two or more.
    pub open spec fn part(
        self,
        text: Seq<char>,
        joinable: bool,
        replies: Seq<Result<Seq<char>, E>>,
    ) -> Progress<E> {
        let asked = self.asked.push(text);
        match replies[self.asked.len() as int] {
            Err(e) => Progress { asked, failed: Some(e), ..self },
            Ok(phonemes) => {
                let packing = if phonemes.len() > self.packing.budget.phonemes
                    && self.packing.held is Some {
                    self.packing.close()
                } else {
                    self.packing
                };
                if phonemes.len() <= packing.budget.phonemes || clauses(text).len() < 2 {
                    let piece = Spoken { text, phonemes };
                    Progress { packing: packing.push(piece, joinable), asked, ..self }
                } else {
                    Progress { packing, asked, ..self }.clauses(clauses(text), 0, joinable, replies)
                }
            },
        }
    }

    /// The pieces of a sentence from `i` on.
    pub open spec fn parts(
        self,
        parts: Seq<Seq<char>>,
        i: int,
        joinable: bool,
        replies: Seq<Result<Seq<char>, E>>,
    ) -> Progress<E>
        decreases parts.len() - i,
    {
        if self.failed is Some || !(0 <= i < parts.len()) {
            self
        } else {
            self.part(parts[i], joinable, replies).parts(parts, i + 1, joinable, replies)
        }
    }

    /// The state in which a sentence is taken up: one over the character cap in
    /// force goes into a chunk of its own, which may be wider.
    pub open spec fn before_sentence(self, sentence: Seq<char>) -> Progress<E> {
        let over = match self.packing.budget.chars {
            Some(cap) => sentence.len() > cap,
            None => false,
        };
        if self.packing.held is Some && over {
            Progress { packing: self.packing.close(), ..self }
        } else {
            self
        }
    }

    /// The pieces that the character cap in force leaves of a sentence.
    pub open spec fn cut(self, sentence: Seq<char>) -> Seq<Seq<char>> {
        match self.packing.budget.chars {
            Some(cap) => hard_pieces(sentence, cap as int),
            None => seq![sentence],
        }
    }

    /// One sentence. The pieces of one that the character cap had to cut apart
    /// stay in the chunks they were measured for.
    pub open spec fn sentence(
        self,
        sentence: Seq<char>,
        replies: Seq<Result<Seq<char>, E>>,
    ) -> Progress<E> {
        let ready = self.before_sentence(sentence);
        let parts = ready.cut(sentence);
        ready.parts(parts, 0, parts.len() == 1, replies)
    }

    /// The sentences of a text from `i` on.
    pub open spec fn sentences(
        self,
        list: Seq<Seq<char>>,
        i: int,
        replies: Seq<Result<Seq<char>, E>>,
    ) -> Progress<E>
        decreases list.len() - i,
    {
        if self.failed is Some || !(0 <= i < list.len()) {
            self
        } else {
            self.sentence(list[i], replies).sentences(list, i + 1, replies)
        }
    }
}

/// The whole splitting of `text`, the phonemiser's answers being `replies`.
pub open spec fn chunking<E>(
    text: Seq<char>,
    first: Budget,
    rest: Budget,
    replies: Seq<Result<Seq<char>, E>>,
) -> Progress<E> {
    Progress::start(first, rest).sentences(text_sentences(text), 0, replies)
}

/// Whether every sentence of `text` can be broken under the character caps of
/// the two budgets. Any cap of at least one character will do.
pub open spec fn can_chunk(text: Seq<char>, first: Budget, rest: Budget) -> bool {
    forall|i: int| #![trigger text_sentences(text)[i]]
        0 <= i < text_sentences(text).len() ==> {
            &&& first.chars matches Some(cap) ==> can_break(text_sentences(text)[i], cap as int)
            &&& rest.chars matches Some(cap) ==> can_break(text_sentences(text)[i], cap as int)
        }
}

/// What a splitting came to.
pub open spec fn outcome_of<E>(r: Result<Vec<Chunk>, E>) -> Result<Seq<Spoken>, E> {
    match r {
        Ok(chunks) => Ok(spoken(chunks@)),
        Err(e) => Err(e),
    }
}

/// Whether `r` is a splitting of `text`, with answers that `phonemize` may give.
pub open spec fn is_chunking<F, E>(
    phonemize: F,
    text: Seq<char>,
    first: Budget,
    rest: Budget,
    r: Result<Vec<Chunk>, E>,
) -> bool
    where F: FnMut(&str) -> Result<String, E>
{
    exists|replies: Seq<Result<Seq<char>, E>>|
        {
            let run = #[trigger] chunking(text, first, rest, replies);
            &&& may_answer_all(phonemize, run.asked, replies)
            &&& outcome_of(r) == run.outcome()
        }
}

/// A splitting under way, with what the phonemiser was asked and answered.
struct Chunker<E> {
    packer: Packer,
    asked: Ghost<Seq<Seq<char>>>,
    replies: Ghost<Seq<Result<Seq<char>, E>>>,
}

impl<E> Chunker<E> {
    spec fn progress(self, failed: Option<E>) -> Progress<E> {
        Progress { packing: self.packer@, asked: self.asked@, failed }
    }

    spec fn answered<F>(self, phonemize: F) -> bool
        where F: FnMut(&str) -> Result<String, E>
    {
        may_answer_all(phonemize, self.asked@, self.replies@)
    }

    spec fn failed(r: Result<(), E>) -> Option<E> {
        match r {
            Ok(_) => None,
            Err(e) => Some(e),
        }
    }

    /// Asks for one text, and records the question and the answer.
    fn ask<F>(&mut self, text: &str, phonemize: &mut F) -> (r: Result<String, E>)
        where F: FnMut(&str) -> Result<String, E>
        requires
            answers_any(*old(phonemize)),
            old(self).answered(*old(phonemize)),
        ensures
            *final(phonemize) == *old(phonemize),
            final(self).answered(*old(phonemize)),
            final(self).packer == old(self).packer,
            final(self).asked@ == old(self).asked@.push(text@),
            final(self).replies@ == old(self).replies@.push(heard(r)),
    {
        let r = phonemize(text);
        proof {
            self.asked@ = self.asked@.push(text@);
            self.replies@ = self.replies@.push(heard(r));
            assert(may_answer(*phonemize, text@, heard(r)));
        }
        r
    }

    /// What a step leaves alone: the phonemiser may have given these answers, the
    /// earlier ones among them, and the budget in force is the one from before
    /// or the wider one.
    spec fn follows<F>(self, before: Self, phonemize: F) -> bool
        where F: FnMut(&str) -> Result<String, E>
    {
        &&& self.answered(phonemize)
        &&& before.replies@.is_prefix_of(self.replies@)
        &&& self.packer.rest == before.packer.rest
        &&& self.packer.budget == before.packer.budget || self.packer.budget == before.packer.rest
    }

    /// Phonemises and packs the clauses of a sentence.
    fn clauses<F>(&mut self, parts: &Vec<String>, joinable: bool, phonemize: &mut F) -> (r: Result<
        (),
        E,
    >)
        where F: FnMut(&str) -> Result<String, E>
        requires
            answers_any(*old(phonemize)),
            old(self).answered(*old(phonemize)),
        ensures
            *final(phonemize) == *old(phonemize),
            final(self).follows(*old(self), *old(phonemize)),
            forall|more: Seq<Result<Seq<char>, E>>|
                #[trigger] old(self).progress(None).clauses(
                    contents(parts@),
                    0,
                    joinable,
                    final(self).replies@ + more,
                ) == final(self).progress(Self::failed(r)),
    {
        let ghost start = self.progress(None);
        let ghost all = contents(parts@);
        let mut i: usize = 0;
        while i < parts.len()
            invariant
                i <= parts@.len(),
                all == contents(parts@),
                *phonemize == *old(phonemize),
                answers_any(*phonemize),
                self.follows(*old(self), *phonemize),
                start == old(self).progress(None),
                forall|more: Seq<Result<Seq<char>, E>>|
                    #[trigger] start.clauses(all, 0, joinable, self.replies@ + more)
                        == self.progress(None).clauses(
                        all,
                        i as int,
                        joinable,
                        self.replies@ + more,
                    ),
            decreases parts@.len() - i,
        {
            let ghost before = *self;
            let reply = self.ask(&parts[i], phonemize);
            let ghost answer = heard(reply);
            assert forall|more: Seq<Result<Seq<char>, E>>|
                (#[trigger] start.clauses(all, 0, joinable, self.replies@ + more)
                    == before.progress(None).clauses(
                    all,
                    i as int,
                    joinable,
                    self.replies@ + more,
                )) && (self.replies@ + more)[before.asked@.len() as int] == answer by {
                assert(self.replies@ + more =~= before.replies@ + (seq![answer] + more));
                assert(start.clauses(
                    all,
                    0,
                    joinable,
                    before.replies@ + (seq![answer] + more),
                ) == before.progress(None).clauses(
                    all,
                    i as int,
                    joinable,
                    before.replies@ + (seq![answer] + more),
                ));
            }
            match reply {
                Ok(phonemes) => {
                    let piece = Chunk { text: parts[i].clone(), phonemes };
                    self.packer.push(piece, i > 0 || joinable);
                },
                Err(e) => {
                    return Err(e);
                },
            }
            i += 1;
        }
        Ok(())
    }

    /// Phonemises and packs one piece of a sentence.
    fn part<F>(&mut self, text: &str, joinable: bool, phonemize: &mut F) -> (r: Result<(), E>)
        where F: FnMut(&str) -> Result<String, E>
        requires
            answers_any(*old(phonemize)),
            old(self).answered(*old(phonemize)),
        ensures
            *final(phonemize) == *old(phonemize),
            final(self).follows(*old(self), *old(phonemize)),
            forall|more: Seq<Result<Seq<char>, E>>|
                #[trigger] old(self).progress(None).part(
                    text@,
                    joinable,
                    final(self).replies@ + more,
                ) == final(self).progress(Self::failed(r)),
    {
        let ghost start = *self;
        let phonemes = match self.ask(text, phonemize) {
            Ok(phonemes) => phonemes,
            Err(e) => {
                return Err(e);
            },
        };
        let ghost asked = *self;
        let count = nchars(&phonemes);
        if count > self.packer.budget.phonemes && self.packer.buf.is_some() {
            // Over the narrow first-chunk budget usually just means the piece
            // belongs in the next chunk, which is wider; close this one and
            // measure again before going to the trouble, and the extra
            // phonemising, of re-splitting the sentence.
            self.packer.close();
        }
        if count <= self.packer.budget.phonemes {
            self.packer.push(Chunk { text: text.to_owned(), phonemes }, joinable);
            return Ok(());
        }
        // Anything that fills the budget on its own is re-split at its clauses,
        // the least audible place to break a sentence.
        let parts = split_after(text, &CLAUSE_ENDS);
        assert(contents(parts@).len() == parts@.len());
        if parts.len() < 2 {
            // A single clause that overruns the context is left whole, to be
            // broken at a word boundary in the phoneme string. Splitting the text
            // into words and phonemising them one by one would do the same job
            // worse: a word is read in the context of its neighbours.
            self.packer.push(Chunk { text: text.to_owned(), phonemes }, joinable);
            return Ok(());
        }
        let ghost closed = *self;
        let r = self.clauses(&parts, joinable, phonemize);
        proof {
            assert forall|more: Seq<Result<Seq<char>, E>>|
                #[trigger] start.progress(None).part(text@, joinable, self.replies@ + more)
                    == self.progress(Self::failed(r)) by {
                assert((self.replies@ + more)[start.asked@.len() as int] == asked.replies@.last());
                assert(closed.progress(None).clauses(
                    contents(parts@),
                    0,
                    joinable,
                    self.replies@ + more,
                ) == self.progress(Self::failed(r)));
            }
        }
        r
    }

    /// Phonemises and packs one sentence.
    fn sentence<F>(&mut self, sentence: &str, phonemize: &mut F) -> (r: Result<(), E>)
        where F: FnMut(&str) -> Result<String, E>
        requires
            answers_any(*old(phonemize)),
            old(self).answered(*old(phonemize)),
            old(self).packer.budget.chars matches Some(cap) ==> can_break(sentence@, cap as int),
            old(self).packer.rest.chars matches Some(cap) ==> can_break(sentence@, cap as int),
        ensures
            *final(phonemize) == *old(phonemize),
            final(self).follows(*old(self), *old(phonemize)),
            forall|more: Seq<Result<Seq<char>, E>>|
                #[trigger] old(self).progress(None).sentence(
                    sentence@,
                    final(self).replies@ + more,
                ) == final(self).progress(Self::failed(r)),
    {
        let ghost start = *self;
        // Over the narrow first-chunk cap usually just means the sentence belongs
        // in the next chunk, which is wider; close this one before cutting the
        // sentence up to meet a cap it need never have met. The first chunk still
        // honours the narrow cap, since a sentence that is going into it arrives
        // with nothing held back.
        let over = match self.packer.budget.chars {
            Some(cap) => nchars(sentence) > cap,
            None => false,
        };
        if over && self.packer.buf.is_some() {
            self.packer.close();
        }
        // A character cap is a limit on the text itself, so it is applied before
        // phonemising; the phoneme budget can only be checked after.
        let parts = match self.packer.budget.chars {
            Some(cap) => hard_split(sentence, cap),
            None => {
                let mut whole: Vec<String> = Vec::new();
                whole.push(sentence.to_owned());
                assert(contents(whole@) =~= seq![sentence@]);
                whole
            },
        };
        // A sentence the cap had to cut apart was cut between words, so its
        // pieces have to stay in the chunks they were measured for.
        let joinable = parts.len() == 1;
        let ghost ready = *self;
        let ghost all = contents(parts@);
        assert(all == ready.progress(None).cut(sentence@));
        let mut i: usize = 0;
        while i < parts.len()
            invariant
                i <= parts@.len(),
                all == contents(parts@),
                joinable == (all.len() == 1),
                *phonemize == *old(phonemize),
                answers_any(*phonemize),
                self.follows(*old(self), *phonemize),
                self.follows(ready, *phonemize),
                start == *old(self),
                ready.progress(None) == start.progress(None).before_sentence(sentence@),
                all == ready.progress(None).cut(sentence@),
                forall|more: Seq<Result<Seq<char>, E>>|
                    #[trigger] ready.progress(None).parts(all, 0, joinable, self.replies@ + more)
                        == self.progress(None).parts(
                        all,
                        i as int,
                        joinable,
                        self.replies@ + more,
                    ),
            decreases parts@.len() - i,
        {
            let ghost before = *self;
            let done = self.part(&parts[i], joinable, phonemize);
            proof {
                assert forall|more: Seq<Result<Seq<char>, E>>|
                    #[trigger] ready.progress(None).parts(all, 0, joinable, self.replies@ + more)
                        == self.progress(Self::failed(done)).parts(
                        all,
                        i + 1,
                        joinable,
                        self.replies@ + more,
                    ) by {
                    let n = before.replies@.len() as int;
                    let replies = self.replies@ + more;
                    assert(replies =~= before.replies@ + replies.skip(n));
                    assert(ready.progress(None).parts(
                        all,
                        0,
                        joinable,
                        before.replies@ + replies.skip(n),
                    ) == before.progress(None).parts(
                        all,
                        i as int,
                        joinable,
                        before.replies@ + replies.skip(n),
                    ));
                    assert(before.progress(None).part(all[i as int], joinable, replies)
                        == self.progress(Self::failed(done)));
                }
            }
            if let Err(e) = done {
                return Err(e);
            }
            i += 1;
        }
        Ok(())
    }
}

/// Splits `text` into chunks, phonemising each piece once.
///
/// The first chunk is sized by `first` and everything after it by `rest`, so a
/// long run of text handed over in one go still starts with a short chunk and
/// then packs the remainder properly.
///
/// `phonemize` is called on every piece of text that survives the splitting, in
/// order, and never twice on the same piece, except where a sentence turns out to
/// be too long and has to be re-split at its clauses. An error of its own ends
/// the splitting and is handed on.
pub fn chunk_text<F, E>(text: &str, first: Budget, rest: Budget, phonemize: &mut F) -> (r: Result<
    Vec<Chunk>,
    E,
>)
    where F: FnMut(&str) -> Result<String, E>
    requires
        answers_any(*old(phonemize)),
        can_chunk(text@, first, rest),
    ensures
        *final(phonemize) == *old(phonemize),
        is_chunking(*old(phonemize), text@, first, rest, r),
{
    let list = sentences_of(text);
    let mut chunker: Chunker<E> = Chunker {
        packer: Packer::new(first, rest),
        asked: Ghost(Seq::empty()),
        replies: Ghost(Seq::empty()),
    };
    let ghost start = chunker.progress(None);
    let ghost all = contents(list@);
    let mut i: usize = 0;
    while i < list.len()
        invariant
            i <= list@.len(),
            all == contents(list@),
            all == text_sentences(text@),
            can_chunk(text@, first, rest),
            *phonemize == *old(phonemize),
            answers_any(*phonemize),
            chunker.answered(*phonemize),
            chunker.packer.rest == rest,
            chunker.packer.budget == first || chunker.packer.budget == rest,
            start == Progress::<E>::start(first, rest),
            forall|more: Seq<Result<Seq<char>, E>>|
                #[trigger] start.sentences(all, 0, chunker.replies@ + more) == chunker.progress(
                    None,
                ).sentences(all, i as int, chunker.replies@ + more),
        decreases list@.len() - i,
    {
        let ghost before = chunker;
        assert(text_sentences(text@)[i as int] == list@[i as int]@);
        let done = chunker.sentence(&list[i], phonemize);
        proof {
            assert forall|more: Seq<Result<Seq<char>, E>>|
                #[trigger] start.sentences(all, 0, chunker.replies@ + more) == chunker.progress(
                    Chunker::failed(done),
                ).sentences(all, i + 1, chunker.replies@ + more) by {
                let n = before.replies@.len() as int;
                let replies = chunker.replies@ + more;
                assert(replies =~= before.replies@ + replies.skip(n));
                assert(start.sentences(all, 0, before.replies@ + replies.skip(n))
                    == before.progress(None).sentences(
                    all,
                    i as int,
                    before.replies@ + replies.skip(n),
                ));
                assert(before.progress(None).sentence(all[i as int], replies) == chunker.progress(
                    Chunker::failed(done),
                ));
            }
        }
        if let Err(e) = done {
            proof {
                let replies = chunker.replies@;
                assert(replies + Seq::empty() =~= replies);
                assert(start.sentences(all, 0, replies + Seq::empty()) == chunker.progress(Some(e)));
                assert(chunking(text@, first, rest, replies) == chunker.progress(Some(e)));
            }
            return Err(e);
        }
        i += 1;
    }
    proof {
        let replies = chunker.replies@;
        assert(replies + Seq::empty() =~= replies);
        assert(start.sentences(all, 0, replies + Seq::empty()) == chunker.progress(None));
        assert(chunking(text@, first, rest, replies) == chunker.progress(None));
    }
    Ok(chunker.packer.finish())
}

} // verus!
