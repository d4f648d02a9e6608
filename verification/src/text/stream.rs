//! Chunking text that arrives bit by bit.

use vstd::prelude::*;

use crate::chars::{substring, to_chars};
use crate::text::chunk::{answers_any, can_chunk, chunk_text, is_chunking};
use crate::text::packer::{Budget, Chunk};
use crate::text::sentences::{breaks, rsplit_sentence};

verus! {

/// How much unpunctuated text to hold before giving up on finding a sentence
/// boundary.
pub open spec fn patience(budget: Budget) -> int {
    match budget.chars {
        Some(cap) => cap as int,
        None => budget.phonemes as int,
    }
}

/// What can be spoken of `pending`, and what is held back: everything up to the
/// last sentence boundary, the separator there dropped and the tail held back,
/// since it may still grow; without a boundary nothing, until the text is too
/// long to wait for one.
pub open spec fn released(pending: Seq<char>, budget: Budget) -> Option<(Seq<char>, Seq<char>)> {
    if breaks(pending).len() > 0 {
        let (start, end) = breaks(pending).last();
        Some((pending.subrange(0, start), pending.skip(end)))
    } else if pending.len() < patience(budget) {
        None
    } else {
        Some((pending, Seq::empty()))
    }
}

/// The budget in force after `r`: narrow until the first chunk is out, and the
/// wide one from then on.
pub open spec fn budget_after<E>(budget: Budget, rest: Budget, r: Result<Vec<Chunk>, E>) -> Budget {
    match r {
        Ok(chunks) => if chunks@.len() > 0 {
            rest
        } else {
            budget
        },
        Err(_) => budget,
    }
}

/// Whether `r` is what becomes of `pending`, and `left` what is held back of it.
pub open spec fn is_push<F, E>(
    phonemize: F,
    pending: Seq<char>,
    budget: Budget,
    rest: Budget,
    r: Result<Vec<Chunk>, E>,
    left: Seq<char>,
) -> bool
    where F: FnMut(&str) -> Result<String, E>
{
    match released(pending, budget) {
        Some((text, tail)) => left == tail && is_chunking(phonemize, text, budget, rest, r),
        None => left == pending && (r matches Ok(chunks) && chunks@.len() == 0),
    }
}

/// Chunks an incremental stream of text pieces, such as lines arriving on
/// standard input.
///
/// Text is emitted as soon as a complete chunk is available rather than waiting
/// for the whole input, so a growing log is spoken as it grows.
pub struct ChunkStream<F> {
    /// The budget in force, narrow for the first chunk and `rest` after it.
    budget: Budget,
    rest: Budget,
    phonemize: F,
    pending: String,
}

impl<F> ChunkStream<F> {
    /// The budget in force.
    pub closed spec fn budget(self) -> Budget {
        self.budget
    }

    /// The budget for every chunk but the first.
    pub closed spec fn rest(self) -> Budget {
        self.rest
    }

    /// The phonemiser.
    pub closed spec fn phonemizer(self) -> F {
        self.phonemize
    }

    /// The text held back so far.
    pub closed spec fn pending(self) -> Seq<char> {
        self.pending@
    }

    /// A stream that holds its first chunk to `first` and every later one to
    /// `rest`.
    pub fn new(first: Budget, rest: Budget, phonemize: F) -> (r: Self)
        ensures
            r.budget() == first,
            r.rest() == rest,
            r.phonemizer() == phonemize,
            r.pending() == Seq::<char>::empty(),
    {
        ChunkStream { budget: first, rest, phonemize, pending: String::new() }
    }

    /// How much unpunctuated text to hold before giving up on finding a sentence
    /// boundary. Only a trigger for emitting: the sizing of what is emitted is
    /// the phoneme budget. So counting characters here is good enough, and avoids
    /// phonemising the pending text on every keystroke to find out.
    pub fn flush_at(&self) -> (r: usize)
        ensures
            r == patience(self.budget()),
    {
        match self.budget.chars {
            Some(cap) => cap,
            None => self.budget.phonemes,
        }
    }

    /// Feeds one piece of input, returning whatever chunks are now complete.
    pub fn push<E>(&mut self, piece: &str) -> (r: Result<Vec<Chunk>, E>)
        where F: FnMut(&str) -> Result<String, E>
        requires
            answers_any(old(self).phonemizer()),
            released(old(self).pending() + piece@, old(self).budget()) matches Some((text, _))
                ==> can_chunk(text, old(self).budget(), old(self).rest()),
        ensures
            final(self).rest() == old(self).rest(),
            final(self).phonemizer() == old(self).phonemizer(),
            final(self).budget() == budget_after(old(self).budget(), old(self).rest(), r),
            is_push(
                old(self).phonemizer(),
                old(self).pending() + piece@,
                old(self).budget(),
                old(self).rest(),
                r,
                final(self).pending(),
            ),
    {
        self.pending.append(piece);
        let chars = to_chars(&self.pending);
        let text = match rsplit_sentence(&chars) {
            Some((start, end)) => {
                // Only emit up to the last sentence boundary; the tail may still
                // grow.
                self.pending = substring(&chars, end, chars.len());
                substring(&chars, 0, start)
            },
            None => {
                if chars.len() < self.flush_at() {
                    return Ok(Vec::new());
                }
                let text = self.pending.clone();
                self.pending = String::new();
                text
            },
        };
        self.emit(&text)
    }

    /// Flushes whatever is left once the input ends.
    pub fn finish<E>(&mut self) -> (r: Result<Vec<Chunk>, E>)
        where F: FnMut(&str) -> Result<String, E>
        requires
            answers_any(old(self).phonemizer()),
            can_chunk(old(self).pending(), old(self).budget(), old(self).rest()),
        ensures
            final(self).rest() == old(self).rest(),
            final(self).phonemizer() == old(self).phonemizer(),
            final(self).budget() == budget_after(old(self).budget(), old(self).rest(), r),
            final(self).pending() == Seq::<char>::empty(),
            is_chunking(
                old(self).phonemizer(),
                old(self).pending(),
                old(self).budget(),
                old(self).rest(),
                r,
            ),
    {
        let text = self.pending.clone();
        self.pending = String::new();
        self.emit(&text)
    }

    /// Splits `text` into chunks. Only the very first chunk is kept short; once
    /// audio is playing, larger chunks give the model more context and better
    /// prosody. Splitting widens within a single call; this carries that across
    /// the calls that a streamed input arrives in.
    fn emit<E>(&mut self, text: &str) -> (r: Result<Vec<Chunk>, E>)
        where F: FnMut(&str) -> Result<String, E>
        requires
            answers_any(old(self).phonemizer()),
            can_chunk(text@, old(self).budget(), old(self).rest()),
        ensures
            final(self).rest() == old(self).rest(),
            final(self).phonemizer() == old(self).phonemizer(),
            final(self).budget() == budget_after(old(self).budget(), old(self).rest(), r),
            final(self).pending() == old(self).pending(),
            is_chunking(
                old(self).phonemizer(),
                text@,
                old(self).budget(),
                old(self).rest(),
                r,
            ),
    {
        let r = chunk_text(text, self.budget, self.rest, &mut self.phonemize);
        if let Ok(chunks) = &r {
            if chunks.len() > 0 {
                self.budget = self.rest;
            }
        }
        r
    }
}

} // verus!
