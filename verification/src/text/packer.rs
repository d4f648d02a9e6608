//! Packing phonemised pieces into chunks.

use vstd::prelude::*;

use crate::chars::nchars;

verus! {

/// One synthesis pass: the text as it will be spoken, and the phonemes it was
/// measured with, carried through so the synthesiser does not have to phonemise
/// it a second time.
#[derive(Debug, Clone, PartialEq, Eq)]
pub struct Chunk {
    pub text: String,
    pub phonemes: String,
}

/// How much a chunk may hold.
///
/// `phonemes` is the real limit; `chars` is an optional extra cap the user can
/// ask for, applied to the text before it is phonemised.
#[derive(Debug, Clone, Copy)]
pub struct Budget {
    pub phonemes: usize,
    pub chars: Option<usize>,
}

/// The contents of a chunk: a text and the phonemes it is spoken with.
#[verifier::ext_equal]
pub struct Spoken {
    pub text: Seq<char>,
    pub phonemes: Seq<char>,
}

impl View for Chunk {
    type V = Spoken;

    open spec fn view(&self) -> Spoken {
        Spoken { text: self.text@, phonemes: self.phonemes@ }
    }
}

/// The contents of a list of chunks.
pub open spec fn spoken(list: Seq<Chunk>) -> Seq<Spoken> {
    Seq::new(list.len(), |i: int| list[i]@)
}

impl Spoken {
    /// This and `next` in one chunk, text and phonemes alike rejoined with a
    /// single space.
    pub open spec fn joined(self, next: Spoken) -> Spoken {
        Spoken {
            text: self.text.push(' ') + next.text,
            phonemes: self.phonemes.push(' ') + next.phonemes,
        }
    }
}

impl Budget {
    /// Whether `held` still stays within the budget with `piece` joined to it.
    pub open spec fn allows(self, held: Spoken, piece: Spoken) -> bool {
        &&& held.phonemes.len() + 1 + piece.phonemes.len() <= self.phonemes
        &&& self.chars matches Some(cap) ==> held.text.len() + 1 + piece.text.len() <= cap
    }

    /// Whether `piece` still fits once appended to `buf` with a joining space.
    pub fn fits(&self, buf: &Chunk, piece: &Chunk) -> (r: bool)
        ensures
            r == self.allows(buf@, piece@),
    {
        within(&buf.phonemes, &piece.phonemes, self.phonemes) && match self.chars {
            Some(cap) => within(&buf.text, &piece.text, cap),
            None => true,
        }
    }
}

/// Whether `held` and `piece`, with a space between them, come to at most
/// `limit` characters.
fn within(held: &str, piece: &str, limit: usize) -> (r: bool)
    ensures
        r == (held@.len() + 1 + piece@.len() <= limit),
{
    let held_len = nchars(held);
    let piece_len = nchars(piece);
    held_len < limit && piece_len <= limit - held_len - 1
}

/// The state of packing: the budget in force, the one that follows it, the
/// chunk being filled, whether that chunk may still take another piece, and the
/// chunks already finished.
pub struct Packing {
    pub budget: Budget,
    pub rest: Budget,
    pub held: Option<Spoken>,
    pub open: bool,
    pub out: Seq<Spoken>,
}

impl Packing {
    /// Nothing packed yet.
    pub open spec fn start(first: Budget, rest: Budget) -> Packing {
        Packing { budget: first, rest, held: None, open: true, out: Seq::empty() }
    }

    /// The chunk being filled, if any, is finished, and the budget widened.
    pub open spec fn close(self) -> Packing {
        match self.held {
            Some(held) => Packing {
                budget: self.rest,
                held: None,
                open: true,
                out: self.out.push(held),
                ..self
            },
            None => Packing { open: true, ..self },
        }
    }

    /// `piece` is added to the chunk being filled, or to a new one where that
    /// chunk may not take it: either of the two may not be joined with its
    /// neighbours, or the budget does not allow it.
    pub open spec fn push(self, piece: Spoken, joinable: bool) -> Packing {
        match self.held {
            Some(held) => if joinable && self.open && self.budget.allows(held, piece) {
                Packing { held: Some(held.joined(piece)), open: joinable, ..self }
            } else {
                Packing { held: Some(piece), open: joinable, ..self.close() }
            },
            None => Packing { held: Some(piece), open: joinable, ..self },
        }
    }

    /// The chunks, the one being filled included.
    pub open spec fn finish(self) -> Seq<Spoken> {
        self.close().out
    }
}

/// Builds chunks out of already phonemised pieces, in order.
///
/// Text and phonemes alike are rejoined with a single space. A piece too large
/// to fit on its own simply lands in a chunk by itself.
pub struct Packer {
    /// The budget in force. Closing a chunk widens it to `rest`: only the first
    /// chunk is held to the narrow budget that gets audio started.
    pub budget: Budget,
    pub rest: Budget,
    pub buf: Option<Chunk>,
    /// Whether the chunk being built may still take another piece.
    pub open: bool,
    pub out: Vec<Chunk>,
}

impl View for Packer {
    type V = Packing;

    open spec fn view(&self) -> Packing {
        Packing {
            budget: self.budget,
            rest: self.rest,
            held: match self.buf {
                Some(chunk) => Some(chunk@),
                None => None,
            },
            open: self.open,
            out: spoken(self.out@),
        }
    }
}

impl Packer {
    /// A packer that holds the first chunk to `first` and every later one to
    /// `rest`.
    pub fn new(first: Budget, rest: Budget) -> (r: Packer)
        ensures
            r@ == Packing::start(first, rest),
    {
        let r = Packer { budget: first, rest, buf: None, open: true, out: Vec::new() };
        assert(spoken(r.out@) =~= Seq::empty());
        r
    }

    /// Adds `piece` to the chunk being built, closing that chunk off first if
    /// the piece no longer fits.
    ///
    /// `joinable` is false for a piece that must not share a chunk with its
    /// neighbours: a sentence may have been cut between two words, and words
    /// phonemised apart are not the phonemes of the two together.
    pub fn push(&mut self, piece: Chunk, joinable: bool)
        ensures
            final(self)@ == old(self)@.push(piece@, joinable),
    {
        let apart = match &self.buf {
            Some(held) => !joinable || !self.open || !self.budget.fits(held, &piece),
            None => false,
        };
        if apart {
            self.close();
        }
        let ghost added = piece@;
        let held = match self.buf.take() {
            Some(mut held) => {
                let ghost was = held@;
                held.text.push(' ');
                held.text.append(&piece.text);
                held.phonemes.push(' ');
                held.phonemes.append(&piece.phonemes);
                assert(held@ == was.joined(added));
                held
            },
            None => piece,
        };
        self.buf = Some(held);
        self.open = joinable;
    }

    /// Finishes the chunk being built, if any, and widens the budget.
    pub fn close(&mut self)
        ensures
            final(self)@ == old(self)@.close(),
    {
        if let Some(held) = self.buf.take() {
            let ghost before = spoken(self.out@);
            let ghost was = held@;
            self.out.push(held);
            assert(spoken(self.out@) =~= before.push(was));
            self.budget = self.rest;
        }
        self.open = true;
    }

    /// The chunks, the one being built included.
    pub fn finish(self) -> (r: Vec<Chunk>)
        ensures
            spoken(r@) == self@.finish(),
    {
        let mut packer = self;
        packer.close();
        packer.out
    }
}

} // verus!
