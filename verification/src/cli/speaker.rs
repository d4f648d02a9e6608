//! Speaking chunks one after the other.

use vstd::prelude::*;

use crate::cli::{INTERRUPTED, NOTHING_SPOKEN, OK};
use crate::text::sentences::{ends_on_terminal, ends_sentence};

verus! {

/// What is said where there was nothing to speak.
pub const NOTHING_TO_SPEAK: &'static str = "no speakable text in input";

/// What is to be done with the audio of a chunk.
#[derive(Debug, Clone, Copy, PartialEq, Eq, Structural)]
pub enum Play {
    /// Stop: the run is interrupted.
    Stop,
    /// Nothing: nothing in this chunk survived phonemisation.
    Skip,
    /// Write it to the sink, which is to be opened first if `open` says so, after a
    /// gap of so many samples if there is to be one.
    Write { open: bool, gap: Option<usize> },
}

/// How speaking ends.
#[derive(Debug, Clone, Copy, PartialEq, Eq, Structural)]
pub enum Ending {
    /// Exit with this code.
    Exit(i32),
    /// Say that there was nothing to speak, and exit with this code.
    Nothing(i32),
    /// Stop the sink, discarding what it holds, and exit with this code.
    Stop(i32),
    /// Close the sink, letting what it holds play out.
    Close,
}

/// The state of speaking.
pub struct Speaker {
    opened: bool,
    interrupted: bool,
    /// Whether the previous chunk ended a sentence, and so earns a gap.
    pending_gap: bool,
    spoken: u64,
}

/// The contents of a [`Speaker`]: whether the sink is open, whether speaking was
/// interrupted, whether the last chunk ended a sentence, and how many samples were
/// written.
pub struct Speech {
    pub opened: bool,
    pub interrupted: bool,
    pub pending_gap: bool,
    pub spoken: nat,
}

impl View for Speaker {
    type V = Speech;

    closed spec fn view(&self) -> Speech {
        Speech {
            opened: self.opened,
            interrupted: self.interrupted,
            pending_gap: self.pending_gap,
            spoken: self.spoken as nat,
        }
    }
}

impl Speech {
    /// Nothing spoken yet.
    pub open spec fn start() -> Speech {
        Speech { opened: false, interrupted: false, pending_gap: false, spoken: 0 }
    }

    /// An interrupt is looked for.
    pub open spec fn polled(self, interrupt: bool) -> Speech {
        Speech { interrupted: self.interrupted || interrupt, ..self }
    }

    /// The gap that the next audio comes after: the pause between sentences that
    /// synthesising chunks separately clips, put back at the end of a sentence and
    /// never where a sentence had to be split.
    pub open spec fn gap(self, gap: Option<usize>) -> Option<usize> {
        if self.pending_gap {
            gap
        } else {
            None
        }
    }

    /// What is done with `count` samples that `text` was synthesised to.
    pub open spec fn play(
        self,
        interrupt: bool,
        count: nat,
        text: Seq<char>,
        gap: Option<usize>,
    ) -> (Speech, Play) {
        if interrupt {
            (self.polled(true), Play::Stop)
        } else if count == 0 {
            (self, Play::Skip)
        } else {
            (
                Speech {
                    opened: true,
                    pending_gap: ends_on_terminal(text),
                    spoken: capped(
                        self.spoken + count + match self.gap(gap) {
                            Some(n) => n as nat,
                            None => 0,
                        },
                    ),
                    ..self
                },
                Play::Write { open: !self.opened, gap: self.gap(gap) },
            )
        }
    }

    /// How speaking ends.
    pub open spec fn ending(self, interrupt: bool) -> Ending {
        if self.opened {
            if self.interrupted {
                Ending::Stop(INTERRUPTED)
            } else {
                Ending::Close
            }
        } else if self.interrupted || interrupt {
            Ending::Exit(INTERRUPTED)
        } else {
            Ending::Nothing(NOTHING_SPOKEN)
        }
    }
}

/// A number of samples, as far as they can be counted.
pub open spec fn capped(n: nat) -> nat {
    if n <= u64::MAX {
        n
    } else {
        u64::MAX as nat
    }
}

/// `a` and `b`, as far as they can be counted.
fn count_up(a: u64, b: usize) -> (r: u64)
    ensures
        r == capped(a as nat + b as nat),
{
    if b as u64 <= u64::MAX - a {
        a + b as u64
    } else {
        u64::MAX
    }
}

impl Speaker {
    /// Nothing spoken yet.
    pub fn new() -> (r: Self)
        ensures
            r@ == Speech::start(),
    {
        Speaker { opened: false, interrupted: false, pending_gap: false, spoken: 0 }
    }

    /// Whether to go on with the next chunk, `interrupt` saying whether an interrupt
    /// was seen.
    pub fn begin(&mut self, interrupt: bool) -> (r: bool)
        ensures
            final(self)@ == old(self)@.polled(interrupt),
            r == !interrupt,
    {
        if interrupt {
            self.interrupted = true;
        }
        !interrupt
    }

    /// What to do with the `count` samples that `text` was synthesised to. The sink
    /// is opened only once there is audio to put in it, so a run that produces
    /// nothing does not create an empty file or take the audio device.
    pub fn play(&mut self, interrupt: bool, count: usize, text: &str, gap: Option<usize>) -> (r:
        Play)
        ensures
            (final(self)@, r) == old(self)@.play(interrupt, count as nat, text@, gap),
    {
        if interrupt {
            self.interrupted = true;
            return Play::Stop;
        }
        if count == 0 {
            return Play::Skip;
        }
        let open = !self.opened;
        let pause = if self.pending_gap {
            gap
        } else {
            None
        };
        if let Some(n) = pause {
            self.spoken = count_up(self.spoken, n);
        }
        self.spoken = count_up(self.spoken, count);
        self.opened = true;
        self.pending_gap = ends_sentence(text);
        Play::Write { open, gap: pause }
    }

    /// Whether speaking was interrupted.
    pub fn is_interrupted(&self) -> (r: bool)
        ensures
            r == self@.interrupted,
    {
        self.interrupted
    }

    /// How many samples were written.
    pub fn spoken(&self) -> (r: u64)
        ensures
            r == self@.spoken,
    {
        self.spoken
    }

    /// How speaking ends.
    pub fn finish(&self, interrupt: bool) -> (r: Ending)
        ensures
            r == self@.ending(interrupt),
    {
        if self.opened {
            if self.interrupted {
                Ending::Stop(INTERRUPTED)
            } else {
                Ending::Close
            }
        } else if self.interrupted || interrupt {
            Ending::Exit(INTERRUPTED)
        } else {
            Ending::Nothing(NOTHING_SPOKEN)
        }
    }
}

/// The exit code once the sink is closed: closing plays out what is queued, but
/// returns early if an interrupt arrives meanwhile.
pub fn after_close(interrupt: bool) -> (r: i32)
    ensures
        r == if interrupt {
            INTERRUPTED
        } else {
            OK
        },
{
    if interrupt {
        INTERRUPTED
    } else {
        OK
    }
}

/// Of two chunks that are heard one after the other, a gap parts them exactly where
/// the first one ended a sentence.
pub proof fn gaps_follow_sentences(
    speech: Speech,
    first: Seq<char>,
    samples: nat,
    second: Seq<char>,
    more: nat,
    gap: Option<usize>,
)
    requires
        samples > 0,
        more > 0,
    ensures
        ({
            let (between, _) = speech.play(false, samples, first, gap);
            let (_, deed) = between.play(false, more, second, gap);
            deed == Play::Write {
                open: false,
                gap: if ends_on_terminal(first) {
                    gap
                } else {
                    None
                },
            }
        }),
{
}

/// No gap comes before the first sound, and the sink is opened exactly then.
pub proof fn the_first_sound_opens_the_sink(text: Seq<char>, samples: nat, gap: Option<usize>)
    requires
        samples > 0,
    ensures
        Speech::start().play(false, samples, text, gap).1 == (Play::Write {
            open: true,
            gap: None,
        }),
{
}

/// A chunk without audio leaves everything as it was, the gap that is due included.
pub proof fn silent_chunks_change_nothing(speech: Speech, text: Seq<char>, gap: Option<usize>)
    ensures
        speech.play(false, 0, text, gap) == (speech, Play::Skip),
{
}

/// The state after chunks that were spoken without an interrupt, each with the samples
/// that it came to.
pub open spec fn after_chunks(history: Seq<(Seq<char>, nat)>, gap: Option<usize>) -> Speech
    decreases history.len(),
{
    if history.len() == 0 {
        Speech::start()
    } else {
        let (text, samples) = history.last();
        after_chunks(history.drop_last(), gap).play(false, samples, text, gap).0
    }
}

/// The text of the last chunk that came to any samples.
pub open spec fn last_sounding(history: Seq<(Seq<char>, nat)>) -> Option<Seq<char>>
    decreases history.len(),
{
    if history.len() == 0 {
        None
    } else if history.last().1 > 0 {
        Some(history.last().0)
    } else {
        last_sounding(history.drop_last())
    }
}

proof fn lemma_after_chunks(history: Seq<(Seq<char>, nat)>, gap: Option<usize>)
    ensures
        ({
            let speech = after_chunks(history, gap);
            &&& speech.opened == last_sounding(history) is Some
            &&& speech.pending_gap == (last_sounding(history) matches Some(text)
                && ends_on_terminal(text))
            &&& !speech.interrupted
        }),
    decreases history.len(),
{
    if history.len() > 0 {
        lemma_after_chunks(history.drop_last(), gap);
    }
}

/// After any chunks at all: the next chunk with audio comes after a gap exactly where one
/// is asked for and the last chunk that was heard ended a sentence, and it opens the sink
/// exactly where none was heard before. A chunk without audio writes nothing, opens
/// nothing and leaves the gap that is due as it was. Only an interrupt stops speaking.
pub proof fn gaps_follow_the_last_sounding_sentence(
    history: Seq<(Seq<char>, nat)>,
    text: Seq<char>,
    samples: nat,
    gap: Option<usize>,
)
    ensures
        ({
            let speech = after_chunks(history, gap);
            let (after, deed) = speech.play(false, samples, text, gap);
            &&& samples > 0 ==> deed == Play::Write {
                open: last_sounding(history) is None,
                gap: if last_sounding(history) matches Some(heard) && ends_on_terminal(heard) {
                    gap
                } else {
                    None
                },
            }
            &&& samples == 0 ==> deed == Play::Skip && after == speech
            &&& after == after_chunks(history.push((text, samples)), gap)
            &&& forall|interrupt: bool|
                (#[trigger] speech.play(interrupt, samples, text, gap)).1 == Play::Stop
                    <==> interrupt
        }),
{
    lemma_after_chunks(history, gap);
    let longer = history.push((text, samples));
    assert(longer.drop_last() =~= history);
    assert(longer.last() == (text, samples));
}

/// How speaking ends after any chunks: with the sink closed, so that all of it is heard,
/// where anything was; else with word that there was nothing to speak, or, where an
/// interrupt is seen, with its code.
pub proof fn what_was_heard_is_played_out(
    history: Seq<(Seq<char>, nat)>,
    gap: Option<usize>,
    interrupt: bool,
)
    ensures
        ({
            let ending = after_chunks(history, gap).ending(interrupt);
            let heard = exists|k: int| 0 <= k < history.len() && (#[trigger] history[k]).1 > 0;
            &&& heard ==> ending == Ending::Close
            &&& !heard && interrupt ==> ending == Ending::Exit(130)
            &&& !heard && !interrupt ==> ending == Ending::Nothing(1)
        }),
{
    lemma_after_chunks(history, gap);
    lemma_last_sounding(history);
}

proof fn lemma_last_sounding(history: Seq<(Seq<char>, nat)>)
    ensures
        last_sounding(history) is Some <==> exists|k: int|
            0 <= k < history.len() && (#[trigger] history[k]).1 > 0,
    decreases history.len(),
{
    if history.len() > 0 {
        let less = history.drop_last();
        let n = less.len() as int;
        lemma_last_sounding(less);
        assert(history[n] == history.last());
        if exists|k: int| 0 <= k < less.len() && (#[trigger] less[k]).1 > 0 {
            let k = choose|k: int| 0 <= k < less.len() && (#[trigger] less[k]).1 > 0;
            assert(history[k].1 > 0);
        }
        if exists|k: int| 0 <= k < history.len() && (#[trigger] history[k]).1 > 0 {
            let k = choose|k: int| 0 <= k < history.len() && (#[trigger] history[k]).1 > 0;
            if k < n {
                assert(less[k].1 > 0);
            }
        }
    }
}

/// An interrupt is not forgotten: once one was seen, what is in the sink is discarded, and
/// the code is that of an interrupt.
pub proof fn an_interrupt_is_not_forgotten(
    speech: Speech,
    samples: nat,
    text: Seq<char>,
    gap: Option<usize>,
    interrupt: bool,
)
    ensures
        speech.polled(true).interrupted,
        speech.polled(false) == speech,
        speech.play(true, samples, text, gap) == (speech.polled(true), Play::Stop),
        speech.interrupted ==> {
            &&& speech.polled(interrupt).interrupted
            &&& speech.play(interrupt, samples, text, gap).0.interrupted
            &&& speech.opened ==> speech.ending(interrupt) == Ending::Stop(130)
            &&& !speech.opened ==> speech.ending(interrupt) == Ending::Exit(130)
        },
        speech.polled(true).opened == speech.opened,
        speech.polled(true).pending_gap == speech.pending_gap,
        speech.polled(true).spoken == speech.spoken,
{
}

/// All samples that are written are counted, those of the gaps included, as long as they
/// can be.
pub proof fn all_samples_are_counted(
    speech: Speech,
    samples: nat,
    text: Seq<char>,
    gap: Option<usize>,
)
    requires
        samples > 0,
    ensures
        ({
            let (after, deed) = speech.play(false, samples, text, gap);
            let written = samples + match deed {
                Play::Write { gap: Some(n), .. } => n as nat,
                _ => 0nat,
            };
            &&& speech.spoken + written <= u64::MAX ==> after.spoken == speech.spoken + written
            &&& speech.spoken + written > u64::MAX ==> after.spoken == u64::MAX
            &&& deed matches Play::Write { open, gap: paused } && open == !speech.opened && (
            paused is None || paused == gap)
        }),
{
}

} // verus!
