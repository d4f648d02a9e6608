//! Handing audio to the device that plays it.
//!
//! Synthesis and playback run concurrently: the producer hands a chunk to the audio
//! callback through a bounded queue and goes straight back to generating the next
//! one. The queue is deliberately shallow: synthesis outruns playback, so an
//! unbounded one would race ahead and hold an entire document's audio in memory.

use vstd::prelude::*;

verus! {

/// How deep the handoff queue is, in chunks.
pub const QUEUE_DEPTH: usize = 4;

/// How often blocking waits look for an interrupt again, in milliseconds.
pub const POLL_MILLIS: u64 = 100;

/// The samples of queued chunks, one chunk after the other.
pub open spec fn queued<T>(queue: Seq<Vec<T>>) -> Seq<T>
    decreases queue.len(),
{
    if queue.len() == 0 {
        Seq::empty()
    } else {
        queue[0]@ + queued(queue.drop_first())
    }
}

/// How many of `frames` can be filled with the samples `all`.
pub open spec fn filled<T>(all: Seq<T>, frames: nat) -> nat {
    if frames < all.len() {
        frames
    } else {
        all.len()
    }
}

/// What is left of the samples `all` once `frames` have been played.
pub open spec fn unplayed<T>(all: Seq<T>, frames: nat) -> Seq<T> {
    all.skip(filled(all, frames) as int)
}

/// A buffer of `len` samples in frames of `channels`: the samples `all` in order, each
/// in every channel of its frame, and silence beyond them.
pub open spec fn played<T>(all: Seq<T>, len: nat, channels: nat, silence: T) -> Seq<T> {
    Seq::new(
        len,
        |i: int|
            if i / channels as int >= all.len() {
                silence
            } else {
                all[i / channels as int]
            },
    )
}

/// The number of frames that a buffer of `len` samples has, the last one perhaps
/// not a full one.
pub open spec fn frames_of(len: nat, channels: nat) -> nat {
    (len + channels - 1) as nat / channels
}

/// The number of frames that a buffer of `len` samples has.
fn frame_total(len: usize, channels: usize) -> (r: usize)
    requires
        channels > 0,
    ensures
        r == frames_of(len as nat, channels as nat),
{
    let whole = len / channels;
    let part = len % channels;
    proof {
        vstd::arithmetic::div_mod::lemma_fundamental_div_mod(len as int, channels as int);
        vstd::arithmetic::div_mod::lemma_mod_bound(len as int, channels as int);
        let count: int = if part == 0 {
            whole as int
        } else {
            whole + 1
        };
        assert(channels * whole == whole * channels) by (nonlinear_arith);
        assert((whole + 1) * channels == whole * channels + channels) by (nonlinear_arith);
        assert(whole <= whole * channels) by (nonlinear_arith)
            requires
                channels > 0,
        ;
        lemma_frames(len as int, channels as int, count);
    }
    if part == 0 {
        whole
    } else {
        whole + 1
    }
}

/// The audio callback's side of the handoff.
pub struct Playback<T> {
    current: Vec<T>,
    position: usize,
}

impl<T> Playback<T> {
    /// Whether the position lies in the chunk being played.
    pub closed spec fn wf(&self) -> bool {
        self.position <= self.current@.len()
    }

    /// What is left of the chunk being played.
    pub closed spec fn left(&self) -> Seq<T> {
        self.current@.skip(self.position as int)
    }

    /// Nothing to play yet.
    pub fn new() -> (r: Self)
        ensures
            r.wf(),
            r.left() == Seq::<T>::empty(),
    {
        let r = Playback { current: Vec::new(), position: 0 };
        assert(r.left() =~= Seq::empty());
        r
    }

    /// Whether a buffer of `len` samples takes more than what is left of the chunk being
    /// played and what is queued, so that another chunk is wanted.
    pub fn wants(&self, queue: &Vec<Vec<T>>, len: usize, channels: usize) -> (r: bool)
        requires
            self.wf(),
            channels > 0,
        ensures
            r == ((self.left() + queued(queue@)).len() < frames_of(len as nat, channels as nat)),
    {
        let frames = frame_total(len, channels);
        let mut have = self.current.len() - self.position;
        let mut i: usize = 0;
        assert(queue@.skip(0) =~= queue@);
        while i < queue.len()
            invariant
                self.wf(),
                i <= queue@.len(),
                frames == frames_of(len as nat, channels as nat),
                have + queued(queue@.skip(i as int)).len() == (self.left() + queued(queue@)).len(),
            decreases queue@.len() - i,
        {
            proof {
                assert(queue@.skip(i as int)[0] == queue@[i as int]);
                assert(queue@.skip(i as int).drop_first() =~= queue@.skip(i + 1));
            }
            let size = queue[i].len();
            if have >= frames || size >= frames - have {
                return false;
            }
            have += size;
            i += 1;
        }
        assert(queue@.skip(i as int).len() == 0);
        have < frames
    }
}

impl<T: Copy> Playback<T> {
    /// Fills a buffer of `len` samples, for a device of `channels`, from what is left of
    /// the chunk being played and from the queue: the samples, and whether playback is
    /// complete, `finished` saying whether nothing more will be queued. Mono is
    /// duplicated across whatever channel count the device wants. A playback that is
    /// being abandoned is silent, and complete at once.
    pub fn fill(
        &mut self,
        len: usize,
        channels: usize,
        silence: T,
        stopping: bool,
        queue: &mut Vec<Vec<T>>,
        finished: bool,
    ) -> (r: (Vec<T>, bool))
        requires
            old(self).wf(),
            channels > 0,
        ensures
            final(self).wf(),
            stopping ==> {
                &&& r.1
                &&& r.0@ == Seq::new(len as nat, |i: int| silence)
                &&& final(self).left() == old(self).left()
                &&& *final(queue) == *old(queue)
            },
            !stopping ==> {
                let all = old(self).left() + queued(old(queue)@);
                let frames = frames_of(len as nat, channels as nat);
                &&& r.0@ == played(all, len as nat, channels as nat, silence)
                &&& r.1 == (finished && frames > all.len())
                &&& final(self).left() + queued(final(queue)@) == unplayed(all, frames)
            },
    {
        let mut out: Vec<T> = Vec::new();
        if stopping {
            while out.len() < len
                invariant
                    out@.len() <= len,
                    forall|k: int| 0 <= k < out@.len() ==> #[trigger] out@[k] == silence,
                decreases len - out@.len(),
            {
                out.push(silence);
            }
            assert(out@ =~= Seq::new(len as nat, |i: int| silence));
            return (out, true);
        }
        let ghost all = self.left() + queued(queue@);
        let ghost mut frames: nat = 0;
        let mut starved = false;
        proof {
            assert(0 * (channels as int) == 0) by (nonlinear_arith);
            assert(unplayed(all, 0) =~= all);
        }
        while out.len() < len
            invariant
                self.wf(),
                channels > 0,
                self.left() + queued(queue@) == unplayed(all, frames),
                starved == (frames > all.len()),
                out@.len() <= len,
                out@.len() == frames * channels || out@.len() == len && (frames - 1) * channels
                    < len <= frames * channels,
                forall|k: int|
                    0 <= k < out@.len() ==> #[trigger] out@[k] == played(
                        all,
                        len as nat,
                        channels as nat,
                        silence,
                    )[k],
            decreases len - out@.len(),
        {
            let ghost was = out@;
            while self.position >= self.current.len() && queue.len() > 0
                invariant
                    self.wf(),
                    self.left() + queued(queue@) == unplayed(all, frames),
                decreases queue@.len(),
            {
                let ghost before = queue@;
                assert(self.left() =~= Seq::empty());
                let chunk = queue.remove(0);
                assert(queue@ =~= before.drop_first());
                self.current = chunk;
                self.position = 0;
                assert(self.left() =~= before[0]@);
                assert(self.left() + queued(queue@) =~= unplayed(all, frames));
            }
            let ghost left = self.left();
            assert(left + queued(queue@) == unplayed(all, frames));
            let sample = if self.position < self.current.len() {
                let sample = self.current[self.position];
                self.position += 1;
                proof {
                    assert(sample == left[0]);
                    assert(self.left() =~= left.skip(1));
                    assert((left + queued(queue@))[0] == sample);
                    assert(unplayed(all, frames).len() > 0);
                    assert(frames < all.len());
                    assert(all[frames as int] == sample);
                    assert(self.left() + queued(queue@) =~= (left + queued(queue@)).skip(1));
                    assert(unplayed(all, frames).skip(1) =~= unplayed(all, frames + 1));
                }
                sample
            } else {
                // Nothing queued: silence.
                starved = true;
                proof {
                    assert(left =~= Seq::empty());
                    assert(queued(queue@).len() == 0);
                    assert(unplayed(all, frames).len() == 0);
                    assert(frames >= all.len());
                    assert(unplayed(all, frames + 1) =~= unplayed(all, frames));
                }
                silence
            };
            proof {
                lemma_frame(frames as int, channels as int, len as int);
            }
            let room = len - out.len();
            let count = if room < channels {
                room
            } else {
                channels
            };
            let mut c: usize = 0;
            while c < count
                invariant
                    c <= count <= channels,
                    count <= len - was.len(),
                    was.len() == frames * channels,
                    out@.len() == was.len() + c,
                    forall|k: int| 0 <= k < was.len() ==> #[trigger] out@[k] == was[k],
                    forall|k: int|
                        was.len() <= k < out@.len() ==> #[trigger] out@[k] == sample,
                decreases count - c,
            {
                out.push(sample);
                c += 1;
            }
            proof {
                assert forall|k: int| 0 <= k < out@.len() implies #[trigger] out@[k] == played(
                    all,
                    len as nat,
                    channels as nat,
                    silence,
                )[k] by {
                    lemma_frame_of(k, frames as int, channels as int);
                    if k < was.len() {
                        assert(out@[k] == was[k]);
                    }
                }
                frames = frames + 1;
            }
        }
        proof {
            lemma_frames(len as int, channels as int, frames as int);
            assert(frames_of(len as nat, channels as nat) == frames);
            assert(out@ =~= played(all, len as nat, channels as nat, silence));
        }
        (out, starved && finished)
    }
}

proof fn lemma_frame(frames: int, channels: int, len: int)
    by (nonlinear_arith)
    requires
        0 <= frames,
        0 < channels,
    ensures
        (frames + 1) * channels == frames * channels + channels,
        0 <= frames * channels,
{
}

/// The frame that a sample is in.
proof fn lemma_frame_of(k: int, frames: int, channels: int)
    requires
        0 <= frames,
        0 < channels,
        0 <= k < (frames + 1) * channels,
    ensures
        k < frames * channels ==> 0 <= k / channels < frames,
        k >= frames * channels ==> k / channels == frames,
{
    assert(k < frames * channels ==> 0 <= k / channels < frames) by (nonlinear_arith)
        requires
            0 <= frames,
            0 < channels,
            0 <= k,
    ;
    if k >= frames * channels {
        assert(k / channels == frames) by (nonlinear_arith)
            requires
                0 <= frames,
                0 < channels,
                frames * channels <= k < (frames + 1) * channels,
        ;
    }
}

/// The number of frames that a full buffer has.
proof fn lemma_frames(len: int, channels: int, frames: int)
    by (nonlinear_arith)
    requires
        0 <= len,
        0 < channels,
        0 <= frames,
        len == frames * channels || (frames - 1) * channels < len <= frames * channels,
    ensures
        (len + channels - 1) / channels == frames,
{
}

/// Every queued sample is played once and in order, none skipped: of a mono buffer, what
/// was played and what is left is what there was.
pub proof fn no_sample_is_lost<T>(all: Seq<T>, len: nat, silence: T)
    ensures
        frames_of(len, 1) == len,
        played(all, len, 1, silence).take(filled(all, len) as int) + unplayed(all, len) == all,
{
    let heard = played(all, len, 1, silence);
    assert forall|i: int| 0 <= i < filled(all, len) implies heard[i] == all[i] by {
        assert(i / 1 == i);
    }
    assert(heard.take(filled(all, len) as int) + unplayed(all, len) =~= all);
}

/// Playing goes on where it stopped: two buffers, with more queued in between, play what
/// one buffer of their length would of all that was queued, unless the first ran dry.
pub proof fn playing_goes_on<T>(all: Seq<T>, more: Seq<T>, first: nat, second: nat)
    requires
        first <= all.len(),
    ensures
        unplayed(unplayed(all, first) + more, second) == unplayed(all + more, first + second),
        (all + more).take(first as int) + (unplayed(all, first) + more) == all + more,
{
    let after = unplayed(all, first) + more;
    assert(after =~= (all + more).skip(first as int));
    assert(unplayed(after, second) =~= unplayed(all + more, first + second));
    assert((all + more).take(first as int) + after =~= all + more);
}

/// What became of a chunk that was offered to the queue.
#[derive(Debug, Clone, Copy, PartialEq, Eq, Structural)]
pub enum Offer {
    Sent,
    Full,
    Disconnected,
}

/// How the handing over of a chunk goes on.
#[derive(Debug, Clone, Copy, PartialEq, Eq, Structural)]
pub enum WriteStep {
    /// The audio output failed: say so.
    Fail,
    /// It is done with.
    Done,
    /// Offer the chunk to the queue.
    Offer,
    /// Wait a little, and see whether it can be offered then.
    Wait,
}

/// Taking up a chunk: `failed` says whether the audio output has failed, `open`
/// whether the queue still takes chunks.
pub fn begin_write(failed: bool, open: bool) -> (r: WriteStep)
    ensures
        r == if failed {
            WriteStep::Fail
        } else if open {
            WriteStep::Offer
        } else {
            WriteStep::Done
        },
{
    if failed {
        WriteStep::Fail
    } else if open {
        WriteStep::Offer
    } else {
        WriteStep::Done
    }
}

/// Before a chunk is offered: an interrupt is noticed while the queue is full, which
/// is most of the time, playback being the slower of the two.
pub fn before_offer(interrupted: bool, failed: bool) -> (r: WriteStep)
    ensures
        r == if !interrupted {
            WriteStep::Offer
        } else if failed {
            WriteStep::Fail
        } else {
            WriteStep::Done
        },
{
    if !interrupted {
        WriteStep::Offer
    } else if failed {
        WriteStep::Fail
    } else {
        WriteStep::Done
    }
}

/// After a chunk was offered.
pub fn after_offer(offer: Offer, failed: bool) -> (r: WriteStep)
    ensures
        r == match offer {
            Offer::Sent => WriteStep::Done,
            Offer::Full => WriteStep::Wait,
            Offer::Disconnected => if failed {
                WriteStep::Fail
            } else {
                WriteStep::Done
            },
        },
{
    match offer {
        Offer::Sent => WriteStep::Done,
        Offer::Full => WriteStep::Wait,
        Offer::Disconnected => if failed {
            WriteStep::Fail
        } else {
            WriteStep::Done
        },
    }
}

/// How the closing of a device goes on.
#[derive(Debug, Clone, Copy, PartialEq, Eq, Structural)]
pub enum CloseStep {
    /// Audio is still queued: wait a little, and look again.
    Wait,
    /// Give up now, discarding what is queued.
    Stop,
    /// Everything was handed over: let the device's own buffer play out.
    PlayOut,
}

/// Waiting for the queued audio to reach the speakers, unless interrupted.
pub fn close_step(drained: bool, interrupted: bool) -> (r: CloseStep)
    ensures
        r == if interrupted {
            CloseStep::Stop
        } else if drained {
            CloseStep::PlayOut
        } else {
            CloseStep::Wait
        },
{
    if interrupted {
        CloseStep::Stop
    } else if drained {
        CloseStep::PlayOut
    } else {
        CloseStep::Wait
    }
}

/// Whatever the channels, every frame of a buffer holds the sample that is its turn, in all
/// of its channels, and silence once there are no more. A buffer has the frames that it
/// takes to fill it.
pub proof fn every_frame_holds_its_sample<T>(
    all: Seq<T>,
    len: nat,
    channels: nat,
    silence: T,
    frame: int,
    channel: int,
)
    requires
        channels > 0,
        0 <= frame,
        0 <= channel < channels,
        frame * channels + channel < len,
    ensures
        played(all, len, channels, silence).len() == len,
        frame < all.len() ==> played(all, len, channels, silence)[frame * channels + channel]
            == all[frame],
        frame >= all.len() ==> played(all, len, channels, silence)[frame * channels + channel]
            == silence,
        frame < frames_of(len, channels),
{
    let i = frame * channels + channel;
    assert((frame + 1) * channels == frame * channels + channels) by (nonlinear_arith);
    assert(0 <= frame * channels) by (nonlinear_arith)
        requires
            0 <= frame,
            channels > 0,
    ;
    lemma_frame_of(i, frame, channels as int);
    assert(frame < (len + channels - 1) / (channels as int)) by (nonlinear_arith)
        requires
            channels > 0,
            0 <= channel,
            frame * channels + channel < len,
    ;
}

/// A buffer has no frame that nothing is in.
pub proof fn no_frame_is_empty(len: nat, channels: nat)
    requires
        channels > 0,
    ensures
        (frames_of(len, channels) - 1) * channels < len || len == 0 && frames_of(len, channels)
            == 0,
        len <= frames_of(len, channels) * channels,
{
    let n = len + channels - 1;
    let frames = n / (channels as int);
    assert((frames - 1) * channels < len || len == 0 && frames == 0) by (nonlinear_arith)
        requires
            channels > 0,
            n == len + channels - 1,
            frames == n / (channels as int),
            len >= 0,
    ;
    assert(len <= frames * channels) by (nonlinear_arith)
        requires
            channels > 0,
            n == len + channels - 1,
            frames == n / (channels as int),
    ;
}

/// One sample is used up by every frame, and what is left are the samples after those.
pub proof fn every_frame_uses_a_sample<T>(all: Seq<T>, frames: nat, k: int)
    ensures
        frames <= all.len() ==> unplayed(all, frames).len() == all.len() - frames,
        frames > all.len() ==> unplayed(all, frames).len() == 0,
        0 <= k && frames + k < all.len() ==> unplayed(all, frames)[k] == all[frames + k],
{
}

/// Chunks are queued in order, and each with all of its samples.
pub proof fn queued_chunks_keep_their_order<T>(queue: Seq<Vec<T>>, chunk: Vec<T>)
    ensures
        queued(Seq::<Vec<T>>::empty()).len() == 0,
        queued(queue.push(chunk)) == queued(queue) + chunk@,
    decreases queue.len(),
{
    let more = queue.push(chunk);
    if queue.len() == 0 {
        assert(more.drop_first() =~= Seq::empty());
        assert(queued(more.drop_first()) =~= Seq::empty());
        assert(queued(more) =~= queued(queue) + chunk@);
    } else {
        queued_chunks_keep_their_order(queue.drop_first(), chunk);
        assert(more.drop_first() =~= queue.drop_first().push(chunk));
        assert(more[0] == queue[0]);
        assert(queued(more) =~= queued(queue) + chunk@);
    }
}

} // verus!
