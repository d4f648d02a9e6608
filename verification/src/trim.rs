//! Trimming leading and trailing silence from a synthesised chunk.
//!
//! The model pads every utterance with silence. Left in, those pauses accumulate at
//! every chunk boundary and the speech sounds halting. The signal is looked at in
//! overlapping frames; how loud a frame is, is for the caller to say.

use vstd::prelude::*;

verus! {

/// Samples per analysis frame.
pub const FRAME_LENGTH: usize = 2048;

/// Samples between analysis frames.
pub const HOP_LENGTH: usize = 512;

/// Half a frame, by which the signal is padded at either end.
pub const HALF_FRAME: usize = 1024;

/// The number of frames that a signal of `len` samples has.
pub open spec fn frames_in(len: int) -> int {
    1 + len / (HOP_LENGTH as int)
}

/// The samples of the signal that the frame `f` covers. Frames are centred: the
/// `f`th one reaches half a frame to either side of its hop.
pub open spec fn covered(len: int, f: int) -> (int, int) {
    let centre = f * HOP_LENGTH;
    (
        if centre < HALF_FRAME {
            0
        } else {
            centre - HALF_FRAME
        },
        if centre + HALF_FRAME > len {
            len
        } else {
            centre + HALF_FRAME
        },
    )
}

/// The first loud frame from `i` on, or their number where there is none.
pub open spec fn first_loud(loud: Seq<bool>, i: int) -> int
    decreases loud.len() - i,
{
    if 0 <= i < loud.len() && !loud[i] {
        first_loud(loud, i + 1)
    } else {
        i
    }
}

/// The end of the last loud frame before `i`, or zero where there is none.
pub open spec fn last_loud(loud: Seq<bool>, i: int) -> int
    decreases i,
{
    if 0 < i <= loud.len() && !loud[i - 1] {
        last_loud(loud, i - 1)
    } else {
        i
    }
}

/// The range of a signal of `len` samples that is not leading or trailing silence:
/// from the first loud frame to the end of the last. Nothing is left of a signal
/// without a loud frame.
pub open spec fn audible(len: int, loud: Seq<bool>) -> (int, int) {
    let first = first_loud(loud, 0);
    let end = last_loud(loud, loud.len() as int) * HOP_LENGTH;
    if first >= loud.len() {
        (0, 0)
    } else {
        (
            first * HOP_LENGTH,
            if end > len {
                len
            } else {
                end
            },
        )
    }
}

/// What is known of the first loud frame.
proof fn lemma_first_loud(loud: Seq<bool>, i: int)
    requires
        0 <= i <= loud.len(),
    ensures
        i <= first_loud(loud, i) <= loud.len(),
        first_loud(loud, i) < loud.len() ==> loud[first_loud(loud, i)],
        forall|k: int| i <= k < first_loud(loud, i) ==> !#[trigger] loud[k],
    decreases loud.len() - i,
{
    if i < loud.len() && !loud[i] {
        lemma_first_loud(loud, i + 1);
    }
}

/// What is known of the last loud frame.
proof fn lemma_last_loud(loud: Seq<bool>, i: int)
    requires
        0 <= i <= loud.len(),
    ensures
        0 <= last_loud(loud, i) <= i,
        last_loud(loud, i) > 0 ==> loud[last_loud(loud, i) - 1],
        forall|k: int| last_loud(loud, i) <= k < i ==> !#[trigger] loud[k],
    decreases i,
{
    if i > 0 && !loud[i - 1] {
        lemma_last_loud(loud, i - 1);
    }
}

/// The range left after trimming lies inside the signal.
pub proof fn audible_lies_inside(len: int, loud: Seq<bool>)
    requires
        0 <= len,
        loud.len() == frames_in(len),
    ensures
        0 <= audible(len, loud).0 <= audible(len, loud).1 <= len,
{
    lemma_first_loud(loud, 0);
    lemma_last_loud(loud, loud.len() as int);
    let first = first_loud(loud, 0);
    if first < loud.len() {
        assert(last_loud(loud, loud.len() as int) > first);
    }
}

/// Trimming never takes away the hop of a loud frame.
pub proof fn loud_frames_are_kept(len: int, loud: Seq<bool>, f: int)
    requires
        0 <= len,
        loud.len() == frames_in(len),
        0 <= f < loud.len(),
        loud[f],
    ensures
        audible(len, loud).0 <= f * HOP_LENGTH,
        (f + 1) * HOP_LENGTH <= audible(len, loud).1 || audible(len, loud).1 == len,
{
    lemma_first_loud(loud, 0);
    lemma_last_loud(loud, loud.len() as int);
}

/// A signal that starts and ends loud, as a uniform one does, is left alone.
pub proof fn uniform_signals_are_left_alone(len: int, loud: Seq<bool>)
    requires
        0 <= len,
        loud.len() == frames_in(len),
        loud[0],
        loud[loud.len() - 1],
    ensures
        audible(len, loud) == (0int, len),
{
    loud_frames_are_kept(len, loud, 0);
    audible_lies_inside(len, loud);
    assert(last_loud(loud, loud.len() as int) == loud.len());
}

/// The number of frames that a signal of `len` samples has.
pub fn frame_count(len: usize) -> (r: usize)
    ensures
        r == frames_in(len as int),
{
    1 + len / HOP_LENGTH
}

/// The samples that the frame `f` of a signal of `len` samples covers; outside the
/// signal there is silence.
pub fn frame_span(len: usize, f: usize) -> (r: (usize, usize))
    requires
        f < frames_in(len as int),
    ensures
        (r.0 as int, r.1 as int) == covered(len as int, f as int),
        r.0 <= r.1 <= len,
{
    let centre = f * HOP_LENGTH;
    let from = if centre < HALF_FRAME {
        0
    } else {
        centre - HALF_FRAME
    };
    let to = if len - centre < HALF_FRAME {
        len
    } else {
        centre + HALF_FRAME
    };
    (from, to)
}

/// The range of a signal that is not leading or trailing silence, `loud` saying of
/// each frame whether it is heard.
pub fn trim_range(len: usize, loud: &[bool]) -> (r: (usize, usize))
    requires
        loud@.len() == frames_in(len as int),
    ensures
        (r.0 as int, r.1 as int) == audible(len as int, loud@),
        r.0 <= r.1 <= len,
{
    proof {
        lemma_first_loud(loud@, 0);
        lemma_last_loud(loud@, loud@.len() as int);
        audible_lies_inside(len as int, loud@);
    }
    let count = loud.len();
    let mut first: usize = 0;
    while first < count && !loud[first]
        invariant
            first <= count == loud@.len(),
            first_loud(loud@, 0) == first_loud(loud@, first as int),
        decreases count - first,
    {
        first += 1;
    }
    if first == count {
        return (0, 0);
    }
    let mut last = count;
    while last > 0 && !loud[last - 1]
        invariant
            last <= count == loud@.len(),
            last_loud(loud@, count as int) == last_loud(loud@, last as int),
        decreases last,
    {
        last -= 1;
    }
    let start = first * HOP_LENGTH;
    // The last frame may reach past the end of the signal.
    let end = if last > len / HOP_LENGTH {
        len
    } else {
        last * HOP_LENGTH
    };
    (start, end)
}

/// What is left of `audio` without leading and trailing silence, `loud` saying of
/// each frame whether it is heard.
pub fn trim<T: Copy>(audio: Vec<T>, loud: &[bool]) -> (r: Vec<T>)
    requires
        loud@.len() == frames_in(audio@.len() as int),
    ensures
        r@ == audio@.subrange(
            audible(audio@.len() as int, loud@).0,
            audible(audio@.len() as int, loud@).1,
        ),
{
    let (start, end) = trim_range(audio.len(), loud);
    if start == 0 && end == audio.len() {
        assert(audio@.subrange(0, audio@.len() as int) =~= audio@);
        return audio;
    }
    let mut kept: Vec<T> = Vec::new();
    let mut i = start;
    while i < end
        invariant
            start <= i <= end <= audio@.len(),
            kept@ == audio@.subrange(start as int, i as int),
        decreases end - i,
    {
        kept.push(audio[i]);
        assert(kept@ =~= audio@.subrange(start as int, i + 1));
        i += 1;
    }
    kept
}

/// Trimming takes away exactly the silence at either end: where `first` is the first frame
/// that is heard and `last` the last one, what is left starts with the hop of the one and
/// ends with the hop of the other, or with the signal where that is shorter. So the frame
/// at the start is heard, and every hop before it and after the end is that of a frame that
/// is not.
pub proof fn exactly_the_silence_is_taken_away(len: int, loud: Seq<bool>, first: int, last: int)
    requires
        0 <= len,
        512 * (loud.len() - 1) <= len < 512 * loud.len(),
        0 <= first <= last < loud.len(),
        loud[first],
        loud[last],
        forall|f: int| 0 <= f < first ==> !#[trigger] loud[f],
        forall|f: int| last < f < loud.len() ==> !#[trigger] loud[f],
    ensures
        loud.len() == frames_in(len),
        audible(len, loud).0 == 512 * first,
        512 * (last + 1) <= len ==> audible(len, loud).1 == 512 * (last + 1),
        512 * (last + 1) > len ==> audible(len, loud).1 == len,
{
    lemma_first_loud(loud, 0);
    lemma_last_loud(loud, loud.len() as int);
}

/// Nothing is left of a signal in which nothing is heard.
pub proof fn nothing_is_left_of_silence(len: int, loud: Seq<bool>)
    requires
        0 <= len,
        forall|f: int| 0 <= f < loud.len() ==> !#[trigger] loud[f],
    ensures
        audible(len, loud).0 == audible(len, loud).1,
{
    lemma_first_loud(loud, 0);
}

/// There is a frame for every hop that starts in the signal or at its end, and none for
/// any other.
pub proof fn every_hop_has_a_frame(len: int, f: int)
    requires
        0 <= len,
        0 <= f,
    ensures
        f < frames_in(len) <==> 512 * f <= len,
{
}

/// A frame covers exactly the samples that are less than half a frame from its hop, or
/// that far before it.
pub proof fn frames_are_centred(len: int, f: int, i: int)
    requires
        0 <= f < frames_in(len),
        0 <= i < len,
    ensures
        covered(len, f).0 <= i < covered(len, f).1 <==> -1024 <= i - 512 * f < 1024,
        0 <= covered(len, f).0 <= covered(len, f).1 <= len,
{
}

} // verus!
