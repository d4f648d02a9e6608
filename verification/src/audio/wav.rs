//! Streaming WAV.

use vstd::prelude::*;

verus! {

/// The length that a stream declares while it is not known: the convention that
/// players use for piped WAV.
pub const UNKNOWN: u32 = 0xFFFF_FFFF;

/// The two bytes of `n`, the lower one first.
pub open spec fn two_bytes(n: nat) -> Seq<u8> {
    seq![(n % 256) as u8, (n / 256 % 256) as u8]
}

/// The four bytes of `n`, the lowest one first.
pub open spec fn four_bytes(n: nat) -> Seq<u8> {
    two_bytes(n % 65536) + two_bytes(n / 65536)
}

/// The header of a stream of uncompressed samples whose length is not known.
pub open spec fn header(sample_rate: u32, channels: u16, bits: u16) -> Seq<u8> {
    let block_align = (channels * bits / 8) as nat;
    let byte_rate = (sample_rate * block_align) as nat;
    // RIFF, its length, WAVE
    seq![82u8, 73, 70, 70] + four_bytes(UNKNOWN as nat) + seq![87u8, 65, 86, 69]
    // "fmt ", its length, PCM
     + seq![102u8, 109, 116, 32] + four_bytes(16) + two_bytes(1) + two_bytes(channels as nat)
        + four_bytes(sample_rate as nat) + four_bytes(byte_rate) + two_bytes(block_align)
        + two_bytes(bits as nat)
    // data, its length
     + seq![100u8, 97, 116, 97] + four_bytes(UNKNOWN as nat)
}

/// A sample as the two bytes of its two's complement.
pub open spec fn sample_bytes(sample: i16) -> Seq<u8> {
    if sample < 0 {
        two_bytes((sample + 65536) as nat)
    } else {
        two_bytes(sample as nat)
    }
}

/// The bytes of samples, one after the other.
pub open spec fn pcm(samples: Seq<i16>) -> Seq<u8>
    decreases samples.len(),
{
    if samples.len() == 0 {
        Seq::empty()
    } else {
        pcm(samples.drop_last()) + sample_bytes(samples.last())
    }
}

fn push_two(out: &mut Vec<u8>, n: u16)
    ensures
        final(out)@ == old(out)@ + two_bytes(n as nat),
{
    out.push((n % 256) as u8);
    out.push((n / 256) as u8);
    assert(out@ =~= old(out)@ + two_bytes(n as nat));
}

fn push_four(out: &mut Vec<u8>, n: u32)
    ensures
        final(out)@ == old(out)@ + four_bytes(n as nat),
{
    let ghost before = out@;
    push_two(out, (n % 65536) as u16);
    push_two(out, (n / 65536) as u16);
    assert(out@ =~= before + four_bytes(n as nat));
}

fn push_tag(out: &mut Vec<u8>, a: u8, b: u8, c: u8, d: u8)
    ensures
        final(out)@ == old(out)@ + seq![a, b, c, d],
{
    out.push(a);
    out.push(b);
    out.push(c);
    out.push(d);
    assert(out@ =~= old(out)@ + seq![a, b, c, d]);
}

/// The header of a stream whose length is not known up front.
pub fn wav_header(sample_rate: u32, channels: u16, bits: u16) -> (r: Vec<u8>)
    requires
        channels * bits <= u16::MAX,
        sample_rate * (channels * bits / 8) <= u32::MAX,
    ensures
        r@ == header(sample_rate, channels, bits),
        r@.len() == 44,
{
    let block_align = channels * bits / 8;
    let byte_rate = sample_rate * block_align as u32;
    let mut out: Vec<u8> = Vec::new();
    push_tag(&mut out, 82, 73, 70, 70);
    push_four(&mut out, UNKNOWN);
    push_tag(&mut out, 87, 65, 86, 69);
    push_tag(&mut out, 102, 109, 116, 32);
    push_four(&mut out, 16);
    push_two(&mut out, 1);
    push_two(&mut out, channels);
    push_four(&mut out, sample_rate);
    push_four(&mut out, byte_rate);
    push_two(&mut out, block_align);
    push_two(&mut out, bits);
    push_tag(&mut out, 100, 97, 116, 97);
    push_four(&mut out, UNKNOWN);
    assert(out@ =~= header(sample_rate, channels, bits));
    out
}

/// The bytes of samples, one after the other.
pub fn pcm_bytes(samples: &[i16]) -> (r: Vec<u8>)
    ensures
        r@ == pcm(samples@),
{
    let mut out: Vec<u8> = Vec::new();
    let mut i: usize = 0;
    assert(samples@.take(0) =~= Seq::empty());
    while i < samples.len()
        invariant
            i <= samples@.len(),
            out@ == pcm(samples@.take(i as int)),
        decreases samples@.len() - i,
    {
        let s = samples[i];
        let n: u16 = if s < 0 {
            (s as i32 + 65536) as u16
        } else {
            s as u16
        };
        proof {
            assert(samples@.take(i + 1).drop_last() =~= samples@.take(i as int));
            assert(samples@.take(i + 1).last() == s);
        }
        push_two(&mut out, n);
        i += 1;
    }
    assert(samples@.take(i as int) =~= samples@);
    out
}

/// The number that two bytes stand for, the lower one first.
pub open spec fn sample_of(low: u8, high: u8) -> int {
    let n = low + 256 * high;
    if n < 32768 {
        n
    } else {
        n - 65536
    }
}

/// Reading the bytes of samples gives the samples back: none is lost, and each is
/// where it was.
pub proof fn samples_read_back(samples: Seq<i16>)
    ensures
        pcm(samples).len() == 2 * samples.len(),
        forall|k: int| #![trigger samples[k]]
            0 <= k < samples.len() ==> sample_of(pcm(samples)[2 * k], pcm(samples)[2 * k + 1])
                == samples[k],
    decreases samples.len(),
{
    if samples.len() > 0 {
        let less = samples.drop_last();
        samples_read_back(less);
        assert forall|k: int| #![trigger samples[k]] 0 <= k < samples.len() implies sample_of(
            pcm(samples)[2 * k],
            pcm(samples)[2 * k + 1],
        ) == samples[k] by {
            if k < less.len() {
                assert(less[k] == samples[k]);
                assert(pcm(samples)[2 * k] == pcm(less)[2 * k]);
                assert(pcm(samples)[2 * k + 1] == pcm(less)[2 * k + 1]);
            } else {
                assert(pcm(samples)[2 * k] == sample_bytes(samples[k])[0]);
                assert(pcm(samples)[2 * k + 1] == sample_bytes(samples[k])[1]);
            }
        }
    }
}

/// What flushing a stream came to.
pub enum Flushed<E> {
    Done,
    /// Nobody reads the stream any more.
    BrokenPipe,
    Failed(E),
}

/// A streaming WAV written to a stream that cannot be sought in, such as stdout.
pub struct StdoutWavSink {
    closed: bool,
}

impl StdoutWavSink {
    /// Whether nothing more is written.
    pub closed spec fn is_closed(&self) -> bool {
        self.closed
    }

    /// Opens a stream of one channel and 16 bits per sample, with the bytes that it
    /// starts with.
    pub fn new(sample_rate: u32) -> (r: (Self, Vec<u8>))
        requires
            sample_rate * 2 <= u32::MAX,
        ensures
            !r.0.is_closed(),
            r.1@ == header(sample_rate, 1, 16),
    {
        (StdoutWavSink { closed: false }, wav_header(sample_rate, 1, 16))
    }

    /// The bytes to write for samples; there are none once the stream is closed.
    pub fn write(&self, samples: &[i16]) -> (r: Option<Vec<u8>>)
        ensures
            r is None <==> self.is_closed(),
            r matches Some(bytes) ==> bytes@ == pcm(samples@),
    {
        if self.closed {
            return None;
        }
        Some(pcm_bytes(samples))
    }

    /// Closes the stream, which has been flushed. That nobody reads it any more is
    /// how a pipe ends, and no error.
    pub fn close<E>(&mut self, flushed: Flushed<E>) -> (r: Result<(), E>)
        ensures
            final(self).is_closed(),
            r == match flushed {
                Flushed::Failed(e) => Err::<(), E>(e),
                _ => Ok(()),
            },
    {
        self.closed = true;
        match flushed {
            Flushed::Failed(e) => Err(e),
            Flushed::BrokenPipe => Ok(()),
            Flushed::Done => Ok(()),
        }
    }
}

/// The header of a stream says what was asked for, each number with its lowest byte first:
/// the format is that of uncompressed samples, and the channels, the sample rate, the bytes
/// of a second, the bytes of a sample in all channels and its bits are those given. The two
/// lengths that are not known are as large as can be.
pub proof fn headers_say_what_was_asked_for(sample_rate: u32, channels: u16, bits: u16)
    requires
        channels * bits <= u16::MAX,
        sample_rate * (channels * bits / 8) <= u32::MAX,
    ensures
        ({
            let h = header(sample_rate, channels, bits);
            &&& h.len() == 44
            // RIFF, WAVE, "fmt " and data
            &&& h[0] == 82 && h[1] == 73 && h[2] == 70 && h[3] == 70
            &&& h[8] == 87 && h[9] == 65 && h[10] == 86 && h[11] == 69
            &&& h[12] == 102 && h[13] == 109 && h[14] == 116 && h[15] == 32
            &&& h[36] == 100 && h[37] == 97 && h[38] == 116 && h[39] == 97
            &&& h[4] == 255 && h[5] == 255 && h[6] == 255 && h[7] == 255
            &&& h[40] == 255 && h[41] == 255 && h[42] == 255 && h[43] == 255
            &&& h[16] + 256 * h[17] + 65536 * h[18] + 16777216 * h[19] == 16
            &&& h[20] + 256 * h[21] == 1
            &&& h[22] + 256 * h[23] == channels
            &&& h[24] + 256 * h[25] + 65536 * h[26] + 16777216 * h[27] == sample_rate
            &&& h[28] + 256 * h[29] + 65536 * h[30] + 16777216 * h[31] == sample_rate * (channels
                * bits / 8)
            &&& h[32] + 256 * h[33] == channels * bits / 8
            &&& h[34] + 256 * h[35] == bits
        }),
{
    let block = (channels * bits / 8) as nat;
    assert(0 <= sample_rate * block) by (nonlinear_arith);
    lemma_two_bytes(channels as nat);
    lemma_two_bytes(bits as nat);
    lemma_two_bytes(block);
    lemma_two_bytes(1);
    lemma_four_bytes(16);
    lemma_four_bytes(sample_rate as nat);
    lemma_four_bytes((sample_rate * block) as nat);
    lemma_four_bytes(UNKNOWN as nat);
}

proof fn lemma_two_bytes(n: nat)
    requires
        n < 65536,
    ensures
        two_bytes(n).len() == 2,
        two_bytes(n)[0] + 256 * two_bytes(n)[1] == n,
{
}

proof fn lemma_four_bytes(n: nat)
    requires
        n < 4294967296,
    ensures
        four_bytes(n).len() == 4,
        four_bytes(n)[0] + 256 * four_bytes(n)[1] + 65536 * four_bytes(n)[2] + 16777216
            * four_bytes(n)[3] == n,
{
    lemma_two_bytes(n % 65536);
    lemma_two_bytes(n / 65536);
}

/// A sample is written as two bytes, the lower one first: its own value, or that of its
/// two's complement where it is negative.
pub proof fn samples_are_written_low_byte_first(samples: Seq<i16>, k: int)
    requires
        0 <= k < samples.len(),
    ensures
        pcm(samples).len() == 2 * samples.len(),
        samples[k] >= 0 ==> pcm(samples)[2 * k] + 256 * pcm(samples)[2 * k + 1] == samples[k],
        samples[k] < 0 ==> pcm(samples)[2 * k] + 256 * pcm(samples)[2 * k + 1] == samples[k]
            + 65536,
{
    samples_read_back(samples);
    assert(sample_of(pcm(samples)[2 * k], pcm(samples)[2 * k + 1]) == samples[k]);
}

} // verus!
