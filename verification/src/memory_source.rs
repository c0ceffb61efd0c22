use vstd::prelude::*;
use crate::source::{SampleSource, chunk_len};

verus! {

/// Decoded PCM audio held entirely in memory, read from front to back.
/// Samples are interleaved by channel; the player fills it with normalized
/// 32-bit float samples. Good for short files.
pub struct MemorySource<T> {
    samples: Vec<T>,
    sample_rate: u32,
    channels: u16,
    pos: usize,
}

impl<T> MemorySource<T> {
    #[verifier::type_invariant]
    spec fn position_in_bounds(self) -> bool {
        self.pos <= self.samples@.len()
    }

    /// All samples of the source, read or not.
    pub closed spec fn all_samples(&self) -> Seq<T> {
        self.samples@
    }

    /// How many samples have been read so far.
    pub closed spec fn position(&self) -> nat {
        self.pos as nat
    }

    pub closed spec fn spec_sample_rate(&self) -> u32 {
        self.sample_rate
    }

    pub closed spec fn spec_channels(&self) -> u16 {
        self.channels
    }

    /// The samples already handed out, in order.
    pub open spec fn delivered(&self) -> Seq<T> {
        self.all_samples().take(self.position() as int)
    }

    /// The samples still to be read, in order.
    pub open spec fn remaining(&self) -> Seq<T> {
        self.all_samples().skip(self.position() as int)
    }

    /// Holds a whole decoded signal, positioned at its first sample.
    pub fn new(samples: Vec<T>, sample_rate: u32, channels: u16) -> (s: Self)
        ensures
            s.all_samples() == samples@,
            s.position() == 0,
            s.spec_sample_rate() == sample_rate,
            s.spec_channels() == channels,
    {
        MemorySource { samples, sample_rate, channels, pos: 0 }
    }

    /// The samples of the whole signal.
    pub fn samples(&self) -> (s: &Vec<T>)
        ensures
            s@ == self.all_samples(),
    {
        &self.samples
    }
}

impl<T: Copy + Send> MemorySource<T> {
    /// Copies the next `min(remaining, out_buf.len())` samples to the front of
    /// `out_buf` and advances past them.
    pub fn read_samples(&mut self, out_buf: &mut [T]) -> (n: usize)
        ensures
            n == chunk_len(old(self).remaining().len(), old(out_buf)@.len()),
            final(out_buf)@ == old(self).remaining().take(n as int) + old(out_buf)@.skip(n as int),
            final(self).all_samples() == old(self).all_samples(),
            final(self).position() == old(self).position() + n,
            final(self).spec_sample_rate() == old(self).spec_sample_rate(),
            final(self).spec_channels() == old(self).spec_channels(),
    {
        proof { use_type_invariant(&*self); }
        let remaining = self.samples.len() - self.pos;
        let n = if remaining < out_buf.len() { remaining } else { out_buf.len() };
        let start = self.pos;
        let ghost before = out_buf@;
        let ghost rest = self.samples@.skip(self.pos as int);
        let mut i: usize = 0;
        while i < n
            invariant
                0 <= i <= n,
                n <= out_buf@.len(),
                out_buf@.len() == before.len(),
                start + n <= self.samples.len(),
                rest == self.samples@.skip(start as int),
                forall|k: int| 0 <= k < i ==> out_buf@[k] == rest[k],
                forall|k: int| i <= k < out_buf@.len() ==> out_buf@[k] == before[k],
            decreases n - i,
        {
            out_buf[i] = self.samples[start + i];
            i = i + 1;
        }
        self.pos = self.pos + n;
        assert(out_buf@ =~= rest.take(n as int) + before.skip(n as int));
        n
    }
}

impl<T: Copy + Send> SampleSource<T> for MemorySource<T> {
    open spec fn pending(&self) -> Option<Seq<T>> {
        Some(self.remaining())
    }

    /// Reading a decoded signal never fails.
    open spec fn may_fail(&self) -> bool {
        false
    }

    fn sample_rate(&self) -> (r: u32)
        ensures
            r == self.spec_sample_rate(),
    {
        self.sample_rate
    }

    fn channels(&self) -> (r: u16)
        ensures
            r == self.spec_channels(),
    {
        self.channels
    }

    fn read(&mut self, out_buf: &mut [T]) -> (r: Result<usize, symphonia::core::errors::Error>)
        ensures
            r matches Ok(n) && n == chunk_len(old(self).remaining().len(), old(out_buf)@.len())
                && final(out_buf)@ == old(self).remaining().take(n as int) + old(out_buf)@.skip(n as int)
                && final(self).position() == old(self).position() + n,
            final(self).all_samples() == old(self).all_samples(),
            final(self).spec_sample_rate() == old(self).spec_sample_rate(),
            final(self).spec_channels() == old(self).spec_channels(),
    {
        let n = self.read_samples(out_buf);
        proof {
            use_type_invariant(&*self);
            let rem = old(self).remaining();
            assert(out_buf@.take(n as int) =~= rem.take(n as int));
            assert(self.remaining() =~= rem.skip(n as int));
        }
        Ok(n)
    }
}

/// Reading in chunks reassembles the signal: the samples handed out so far,
/// followed by the next chunk, are the samples handed out after that chunk.
/// When nothing remains, everything has been handed out.
pub proof fn lemma_chunks_reassemble<T>(samples: Seq<T>, pos: nat, n: nat)
    requires
        pos + n <= samples.len(),
    ensures
        samples.take(pos as int) + samples.skip(pos as int).take(n as int) == samples.take((pos + n) as int),
        samples.take(samples.len() as int) == samples,
{
    assert(samples.take(pos as int) + samples.skip(pos as int).take(n as int) =~= samples.take((pos + n) as int));
    assert(samples.take(samples.len() as int) =~= samples);
}

/// The size of the chunks does not change what is read: a read into room
/// for `a` samples followed by one into room for `b` hands out exactly what a
/// single read into room for `a + b` would.
pub proof fn lemma_reads_compose<T>(pending: Seq<T>, a: nat, b: nat)
    ensures
        ({
            let first = chunk_len(pending.len(), a);
            let rest = pending.skip(first as int);
            let second = chunk_len(rest.len(), b);
            &&& first + second == chunk_len(pending.len(), a + b)
            &&& pending.take(first as int) + rest.take(second as int)
                == pending.take(chunk_len(pending.len(), a + b) as int)
        }),
{
    let first = chunk_len(pending.len(), a);
    let rest = pending.skip(first as int);
    let second = chunk_len(rest.len(), b);
    assert(pending.take(first as int) + rest.take(second as int)
        =~= pending.take(chunk_len(pending.len(), a + b) as int));
}

/// Once nothing remains, every further read hands out nothing and leaves
/// nothing remaining, whatever the room.
pub proof fn lemma_exhausted_stays_exhausted<T>(pending: Seq<T>, room: nat)
    requires
        pending.len() == 0,
    ensures
        chunk_len(pending.len(), room) == 0,
        pending.skip(0) == pending,
{
    assert(pending.skip(0) =~= pending);
}

} // verus!
