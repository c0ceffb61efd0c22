use vstd::prelude::*;

verus! {

/// How many samples a read into a buffer of `capacity` takes from `remaining`.
pub open spec fn chunk_len(remaining: nat, capacity: nat) -> nat {
    if remaining < capacity { remaining } else { capacity }
}

/// A source of interleaved PCM samples, read chunk by chunk.
///
/// A source that states its samples is seen as the samples it has yet to
/// deliver, `pending()`. A successful `read` of such a source copies as many
/// of them as fit to the front of `out_buf`, in order, says how many it copied
/// and moves past them; it copies fewer than the buffer holds only at the end,
/// so `Ok(0)` means the source is exhausted. Of a source that does not state
/// its samples only the bound is known: a read never reports more samples
/// than the buffer holds. No successful read touches the buffer past the
/// samples it reports. A read may fail only in a state in which the source
/// says it may fail (`may_fail()`); a source that does not say may fail at any
/// time.
pub trait SampleSource<T>: Send {
    /// The samples this source has yet to deliver, in order, when it states
    /// them.
    open spec fn pending(&self) -> Option<Seq<T>> {
        None
    }

    /// Whether a read in this state may fail.
    open spec fn may_fail(&self) -> bool {
        true
    }

    /// Frames per second of the audio this source yields.
    fn sample_rate(&self) -> u32;

    /// Number of interleaved channels.
    fn channels(&self) -> u16;

    /// Writes the next samples into the front of `out_buf`.
    fn read(&mut self, out_buf: &mut [T]) -> (r: Result<usize, symphonia::core::errors::Error>)
        ensures
            final(out_buf)@.len() == old(out_buf)@.len(),
            r matches Ok(n) ==> n <= old(out_buf)@.len(),
            r matches Ok(n) ==> final(out_buf)@.skip(n as int) == old(out_buf)@.skip(n as int),
            r matches Ok(n) ==> (old(self).pending() matches Some(p) ==> {
                &&& n == chunk_len(p.len(), old(out_buf)@.len())
                &&& final(out_buf)@.take(n as int) == p.take(n as int)
                &&& final(self).pending() == Some(p.skip(n as int))
            }),
            r is Err ==> old(self).may_fail(),
    ;
}

/// What a read that found `before`, was handed a buffer holding `handed`,
/// left the source as `after`, left `written` in the buffer and returned `r`
/// may have done, as the contract of `read` describes it.
pub open spec fn read_agrees<T, S: SampleSource<T>>(
    before: S,
    after: S,
    handed: Seq<T>,
    written: Seq<T>,
    r: Result<usize, symphonia::core::errors::Error>,
) -> bool {
    &&& written.len() == handed.len()
    &&& r matches Ok(n) ==> n <= handed.len()
    &&& r matches Ok(n) ==> written.skip(n as int) == handed.skip(n as int)
    &&& r matches Ok(n) ==> (before.pending() matches Some(p) ==> {
        &&& n == chunk_len(p.len(), handed.len())
        &&& written.take(n as int) == p.take(n as int)
        &&& after.pending() == Some(p.skip(n as int))
    })
    &&& r is Err ==> before.may_fail()
}

/// A source that states its samples and cannot fail, read into a buffer
/// holding `handed`, delivers exactly the next `min(pending, handed.len())` of
/// them, keeps the rest and leaves the buffer past them as it was.
pub proof fn lemma_stated_read<T, S: SampleSource<T>>(
    before: S,
    after: S,
    handed: Seq<T>,
    written: Seq<T>,
    r: Result<usize, symphonia::core::errors::Error>,
    p: Seq<T>,
)
    requires
        read_agrees(before, after, handed, written, r),
        before.pending() == Some(p),
        !before.may_fail(),
    ensures
        r == Ok::<usize, symphonia::core::errors::Error>(chunk_len(p.len(), handed.len()) as usize),
        written == p.take(chunk_len(p.len(), handed.len()) as int) + handed.skip(
            chunk_len(p.len(), handed.len()) as int),
        after.pending() == Some(p.skip(chunk_len(p.len(), handed.len()) as int)),
{
    let n = chunk_len(p.len(), handed.len());
    assert(written =~= written.take(n as int) + written.skip(n as int));
}

/// A boxed source reads as the source it holds, so heterogeneous sources can
/// be kept side by side.
impl<T, S: SampleSource<T> + ?Sized> SampleSource<T> for Box<S> {
    open spec fn pending(&self) -> Option<Seq<T>> {
        (**self).pending()
    }

    open spec fn may_fail(&self) -> bool {
        (**self).may_fail()
    }

    fn sample_rate(&self) -> (rate: u32)
        ensures
            call_ensures(S::sample_rate, (&**self,), rate),
    {
        (**self).sample_rate()
    }

    fn channels(&self) -> (channels: u16)
        ensures
            call_ensures(S::channels, (&**self,), channels),
    {
        (**self).channels()
    }

    fn read(&mut self, out_buf: &mut [T]) -> (r: Result<usize, symphonia::core::errors::Error>) {
        (**self).read(out_buf)
    }
}

} // verus!
