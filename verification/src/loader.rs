use vstd::prelude::*;


verus! {

/// Files smaller than this many bytes are decoded into memory when the load
/// mode is left to the loader; larger ones are streamed.
pub const AUTO_STREAM_THRESHOLD_BYTES: u64 = 1024 * 1024;

/// Sample rate assumed when a track does not state one.
pub const DEFAULT_SAMPLE_RATE: u32 = 44100;

/// Channel count assumed when a track does not state one.
pub const DEFAULT_CHANNELS: u16 = 1;

#[verifier::external_type_specification]
#[verifier::external_body]
pub struct ExError(symphonia::core::errors::Error);

/// How an audio file is turned into a sample source.
#[derive(Debug, Clone, Copy, PartialEq, Eq, Structural)]
pub enum LoadMode {
    /// Decode the whole file into memory up front.
    Static,
    /// Decode packet by packet while playing.
    Streaming,
    /// Let the loader choose from the file's size.
    Auto,
}

/// The mode that `Auto` resolves to for a file of `size` bytes.
pub open spec fn auto_mode(size: u64) -> LoadMode {
    if size < AUTO_STREAM_THRESHOLD_BYTES {
        LoadMode::Static
    } else {
        LoadMode::Streaming
    }
}

/// The concrete mode used for a file of `size` bytes when `mode` was requested.
pub open spec fn effective_mode(mode: LoadMode, size: u64) -> LoadMode {
    match mode {
        LoadMode::Auto => auto_mode(size),
        other => other,
    }
}

/// Factory for memory-backed and streaming sample sources. The decisions it
/// makes about a file live here; opening and decoding the file is done by the
/// player with the decoding crate.
pub struct SymphoniaLoader;

impl SymphoniaLoader {
    /// Chooses between decoding into memory and streaming from the file size.
    pub fn resolve_auto(size: u64) -> (r: Result<LoadMode, symphonia::core::errors::Error>)
        ensures
            r == Ok::<LoadMode, symphonia::core::errors::Error>(auto_mode(size)),
            size < AUTO_STREAM_THRESHOLD_BYTES ==> r == Ok::<LoadMode, symphonia::core::errors::Error>(LoadMode::Static),
            size >= AUTO_STREAM_THRESHOLD_BYTES ==> r == Ok::<LoadMode, symphonia::core::errors::Error>(LoadMode::Streaming),
    {
        if size < AUTO_STREAM_THRESHOLD_BYTES {
            Ok(LoadMode::Static)
        } else {
            Ok(LoadMode::Streaming)
        }
    }

    /// Resolves the requested mode to the one `create` acts on: an explicit
    /// mode is kept, `Auto` is decided by `resolve_auto`.
    pub fn resolve_mode(mode: LoadMode, size: u64) -> (r: LoadMode)
        ensures
            r == effective_mode(mode, size),
            r != LoadMode::Auto,
            mode != LoadMode::Auto ==> r == mode,
            mode == LoadMode::Auto ==> (r == LoadMode::Static <==> size < AUTO_STREAM_THRESHOLD_BYTES),
    {
        match mode {
            LoadMode::Auto => match Self::resolve_auto(size) {
                Ok(resolved) => resolved,
                Err(_) => LoadMode::Static,
            },
            other => other,
        }
    }

    /// One step of decoding a whole stream into memory: appends the `n`
    /// samples a read wrote to the front of `chunk`, and says whether the
    /// stream is drained (the read delivered nothing).
    pub fn absorb_read<T: Copy>(samples: &mut Vec<T>, chunk: &[T], n: usize) -> (done: bool)
        requires
            n <= chunk@.len(),
        ensures
            done == (n == 0),
            final(samples)@ == old(samples)@ + chunk@.take(n as int),
    {
        let ghost start = samples@;
        let mut k: usize = 0;
        while k < n
            invariant
                k <= n,
                n <= chunk@.len(),
                samples@ == start + chunk@.take(k as int),
            decreases n - k,
        {
            samples.push(chunk[k]);
            k = k + 1;
            assert(start + chunk@.take(k as int) =~= (start + chunk@.take(k - 1)).push(chunk@[k - 1]));
        }
        n == 0
    }

    /// The sample rate a track plays at: the stated one, or 44100 Hz.
    pub fn get_sample_rate(stated: Option<u32>) -> (rate: u32)
        ensures
            rate == match stated {
                Some(r) => r,
                None => DEFAULT_SAMPLE_RATE,
            },
    {
        match stated {
            Some(r) => r,
            None => DEFAULT_SAMPLE_RATE,
        }
    }

    /// The channel count a track is reported with: the number of channels it
    /// states, truncated to 16 bits, or 1.
    pub fn get_channels(stated_count: Option<usize>) -> (channels: u16)
        ensures
            channels == match stated_count {
                Some(c) => c as u16,
                None => DEFAULT_CHANNELS,
            },
    {
        match stated_count {
            Some(c) => c as u16,
            None => DEFAULT_CHANNELS,
        }
    }
}

/// `Auto` decodes a file into memory exactly when it is smaller than the
/// threshold and streams it otherwise; so the choice only ever moves from
/// memory to streaming as files grow.
pub proof fn lemma_auto_mode_threshold(size: u64, larger: u64)
    ensures
        auto_mode(size) == LoadMode::Static <==> size < AUTO_STREAM_THRESHOLD_BYTES,
        auto_mode(size) == LoadMode::Streaming <==> size >= AUTO_STREAM_THRESHOLD_BYTES,
        size <= larger && auto_mode(size) == LoadMode::Streaming ==> auto_mode(larger) == LoadMode::Streaming,
        size <= larger && auto_mode(larger) == LoadMode::Static ==> auto_mode(size) == LoadMode::Static,
{
}

/// An explicit mode is never overridden, whatever the file's size; only
/// `Auto` is decided by size.
pub proof fn lemma_explicit_mode_kept(mode: LoadMode, size: u64)
    ensures
        mode != LoadMode::Auto ==> effective_mode(mode, size) == mode,
        mode == LoadMode::Auto ==> effective_mode(mode, size) == auto_mode(size),
        effective_mode(mode, size) != LoadMode::Auto,
{
}

/// Draining a source that states its samples into memory loses and adds
/// nothing: after one read and `absorb_read`, what has been collected followed
/// by what the source still has to deliver is what it was before. When a read
/// into a non-empty buffer delivers nothing, the source had nothing left, so
/// what has been collected is its whole signal.
pub proof fn lemma_drain_keeps_signal<T, S: crate::source::SampleSource<T>>(
    collected: Seq<T>,
    before: S,
    after: S,
    handed: Seq<T>,
    written: Seq<T>,
    n: usize,
    collected_after: Seq<T>,
)
    requires
        crate::source::read_agrees(before, after, handed, written, Ok::<usize, symphonia::core::errors::Error>(n)),
        before.pending() is Some,
        collected_after == collected + written.take(n as int),
    ensures
        after.pending() is Some,
        collected_after + after.pending().unwrap() == collected + before.pending().unwrap(),
        n == 0 && handed.len() > 0 ==> before.pending().unwrap().len() == 0
            && collected_after == collected + before.pending().unwrap(),
{
    let p = before.pending().unwrap();
    assert(collected_after + after.pending().unwrap() =~= collected + p) by {
        assert(p =~= p.take(n as int) + p.skip(n as int));
    }
    if n == 0 && handed.len() > 0 {
        assert(collected + p =~= collected_after);
    }
}

} // verus!
