use vstd::prelude::*;
use crate::flag::{lowered_flag, raise_flag, share_flag};
use crate::mixing::{
    silent,
    ReadOutcome, add_scaled_chunk, delivered_chunks, delivered_count, exact_arithmetic, kept,
    all_stated_reliable, lemma_delivered_prefix, lemma_delivered_push, lemma_kept_len, lemma_kept_prefix,
    lemma_kept_push, lemma_mix_step_fits, lemma_record_read, lemma_reach_push, lemma_reliable_read_follows_plan, mix_fits,
    mix_plan_fits, mixed_sample, outcome_of, reach, stated_plan, stated_reliable, total_arithmetic,
};
use crate::source::{SampleSource, read_agrees};
use vstd::std_specs::ops::AddSpec;
use vstd::std_specs::ops::MulSpec;

verus! {

/// One audio source in the mix, with the gain applied to its samples.
pub struct Voice<T, S> {
    source: S,
    volume: T,
    // Panning, pitch and the like will join the volume here.
}

impl<T, S> Voice<T, S> {
    /// The gain applied to this voice's samples.
    pub closed spec fn gain(&self) -> T {
        self.volume
    }

    /// The source this voice plays.
    pub closed spec fn voice_source(&self) -> S {
        self.source
    }
}

/// The gains of `voices`, in order.
pub open spec fn gains_of<T, S>(voices: Seq<Voice<T, S>>) -> Seq<T> {
    voices.map_values(|v: Voice<T, S>| v.gain())
}

/// The sources of `voices`, in order.
pub open spec fn sources_of<T, S>(voices: Seq<Voice<T, S>>) -> Seq<S> {
    voices.map_values(|v: Voice<T, S>| v.voice_source())
}

/// Mixes several voices into one output, dropping each voice once it has
/// played out.
pub struct VoiceMixer<T, S> {
    voices: Vec<Voice<T, S>>,
    finished: std::sync::Arc<std::sync::atomic::AtomicBool>,
    raised: Ghost<bool>,
    silence: Ghost<T>,
    outcomes: Ghost<Seq<ReadOutcome<T>>>,
    results: Ghost<Seq<Result<usize, symphonia::core::errors::Error>>>,
    writes: Ghost<Seq<Seq<T>>>,
}

impl<T, S> VoiceMixer<T, S> {
    /// The gains of the voices still playing, in the order they were added.
    pub closed spec fn volumes(&self) -> Seq<T> {
        gains_of(self.voices@)
    }

    /// The sources of the voices still playing, in the order they were added.
    pub closed spec fn sources(&self) -> Seq<S> {
        sources_of(self.voices@)
    }

    /// Whether this mixer has raised its finished flag: set only by raising it.
    pub closed spec fn raised_finished(&self) -> bool {
        self.raised@
    }

    /// The value every output position starts from in the latest render.
    pub closed spec fn last_silence(&self) -> T {
        self.silence@
    }

    /// What each voice delivered in the latest render, in voice order.
    pub closed spec fn last_outcomes(&self) -> Seq<ReadOutcome<T>> {
        self.outcomes@
    }

    /// What each voice's read returned in the latest render, in voice order.
    pub closed spec fn last_results(&self) -> Seq<Result<usize, symphonia::core::errors::Error>> {
        self.results@
    }

    /// What each voice's read left in the scratch buffer in the latest render,
    /// in voice order.
    pub closed spec fn last_writes(&self) -> Seq<Seq<T>> {
        self.writes@
    }

    /// The flag the mixer raises once it has no voice left.
    pub closed spec fn finished_flag(&self) -> std::sync::Arc<std::sync::atomic::AtomicBool> {
        self.finished
    }

    /// A mixer with no voices whose finished flag is down.
    pub fn new() -> (m: Self)
        ensures
            m.volumes() == Seq::<T>::empty(),
            m.sources() == Seq::<S>::empty(),
            !m.raised_finished(),
            m.last_outcomes() == Seq::<ReadOutcome<T>>::empty(),
    {
        let m = VoiceMixer {
            voices: Vec::new(),
            finished: lowered_flag(),
            raised: Ghost(false),
            silence: Ghost(arbitrary()),
            outcomes: Ghost(Seq::empty()),
            results: Ghost(Seq::empty()),
            writes: Ghost(Seq::empty()),
        };
        assert(m.volumes() =~= Seq::<T>::empty());
        assert(m.sources() =~= Seq::<S>::empty());
        m
    }

    /// Adds a voice that plays `source` at gain `volume`, after the others.
    pub fn add_voice(&mut self, source: S, volume: T)
        ensures
            final(self).sources() == old(self).sources().push(source),
            final(self).volumes() == old(self).volumes().push(volume),
            final(self).raised_finished() == old(self).raised_finished(),
            final(self).finished_flag() == old(self).finished_flag(),
    {
        let ghost src = source;
        self.voices.push(Voice { source, volume });
        assert(gains_of(self.voices@) =~= gains_of(old(self).voices@).push(volume));
        assert(sources_of(self.voices@) =~= sources_of(old(self).voices@).push(src));
    }

    /// Another handle to the finished flag, for whoever waits on playback.
    pub fn finished(&self) -> (flag: std::sync::Arc<std::sync::atomic::AtomicBool>)
        ensures
            flag == self.finished_flag(),
    {
        share_flag(&self.finished)
    }
}

impl<T: Copy + Default + core::ops::Add<Output = T> + core::ops::Mul<Output = T>, S: SampleSource<T>> VoiceMixer<T, S> {
    /// Clears `buffer` to silence and adds to it, voice by voice, the next
    /// samples of each voice scaled by its volume. Each voice's source is read
    /// once, in order, into a scratch buffer as long as `buffer`. A voice whose
    /// read returns `Ok(0)` or fails is removed; the others keep playing, in
    /// their order. When no voice is left the finished flag is raised.
    #[verifier::loop_isolation(false)]
    #[verifier::spinoff_prover]
    #[verifier::rlimit(60)]
    pub fn render(&mut self, buffer: &mut [T])
        requires
            total_arithmetic::<T>() || mix_plan_fits(old(self).sources(), old(self).volumes(), old(buffer)@.len() as nat),
        ensures
            final(buffer)@.len() == old(buffer)@.len(),
            call_ensures(T::default, (), final(self).last_silence()),
            final(self).last_results().len() == old(self).sources().len(),
            final(self).last_writes().len() == old(self).sources().len(),
            final(self).last_outcomes().len() == old(self).sources().len(),
            forall|k: int| 0 <= k < old(self).sources().len() ==> #[trigger] final(self).last_outcomes()[k]
                == outcome_of(final(self).last_results()[k], final(self).last_writes()[k]),
            all_stated_reliable(old(self).sources()) ==> final(self).last_outcomes() == stated_plan(
                old(self).sources(), old(buffer)@.len() as nat),
            exists|after: Seq<S>| #![trigger kept(after, final(self).last_outcomes())] {
                &&& after.len() == old(self).sources().len()
                &&& final(self).sources() == kept(after, final(self).last_outcomes())
                &&& forall|k: int| 0 <= k < after.len() ==> #[trigger] read_agrees(
                    old(self).sources()[k],
                    after[k],
                    silent(old(buffer)@.len() as nat, final(self).last_silence()),
                    final(self).last_writes()[k],
                    final(self).last_results()[k],
                )
            },
            final(self).volumes() == kept(old(self).volumes(), final(self).last_outcomes()),
            forall|j: int| reach(delivered_chunks(final(self).last_outcomes())) <= j < old(buffer)@.len()
                ==> #[trigger] final(buffer)@[j] == final(self).last_silence(),
            exact_arithmetic::<T>() ==> forall|j: int| 0 <= j < old(buffer)@.len()
                ==> #[trigger] final(buffer)@[j] == mixed_sample(
                    final(self).last_silence(),
                    delivered_chunks(final(self).last_outcomes()),
                    final(self).volumes(),
                    j,
                ),
            final(self).raised_finished() == (old(self).raised_finished() || final(self).sources().len() == 0),
            final(self).finished_flag() == old(self).finished_flag(),
    {
        let silence = T::default();
        let len = buffer.len();
        let mut j: usize = 0;
        while j < len
            invariant
                buffer@.len() == len,
                j <= len,
                forall|k: int| 0 <= k < j ==> buffer@[k] == silence,
            decreases len - j,
        {
            buffer[j] = silence;
            j = j + 1;
        }
        let mut temp: Vec<T> = vec![silence; len];

        let ghost old_vols = gains_of(self.voices@);
        let ghost old_srcs = sources_of(self.voices@);
        let ghost mut outcomes: Seq<ReadOutcome<T>> = Seq::empty();
        let ghost mut results: Seq<Result<usize, symphonia::core::errors::Error>> = Seq::empty();
        let ghost mut writes: Seq<Seq<T>> = Seq::empty();
        let ghost mut after: Seq<S> = Seq::empty();
        let mut i: usize = 0;
        while i < self.voices.len()
            invariant
                total_arithmetic::<T>() || mix_plan_fits(old_srcs, old_vols, len as nat),
                call_ensures(T::default, (), silence),
                all_stated_reliable(old_srcs) ==> outcomes == stated_plan(old_srcs, len as nat).take(
                    outcomes.len() as int),
                buffer@.len() == len,
                temp@.len() == len,
                self.finished == old(self).finished,
                self.raised == old(self).raised,
                old_vols == gains_of(old(self).voices@),
                old_srcs == sources_of(old(self).voices@),
                i <= self.voices@.len(),
                outcomes.len() <= old_vols.len(),
                results.len() == outcomes.len(),
                writes.len() == outcomes.len(),
                after.len() == outcomes.len(),
                forall|k: int| 0 <= k < outcomes.len() ==> #[trigger] outcomes[k] == outcome_of(results[k], writes[k]),
                forall|k: int| 0 <= k < outcomes.len() ==> #[trigger] read_agrees(
                    old_srcs[k], after[k], silent(len as nat, silence), writes[k], results[k]),
                i == delivered_chunks(outcomes).len(),
                gains_of(self.voices@) == kept(old_vols.take(outcomes.len() as int), outcomes)
                    + old_vols.skip(outcomes.len() as int),
                sources_of(self.voices@) == kept(after, outcomes) + old_srcs.skip(outcomes.len() as int),
                forall|k: int| 0 <= k < delivered_chunks(outcomes).len()
                    ==> 0 < #[trigger] delivered_chunks(outcomes)[k].len() <= len,
                forall|k: int| reach(delivered_chunks(outcomes)) <= k < len
                    ==> #[trigger] buffer@[k] == silence,
                exact_arithmetic::<T>() ==> forall|k: int| 0 <= k < len
                    ==> #[trigger] buffer@[k] == mixed_sample(
                        silence, delivered_chunks(outcomes), kept(old_vols.take(outcomes.len() as int), outcomes), k),
            decreases self.voices@.len() - i,
        {
            let ghost p = outcomes.len() as int;
            proof {
                lemma_kept_len(old_vols.take(p), outcomes);
                lemma_kept_len(after, outcomes);
                assert(gains_of(self.voices@)[i as int] == old_vols[p]);
                assert(sources_of(self.voices@)[i as int] == old_srcs[p]);
            }
            let mut t: usize = 0;
            while t < len
                invariant
                    temp@.len() == len,
                    t <= len,
                    forall|q: int| 0 <= q < t ==> #[trigger] temp@[q] == silence,
                decreases len - t,
            {
                temp.set(t, silence);
                t = t + 1;
            }
            assert(temp@ =~= silent(len as nat, silence));
            let ghost vols_before = gains_of(self.voices@);
            let ghost srcs_before = sources_of(self.voices@);
            let result = self.voices[i].source.read(temp.as_mut_slice());
            let ghost state = self.voices@[i as int].voice_source();
            assert(gains_of(self.voices@) =~= vols_before);
            assert(sources_of(self.voices@) =~= srcs_before.update(i as int, state));
            let volume = self.voices[i].volume;
            let ghost o = outcome_of(result, temp@);
            proof {
                assert(old_vols.take(p + 1) =~= old_vols.take(p).push(old_vols[p]));
                assert(read_agrees(old_srcs[p], state, silent(len as nat, silence), temp@, result));
                lemma_kept_push(old_vols.take(p), outcomes, old_vols[p], o);
                lemma_record_read(old_srcs, silent(len as nat, silence), after, writes, results, outcomes,
                    state, temp@, result);
            }
            proof {
                if all_stated_reliable(old_srcs) {
                    assert(stated_reliable(old_srcs[p]));
                    lemma_reliable_read_follows_plan(old_srcs[p], state, silent(len as nat, silence), temp@, result);
                    assert(outcomes.push(o) =~= stated_plan(old_srcs, len as nat).take(p + 1));
                }
            }
            let n = delivered_count(&result);
            if n == 0 {
                let ghost pre_g = gains_of(self.voices@);
                let ghost pre_s = sources_of(self.voices@);
                self.voices.remove(i);
                proof {
                    assert(gains_of(self.voices@) =~= pre_g.remove(i as int));
                    assert(sources_of(self.voices@) =~= pre_s.remove(i as int));
                    outcomes = outcomes.push(None);
                    results = results.push(result);
                    writes = writes.push(temp@);
                    after = after.push(state);
                    assert(gains_of(self.voices@) =~= kept(old_vols.take(p + 1), outcomes)
                        + old_vols.skip(p + 1));
                    assert(sources_of(self.voices@) =~= kept(after, outcomes) + old_srcs.skip(p + 1));
                }
            } else {
                let ghost chunks = delivered_chunks(outcomes);
                let ghost gains = kept(old_vols.take(p), outcomes);
                let ghost before = buffer@;
                proof {
                    if !total_arithmetic::<T>() {
                        let plan = stated_plan(old_srcs, len as nat);
                        lemma_kept_len(old_vols, plan);
                        assert(plan[p] == Some(temp@.take(n as int)));
                        assert(outcomes == plan.take(p));
                        assert forall|q: int| 0 <= q < n implies #[trigger] mix_fits(
                            silence, delivered_chunks(plan), kept(old_vols, plan), q) by {}
                        lemma_mix_step_fits(silence, plan, old_vols, p, temp@, n as nat, before);
                    }
                }
                add_scaled_chunk(buffer, temp.as_slice(), n, volume);
                let ghost chunk = temp@.take(n as int);
                proof {
                    lemma_reach_push(chunks, chunk);
                    outcomes = outcomes.push(Some(chunk));
                    results = results.push(result);
                    writes = writes.push(temp@);
                    after = after.push(state);
                    let new_chunks = chunks.push(chunk);
                    let new_gains = gains.push(volume);
                    assert(new_chunks.drop_last() =~= chunks);
                    assert(new_gains.drop_last() =~= gains);
                    assert(chunk.len() == n);
                    assert(gains_of(self.voices@) =~= kept(old_vols.take(p + 1), outcomes)
                        + old_vols.skip(p + 1));
                    assert(sources_of(self.voices@) =~= kept(after, outcomes) + old_srcs.skip(p + 1));
                    assert forall|q: int| reach(new_chunks) <= q < len implies #[trigger] buffer@[q] == silence by {
                        assert(buffer@[q] == before[q]);
                    }
                    if exact_arithmetic::<T>() {
                        assert forall|q: int| 0 <= q < len implies #[trigger] buffer@[q]
                            == mixed_sample(silence, new_chunks, new_gains, q) by {
                            assert(before[q] == mixed_sample(silence, chunks, gains, q));
                            if q < n {
                                assert(chunk[q] == temp@[q]);
                            }
                        }
                    }
                }
                i = i + 1;
            }
        }
        proof {
            lemma_kept_len(old_vols.take(outcomes.len() as int), outcomes);
            assert(old_vols.take(outcomes.len() as int) =~= old_vols);
            assert(gains_of(self.voices@) =~= kept(old_vols, outcomes));
            lemma_kept_len(after, outcomes);
            assert(sources_of(self.voices@) =~= kept(after, outcomes));
        }
        if self.voices.len() == 0 {
            raise_flag(&self.finished, &mut self.raised);
        }
        proof {
            self.silence@ = silence;
            self.outcomes@ = outcomes;
            self.results@ = results;
            self.writes@ = writes;
            assert(after.len() == old_srcs.len());
            assert(self.sources() == kept(after, self.last_outcomes()));
        }
    }
}

} // verus!
