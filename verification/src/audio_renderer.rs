use vstd::prelude::*;
use crate::flag::{lowered_flag, raise_flag, share_flag};
use crate::mixing::{
    silent,
    ReadOutcome, add_chunk, delivered_chunks, delivered_count, kept, lemma_delivered_push, lemma_kept_len,
    lemma_delivered_prefix, lemma_kept_push, lemma_record_read, lemma_reach_push, lemma_reliable_read_follows_plan,
    lemma_sum_fits_prefix, all_stated_reliable, outcome_of, reach, stated_plan, stated_reliable, sum_fits, sum_plan_fits,
    summed_sample, total_addition,
};
use crate::source::{SampleSource, read_agrees};
use vstd::std_specs::ops::AddSpec;

verus! {

/// Mixes the sources it is given into one output buffer, dropping each
/// source once it has nothing more to give.
pub struct AudioRenderer<T> {
    temp: Vec<T>,
    finished: std::sync::Arc<std::sync::atomic::AtomicBool>,
    raised: Ghost<bool>,
    silence: Ghost<T>,
    outcomes: Ghost<Seq<ReadOutcome<T>>>,
    results: Ghost<Seq<Result<usize, symphonia::core::errors::Error>>>,
    writes: Ghost<Seq<Seq<T>>>,
}

impl<T> AudioRenderer<T> {
    /// Whether this renderer has raised its finished flag.
    pub closed spec fn raised_finished(&self) -> bool {
        self.raised@
    }

    /// The value every output position starts from in the latest render.
    pub closed spec fn last_silence(&self) -> T {
        self.silence@
    }

    /// What each source did in the latest render, in the order the sources
    /// were given.
    pub closed spec fn last_outcomes(&self) -> Seq<ReadOutcome<T>> {
        self.outcomes@
    }

    /// What each source's read returned in the latest render, in source order.
    pub closed spec fn last_results(&self) -> Seq<Result<usize, symphonia::core::errors::Error>> {
        self.results@
    }

    /// What each source's read left in the scratch buffer in the latest
    /// render, in source order.
    pub closed spec fn last_writes(&self) -> Seq<Seq<T>> {
        self.writes@
    }

    /// The flag the renderer raises once it has no source left.
    pub closed spec fn finished_flag(&self) -> std::sync::Arc<std::sync::atomic::AtomicBool> {
        self.finished
    }

    /// A renderer that has not rendered anything yet.
    pub fn new() -> (r: Self)
        ensures
            !r.raised_finished(),
            r.last_outcomes() == Seq::<ReadOutcome<T>>::empty(),
    {
        AudioRenderer {
            temp: Vec::new(),
            finished: lowered_flag(),
            raised: Ghost(false),
            silence: Ghost(arbitrary()),
            outcomes: Ghost(Seq::empty()),
            results: Ghost(Seq::empty()),
            writes: Ghost(Seq::empty()),
        }
    }

    /// Another handle to the finished flag, for whoever waits on playback.
    pub fn finished(&self) -> (flag: std::sync::Arc<std::sync::atomic::AtomicBool>)
        ensures
            flag == self.finished_flag(),
    {
        share_flag(&self.finished)
    }
}

impl<T: Copy + Default + core::ops::Add<Output = T>> AudioRenderer<T> {
    /// Clears `buffer` to silence and adds to it, source by source, the next
    /// samples each source delivers. Each source is read once, in order, into
    /// a scratch buffer as long as `buffer`. A source whose read returns
    /// `Ok(0)` or fails is removed from `sources`; the others stay, in their
    /// order. When no source is left the finished flag is raised.
    pub fn render<S: SampleSource<T>>(&mut self, buffer: &mut [T], sources: &mut Vec<S>)
        requires
            total_addition::<T>() || sum_plan_fits(old(sources)@, old(buffer)@.len() as nat),
        ensures
            final(buffer)@.len() == old(buffer)@.len(),
            call_ensures(T::default, (), final(self).last_silence()),
            final(self).last_results().len() == old(sources)@.len(),
            final(self).last_writes().len() == old(sources)@.len(),
            final(self).last_outcomes().len() == old(sources)@.len(),
            forall|k: int| 0 <= k < old(sources)@.len() ==> #[trigger] final(self).last_outcomes()[k]
                == outcome_of(final(self).last_results()[k], final(self).last_writes()[k]),
            final(sources)@.len() == delivered_chunks(final(self).last_outcomes()).len(),
            all_stated_reliable(old(sources)@) ==> final(self).last_outcomes() == stated_plan(
                old(sources)@, old(buffer)@.len() as nat),
            exists|after: Seq<S>| #![trigger kept(after, final(self).last_outcomes())] {
                &&& after.len() == old(sources)@.len()
                &&& final(sources)@ == kept(after, final(self).last_outcomes())
                &&& forall|k: int| 0 <= k < after.len() ==> #[trigger] read_agrees(
                    old(sources)@[k],
                    after[k],
                    silent(old(buffer)@.len() as nat, final(self).last_silence()),
                    final(self).last_writes()[k],
                    final(self).last_results()[k],
                )
            },
            forall|j: int| reach(delivered_chunks(final(self).last_outcomes())) <= j < old(buffer)@.len()
                ==> #[trigger] final(buffer)@[j] == final(self).last_silence(),
            T::obeys_add_spec() ==> forall|j: int| 0 <= j < old(buffer)@.len()
                ==> #[trigger] final(buffer)@[j] == summed_sample(
                    final(self).last_silence(), delivered_chunks(final(self).last_outcomes()), j),
            final(self).raised_finished() == (old(self).raised_finished() || final(sources)@.len() == 0),
            final(self).finished_flag() == old(self).finished_flag(),
    {
        let silence = T::default();
        let len = buffer.len();
        if self.temp.len() != len {
            self.temp.resize(len, silence);
        }
        let mut j: usize = 0;
        while j < len
            invariant
                buffer@.len() == len,
                j <= len,
                forall|k: int| 0 <= k < j ==> buffer@[k] == silence,
            decreases len - j,
        {
            buffer[j] = silence;
            j = j + 1;
        }

        let ghost old_sources = sources@;
        let ghost mut outcomes: Seq<ReadOutcome<T>> = Seq::empty();
        let ghost mut results: Seq<Result<usize, symphonia::core::errors::Error>> = Seq::empty();
        let ghost mut writes: Seq<Seq<T>> = Seq::empty();
        let ghost mut after: Seq<S> = Seq::empty();
        let mut i: usize = 0;
        while i < sources.len()
            invariant
                total_addition::<T>() || sum_plan_fits(old_sources, len as nat),
                call_ensures(T::default, (), silence),
                all_stated_reliable(old_sources) ==> outcomes == stated_plan(old_sources, len as nat).take(
                    outcomes.len() as int),
                buffer@.len() == len,
                self.temp@.len() == len,
                self.finished == old(self).finished,
                self.raised == old(self).raised,
                outcomes.len() <= old_sources.len(),
                results.len() == outcomes.len(),
                writes.len() == outcomes.len(),
                after.len() == outcomes.len(),
                forall|k: int| 0 <= k < outcomes.len() ==> #[trigger] outcomes[k] == outcome_of(results[k], writes[k]),
                forall|k: int| 0 <= k < outcomes.len() ==> #[trigger] read_agrees(
                    old_sources[k], after[k], silent(len as nat, silence), writes[k], results[k]),
                sources@ == kept(after, outcomes) + old_sources.skip(outcomes.len() as int),
                i == delivered_chunks(outcomes).len(),
                forall|k: int| 0 <= k < delivered_chunks(outcomes).len()
                    ==> 0 < #[trigger] delivered_chunks(outcomes)[k].len() <= len,
                forall|k: int| reach(delivered_chunks(outcomes)) <= k < len
                    ==> #[trigger] buffer@[k] == silence,
                T::obeys_add_spec() ==> forall|k: int| 0 <= k < len
                    ==> #[trigger] buffer@[k] == summed_sample(silence, delivered_chunks(outcomes), k),
            decreases sources@.len() - i,
        {
            let ghost p = outcomes.len() as int;
            proof {
                lemma_kept_len(after, outcomes);
                assert(sources@[i as int] == old_sources[p]);
            }
            let mut t: usize = 0;
            while t < len
                invariant
                    self.temp@.len() == len,
                    self.finished == old(self).finished,
                    self.raised == old(self).raised,
                    t <= len,
                    forall|q: int| 0 <= q < t ==> #[trigger] self.temp@[q] == silence,
                decreases len - t,
            {
                self.temp.set(t, silence);
                t = t + 1;
            }
            assert(self.temp@ =~= silent(len as nat, silence));
            let ghost before_read = sources@;
            let result = sources[i].read(self.temp.as_mut_slice());
            let ghost state = sources@[i as int];
            proof {
                assert(sources@ == before_read.update(i as int, state));
                assert(read_agrees(old_sources[p], state, silent(len as nat, silence), self.temp@, result));
                lemma_record_read(old_sources, silent(len as nat, silence), after, writes, results, outcomes,
                    state, self.temp@, result);
            }
            proof {
                if all_stated_reliable(old_sources) {
                    assert(stated_reliable(old_sources[p]));
                    lemma_reliable_read_follows_plan(old_sources[p], state, silent(len as nat, silence), self.temp@, result);
                    assert(outcomes.push(outcome_of(result, self.temp@)) =~= stated_plan(old_sources, len as nat).take(
                        p + 1));
                }
            }
            let n = delivered_count(&result);
            if n == 0 {
                sources.remove(i);
                proof {
                    outcomes = outcomes.push(None);
                    results = results.push(result);
                    writes = writes.push(self.temp@);
                    after = after.push(state);
                    assert(sources@ =~= kept(after, outcomes) + old_sources.skip(outcomes.len() as int));
                }
            } else {
                let ghost chunks = delivered_chunks(outcomes);
                let ghost before = buffer@;
                proof {
                    if !total_addition::<T>() {
                        let plan = stated_plan(old_sources, len as nat);
                        let full = delivered_chunks(plan);
                        let c = self.temp@.take(n as int);
                        lemma_delivered_push(outcomes, Some(c));
                        lemma_delivered_prefix(plan, p + 1);
                        assert(delivered_chunks(plan.take(p + 1)) == chunks.push(c));
                        assert(full.take(chunks.len() + 1int) == chunks.push(c));
                        assert forall|q: int| 0 <= q < n implies #[trigger] before[q].add_req(self.temp@[q]) by {
                            assert(sum_fits(silence, full, q));
                            lemma_sum_fits_prefix(silence, full, chunks.len() + 1int, q);
                            assert(chunks.push(c).drop_last() =~= chunks);
                            assert(sum_fits(silence, chunks.push(c), q));
                            assert(c[q] == self.temp@[q]);
                            assert(before[q] == summed_sample(silence, chunks, q));
                        }
                    }
                }
                add_chunk(buffer, self.temp.as_slice(), n);
                let ghost chunk = self.temp@.take(n as int);
                proof {
                    lemma_reach_push(chunks, chunk);
                    outcomes = outcomes.push(Some(chunk));
                    results = results.push(result);
                    writes = writes.push(self.temp@);
                    after = after.push(state);
                    assert(sources@ =~= kept(after, outcomes) + old_sources.skip(outcomes.len() as int));
                    let new_chunks = chunks.push(chunk);
                    assert(new_chunks.drop_last() =~= chunks);
                    assert(chunk.len() == n);
                    assert forall|q: int| reach(new_chunks) <= q < len implies #[trigger] buffer@[q] == silence by {
                        assert(buffer@[q] == before[q]);
                    }
                    if T::obeys_add_spec() {
                        assert forall|q: int| 0 <= q < len implies #[trigger] buffer@[q]
                            == summed_sample(silence, new_chunks, q) by {
                            assert(before[q] == summed_sample(silence, chunks, q));
                            if q < n {
                                assert(chunk[q] == self.temp@[q]);
                            }
                        }
                    }
                }
                i = i + 1;
            }
        }
        proof {
            lemma_kept_len(after, outcomes);
            assert(old_sources.skip(outcomes.len() as int).len() == 0);
            assert(sources@ =~= kept(after, outcomes));
        }
        if sources.len() == 0 {
            raise_flag(&self.finished, &mut self.raised);
        }
        proof {
            self.silence@ = silence;
            self.outcomes@ = outcomes;
            self.results@ = results;
            self.writes@ = writes;
            assert(after.len() == old_sources.len());
            assert(sources@ == kept(after, self.last_outcomes()));
        }
    }
}

} // verus!
