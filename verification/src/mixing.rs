use vstd::prelude::*;
use vstd::std_specs::ops::AddSpec;
use vstd::std_specs::ops::MulSpec;
use crate::source::{SampleSource, chunk_len};

verus! {

/// The sample type's addition and multiplication accept every pair of
/// operands (true of floating-point samples, whose operations never fail).
pub open spec fn total_arithmetic<T: core::ops::Add<Output = T> + core::ops::Mul<Output = T>>() -> bool {
    &&& forall|a: T, b: T| #[trigger] a.add_req(b)
    &&& forall|a: T, b: T| #[trigger] a.mul_req(b)
}

/// The sample type's addition is always accepted.
pub open spec fn total_addition<T: core::ops::Add<Output = T>>() -> bool {
    forall|a: T, b: T| #[trigger] a.add_req(b)
}

/// The sample type's `+` and `*` compute what their specifications say
/// (true of integer samples; Verus does not model floating-point results).
pub open spec fn exact_arithmetic<T: core::ops::Add<Output = T> + core::ops::Mul<Output = T>>() -> bool {
    T::obeys_add_spec() && T::obeys_mul_spec()
}

/// What one source or voice did during a render: `Some(chunk)` when it
/// delivered the non-empty `chunk` and stays, `None` when it reported the end
/// of its samples or an error and was dropped.
pub type ReadOutcome<T> = Option<Seq<T>>;

/// What a read that returned `r` after writing `written` delivered: the
/// first `n` samples written when it returned `Ok(n)` with `n > 0`, nothing
/// when it returned `Ok(0)` or failed.
pub open spec fn outcome_of<T>(r: Result<usize, symphonia::core::errors::Error>, written: Seq<T>) -> ReadOutcome<T> {
    match r {
        Ok(n) => if n > 0 { Some(written.take(n as int)) } else { None },
        Err(_) => None,
    }
}

/// A scratch buffer of `len` samples, all `s`.
pub open spec fn silent<T>(len: nat, s: T) -> Seq<T> {
    Seq::new(len, |_i: int| s)
}

/// The chunks delivered by the sources that stayed, in source order.
pub open spec fn delivered_chunks<T>(outcomes: Seq<ReadOutcome<T>>) -> Seq<Seq<T>>
    decreases outcomes.len(),
{
    if outcomes.len() == 0 {
        Seq::empty()
    } else {
        let front = delivered_chunks(outcomes.drop_last());
        match outcomes.last() {
            Some(chunk) => front.push(chunk),
            None => front,
        }
    }
}

/// The items whose outcome is `Some`, in order: what survives a render.
pub open spec fn kept<A, T>(items: Seq<A>, outcomes: Seq<ReadOutcome<T>>) -> Seq<A>
    decreases outcomes.len(),
{
    if outcomes.len() == 0 || items.len() == 0 {
        Seq::empty()
    } else {
        let front = kept(items.drop_last(), outcomes.drop_last());
        match outcomes.last() {
            Some(_) => front.push(items.last()),
            None => front,
        }
    }
}

/// The length of the longest chunk: positions from here on are untouched.
pub open spec fn reach<T>(chunks: Seq<Seq<T>>) -> nat
    decreases chunks.len(),
{
    if chunks.len() == 0 {
        0
    } else {
        let r = reach(chunks.drop_last());
        if chunks.last().len() > r { chunks.last().len() } else { r }
    }
}

/// Position `j` of `chunks` summed over `base`: each chunk, in order, adds its
/// `j`-th sample where it is long enough to have one.
pub open spec fn summed_sample<T: core::ops::Add<Output = T>>(base: T, chunks: Seq<Seq<T>>, j: int) -> T
    decreases chunks.len(),
{
    if chunks.len() == 0 {
        base
    } else {
        let acc = summed_sample(base, chunks.drop_last(), j);
        if 0 <= j < chunks.last().len() {
            acc.add_spec(chunks.last()[j])
        } else {
            acc
        }
    }
}

/// Position `j` of `chunks` mixed over `base`: each chunk, in order, adds its
/// `j`-th sample scaled by its gain where it is long enough to have one.
pub open spec fn mixed_sample<T: core::ops::Add<Output = T> + core::ops::Mul<Output = T>>(
    base: T,
    chunks: Seq<Seq<T>>,
    gains: Seq<T>,
    j: int,
) -> T
    decreases chunks.len(),
{
    if chunks.len() == 0 {
        base
    } else {
        let acc = mixed_sample(base, chunks.drop_last(), gains.drop_last(), j);
        if 0 <= j < chunks.last().len() {
            acc.add_spec(chunks.last()[j].mul_spec(gains.last()))
        } else {
            acc
        }
    }
}

/// Every addition made when summing `chunks` over `base` at position `j`
/// is accepted by the sample type.
pub open spec fn sum_fits<T: core::ops::Add<Output = T>>(base: T, chunks: Seq<Seq<T>>, j: int) -> bool
    decreases chunks.len(),
{
    if chunks.len() == 0 {
        true
    } else {
        &&& sum_fits(base, chunks.drop_last(), j)
        &&& (0 <= j < chunks.last().len() ==> summed_sample(base, chunks.drop_last(), j).add_req(
            chunks.last()[j]))
    }
}

/// Every multiplication and addition made when mixing `chunks` with `gains`
/// over `base` at position `j` is accepted by the sample type.
pub open spec fn mix_fits<T: core::ops::Add<Output = T> + core::ops::Mul<Output = T>>(
    base: T,
    chunks: Seq<Seq<T>>,
    gains: Seq<T>,
    j: int,
) -> bool
    decreases chunks.len(),
{
    if chunks.len() == 0 {
        true
    } else {
        &&& mix_fits(base, chunks.drop_last(), gains.drop_last(), j)
        &&& (0 <= j < chunks.last().len() ==> {
            &&& chunks.last()[j].mul_req(gains.last())
            &&& mixed_sample(base, chunks.drop_last(), gains.drop_last(), j).add_req(
                chunks.last()[j].mul_spec(gains.last()))
        })
    }
}

/// The source states its samples and never fails, so what a read of it
/// delivers is known in advance.
pub open spec fn stated_reliable<T, S: SampleSource<T>>(s: S) -> bool {
    s.pending() is Some && !s.may_fail()
}

/// Every one of `sources` states its samples and never fails.
pub open spec fn all_stated_reliable<T, S: SampleSource<T>>(sources: Seq<S>) -> bool {
    forall|k: int| 0 <= k < sources.len() ==> #[trigger] stated_reliable(sources[k])
}

/// What a read of a source that states its samples delivers into room for
/// `capacity` samples, when it does not fail.
pub open spec fn stated_outcome<T, S: SampleSource<T>>(s: S, capacity: nat) -> ReadOutcome<T> {
    let p = s.pending().unwrap();
    let n = chunk_len(p.len(), capacity);
    if n > 0 { Some(p.take(n as int)) } else { None }
}

/// What reads of `sources` into room for `capacity` samples deliver, in
/// order, when each states its samples and none fails.
pub open spec fn stated_plan<T, S: SampleSource<T>>(sources: Seq<S>, capacity: nat) -> Seq<ReadOutcome<T>> {
    Seq::new(sources.len(), |k: int| stated_outcome(sources[k], capacity))
}

/// A render of `sources` into a buffer of `capacity` samples can be done with
/// every addition accepted although the sample type does not accept every
/// pair: its `+` computes what its specification says, every source states
/// its samples and never fails, and every sum the render will form fits.
pub open spec fn sum_plan_fits<T: core::ops::Add<Output = T> + Default, S: SampleSource<T>>(sources: Seq<S>, capacity: nat) -> bool {
    &&& T::obeys_add_spec()
    &&& all_stated_reliable(sources)
    &&& forall|base: T, j: int| 0 <= j < capacity && call_ensures(T::default, (), base)
        ==> #[trigger] sum_fits(base, delivered_chunks(stated_plan(sources, capacity)), j)
}

/// A mix of `sources` at `gains` into a buffer of `capacity` samples can be
/// done with every operation accepted although the sample type does not
/// accept every pair: its `+` and `*` compute what their specifications say,
/// every source states its samples and never fails, and every product and
/// sum the mix will form fits.
pub open spec fn mix_plan_fits<T: core::ops::Add<Output = T> + core::ops::Mul<Output = T> + Default, S: SampleSource<T>>(
    sources: Seq<S>,
    gains: Seq<T>,
    capacity: nat,
) -> bool {
    &&& exact_arithmetic::<T>()
    &&& all_stated_reliable(sources)
    &&& forall|base: T, j: int| 0 <= j < capacity && call_ensures(T::default, (), base)
        ==> #[trigger] mix_fits(
            base,
            delivered_chunks(stated_plan(sources, capacity)),
            kept(gains, stated_plan(sources, capacity)),
            j,
        )
}

/// Recording one more outcome extends the delivered chunks by its chunk, if any.
pub proof fn lemma_delivered_push<T>(outcomes: Seq<ReadOutcome<T>>, o: ReadOutcome<T>)
    ensures
        delivered_chunks(outcomes.push(o)) == match o {
            Some(chunk) => delivered_chunks(outcomes).push(chunk),
            None => delivered_chunks(outcomes),
        },
{
    assert(outcomes.push(o).drop_last() =~= outcomes);
}

/// Recording one more outcome keeps one more item exactly when it is `Some`.
pub proof fn lemma_kept_push<A, T>(items: Seq<A>, outcomes: Seq<ReadOutcome<T>>, a: A, o: ReadOutcome<T>)
    requires
        items.len() == outcomes.len(),
    ensures
        kept(items.push(a), outcomes.push(o)) == match o {
            Some(_) => kept(items, outcomes).push(a),
            None => kept(items, outcomes),
        },
{
    assert(outcomes.push(o).drop_last() =~= outcomes);
    assert(items.push(a).drop_last() =~= items);
}

/// As many items are kept as there are delivered chunks.
pub proof fn lemma_kept_len<A, T>(items: Seq<A>, outcomes: Seq<ReadOutcome<T>>)
    requires
        items.len() == outcomes.len(),
    ensures
        kept(items, outcomes).len() == delivered_chunks(outcomes).len(),
    decreases outcomes.len(),
{
    if outcomes.len() > 0 {
        lemma_kept_len(items.drop_last(), outcomes.drop_last());
    }
}

/// Adding a chunk moves the reach out to its length at most.
pub proof fn lemma_reach_push<T>(chunks: Seq<Seq<T>>, c: Seq<T>)
    ensures
        reach(chunks.push(c)) == if c.len() > reach(chunks) { c.len() } else { reach(chunks) },
{
    assert(chunks.push(c).drop_last() =~= chunks);
}

/// Every chunk is heard, however many came before it: summing no chunk
/// leaves the base, and summing one more chunk `c` adds its `j`-th sample
/// to what the earlier chunks summed to at `j` when `c` reaches that far,
/// and changes nothing at `j` otherwise.
pub proof fn lemma_summed_sample_push<T: core::ops::Add<Output = T>>(base: T, chunks: Seq<Seq<T>>, c: Seq<T>, j: int)
    ensures
        summed_sample(base, Seq::<Seq<T>>::empty(), j) == base,
        summed_sample(base, chunks.push(c), j) == if 0 <= j < c.len() {
            summed_sample(base, chunks, j).add_spec(c[j])
        } else {
            summed_sample(base, chunks, j)
        },
{
    assert(chunks.push(c).drop_last() =~= chunks);
    assert(chunks.push(c).last() == c);
}

/// Every voice is heard, however many came before it: mixing no chunk leaves
/// the base, and mixing one more chunk `c` at gain `g` adds its `j`-th sample
/// times `g` to what the earlier chunks mixed to at `j` when `c` reaches that
/// far, and changes nothing at `j` otherwise.
pub proof fn lemma_mixed_sample_push<T: core::ops::Add<Output = T> + core::ops::Mul<Output = T>>(
    base: T,
    chunks: Seq<Seq<T>>,
    gains: Seq<T>,
    c: Seq<T>,
    g: T,
    j: int,
)
    ensures
        mixed_sample(base, Seq::<Seq<T>>::empty(), gains, j) == base,
        mixed_sample(base, chunks.push(c), gains.push(g), j) == if 0 <= j < c.len() {
            mixed_sample(base, chunks, gains, j).add_spec(c[j].mul_spec(g))
        } else {
            mixed_sample(base, chunks, gains, j)
        },
{
    assert(chunks.push(c).drop_last() =~= chunks);
    assert(gains.push(g).drop_last() =~= gains);
    assert(chunks.push(c).last() == c);
    assert(gains.push(g).last() == g);
}

/// A render in which nothing was delivered (no voice, or every voice played
/// out) leaves every position at the base value: the output is silence.
pub proof fn lemma_nothing_delivered_is_silence<T: core::ops::Add<Output = T> + core::ops::Mul<Output = T>>(
    base: T,
    outcomes: Seq<ReadOutcome<T>>,
    gains: Seq<T>,
    j: int,
)
    requires
        forall|k: int| 0 <= k < outcomes.len() ==> #[trigger] outcomes[k] is None,
    ensures
        delivered_chunks(outcomes).len() == 0,
        reach(delivered_chunks(outcomes)) == 0,
        mixed_sample(base, delivered_chunks(outcomes), gains, j) == base,
        summed_sample(base, delivered_chunks(outcomes), j) == base,
    decreases outcomes.len(),
{
    if outcomes.len() > 0 {
        let front = outcomes.drop_last();
        assert forall|k: int| 0 <= k < front.len() implies #[trigger] front[k] is None by {
            assert(front[k] == outcomes[k]);
        }
        lemma_nothing_delivered_is_silence(base, front, gains, j);
        assert(outcomes[outcomes.len() - 1] is None);
    }
}

/// Only what survives a render delivered anything: items are kept exactly
/// for the outcomes that carry a chunk, in their original order, so an item
/// that played out never comes back and the survivors keep their order.
pub proof fn lemma_kept_is_subsequence<A, T>(items: Seq<A>, outcomes: Seq<ReadOutcome<T>>)
    requires
        items.len() == outcomes.len(),
    ensures
        kept(items, outcomes).len() <= items.len(),
        (forall|k: int| 0 <= k < outcomes.len() ==> #[trigger] outcomes[k] is Some)
            ==> kept(items, outcomes) == items,
        (forall|k: int| 0 <= k < outcomes.len() ==> #[trigger] outcomes[k] is None)
            ==> kept(items, outcomes).len() == 0,
    decreases outcomes.len(),
{
    if outcomes.len() > 0 {
        let fo = outcomes.drop_last();
        let fi = items.drop_last();
        assert forall|k: int| 0 <= k < fo.len() implies #[trigger] fo[k] == outcomes[k] by {}
        lemma_kept_is_subsequence(fi, fo);
        if forall|k: int| 0 <= k < outcomes.len() ==> #[trigger] outcomes[k] is Some {
            assert(outcomes[outcomes.len() - 1] is Some);
            assert forall|k: int| 0 <= k < fo.len() implies #[trigger] fo[k] is Some by {
                assert(fo[k] == outcomes[k]);
            }
            assert(fi.push(items.last()) =~= items);
        }
        if forall|k: int| 0 <= k < outcomes.len() ==> #[trigger] outcomes[k] is None {
            assert(outcomes[outcomes.len() - 1] is None);
            assert forall|k: int| 0 <= k < fo.len() implies #[trigger] fo[k] is None by {
                assert(fo[k] == outcomes[k]);
            }
        }
    }
}

/// How many samples a read delivered: its count when it succeeded, none when
/// it failed. Delivering none, by reaching the end or by failing, is what gets
/// a source dropped from a render.
pub fn delivered_count(result: &Result<usize, symphonia::core::errors::Error>) -> (n: usize)
    ensures
        n == match result {
            Ok(k) => *k,
            Err(_) => 0,
        },
{
    match result {
        Ok(k) => *k,
        Err(_) => 0,
    }
}

/// Adds the first `n` samples of `chunk` onto the first `n` positions of
/// `buffer`; the rest of `buffer` is left as it was.
pub fn add_chunk<T: Copy + core::ops::Add<Output = T>>(buffer: &mut [T], chunk: &[T], n: usize)
    requires
        n <= old(buffer)@.len(),
        n <= chunk@.len(),
        forall|j: int| 0 <= j < n ==> #[trigger] old(buffer)@[j].add_req(chunk@[j]),
    ensures
        final(buffer)@.len() == old(buffer)@.len(),
        forall|j: int| n <= j < old(buffer)@.len() ==> #[trigger] final(buffer)@[j] == old(buffer)@[j],
        T::obeys_add_spec() ==> forall|j: int| 0 <= j < n
            ==> #[trigger] final(buffer)@[j] == old(buffer)@[j].add_spec(chunk@[j]),
{
    let ghost before = buffer@;
    let mut k: usize = 0;
    while k < n
        invariant
            n <= buffer@.len(),
            n <= chunk@.len(),
            buffer@.len() == before.len(),
            k <= n,
            forall|j: int| 0 <= j < n ==> #[trigger] before[j].add_req(chunk@[j]),
            forall|q: int| k <= q < before.len() ==> buffer@[q] == before[q],
            T::obeys_add_spec() ==> forall|q: int| 0 <= q < k
                ==> #[trigger] buffer@[q] == before[q].add_spec(chunk@[q]),
        decreases n - k,
    {
        assert(buffer@[k as int] == before[k as int]);
        let s = buffer[k] + chunk[k];
        buffer[k] = s;
        k = k + 1;
    }
}

/// Adds the first `n` samples of `chunk`, each multiplied by `gain`, onto the
/// first `n` positions of `buffer`; the rest of `buffer` is left as it was.
pub fn add_scaled_chunk<T: Copy + core::ops::Add<Output = T> + core::ops::Mul<Output = T>>(
    buffer: &mut [T],
    chunk: &[T],
    n: usize,
    gain: T,
)
    requires
        n <= old(buffer)@.len(),
        n <= chunk@.len(),
        forall|j: int| 0 <= j < n ==> #[trigger] chunk@[j].mul_req(gain),
        forall|j: int, p: T| 0 <= j < n && (T::obeys_mul_spec() ==> p == chunk@[j].mul_spec(gain))
            ==> #[trigger] old(buffer)@[j].add_req(p),
    ensures
        final(buffer)@.len() == old(buffer)@.len(),
        forall|j: int| n <= j < old(buffer)@.len() ==> #[trigger] final(buffer)@[j] == old(buffer)@[j],
        exact_arithmetic::<T>() ==> forall|j: int| 0 <= j < n
            ==> #[trigger] final(buffer)@[j] == old(buffer)@[j].add_spec(chunk@[j].mul_spec(gain)),
{
    let ghost before = buffer@;
    let mut k: usize = 0;
    while k < n
        invariant
            n <= buffer@.len(),
            n <= chunk@.len(),
            buffer@.len() == before.len(),
            k <= n,
            forall|j: int| 0 <= j < n ==> #[trigger] chunk@[j].mul_req(gain),
            forall|j: int, p: T| 0 <= j < n && (T::obeys_mul_spec() ==> p == chunk@[j].mul_spec(gain))
                ==> #[trigger] before[j].add_req(p),
            forall|q: int| k <= q < before.len() ==> buffer@[q] == before[q],
            exact_arithmetic::<T>() ==> forall|q: int| 0 <= q < k
                ==> #[trigger] buffer@[q] == before[q].add_spec(chunk@[q].mul_spec(gain)),
        decreases n - k,
    {
        assert(chunk@[k as int].mul_req(gain));
        let scaled = chunk[k] * gain;
        assert(buffer@[k as int] == before[k as int]);
        assert(before[k as int].add_req(scaled));
        let s = buffer[k] + scaled;
        buffer[k] = s;
        k = k + 1;
    }
}

/// The chunks delivered by the first `m` outcomes are the first chunks
/// delivered by all of them.
pub proof fn lemma_delivered_prefix<T>(outcomes: Seq<ReadOutcome<T>>, m: int)
    requires
        0 <= m <= outcomes.len(),
    ensures
        delivered_chunks(outcomes.take(m)).len() <= delivered_chunks(outcomes).len(),
        delivered_chunks(outcomes.take(m)) == delivered_chunks(outcomes).take(
            delivered_chunks(outcomes.take(m)).len() as int),
    decreases outcomes.len(),
{
    let d = delivered_chunks(outcomes);
    if m == outcomes.len() {
        assert(outcomes.take(m) =~= outcomes);
        assert(d.take(d.len() as int) =~= d);
    } else {
        let front = outcomes.drop_last();
        assert(outcomes.take(m) =~= front.take(m));
        lemma_delivered_prefix(front, m);
        let df = delivered_chunks(front);
        let dm = delivered_chunks(outcomes.take(m));
        match outcomes.last() {
            Some(c) => {
                assert(d == df.push(c));
                assert(d.take(dm.len() as int) =~= df.take(dm.len() as int));
            },
            None => {},
        }
    }
}

/// If every addition of a sum fits, every addition of a sum of its first
/// chunks fits.
pub proof fn lemma_sum_fits_prefix<T: core::ops::Add<Output = T>>(base: T, chunks: Seq<Seq<T>>, m: int, j: int)
    requires
        0 <= m <= chunks.len(),
        sum_fits(base, chunks, j),
    ensures
        sum_fits(base, chunks.take(m), j),
    decreases chunks.len(),
{
    if m == chunks.len() {
        assert(chunks.take(m) =~= chunks);
    } else {
        assert(chunks.take(m) =~= chunks.drop_last().take(m));
        lemma_sum_fits_prefix(base, chunks.drop_last(), m, j);
    }
}

/// If every operation of a mix fits, every operation of a mix of its first
/// chunks fits.
pub proof fn lemma_mix_fits_prefix<T: core::ops::Add<Output = T> + core::ops::Mul<Output = T>>(
    base: T,
    chunks: Seq<Seq<T>>,
    gains: Seq<T>,
    m: int,
    j: int,
)
    requires
        0 <= m <= chunks.len(),
        chunks.len() == gains.len(),
        mix_fits(base, chunks, gains, j),
    ensures
        mix_fits(base, chunks.take(m), gains.take(m), j),
    decreases chunks.len(),
{
    if m == chunks.len() {
        assert(chunks.take(m) =~= chunks);
        assert(gains.take(m) =~= gains);
    } else {
        assert(chunks.take(m) =~= chunks.drop_last().take(m));
        assert(gains.take(m) =~= gains.drop_last().take(m));
        lemma_mix_fits_prefix(base, chunks.drop_last(), gains.drop_last(), m, j);
    }
}

/// A render in which every source states its samples and none fails goes as
/// planned: each read delivers exactly what the plan says.
pub proof fn lemma_reliable_read_follows_plan<T, S: SampleSource<T>>(
    before: S,
    after: S,
    handed: Seq<T>,
    written: Seq<T>,
    r: Result<usize, symphonia::core::errors::Error>,
)
    requires
        crate::source::read_agrees(before, after, handed, written, r),
        stated_reliable(before),
    ensures
        outcome_of(r, written) == stated_outcome(before, handed.len()),
{
    let p = before.pending().unwrap();
    crate::source::lemma_stated_read(before, after, handed, written, r, p);
    let n = chunk_len(p.len(), handed.len());
    assert(written.take(n as int) =~= p.take(n as int));
}

/// The items kept for the first `m` outcomes are the first items kept for
/// all of them.
pub proof fn lemma_kept_prefix<A, T>(items: Seq<A>, outcomes: Seq<ReadOutcome<T>>, m: int)
    requires
        0 <= m <= outcomes.len(),
        items.len() == outcomes.len(),
    ensures
        kept(items.take(m), outcomes.take(m)).len() <= kept(items, outcomes).len(),
        kept(items.take(m), outcomes.take(m)) == kept(items, outcomes).take(
            kept(items.take(m), outcomes.take(m)).len() as int),
    decreases outcomes.len(),
{
    let d = kept(items, outcomes);
    if m == outcomes.len() {
        assert(outcomes.take(m) =~= outcomes);
        assert(items.take(m) =~= items);
        assert(d.take(d.len() as int) =~= d);
    } else {
        let fo = outcomes.drop_last();
        let fi = items.drop_last();
        assert(outcomes.take(m) =~= fo.take(m));
        assert(items.take(m) =~= fi.take(m));
        lemma_kept_prefix(fi, fo, m);
        let df = kept(fi, fo);
        let dm = kept(items.take(m), outcomes.take(m));
        match outcomes.last() {
            Some(c) => {
                assert(d == df.push(items.last()));
                assert(d.take(dm.len() as int) =~= df.take(dm.len() as int));
            },
            None => {},
        }
    }
}

/// One step of a planned mix: when the mix of the whole plan fits, so do
/// the products and sums formed when the next planned chunk is added.
pub proof fn lemma_mix_step_fits<T: core::ops::Add<Output = T> + core::ops::Mul<Output = T>>(
    base: T,
    plan: Seq<ReadOutcome<T>>,
    gains: Seq<T>,
    p: int,
    written: Seq<T>,
    n: nat,
    before: Seq<T>,
)
    requires
        0 <= p < plan.len(),
        gains.len() == plan.len(),
        n <= written.len(),
        n > 0,
        plan[p] == Some(written.take(n as int)),
        exact_arithmetic::<T>(),
        forall|q: int| 0 <= q < n ==> #[trigger] mix_fits(base, delivered_chunks(plan), kept(gains, plan), q),
        forall|q: int| 0 <= q < n ==> #[trigger] before[q] == mixed_sample(
            base, delivered_chunks(plan.take(p)), kept(gains.take(p), plan.take(p)), q),
    ensures
        forall|q: int| 0 <= q < n ==> #[trigger] written[q].mul_req(gains[p]),
        forall|q: int, v: T| 0 <= q < n && (T::obeys_mul_spec() ==> v == written[q].mul_spec(gains[p]))
            ==> #[trigger] before[q].add_req(v),
{
    let c = written.take(n as int);
    let outcomes = plan.take(p);
    let chunks = delivered_chunks(outcomes);
    let g = kept(gains.take(p), outcomes);
    let full = delivered_chunks(plan);
    let full_gains = kept(gains, plan);
    assert(plan.take(p + 1) =~= outcomes.push(Some(c)));
    assert(gains.take(p + 1) =~= gains.take(p).push(gains[p]));
    lemma_delivered_push(outcomes, Some(c));
    lemma_kept_push(gains.take(p), outcomes, gains[p], Some(c));
    lemma_delivered_prefix(plan, p + 1);
    lemma_kept_prefix(gains, plan, p + 1);
    lemma_kept_len(gains.take(p + 1), plan.take(p + 1));
    lemma_kept_len(gains, plan);
    let m = chunks.len() + 1int;
    assert(full.take(m) == chunks.push(c));
    assert(full_gains.take(m) == g.push(gains[p]));
    assert(chunks.push(c).drop_last() =~= chunks);
    assert(g.push(gains[p]).drop_last() =~= g);
    assert forall|q: int| 0 <= q < n implies #[trigger] written[q].mul_req(gains[p]) by {
        assert(mix_fits(base, full, full_gains, q));
        lemma_mix_fits_prefix(base, full, full_gains, m, q);
        assert(mix_fits(base, chunks.push(c), g.push(gains[p]), q));
        assert(c[q] == written[q]);
    }
    assert forall|q: int, v: T| 0 <= q < n && (T::obeys_mul_spec() ==> v == written[q].mul_spec(gains[p]))
        implies #[trigger] before[q].add_req(v) by {
        assert(mix_fits(base, full, full_gains, q));
        lemma_mix_fits_prefix(base, full, full_gains, m, q);
        assert(mix_fits(base, chunks.push(c), g.push(gains[p]), q));
        assert(c[q] == written[q]);
    }
}

/// Recording one more read of a render: when the reads recorded so far agree
/// with their sources' contracts and their outcomes are what they delivered,
/// the same holds once the next source's read is recorded.
pub proof fn lemma_record_read<T, S: SampleSource<T>>(
    sources: Seq<S>,
    handed: Seq<T>,
    after: Seq<S>,
    writes: Seq<Seq<T>>,
    results: Seq<Result<usize, symphonia::core::errors::Error>>,
    outcomes: Seq<ReadOutcome<T>>,
    state: S,
    written: Seq<T>,
    result: Result<usize, symphonia::core::errors::Error>,
)
    requires
        outcomes.len() < sources.len(),
        after.len() == outcomes.len(),
        writes.len() == outcomes.len(),
        results.len() == outcomes.len(),
        forall|k: int| 0 <= k < outcomes.len() ==> #[trigger] outcomes[k] == outcome_of(results[k], writes[k]),
        forall|k: int| 0 <= k < outcomes.len() ==> #[trigger] crate::source::read_agrees(
            sources[k], after[k], handed, writes[k], results[k]),
        crate::source::read_agrees(sources[outcomes.len() as int], state, handed, written, result),
    ensures
        forall|k: int| 0 <= k < outcomes.len() + 1 ==> #[trigger] outcomes.push(outcome_of(result, written))[k]
            == outcome_of(results.push(result)[k], writes.push(written)[k]),
        forall|k: int| 0 <= k < outcomes.len() + 1 ==> #[trigger] crate::source::read_agrees(
            sources[k], after.push(state)[k], handed, writes.push(written)[k], results.push(result)[k]),
        delivered_chunks(outcomes.push(outcome_of(result, written))) == match outcome_of(result, written) {
            Some(chunk) => delivered_chunks(outcomes).push(chunk),
            None => delivered_chunks(outcomes),
        },
        kept(after.push(state), outcomes.push(outcome_of(result, written))) == match outcome_of(result, written) {
            Some(_) => kept(after, outcomes).push(state),
            None => kept(after, outcomes),
        },
{
    let p = outcomes.len() as int;
    let o = outcome_of(result, written);
    lemma_delivered_push(outcomes, o);
    lemma_kept_push(after, outcomes, state, o);
    assert forall|k: int| 0 <= k < p + 1 implies #[trigger] crate::source::read_agrees(
        sources[k], after.push(state)[k], handed, writes.push(written)[k], results.push(result)[k]) by {
        if k < p {
            assert(after.push(state)[k] == after[k]);
            assert(writes.push(written)[k] == writes[k]);
            assert(results.push(result)[k] == results[k]);
        }
    }
    assert forall|k: int| 0 <= k < p + 1 implies #[trigger] outcomes.push(o)[k]
        == outcome_of(results.push(result)[k], writes.push(written)[k]) by {
        if k < p {
            assert(outcomes.push(o)[k] == outcomes[k]);
        }
    }
}

} // verus!
