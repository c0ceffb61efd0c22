use vstd::prelude::*;
use crate::source::chunk_len;

verus! {

/// What a streaming read needs next.
#[derive(Debug, Clone, Copy, PartialEq, Eq, Structural)]
pub enum ReadStep {
    /// The output is not full and the decoded samples are used up: decode
    /// the next packet and hand it over with `supply`. Holds how many samples
    /// the read has written so far.
    Fetch(usize),
    /// The read is over: the output is full or the stream has ended. Holds
    /// how many samples the read wrote in all.
    Done(usize),
}

/// What a read step decides once it has written `total` samples in all into
/// a buffer of `room` samples: the read is over when the buffer is full or the
/// stream has ended, otherwise it needs another packet.
pub open spec fn step_decision(total: nat, room: nat, ended: bool) -> ReadStep {
    if total == room || ended {
        ReadStep::Done(total as usize)
    } else {
        ReadStep::Fetch(total as usize)
    }
}

/// The decoded samples of the current packet that a streaming source has
/// not handed out yet, and whether the stream has ended. A read alternates
/// `read_step` and, when asked, decoding one packet and passing it to `supply`.
pub struct PacketBuffer<T> {
    buf: Vec<T>,
    buf_pos: usize,
    finished: bool,
    supplied: Ghost<Seq<T>>,
}

/// The samples of `buf` from `pos` on are the last ones of `supplied`.
pub open spec fn pending_ends_supplied<T>(buf: Seq<T>, pos: int, supplied: Seq<T>) -> bool {
    &&& 0 <= pos <= buf.len()
    &&& buf.len() - pos <= supplied.len()
    &&& supplied.skip(supplied.len() - (buf.len() - pos)) == buf.skip(pos)
}

impl<T> PacketBuffer<T> {
    #[verifier::type_invariant]
    spec fn position_in_bounds(self) -> bool {
        pending_ends_supplied(self.buf@, self.buf_pos as int, self.supplied@)
    }

    /// Every decoded sample handed over so far, packet after packet.
    pub closed spec fn supplied(&self) -> Seq<T> {
        self.supplied@
    }

    /// Every sample copied out so far, read after read.
    pub closed spec fn delivered(&self) -> Seq<T> {
        self.supplied@.take(self.supplied@.len() - self.pending().len())
    }

    /// Decoded samples not yet handed out, in order.
    pub closed spec fn pending(&self) -> Seq<T> {
        self.buf@.skip(self.buf_pos as int)
    }

    /// Whether the stream has reported that no packet is left.
    pub closed spec fn ended(&self) -> bool {
        self.finished
    }

    /// Nothing decoded yet, stream still open.
    pub fn new() -> (b: Self)
        ensures
            b.pending() == Seq::<T>::empty(),
            b.supplied() == Seq::<T>::empty(),
            b.delivered() == Seq::<T>::empty(),
            !b.ended(),
    {
        let b = PacketBuffer {
            buf: Vec::new(),
            buf_pos: 0,
            finished: false,
            supplied: Ghost(Seq::empty()),
        };
        assert(b.buf@.skip(0) =~= Seq::<T>::empty());
        assert(b.supplied@.skip(0) =~= Seq::<T>::empty());
        assert(b.supplied@.take(0) =~= Seq::<T>::empty());
        b
    }
}

impl<T: Copy> PacketBuffer<T> {
    /// Hands over the outcome of decoding one more packet: `Some(samples)`
    /// queues the samples after those still pending (a read asks for a packet
    /// only once nothing is pending), `None` marks the end of the stream.
    /// Whatever was handed out, followed by what is pending, is always
    /// everything handed over.
    pub fn supply(&mut self, packet: Option<Vec<T>>)
        ensures
            match packet {
                Some(p) => {
                    &&& final(self).pending() == old(self).pending() + p@
                    &&& final(self).supplied() == old(self).supplied() + p@
                    &&& final(self).ended() == old(self).ended()
                },
                None => {
                    &&& final(self).pending() == old(self).pending()
                    &&& final(self).supplied() == old(self).supplied()
                    &&& final(self).ended()
                },
            },
            final(self).delivered() == old(self).delivered(),
            final(self).delivered() + final(self).pending() == final(self).supplied(),
    {
        proof { use_type_invariant(&*self); }
        match packet {
            Some(p) => {
                let finished = self.finished;
                let ghost supplied = self.supplied@ + p@;
                let ghost delivered = self.delivered();
                let ghost pending = self.buf@.skip(self.buf_pos as int);
                let mut queued: Vec<T> = Vec::new();
                let mut k: usize = self.buf_pos;
                while k < self.buf.len()
                    invariant
                        self.buf_pos <= k <= self.buf@.len(),
                        pending == self.buf@.skip(self.buf_pos as int),
                        queued@ == self.buf@.subrange(self.buf_pos as int, k as int),
                    decreases self.buf@.len() - k,
                {
                    queued.push(self.buf[k]);
                    k = k + 1;
                }
                assert(queued@ =~= pending);
                let mut q: usize = 0;
                while q < p.len()
                    invariant
                        q <= p@.len(),
                        queued@ == pending + p@.take(q as int),
                    decreases p@.len() - q,
                {
                    queued.push(p[q]);
                    q = q + 1;
                    assert(pending + p@.take(q as int) =~= (pending + p@.take(q - 1)).push(p@[q - 1]));
                }
                assert(p@.take(p@.len() as int) =~= p@);
                assert(queued@.skip(0) =~= queued@);
                assert(delivered + (pending + p@) =~= supplied) by {
                    assert(delivered + pending =~= self.supplied@);
                }
                assert(supplied.skip(supplied.len() - (queued@.len() - 0)) =~= queued@.skip(0));
                *self = PacketBuffer {
                    buf: queued,
                    buf_pos: 0,
                    finished,
                    supplied: Ghost(supplied),
                };
                assert(self.delivered() =~= delivered);
            },
            None => {
                self.finished = true;
            },
        }
    }

    /// Copies as many pending samples as fit into `out_buf` from position
    /// `written` on, then says whether the read is over or needs another
    /// packet.
    pub fn read_step(&mut self, out_buf: &mut [T], written: usize) -> (step: ReadStep)
        requires
            written <= old(out_buf)@.len(),
        ensures
            ({
                let n = chunk_len(old(self).pending().len(), (old(out_buf)@.len() - written) as nat);
                let total = written + n;
                &&& final(out_buf)@ == old(out_buf)@.take(written as int) + old(self).pending().take(n as int)
                    + old(out_buf)@.skip(total)
                &&& final(self).pending() == old(self).pending().skip(n as int)
                &&& final(self).delivered() == old(self).delivered() + old(self).pending().take(n as int)
                &&& final(self).supplied() == old(self).supplied()
                &&& final(self).delivered() + final(self).pending() == final(self).supplied()
                &&& final(self).ended() == old(self).ended()
                &&& step == step_decision(total as nat, old(out_buf)@.len(), old(self).ended())
                &&& match step {
                    ReadStep::Fetch(w) => w == total,
                    ReadStep::Done(w) => w == total,
                }
                &&& (step is Done <==> (total == old(out_buf)@.len() || old(self).ended()))
                &&& step is Fetch ==> final(self).pending().len() == 0
            }),
    {
        proof { use_type_invariant(&*self); }
        let len = out_buf.len();
        let available = self.buf.len() - self.buf_pos;
        let room = len - written;
        let n = if available < room { available } else { room };
        let start = self.buf_pos;
        let ghost before = out_buf@;
        let ghost pending = self.buf@.skip(start as int);
        let mut i: usize = 0;
        while i < n
            invariant
                0 <= i <= n,
                written + n <= len,
                out_buf@.len() == len,
                before.len() == len,
                start + n <= self.buf.len(),
                pending == self.buf@.skip(start as int),
                forall|k: int| 0 <= k < written ==> out_buf@[k] == before[k],
                forall|k: int| 0 <= k < i ==> out_buf@[written + k] == pending[k],
                forall|k: int| written + i <= k < len ==> out_buf@[k] == before[k],
            decreases n - i,
        {
            out_buf[written + i] = self.buf[start + i];
            i = i + 1;
        }
        proof {
            let sup = self.supplied@;
            let buf = self.buf@;
            assert(sup.skip(sup.len() - (buf.len() - (start + n))) =~= buf.skip(start + n)) by {
                assert(sup.skip(sup.len() - (buf.len() - start)) == buf.skip(start as int));
                assert forall|k: int| 0 <= k < buf.len() - (start + n) implies
                    #[trigger] sup.skip(sup.len() - (buf.len() - (start + n)))[k] == buf.skip(start + n)[k] by {
                    assert(sup.skip(sup.len() - (buf.len() - start))[k + n] == buf.skip(start as int)[k + n]);
                }
            }
        }
        let ghost old_delivered = self.delivered();
        self.buf_pos = start + n;
        let total = written + n;
        assert(out_buf@ =~= before.take(written as int) + pending.take(n as int) + before.skip(total as int));
        assert(self.buf@.skip(self.buf_pos as int) =~= pending.skip(n as int));
        proof {
            let sup = self.supplied@;
            assert(old_delivered + pending =~= sup) by {
                assert(sup.skip(sup.len() - pending.len()) == pending);
            }
            assert(self.delivered() =~= old_delivered + pending.take(n as int));
            assert(self.delivered() + self.pending() =~= sup);
        }
        if total == len || self.finished {
            ReadStep::Done(total)
        } else {
            ReadStep::Fetch(total)
        }
    }
}

/// What a streaming source does with what the container reader handed it.
#[derive(Debug, Clone, Copy, PartialEq, Eq, Structural)]
pub enum PacketRoute {
    /// No packet is left: the stream has ended.
    Finish,
    /// The packet belongs to another track: read the next one.
    Skip,
    /// The packet belongs to the track being played: decode it.
    Decode,
}

/// Routes the next packet of the container, given the track it belongs to
/// (`None` once the container has no packet left) and the track played.
pub fn route_packet(packet_track: Option<u32>, track: u32) -> (route: PacketRoute)
    ensures
        route == match packet_track {
            None => PacketRoute::Finish,
            Some(t) => if t == track { PacketRoute::Decode } else { PacketRoute::Skip },
        },
{
    match packet_track {
        None => PacketRoute::Finish,
        Some(t) => if t == track { PacketRoute::Decode } else { PacketRoute::Skip },
    }
}

/// The count a step reports is the count the read has written: a step
/// taken after writing `total` samples in all reports `total`, whether it
/// asks for another packet or ends the read, and it ends the read exactly
/// when the buffer of `room` samples is full or the stream has ended.
pub proof fn lemma_step_reports_total(total: nat, room: nat, ended: bool)
    requires
        total <= usize::MAX,
    ensures
        match step_decision(total, room, ended) {
            ReadStep::Fetch(w) => w == total,
            ReadStep::Done(w) => w == total,
        },
        step_decision(total, room, ended) is Done <==> (total == room || ended),
{
}

/// A short read means the end: a step that ends a read before filling the
/// buffer has used up every pending sample and found the stream ended.
pub proof fn lemma_short_read_means_end(pending_len: nat, ended: bool, room: nat, written: nat)
    requires
        written <= room,
        step_decision(written + chunk_len(pending_len, (room - written) as nat), room, ended) is Done,
        written + chunk_len(pending_len, (room - written) as nat) < room,
    ensures
        ended,
        chunk_len(pending_len, (room - written) as nat) == pending_len,
{
}

/// Once the stream has ended and nothing is pending, every read hands out
/// nothing and is over at once, without asking for a packet; so is a read
/// into an empty buffer.
pub proof fn lemma_reads_after_end_are_empty(pending_len: nat, ended: bool, room: nat)
    ensures
        (ended && pending_len == 0) ==> chunk_len(pending_len, room) == 0
            && step_decision(0, room, ended) == ReadStep::Done(0),
        room == 0 ==> chunk_len(pending_len, room) == 0 && step_decision(0, room, ended) == ReadStep::Done(0),
{
}

/// What a streaming read hands out is the next samples of the stream: if a
/// buffer held `pending` and had handed out `delivered_before`, and the read
/// handed out `out` while `extra` was supplied, then `out` is the front of the
/// old pending samples followed by the new packets.
pub proof fn lemma_read_hands_out_next<T>(
    delivered_before: Seq<T>,
    pending_before: Seq<T>,
    supplied_before: Seq<T>,
    extra: Seq<T>,
    out: Seq<T>,
    pending_after: Seq<T>,
)
    requires
        delivered_before + pending_before == supplied_before,
        (delivered_before + out) + pending_after == supplied_before + extra,
    ensures
        out + pending_after == pending_before + extra,
        out == (pending_before + extra).take(out.len() as int),
{
    assert(out + pending_after =~= (supplied_before + extra).skip(delivered_before.len() as int));
    assert(pending_before + extra =~= (supplied_before + extra).skip(delivered_before.len() as int));
    assert(out =~= (out + pending_after).take(out.len() as int));
}

/// The read size does not change what a stream yields: two buffers fed the
/// same packets in the same order, each read with its own buffer sizes, have
/// handed out prefixes of the same samples, and once both are drained (no
/// sample pending) they have handed out exactly the same samples, all of
/// them.
pub proof fn lemma_read_sizes_do_not_matter<T>(
    supplied: Seq<T>,
    delivered_a: Seq<T>,
    pending_a: Seq<T>,
    delivered_b: Seq<T>,
    pending_b: Seq<T>,
)
    requires
        delivered_a + pending_a == supplied,
        delivered_b + pending_b == supplied,
    ensures
        delivered_a == supplied.take(delivered_a.len() as int),
        delivered_b == supplied.take(delivered_b.len() as int),
        pending_a.len() == 0 && pending_b.len() == 0 ==> delivered_a == supplied && delivered_b == supplied,
{
    assert(delivered_a =~= (delivered_a + pending_a).take(delivered_a.len() as int));
    assert(delivered_b =~= (delivered_b + pending_b).take(delivered_b.len() as int));
    if pending_a.len() == 0 && pending_b.len() == 0 {
        assert(delivered_a =~= delivered_a + pending_a);
        assert(delivered_b =~= delivered_b + pending_b);
    }
}

} // verus!
