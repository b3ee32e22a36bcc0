//! The replay buffer of one terminal.
//!
//! Every chunk a terminal prints gets the next sequence number, starting at 1. The newest
//! [`MAX_CHUNKS`] chunks are kept, so that a view which reattaches (after a reload, say)
//! can ask for a snapshot, write its bytes, and then drop every live chunk whose number is
//! not above the snapshot's last: it then shows each byte exactly once.

use vstd::prelude::*;
use std::collections::VecDeque;

verus! {

/// How many chunks a terminal keeps for replay: a bound on chunks, not on bytes.
pub const MAX_CHUNKS: usize = 5000;

/// How many bytes one read of a terminal's output takes at most.
pub const READ_CHUNK: usize = 4096;

/// One chunk of terminal output. `data` is raw bytes: decoding them is the viewer's job,
/// so a character split across two reads is never damaged.
#[derive(Clone, Debug)]
pub struct Output {
    pub seq: u64,
    pub data: Vec<u8>,
}

impl View for Output {
    type V = (u64, Seq<u8>);

    open spec fn view(&self) -> (u64, Seq<u8>) {
        (self.seq, self.data@)
    }
}

/// The bytes of `chunks`, one after another.
pub open spec fn chunk_bytes(chunks: Seq<(u64, Seq<u8>)>) -> Seq<u8>
    decreases chunks.len(),
{
    if chunks.len() == 0 {
        Seq::empty()
    } else {
        chunk_bytes(chunks.drop_last()) + chunks.last().1
    }
}

/// The number of the last of `chunks`, or 0 where there is none.
pub open spec fn last_seq_of(chunks: Seq<(u64, Seq<u8>)>) -> u64 {
    if chunks.len() == 0 {
        0
    } else {
        chunks.last().0
    }
}

/// The newest `n` of `chunks` (all of them where there are no more than `n`).
pub open spec fn keep_newest(chunks: Seq<(u64, Seq<u8>)>, n: nat) -> Seq<(u64, Seq<u8>)> {
    if chunks.len() <= n {
        chunks
    } else {
        chunks.subrange(chunks.len() - n, chunks.len() as int)
    }
}

/// What is kept after `data` arrives, when `chunks` were kept and `last` chunks had
/// arrived before it: the new chunk, numbered `last + 1`, is added at the end, and the
/// oldest ones go where more than [`MAX_CHUNKS`] would remain.
pub open spec fn after_record(chunks: Seq<(u64, Seq<u8>)>, last: u64, data: Seq<u8>) -> Seq<
    (u64, Seq<u8>),
> {
    keep_newest(chunks.push(((last + 1) as u64, data)), MAX_CHUNKS as nat)
}

/// How many chunks are kept once `last` have arrived: all of them, up to [`MAX_CHUNKS`].
pub open spec fn kept_count(last: u64) -> nat {
    if last <= MAX_CHUNKS {
        last as nat
    } else {
        MAX_CHUNKS as nat
    }
}

/// Every one of `chunks` holds at least one byte and at most `max`: what the reads of a
/// terminal into a buffer of `max` bytes give.
pub open spec fn sizes_within(chunks: Seq<(u64, Seq<u8>)>, max: nat) -> bool {
    forall|i: int| 0 <= i < chunks.len() ==> 1 <= #[trigger] chunks[i].1.len() <= max
}

/// `chunks` is what is kept once `last` chunks have arrived: the newest
/// `min(last, MAX_CHUNKS)` of them, numbered consecutively up to `last`.
pub open spec fn numbered(chunks: Seq<(u64, Seq<u8>)>, last: u64) -> bool {
    &&& chunks.len() == kept_count(last)
    &&& forall|i: int| 0 <= i < chunks.len() ==> #[trigger] chunks[i].0 == last - chunks.len() + 1 + i
}

/// The chunks that `datas` become when they arrive one after another after `last` chunks.
pub open spec fn live_chunks(last: u64, datas: Seq<Seq<u8>>) -> Seq<(u64, Seq<u8>)> {
    Seq::new(datas.len(), |j: int| ((last + 1 + j) as u64, datas[j]))
}

/// What is kept after each of `datas` has arrived in turn, starting from `chunks` kept
/// after `last` chunks.
pub open spec fn record_all(chunks: Seq<(u64, Seq<u8>)>, last: u64, datas: Seq<Seq<u8>>) -> Seq<
    (u64, Seq<u8>),
>
    decreases datas.len(),
{
    if datas.len() == 0 {
        chunks
    } else {
        after_record(
            record_all(chunks, last, datas.drop_last()),
            (last + datas.len() - 1) as u64,
            datas.last(),
        )
    }
}

/// The bytes of two runs of chunks are the bytes of the first, then those of the second.
pub proof fn lemma_chunk_bytes_concat(a: Seq<(u64, Seq<u8>)>, b: Seq<(u64, Seq<u8>)>)
    ensures
        chunk_bytes(a + b) == chunk_bytes(a) + chunk_bytes(b),
    decreases b.len(),
{
    if b.len() == 0 {
        assert(a + b =~= a);
        assert(chunk_bytes(a) + chunk_bytes(b) =~= chunk_bytes(a));
    } else {
        lemma_chunk_bytes_concat(a, b.drop_last());
        assert((a + b).drop_last() =~= a + b.drop_last());
        assert((a + b).last() == b.last());
        assert(chunk_bytes(a) + chunk_bytes(b) =~= chunk_bytes(a) + chunk_bytes(b.drop_last())
            + b.last().1);
    }
}

/// Keeping the newest `n` after each arrival is keeping the newest `n` at the end.
pub proof fn lemma_keep_newest_push(s: Seq<(u64, Seq<u8>)>, x: (u64, Seq<u8>), n: nat)
    requires
        n > 0,
    ensures
        keep_newest(keep_newest(s, n).push(x), n) == keep_newest(s.push(x), n),
{
    if s.len() > n {
        let k = keep_newest(s, n);
        assert(keep_newest(k.push(x), n) =~= keep_newest(s.push(x), n));
    }
}

/// Numbering is kept by an arrival: once one more chunk has arrived, what is kept is
/// again the newest of them, numbered consecutively up to the new count.
pub proof fn lemma_record_numbered(chunks: Seq<(u64, Seq<u8>)>, last: u64, data: Seq<u8>)
    requires
        numbered(chunks, last),
        last < u64::MAX,
    ensures
        numbered(after_record(chunks, last, data), (last + 1) as u64),
{
    let pushed = chunks.push(((last + 1) as u64, data));
    let next = after_record(chunks, last, data);
    if pushed.len() > MAX_CHUNKS {
        assert forall|i: int| 0 <= i < next.len() implies #[trigger] next[i].0 == (last + 1)
            - next.len() + 1 + i by {
            assert(next[i] == pushed[i + 1]);
        }
    } else {
        assert forall|i: int| 0 <= i < next.len() implies #[trigger] next[i].0 == (last + 1)
            - next.len() + 1 + i by {
            assert(next[i] == pushed[i]);
        }
    }
}

/// Reattaching loses and repeats nothing. Take a snapshot of what is kept after `last`
/// chunks arrived, then let `datas` arrive one after another. Every chunk in the snapshot
/// is numbered at or below the snapshot's last number; the live chunks are numbered on
/// from it, one by one, so a view that drops live chunks numbered at or below it keeps
/// all of them; the bytes it shows are those of the snapshot followed by those of the
/// live chunks, which are the bytes of the whole run; and the buffer then keeps the
/// newest [`MAX_CHUNKS`] of the snapshot's chunks and the live ones, numbered on.
pub proof fn law_reattach(chunks: Seq<(u64, Seq<u8>)>, last: u64, datas: Seq<Seq<u8>>)
    requires
        numbered(chunks, last),
        last + datas.len() <= u64::MAX,
    ensures
        forall|i: int| 0 <= i < chunks.len() ==> #[trigger] chunks[i].0 <= last_seq_of(chunks),
        forall|j: int|
            0 <= j < datas.len() ==> #[trigger] live_chunks(last, datas)[j].0 == last_seq_of(
                chunks,
            ) + 1 + j,
        chunk_bytes(chunks + live_chunks(last, datas)) == chunk_bytes(chunks) + chunk_bytes(
            live_chunks(last, datas),
        ),
        record_all(chunks, last, datas) == keep_newest(
            chunks + live_chunks(last, datas),
            MAX_CHUNKS as nat,
        ),
        numbered(record_all(chunks, last, datas), (last + datas.len()) as u64),
    decreases datas.len(),
{
    lemma_numbered_last(chunks, last);
    lemma_chunk_bytes_concat(chunks, live_chunks(last, datas));
    if datas.len() == 0 {
        assert(chunks + live_chunks(last, datas) =~= chunks);
    } else {
        let rest = datas.drop_last();
        law_reattach(chunks, last, rest);
        let before = record_all(chunks, last, rest);
        let x = ((last + datas.len()) as u64, datas.last());
        assert((last + rest.len() + 1) as u64 == x.0);
        assert((chunks + live_chunks(last, rest)).push(x) =~= chunks + live_chunks(last, datas));
        lemma_keep_newest_push(chunks + live_chunks(last, rest), x, MAX_CHUNKS as nat);
        lemma_record_numbered(before, (last + rest.len()) as u64, datas.last());
    }
}

/// What a snapshot shows after one more chunk arrives is what it showed before followed by
/// the new bytes, less the oldest chunk's bytes where [`MAX_CHUNKS`] were already kept.
pub proof fn law_snapshot_after_record(chunks: Seq<(u64, Seq<u8>)>, last: u64, data: Seq<u8>)
    requires
        numbered(chunks, last),
        last < u64::MAX,
    ensures
        chunk_bytes(after_record(chunks, last, data)) == (if chunks.len() < MAX_CHUNKS {
            chunk_bytes(chunks)
        } else {
            chunk_bytes(chunks.drop_first())
        }) + data,
        last_seq_of(after_record(chunks, last, data)) == last + 1,
{
    let x = ((last + 1) as u64, data);
    let pushed = chunks.push(x);
    let next = after_record(chunks, last, data);
    if chunks.len() < MAX_CHUNKS {
        assert(next == pushed);
        assert(pushed.drop_last() =~= chunks);
    } else {
        assert(next =~= chunks.drop_first().push(x));
        assert(next.drop_last() =~= chunks.drop_first());
    }
    lemma_record_numbered(chunks, last, data);
    lemma_numbered_last(next, (last + 1) as u64);
}

/// The bytes of chunks that each hold between one and `max` bytes number at least one
/// per chunk and at most `max` per chunk.
pub proof fn lemma_chunk_bytes_len(chunks: Seq<(u64, Seq<u8>)>, max: nat)
    requires
        sizes_within(chunks, max),
    ensures
        chunks.len() <= chunk_bytes(chunks).len() <= chunks.len() * max,
    decreases chunks.len(),
{
    if chunks.len() > 0 {
        let rest = chunks.drop_last();
        assert forall|i: int| 0 <= i < rest.len() implies 1 <= #[trigger] rest[i].1.len()
            <= max by {
            assert(rest[i] == chunks[i]);
        }
        lemma_chunk_bytes_len(rest, max);
        let n = rest.len();
        assert(chunks.last().1.len() == chunks[chunks.len() - 1].1.len());
        assert(n * max + max == (n + 1) * max) by (nonlinear_arith);
    }
}

/// Keeping the newest chunks keeps every kept chunk's size.
proof fn lemma_keep_newest_sizes(chunks: Seq<(u64, Seq<u8>)>, n: nat, max: nat)
    requires
        sizes_within(chunks, max),
    ensures
        sizes_within(keep_newest(chunks, n), max),
{
    let kept = keep_newest(chunks, n);
    if chunks.len() > n {
        assert forall|i: int| 0 <= i < kept.len() implies 1 <= #[trigger] kept[i].1.len()
            <= max by {
            assert(kept[i] == chunks[i + chunks.len() - n]);
        }
    }
}

/// Recording a chunk of one to `max` bytes keeps every kept chunk within one to `max`.
pub proof fn lemma_record_sizes(chunks: Seq<(u64, Seq<u8>)>, last: u64, data: Seq<u8>, max: nat)
    requires
        sizes_within(chunks, max),
        1 <= data.len() <= max,
    ensures
        sizes_within(after_record(chunks, last, data), max),
{
    let pushed = chunks.push(((last + 1) as u64, data));
    assert forall|i: int| 0 <= i < pushed.len() implies 1 <= #[trigger] pushed[i].1.len()
        <= max by {
        if i < chunks.len() {
            assert(pushed[i] == chunks[i]);
        }
    }
    lemma_keep_newest_sizes(pushed, MAX_CHUNKS as nat, max);
}

/// What a snapshot holds, where every kept chunk is one read of one to `max` bytes: it is
/// empty exactly when nothing has arrived (its last number is 0), and otherwise it holds
/// at least one byte and at most `max` bytes for each of the `min(last, MAX_CHUNKS)` kept
/// chunks, however much was written.
pub proof fn law_snapshot_size(chunks: Seq<(u64, Seq<u8>)>, last: u64, max: nat)
    requires
        numbered(chunks, last),
        sizes_within(chunks, max),
    ensures
        last_seq_of(chunks) == last,
        chunks.len() == kept_count(last),
        chunk_bytes(chunks).len() == 0 <==> last == 0,
        kept_count(last) <= chunk_bytes(chunks).len() <= kept_count(last) * max,
{
    lemma_numbered_last(chunks, last);
    lemma_chunk_bytes_len(chunks, max);
}

/// The bytes of the chunks numbered on from `last` are the reads, one after another.
proof fn lemma_live_bytes(last: u64, reads: Seq<Seq<u8>>)
    ensures
        chunk_bytes(live_chunks(last, reads)) == reads.flatten_alt(),
    decreases reads.len(),
{
    if reads.len() > 0 {
        lemma_live_bytes(last, reads.drop_last());
        assert(live_chunks(last, reads).drop_last() =~= live_chunks(last, reads.drop_last()));
    }
}

/// What the reader of a terminal makes of its output. Let the child's output arrive as
/// `reads`, each of one to `max` bytes, into a new buffer. Each read becomes exactly one
/// chunk, numbered 1, 2, 3, ... in order (never repeated, never skipped), carrying exactly
/// the bytes read; those chunks' bytes, one after another, are the whole output; the
/// buffer then keeps the newest [`MAX_CHUNKS`] of them, numbered up to the count of reads;
/// and its snapshot is empty exactly when nothing was read, and holds between
/// `min(n, MAX_CHUNKS)` and `min(n, MAX_CHUNKS) * max` bytes after `n` reads.
pub proof fn law_reader_stream(reads: Seq<Seq<u8>>, max: nat)
    requires
        forall|i: int| 0 <= i < reads.len() ==> 1 <= #[trigger] reads[i].len() <= max,
        reads.len() <= u64::MAX,
    ensures
        forall|j: int|
            0 <= j < reads.len() ==> #[trigger] live_chunks(0, reads)[j] == ((j + 1) as u64, reads[j]),
        chunk_bytes(live_chunks(0, reads)) == reads.flatten(),
        record_all(Seq::empty(), 0, reads) == keep_newest(live_chunks(0, reads), MAX_CHUNKS as nat),
        numbered(record_all(Seq::empty(), 0, reads), reads.len() as u64),
        sizes_within(record_all(Seq::empty(), 0, reads), max),
        chunk_bytes(record_all(Seq::empty(), 0, reads)).len() == 0 <==> reads.len() == 0,
        kept_count(reads.len() as u64) <= chunk_bytes(record_all(Seq::empty(), 0, reads)).len(),
        chunk_bytes(record_all(Seq::empty(), 0, reads)).len() <= kept_count(reads.len() as u64) * max,
{
    let none = Seq::<(u64, Seq<u8>)>::empty();
    let live = live_chunks(0, reads);
    law_reattach(none, 0, reads);
    assert(none + live =~= live);
    lemma_live_bytes(0, reads);
    reads.lemma_flatten_and_flatten_alt_are_equivalent();
    assert forall|i: int| 0 <= i < live.len() implies 1 <= #[trigger] live[i].1.len() <= max by {
        assert(live[i].1 == reads[i]);
    }
    lemma_keep_newest_sizes(live, MAX_CHUNKS as nat, max);
    law_snapshot_size(record_all(none, 0, reads), reads.len() as u64, max);
}

/// Two snapshots of one terminal, the second taken after `datas` more chunks arrived: the
/// last number does not go down (it goes up by the count of chunks); while nothing has
/// been dropped (at most [`MAX_CHUNKS`] have arrived in all) the first snapshot's bytes
/// begin the second's; and where nothing arrived in between, the two are the same.
pub proof fn law_snapshots_grow(chunks: Seq<(u64, Seq<u8>)>, last: u64, datas: Seq<Seq<u8>>)
    requires
        numbered(chunks, last),
        last + datas.len() <= u64::MAX,
    ensures
        last_seq_of(chunks) <= last_seq_of(record_all(chunks, last, datas)),
        last_seq_of(record_all(chunks, last, datas)) == last + datas.len(),
        last + datas.len() <= MAX_CHUNKS ==> chunk_bytes(chunks).is_prefix_of(
            chunk_bytes(record_all(chunks, last, datas)),
        ),
        datas.len() == 0 ==> chunk_bytes(record_all(chunks, last, datas)) == chunk_bytes(chunks),
{
    let live = live_chunks(last, datas);
    law_reattach(chunks, last, datas);
    let after = record_all(chunks, last, datas);
    lemma_numbered_last(chunks, last);
    lemma_numbered_last(after, (last + datas.len()) as u64);
    if last + datas.len() <= MAX_CHUNKS {
        assert(after == chunks + live);
        let a = chunk_bytes(chunks);
        let b = chunk_bytes(after);
        assert(b == a + chunk_bytes(live));
        assert(a =~= b.subrange(0, a.len() as int));
    }
}

/// The buffer of one terminal: the chunks kept for replay, and how many have arrived.
pub struct ReplayBuffer {
    chunks: VecDeque<Output>,
    last_seq: u64,
}

impl ReplayBuffer {
    /// The chunks kept, oldest first, each as its number and its bytes.
    pub closed spec fn retained(&self) -> Seq<(u64, Seq<u8>)> {
        self.chunks@.map_values(|o: Output| o@)
    }

    /// How many chunks have arrived: the number of the newest.
    pub closed spec fn latest_seq(&self) -> u64 {
        self.last_seq
    }

    /// What is kept is the newest of all that arrived, numbered consecutively, each chunk
    /// one read: at least one byte and at most [`READ_CHUNK`].
    pub open spec fn wf(&self) -> bool {
        &&& numbered(self.retained(), self.latest_seq())
        &&& sizes_within(self.retained(), READ_CHUNK as nat)
    }

    /// An empty buffer: nothing has arrived.
    pub fn new() -> (buffer: Self)
        ensures
            buffer.wf(),
            buffer.retained() == Seq::<(u64, Seq<u8>)>::empty(),
            buffer.latest_seq() == 0,
    {
        let buffer = ReplayBuffer { chunks: VecDeque::new(), last_seq: 0 };
        assert(buffer.retained() =~= Seq::<(u64, Seq<u8>)>::empty());
        buffer
    }

    /// How many chunks are kept.
    pub fn len(&self) -> (n: usize)
        ensures
            n == self.retained().len(),
    {
        self.chunks.len()
    }

    /// The number of the newest chunk that arrived, 0 before the first.
    pub fn last_seq(&self) -> (seq: u64)
        ensures
            seq == self.latest_seq(),
    {
        self.last_seq
    }

    /// Takes in the next chunk of output, one read of one to [`READ_CHUNK`] bytes: it is
    /// numbered one above the last, kept at the end, and the oldest chunk goes if more than
    /// [`MAX_CHUNKS`] would be kept. Returns the numbered chunk, to be sent on to live
    /// viewers.
    pub fn record(&mut self, data: Vec<u8>) -> (out: Output)
        requires
            old(self).wf(),
            old(self).latest_seq() < u64::MAX,
            1 <= data@.len() <= READ_CHUNK,
        ensures
            final(self).wf(),
            final(self).retained().len() <= MAX_CHUNKS,
            out@ == ((old(self).latest_seq() + 1) as u64, data@),
            final(self).latest_seq() == old(self).latest_seq() + 1,
            final(self).retained() == after_record(
                old(self).retained(),
                old(self).latest_seq(),
                data@,
            ),
    {
        let ghost before = self.retained();
        let ghost last = self.last_seq;
        let seq = self.last_seq + 1;
        let kept = Output { seq, data: copy_bytes(&data) };
        let out = Output { seq, data };
        self.chunks.push_back(kept);
        self.last_seq = seq;
        let ghost pushed = before.push(((last + 1) as u64, data@));
        assert(self.retained() =~= pushed);
        let ghost mut dropped: int = 0;
        while self.chunks.len() > MAX_CHUNKS
            invariant
                self.last_seq == seq,
                0 <= dropped <= 1,
                dropped + self.chunks@.len() == pushed.len(),
                pushed.len() <= MAX_CHUNKS + 1,
                dropped > 0 ==> self.chunks@.len() >= MAX_CHUNKS,
                self.retained() == pushed.subrange(dropped, pushed.len() as int),
            decreases self.chunks@.len(),
        {
            let ghost prev = self.chunks@;
            let ghost prev_kept = self.retained();
            let _oldest = self.chunks.pop_front();
            proof {
                assert(self.chunks@ =~= prev.subrange(1, prev.len() as int));
                dropped = dropped + 1;
                assert forall|k: int| 0 <= k < self.chunks@.len() implies #[trigger] self.retained()[k]
                    == pushed.subrange(dropped, pushed.len() as int)[k] by {
                    assert(self.chunks@[k] == prev[k + 1]);
                    assert(prev_kept[k + 1] == pushed.subrange(dropped - 1, pushed.len() as int)[k + 1]);
                }
                assert(self.retained() =~= pushed.subrange(dropped, pushed.len() as int));
            }
        }
        proof {
            assert(self.retained() =~= keep_newest(pushed, MAX_CHUNKS as nat));
            lemma_record_numbered(before, last, data@);
            lemma_record_sizes(before, last, data@, READ_CHUNK as nat);
        }
        out
    }

    /// Takes in one read of the terminal's output: `read` is what reading into `chunk`
    /// gave. An error, or a read of no bytes (the child's side closed), ends the stream:
    /// nothing changes and `None` comes back. Otherwise the bytes read, the first `n` of
    /// `chunk`, are recorded as the next chunk, which comes back.
    pub fn on_read(&mut self, chunk: &[u8], read: Result<usize, std::io::Error>) -> (out: Option<
        Output,
    >)
        requires
            old(self).wf(),
            read matches Ok(n) ==> n <= chunk@.len() && n <= READ_CHUNK && (n > 0 ==> old(
                self,
            ).latest_seq() < u64::MAX),
        ensures
            final(self).wf(),
            match read {
                Ok(n) if n > 0 => {
                    &&& out matches Some(o) && o@ == (
                        (old(self).latest_seq() + 1) as u64,
                        chunk@.take(n as int),
                    )
                    &&& final(self).latest_seq() == old(self).latest_seq() + 1
                    &&& final(self).retained() == after_record(
                        old(self).retained(),
                        old(self).latest_seq(),
                        chunk@.take(n as int),
                    )
                },
                _ => {
                    &&& out is None
                    &&& final(self).latest_seq() == old(self).latest_seq()
                    &&& final(self).retained() == old(self).retained()
                },
            },
    {
        match read {
            Ok(n) => {
                if n == 0 {
                    None
                } else {
                    let mut data: Vec<u8> = Vec::new();
                    data.extend_from_slice(&chunk[0..n]);
                    assert(data@ =~= chunk@.take(n as int)) by {
                        assert forall|k: int| 0 <= k < n implies data@[k] == chunk@[k] by {
                            assert(data@[k] == chunk@.subrange(0, n as int)[k]);
                        }
                    }
                    Some(self.record(data))
                }
            },
            Err(_) => None,
        }
    }

    /// Everything still kept, concatenated, and the number of the last chunk it covers
    /// (0 where nothing is kept). A reattaching view writes the bytes, then drops every
    /// live chunk numbered at or below that number.
    pub fn snapshot(&self) -> (snap: (Vec<u8>, u64))
        requires
            self.wf(),
        ensures
            snap.0@ == chunk_bytes(self.retained()),
            snap.1 == last_seq_of(self.retained()),
            snap.1 == self.latest_seq(),
            snap.0@.len() == 0 <==> snap.1 == 0,
            kept_count(snap.1) <= snap.0@.len() <= kept_count(snap.1) * READ_CHUNK,
    {
        let mut data: Vec<u8> = Vec::new();
        let mut last: u64 = 0;
        let n = self.chunks.len();
        let mut i: usize = 0;
        while i < n
            invariant
                n == self.chunks@.len(),
                i <= n,
                data@ == chunk_bytes(self.retained().take(i as int)),
                last == last_seq_of(self.retained().take(i as int)),
            decreases n - i,
        {
            let out = &self.chunks[i];
            let ghost before = data@;
            data.extend_from_slice(out.data.as_slice());
            assert(data@ =~= before + out.data@) by {
                assert forall|k: int| 0 <= k < out.data@.len() implies data@[before.len() + k]
                    == out.data@[k] by {
                    assert(data@[before.len() + k] == out.data@[k]);
                }
            }
            last = out.seq;
            proof {
                let t = self.retained().take(i + 1);
                assert(t.drop_last() =~= self.retained().take(i as int));
                assert(t.last() == out@);
            }
            i += 1;
        }
        proof {
            assert(self.retained().take(n as int) =~= self.retained());
            lemma_numbered_last(self.retained(), self.latest_seq());
            law_snapshot_size(self.retained(), self.latest_seq(), READ_CHUNK as nat);
        }
        (data, last)
    }
}

/// Where the kept chunks are numbered up to `last`, the last kept one is number `last`
/// (and nothing is kept only where nothing has arrived).
pub proof fn lemma_numbered_last(chunks: Seq<(u64, Seq<u8>)>, last: u64)
    requires
        numbered(chunks, last),
    ensures
        last_seq_of(chunks) == last,
{
    if chunks.len() > 0 {
        assert(chunks[chunks.len() - 1].0 == last);
    }
}

/// A copy of `bytes`.
fn copy_bytes(bytes: &Vec<u8>) -> (copy: Vec<u8>)
    ensures
        copy@ == bytes@,
{
    let copy = bytes.clone();
    assert(copy@ =~= bytes@);
    copy
}

} // verus!
