use vstd::prelude::*;
use vstd::slice::slice_subrange;
use crate::error::HttpError;
use crate::transport::Transport;

verus! {

/// How many bytes a writer holds before it must hand them to the transport.
pub const BUF_SIZE: usize = 1024;

/// How many bytes are asked of the transport in one read.
pub const READ_SIZE: usize = 1024;

/// What has become of the bytes given to a writer since it was made.
pub struct Outflow {
    /// The bytes that the transport has taken, in the order it took them.
    pub sent: Seq<u8>,
    /// The bytes that wait in the buffer.
    pub buffered: Seq<u8>,
    /// How many times the transport was asked to write.
    pub writes: nat,
}

impl Outflow {
    /// Everything written so far: what was sent, then what waits.
    pub open spec fn stream(self) -> Seq<u8> {
        self.sent + self.buffered
    }

    /// `self` is a state that a writer in state `pre` can reach while `bytes`
    /// are written to it: the transport has kept what it had, and has taken
    /// nothing but the written bytes, in order.
    pub open spec fn follows(self, pre: Outflow, bytes: Seq<u8>) -> bool {
        &&& pre.sent.is_prefix_of(self.sent)
        &&& self.sent.is_prefix_of(pre.stream() + bytes)
        &&& pre.writes <= self.writes
    }

    /// `self` is `pre` with all of `bytes` written to it.
    pub open spec fn holds_all(self, pre: Outflow, bytes: Seq<u8>) -> bool {
        &&& self.follows(pre, bytes)
        &&& self.stream() == pre.stream() + bytes
    }
}

/// One call of the transport as a writer made it.
pub enum Call<E> {
    /// The transport was offered `offered` to take and answered `answer`.
    Write { offered: Seq<u8>, answer: Result<usize, E> },
    /// The transport was given room for `room` bytes and answered
    /// `answer`; `filled` is what the room held when it came back.
    Read { room: nat, filled: Seq<u8>, answer: Result<usize, E> },
}

/// What a read has placed in `buf`, going by its answer: the first bytes of
/// `buf`, as many as the count it returned, or nothing where it failed or
/// returned a count above the length of `buf`.
pub open spec fn placed<E>(buf: Seq<u8>, answer: Result<usize, E>) -> Seq<u8> {
    match answer {
        Ok(count) => if count <= buf.len() {
            buf.take(count as int)
        } else {
            Seq::empty()
        },
        Err(_) => Seq::empty(),
    }
}

/// What a writer offers the transport when `pos` bytes of the stream `s`
/// have been taken and the first `upto` are to be sent: the bytes from
/// `pos` to the end of the buffer-full that `pos` lies in, or to `upto`
/// where that comes first.
pub open spec fn offer_at(s: Seq<u8>, upto: nat, pos: nat) -> Seq<u8> {
    let end = (pos / (BUF_SIZE as nat) + 1) * BUF_SIZE;
    s.subrange(
        pos as int,
        if end <= upto {
            end as int
        } else {
            upto as int
        },
    )
}

/// How many bytes of `s` the transport has taken after `calls`, where these
/// are calls that send the first `upto` bytes of `s` and went well: each is
/// a write that was offered `offer_at` of what had been taken before it,
/// which is a byte or more, and took a byte or more of it. `None` where
/// `calls` are not such calls.
pub open spec fn sent_pos<E>(s: Seq<u8>, upto: nat, calls: Seq<Call<E>>) -> Option<nat>
    decreases calls.len(),
{
    if calls.len() == 0 {
        Some(0nat)
    } else {
        match (sent_pos(s, upto, calls.drop_last()), calls.last()) {
            (Some(pos), Call::Write { offered, answer }) => if pos < upto && offered == offer_at(
                s,
                upto,
                pos,
            ) && 1 <= offered.len() <= BUF_SIZE {
                match flush_progress_spec(0, offered.len() as usize, answer) {
                    Ok(taken) => Some((pos + taken) as nat),
                    Err(_) => None,
                }
            } else {
                None
            },
            _ => None,
        }
    }
}

/// `r` is how sending the first `upto` bytes of `s` ends when `calls` are
/// the calls that were made for it. It ends well when the calls went well
/// and have taken all `upto` bytes; with nothing to send there is no call.
/// It fails when the calls before the last went well and left bytes to
/// send, and the last was offered what `offer_at` says and got an answer
/// for which `flush_progress_spec` gives the error. No call follows one
/// that failed.
pub open spec fn sending_ends<T, E>(
    s: Seq<u8>,
    upto: nat,
    calls: Seq<Call<E>>,
    r: Result<T, HttpError<E>>,
) -> bool {
    match r {
        Ok(_) => sent_pos(s, upto, calls) == Some(upto),
        Err(e) => calls.len() >= 1 && match (
            sent_pos(s, upto, calls.drop_last()),
            calls.last(),
        ) {
            (Some(pos), Call::Write { offered, answer }) => {
                &&& pos < upto
                &&& offered == offer_at(s, upto, pos)
                &&& 1 <= offered.len() <= BUF_SIZE
                &&& flush_progress_spec(0, offered.len() as usize, answer) == Err::<
                    usize,
                    HttpError<E>,
                >(e)
            },
            _ => false,
        },
    }
}

/// How many bytes of `s` had been taken when sending ended with `r`.
pub open spec fn sent_when<T, E>(
    s: Seq<u8>,
    upto: nat,
    calls: Seq<Call<E>>,
    r: Result<T, HttpError<E>>,
) -> nat {
    match r {
        Ok(_) => upto,
        Err(_) => match sent_pos(s, upto, calls.drop_last()) {
            Some(pos) => pos,
            None => 0,
        },
    }
}

/// How much of a stream of `len` bytes a write flushes on its way: every
/// buffer-full that is followed by a byte or more.
pub open spec fn flushed_part(len: nat) -> nat {
    if len == 0 {
        0
    } else {
        (((len - 1) / (BUF_SIZE as int)) * BUF_SIZE) as nat
    }
}

/// A read that filled all the room it was given, `READ_SIZE` bytes.
pub open spec fn full_read<E>(call: Call<E>) -> bool {
    match call {
        Call::Read { room, filled, answer } => room == READ_SIZE && (answer matches Ok(count)
            && count == READ_SIZE),
        _ => false,
    }
}

/// `r` is how reading to the end ends when `calls` are the calls that were
/// made for it: one read or more, each given room for `READ_SIZE` bytes.
/// Each but the last filled its room. The last did not, and `r` is what
/// `read_progress_spec` gives for its answer.
pub open spec fn reading_ends<T, E>(calls: Seq<Call<E>>, r: Result<T, HttpError<E>>) -> bool {
    &&& calls.len() >= 1
    &&& forall|i: int| 0 <= i < calls.len() - 1 ==> full_read(#[trigger] calls[i])
    &&& match calls.last() {
        Call::Read { room, filled, answer } => room == READ_SIZE && match read_progress_spec(
            READ_SIZE,
            answer,
        ) {
            Ok((_, more)) => !more && r is Ok,
            Err(e) => r matches Err(failure) && failure == e,
        },
        _ => false,
    }
}

/// The bytes that the reads among `calls` have placed, in order.
pub open spec fn delivered_by<E>(calls: Seq<Call<E>>) -> Seq<u8>
    decreases calls.len(),
{
    if calls.len() == 0 {
        Seq::empty()
    } else {
        delivered_by(calls.drop_last()) + match calls.last() {
            Call::Read { room, filled, answer } => placed(filled, answer),
            _ => Seq::empty(),
        }
    }
}

/// How many bytes wait in the buffer after `count` bytes were written to a
/// writer that held `held`: all of them where they fit; else what is left
/// over after each full buffer was flushed at the moment one more byte came.
pub open spec fn buffered_after(held: nat, count: nat) -> nat {
    if held + count <= BUF_SIZE {
        held + count
    } else {
        ((held + count - 1) % (BUF_SIZE as int) + 1) as nat
    }
}

/// What a flush does after one transport write: the position up to which the
/// buffer has been sent, or the error that ends the flush.
pub open spec fn flush_progress_spec<E>(
    written: usize,
    end: usize,
    outcome: Result<usize, E>,
) -> Result<usize, HttpError<E>> {
    match outcome {
        Ok(n) => if 0 < n <= end - written {
            Ok((written + n) as usize)
        } else {
            Err(HttpError::Device)
        },
        Err(e) => Err(HttpError::Transport(e)),
    }
}

/// Decides how a flush goes on after one transport write.
///
/// The buffer holds `end` bytes of which `written` had been taken; `outcome`
/// is what the transport returned when offered the remaining ones. A count of
/// zero means that the stream is closed. A count above what was offered
/// cannot come from a working transport and is reported in the same way.
pub fn flush_progress<E>(written: usize, end: usize, outcome: Result<usize, E>) -> (r: Result<
    usize,
    HttpError<E>,
>)
    requires
        written < end,
    ensures
        r == flush_progress_spec(written, end, outcome),
{
    match outcome {
        Ok(n) => {
            if n == 0 || n > end - written {
                Err(HttpError::Device)
            } else {
                Ok(written + n)
            }
        },
        Err(e) => Err(HttpError::Transport(e)),
    }
}

/// What reading to the end does after one transport read: how many bytes of
/// the chunk to keep and whether to read again, or the error that ends it.
pub open spec fn read_progress_spec<E>(room: usize, outcome: Result<usize, E>) -> Result<
    (usize, bool),
    HttpError<E>,
> {
    match outcome {
        Ok(n) => if n <= room {
            Ok((n, n == room))
        } else {
            Err(HttpError::Device)
        },
        Err(e) => Err(HttpError::Transport(e)),
    }
}

/// Decides how reading to the end goes on after one transport read.
///
/// The transport was given `room` bytes to fill and returned `outcome`. A
/// read that fills less than it was given ends the data. A count above
/// `room` cannot come from a working transport and is a device error.
pub fn read_progress<E>(room: usize, outcome: Result<usize, E>) -> (r: Result<
    (usize, bool),
    HttpError<E>,
>)
    ensures
        r == read_progress_spec(room, outcome),
{
    match outcome {
        Ok(n) => {
            if n > room {
                Err(HttpError::Device)
            } else {
                Ok((n, n == room))
            }
        },
        Err(e) => Err(HttpError::Transport(e)),
    }
}

/// Collects small writes in a buffer of `BUF_SIZE` bytes and hands them to
/// the transport when the buffer is full or a flush is asked for. Reads go
/// to the transport directly.
///
/// The writer keeps a record of every call that it makes of the transport,
/// in the order of the calls: `calls`. What the transport has taken
/// (`sent`), how often it was asked to write (`writes`) and what it has
/// delivered (`delivered`) are kept beside it.
pub struct BufWriter<W: Transport> {
    inner: W,
    buf: [u8; BUF_SIZE],
    next_write_pos: usize,
    sent: Ghost<Seq<u8>>,
    writes: Ghost<nat>,
    delivered: Ghost<Seq<u8>>,
    calls: Ghost<Seq<Call<W::Error>>>,
}

impl<W: Transport> View for BufWriter<W> {
    type V = Outflow;

    closed spec fn view(&self) -> Outflow {
        Outflow {
            sent: self.sent@,
            buffered: self.buf@.subrange(0, self.next_write_pos as int),
            writes: self.writes@,
        }
    }
}

impl<W: Transport> BufWriter<W> {
    /// The cursor is within the buffer, and no transport write has taken
    /// more than the buffer can hold.
    pub closed spec fn wf(self) -> bool {
        &&& self.next_write_pos <= BUF_SIZE
        &&& self.sent@.len() <= self.writes@ * BUF_SIZE
    }

    /// The transport that the writer owns.
    pub closed spec fn transport(self) -> W {
        self.inner
    }

    /// Every call of the transport that the writer has made since it was
    /// made, reads and writes, in the order of the calls.
    pub closed spec fn calls(self) -> Seq<Call<W::Error>> {
        self.calls@
    }

    /// The bytes that the transport has placed in the buffers it was given
    /// to read into, in the order it placed them, since the writer was made.
    pub closed spec fn delivered(self) -> Seq<u8> {
        self.delivered@
    }

    /// The calls that the writer has made since it was `before`.
    pub open spec fn added_since(self, before: Self) -> Seq<Call<W::Error>> {
        self.calls().skip(before.calls().len() as int)
    }

    /// `self` is what became of the writer `before` in an operation that
    /// was to send the first `upto` bytes of `s` and ended with `r`: the
    /// calls it made are those that `sending_ends` allows, all writes, each
    /// counted; the transport has taken `sent_when` bytes more.
    pub open spec fn sent_since<T>(
        self,
        before: Self,
        s: Seq<u8>,
        upto: nat,
        r: Result<T, HttpError<W::Error>>,
    ) -> bool {
        &&& before.calls().is_prefix_of(self.calls())
        &&& self.delivered() == before.delivered()
        &&& self@.writes == before@.writes + self.added_since(before).len()
        &&& sending_ends(s, upto, self.added_since(before), r)
        &&& self@.sent.len() == before@.sent.len() + sent_when(
            s,
            upto,
            self.added_since(before),
            r,
        )
    }

    /// `self` is what became of the writer `before` while bytes of the
    /// stream `s` were written to it and all went well: the transport has
    /// taken whole buffers of `s`, by calls that `sent_pos` allows, all
    /// writes, each counted.
    pub open spec fn buffers_sent_since(self, before: Self, s: Seq<u8>) -> bool {
        let taken = self@.sent.len() - before@.sent.len();
        &&& before.calls().is_prefix_of(self.calls())
        &&& self.delivered() == before.delivered()
        &&& self@.writes == before@.writes + self.added_since(before).len()
        &&& taken >= 0
        &&& taken % (BUF_SIZE as int) == 0
        &&& sent_pos(s, taken as nat, self.added_since(before)) == Some(taken as nat)
    }

    /// A writer over `inner` with nothing buffered, nothing sent and no
    /// call made.
    pub fn new(inner: W) -> (w: Self)
        ensures
            w.wf(),
            w.transport() == inner,
            w@ == fresh(),
            w.calls() == Seq::<Call<W::Error>>::empty(),
            w.delivered() == Seq::<u8>::empty(),
    {
        let w = BufWriter {
            inner,
            buf: [0u8; BUF_SIZE],
            next_write_pos: 0,
            sent: Ghost(Seq::empty()),
            writes: Ghost(0),
            delivered: Ghost(Seq::empty()),
            calls: Ghost(Seq::empty()),
        };
        assert(w@.buffered =~= Seq::<u8>::empty());
        w
    }

    /// Hands the buffered bytes to the transport, as often as it takes.
    ///
    /// With nothing buffered the writer is left as it was and the transport
    /// is not called. Else the transport is offered what is buffered, and
    /// after every write that took a part of its offer, what is left of it,
    /// until nothing is left. The first write that fails, takes nothing or
    /// reports more than it was offered ends the flush with its error.
    ///
    /// On success the buffer is empty and the transport has taken all that
    /// was in it. On failure the buffer is as before the call, though the
    /// transport may have taken a part of it: a second flush would send
    /// that part again, so the stream is to be given up.
    pub fn flush(&mut self) -> (r: Result<(), HttpError<W::Error>>)
        requires
            old(self).wf(),
        ensures
            final(self).wf(),
            final(self)@.follows(old(self)@, Seq::empty()),
            final(self).sent_since(*old(self), old(self)@.buffered, old(self)@.buffered.len(), r),
            old(self)@.buffered.len() == 0 ==> *final(self) == *old(self),
            r is Ok ==> final(self)@.buffered == Seq::<u8>::empty() && final(self)@.sent == old(
                self,
            )@.stream(),
            r is Err ==> final(self)@.buffered == old(self)@.buffered,
    {
        let ghost s = self@.buffered;
        let ghost start = self.calls@.len() as int;
        let mut written: usize = 0;
        proof {
            assert(self.calls@.skip(start) =~= Seq::<Call<W::Error>>::empty());
            assert(self.calls@ =~= self.calls@.subrange(0, start));
        }
        while written < self.next_write_pos
            invariant
                written <= self.next_write_pos <= BUF_SIZE,
                self.buf == old(self).buf,
                self.next_write_pos == old(self).next_write_pos,
                s == old(self)@.buffered,
                start == old(self).calls@.len(),
                self.sent@ == old(self).sent@ + self.buf@.subrange(0, written as int),
                self.sent@.len() <= self.writes@ * BUF_SIZE,
                self.delivered == old(self).delivered,
                written == 0 ==> *self == *old(self),
                old(self).calls@.is_prefix_of(self.calls@),
                self.writes@ == old(self).writes@ + self.calls@.len() - start,
                sent_pos(s, self.next_write_pos as nat, self.calls@.skip(start)) == Some(
                    written as nat,
                ),
            decreases self.next_write_pos - written,
        {
            let ghost end = self.next_write_pos as nat;
            let ghost before = self.calls@.skip(start);
            let outcome = self.inner.write(
                slice_subrange(self.buf.as_slice(), written, self.next_write_pos),
            );
            let ghost offered = self.buf@.subrange(written as int, end as int);
            let ghost call = Call::Write { offered, answer: outcome };
            proof {
                assert(self.sent@.len() <= (self.writes@ + 1) * BUF_SIZE) by (nonlinear_arith)
                    requires
                        self.sent@.len() <= self.writes@ * BUF_SIZE,
                ;
                assert(offered =~= offer_at(s, end, written as nat)) by {
                    assert(written as nat / (BUF_SIZE as nat) == 0);
                }
                let after = self.calls@.push(call);
                assert(after.skip(start) =~= before.push(call));
                assert(before.push(call).drop_last() =~= before);
                assert(old(self).calls@ =~= after.subrange(0, start));
            }
            self.calls = Ghost(self.calls@.push(call));
            self.writes = Ghost((self.writes@ + 1) as nat);
            match flush_progress(written, self.next_write_pos, outcome) {
                Ok(next) => {
                    proof {
                        assert(self.buf@.subrange(0, next as int) =~= self.buf@.subrange(
                            0,
                            written as int,
                        ) + self.buf@.subrange(written as int, next as int));
                        assert(self.sent@.len() + (next - written) <= self.writes@ * BUF_SIZE)
                            by (nonlinear_arith)
                            requires
                                self.sent@.len() <= (self.writes@ - 1) * BUF_SIZE,
                                next - written <= BUF_SIZE,
                        ;
                    }
                    self.sent = Ghost(
                        self.sent@ + self.buf@.subrange(written as int, next as int),
                    );
                    written = next;
                    assert(self.sent@ =~= old(self).sent@ + self.buf@.subrange(
                        0,
                        written as int,
                    ));
                },
                Err(e) => {
                    proof {
                        let all = old(self)@.stream() + Seq::<u8>::empty();
                        assert(old(self).sent@ =~= self.sent@.subrange(
                            0,
                            old(self).sent@.len() as int,
                        ));
                        assert(self.sent@ =~= all.subrange(0, self.sent@.len() as int));
                    }
                    return Err(e);
                },
            }
        }
        proof {
            let all = old(self)@.stream() + Seq::<u8>::empty();
            assert(old(self).sent@ =~= self.sent@.subrange(0, old(self).sent@.len() as int));
            assert(self.sent@ =~= all.subrange(0, self.sent@.len() as int));
            assert(self.sent@ =~= old(self)@.stream());
        }
        self.next_write_pos = 0;
        assert(self@.buffered =~= Seq::<u8>::empty());
        Ok(())
    }

    /// Copies bytes of `bytes`, from position `from` on, into the free part
    /// of the buffer: as many as are left, or as many as fit.
    fn fill(&mut self, bytes: &[u8], from: usize) -> (count: usize)
        requires
            old(self).wf(),
            from <= bytes@.len(),
        ensures
            final(self).wf(),
            count == if bytes@.len() - from <= BUF_SIZE - old(self)@.buffered.len() {
                bytes@.len() - from
            } else {
                BUF_SIZE - old(self)@.buffered.len()
            },
            final(self)@.buffered == old(self)@.buffered + bytes@.subrange(
                from as int,
                from + count,
            ),
            final(self)@.sent == old(self)@.sent,
            final(self)@.writes == old(self)@.writes,
            final(self).transport() == old(self).transport(),
            final(self).calls() == old(self).calls(),
            final(self).delivered() == old(self).delivered(),
    {
        let available: usize = BUF_SIZE - self.next_write_pos;
        let yet_to_write: usize = bytes.len() - from;
        let count: usize = if yet_to_write <= available {
            yet_to_write
        } else {
            available
        };
        let start: usize = self.next_write_pos;
        let mut i: usize = 0;
        while i < count
            invariant
                i <= count,
                start + count <= BUF_SIZE,
                from + count <= bytes@.len() <= usize::MAX,
                self.next_write_pos == start,
                self.inner == old(self).inner,
                self.sent == old(self).sent,
                self.writes == old(self).writes,
                self.calls == old(self).calls,
                self.delivered == old(self).delivered,
                forall|j: int| 0 <= j < start ==> #[trigger] self.buf@[j] == old(self).buf@[j],
                forall|j: int|
                    start <= j < start + i ==> #[trigger] self.buf@[j] == bytes@[j - start + from],
            decreases count - i,
        {
            self.buf[start + i] = bytes[from + i];
            i += 1;
        }
        self.next_write_pos = start + count;
        assert(self@.buffered =~= old(self)@.buffered + bytes@.subrange(
            from as int,
            from + count,
        ));
        count
    }

    /// `self` is what became of the writer `entry` in a write of `bytes`
    /// when `count` of them had been placed and all had gone well.
    pub open spec fn placed_since(self, entry: Self, bytes: Seq<u8>, count: int) -> bool {
        &&& self@.holds_all(entry@, bytes.take(count))
        &&& self@.buffered.len() == buffered_after(entry@.buffered.len(), count as nat)
        &&& self.buffers_sent_since(entry, entry@.buffered + bytes)
        &&& entry@.buffered.len() + bytes.len() <= BUF_SIZE ==> {
            &&& self@.sent == entry@.sent
            &&& self@.writes == entry@.writes
            &&& self.transport() == entry.transport()
            &&& self.calls() == entry.calls()
        }
    }

    /// `self` is what became of the writer `entry` in a write of `bytes`
    /// that failed with `r`: the flush of a full buffer failed, and the
    /// buffer holds what that flush was to send.
    pub open spec fn failed_since<T>(
        self,
        entry: Self,
        bytes: Seq<u8>,
        r: Result<T, HttpError<W::Error>>,
    ) -> bool {
        let s = entry@.buffered + bytes;
        let taken = (self@.sent.len() - entry@.sent.len()) as nat;
        let full = (taken / (BUF_SIZE as nat)) * BUF_SIZE;
        &&& r is Err
        &&& self@.follows(entry@, bytes)
        &&& self.sent_since(entry, s, flushed_part(s.len()), r)
        &&& self@.buffered == s.subrange(full as int, full + BUF_SIZE)
        &&& entry@.buffered.len() + bytes.len() > BUF_SIZE
    }

    /// One step of a write: flushes the buffer where it is full, and places
    /// bytes of `bytes`, from position `from` on, as many as are left or as
    /// many as fit.
    fn place(&mut self, bytes: &[u8], from: usize, Ghost(entry): Ghost<Self>) -> (r: Result<
        usize,
        HttpError<W::Error>,
    >)
        requires
            old(self).wf(),
            from < bytes@.len(),
            old(self).placed_since(entry, bytes@, from as int),
        ensures
            final(self).wf(),
            match r {
                Ok(count) => {
                    &&& 1 <= count
                    &&& from + count <= bytes@.len()
                    &&& final(self).placed_since(entry, bytes@, from + count)
                },
                Err(_) => final(self).failed_since(entry, bytes@, r),
            },
    {
        let ghost placed = bytes@.take(from as int);
        let ghost before = *self;
        if self.next_write_pos == BUF_SIZE {
            let flushed = self.flush();
            proof {
                assert(placed + Seq::<u8>::empty() =~= placed);
                lemma_follows_chain(entry@, before@, self@, placed, Seq::empty());
                lemma_flush_in_write(entry, before, *self, bytes@, from as int, flushed);
            }
            match flushed {
                Ok(()) => {
                    assert(self@.stream() =~= before@.stream() + Seq::<u8>::empty());
                },
                Err(e) => {
                    proof {
                        lemma_follows_more(entry@, self@, placed, bytes@);
                    }
                    return Err(e);
                },
            }
        }
        let ghost ready = *self;
        let count = self.fill(bytes, from);
        proof {
            let piece = bytes@.subrange(from as int, from + count);
            assert(bytes@.take(from + count) =~= placed + piece);
            assert(self@.stream() =~= ready@.stream() + piece);
            assert(ready@.sent =~= (ready@.stream() + piece).subrange(
                0,
                ready@.sent.len() as int,
            ));
            lemma_follows_chain(entry@, ready@, self@, placed, piece);
            assert(self.added_since(entry) == ready.added_since(entry));
        }
        Ok(count)
    }

    /// Places all of `bytes` in the buffer, flushing whenever the buffer is
    /// full and bytes are still to be placed.
    ///
    /// Bytes that fit beside what is buffered are placed without a call to
    /// the transport. Else the transport is offered full buffers only, as
    /// `flush` offers them, one buffer-full of what was buffered and then
    /// `bytes` after the other. The count returned is never short: it is
    /// the length of `bytes`, or the call fails with the error of the flush
    /// that failed, and the buffer holds what that flush was to send.
    pub fn write(&mut self, bytes: &[u8]) -> (r: Result<usize, HttpError<W::Error>>)
        requires
            old(self).wf(),
        ensures
            final(self).wf(),
            final(self)@.follows(old(self)@, bytes@),
            r is Ok ==> r == Ok::<usize, HttpError<W::Error>>(bytes@.len() as usize),
            r is Ok ==> final(self)@.holds_all(old(self)@, bytes@),
            ({
                let s = old(self)@.buffered + bytes@;
                let taken = (final(self)@.sent.len() - old(self)@.sent.len()) as nat;
                let full = (taken / (BUF_SIZE as nat)) * BUF_SIZE;
                &&& final(self).sent_since(*old(self), s, flushed_part(s.len()), r)
                &&& r is Ok ==> final(self)@.buffered == s.skip(flushed_part(s.len()) as int)
                &&& r is Err ==> final(self)@.buffered == s.subrange(full as int, full + BUF_SIZE)
            }),
            old(self)@.buffered.len() + bytes@.len() <= BUF_SIZE ==> {
                &&& r is Ok
                &&& final(self)@.sent == old(self)@.sent
                &&& final(self)@.writes == old(self)@.writes
                &&& final(self).transport() == old(self).transport()
                &&& final(self).calls() == old(self).calls()
            },
            r is Ok ==> final(self)@.buffered.len() == buffered_after(
                old(self)@.buffered.len(),
                bytes@.len(),
            ),
    {
        let mut next_read_pos: usize = 0;
        proof {
            lemma_follows_start(self@, bytes@);
            assert(self.added_since(*self) =~= Seq::<Call<W::Error>>::empty());
            assert(self.calls@ =~= self.calls@.subrange(0, self.calls@.len() as int));
        }
        while next_read_pos < bytes.len()
            invariant
                self.wf(),
                next_read_pos <= bytes@.len(),
                self.placed_since(*old(self), bytes@, next_read_pos as int),
            decreases bytes@.len() - next_read_pos,
        {
            match self.place(bytes, next_read_pos, Ghost(*old(self))) {
                Ok(count) => {
                    next_read_pos += count;
                },
                Err(e) => {
                    return Err(e);
                },
            }
        }
        proof {
            let s = old(self)@.buffered + bytes@;
            assert(bytes@.take(next_read_pos as int) =~= bytes@);
            assert(self@.stream().len() == old(self)@.stream().len() + bytes@.len());
            lemma_buffer_in_stream(old(self)@, self@, bytes@, next_read_pos as int);
            assert(self@.buffered =~= s.skip(flushed_part(s.len()) as int));
        }
        Ok(bytes.len())
    }

    /// Reads from the transport into `buf`, with one call. The write buffer
    /// is neither looked at nor flushed: flush before reading.
    pub fn read(&mut self, buf: &mut [u8]) -> (r: Result<usize, W::Error>)
        requires
            old(self).wf(),
        ensures
            final(self).wf(),
            final(self)@ == old(self)@,
            final(self).calls() == old(self).calls().push(
                Call::Read { room: old(buf)@.len(), filled: final(buf)@, answer: r },
            ),
            final(self).delivered() == old(self).delivered() + placed(final(buf)@, r),
    {
        let ghost room = buf@.len();
        let outcome = self.inner.read(buf);
        self.calls = Ghost(
            self.calls@.push(Call::Read { room, filled: buf@, answer: outcome }),
        );
        self.delivered = Ghost(self.delivered@ + placed(buf@, outcome));
        outcome
    }

    /// Reads from the transport, `READ_SIZE` bytes at a time, until a read
    /// fills less than it was given room for, and appends what was read to
    /// `out`. The first read that fails or reports more than its room ends
    /// the reading with its error.
    ///
    /// Returns how many bytes were appended. On failure `out` keeps what had
    /// been read until then. Nothing is written.
    pub fn read_to_end(&mut self, out: &mut Vec<u8>) -> (r: Result<usize, HttpError<W::Error>>)
        requires
            old(self).wf(),
        ensures
            final(self).wf(),
            final(self)@ == old(self)@,
            old(self).calls().is_prefix_of(final(self).calls()),
            reading_ends(final(self).added_since(*old(self)), r),
            final(out)@ == old(out)@ + delivered_by(final(self).added_since(*old(self))),
            final(self).delivered() == old(self).delivered() + delivered_by(
                final(self).added_since(*old(self)),
            ),
            r matches Ok(count) ==> final(out)@.len() == old(out)@.len() + count,
    {
        let start_len: usize = out.len();
        let ghost start = self.calls@.len() as int;
        let mut chunk = [0u8; READ_SIZE];
        let mut more: bool = true;
        proof {
            assert(self.calls@.skip(start) =~= Seq::<Call<W::Error>>::empty());
            assert(self.calls@ =~= self.calls@.subrange(0, start));
            assert(out@ =~= old(out)@ + delivered_by(self.calls@.skip(start)));
            assert(self.delivered@ =~= old(self).delivered@ + delivered_by(
                self.calls@.skip(start),
            ));
        }
        while more
            invariant
                self.wf(),
                self@ == old(self)@,
                start == old(self).calls@.len(),
                start_len == old(out)@.len(),
                out@.len() <= usize::MAX,
                old(self).calls@.is_prefix_of(self.calls@),
                out@ == old(out)@ + delivered_by(self.calls@.skip(start)),
                self.delivered@ == old(self).delivered@ + delivered_by(self.calls@.skip(start)),
                more ==> forall|i: int|
                    0 <= i < self.calls@.skip(start).len() ==> full_read(
                        #[trigger] self.calls@.skip(start)[i],
                    ),
                !more ==> reading_ends(
                    self.calls@.skip(start),
                    Ok::<usize, HttpError<W::Error>>(0),
                ),
            decreases usize::MAX - out@.len() + if more { 1int } else { 0int },
        {
            let ghost before = self.calls@.skip(start);
            let outcome = self.inner.read(&mut chunk);
            let ghost call = Call::Read { room: READ_SIZE as nat, filled: chunk@, answer: outcome };
            let ghost had = out@;
            proof {
                let after = self.calls@.push(call);
                assert(after.skip(start) =~= before.push(call));
                assert(before.push(call).drop_last() =~= before);
                assert(old(self).calls@ =~= after.subrange(0, start));
                assert forall|i: int| 0 <= i < before.push(call).len() - 1 implies full_read(
                    #[trigger] before.push(call)[i],
                ) by {
                    assert(before.push(call)[i] == before[i]);
                }
            }
            self.calls = Ghost(self.calls@.push(call));
            self.delivered = Ghost(self.delivered@ + placed(chunk@, outcome));
            match read_progress(READ_SIZE, outcome) {
                Ok((count, again)) => {
                    out.extend_from_slice(slice_subrange(chunk.as_slice(), 0, count));
                    proof {
                        assert(out@.len() == out.len());
                        assert(out@ =~= had + placed(chunk@, outcome));
                        assert(out@ =~= old(out)@ + delivered_by(self.calls@.skip(start)));
                        assert(self.delivered@ =~= old(self).delivered@ + delivered_by(
                            self.calls@.skip(start),
                        ));
                        if again {
                            assert forall|i: int|
                                0 <= i < self.calls@.skip(start).len() implies full_read(
                                #[trigger] self.calls@.skip(start)[i],
                            ) by {
                                if i < before.len() {
                                    assert(self.calls@.skip(start)[i] == before[i]);
                                }
                            }
                        }
                    }
                    more = again;
                },
                Err(e) => {
                    proof {
                        assert(placed(chunk@, outcome) =~= Seq::<u8>::empty());
                        assert(out@ =~= old(out)@ + delivered_by(self.calls@.skip(start)));
                        assert(self.delivered@ =~= old(self).delivered@ + delivered_by(
                            self.calls@.skip(start),
                        ));
                    }
                    return Err(e);
                },
            }
        }
        Ok(out.len() - start_len)
    }
}

/// What waits in the buffer while `bytes` are written lies in the stream of
/// what was buffered and `bytes`, from where the transport has come to.
pub proof fn lemma_buffer_in_stream(pre: Outflow, cur: Outflow, bytes: Seq<u8>, placed: int)
    requires
        0 <= placed <= bytes.len(),
        cur.holds_all(pre, bytes.take(placed)),
    ensures
        ({
            let m = cur.sent.len() - pre.sent.len();
            &&& 0 <= m
            &&& m + cur.buffered.len() == pre.buffered.len() + placed
            &&& cur.buffered == (pre.buffered + bytes).subrange(m, m + cur.buffered.len())
        }),
{
    let m = cur.sent.len() - pre.sent.len();
    let s = pre.buffered + bytes;
    let whole = pre.stream() + bytes.take(placed);
    assert(cur.stream().len() == whole.len());
    assert forall|i: int| 0 <= i < cur.buffered.len() implies cur.buffered[i] == s[m + i] by {
        assert(cur.stream()[cur.sent.len() + i] == cur.buffered[i]);
        assert(whole[cur.sent.len() + i] == s[m + i]);
    }
    assert(cur.buffered =~= s.subrange(m, m + cur.buffered.len()));
}

/// An offer in a stream `t` that lies in `s` from `m` on, `m` a whole
/// number of buffers, is the offer at the same place in `s`.
pub proof fn lemma_offer_lifts(s: Seq<u8>, m: nat, t: Seq<u8>, part: nat, upto: nat, pos: nat)
    requires
        m % (BUF_SIZE as nat) == 0,
        pos < part <= t.len(),
        m + part <= upto,
        m + part <= s.len(),
        t.take(part as int) == s.subrange(m as int, (m + part) as int),
        part % (BUF_SIZE as nat) == 0 || upto == m + part,
    ensures
        offer_at(t, part, pos) == offer_at(s, upto, m + pos),
{
    let b = BUF_SIZE as nat;
    let end = (pos / b + 1) * b;
    assert((m + pos) / b == m / b + pos / b);
    assert(((m + pos) / b + 1) * b == m + end);
    let last = if end <= part {
        end
    } else {
        part
    };
    let here = t.subrange(pos as int, last as int);
    let there = s.subrange((m + pos) as int, (m + last) as int);
    assert forall|k: int| 0 <= k < last - pos implies here[k] == there[k] by {
        assert(t.take(part as int)[pos + k] == t[pos + k]);
        assert(s.subrange(m as int, (m + part) as int)[pos + k] == s[m + pos + k]);
    }
    assert(here =~= there);
}

/// Calls that have sent a whole number of buffers of `s` are the same
/// calls whatever more of `s` is to be sent.
pub proof fn lemma_sent_pos_further<E>(
    s: Seq<u8>,
    m: nat,
    upto: nat,
    calls: Seq<Call<E>>,
    pos: nat,
)
    requires
        m % (BUF_SIZE as nat) == 0,
        m <= upto,
        sent_pos(s, m, calls) == Some(pos),
    ensures
        sent_pos(s, upto, calls) == Some(pos),
    decreases calls.len(),
{
    if calls.len() > 0 {
        let before = sent_pos(s, m, calls.drop_last());
        assert(before is Some);
        let at = before.unwrap();
        lemma_sent_pos_further(s, m, upto, calls.drop_last(), at);
        let b = BUF_SIZE as nat;
        assert((at / b + 1) * b <= m);
        assert(offer_at(s, m, at) == offer_at(s, upto, at));
    }
}

/// Calls that send a part of `s` which begins after a whole number of
/// buffers, added to calls that have sent those buffers, send `s` as far as
/// the part goes.
pub proof fn lemma_sent_pos_lifts<E>(
    s: Seq<u8>,
    m: nat,
    a: Seq<Call<E>>,
    t: Seq<u8>,
    part: nat,
    b: Seq<Call<E>>,
    upto: nat,
    pos: nat,
)
    requires
        m % (BUF_SIZE as nat) == 0,
        sent_pos(s, m, a) == Some(m),
        part <= t.len(),
        m + part <= upto,
        m + part <= s.len(),
        t.take(part as int) == s.subrange(m as int, (m + part) as int),
        part % (BUF_SIZE as nat) == 0 || upto == m + part,
        sent_pos(t, part, b) == Some(pos),
    ensures
        sent_pos(s, upto, a + b) == Some(m + pos),
    decreases b.len(),
{
    if b.len() == 0 {
        assert(a + b =~= a);
        lemma_sent_pos_further(s, m, upto, a, m);
    } else {
        let before = sent_pos(t, part, b.drop_last());
        assert(before is Some);
        let at = before.unwrap();
        lemma_sent_pos_lifts(s, m, a, t, part, b.drop_last(), upto, at);
        assert((a + b).drop_last() =~= a + b.drop_last());
        assert((a + b).last() == b.last());
        lemma_offer_lifts(s, m, t, part, upto, at);
    }
}

/// The same of how sending ends: where the part was sent, `s` is sent as
/// far as the part goes; where sending the part failed, sending `s` failed
/// in the same way.
pub proof fn lemma_sending_lifts<T, E>(
    s: Seq<u8>,
    m: nat,
    a: Seq<Call<E>>,
    t: Seq<u8>,
    part: nat,
    b: Seq<Call<E>>,
    r: Result<T, HttpError<E>>,
    upto: nat,
)
    requires
        m % (BUF_SIZE as nat) == 0,
        sent_pos(s, m, a) == Some(m),
        part <= t.len(),
        m + part <= upto,
        m + part <= s.len(),
        t.take(part as int) == s.subrange(m as int, (m + part) as int),
        part % (BUF_SIZE as nat) == 0 || upto == m + part,
        sending_ends(t, part, b, r),
    ensures
        r is Ok ==> sent_pos(s, m + part, a + b) == Some(m + part),
        r is Ok ==> sent_pos(s, upto, a + b) == Some(m + part),
        r is Err ==> sending_ends(s, upto, a + b, r),
        sent_when(s, upto, a + b, r) == if r is Ok {
            upto
        } else {
            m + sent_when(t, part, b, r)
        },
{
    if r is Ok {
        lemma_sent_pos_lifts(s, m, a, t, part, b, upto, part);
        lemma_sent_pos_lifts(s, m, a, t, part, b, m + part, part);
    } else {
        let before = sent_pos(t, part, b.drop_last());
        assert(before is Some);
        let at = before.unwrap();
        lemma_sent_pos_lifts(s, m, a, t, part, b.drop_last(), upto, at);
        assert((a + b).drop_last() =~= a + b.drop_last());
        assert((a + b).last() == b.last());
        lemma_offer_lifts(s, m, t, part, upto, at);
    }
}

/// Before anything of `bytes` is written, a writer is where it was.
pub proof fn lemma_follows_start(pre: Outflow, bytes: Seq<u8>)
    ensures
        pre.holds_all(pre, Seq::empty()),
        pre.follows(pre, bytes),
{
    assert(pre.stream() + Seq::<u8>::empty() =~= pre.stream());
    assert(pre.sent =~= (pre.stream() + bytes).subrange(0, pre.sent.len() as int));
    assert(pre.sent =~= pre.stream().subrange(0, pre.sent.len() as int));
}

/// A state reached while `part` was written is also one reached while
/// `whole` is written, when `whole` begins with `part`.
pub proof fn lemma_follows_more(pre: Outflow, post: Outflow, part: Seq<u8>, whole: Seq<u8>)
    requires
        post.follows(pre, part),
        part.is_prefix_of(whole),
    ensures
        post.follows(pre, whole),
{
    let short = pre.stream() + part;
    let long = pre.stream() + whole;
    assert(short =~= long.subrange(0, short.len() as int));
    assert(post.sent =~= long.subrange(0, post.sent.len() as int));
}

/// Writing `first` in full and then getting somewhere with `second` is
/// getting somewhere with `first + second`.
pub proof fn lemma_follows_chain(
    pre: Outflow,
    mid: Outflow,
    post: Outflow,
    first: Seq<u8>,
    second: Seq<u8>,
)
    requires
        mid.holds_all(pre, first),
        post.follows(mid, second),
    ensures
        post.follows(pre, first + second),
        post.stream() == mid.stream() + second ==> post.holds_all(pre, first + second),
{
    assert(pre.stream() + (first + second) =~= mid.stream() + second);
    assert(pre.sent =~= post.sent.subrange(0, pre.sent.len() as int));
}

/// The flush of a full buffer in the course of a write, as a step of the
/// write: `entry`, `before` and `after` are the writer when the write
/// began, before the flush and after it, `placed` bytes of `bytes` had been
/// placed.
pub proof fn lemma_flush_in_write<W: Transport>(
    entry: BufWriter<W>,
    before: BufWriter<W>,
    after: BufWriter<W>,
    bytes: Seq<u8>,
    placed: int,
    flushed: Result<(), HttpError<W::Error>>,
)
    requires
        0 <= placed < bytes.len(),
        before@.holds_all(entry@, bytes.take(placed)),
        before@.buffered.len() == BUF_SIZE,
        before.buffers_sent_since(entry, entry@.buffered + bytes),
        after.sent_since(before, before@.buffered, BUF_SIZE as nat, flushed),
    ensures
        ({
            let s = entry@.buffered + bytes;
            let at = before@.sent.len() - entry@.sent.len();
            let taken = (after@.sent.len() - entry@.sent.len()) as nat;
            &&& flushed is Ok ==> after.buffers_sent_since(entry, s)
            &&& flushed is Err ==> after.sent_since(entry, s, flushed_part(s.len()), flushed)
            &&& flushed is Err ==> (taken / (BUF_SIZE as nat)) * BUF_SIZE == at
            &&& before@.buffered == s.subrange(at, at + BUF_SIZE)
        }),
{
    let s = entry@.buffered + bytes;
    let t = before@.buffered;
    let m = before@.sent.len() - entry@.sent.len();
    lemma_buffer_in_stream(entry@, before@, bytes, placed);
    assert(t.take(BUF_SIZE as int) =~= t);
    assert(m + BUF_SIZE <= flushed_part(s.len()));
    let upto = flushed_part(s.len());
    lemma_sent_since_joins(entry, before, after, s, t, BUF_SIZE as nat, upto, flushed);
    if flushed is Err {
        let left = sent_when(t, BUF_SIZE as nat, after.added_since(before), flushed);
        assert(left < BUF_SIZE);
        assert(((m + left) / (BUF_SIZE as int)) * BUF_SIZE == m);
    }
}

/// An operation that sends a part of `s`, after one that went well and
/// sent whole buffers of `s`, makes with it one operation on `s`: `entry`,
/// `before` and `after` are the writer before the first, between the two
/// and after the second, which was to send the first `part` bytes of `t`.
pub proof fn lemma_sent_since_joins<W: Transport, T>(
    entry: BufWriter<W>,
    before: BufWriter<W>,
    after: BufWriter<W>,
    s: Seq<u8>,
    t: Seq<u8>,
    part: nat,
    upto: nat,
    r: Result<T, HttpError<W::Error>>,
)
    requires
        before.buffers_sent_since(entry, s),
        after.sent_since(before, t, part, r),
        part <= t.len(),
        before@.sent.len() - entry@.sent.len() + part <= upto,
        before@.sent.len() - entry@.sent.len() + part <= s.len(),
        t.take(part as int) == s.subrange(
            before@.sent.len() - entry@.sent.len(),
            before@.sent.len() - entry@.sent.len() + part,
        ),
        part % (BUF_SIZE as nat) == 0 || upto == before@.sent.len() - entry@.sent.len() + part,
    ensures
        r is Ok && part % (BUF_SIZE as nat) == 0 ==> after.buffers_sent_since(entry, s),
        r is Ok && upto == before@.sent.len() - entry@.sent.len() + part ==> after.sent_since(
            entry,
            s,
            upto,
            r,
        ),
        r is Err ==> after.sent_since(entry, s, upto, r),
{
    let m = (before@.sent.len() - entry@.sent.len()) as nat;
    let a = before.added_since(entry);
    let b = after.added_since(before);
    assert(after.added_since(entry) =~= a + b);
    assert(entry.calls() =~= after.calls().subrange(0, entry.calls().len() as int));
    lemma_sending_lifts(s, m, a, t, part, b, r, upto);
}

/// The bytes that the writes among `calls` have taken, in the order of the
/// calls: of each offer its first bytes, as many as the count that was
/// returned, where that is between one and the length of the offer.
pub open spec fn taken_by<E>(calls: Seq<Call<E>>) -> Seq<u8>
    decreases calls.len(),
{
    if calls.len() == 0 {
        Seq::empty()
    } else {
        taken_by(calls.drop_last()) + match calls.last() {
            Call::Write { offered, answer } => match flush_progress_spec(
                0,
                offered.len() as usize,
                answer,
            ) {
                Ok(count) => offered.take(count as int),
                Err(_) => Seq::empty(),
            },
            _ => Seq::empty(),
        }
    }
}

/// What calls that send and went well have taken is the stream as far as
/// they have come: every byte once, in order.
pub proof fn lemma_taken_is_stream<E>(s: Seq<u8>, upto: nat, calls: Seq<Call<E>>)
    requires
        upto <= s.len(),
        sent_pos(s, upto, calls) is Some,
    ensures
        sent_pos(s, upto, calls).unwrap() <= upto,
        taken_by(calls) == s.take(sent_pos(s, upto, calls).unwrap() as int),
    decreases calls.len(),
{
    if calls.len() == 0 {
        assert(s.take(0) =~= Seq::<u8>::empty());
    } else {
        lemma_taken_is_stream(s, upto, calls.drop_last());
        let at = sent_pos(s, upto, calls.drop_last()).unwrap();
        let pos = sent_pos(s, upto, calls).unwrap();
        let offered = offer_at(s, upto, at);
        assert(offered.take(pos - at) =~= s.subrange(at as int, pos as int));
        assert(s.take(at as int) + s.subrange(at as int, pos as int) =~= s.take(pos as int));
    }
}

/// A write that took all that it was offered.
pub open spec fn taken_whole<E>(call: Call<E>) -> bool {
    match call {
        Call::Write { offered, answer } => answer matches Ok(count) && count == offered.len(),
        _ => false,
    }
}

/// Calls that send and went well are writes, have each taken a byte or
/// more, and have taken no more than was to be sent: they are no more than
/// the bytes they have taken.
pub proof fn lemma_sent_by_writes<E>(s: Seq<u8>, upto: nat, calls: Seq<Call<E>>)
    requires
        upto <= s.len(),
        sent_pos(s, upto, calls) is Some,
    ensures
        calls.len() <= sent_pos(s, upto, calls).unwrap() <= upto,
        forall|i: int| 0 <= i < calls.len() ==> #[trigger] calls[i] is Write,
    decreases calls.len(),
{
    if calls.len() > 0 {
        lemma_sent_by_writes(s, upto, calls.drop_last());
        assert forall|i: int| 0 <= i < calls.len() implies #[trigger] calls[i] is Write by {
            if i < calls.len() - 1 {
                assert(calls.drop_last()[i] == calls[i]);
            }
        }
    }
}

/// Where the transport takes all of every offer, it is offered one
/// buffer-full of the stream after the other, the last one as far as is to
/// be sent, and has taken them all: the calls are as many as there are
/// buffers, begun ones counted. To send `upto` bytes takes exactly
/// `least_writes(upto)` calls then.
pub proof fn lemma_whole_writes<E>(s: Seq<u8>, upto: nat, calls: Seq<Call<E>>)
    requires
        upto <= s.len(),
        sent_pos(s, upto, calls) is Some,
        forall|i: int| 0 <= i < calls.len() ==> taken_whole(#[trigger] calls[i]),
    ensures
        calls.len() >= 1 ==> (calls.len() - 1) * BUF_SIZE < upto,
        sent_pos(s, upto, calls) == Some(
            if calls.len() * BUF_SIZE <= upto {
                (calls.len() * BUF_SIZE) as nat
            } else {
                upto
            },
        ),
        forall|i: int|
            0 <= i < calls.len() ==> (#[trigger] calls[i] matches Call::Write { offered, answer }
                && offered == offer_at(s, upto, (i * BUF_SIZE) as nat)),
        sent_pos(s, upto, calls) == Some(upto) ==> calls.len() == least_writes(upto),
    decreases calls.len(),
{
    let b = BUF_SIZE as nat;
    if calls.len() > 0 {
        let n = calls.len();
        let before = calls.drop_last();
        assert forall|i: int| 0 <= i < before.len() implies taken_whole(#[trigger] before[i]) by {
            assert(before[i] == calls[i]);
        }
        lemma_whole_writes(s, upto, before);
        let pos = sent_pos(s, upto, before).unwrap();
        assert(taken_whole(calls[n - 1]));
        assert(pos == (n - 1) * b);
        assert(pos / b == n - 1);
        assert((pos / b + 1) * b == n * b);
        assert forall|i: int| 0 <= i < n implies (#[trigger] calls[i] matches Call::Write {
            offered,
            answer,
        } && offered == offer_at(s, upto, (i * BUF_SIZE) as nat)) by {
            if i < n - 1 {
                assert(before[i] == calls[i]);
            }
        }
    }
}

/// A flush that fails is not to be tried again: `failed` is the writer
/// after a flush of `before` that failed, `retried` after a second flush
/// that went well. The transport has then been given, after what it had,
/// the part of the buffer that it took in the first flush, and then the
/// whole buffer, that part once more at its start.
pub proof fn lemma_flush_after_failure(before: Outflow, failed: Outflow, retried: Outflow)
    requires
        failed.follows(before, Seq::empty()),
        failed.buffered == before.buffered,
        retried.sent == failed.stream(),
    ensures
        ({
            let part = failed.sent.skip(before.sent.len() as int);
            &&& part.is_prefix_of(before.buffered)
            &&& retried.sent == before.sent + part + before.buffered
        }),
{
    let part = failed.sent.skip(before.sent.len() as int);
    let all = before.stream() + Seq::<u8>::empty();
    assert(all =~= before.sent + before.buffered);
    assert(part =~= before.buffered.subrange(0, part.len() as int));
    assert(failed.sent =~= before.sent + part);
    assert(retried.sent =~= before.sent + part + before.buffered);
}

/// A writer that nothing was written to yet.
pub open spec fn fresh() -> Outflow {
    Outflow { sent: Seq::empty(), buffered: Seq::empty(), writes: 0 }
}

/// The least number of transport writes that can take `total` bytes: the
/// quotient by `BUF_SIZE`, rounded up.
pub open spec fn least_writes(total: nat) -> nat {
    ((total + BUF_SIZE - 1) / (BUF_SIZE as int)) as nat
}

/// No transport write takes more than `BUF_SIZE` bytes: a writer whose
/// transport has taken `n` bytes has asked it at least `least_writes(n)`
/// times. No more than `BUF_SIZE` bytes wait in the buffer.
pub proof fn lemma_transport_writes<W: Transport>(w: BufWriter<W>)
    requires
        w.wf(),
    ensures
        w@.buffered.len() <= BUF_SIZE,
        w@.sent.len() <= w@.writes * BUF_SIZE,
        w@.writes >= least_writes(w@.sent.len()),
{
    let n = w@.sent.len() as int;
    let k = w@.writes as int;
    assert(k >= (n + 1023) / 1024) by (nonlinear_arith)
        requires
            0 <= n <= k * 1024,
            0 <= k,
    ;
}

/// Writes that succeed, one after another, amount to one write of all their
/// bytes in order: `states[i + 1]` is the writer after `chunks[i]` was
/// written to it in `states[i]`.
pub proof fn lemma_writes_in_a_row(states: Seq<Outflow>, chunks: Seq<Seq<u8>>)
    requires
        states.len() == chunks.len() + 1,
        forall|i: int|
            0 <= i < chunks.len() ==> states[i + 1].holds_all(states[i], #[trigger] chunks[i]),
    ensures
        states.last().holds_all(states[0], chunks.flatten()),
    decreases chunks.len(),
{
    if chunks.len() == 0 {
        lemma_follows_start(states[0], Seq::empty());
        assert(chunks.flatten() =~= Seq::<u8>::empty());
    } else {
        let earlier = chunks.drop_last();
        let before = states.drop_last();
        assert forall|i: int| 0 <= i < earlier.len() implies before[i + 1].holds_all(
            before[i],
            #[trigger] earlier[i],
        ) by {
            assert(earlier[i] == chunks[i]);
        }
        lemma_writes_in_a_row(before, earlier);
        let last = chunks.len() - 1;
        assert(states[last + 1].holds_all(states[last], chunks[last]));
        assert(before.last() == states[last]);
        lemma_follows_chain(
            states[0],
            states[last],
            states.last(),
            earlier.flatten(),
            chunks.last(),
        );
        assert(chunks.flatten() =~= earlier.flatten() + chunks.last()) by {
            chunks.lemma_flatten_and_flatten_alt_are_equivalent();
            earlier.lemma_flatten_and_flatten_alt_are_equivalent();
        }
    }
}

/// After any writes in a row to a new writer and a flush, all of which
/// succeed, the transport has taken the bytes of all the writes in order,
/// none twice and none left out, in no fewer than `least_writes` writes:
/// `states` are the states of the writer from the new one on, `chunks` what
/// was written, and `flushed` is the writer after the flush.
pub proof fn lemma_flushed_writes_are_sent<W: Transport>(
    states: Seq<Outflow>,
    chunks: Seq<Seq<u8>>,
    flushed: BufWriter<W>,
)
    requires
        states.len() == chunks.len() + 1,
        states[0] == fresh(),
        forall|i: int|
            0 <= i < chunks.len() ==> states[i + 1].holds_all(states[i], #[trigger] chunks[i]),
        flushed.wf(),
        flushed@.buffered == Seq::<u8>::empty(),
        flushed@.sent == states.last().stream(),
    ensures
        flushed@.sent == chunks.flatten(),
        flushed@.writes >= least_writes(chunks.flatten().len()),
{
    lemma_writes_in_a_row(states, chunks);
    lemma_transport_writes(flushed);
    assert(fresh().stream() + chunks.flatten() =~= chunks.flatten());
}

} // verus!
