use vstd::prelude::*;
use vstd::string::*;
use vstd::utf8::encode_utf8;
use crate::error::HttpError;
use crate::head::{parse_head, parsed_head, within};
use crate::header::{header_views, Header, HeaderView};
use crate::response::{response_of, Response, ResponseView};
use crate::transport::Transport;
use crate::wire::{
    body_part, content_length_line, decimal_text, header_line, header_lines, request_bytes,
    request_line,
};
use crate::writer::{
    delivered_by, fresh, lemma_buffer_in_stream, lemma_follows_chain, lemma_follows_more,
    lemma_follows_start, lemma_sent_since_joins, reading_ends, sending_ends, sent_pos,
    flushed_part, BufWriter, Call, Outflow,
};

verus! {

/// How many headers a response may have.
pub const MAX_HEADERS: usize = 30;

/// What an optional body holds.
pub open spec fn body_view(body: Option<&[u8]>) -> Option<Seq<u8>> {
    match body {
        Some(bytes) => Some(bytes@),
        None => None,
    }
}

/// What an exchange gives once the request is sent and the response read:
/// `received` is the whole response buffer, of which the last `fresh` bytes
/// came in with this exchange. `None` stands for a protocol error.
pub open spec fn exchange_result(received: Seq<u8>, fresh: nat) -> Option<ResponseView> {
    match parsed_head(received, MAX_HEADERS as nat) {
        Some(head) => response_of(head, received, fresh),
        None => None,
    }
}

/// `r` is the answer that `expected` stands for: the response itself, or a
/// protocol error where there is none.
pub open spec fn answers<E>(
    r: Result<Response<'_>, HttpError<E>>,
    expected: Option<ResponseView>,
) -> bool {
    match r {
        Ok(response) => expected == Some(response@),
        Err(e) => e is Protocol && expected is None,
    }
}

/// Where all that a client has received came with one exchange, and the
/// parser has kept to `within`, there is a response exactly when the bytes
/// begin with a whole head.
pub proof fn lemma_first_exchange(received: Seq<u8>)
    requires
        parsed_head(received, MAX_HEADERS as nat) matches Some(head) ==> within(
            head,
            received,
            MAX_HEADERS as nat,
        ),
    ensures
        exchange_result(received, received.len()) is Some <==> (parsed_head(
            received,
            MAX_HEADERS as nat,
        ) matches Some(head) && head is Complete),
{
}

/// How the reading of a request ended that ended with `r`: well where `r`
/// is a response or a protocol error, else with the error of `r`.
pub open spec fn reading_result<T, E>(r: Result<T, HttpError<E>>) -> Result<(), HttpError<E>> {
    match r {
        Ok(_) => Ok(()),
        Err(e) => if e is Protocol {
            Ok(())
        } else {
            Err(e)
        },
    }
}

/// Writes `piece` to a writer that has taken `done` since it was `entry`,
/// on the way to taking `whole`.
fn put<W: Transport>(
    io: &mut BufWriter<W>,
    piece: &[u8],
    Ghost(entry): Ghost<BufWriter<W>>,
    Ghost(done): Ghost<Seq<u8>>,
    Ghost(whole): Ghost<Seq<u8>>,
) -> (r: Result<(), HttpError<W::Error>>)
    requires
        old(io).wf(),
        old(io)@.holds_all(entry@, done),
        old(io).buffers_sent_since(entry, entry@.buffered + whole),
        (done + piece@).is_prefix_of(whole),
    ensures
        final(io).wf(),
        final(io)@.follows(entry@, whole),
        r is Ok ==> final(io)@.holds_all(entry@, done + piece@),
        r is Ok ==> final(io).buffers_sent_since(entry, entry@.buffered + whole),
        r is Err ==> final(io).sent_since(
            entry,
            entry@.buffered + whole,
            (entry@.buffered + whole).len(),
            r,
        ),
        r is Err ==> final(io)@.buffered.len() > 0,
{
    let ghost before = *io;
    let outcome = io.write(piece);
    proof {
        lemma_follows_chain(entry@, before@, io@, done, piece@);
        lemma_follows_more(entry@, io@, done + piece@, whole);
        let s = entry@.buffered + whole;
        let t = before@.buffered + piece@;
        let part = flushed_part(t.len());
        let m = before@.sent.len() - entry@.sent.len();
        lemma_prefix_of_longer(done, piece@, whole);
        assert(whole.take(done.len() as int) =~= done);
        lemma_buffer_in_stream(entry@, before@, whole, done.len() as int);
        let end = (done.len() + piece@.len()) as int;
        assert(piece@ =~= whole.subrange(done.len() as int, end)) by {
            assert(done + piece@ =~= whole.subrange(0, (done + piece@).len() as int));
            assert forall|i: int| 0 <= i < piece@.len() implies piece@[i] == whole[done.len()
                + i] by {
                assert((done + piece@)[done.len() + i] == piece@[i]);
            }
        }
        assert(t =~= s.subrange(m, m + t.len()));
        assert(t.take(part as int) =~= s.subrange(m, m + part));
        lemma_sent_since_joins(entry, before, *io, s, t, part, s.len(), outcome);
    }
    match outcome {
        Ok(_) => Ok(()),
        Err(e) => Err(e),
    }
}

/// Writes one header line, under the conditions of `put`.
fn write_hdr<W: Transport>(
    io: &mut BufWriter<W>,
    name: &[u8],
    value: &[u8],
    Ghost(entry): Ghost<BufWriter<W>>,
    Ghost(done): Ghost<Seq<u8>>,
    Ghost(whole): Ghost<Seq<u8>>,
) -> (r: Result<(), HttpError<W::Error>>)
    requires
        old(io).wf(),
        old(io)@.holds_all(entry@, done),
        old(io).buffers_sent_since(entry, entry@.buffered + whole),
        (done + header_line(name@, value@)).is_prefix_of(whole),
    ensures
        final(io).wf(),
        final(io)@.follows(entry@, whole),
        r is Ok ==> final(io)@.holds_all(entry@, done + header_line(name@, value@)),
        r is Ok ==> final(io).buffers_sent_since(entry, entry@.buffered + whole),
        r is Err ==> final(io).sent_since(
            entry,
            entry@.buffered + whole,
            (entry@.buffered + whole).len(),
            r,
        ),
        r is Err ==> final(io)@.buffered.len() > 0,
{
    let ghost colon = ":".spec_bytes();
    let ghost end = "\r\n".spec_bytes();
    let ghost line = done + header_line(name@, value@);
    let ghost d1 = done + name@;
    let ghost d2 = d1 + colon;
    let ghost d3 = d2 + value@;
    proof {
        assert(d3 + end =~= line);
        lemma_prefix_of_longer(d3, end, whole);
        lemma_prefix_of_longer(d2, value@, whole);
        lemma_prefix_of_longer(d1, colon, whole);
    }
    put(io, name, Ghost(entry), Ghost(done), Ghost(whole))?;
    put(io, ":".as_bytes(), Ghost(entry), Ghost(d1), Ghost(whole))?;
    put(io, value, Ghost(entry), Ghost(d2), Ghost(whole))?;
    put(io, "\r\n".as_bytes(), Ghost(entry), Ghost(d3), Ghost(whole))?;
    Ok(())
}

/// What begins something that begins `whole` begins `whole`.
proof fn lemma_prefix_of_longer(start: Seq<u8>, more: Seq<u8>, whole: Seq<u8>)
    requires
        (start + more).is_prefix_of(whole),
    ensures
        start.is_prefix_of(whole),
{
    assert(start =~= (start + more).subrange(0, start.len() as int));
}

/// The lines of the first headers of a list begin the lines of the list.
proof fn lemma_header_lines_prefix(headers: Seq<HeaderView>, count: int)
    requires
        0 <= count <= headers.len(),
    ensures
        header_lines(headers.take(count)).is_prefix_of(header_lines(headers)),
    decreases headers.len(),
{
    if count == headers.len() {
        assert(headers.take(count) =~= headers);
    } else {
        let shorter = headers.drop_last();
        lemma_header_lines_prefix(shorter, count);
        assert(shorter.take(count) =~= headers.take(count));
        let lines = header_lines(shorter);
        let last = header_line(encode_utf8(headers.last().name), headers.last().value);
        assert(lines =~= (lines + last).subrange(0, lines.len() as int));
    }
}

/// Writes the first line of a request, under the conditions of `put`.
fn write_request_line<W: Transport>(
    io: &mut BufWriter<W>,
    method: &str,
    path: &str,
    Ghost(entry): Ghost<BufWriter<W>>,
    Ghost(whole): Ghost<Seq<u8>>,
) -> (r: Result<(), HttpError<W::Error>>)
    requires
        old(io).wf(),
        old(io)@.holds_all(entry@, Seq::empty()),
        old(io).buffers_sent_since(entry, entry@.buffered + whole),
        request_line(method@, path@).is_prefix_of(whole),
    ensures
        final(io).wf(),
        final(io)@.follows(entry@, whole),
        r is Ok ==> final(io)@.holds_all(entry@, request_line(method@, path@)),
        r is Ok ==> final(io).buffers_sent_since(entry, entry@.buffered + whole),
        r is Err ==> final(io).sent_since(
            entry,
            entry@.buffered + whole,
            (entry@.buffered + whole).len(),
            r,
        ),
        r is Err ==> final(io)@.buffered.len() > 0,
{
    let ghost space = " ".spec_bytes();
    let ghost version = "HTTP/1.1\r\n".spec_bytes();
    let ghost d1 = encode_utf8(method@);
    let ghost d2 = d1 + space;
    let ghost d3 = d2 + encode_utf8(path@);
    let ghost d4 = d3 + space;
    proof {
        assert(request_line(method@, path@) =~= d4 + version);
        lemma_prefix_of_longer(d4, version, whole);
        lemma_prefix_of_longer(d3, space, whole);
        lemma_prefix_of_longer(d2, encode_utf8(path@), whole);
        lemma_prefix_of_longer(d1, space, whole);
        assert(Seq::<u8>::empty() + d1 =~= d1);
    }
    put(io, method.as_bytes(), Ghost(entry), Ghost(Seq::empty()), Ghost(whole))?;
    put(io, " ".as_bytes(), Ghost(entry), Ghost(d1), Ghost(whole))?;
    put(io, path.as_bytes(), Ghost(entry), Ghost(d2), Ghost(whole))?;
    put(io, " ".as_bytes(), Ghost(entry), Ghost(d3), Ghost(whole))?;
    put(io, "HTTP/1.1\r\n".as_bytes(), Ghost(entry), Ghost(d4), Ghost(whole))?;
    Ok(())
}

/// Writes what ends a request: the `Content-Length` header, the blank
/// line, and for a request with a body one more blank line and the body.
/// Under the conditions of `put`.
fn write_tail<W: Transport>(
    io: &mut BufWriter<W>,
    body: Option<&[u8]>,
    Ghost(entry): Ghost<BufWriter<W>>,
    Ghost(done): Ghost<Seq<u8>>,
    Ghost(whole): Ghost<Seq<u8>>,
) -> (r: Result<(), HttpError<W::Error>>)
    requires
        old(io).wf(),
        old(io)@.holds_all(entry@, done),
        old(io).buffers_sent_since(entry, entry@.buffered + whole),
        whole == done + content_length_line(body_view(body)) + "\r\n".spec_bytes() + body_part(
            body_view(body),
        ),
    ensures
        final(io).wf(),
        final(io)@.follows(entry@, whole),
        r is Ok ==> final(io)@.holds_all(entry@, whole),
        r is Ok ==> final(io).buffers_sent_since(entry, entry@.buffered + whole),
        r is Err ==> final(io).sent_since(
            entry,
            entry@.buffered + whole,
            (entry@.buffered + whole).len(),
            r,
        ),
        r is Err ==> final(io)@.buffered.len() > 0,
{
    let length: usize = match body {
        Some(bytes) => bytes.len(),
        None => 0,
    };
    let digits = decimal_text(length);
    let ghost end = "\r\n".spec_bytes();
    let ghost d6 = done + content_length_line(body_view(body));
    let ghost d7 = d6 + end;
    proof {
        assert(whole =~= d7 + body_part(body_view(body)));
        assert(d7 =~= whole.subrange(0, d7.len() as int));
        lemma_prefix_of_longer(d6, end, whole);
    }
    write_hdr(
        io,
        "Content-Length".as_bytes(),
        digits.as_slice(),
        Ghost(entry),
        Ghost(done),
        Ghost(whole),
    )?;
    put(io, "\r\n".as_bytes(), Ghost(entry), Ghost(d6), Ghost(whole))?;
    if let Some(bytes) = body {
        let ghost d8 = d7 + end;
        proof {
            assert(whole =~= d8 + bytes@);
            assert(d8 =~= whole.subrange(0, d8.len() as int));
            assert(whole.is_prefix_of(whole));
        }
        put(io, "\r\n".as_bytes(), Ghost(entry), Ghost(d7), Ghost(whole))?;
        put(io, bytes, Ghost(entry), Ghost(d8), Ghost(whole))?;
    } else {
        assert(whole =~= d7);
    }
    Ok(())
}

/// Writes the caller's headers in their order, under the conditions of
/// `put`.
fn write_headers<W: Transport>(
    io: &mut BufWriter<W>,
    headers: &[Header<'_>],
    Ghost(entry): Ghost<BufWriter<W>>,
    Ghost(done): Ghost<Seq<u8>>,
    Ghost(whole): Ghost<Seq<u8>>,
) -> (r: Result<(), HttpError<W::Error>>)
    requires
        old(io).wf(),
        old(io)@.holds_all(entry@, done),
        old(io).buffers_sent_since(entry, entry@.buffered + whole),
        (done + header_lines(header_views(headers@))).is_prefix_of(whole),
    ensures
        final(io).wf(),
        final(io)@.follows(entry@, whole),
        r is Ok ==> final(io)@.holds_all(entry@, done + header_lines(header_views(headers@))),
        r is Ok ==> final(io).buffers_sent_since(entry, entry@.buffered + whole),
        r is Err ==> final(io).sent_since(
            entry,
            entry@.buffered + whole,
            (entry@.buffered + whole).len(),
            r,
        ),
        r is Err ==> final(io)@.buffered.len() > 0,
{
    let ghost all = header_views(headers@);
    let mut i: usize = 0;
    proof {
        lemma_prefix_of_longer(done, header_lines(all), whole);
        lemma_follows_more(entry@, io@, done, whole);
        assert(all.take(0) =~= Seq::<HeaderView>::empty());
        assert(done + header_lines(all.take(0)) =~= done);
    }
    while i < headers.len()
        invariant
            i <= headers@.len(),
            io.wf(),
            all == header_views(headers@),
            (done + header_lines(all)).is_prefix_of(whole),
            io@.holds_all(entry@, done + header_lines(all.take(i as int))),
            io@.follows(entry@, whole),
            io.buffers_sent_since(entry, entry@.buffered + whole),
        decreases headers@.len() - i,
    {
        let header = &headers[i];
        let ghost so_far = done + header_lines(all.take(i as int));
        proof {
            let next = all.take(i + 1);
            assert(next.drop_last() =~= all.take(i as int));
            assert(next.last() == headers@[i as int]@);
            assert(header.name.spec_bytes() == encode_utf8(next.last().name));
            let line = header_line(header.name.spec_bytes(), header.value@);
            assert(header_lines(next) == header_lines(all.take(i as int)) + line);
            assert(so_far + line =~= done + header_lines(next));
            lemma_header_lines_prefix(all, i + 1);
            let lines = header_lines(all);
            assert(header_lines(next) =~= lines.subrange(0, header_lines(next).len() as int));
            assert(done + header_lines(next) =~= (done + lines).subrange(
                0,
                (done + header_lines(next)).len() as int,
            ));
            assert(done + header_lines(next) =~= whole.subrange(
                0,
                (done + header_lines(next)).len() as int,
            ));
        }
        write_hdr(
            io,
            header.name.as_bytes(),
            header.value,
            Ghost(entry),
            Ghost(so_far),
            Ghost(whole),
        )?;
        i += 1;
    }
    proof {
        assert(all.take(i as int) =~= all);
    }
    Ok(())
}

/// Sends one request at a time over a transport and parses the response.
pub struct Client<T: Transport> {
    io: BufWriter<T>,
    resp_buf: Vec<u8>,
}

impl<T: Transport> Client<T> {
    /// The client's writer is well formed, and the response buffer holds
    /// what the transport has delivered.
    pub closed spec fn wf(self) -> bool {
        &&& self.io.wf()
        &&& self.resp_buf@ == self.io.delivered()
    }

    /// The client's writer, with its record of the transport's calls.
    pub closed spec fn writer(self) -> BufWriter<T> {
        self.io
    }

    /// What has become of the bytes that the client has written.
    pub open spec fn outflow(self) -> Outflow {
        self.writer()@
    }

    /// All bytes that the transport has delivered to the client, over all
    /// its requests, in the order they came. They are what the response
    /// buffer holds.
    pub open spec fn received(self) -> Seq<u8> {
        self.writer().delivered()
    }

    /// The transport that the client owns.
    pub open spec fn transport(self) -> T {
        self.writer().transport()
    }

    /// What `connect` makes of the transport's answer: a client that has
    /// written and read nothing, or the transport's error.
    pub fn over(connected: Result<T, T::Error>) -> (r: Result<Self, HttpError<T::Error>>)
        ensures
            match connected {
                Ok(stream) => r matches Ok(client) && client.wf() && client.transport() == stream
                    && client.outflow() == fresh() && client.received() == Seq::<u8>::empty()
                    && client.writer().calls() == Seq::<Call<T::Error>>::empty(),
                Err(e) => r matches Err(HttpError::Transport(failure)) && failure == e,
            },
    {
        match connected {
            Ok(stream) => Ok(Client { io: BufWriter::new(stream), resp_buf: Vec::new() }),
            Err(e) => Err(HttpError::Transport(e)),
        }
    }

    /// Opens a stream to `addr` and makes a client over it. Fails with the
    /// transport's error where the stream cannot be opened.
    pub fn connect(addr: T::Address) -> (r: Result<Self, HttpError<T::Error>>)
        ensures
            match r {
                Ok(client) => client.wf() && client.outflow() == fresh() && client.received()
                    == Seq::<u8>::empty() && client.writer().calls() == Seq::<
                    Call<T::Error>,
                >::empty(),
                Err(e) => e is Transport,
            },
    {
        Self::over(T::connect(addr))
    }

    /// Writes a request and flushes it.
    fn send(
        &mut self,
        method: &str,
        path: &str,
        headers: &[Header<'_>],
        body: Option<&[u8]>,
    ) -> (r: Result<(), HttpError<T::Error>>)
        requires
            old(self).wf(),
        ensures
            final(self).wf(),
            final(self).received() == old(self).received(),
            final(self).outflow().follows(
                old(self).outflow(),
                request_bytes(method@, path@, header_views(headers@), body_view(body)),
            ),
            r is Ok ==> final(self).outflow().buffered.len() == 0 && final(self).outflow().sent
                == old(self).outflow().stream() + request_bytes(
                method@,
                path@,
                header_views(headers@),
                body_view(body),
            ),
            r is Err ==> final(self).outflow().buffered.len() > 0,
            final(self).io.sent_since(
                old(self).io,
                old(self).io@.buffered + request_bytes(
                    method@,
                    path@,
                    header_views(headers@),
                    body_view(body),
                ),
                (old(self).io@.buffered + request_bytes(
                    method@,
                    path@,
                    header_views(headers@),
                    body_view(body),
                )).len(),
                r,
            ),
    {
        let ghost entry = self.io;
        let ghost all = header_views(headers@);
        let ghost whole = request_bytes(method@, path@, all, body_view(body));
        let ghost first = request_line(method@, path@);
        let ghost lines = first + header_lines(all);
        proof {
            lemma_follows_start(entry@, whole);
            assert(entry.added_since(entry) =~= Seq::<Call<T::Error>>::empty());
            assert(whole =~= lines + content_length_line(body_view(body)) + "\r\n".spec_bytes()
                + body_part(body_view(body)));
            assert(lines =~= whole.subrange(0, lines.len() as int));
            lemma_prefix_of_longer(first, header_lines(all), whole);
        }
        write_request_line(&mut self.io, method, path, Ghost(entry), Ghost(whole))?;
        write_headers(&mut self.io, headers, Ghost(entry), Ghost(first), Ghost(whole))?;
        write_tail(&mut self.io, body, Ghost(entry), Ghost(lines), Ghost(whole))?;
        let ghost written = self.io;
        let flushed = self.io.flush();
        proof {
            lemma_follows_chain(entry@, written@, self.io@, whole, Seq::empty());
            assert(whole + Seq::<u8>::empty() =~= whole);
            let s = entry@.buffered + whole;
            let t = written@.buffered;
            assert(whole.take(whole.len() as int) =~= whole);
            lemma_buffer_in_stream(entry@, written@, whole, whole.len() as int);
            assert(t.take(t.len() as int) =~= t);
            lemma_sent_since_joins(entry, written, self.io, s, t, t.len(), s.len(), flushed);
        }
        flushed
    }

    /// Sends a request and reads the response.
    ///
    /// The request goes out as `request_bytes` says: the caller's headers
    /// as they are, then a `Content-Length` of the body's length. Where the
    /// transport does not take all of it, the call fails as the last write
    /// tells, bytes stay in the buffer, and nothing is read.
    ///
    /// Then the transport is read to its end, and what comes is appended to
    /// what earlier requests received. Where a read fails, the call fails
    /// with its error. Else the head is parsed from the start of all that
    /// was received. A head that is partial, malformed, without a status
    /// code, with more than `MAX_HEADERS` headers, or longer than what this
    /// call read, is a protocol error. The body starts at the number of
    /// bytes that this call read less the length of the head.
    pub fn request<'a>(
        &'a mut self,
        method: &str,
        path: &str,
        headers: &[Header<'_>],
        body: Option<&[u8]>,
    ) -> (r: Result<Response<'a>, HttpError<T::Error>>)
        requires
            old(self).wf(),
        ensures
            final(self).wf(),
            old(self).received().is_prefix_of(final(self).received()),
            ({
                let wire = request_bytes(method@, path@, header_views(headers@), body_view(body));
                let before = old(self).writer();
                let after = final(self).writer();
                let s = before@.buffered + wire;
                let added = after.added_since(before);
                let writes = after@.writes - before@.writes;
                let fresh = (final(self).received().len() - old(self).received().len()) as nat;
                &&& after@.follows(before@, wire)
                &&& before.calls().is_prefix_of(after.calls())
                &&& 0 <= writes <= added.len()
                &&& after@.buffered.len() > 0 ==> {
                    &&& r is Err
                    &&& writes == added.len()
                    &&& sending_ends(s, s.len(), added, r)
                    &&& final(self).received() == old(self).received()
                }
                &&& after@.buffered.len() == 0 ==> {
                    &&& after@.sent == before@.stream() + wire
                    &&& sent_pos(s, s.len(), added.take(writes)) == Some(s.len())
                    &&& reading_ends(added.skip(writes), reading_result(r))
                    &&& final(self).received() == old(self).received() + delivered_by(
                        added.skip(writes),
                    )
                    &&& reading_result(r) is Ok ==> answers(
                        r,
                        exchange_result(final(self).received(), fresh),
                    )
                    &&& reading_result(r) is Ok ==> match parsed_head(
                        final(self).received(),
                        MAX_HEADERS as nat,
                    ) {
                        Some(head) => within(head, final(self).received(), MAX_HEADERS as nat),
                        None => true,
                    }
                }
            }),
    {
        let ghost entry = *self;
        match self.send(method, path, headers, body) {
            Ok(()) => {},
            Err(e) => {
                assert(self.resp_buf@.is_prefix_of(self.resp_buf@));
                return Err(e);
            },
        }
        let ghost sent = *self;
        let outcome = self.io.read_to_end(&mut self.resp_buf);
        proof {
            let had = sent.resp_buf@.len() as int;
            assert(sent.resp_buf@ =~= self.resp_buf@.subrange(0, had));
            let first = sent.io.added_since(entry.io);
            let second = self.io.added_since(sent.io);
            let added = self.io.added_since(entry.io);
            assert(added =~= first + second);
            assert(added.take(first.len() as int) =~= first);
            assert(added.skip(first.len() as int) =~= second);
            assert(entry.io.calls() =~= self.io.calls().subrange(
                0,
                entry.io.calls().len() as int,
            ));
        }
        let fresh: usize = match outcome {
            Ok(count) => count,
            Err(e) => {
                return Err(e);
            },
        };
        let buf: &'a [u8] = self.resp_buf.as_slice();
        match parse_head(buf, MAX_HEADERS) {
            Ok(head) => match Response::from_head(head, buf, fresh) {
                Some(response) => Ok(response),
                None => Err(HttpError::Protocol),
            },
            Err(_) => Err(HttpError::Protocol),
        }
    }
}

} // verus!
