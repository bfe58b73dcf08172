//! A line reader over a byte source that hands its data out in chunks of any
//! size.

use vstd::prelude::*;
use crate::consts::CHUNK_SIZE;
use crate::error::HttpError;
use crate::wire::{
    append_range, cross_boundary_separator, crlf_at, find_crlf, free_of_crlf, has_crlf,
    crlf, lemma_free_concat, lemma_line_across, lemma_line_then_crlf, lemma_line_within,
    line_taken, spans_boundary,
};

verus! {

/// Reads CRLF-terminated lines and counted runs of bytes from a source that
/// may cut its data anywhere.
///
/// What has been read from the source and not yet handed out is kept in two
/// places: the start of a line whose end has not arrived, and the rest of the
/// chunk that was read last. `buffered` is the two in order.
pub struct LineStream<'a, T> {
    stream: &'a mut T,
    stream_buffer: [u8; CHUNK_SIZE],
    stream_buffer_size: usize,
    stream_buffer_start: usize,
    line_buffer: Vec<u8>,
    taken_in: Ghost<Seq<u8>>,
    flushes: Ghost<nat>,
}

/// What a call of `read_line` owes, given the bytes that it had to work with:
/// `input` is what was buffered before the call followed by what was taken in
/// during it, and `rest` is what is buffered after it.
///
/// A line that comes back is `input` up to its first terminator. A stream
/// that ended inside a line counts as having ended that line: the terminator
/// that it owed is part of what was taken in. `Closed` means that there was
/// nothing to read at all; a failure of the source leaves all of `input`,
/// which holds no terminator, buffered.
pub open spec fn line_read(input: Seq<u8>, rest: Seq<u8>, r: Result<Vec<u8>, HttpError>) -> bool {
    match r {
        Ok(line) => line_taken(input, line@, rest),
        Err(HttpError::Closed) => input.len() == 0 && rest.len() == 0,
        Err(HttpError::Transport(_)) | Err(HttpError::Overrun) => free_of_crlf(input) && rest
            == input,
        Err(_) => false,
    }
}

/// Nothing of what a reader holds or has taken in has changed.
pub open spec fn unchanged<T>(before: &LineStream<T>, after: &LineStream<T>) -> bool {
    &&& after.buffered() == before.buffered()
    &&& after.taken_in() == before.taken_in()
    &&& after.flushes() == before.flushes()
}

/// What is at hand after one more step: what was at hand before it, then what
/// was taken in during it.
proof fn lemma_record_grew(
    before: Seq<u8>,
    log: Seq<u8>,
    seen: Seq<u8>,
    now: Seq<u8>,
    held: Seq<u8>,
)
    requires
        log.is_prefix_of(seen),
        seen.is_prefix_of(now),
        held == before + seen.skip(log.len() as int),
    ensures
        log.is_prefix_of(now),
        before + now.skip(log.len() as int) == held + now.skip(seen.len() as int),
{
    assert(now.skip(log.len() as int) =~= seen.skip(log.len() as int) + now.skip(
        seen.len() as int,
    ));
    assert(before + now.skip(log.len() as int) =~= held + now.skip(seen.len() as int));
}

/// What a call of `read_bytes` owes: `before` and `rest` are what was buffered
/// before and after the call, `fetched` what the source delivered during it.
pub open spec fn bytes_read(
    before: Seq<u8>,
    fetched: Seq<u8>,
    count: usize,
    rest: Seq<u8>,
    r: Result<Vec<u8>, HttpError>,
) -> bool {
    match r {
        Ok(bytes) => {
            &&& bytes@.len() == count
            &&& bytes@ + rest == before + fetched
            &&& count <= before.len() ==> fetched.len() == 0
            &&& count >= before.len() ==> rest.len() == 0
        },
        Err(HttpError::Transport(_)) => before.len() < count && fetched.len() == 0 && rest.len()
            == 0,
        Err(_) => false,
    }
}

/// One call of `std::io::Read::read` on the source, with the whole window as
/// the place to read into. Nothing is claimed of what the source reports or
/// writes.
#[verifier::external_body]
fn read_chunk<T: std::io::Read>(stream: &mut T, window: &mut [u8; CHUNK_SIZE]) -> (r: Result<
    usize,
    std::io::Error,
>) {
    stream.read(window)
}

/// One call of `std::io::Read::read_exact` on the source, into a fresh buffer
/// of `count` bytes. The buffer that comes back on success is that buffer, so
/// it holds `count` bytes; what they are is the source's business.
#[verifier::external_body]
fn read_exactly<T: std::io::Read>(stream: &mut T, count: usize) -> (r: Result<
    Vec<u8>,
    std::io::Error,
>)
    ensures
        match r {
            Ok(bytes) => bytes@.len() == count,
            Err(_) => true,
        },
{
    let mut bytes = vec![0u8; count];
    stream.read_exact(&mut bytes)?;
    Ok(bytes)
}

impl<'a, T> LineStream<'a, T> {
    /// The cursors lie inside the window, a pending line means that the window
    /// is used up, and the pending line holds no terminator.
    pub closed spec fn wf(&self) -> bool {
        &&& self.stream_buffer_start <= self.stream_buffer_size <= CHUNK_SIZE
        &&& self.line_buffer@.len() > 0 ==> self.stream_buffer_start == self.stream_buffer_size
        &&& free_of_crlf(self.line_buffer@)
    }

    /// The bytes that were read from the source and not handed out yet, in the
    /// order in which they arrived.
    pub closed spec fn buffered(&self) -> Seq<u8> {
        self.line_buffer@ + self.stream_buffer@.subrange(
            self.stream_buffer_start as int,
            self.stream_buffer_size as int,
        )
    }

    /// What this reader has taken in: every byte that successful reads of
    /// the source have delivered, in order, and a line terminator at each
    /// place where the stream ended inside a line, which that end stands
    /// for. Only `absorb` counts such a terminator, and only for a read that
    /// reported the end of the stream while a line was pending.
    pub closed spec fn taken_in(&self) -> Seq<u8> {
        self.taken_in@
    }

    /// How often the end of the stream stood for the terminator of a line.
    pub closed spec fn flushes(&self) -> nat {
        self.flushes@
    }

    /// The window holds nothing that is still to be handed out.
    pub closed spec fn used_up(&self) -> bool {
        self.stream_buffer_start == self.stream_buffer_size
    }

    /// The bytes of the window, as the last read of the source left them.
    pub closed spec fn window(&self) -> Seq<u8> {
        self.stream_buffer@
    }

    /// While the window is used up, what is buffered does not depend on what
    /// the window holds.
    proof fn lemma_window_apart(&self, held: Seq<u8>)
        requires
            self.wf(),
            self.used_up(),
            held == self.line_buffer@,
        ensures
            self.buffered() == held,
    {
        assert(self.buffered() =~= held);
    }

    /// The source that the reader reads from, as it stands.
    pub closed spec fn source(&self) -> T {
        *self.stream
    }

    /// What this reader has taken in since it was in the state `before`.
    pub open spec fn taken_in_since(&self, before: &Self) -> Seq<u8> {
        self.taken_in().skip(before.taken_in().len() as int)
    }

    /// What is buffered is a vector and at most one window.
    pub proof fn lemma_buffered_fits(&self)
        requires
            self.wf(),
        ensures
            self.buffered().len() <= usize::MAX + CHUNK_SIZE,
    {
        assert(self.line_buffer.len() <= usize::MAX);
    }

    /// A reader over `stream` that has read nothing yet.
    pub fn new(stream: &'a mut T) -> (r: Self)
        ensures
            r.wf(),
            r.source() == *old(stream),
            r.buffered() == Seq::<u8>::empty(),
            r.taken_in() == Seq::<u8>::empty(),
            r.flushes() == 0,
    {
        let r = LineStream {
            stream,
            stream_buffer: [0u8; CHUNK_SIZE],
            stream_buffer_size: 0,
            stream_buffer_start: 0,
            line_buffer: Vec::with_capacity(2048),
            taken_in: Ghost(Seq::empty()),
            flushes: Ghost(0),
        };
        assert(r.buffered() =~= Seq::<u8>::empty());
        r
    }

    /// Takes a line from what is buffered, where a whole line is buffered.
    /// Where none is, what the window still holds joins the pending line,
    /// and the window is used up.
    pub fn take_buffered_line(&mut self) -> (r: Option<Vec<u8>>)
        requires
            old(self).wf(),
        ensures
            final(self).wf(),
            final(self).taken_in() == old(self).taken_in(),
            final(self).flushes() == old(self).flushes(),
            final(self).source() == old(self).source(),
            match r {
                Some(line) => line_taken(old(self).buffered(), line@, final(self).buffered()),
                None => free_of_crlf(old(self).buffered()) && final(self).buffered() == old(
                    self,
                ).buffered() && final(self).used_up(),
            },
    {
        let ghost pending = self.line_buffer@;
        let start = self.stream_buffer_start;
        let size = self.stream_buffer_size;
        let ghost part = self.stream_buffer@.subrange(start as int, size as int);
        if start == size {
            assert(self.buffered() =~= pending);
            return None;
        }
        assert(pending =~= Seq::<u8>::empty());
        assert(self.buffered() =~= part);
        match find_crlf(self.stream_buffer.as_slice(), start, size) {
            Some(pos) => {
                let mut line: Vec<u8> = Vec::new();
                append_range(&mut line, self.stream_buffer.as_slice(), start, pos);
                self.stream_buffer_start = pos + 2;
                proof {
                    assert(line@ =~= part.take(pos - start));
                    assert(self.buffered() =~= part.skip(pos - start + 2));
                }
                Some(line)
            },
            None => {
                append_range(&mut self.line_buffer, self.stream_buffer.as_slice(), start, size);
                self.stream_buffer_start = size;
                proof {
                    assert(self.line_buffer@ =~= part);
                    assert(self.buffered() =~= part);
                }
                None
            },
        }
    }

    /// Takes in what one read of the source gave: `outcome` is what the read
    /// reported, and the window holds what it delivered. The window has to
    /// be used up, as it is when the source is asked.
    ///
    /// A failure of the source, and a count above the window, come back as
    /// errors at once, with what is pending left as it is. At the end of the
    /// stream a pending line is handed out, and that end is counted as its
    /// terminator; with nothing pending the result is `Closed`. A chunk that
    /// completes a line gives the line, whether its terminator lies in the
    /// chunk or across the seam; a chunk that does not joins what is
    /// pending, and the result is nothing yet.
    pub fn absorb(&mut self, outcome: Result<usize, std::io::Error>) -> (r: Option<
        Result<Vec<u8>, HttpError>,
    >)
        requires
            old(self).wf(),
            old(self).used_up(),
        ensures
            final(self).wf(),
            final(self).source() == old(self).source(),
            match outcome {
                Err(e) => r == Some(Err::<Vec<u8>, _>(HttpError::Transport(e))) && unchanged(
                    old(self),
                    final(self),
                ),
                Ok(n) => if n > CHUNK_SIZE {
                    r == Some(Err::<Vec<u8>, _>(HttpError::Overrun)) && unchanged(
                        old(self),
                        final(self),
                    )
                } else if n == 0 {
                    if old(self).buffered().len() == 0 {
                        r == Some(Err::<Vec<u8>, _>(HttpError::Closed)) && unchanged(
                            old(self),
                            final(self),
                        )
                    } else {
                        &&& r is Some
                        &&& r.unwrap() is Ok
                        &&& r.unwrap().unwrap()@ == old(self).buffered()
                        &&& final(self).buffered().len() == 0
                        &&& final(self).taken_in() == old(self).taken_in() + crlf()
                        &&& final(self).flushes() == old(self).flushes() + 1
                    }
                } else {
                    let all = old(self).buffered() + old(self).window().subrange(0, n as int);
                    &&& final(self).taken_in() == old(self).taken_in() + old(
                        self,
                    ).window().subrange(0, n as int)
                    &&& final(self).flushes() == old(self).flushes()
                    &&& if has_crlf(all) {
                        &&& r is Some
                        &&& r.unwrap() is Ok
                        &&& line_taken(all, r.unwrap().unwrap()@, final(self).buffered())
                    } else {
                        r is None && final(self).buffered() == all && final(self).used_up()
                    }
                },
            },
    {
        let ghost pending = self.line_buffer@;
        assert(self.buffered() =~= pending);
        self.stream_buffer_start = 0;
        self.stream_buffer_size = 0;
        assert(self.buffered() =~= pending);
        let n = match outcome {
            Ok(n) => n,
            Err(e) => {
                return Some(Err(HttpError::Transport(e)));
            },
        };
        if n > CHUNK_SIZE {
            return Some(Err(HttpError::Overrun));
        }
        if n == 0 {
            if self.line_buffer.len() == 0 {
                return Some(Err(HttpError::Closed));
            }
            let mut line: Vec<u8> = Vec::new();
            std::mem::swap(&mut line, &mut self.line_buffer);
            proof {
                self.flushes@ = self.flushes@ + 1;
                self.taken_in@ = self.taken_in@ + crlf();
                assert(self.buffered() =~= Seq::<u8>::empty());
            }
            return Some(Ok(line));
        }
        self.stream_buffer_size = n;
        let ghost chunk = self.stream_buffer@.subrange(0, n as int);
        proof {
            self.taken_in@ = self.taken_in@ + chunk;
            assert(self.buffered() =~= pending + chunk);
        }
        if cross_boundary_separator(self.line_buffer.as_slice(), self.stream_buffer.as_slice()) {
            let _ = self.line_buffer.pop();
            let mut line: Vec<u8> = Vec::new();
            std::mem::swap(&mut line, &mut self.line_buffer);
            self.stream_buffer_start = 1;
            proof {
                lemma_line_across(pending, chunk);
                assert(line@ =~= pending.drop_last());
                assert(self.buffered() =~= chunk.skip(1));
            }
            return Some(Ok(line));
        }
        assert(!spans_boundary(pending, chunk));
        match find_crlf(self.stream_buffer.as_slice(), 0, n) {
            Some(pos) => {
                append_range(&mut self.line_buffer, self.stream_buffer.as_slice(), 0, pos);
                self.stream_buffer_start = pos + 2;
                let mut line: Vec<u8> = Vec::new();
                std::mem::swap(&mut line, &mut self.line_buffer);
                proof {
                    lemma_line_within(pending, chunk, pos as int);
                    assert(line@ =~= pending + chunk.take(pos as int));
                    assert(self.buffered() =~= chunk.skip(pos + 2));
                }
                Some(Ok(line))
            },
            None => {
                append_range(&mut self.line_buffer, self.stream_buffer.as_slice(), 0, n);
                self.stream_buffer_start = n;
                proof {
                    lemma_free_concat(pending, chunk);
                    assert(self.line_buffer@ =~= pending + chunk);
                    assert(self.buffered() =~= pending + chunk);
                    assert(!has_crlf(pending + chunk));
                }
                None
            },
        }
    }

    /// Takes in a chunk as if one read of the source had delivered it: the
    /// chunk is put into the window and taken in as `absorb` says. An empty
    /// chunk is the end of the stream.
    pub fn feed(&mut self, chunk: &[u8]) -> (r: Option<Result<Vec<u8>, HttpError>>)
        requires
            old(self).wf(),
            old(self).used_up(),
            chunk@.len() <= CHUNK_SIZE,
        ensures
            final(self).wf(),
            final(self).source() == old(self).source(),
            if chunk@.len() == 0 {
                if old(self).buffered().len() == 0 {
                    r == Some(Err::<Vec<u8>, _>(HttpError::Closed)) && unchanged(
                        old(self),
                        final(self),
                    )
                } else {
                    &&& r is Some
                    &&& r.unwrap() is Ok
                    &&& r.unwrap().unwrap()@ == old(self).buffered()
                    &&& final(self).buffered().len() == 0
                    &&& final(self).taken_in() == old(self).taken_in() + crlf()
                    &&& final(self).flushes() == old(self).flushes() + 1
                }
            } else {
                let all = old(self).buffered() + chunk@;
                &&& final(self).taken_in() == old(self).taken_in() + chunk@
                &&& final(self).flushes() == old(self).flushes()
                &&& if has_crlf(all) {
                    &&& r is Some
                    &&& r.unwrap() is Ok
                    &&& line_taken(all, r.unwrap().unwrap()@, final(self).buffered())
                } else {
                    r is None && final(self).buffered() == all && final(self).used_up()
                }
            },
    {
        let ghost held = self.buffered();
        proof {
            self.lemma_window_apart(self.line_buffer@);
        }
        let mut i: usize = 0;
        while i < chunk.len()
            invariant
                i <= chunk@.len() <= CHUNK_SIZE,
                self.wf(),
                self.used_up(),
                self.line_buffer@ == old(self).line_buffer@,
                self.taken_in() == old(self).taken_in(),
                self.flushes() == old(self).flushes(),
                self.source() == old(self).source(),
                self.stream_buffer@.subrange(0, i as int) == chunk@.subrange(0, i as int),
            decreases chunk.len() - i,
        {
            self.stream_buffer[i] = chunk[i];
            assert(self.stream_buffer@.subrange(0, i + 1) =~= chunk@.subrange(0, i + 1));
            i += 1;
        }
        proof {
            self.lemma_window_apart(held);
            assert(chunk@.subrange(0, chunk@.len() as int) =~= chunk@);
        }
        self.absorb(Ok(chunk.len()))
    }

    /// Reads the next line and returns it without its terminator.
    ///
    /// The line ends at the first CRLF of the bytes at hand, wherever the
    /// source cut them: a line that is buffered is taken as
    /// `take_buffered_line` says, and while none is, the source is asked for
    /// a chunk and the chunk is taken in as `absorb` says.
    pub fn read_line(&mut self) -> (r: Result<Vec<u8>, HttpError>) where T: std::io::Read
        requires
            old(self).wf(),
        ensures
            final(self).wf(),
            old(self).taken_in().is_prefix_of(final(self).taken_in()),
            final(self).flushes() == old(self).flushes() || final(self).flushes() == old(
                self,
            ).flushes() + 1,
            line_read(
                old(self).buffered() + final(self).taken_in_since(old(self)),
                final(self).buffered(),
                r,
            ),
            final(self).flushes() != old(self).flushes() ==> r is Ok && final(self).taken_in_since(
                old(self),
            ).len() >= 2,
            has_crlf(old(self).buffered()) ==> r is Ok && final(self).taken_in() == old(
                self,
            ).taken_in() && final(self).flushes() == old(self).flushes(),
    {
        let ghost before = old(self).buffered();
        let ghost log = old(self).taken_in();
        proof {
            assert(log.skip(log.len() as int) =~= Seq::<u8>::empty());
            assert(before + Seq::<u8>::empty() =~= before);
        }
        match self.take_buffered_line() {
            Some(line) => {
                return Ok(line);
            },
            None => {},
        }
        loop
            invariant
                self.wf(),
                self.used_up(),
                before == old(self).buffered(),
                log == old(self).taken_in(),
                log.is_prefix_of(self.taken_in()),
                self.flushes() == old(self).flushes(),
                self.buffered() == before + self.taken_in().skip(log.len() as int),
                free_of_crlf(self.buffered()),
                !has_crlf(before),
            decreases usize::MAX + CHUNK_SIZE - self.buffered().len(),
        {
            proof {
                self.lemma_buffered_fits();
            }
            let ghost held = self.buffered();
            let ghost seen = self.taken_in();
            proof {
                self.lemma_window_apart(self.line_buffer@);
            }
            let outcome = read_chunk(self.stream, &mut self.stream_buffer);
            proof {
                self.lemma_window_apart(held);
            }
            let ghost reported = outcome;
            let ghost window = self.window();
            let step = self.absorb(outcome);
            proof {
                lemma_record_grew(before, log, seen, self.taken_in(), held);
                self.lemma_buffered_fits();
                let fetched = self.taken_in().skip(seen.len() as int);
                assert(held + Seq::<u8>::empty() =~= held);
                match reported {
                    Ok(n) => {
                        if n > CHUNK_SIZE {
                            assert(fetched =~= Seq::<u8>::empty());
                        } else if n == 0 {
                            if held.len() == 0 {
                                assert(fetched =~= Seq::<u8>::empty());
                            } else {
                                assert(fetched =~= crlf());
                            }
                        } else {
                            assert(fetched =~= window.subrange(0, n as int));
                        }
                    },
                    Err(_) => {
                        assert(fetched =~= Seq::<u8>::empty());
                    },
                }
            }
            match step {
                Some(r) => {
                    proof {
                        let input = before + self.taken_in().skip(log.len() as int);
                        let fetched = self.taken_in().skip(seen.len() as int);
                        assert(input == held + fetched);
                        if reported == Ok::<usize, std::io::Error>(0) && held.len() > 0 {
                            lemma_line_then_crlf(held, Seq::<u8>::empty());
                            assert(held + crlf() + Seq::<u8>::empty() =~= held + crlf());
                            assert(self.buffered() =~= Seq::<u8>::empty());
                            assert(line_taken(input, r.unwrap()@, self.buffered()));
                        }
                    }
                    return r;
                },
                None => {},
            }
        }
    }

    /// Takes up to `count` bytes from what is buffered: all of them where so
    /// many are buffered, else all that is buffered.
    pub fn take_buffered(&mut self, count: usize) -> (r: Vec<u8>)
        requires
            old(self).wf(),
        ensures
            final(self).wf(),
            final(self).taken_in() == old(self).taken_in(),
            final(self).flushes() == old(self).flushes(),
            final(self).source() == old(self).source(),
            r@ + final(self).buffered() == old(self).buffered(),
            r@.len() == if count <= old(self).buffered().len() {
                count as int
            } else {
                old(self).buffered().len() as int
            },
    {
        let ghost before = self.buffered();
        let ghost pending = self.line_buffer@;
        let from_line = if count < self.line_buffer.len() {
            count
        } else {
            self.line_buffer.len()
        };
        let kept = self.line_buffer.split_off(from_line);
        let mut taken: Vec<u8> = Vec::new();
        std::mem::swap(&mut taken, &mut self.line_buffer);
        self.line_buffer = kept;
        proof {
            assert(taken@ + self.line_buffer@ =~= pending);
            assert forall|i: int| !crlf_at(self.line_buffer@, i) by {
                if crlf_at(self.line_buffer@, i) {
                    assert(crlf_at(pending, i + from_line));
                }
            }
            assert(taken@ + self.buffered() =~= before);
        }
        if taken.len() == count {
            return taken;
        }
        let remaining = self.stream_buffer_size - self.stream_buffer_start;
        if remaining > 0 {
            let needed = count - taken.len();
            let to_take = if needed < remaining {
                needed
            } else {
                remaining
            };
            let start = self.stream_buffer_start;
            append_range(&mut taken, self.stream_buffer.as_slice(), start, start + to_take);
            self.stream_buffer_start = start + to_take;
            proof {
                assert(taken@ + self.buffered() =~= before);
            }
        }
        taken
    }

    /// Joins what was taken from the buffers with what one exact read of the
    /// source gave: the bytes that it delivered follow the taken ones, and
    /// its failure comes back as an error at once.
    pub fn join_exact(&mut self, taken: Vec<u8>, outcome: Result<Vec<u8>, std::io::Error>) -> (r:
        Result<Vec<u8>, HttpError>)
        requires
            old(self).wf(),
        ensures
            final(self).wf(),
            final(self).buffered() == old(self).buffered(),
            final(self).flushes() == old(self).flushes(),
            final(self).source() == old(self).source(),
            match outcome {
                Ok(direct) => r is Ok && r.unwrap()@ == taken@ + direct@ && final(self).taken_in()
                    == old(self).taken_in() + direct@,
                Err(e) => r == Err::<Vec<u8>, _>(HttpError::Transport(e)) && final(self).taken_in()
                    == old(self).taken_in(),
            },
    {
        match outcome {
            Ok(direct) => {
                let mut joined = taken;
                let mut direct = direct;
                proof {
                    self.taken_in@ = self.taken_in@ + direct@;
                }
                joined.append(&mut direct);
                Ok(joined)
            },
            Err(e) => Err(HttpError::Transport(e)),
        }
    }

    /// Reads exactly `count` bytes: first what is buffered, as `take_buffered`
    /// says, then, for what is still missing, straight from the source, as
    /// `join_exact` says.
    ///
    /// Succeeds without touching the source when enough is buffered. When the
    /// source fails, what was buffered is gone with the failed read.
    pub fn read_bytes(&mut self, count: usize) -> (r: Result<Vec<u8>, HttpError>) where
        T: std::io::Read,

        requires
            old(self).wf(),
        ensures
            final(self).wf(),
            old(self).taken_in().is_prefix_of(final(self).taken_in()),
            final(self).flushes() == old(self).flushes(),
            bytes_read(
                old(self).buffered(),
                final(self).taken_in_since(old(self)),
                count,
                final(self).buffered(),
                r,
            ),
            count <= old(self).buffered().len() ==> r is Ok,
    {
        let ghost before = self.buffered();
        let ghost log = self.taken_in();
        assert(log.skip(log.len() as int) =~= Seq::<u8>::empty());
        let taken = self.take_buffered(count);
        if taken.len() == count {
            assert(before + Seq::<u8>::empty() =~= before);
            return Ok(taken);
        }
        assert(self.buffered() =~= Seq::<u8>::empty());
        assert(taken@ =~= before);
        let outcome = read_exactly(self.stream, count - taken.len());
        let ghost reported = outcome;
        let r = self.join_exact(taken, outcome);
        proof {
            match reported {
                Ok(direct) => {
                    assert(self.taken_in().skip(log.len() as int) =~= direct@);
                    assert(r.unwrap()@ + self.buffered() =~= before + direct@);
                },
                Err(_) => {
                    assert(self.taken_in().skip(log.len() as int) =~= Seq::<u8>::empty());
                },
            }
        }
        r
    }

    /// The source itself, for writing to it: the result is the reader's own
    /// source, and what is done to it through the result is done to that
    /// source. What is buffered stays as it is.
    pub fn get_stream_mut(&mut self) -> (r: &mut T)
        ensures
            *r == old(self).source(),
            final(self).source() == *final(r),
            final(self).wf() == old(self).wf(),
            final(self).buffered() == old(self).buffered(),
            final(self).taken_in() == old(self).taken_in(),
            final(self).flushes() == old(self).flushes(),
    {
        self.stream
    }
}

} // verus!
