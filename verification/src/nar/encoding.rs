//! Encoder for NAR data streams.
//!
//! The [`Encoder`] has an internal buffer, which holds the bytes of one event at
//! a time: all events but [`Event::RegularContentChunk`] are tiny.
use vstd::prelude::*;
use vstd::utf8::*;

use crate::nar::state::{
    events_view, spec_advance, spec_stack_after_error, wf_stack, AdvanceError, CoderState, Event,
    EventView, StackFrame,
};
use crate::nar::wire::{
    calculate_padding, int_token, padding_of, push_int, push_str, push_word, push_zeros,
    push_bytes, str_token, word_token, zeros, Word,
};

verus! {

broadcast use vstd::seq::group_seq_axioms;

/// `core::str::Utf8Error`, the error of `core::str::from_utf8`; nothing
/// is known of what it holds.
#[verifier::external_type_specification]
#[verifier::external_body]
pub struct ExUtf8Error(core::str::Utf8Error);

/// Error type for the [`Encoder`].
#[derive(Debug)]
pub enum Error {
    /// The event stream is out of order.
    CoderError(crate::nar::state::Error),
    /// A path is not UTF-8.
    Utf8Error(core::str::Utf8Error),
}

/// Why encoding one event failed.
pub enum EncodeFailure {
    Utf8,
    Coder(AdvanceError),
}

impl Error {
    /// The mathematical view of the failure.
    pub open spec fn failure(&self) -> EncodeFailure {
        match self {
            Error::CoderError(e) => EncodeFailure::Coder(e.kind()),
            Error::Utf8Error(_) => EncodeFailure::Utf8,
        }
    }
}

/// Checks a path with `std::str::from_utf8`, which succeeds exactly on valid UTF-8.
#[verifier::external_body]
pub(crate) fn path_to_str(path: &[u8]) -> (r: Result<&str, core::str::Utf8Error>)
    ensures
        r is Ok <==> valid_utf8(path@),
        r matches Ok(s) ==> s@ == decode_utf8(path@),
{
    core::str::from_utf8(path)
}

/// Fields that open a symlink object, up to its target.
pub open spec fn symlink_head() -> Seq<u8> {
    word_token(Word::Open) + word_token(Word::Type) + word_token(Word::Symlink) + word_token(
        Word::Target,
    )
}

/// Fields that open a directory entry, up to its name.
pub open spec fn entry_head() -> Seq<u8> {
    word_token(Word::Entry) + word_token(Word::Open) + word_token(Word::Name)
}

/// Fields that open a regular object, up to its size.
pub open spec fn regular_head(executable: bool) -> Seq<u8> {
    word_token(Word::Open) + word_token(Word::Type) + word_token(Word::Regular) + (if executable {
        word_token(Word::Executable) + word_token(Word::Empty)
    } else {
        seq![]
    }) + word_token(Word::Contents)
}

/// The bytes an event writes by itself.
pub open spec fn event_bytes(e: EventView) -> Seq<u8> {
    match e {
        EventView::Header => word_token(Word::NixArchive1),
        EventView::Regular { executable, size } => regular_head(executable) + int_token(size),
        EventView::RegularContentChunk(chunk) => chunk,
        EventView::Symlink { target } => symlink_head() + str_token(target),
        EventView::Directory => word_token(Word::Open) + word_token(Word::Type) + word_token(
            Word::Directory,
        ),
        EventView::DirectoryEntry { name } => entry_head() + str_token(name) + word_token(
            Word::Node,
        ),
        EventView::DirectoryEnd => seq![],
    }
}

/// Whether the paths of an event are UTF-8.
pub open spec fn paths_valid(e: EventView) -> bool {
    match e {
        EventView::Symlink { target } => valid_utf8(target),
        EventView::DirectoryEntry { name } => valid_utf8(name),
        _ => true,
    }
}

/// The bytes that close a frame.
pub open spec fn frame_closing(f: StackFrame) -> Seq<u8> {
    match f {
        StackFrame::Object => word_token(Word::Close),
        StackFrame::DirectoryEntry => word_token(Word::Close),
        StackFrame::RegularData { expected, .. } => zeros(padding_of(expected as int)),
        _ => seq![],
    }
}

/// The bytes that close a sequence of frames, in order.
pub open spec fn closing_bytes(closed: Seq<StackFrame>) -> Seq<u8>
    decreases closed.len(),
{
    if closed.len() == 0 {
        seq![]
    } else {
        closing_bytes(closed.drop_last()) + frame_closing(closed.last())
    }
}

/// Encoding one event: the new stack and the bytes written.
pub open spec fn spec_encode(s: Seq<StackFrame>, e: EventView) -> Result<
    (Seq<StackFrame>, Seq<u8>),
    EncodeFailure,
> {
    if !paths_valid(e) {
        Err(EncodeFailure::Utf8)
    } else {
        match spec_advance(s, e) {
            Ok((s2, closed)) => Ok((s2, event_bytes(e) + closing_bytes(closed))),
            Err(kind) => Err(EncodeFailure::Coder(kind)),
        }
    }
}

/// The bytes left in the buffer by a failed encoding.
pub open spec fn failed_bytes(e: EventView) -> Seq<u8> {
    if paths_valid(e) {
        event_bytes(e)
    } else {
        match e {
            EventView::Symlink { .. } => symlink_head(),
            EventView::DirectoryEntry { .. } => entry_head(),
            _ => seq![],
        }
    }
}

/// The stack left by a failed encoding.
pub open spec fn failed_stack(s: Seq<StackFrame>, e: EventView) -> Seq<StackFrame> {
    if paths_valid(e) {
        spec_stack_after_error(s, e)
    } else {
        s
    }
}

/// Appends the bytes that close a sequence of frames.
pub fn push_closing(buffer: &mut Vec<u8>, closed: &Vec<StackFrame>)
    ensures
        final(buffer)@ == old(buffer)@ + closing_bytes(closed@),
{
    let mut i: usize = 0;
    while i < closed.len()
        invariant
            i <= closed@.len(),
            buffer@ == old(buffer)@ + closing_bytes(closed@.take(i as int)),
        decreases closed@.len() - i,
    {
        assert(closed@.take(i + 1).drop_last() =~= closed@.take(i as int));
        match closed[i] {
            StackFrame::Object | StackFrame::DirectoryEntry => push_word(buffer, Word::Close),
            StackFrame::RegularData { expected, .. } => push_zeros(
                buffer,
                calculate_padding(expected),
            ),
            _ => (),
        }
        i = i + 1;
        assert(buffer@ =~= old(buffer)@ + closing_bytes(closed@.take(i as int)));
    }
    assert(closed@.take(closed@.len() as int) =~= closed@);
}

/// Why reading from an encoder failed.
pub enum ReadFailure {
    UnexpectedEof,
    Encode(EncodeFailure),
}

/// Errors of [`Encoder::read`].
#[derive(Debug)]
pub enum ReadError {
    /// The events ran out before the stream was complete.
    UnexpectedEof,
    /// An event could not be encoded.
    InvalidData(Error),
}

impl ReadError {
    /// The mathematical view of the failure.
    pub open spec fn failure(&self) -> ReadFailure {
        match self {
            ReadError::UnexpectedEof => ReadFailure::UnexpectedEof,
            ReadError::InvalidData(e) => ReadFailure::Encode(e.failure()),
        }
    }
}

/// The bytes that reading an encoder to its end yields from stack `s` on events `es`,
/// and the failure that stops it, if any.
///
/// Reading stops at the end of the stream, at a failure, or at an event that writes
/// no byte (a read of zero bytes ends a stream).
pub open spec fn drain(s: Seq<StackFrame>, es: Seq<EventView>) -> (Seq<u8>, Option<ReadFailure>)
    decreases es.len(),
{
    if s.len() == 0 {
        (seq![], None)
    } else if es.len() == 0 {
        (seq![], Some(ReadFailure::UnexpectedEof))
    } else {
        match spec_encode(s, es[0]) {
            Err(f) => (seq![], Some(ReadFailure::Encode(f))),
            Ok((s2, bytes)) => {
                if bytes.len() == 0 {
                    (seq![], None)
                } else {
                    let (rest, f) = drain(s2, es.drop_first());
                    (bytes + rest, f)
                }
            },
        }
    }
}

/// Encodes NAR [`Event`]s into bytes.
#[derive(Debug)]
pub struct Encoder {
    state: CoderState,
    buffer: Vec<u8>,
    position: usize,
    events: Vec<Event>,
    next: usize,
}

impl Encoder {
    /// The coder stack.
    pub closed spec fn stack(&self) -> Seq<StackFrame> {
        self.state@
    }

    /// The bytes of the current event.
    pub closed spec fn buffer(&self) -> Seq<u8> {
        self.buffer@
    }

    /// How many bytes of the buffer were handed out.
    pub closed spec fn position(&self) -> int {
        self.position as int
    }

    /// All events of the stream.
    pub closed spec fn events(&self) -> Seq<EventView> {
        events_view(self.events@)
    }

    /// How many events were taken.
    pub closed spec fn next(&self) -> int {
        self.next as int
    }

    /// The internal invariant.
    pub closed spec fn wf(&self) -> bool {
        &&& wf_stack(self.state@)
        &&& self.position <= self.buffer@.len()
        &&& self.next <= self.events@.len()
    }

    /// What the encoder has yet to hand out, and how it ends.
    pub open spec fn pending(&self) -> (Seq<u8>, Option<ReadFailure>) {
        let (rest, f) = drain(self.stack(), self.events().skip(self.next()));
        (self.buffer().skip(self.position()) + rest, f)
    }

    /// Constructs a new [`Encoder`] over a stream of events.
    pub fn new(events: Vec<Event>) -> (r: Self)
        ensures
            r.wf(),
            r.stack() == seq![StackFrame::Header],
            r.buffer() == Seq::<u8>::empty(),
            r.position() == 0,
            r.events() == events_view(events@),
            r.next() == 0,
    {
        Encoder { events, position: 0, buffer: Vec::new(), state: CoderState::new(), next: 0 }
    }

    fn padding(&mut self, strlen: u64)
        ensures
            final(self).buffer@ == old(self).buffer@ + zeros(padding_of(strlen as int)),
            final(self).state == old(self).state,
            final(self).position == old(self).position,
            final(self).events == old(self).events,
            final(self).next == old(self).next,
    {
        let padding = calculate_padding(strlen);
        push_zeros(&mut self.buffer, padding);
    }

    fn integer(&mut self, value: u64)
        ensures
            final(self).buffer@ == old(self).buffer@ + int_token(value),
            final(self).state == old(self).state,
            final(self).position == old(self).position,
            final(self).events == old(self).events,
            final(self).next == old(self).next,
    {
        push_int(&mut self.buffer, value);
    }

    fn string(&mut self, value: &[u8])
        ensures
            final(self).buffer@ == old(self).buffer@ + str_token(value@),
            final(self).state == old(self).state,
            final(self).position == old(self).position,
            final(self).events == old(self).events,
            final(self).next == old(self).next,
    {
        push_str(&mut self.buffer, value);
    }

    fn word(&mut self, w: Word)
        ensures
            final(self).buffer@ == old(self).buffer@ + word_token(w),
            final(self).state == old(self).state,
            final(self).position == old(self).position,
            final(self).events == old(self).events,
            final(self).next == old(self).next,
    {
        push_word(&mut self.buffer, w);
    }

    fn close_frames(&mut self, closed: &Vec<StackFrame>)
        ensures
            final(self).buffer@ == old(self).buffer@ + closing_bytes(closed@),
            final(self).state == old(self).state,
            final(self).position == old(self).position,
            final(self).events == old(self).events,
            final(self).next == old(self).next,
    {
        push_closing(&mut self.buffer, closed);
    }

    fn encode(&mut self, event: &Event) -> (r: Result<(), Error>)
        requires
            wf_stack(old(self).state@),
        ensures
            wf_stack(final(self).state@),
            final(self).position == old(self).position,
            final(self).events == old(self).events,
            final(self).next == old(self).next,
            match spec_encode(old(self).state@, event@) {
                Ok((s2, bytes)) => r is Ok && final(self).state@ == s2 && final(self).buffer@
                    == old(self).buffer@ + bytes,
                Err(f) => r matches Err(err) && err.failure() == f && final(self).state@
                    == failed_stack(old(self).state@, event@) && final(self).buffer@ == old(
                    self,
                ).buffer@ + failed_bytes(event@),
            },
    {
        let ghost start = self.buffer@;
        match event {
            Event::Header => self.word(Word::NixArchive1),
            Event::Regular { executable, size } => {
                self.word(Word::Open);
                self.word(Word::Type);
                self.word(Word::Regular);
                if *executable {
                    self.word(Word::Executable);
                    self.word(Word::Empty);
                }
                self.word(Word::Contents);
                self.integer(*size);
                assert(self.buffer@ =~= start + event_bytes(event@));
            },
            Event::RegularContentChunk(chunk) => push_bytes(&mut self.buffer, chunk.as_slice()),
            Event::Symlink { target } => {
                self.word(Word::Open);
                self.word(Word::Type);
                self.word(Word::Symlink);
                self.word(Word::Target);
                assert(self.buffer@ =~= start + symlink_head());
                let checked = path_to_str(target.as_slice());
                if let Err(err) = checked {
                    return Err(Error::Utf8Error(err));
                }
                self.string(target.as_slice());
                assert(self.buffer@ =~= start + event_bytes(event@));
            },
            Event::Directory => {
                self.word(Word::Open);
                self.word(Word::Type);
                self.word(Word::Directory);
                assert(self.buffer@ =~= start + event_bytes(event@));
            },
            Event::DirectoryEntry { name } => {
                self.word(Word::Entry);
                self.word(Word::Open);
                self.word(Word::Name);
                assert(self.buffer@ =~= start + entry_head());
                let checked = path_to_str(name.as_slice());
                if let Err(err) = checked {
                    return Err(Error::Utf8Error(err));
                }
                self.string(name.as_slice());
                self.word(Word::Node);
                assert(self.buffer@ =~= start + event_bytes(event@));
            },
            Event::DirectoryEnd => (),
        }
        assert(self.buffer@ =~= start + event_bytes(event@));
        let advanced = self.state.advance(event);
        let closed = match advanced {
            Ok(closed) => closed,
            Err(err) => {
                return Err(Error::CoderError(err));
            },
        };
        self.close_frames(&closed);
        assert(self.buffer@ =~= start + (event_bytes(event@) + closing_bytes(closed@)));
        Ok(())
    }

    /// Hands out up to `max` bytes of the encoded stream, appending them to `out`.
    ///
    /// When the bytes of the current event are all handed out, the next event is
    /// encoded; a read of zero bytes means the stream is complete.
    pub fn read(&mut self, out: &mut Vec<u8>, max: usize) -> (r: Result<usize, ReadError>)
        requires
            old(self).wf(),
        ensures
            final(self).wf(),
            final(self).events() == old(self).events(),
            ({
                let s = old(self).stack();
                let next = old(self).next();
                if old(self).position() == old(self).buffer().len() && s.len() > 0 {
                    if next >= old(self).events().len() {
                        &&& r matches Err(ReadError::UnexpectedEof)
                        &&& final(out)@ == old(out)@
                        &&& final(self).buffer() == Seq::<u8>::empty()
                        &&& final(self).position() == 0
                        &&& final(self).stack() == s
                        &&& final(self).next() == next
                    } else {
                        let e = old(self).events()[next];
                        &&& final(self).next() == next + 1
                        &&& match spec_encode(s, e) {
                            Ok((s2, bytes)) => {
                                let n = if max < bytes.len() {
                                    max as int
                                } else {
                                    bytes.len() as int
                                };
                                &&& r == Ok::<usize, ReadError>(n as usize)
                                &&& final(out)@ == old(out)@ + bytes.take(n)
                                &&& final(self).buffer() == bytes
                                &&& final(self).position() == n
                                &&& final(self).stack() == s2
                            },
                            Err(f) => {
                                &&& r matches Err(ReadError::InvalidData(err))
                                &&& err.failure() == f
                                &&& final(out)@ == old(out)@
                                &&& final(self).buffer() == failed_bytes(e)
                                &&& final(self).position() == 0
                                &&& final(self).stack() == failed_stack(s, e)
                            },
                        }
                    }
                } else {
                    let avail = old(self).buffer().len() - old(self).position();
                    let n = if max < avail {
                        max as int
                    } else {
                        avail
                    };
                    &&& r == Ok::<usize, ReadError>(n as usize)
                    &&& final(out)@ == old(out)@ + old(self).buffer().subrange(
                        old(self).position(),
                        old(self).position() + n,
                    )
                    &&& final(self).buffer() == old(self).buffer()
                    &&& final(self).position() == old(self).position() + n
                    &&& final(self).stack() == s
                    &&& final(self).next() == next
                }
            }),
    {
        if self.position == self.buffer.len() && !self.state.finished() {
            self.buffer.clear();
            self.position = 0;
            if self.next >= self.events.len() {
                return Err(ReadError::UnexpectedEof);
            }
            let event = self.events[self.next].clone();
            self.next = self.next + 1;
            let encoded = self.encode(&event);
            if let Err(err) = encoded {
                return Err(ReadError::InvalidData(err));
            }
        }
        let avail = self.buffer.len() - self.position;
        let n = if max < avail {
            max
        } else {
            avail
        };
        let mut i: usize = 0;
        while i < n
            invariant
                i <= n,
                self.position + n <= self.buffer@.len(),
                self.buffer@.len() <= usize::MAX,
                out@ == old(out)@ + self.buffer@.subrange(
                    self.position as int,
                    self.position + i,
                ),
            decreases n - i,
        {
            out.push(self.buffer[self.position + i]);
            i = i + 1;
            assert(out@ =~= old(out)@ + self.buffer@.subrange(
                self.position as int,
                self.position + i,
            ));
        }
        self.position = self.position + n;
        assert(self.buffer@.take(n as int) =~= self.buffer@.subrange(0, n as int));
        Ok(n)
    }

    /// Reads the encoded stream to its end, appending it to `out`.
    pub fn read_to_end(&mut self, out: &mut Vec<u8>) -> (r: Result<usize, ReadError>)
        requires
            old(self).wf(),
        ensures
            final(self).wf(),
            final(self).events() == old(self).events(),
            ({
                let (bytes, f) = old(self).pending();
                &&& final(out)@ == old(out)@ + bytes
                &&& match f {
                    None => r == Ok::<usize, ReadError>(bytes.len() as usize),
                    Some(failure) => r matches Err(err) && err.failure() == failure,
                }
            }),
    {
        let ghost total = self.pending();
        let start = out.len();
        loop
            invariant
                self.wf(),
                self.events() == old(self).events(),
                start == old(out)@.len(),
                total == old(self).pending(),
                out@.len() >= start,
                out@ + self.pending().0 == old(out)@ + total.0,
                self.pending().1 == total.1,
            decreases self.events().len() - self.next(), self.buffer().len() - self.position(),
        {
            let ghost before = *self;
            let ghost out_before = out@;
            let result = self.read(out, 4096);
            proof {
                lemma_read_pending(before, *self, out_before, out@, result);
            }
            if result.is_err() {
                assert(out@ =~= old(out)@ + total.0);
                return result;
            }
            let n = result.unwrap();
            if n == 0 {
                assert(out@ =~= old(out)@ + total.0);

                return Ok(out.len() - start);
            }
        }
    }
}

/// How one read moves the pending bytes into the output.
#[verifier::spinoff_prover]
#[verifier::rlimit(60)]
proof fn lemma_read_pending(
    before: Encoder,
    after: Encoder,
    out_before: Seq<u8>,
    out_after: Seq<u8>,
    r: Result<usize, ReadError>,
)
    requires
        before.wf(),
        after.wf(),
        after.events() == before.events(),
        ({
            let s = before.stack();
            let next = before.next();
            let max = 4096usize;
            if before.position() == before.buffer().len() && s.len() > 0 {
                if next >= before.events().len() {
                    &&& r matches Err(ReadError::UnexpectedEof)
                    &&& out_after == out_before
                } else {
                    let e = before.events()[next];
                    &&& after.next() == next + 1
                    &&& match spec_encode(s, e) {
                        Ok((s2, bytes)) => {
                            let n = if max < bytes.len() {
                                max as int
                            } else {
                                bytes.len() as int
                            };
                            &&& r == Ok::<usize, ReadError>(n as usize)
                            &&& out_after == out_before + bytes.take(n)
                            &&& after.buffer() == bytes
                            &&& after.position() == n
                            &&& after.stack() == s2
                        },
                        Err(f) => {
                            &&& r matches Err(ReadError::InvalidData(err))
                            &&& err.failure() == f
                            &&& out_after == out_before
                        },
                    }
                }
            } else {
                let avail = before.buffer().len() - before.position();
                let n = if max < avail {
                    max as int
                } else {
                    avail
                };
                &&& r == Ok::<usize, ReadError>(n as usize)
                &&& out_after == out_before + before.buffer().subrange(
                    before.position(),
                    before.position() + n,
                )
                &&& after.buffer() == before.buffer()
                &&& after.position() == before.position() + n
                &&& after.stack() == s
                &&& after.next() == next
            }
        }),
    ensures
        match r {
            Ok(n) => if n == 0 {
                before.pending() == (Seq::<u8>::empty(), None::<ReadFailure>) && out_after
                    == out_before
            } else {
                &&& out_before + before.pending().0 == out_after + after.pending().0
                &&& before.pending().1 == after.pending().1
                &&& (after.next() > before.next() || (after.next() == before.next()
                    && after.position() > before.position() && after.buffer()
                    == before.buffer()))
            },
            Err(err) => before.pending() == (Seq::<u8>::empty(), Some(err.failure()))
                && out_after == out_before,
        },
{
    let s = before.stack();
    let next = before.next();
    let es = before.events();
    if before.position() == before.buffer().len() && s.len() > 0 {
        assert(before.buffer().skip(before.position()) =~= Seq::<u8>::empty());
        if next >= es.len() {
            assert(es.skip(next) =~= Seq::<EventView>::empty());
        } else {
            let e = es[next];
            assert(es.skip(next)[0] == e);
            assert(es.skip(next).drop_first() =~= es.skip(next + 1));
            match spec_encode(s, e) {
                Ok((s2, bytes)) => {
                    if bytes.len() == 0 {
                        assert(out_after =~= out_before);
                    } else {
                        let n = r->Ok_0 as int;
                        assert(bytes =~= bytes.take(n) + bytes.skip(n));
                        assert(out_before + before.pending().0 =~= out_after + after.pending().0);
                    }
                },
                Err(f) => {},
            }
        }
    } else {
        let n = r->Ok_0 as int;
        let b = before.buffer();
        let p = before.position();
        if n > 0 {
            assert(b.skip(p) =~= b.subrange(p, p + n) + b.skip(p + n));
            assert(out_before + before.pending().0 =~= out_after + after.pending().0);
        } else {
            assert(b.skip(p) =~= Seq::<u8>::empty());
            assert(out_after =~= out_before);
        }
    }
}


} // verus!
