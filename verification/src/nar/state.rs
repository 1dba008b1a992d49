//! The coder state machine shared by the NAR encoder and decoder.
//!
//! A NAR stream is a sequence of [`Event`]s. The [`CoderState`] tracks which
//! events may come next, and which open frames an event closes.
use vstd::prelude::*;

verus! {

/// One item of a NAR event stream.
///
/// Paths (`target`, `name`) are kept as their raw encoded bytes.
#[derive(Debug, PartialEq, Eq)]
pub enum Event {
    Header,
    Regular { executable: bool, size: u64 },
    RegularContentChunk(Vec<u8>),
    Symlink { target: Vec<u8> },
    Directory,
    DirectoryEntry { name: Vec<u8> },
    DirectoryEnd,
}

/// Mathematical view of an [`Event`].
pub enum EventView {
    Header,
    Regular { executable: bool, size: u64 },
    RegularContentChunk(Seq<u8>),
    Symlink { target: Seq<u8> },
    Directory,
    DirectoryEntry { name: Seq<u8> },
    DirectoryEnd,
}

impl View for Event {
    type V = EventView;

    open spec fn view(&self) -> EventView {
        match self {
            Event::Header => EventView::Header,
            Event::Regular { executable, size } => EventView::Regular {
                executable: *executable,
                size: *size,
            },
            Event::RegularContentChunk(chunk) => EventView::RegularContentChunk(chunk@),
            Event::Symlink { target } => EventView::Symlink { target: target@ },
            Event::Directory => EventView::Directory,
            Event::DirectoryEntry { name } => EventView::DirectoryEntry { name: name@ },
            Event::DirectoryEnd => EventView::DirectoryEnd,
        }
    }
}

/// The view of a sequence of events.
pub open spec fn events_view(events: Seq<Event>) -> Seq<EventView> {
    events.map_values(|e: Event| e@)
}

fn copy_bytes(bytes: &Vec<u8>) -> (r: Vec<u8>)
    ensures
        r@ == bytes@,
{
    let r = bytes.clone();
    assert(r@ =~= bytes@);
    r
}

impl Clone for Event {
    fn clone(&self) -> (r: Self)
        ensures
            r@ == self@,
    {
        match self {
            Event::Header => Event::Header,
            Event::Regular { executable, size } => Event::Regular {
                executable: *executable,
                size: *size,
            },
            Event::RegularContentChunk(chunk) => Event::RegularContentChunk(copy_bytes(chunk)),
            Event::Symlink { target } => Event::Symlink { target: copy_bytes(target) },
            Event::Directory => Event::Directory,
            Event::DirectoryEntry { name } => Event::DirectoryEntry { name: copy_bytes(name) },
            Event::DirectoryEnd => Event::DirectoryEnd,
        }
    }
}

/// A frame of the coder's stack: what the coder is in the middle of.
#[derive(Debug, Clone, Copy, PartialEq, Eq, Structural)]
pub enum StackFrame {
    Header,
    Object,
    Directory,
    DirectoryEntry,
    RegularData { expected: u64, written: u64 },
}

/// Errors of the coder state machine.
#[derive(Debug)]
pub enum Error {
    /// The stream is already complete.
    Finished,
    /// The event cannot follow the frame on top of the stack.
    Unexpected(StackFrame, Event),
}

/// The mathematical outcome of a failed transition.
pub enum AdvanceError {
    Finished,
    Unexpected(StackFrame),
}

impl Error {
    /// The view of the error, forgetting the offending event.
    pub open spec fn kind(&self) -> AdvanceError {
        match self {
            Error::Finished => AdvanceError::Finished,
            Error::Unexpected(frame, _) => AdvanceError::Unexpected(*frame),
        }
    }
}

/// A stack whose top frame is an object, under properly nested directory entries.
pub open spec fn nested_object(s: Seq<StackFrame>) -> bool
    decreases s.len(),
{
    &&& s.len() >= 1
    &&& s.last() == StackFrame::Object
    &&& (s.len() == 1 || (s.len() >= 4 && s[s.len() - 2] == StackFrame::DirectoryEntry
        && s[s.len() - 3] == StackFrame::Directory && nested_object(
        s.subrange(0, s.len() - 3),
    )))
}

/// The shapes the coder stack can take.
pub open spec fn wf_stack(s: Seq<StackFrame>) -> bool {
    ||| s == seq![StackFrame::Header]
    ||| s.len() == 0
    ||| nested_object(s)
    ||| (s.len() >= 2 && s.last() == StackFrame::Directory && nested_object(s.drop_last()))
    ||| (s.len() >= 2 && nested_object(s.drop_last()) && match s.last() {
        StackFrame::RegularData { expected, written } => written <= expected,
        _ => false,
    })
}

/// Closes the object on top of the stack, and the directory entry holding it, if any.
pub open spec fn spec_post_object(s: Seq<StackFrame>) -> (Seq<StackFrame>, Seq<StackFrame>) {
    let s1 = s.drop_last();
    if s1.len() > 0 && s1.last() == StackFrame::DirectoryEntry {
        (s1.drop_last(), seq![StackFrame::Object, StackFrame::DirectoryEntry])
    } else {
        (s1, seq![StackFrame::Object])
    }
}

/// The transition of the coder on one event: the new stack and the frames it closed.
pub open spec fn spec_advance(s: Seq<StackFrame>, e: EventView) -> Result<
    (Seq<StackFrame>, Seq<StackFrame>),
    AdvanceError,
> {
    if s.len() == 0 {
        Err(AdvanceError::Finished)
    } else {
        let frame = s.last();
        match (frame, e) {
            (StackFrame::Header, EventView::Header) => Ok(
                (s.drop_last().push(StackFrame::Object), seq![StackFrame::Header]),
            ),
            (StackFrame::Object, EventView::Regular { size, .. }) => {
                if size == 0 {
                    let (s2, closed) = spec_post_object(s);
                    Ok(
                        (
                            s2,
                            seq![StackFrame::RegularData { expected: 0, written: 0 }] + closed,
                        ),
                    )
                } else {
                    Ok((s.push(StackFrame::RegularData { expected: size, written: 0 }), seq![]))
                }
            },
            (StackFrame::Object, EventView::Symlink { .. }) => Ok(spec_post_object(s)),
            (StackFrame::Object, EventView::Directory) => Ok(
                (s.push(StackFrame::Directory), seq![]),
            ),
            (StackFrame::Directory, EventView::DirectoryEntry { .. }) => Ok(
                (s.push(StackFrame::DirectoryEntry).push(StackFrame::Object), seq![]),
            ),
            (StackFrame::Directory, EventView::DirectoryEnd) => {
                let (s2, closed) = spec_post_object(s.drop_last());
                Ok((s2, seq![StackFrame::Directory] + closed))
            },
            (
                StackFrame::RegularData { expected, written },
                EventView::RegularContentChunk(chunk),
            ) => {
                let total = written + chunk.len();
                if total == expected {
                    let (s2, closed) = spec_post_object(s.drop_last());
                    Ok((s2, seq![frame] + closed))
                } else if total > expected {
                    Err(AdvanceError::Unexpected(frame))
                } else {
                    Ok(
                        (
                            s.drop_last().push(
                                StackFrame::RegularData { expected, written: total as u64 },
                            ),
                            seq![],
                        ),
                    )
                }
            },
            _ => Err(AdvanceError::Unexpected(frame)),
        }
    }
}

/// The stack left behind by a failed transition.
pub open spec fn spec_stack_after_error(s: Seq<StackFrame>, e: EventView) -> Seq<StackFrame> {
    if s.len() > 0 && s.last() is RegularData && e is RegularContentChunk {
        s.drop_last()
    } else {
        s
    }
}

pub proof fn lemma_post_object_wf(s: Seq<StackFrame>)
    requires
        nested_object(s),
    ensures
        wf_stack(spec_post_object(s).0),
        spec_post_object(s).0.len() < s.len(),
        spec_post_object(s).1.len() >= 1,
        spec_post_object(s).1[0] == StackFrame::Object,
{
    let s1 = s.drop_last();
    if s.len() > 1 {
        assert(s1.last() == StackFrame::DirectoryEntry);
        let s2 = s1.drop_last();
        assert(s2.drop_last() =~= s.subrange(0, s.len() - 3));
        assert(s2.last() == StackFrame::Directory);
    }
}

/// Every transition keeps the stack well formed.
pub proof fn lemma_advance_wf(s: Seq<StackFrame>, e: EventView)
    requires
        wf_stack(s),
    ensures
        spec_advance(s, e) matches Ok((s2, _)) ==> wf_stack(s2),
        wf_stack(spec_stack_after_error(s, e)),
{
    if s.len() > 0 {
        let frame = s.last();
        match (frame, e) {
            (StackFrame::Header, EventView::Header) => {
                assert(s.drop_last().push(StackFrame::Object) =~= seq![StackFrame::Object]);
            },
            (StackFrame::Object, EventView::Regular { size, .. }) => {
                if size == 0 {
                    lemma_post_object_wf(s);
                } else {
                    assert(s.push(StackFrame::RegularData { expected: size, written: 0 }).drop_last()
                        =~= s);
                }
            },
            (StackFrame::Object, EventView::Symlink { .. }) => {
                lemma_post_object_wf(s);
            },
            (StackFrame::Object, EventView::Directory) => {
                assert(s.push(StackFrame::Directory).drop_last() =~= s);
            },
            (StackFrame::Directory, EventView::DirectoryEntry { .. }) => {
                let s2 = s.push(StackFrame::DirectoryEntry).push(StackFrame::Object);
                assert(s2.subrange(0, s2.len() - 3) =~= s.drop_last());
            },
            (StackFrame::Directory, EventView::DirectoryEnd) => {
                lemma_post_object_wf(s.drop_last());
            },
            (StackFrame::RegularData { expected, written }, EventView::RegularContentChunk(chunk)) => {
                let total = written + chunk.len();
                if total == expected {
                    lemma_post_object_wf(s.drop_last());
                } else if total > expected {
                    assert(nested_object(s.drop_last()));
                } else {
                    let s2 = s.drop_last().push(
                        StackFrame::RegularData { expected, written: total as u64 },
                    );
                    assert(s2.drop_last() =~= s.drop_last());
                }
            },
            _ => {},
        }
    }
}

/// The stack of the coder, tracking where in a NAR stream it stands.
#[derive(Debug)]
pub struct CoderState {
    stack: Vec<StackFrame>,
}

impl View for CoderState {
    type V = Seq<StackFrame>;

    closed spec fn view(&self) -> Seq<StackFrame> {
        self.stack@
    }
}

impl CoderState {
    /// The initial state: a stream that expects its header.
    pub fn new() -> (r: Self)
        ensures
            r@ == seq![StackFrame::Header],
            wf_stack(r@),
    {
        let mut stack = Vec::new();
        stack.push(StackFrame::Header);
        CoderState { stack }
    }

    /// Whether the stream is complete.
    pub fn finished(&self) -> (r: bool)
        ensures
            r == (self@.len() == 0),
    {
        self.stack.len() == 0
    }

    /// The frame on top of the stack.
    pub fn peek(&self) -> (r: Result<StackFrame, Error>)
        ensures
            self@.len() == 0 ==> r matches Err(Error::Finished),
            self@.len() > 0 ==> r == Ok::<StackFrame, Error>(self@.last()),
    {
        let len = self.stack.len();
        if len == 0 {
            Err(Error::Finished)
        } else {
            Ok(self.stack[len - 1])
        }
    }

    fn deconstruct(&mut self, actions: &mut Vec<StackFrame>, expected: StackFrame)
        requires
            old(self)@.len() > 0,
            old(self)@.last() == expected,
        ensures
            final(self)@ == old(self)@.drop_last(),
            final(actions)@ == old(actions)@.push(expected),
    {
        let frame = self.stack.pop();
        match frame {
            Some(frame) => actions.push(frame),
            None => {},
        }
    }

    fn pop_top(&mut self) -> (frame: StackFrame)
        requires
            old(self)@.len() > 0,
        ensures
            frame == old(self)@.last(),
            final(self)@ == old(self)@.drop_last(),
    {
        self.stack.pop().unwrap()
    }

    fn construct(&mut self, frame: StackFrame)
        ensures
            final(self)@ == old(self)@.push(frame),
    {
        self.stack.push(frame);
    }

    fn post_object(&mut self, actions: &mut Vec<StackFrame>)
        requires
            nested_object(old(self)@),
        ensures
            final(self)@ == spec_post_object(old(self)@).0,
            final(actions)@ == old(actions)@ + spec_post_object(old(self)@).1,
    {
        self.deconstruct(actions, StackFrame::Object);
        let len = self.stack.len();
        if len > 0 && self.stack[len - 1] == StackFrame::DirectoryEntry {
            self.deconstruct(actions, StackFrame::DirectoryEntry);
        }
        assert(final(actions)@ =~= old(actions)@ + spec_post_object(old(self)@).1);
    }

    fn advance_chunk(&mut self, event: &Event, chunk_len: usize) -> (r: Result<
        Vec<StackFrame>,
        Error,
    >)
        requires
            wf_stack(old(self)@),
            old(self)@.len() > 0,
            old(self)@.last() is RegularData,
            event@ matches EventView::RegularContentChunk(c) && c.len() == chunk_len,
        ensures
            wf_stack(final(self)@),
            match spec_advance(old(self)@, event@) {
                Ok((s2, closed)) => r matches Ok(v) && v@ == closed && final(self)@ == s2,
                Err(kind) => r matches Err(err) && err.kind() == kind && final(self)@
                    == spec_stack_after_error(old(self)@, event@) && (err matches Error::Unexpected(
                    _,
                    ev,
                ) ==> ev@ == event@),
            },
    {
        proof {
            lemma_advance_wf(self@, event@);
        }
        let mut deconstructed: Vec<StackFrame> = Vec::new();
        let frame = self.pop_top();
        let (expected, written) = match frame {
            StackFrame::RegularData { expected, written } => (expected, written),
            _ => (0, 0),
        };
        let total = written.checked_add(chunk_len as u64);
        let fits = match total {
            Some(total) => total <= expected,
            None => false,
        };
        if !fits {
            let ev = event.clone();
            return Err(Error::Unexpected(frame, ev));
        }
        let written = total.unwrap();
        if expected == written {
            deconstructed.push(frame);
            self.post_object(&mut deconstructed);
            assert(deconstructed@ =~= seq![frame] + spec_post_object(old(self)@.drop_last()).1);
        } else {
            self.construct(StackFrame::RegularData { expected, written });
        }
        Ok(deconstructed)
    }

    /// Advances the state by one event, returning the frames that the event closed.
    pub fn advance(&mut self, event: &Event) -> (r: Result<Vec<StackFrame>, Error>)
        requires
            wf_stack(old(self)@),
        ensures
            wf_stack(final(self)@),
            match spec_advance(old(self)@, event@) {
                Ok((s2, closed)) => r matches Ok(v) && v@ == closed && final(self)@ == s2,
                Err(kind) => r matches Err(err) && err.kind() == kind && final(self)@
                    == spec_stack_after_error(old(self)@, event@) && (err matches Error::Unexpected(
                    _,
                    ev,
                ) ==> ev@ == event@),
            },
    {
        proof {
            lemma_advance_wf(self@, event@);
        }
        let mut deconstructed: Vec<StackFrame> = Vec::new();
        let len = self.stack.len();
        if len == 0 {
            return Err(Error::Finished);
        }
        let frame = self.stack[len - 1];
        match (frame, event) {
            (StackFrame::Header, Event::Header) => {
                self.deconstruct(&mut deconstructed, frame);
                self.construct(StackFrame::Object);
                assert(deconstructed@ =~= seq![StackFrame::Header]);
            },
            (StackFrame::Object, Event::Regular { size, .. }) => {
                self.construct(StackFrame::RegularData { expected: *size, written: 0 });
                // ensure at least 1 regular chunk is emitted to properly handle ending regular
                let empty = Event::RegularContentChunk(Vec::new());
                assert(self@.drop_last() =~= old(self)@);
                let mut inner = match self.advance_chunk(&empty, 0) {
                    Ok(inner) => inner,
                    Err(_) => Vec::new(),
                };
                deconstructed.append(&mut inner);
                assert(deconstructed@ =~= spec_advance(old(self)@, event@)->Ok_0.1);
                assert(self@ =~= spec_advance(old(self)@, event@)->Ok_0.0);
            },
            (StackFrame::Object, Event::Symlink { .. }) => {
                self.post_object(&mut deconstructed);
                assert(deconstructed@ =~= spec_post_object(old(self)@).1);
            },
            (StackFrame::Object, Event::Directory) => {
                self.construct(StackFrame::Directory);
            },
            (StackFrame::Directory, Event::DirectoryEntry { .. }) => {
                self.construct(StackFrame::DirectoryEntry);
                self.construct(StackFrame::Object);
            },
            (StackFrame::Directory, Event::DirectoryEnd) => {
                self.deconstruct(&mut deconstructed, frame);
                self.post_object(&mut deconstructed);
                assert(deconstructed@ =~= seq![StackFrame::Directory] + spec_post_object(
                    old(self)@.drop_last(),
                ).1);
            },
            (StackFrame::RegularData { .. }, Event::RegularContentChunk(chunk)) => {
                return self.advance_chunk(event, chunk.len());
            },
            _ => {
                return Err(Error::Unexpected(frame, event.clone()));
            },
        }
        Ok(deconstructed)
    }
}

} // verus!
