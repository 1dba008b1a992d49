//! Canonical NAR event streams and the bytes that encode them.
use vstd::prelude::*;

use crate::nar::encoding::{closing_bytes, frame_closing, spec_encode};
use crate::nar::state::{spec_advance, EventView, StackFrame};

verus! {

broadcast use vstd::seq::group_seq_axioms;

/// The stack a stream starts from.
pub open spec fn initial_stack() -> Seq<StackFrame> {
    seq![StackFrame::Header]
}

/// One step of a canonical stream: the event encodes, and a content chunk
/// holds exactly the rest of its file.
pub open spec fn canonical_step(s: Seq<StackFrame>, e: EventView) -> bool {
    &&& spec_encode(s, e) is Ok
    &&& match e {
        EventView::RegularContentChunk(c) => s.len() > 0 && match s.last() {
            StackFrame::RegularData { expected, written } => written + c.len() == expected,
            _ => false,
        },
        _ => true,
    }
}

/// The bytes of a canonical step.
pub open spec fn step_bytes(s: Seq<StackFrame>, e: EventView) -> Seq<u8> {
    spec_encode(s, e)->Ok_0.1
}

/// The stack after a canonical step.
pub open spec fn step_stack(s: Seq<StackFrame>, e: EventView) -> Seq<StackFrame> {
    spec_encode(s, e)->Ok_0.0
}

/// Runs a canonical stream from stack `s`: the final stack and the bytes written,
/// or `None` if a step is not canonical.
pub open spec fn run(s: Seq<StackFrame>, es: Seq<EventView>) -> Option<
    (Seq<StackFrame>, Seq<u8>),
>
    decreases es.len(),
{
    if es.len() == 0 {
        Some((s, seq![]))
    } else if canonical_step(s, es[0]) {
        match run(step_stack(s, es[0]), es.drop_first()) {
            Some((s2, rest)) => Some((s2, step_bytes(s, es[0]) + rest)),
            None => None,
        }
    } else {
        None
    }
}

/// A complete canonical NAR stream: every step canonical, and the last one closes the archive.
pub open spec fn is_nar(es: Seq<EventView>) -> bool {
    run(initial_stack(), es) matches Some((s, _)) && s.len() == 0
}

/// The bytes of a canonical NAR stream.
pub open spec fn nar_bytes(es: Seq<EventView>) -> Seq<u8> {
    run(initial_stack(), es)->Some_0.1
}

/// Running a stream one event longer runs one more step.
pub proof fn lemma_run_push(s: Seq<StackFrame>, es: Seq<EventView>, e: EventView)
    ensures
        run(s, es.push(e)) == match run(s, es) {
            Some((s1, b1)) => if canonical_step(s1, e) {
                Some((step_stack(s1, e), b1 + step_bytes(s1, e)))
            } else {
                None
            },
            None => None,
        },
    decreases es.len(),
{
    if es.len() == 0 {
        assert(es.push(e).drop_first() =~= Seq::<EventView>::empty());
        assert(es.push(e)[0] == e);
        assert(run(step_stack(s, e), Seq::<EventView>::empty()) == Some((step_stack(s, e), Seq::<u8>::empty())));
        assert(seq![] + step_bytes(s, e) =~= step_bytes(s, e));
        assert(step_bytes(s, e) + seq![] =~= step_bytes(s, e));
    } else {
        assert(es.push(e)[0] == es[0]);
        assert(es.push(e).drop_first() =~= es.drop_first().push(e));
        if canonical_step(s, es[0]) {
            lemma_run_push(step_stack(s, es[0]), es.drop_first(), e);
            match run(step_stack(s, es[0]), es.drop_first()) {
                Some((s1, b1)) => {
                    assert(step_bytes(s, es[0]) + (b1 + step_bytes(s1, e)) =~= (step_bytes(
                        s,
                        es[0],
                    ) + b1) + step_bytes(s1, e));
                },
                None => {},
            }
        }
    }
}

/// A run splits at any event into the run of its prefix and the run of its suffix.
pub proof fn lemma_run_split(s: Seq<StackFrame>, es: Seq<EventView>, k: int)
    requires
        0 <= k <= es.len(),
        run(s, es) is Some,
    ensures
        run(s, es.take(k)) matches Some((sk, bk)) && run(sk, es.skip(k)) matches Some((
            s2,
            rest,
        )) && s2 == run(s, es)->Some_0.0 && bk + rest == run(s, es)->Some_0.1,
    decreases k,
{
    if k == 0 {
        assert(es.take(0) =~= Seq::<EventView>::empty());
        assert(es.skip(0) =~= es);
        assert(seq![] + run(s, es)->Some_0.1 =~= run(s, es)->Some_0.1);
    } else {
        let s1 = step_stack(s, es[0]);
        lemma_run_split(s1, es.drop_first(), k - 1);
        assert(es.take(k)[0] == es[0]);
        assert(es.take(k).drop_first() =~= es.drop_first().take(k - 1));
        assert(es.drop_first().skip(k - 1) =~= es.skip(k));
        let (sk, bk) = run(s1, es.drop_first().take(k - 1))->Some_0;
        let rest = run(sk, es.skip(k))->Some_0.1;
        assert(step_bytes(s, es[0]) + (bk + rest) =~= (step_bytes(s, es[0]) + bk) + rest);
    }
}

/// Closing bytes of a concatenation are the concatenation of closing bytes.
pub proof fn lemma_closing_append(a: Seq<StackFrame>, b: Seq<StackFrame>)
    ensures
        closing_bytes(a + b) == closing_bytes(a) + closing_bytes(b),
    decreases b.len(),
{
    if b.len() == 0 {
        assert(a + b =~= a);
        assert(closing_bytes(a) + seq![] =~= closing_bytes(a));
    } else {
        lemma_closing_append(a, b.drop_last());
        assert((a + b).drop_last() =~= a + b.drop_last());
        assert((a + b).last() == b.last());
        assert(closing_bytes(a) + closing_bytes(b.drop_last()) + frame_closing(b.last()) =~= closing_bytes(a) + (
        closing_bytes(b.drop_last()) + frame_closing(b.last())));
    }
}

/// The bytes that close one frame.
pub proof fn lemma_closing_single(f: StackFrame)
    ensures
        closing_bytes(seq![f]) == frame_closing(f),
{
    assert(seq![f].drop_last() =~= Seq::<StackFrame>::empty());
    assert(closing_bytes(Seq::<StackFrame>::empty()) == Seq::<u8>::empty());
    assert(seq![] + frame_closing(f) =~= frame_closing(f));
}


/// The end of the object that starts at `es[i]`: a symlink; a regular file
/// followed by non-empty content chunks that sum to its size; or a directory
/// followed by its entries and their end. `None` if no object starts there.
pub open spec fn object_end(es: Seq<EventView>, i: int) -> Option<int>
    decreases es.len() - i, 1int,
{
    if 0 <= i < es.len() {
        match es[i] {
            EventView::Symlink { .. } => Some(i + 1),
            EventView::Regular { size, .. } => chunks_end(es, i + 1, size as int),
            EventView::Directory => entries_end(es, i + 1),
            _ => None,
        }
    } else {
        None
    }
}

/// The end of the non-empty content chunks from `es[i]` on that hold exactly
/// `left` more bytes.
pub open spec fn chunks_end(es: Seq<EventView>, i: int, left: int) -> Option<int>
    decreases es.len() - i,
{
    if left == 0 {
        Some(i)
    } else if 0 <= i < es.len() {
        match es[i] {
            EventView::RegularContentChunk(c) => if 0 < c.len() <= left {
                chunks_end(es, i + 1, left - c.len())
            } else {
                None
            },
            _ => None,
        }
    } else {
        None
    }
}

/// The end of the directory entries from `es[i]` on, each an entry followed
/// by its object, closed by the end of the directory.
pub open spec fn entries_end(es: Seq<EventView>, i: int) -> Option<int>
    decreases es.len() - i, 0int,
{
    if 0 <= i < es.len() {
        match es[i] {
            EventView::DirectoryEnd => Some(i + 1),
            EventView::DirectoryEntry { .. } => match object_end(es, i + 1) {
                Some(j) => if i < j <= es.len() {
                    entries_end(es, j)
                } else {
                    None
                },
                None => None,
            },
            _ => None,
        }
    } else {
        None
    }
}

/// A well-formed NAR stream: the header, then one object that ends the
/// stream. File contents may be cut into any non-empty chunks.
pub open spec fn is_nar_stream(es: Seq<EventView>) -> bool {
    &&& es.len() >= 1
    &&& es[0] == EventView::Header
    &&& object_end(es, 1) == Some(es.len() as int)
}

/// Runs the coder from stack `s` over `es`: the final stack and every frame
/// closed on the way, in order, or `None` at the first refused event.
pub open spec fn coder_run(s: Seq<StackFrame>, es: Seq<EventView>) -> Option<
    (Seq<StackFrame>, Seq<StackFrame>),
>
    decreases es.len(),
{
    if es.len() == 0 {
        Some((s, seq![]))
    } else {
        match spec_advance(s, es[0]) {
            Ok((s1, closed)) => match coder_run(s1, es.drop_first()) {
                Some((s2, rest)) => Some((s2, closed + rest)),
                None => None,
            },
            Err(_) => None,
        }
    }
}

/// The events that start an object.
pub open spec fn object_event() -> spec_fn(EventView) -> bool {
    |e: EventView| e is Symlink || e is Regular || e is Directory
}

/// The events that start a directory entry.
pub open spec fn entry_event() -> spec_fn(EventView) -> bool {
    |e: EventView| e is DirectoryEntry
}

/// The frames that close an object.
pub open spec fn object_frame() -> spec_fn(StackFrame) -> bool {
    |f: StackFrame| f == StackFrame::Object
}

/// The frames that close a directory entry.
pub open spec fn entry_frame() -> spec_fn(StackFrame) -> bool {
    |f: StackFrame| f == StackFrame::DirectoryEntry
}

/// The bytes of the content chunks from `es[i]` on that hold `left` more
/// bytes, joined (following [`chunks_end`]).
pub open spec fn chunk_bytes(es: Seq<EventView>, i: int, left: int) -> Seq<u8>
    decreases es.len() - i,
{
    if left == 0 {
        seq![]
    } else if 0 <= i < es.len() {
        match es[i] {
            EventView::RegularContentChunk(c) => if 0 < c.len() <= left {
                c + chunk_bytes(es, i + 1, left - c.len())
            } else {
                seq![]
            },
            _ => seq![],
        }
    } else {
        seq![]
    }
}

/// The object that starts at `es[i]`, with the content chunks of each file
/// joined into one.
pub open spec fn joined_object(es: Seq<EventView>, i: int) -> Seq<EventView>
    decreases es.len() - i, 1int,
{
    if 0 <= i < es.len() {
        match es[i] {
            EventView::Symlink { .. } => seq![es[i]],
            EventView::Regular { size, .. } => if size == 0 {
                seq![es[i]]
            } else {
                seq![es[i], EventView::RegularContentChunk(chunk_bytes(es, i + 1, size as int))]
            },
            EventView::Directory => seq![es[i]] + joined_entries(es, i + 1),
            _ => seq![],
        }
    } else {
        seq![]
    }
}

/// The directory entries from `es[i]` on and their end, with the content
/// chunks of each file joined into one.
pub open spec fn joined_entries(es: Seq<EventView>, i: int) -> Seq<EventView>
    decreases es.len() - i, 0int,
{
    if 0 <= i < es.len() {
        match es[i] {
            EventView::DirectoryEnd => seq![es[i]],
            EventView::DirectoryEntry { .. } => match object_end(es, i + 1) {
                Some(j) => if i < j <= es.len() {
                    seq![es[i]] + joined_object(es, i + 1) + joined_entries(es, j)
                } else {
                    seq![]
                },
                None => seq![],
            },
            _ => seq![],
        }
    } else {
        seq![]
    }
}

/// A NAR stream with the content chunks of each file joined into one.
pub open spec fn joined(es: Seq<EventView>) -> Seq<EventView> {
    seq![es[0]] + joined_object(es, 1)
}

} // verus!
