//! Laws of the NAR encoder, stated over the stream specification.
use vstd::prelude::*;

use crate::nar::decoding::{decoding_of, lemma_step_nonempty};
use crate::nar::encoding::{closing_bytes, drain, paths_valid, spec_encode};
use crate::nar::state::{
    lemma_advance_wf, lemma_post_object_wf, nested_object, spec_advance, spec_post_object, wf_stack,
    EventView, StackFrame,
};
use crate::nar::stream::lemma_run_split;
use crate::nar::stream::{
    chunk_bytes, chunks_end, coder_run, entries_end, entry_event, entry_frame, is_nar_stream, joined,
    joined_entries, joined_object, object_end, object_event, object_frame,
};
use crate::nar::stream::{
    lemma_closing_append, lemma_closing_single, canonical_step, initial_stack, is_nar, nar_bytes, run, step_bytes, step_stack,
};

verus! {

broadcast use vstd::seq::group_seq_axioms;

proof fn lemma_drain_run(s: Seq<StackFrame>, es: Seq<EventView>)
    requires
        wf_stack(s),
        run(s, es) matches Some((s2, _)) && s2.len() == 0,
    ensures
        drain(s, es) == (run(s, es)->Some_0.1, None::<crate::nar::encoding::ReadFailure>),
    decreases es.len(),
{
    if es.len() == 0 {
    } else {
        let e = es[0];
        assert(canonical_step(s, e));
        lemma_step_nonempty(s, e);
        lemma_advance_wf(s, e);
        lemma_drain_run(step_stack(s, e), es.drop_first());
    }
}

/// Reading an encoder over a canonical NAR stream to its end yields exactly the
/// stream's NAR bytes, and no error.
pub proof fn law_encoder_output(es: Seq<EventView>)
    requires
        is_nar(es),
    ensures
        drain(initial_stack(), es) == (nar_bytes(es), None::<crate::nar::encoding::ReadFailure>),
{
    lemma_drain_run(initial_stack(), es);
}

/// Splitting a file's contents into two non-empty chunks does not change the encoding.
pub proof fn law_chunks_concatenate(
    s: Seq<StackFrame>,
    c1: Seq<u8>,
    c2: Seq<u8>,
    rest: Seq<EventView>,
)
    requires
        wf_stack(s),
        s.len() > 0,
        s.last() is RegularData,
        c1.len() > 0,
        c2.len() > 0,
        s.last()->written + c1.len() < s.last()->expected,
        s.last()->written + c1.len() + c2.len() <= s.last()->expected,
    ensures
        drain(
            s,
            seq![EventView::RegularContentChunk(c1), EventView::RegularContentChunk(c2)] + rest,
        ) == drain(s, seq![EventView::RegularContentChunk(c1 + c2)] + rest),
{
    let es1 = seq![EventView::RegularContentChunk(c1), EventView::RegularContentChunk(c2)] + rest;
    let es2 = seq![EventView::RegularContentChunk(c1 + c2)] + rest;
    assert(es1[0] == EventView::RegularContentChunk(c1));
    assert(es2[0] == EventView::RegularContentChunk(c1 + c2));
    let (s1, b1) = spec_encode(s, EventView::RegularContentChunk(c1))->Ok_0;
    assert(b1 =~= c1 + seq![]);
    assert(es1.drop_first()[0] == EventView::RegularContentChunk(c2));
    assert(es1.drop_first().drop_first() =~= rest);
    assert(es2.drop_first() =~= rest);
    let frame = s.last();
    let total = frame->written + c1.len() + c2.len();
    if total <= frame->expected {
        let s1_top = s1.last();
        assert(s1.drop_last() =~= s.drop_last());
        assert(s1_top->written == frame->written + c1.len());
        let (s3, b3) = spec_encode(s1, EventView::RegularContentChunk(c2))->Ok_0;
        let (s4, b4) = spec_encode(s, EventView::RegularContentChunk(c1 + c2))->Ok_0;
        if total == frame->expected {
            let post = spec_post_object(s.drop_last());
            lemma_closing_append(seq![frame], post.1);
            lemma_closing_append(seq![s1_top], post.1);
            lemma_closing_single(frame);
            lemma_closing_single(s1_top);
            assert(b4 =~= c1 + b3);
        } else {
            assert(s4 =~= s3);
            assert(b4 =~= c1 + b3);
        }
        assert(s4 == s3);
        let (d, f) = drain(s3, rest);
        assert(drain(s1, es1.drop_first()) == (b3 + d, f));
        assert(drain(s, es1) == (b1 + (b3 + d), f));
        assert(drain(s, es2) == (b4 + d, f));
        assert(b1 + (b3 + d) =~= b4 + d);
    }
}

/// Encoding what was decoded gives back the input: when `input` decodes to
/// `es`, an encoder over `es` yields exactly `input`, with no error.
pub proof fn law_decode_then_encode(input: Seq<u8>, es: Seq<EventView>)
    requires
        decoding_of(input, Some(es)),
    ensures
        drain(initial_stack(), es) == (input, None::<crate::nar::encoding::ReadFailure>),
{
    law_encoder_output(es);
}

/// Decoding what was encoded gives back the stream: the encoding of a
/// canonical stream decodes, and to that stream.
pub proof fn law_encode_then_decode(es: Seq<EventView>, result: Option<Seq<EventView>>)
    requires
        is_nar(es),
        decoding_of(nar_bytes(es), result),
    ensures
        result == Some(es),
{
    law_encoder_output(es);
}

/// A canonical stream drives the coder from its start to its end: every
/// event is accepted, and the coder is finished (its stack empty) after the
/// last event and after no earlier one.
pub proof fn law_coder_runs_canonical_stream(es: Seq<EventView>, k: int)
    requires
        is_nar(es),
        0 <= k <= es.len(),
    ensures
        run(initial_stack(), es.take(k)) matches Some((s, _)) && (s.len() == 0 <==> k == es.len()),
{
    lemma_run_split(initial_stack(), es, k);
    if k == es.len() {
        assert(es.take(k) =~= es);
    } else {
        let sk = run(initial_stack(), es.take(k))->Some_0.0;
        let rest = es.skip(k);
        assert(rest.len() > 0);
        assert(run(sk, rest) is Some);
        assert(canonical_step(sk, rest[0]));
    }
}


/// Running the coder over `a + b` runs it over `a`, then over `b`.
proof fn lemma_coder_run_append(s: Seq<StackFrame>, a: Seq<EventView>, b: Seq<EventView>)
    ensures
        coder_run(s, a + b) == match coder_run(s, a) {
            Some((s1, c1)) => match coder_run(s1, b) {
                Some((s2, c2)) => Some((s2, c1 + c2)),
                None => None,
            },
            None => None,
        },
    decreases a.len(),
{
    if a.len() == 0 {
        assert(a + b =~= b);
        match coder_run(s, b) {
            Some((s2, c2)) => {
                assert(seq![] + c2 =~= c2);
            },
            None => {},
        }
    } else {
        assert((a + b)[0] == a[0]);
        assert((a + b).drop_first() =~= a.drop_first() + b);
        match spec_advance(s, a[0]) {
            Ok((s1, closed)) => {
                lemma_coder_run_append(s1, a.drop_first(), b);
                match coder_run(s1, a.drop_first()) {
                    Some((t, c1)) => match coder_run(t, b) {
                        Some((s2, c2)) => {
                            assert(closed + (c1 + c2) =~= (closed + c1) + c2);
                        },
                        None => {},
                    },
                    None => {},
                }
            },
            Err(_) => {},
        }
    }
}

/// Running the coder over one event is one step.
proof fn lemma_coder_run_single(s: Seq<StackFrame>, e: EventView)
    ensures
        coder_run(s, seq![e]) == match spec_advance(s, e) {
            Ok((s1, closed)) => Some((s1, closed)),
            Err(_) => None::<(Seq<StackFrame>, Seq<StackFrame>)>,
        },
{
    assert(seq![e][0] == e);
    assert(seq![e].drop_first() =~= Seq::<EventView>::empty());
    match spec_advance(s, e) {
        Ok((s1, closed)) => {
            assert(coder_run(s1, Seq::<EventView>::empty()) == Some((s1, Seq::<StackFrame>::empty())));
            assert(closed + Seq::<StackFrame>::empty() =~= closed);
        },
        Err(_) => {},
    }
}

/// How many items of `seq![x] + rest` a predicate keeps.
proof fn lemma_filter_cons<A>(x: A, rest: Seq<A>, p: spec_fn(A) -> bool)
    ensures
        (seq![x] + rest).filter(p).len() == (if p(x) {
            1int
        } else {
            0int
        }) + rest.filter(p).len(),
{
    Seq::filter_distributes_over_add(seq![x], rest, p);
    Seq::<A>::empty().lemma_filter_push(x, p);
    assert(Seq::<A>::empty().push(x) =~= seq![x]);
    assert(Seq::<A>::empty().filter(p) =~= Seq::<A>::empty()) by {
        reveal(Seq::filter);
    }
}

/// How many items of `a + b` a predicate keeps.
proof fn lemma_filter_concat<A>(a: Seq<A>, b: Seq<A>, p: spec_fn(A) -> bool)
    ensures
        (a + b).filter(p).len() == a.filter(p).len() + b.filter(p).len(),
{
    Seq::filter_distributes_over_add(a, b, p);
}

/// The frames that closing an object closes: the object, and the entry that
/// held it, if any.
proof fn lemma_post_counts(s: Seq<StackFrame>)
    requires
        nested_object(s),
    ensures
        spec_post_object(s).1.filter(object_frame()).len() == 1,
        spec_post_object(s).1.filter(entry_frame()).len() == spec_post_object(s).1.len() - 1,
        1 <= spec_post_object(s).1.len() <= 2,
{
    let closed = spec_post_object(s).1;
    if closed.len() == 1 {
        assert(closed =~= seq![StackFrame::Object] + Seq::<StackFrame>::empty());
        lemma_filter_cons(StackFrame::Object, Seq::<StackFrame>::empty(), object_frame());
        lemma_filter_cons(StackFrame::Object, Seq::<StackFrame>::empty(), entry_frame());
    } else {
        assert(closed =~= seq![StackFrame::Object] + seq![StackFrame::DirectoryEntry]);
        lemma_filter_cons(StackFrame::Object, seq![StackFrame::DirectoryEntry], object_frame());
        lemma_filter_cons(StackFrame::Object, seq![StackFrame::DirectoryEntry], entry_frame());
        assert(seq![StackFrame::DirectoryEntry] =~= seq![StackFrame::DirectoryEntry] + Seq::<StackFrame>::empty());
        lemma_filter_cons(StackFrame::DirectoryEntry, Seq::<StackFrame>::empty(), object_frame());
        lemma_filter_cons(StackFrame::DirectoryEntry, Seq::<StackFrame>::empty(), entry_frame());
    }
}

/// The content chunks of a regular file, from `written` of `size` bytes on,
/// close the file and the object that holds it.
proof fn lemma_chunks(s: Seq<StackFrame>, written: u64, size: u64, es: Seq<EventView>, k: int)
    requires
        nested_object(s),
        written < size,
        0 <= k,
        chunks_end(es, k, size - written) is Some,
    ensures
        ({
            let j = chunks_end(es, k, size - written)->Some_0;
            &&& k < j <= es.len()
            &&& coder_run(s.push(StackFrame::RegularData { expected: size, written }), es.subrange(k, j))
                matches Some((s2, c)) && s2 == spec_post_object(s).0 && c.filter(object_frame()).len()
                == 1 && c.filter(entry_frame()).len() == spec_post_object(s).1.len() - 1
            &&& es.subrange(k, j).filter(object_event()).len() == 0
            &&& es.subrange(k, j).filter(entry_event()).len() == 0
        }),
    decreases es.len() - k,
{
    let j = chunks_end(es, k, size - written)->Some_0;
    let t = s.push(StackFrame::RegularData { expected: size, written });
    let chunk = es[k]->RegularContentChunk_0;
    let total = written + chunk.len();
    assert(t.drop_last() =~= s);
    lemma_post_counts(s);
    let post = spec_post_object(s);
    if total == size {
        assert(chunks_end(es, k + 1, 0) == Some(k + 1));
        assert(j == k + 1);
        let seg = es.subrange(k, j);
        assert(seg =~= seq![es[k]]);
        assert(seg.drop_first() =~= Seq::<EventView>::empty());
        let closed = seq![StackFrame::RegularData { expected: size, written }] + post.1;
        assert(spec_advance(t, es[k]) == Ok::<(Seq<StackFrame>, Seq<StackFrame>), crate::nar::state::AdvanceError>((post.0, closed)));
        assert(coder_run(post.0, seg.drop_first()) == Some((post.0, Seq::<StackFrame>::empty())));
        assert(closed + Seq::<StackFrame>::empty() =~= closed);
        lemma_filter_cons(StackFrame::RegularData { expected: size, written }, post.1, object_frame());
        lemma_filter_cons(StackFrame::RegularData { expected: size, written }, post.1, entry_frame());
        assert(seg =~= seq![es[k]] + Seq::<EventView>::empty());
        lemma_filter_cons(es[k], Seq::<EventView>::empty(), object_event());
        lemma_filter_cons(es[k], Seq::<EventView>::empty(), entry_event());
        assert(Seq::<EventView>::empty().filter(object_event()) =~= Seq::<EventView>::empty()) by {
            reveal(Seq::filter);
        }
        assert(Seq::<EventView>::empty().filter(entry_event()) =~= Seq::<EventView>::empty()) by {
            reveal(Seq::filter);
        }
    } else {
        let w2 = total as u64;
        let t2 = s.push(StackFrame::RegularData { expected: size, written: w2 });
        assert(spec_advance(t, es[k]) == Ok::<(Seq<StackFrame>, Seq<StackFrame>), crate::nar::state::AdvanceError>((t2, Seq::<StackFrame>::empty())));
        assert(t.drop_last().push(StackFrame::RegularData { expected: size, written: w2 }) =~= t2);
        lemma_chunks(s, w2, size, es, k + 1);
        let seg = es.subrange(k, j);
        let rest = es.subrange(k + 1, j);
        assert(seg =~= seq![es[k]] + rest);
        lemma_coder_run_append(t, seq![es[k]], rest);
        lemma_coder_run_single(t, es[k]);
        let c2 = coder_run(t2, rest)->Some_0.1;
        assert(Seq::<StackFrame>::empty() + c2 =~= c2);
        lemma_filter_cons(es[k], rest, object_event());
        lemma_filter_cons(es[k], rest, entry_event());
    }
}

/// No event of an empty sequence is kept.
proof fn lemma_filter_empty<A>(p: spec_fn(A) -> bool)
    ensures
        Seq::<A>::empty().filter(p).len() == 0,
{
    reveal(Seq::filter);
}

/// The object that starts at `es[i]`, run from a stack whose top is an open
/// object, closes that object: one object frame per object event in it, and
/// one entry frame per entry event in it, plus the entry that held it.
proof fn lemma_object(s: Seq<StackFrame>, es: Seq<EventView>, i: int)
    requires
        nested_object(s),
        0 <= i,
        object_end(es, i) is Some,
    ensures
        ({
            let j = object_end(es, i)->Some_0;
            &&& i < j <= es.len()
            &&& coder_run(s, es.subrange(i, j)) matches Some((s2, c)) && s2 == spec_post_object(s).0
                && c.filter(object_frame()).len() == es.subrange(i, j).filter(object_event()).len()
                && c.filter(entry_frame()).len() == es.subrange(i, j).filter(entry_event()).len()
                + spec_post_object(s).1.len() - 1
        }),
    decreases es.len() - i, 1int,
{
    let j = object_end(es, i)->Some_0;
    let e = es[i];
    lemma_post_counts(s);
    let post = spec_post_object(s);
    lemma_filter_empty(object_event());
    lemma_filter_empty(entry_event());
    match e {
        EventView::Symlink { .. } => {
            let seg = es.subrange(i, j);
            assert(seg =~= seq![e]);
            assert(seq![e] =~= seq![e] + Seq::<EventView>::empty());
            lemma_coder_run_single(s, e);
            lemma_filter_cons(e, Seq::<EventView>::empty(), object_event());
            lemma_filter_cons(e, Seq::<EventView>::empty(), entry_event());
        },
        EventView::Regular { size, .. } => {
            if size == 0 {
                assert(j == i + 1);
                let seg = es.subrange(i, j);
                assert(seg =~= seq![e]);
                assert(seq![e] =~= seq![e] + Seq::<EventView>::empty());
                lemma_coder_run_single(s, e);
                let data = StackFrame::RegularData { expected: 0, written: 0 };
                lemma_filter_cons(data, post.1, object_frame());
                lemma_filter_cons(data, post.1, entry_frame());
                lemma_filter_cons(e, Seq::<EventView>::empty(), object_event());
                lemma_filter_cons(e, Seq::<EventView>::empty(), entry_event());
            } else {
                let t = s.push(StackFrame::RegularData { expected: size, written: 0 });
                lemma_chunks(s, 0, size, es, i + 1);
                let rest = es.subrange(i + 1, j);
                assert(es.subrange(i, j) =~= seq![e] + rest);
                lemma_coder_run_single(s, e);
                lemma_coder_run_append(s, seq![e], rest);
                let c2 = coder_run(t, rest)->Some_0.1;
                assert(Seq::<StackFrame>::empty() + c2 =~= c2);
                lemma_filter_cons(e, rest, object_event());
                lemma_filter_cons(e, rest, entry_event());
            }
        },
        EventView::Directory => {
            let t = s.push(StackFrame::Directory);
            assert(t.drop_last() =~= s);
            lemma_entries(t, es, i + 1);
            let rest = es.subrange(i + 1, j);
            assert(es.subrange(i, j) =~= seq![e] + rest);
            lemma_coder_run_single(s, e);
            lemma_coder_run_append(s, seq![e], rest);
            let c2 = coder_run(t, rest)->Some_0.1;
            assert(Seq::<StackFrame>::empty() + c2 =~= c2);
            lemma_filter_cons(e, rest, object_event());
            lemma_filter_cons(e, rest, entry_event());
        },
        _ => {},
    }
}

/// The entries of a directory from `es[k]` on, run from a stack whose top
/// is the open directory, close the directory and the object that holds it:
/// one object frame per object event in them and one for the directory, and
/// one entry frame per entry event in them, plus the entry that held the
/// directory.
proof fn lemma_entries(t: Seq<StackFrame>, es: Seq<EventView>, k: int)
    requires
        t.len() >= 2,
        t.last() == StackFrame::Directory,
        nested_object(t.drop_last()),
        0 <= k,
        entries_end(es, k) is Some,
    ensures
        ({
            let j = entries_end(es, k)->Some_0;
            &&& k < j <= es.len()
            &&& coder_run(t, es.subrange(k, j)) matches Some((s2, c)) && s2 == spec_post_object(
                t.drop_last(),
            ).0 && c.filter(object_frame()).len() == es.subrange(k, j).filter(object_event()).len()
                + 1 && c.filter(entry_frame()).len() == es.subrange(k, j).filter(entry_event()).len()
                + spec_post_object(t.drop_last()).1.len() - 1
        }),
    decreases es.len() - k, 0int,
{
    let j = entries_end(es, k)->Some_0;
    let s = t.drop_last();
    let e = es[k];
    lemma_post_counts(s);
    let post = spec_post_object(s);
    lemma_filter_empty(object_event());
    lemma_filter_empty(entry_event());
    match e {
        EventView::DirectoryEnd => {
            let seg = es.subrange(k, j);
            assert(seg =~= seq![e]);
            assert(seq![e] =~= seq![e] + Seq::<EventView>::empty());
            lemma_coder_run_single(t, e);
            lemma_filter_cons(StackFrame::Directory, post.1, object_frame());
            lemma_filter_cons(StackFrame::Directory, post.1, entry_frame());
            lemma_filter_cons(e, Seq::<EventView>::empty(), object_event());
            lemma_filter_cons(e, Seq::<EventView>::empty(), entry_event());
        },
        EventView::DirectoryEntry { .. } => {
            let t2 = t.push(StackFrame::DirectoryEntry).push(StackFrame::Object);
            assert(t2.subrange(0, t2.len() - 3) =~= s);
            assert(nested_object(t2));
            assert(t2.drop_last() =~= t.push(StackFrame::DirectoryEntry));
            assert(t2.drop_last().drop_last() =~= t);
            assert(spec_post_object(t2) == (t, seq![StackFrame::Object, StackFrame::DirectoryEntry]));
            lemma_object(t2, es, k + 1);
            let m = object_end(es, k + 1)->Some_0;
            lemma_entries(t, es, m);
            let seg1 = es.subrange(k + 1, m);
            let seg2 = es.subrange(m, j);
            assert(es.subrange(k, j) =~= seq![e] + (seg1 + seg2));
            lemma_coder_run_single(t, e);
            lemma_coder_run_append(t, seq![e], seg1 + seg2);
            lemma_coder_run_append(t2, seg1, seg2);
            let c1 = coder_run(t2, seg1)->Some_0.1;
            let c2 = coder_run(t, seg2)->Some_0.1;
            assert(Seq::<StackFrame>::empty() + (c1 + c2) =~= c1 + c2);
            lemma_filter_concat(c1, c2, object_frame());
            lemma_filter_concat(c1, c2, entry_frame());
            lemma_filter_concat(seg1, seg2, object_event());
            lemma_filter_concat(seg1, seg2, entry_event());
            lemma_filter_cons(e, seg1 + seg2, object_event());
            lemma_filter_cons(e, seg1 + seg2, entry_event());
        },
        _ => {},
    }
}

/// Any well-formed NAR stream, its file contents cut into any non-empty
/// chunks, drives the coder from its start to its end: every event is
/// accepted, the coder is finished (its stack empty) after the last event
/// and after no earlier one, and the frames it closes hold exactly one
/// object frame per object and one entry frame per directory entry.
pub proof fn law_coder_runs_any_stream(es: Seq<EventView>, k: int)
    requires
        is_nar_stream(es),
        0 <= k <= es.len(),
    ensures
        coder_run(initial_stack(), es.take(k)) matches Some((s, _)) && (s.len() == 0 <==> k
            == es.len()),
        coder_run(initial_stack(), es) matches Some((_, closed)) && closed.filter(object_frame()).len()
            == es.filter(object_event()).len() && closed.filter(entry_frame()).len() == es.filter(
            entry_event(),
        ).len(),
{
    let top = seq![StackFrame::Object];
    assert(nested_object(top));
    assert(top.drop_last() =~= Seq::<StackFrame>::empty());
    assert(spec_post_object(top) == (Seq::<StackFrame>::empty(), seq![StackFrame::Object]));
    lemma_object(top, es, 1);
    let body = es.subrange(1, es.len() as int);
    assert(es =~= seq![es[0]] + body);
    assert(initial_stack().drop_last().push(StackFrame::Object) =~= top);
    lemma_coder_run_single(initial_stack(), es[0]);
    lemma_coder_run_append(initial_stack(), seq![es[0]], body);
    let c = coder_run(top, body)->Some_0.1;
    lemma_filter_concat(seq![StackFrame::Header], c, object_frame());
    lemma_filter_concat(seq![StackFrame::Header], c, entry_frame());
    assert(seq![StackFrame::Header] =~= seq![StackFrame::Header] + Seq::<StackFrame>::empty());
    lemma_filter_empty(object_frame());
    lemma_filter_empty(entry_frame());
    lemma_filter_cons(StackFrame::Header, Seq::<StackFrame>::empty(), object_frame());
    lemma_filter_cons(StackFrame::Header, Seq::<StackFrame>::empty(), entry_frame());
    lemma_filter_cons(es[0], body, object_event());
    lemma_filter_cons(es[0], body, entry_event());
    assert(es.take(k) + es.skip(k) =~= es);
    lemma_coder_run_append(initial_stack(), es.take(k), es.skip(k));
    if k < es.len() {
        let sk = coder_run(initial_stack(), es.take(k))->Some_0.0;
        assert(es.skip(k).len() > 0);
        if sk.len() == 0 {
            assert(spec_advance(sk, es.skip(k)[0]) is Err);
        }
    } else {
        assert(es.take(k) =~= es);
    }
}

/// Running a canonical stream over `a + b` runs it over `a`, then over `b`.
proof fn lemma_run_append(s: Seq<StackFrame>, a: Seq<EventView>, b: Seq<EventView>)
    ensures
        run(s, a + b) == match run(s, a) {
            Some((s1, b1)) => match run(s1, b) {
                Some((s2, b2)) => Some((s2, b1 + b2)),
                None => None,
            },
            None => None,
        },
    decreases a.len(),
{
    if a.len() == 0 {
        assert(a + b =~= b);
        match run(s, b) {
            Some((s2, b2)) => {
                assert(seq![] + b2 =~= b2);
            },
            None => {},
        }
    } else {
        assert((a + b)[0] == a[0]);
        assert((a + b).drop_first() =~= a.drop_first() + b);
        if canonical_step(s, a[0]) {
            let s1 = step_stack(s, a[0]);
            lemma_run_append(s1, a.drop_first(), b);
            match run(s1, a.drop_first()) {
                Some((t, c1)) => match run(t, b) {
                    Some((s2, c2)) => {
                        assert(step_bytes(s, a[0]) + (c1 + c2) =~= (step_bytes(s, a[0]) + c1) + c2);
                    },
                    None => {},
                },
                None => {},
            }
        }
    }
}

/// Running a canonical stream of one event is one step.
proof fn lemma_run_single(s: Seq<StackFrame>, e: EventView)
    ensures
        run(s, seq![e]) == if canonical_step(s, e) {
            Some((step_stack(s, e), step_bytes(s, e)))
        } else {
            None
        },
{
    assert(seq![e][0] == e);
    assert(seq![e].drop_first() =~= Seq::<EventView>::empty());
    if canonical_step(s, e) {
        assert(run(step_stack(s, e), Seq::<EventView>::empty()) == Some((step_stack(s, e), Seq::<u8>::empty())));
        assert(step_bytes(s, e) + Seq::<u8>::empty() =~= step_bytes(s, e));
    }
}

/// The encoder, over `seq![e] + rest` from a live stack, writes the bytes of
/// `e` and goes on, when `e` encodes to some bytes.
proof fn lemma_drain_step(s: Seq<StackFrame>, e: EventView, rest: Seq<EventView>)
    requires
        s.len() > 0,
        spec_encode(s, e) matches Ok((_, b)) && b.len() > 0,
    ensures
        drain(s, seq![e] + rest) == (spec_encode(s, e)->Ok_0.1 + drain(spec_encode(s, e)->Ok_0.0, rest).0, drain(
            spec_encode(s, e)->Ok_0.0,
            rest,
        ).1),
{
    assert((seq![e] + rest)[0] == e);
    assert((seq![e] + rest).drop_first() =~= rest);
}

/// From stack `s`, the encoder writes `bytes` over `seg`, whatever follows,
/// and goes on from stack `s2`.
spec fn drains_as(s: Seq<StackFrame>, seg: Seq<EventView>, bytes: Seq<u8>, s2: Seq<StackFrame>) -> bool {
    forall|rest: Seq<EventView>|
        #[trigger] drain(s, seg + rest) == (bytes + drain(s2, rest).0, drain(s2, rest).1)
}

/// Every event of `es` has UTF-8 paths.
spec fn all_paths_valid(es: Seq<EventView>) -> bool {
    forall|x: int| 0 <= x < es.len() ==> paths_valid(#[trigger] es[x])
}

/// The content chunks of a file, from `written` of `size` bytes on, encode
/// like one chunk holding their bytes joined.
proof fn lemma_drain_chunks(s: Seq<StackFrame>, written: u64, size: u64, es: Seq<EventView>, k: int)
    requires
        nested_object(s),
        written < size,
        0 <= k,
        chunks_end(es, k, size - written) is Some,
    ensures
        ({
            let j = chunks_end(es, k, size - written)->Some_0;
            let joined_bytes = chunk_bytes(es, k, size - written);
            let post = spec_post_object(s);
            &&& k < j <= es.len()
            &&& joined_bytes.len() == size - written
            &&& drains_as(
                s.push(StackFrame::RegularData { expected: size, written }),
                es.subrange(k, j),
                joined_bytes + closing_bytes(seq![StackFrame::RegularData { expected: size, written: 0 }] + post.1),
                post.0,
            )
        }),
    decreases es.len() - k,
{
    let j = chunks_end(es, k, size - written)->Some_0;
    let t = s.push(StackFrame::RegularData { expected: size, written });
    let chunk = es[k]->RegularContentChunk_0;
    let total = written + chunk.len();
    let post = spec_post_object(s);
    let closing = closing_bytes(seq![StackFrame::RegularData { expected: size, written: 0 }] + post.1);
    assert(t.drop_last() =~= s);
    lemma_closing_append(seq![StackFrame::RegularData { expected: size, written: 0 }], post.1);
    lemma_closing_single(StackFrame::RegularData { expected: size, written: 0 });
    if total == size {
        assert(chunks_end(es, k + 1, 0) == Some(k + 1));
        assert(j == k + 1);
        let seg = es.subrange(k, j);
        assert(seg =~= seq![es[k]]);
        assert(chunk_bytes(es, k + 1, 0) == Seq::<u8>::empty());
        assert(chunk_bytes(es, k, size - written) =~= chunk);
        let frame = StackFrame::RegularData { expected: size, written };
        lemma_closing_append(seq![frame], post.1);
        lemma_closing_single(frame);
        assert(spec_encode(t, es[k]) == Ok::<(Seq<StackFrame>, Seq<u8>), crate::nar::encoding::EncodeFailure>((post.0, chunk + closing)));
        assert forall|rest: Seq<EventView>| #[trigger] drain(t, seg + rest) == (chunk + closing + drain(post.0, rest).0, drain(post.0, rest).1) by {
            lemma_drain_step(t, es[k], rest);
        }
    } else {
        let w2 = total as u64;
        let t2 = s.push(StackFrame::RegularData { expected: size, written: w2 });
        assert(t.drop_last().push(StackFrame::RegularData { expected: size, written: w2 }) =~= t2);
        assert(closing_bytes(Seq::<StackFrame>::empty()) == Seq::<u8>::empty());
        assert(spec_encode(t, es[k]) == Ok::<(Seq<StackFrame>, Seq<u8>), crate::nar::encoding::EncodeFailure>((t2, chunk + Seq::<u8>::empty())));
        assert(chunk + Seq::<u8>::empty() =~= chunk);
        lemma_drain_chunks(s, w2, size, es, k + 1);
        let seg = es.subrange(k, j);
        let tail = es.subrange(k + 1, j);
        let tail_bytes = chunk_bytes(es, k + 1, size - w2);
        assert(chunk_bytes(es, k, size - written) == chunk + tail_bytes);
        assert forall|rest: Seq<EventView>| #[trigger] drain(t, seg + rest) == (chunk + tail_bytes + closing + drain(post.0, rest).0, drain(post.0, rest).1) by {
            assert(seg + rest =~= seq![es[k]] + (tail + rest));
            lemma_drain_step(t, es[k], tail + rest);
            assert(drain(t2, tail + rest) == (tail_bytes + closing + drain(post.0, rest).0, drain(post.0, rest).1));
            assert(chunk + (tail_bytes + closing + drain(post.0, rest).0) =~= chunk + tail_bytes + closing + drain(post.0, rest).0);
        }
    }
}

/// One event that the coder accepts from a live, well-formed stack and that
/// is not a content chunk is a canonical step, and writes some bytes.
proof fn lemma_plain_step(s: Seq<StackFrame>, e: EventView)
    requires
        wf_stack(s),
        s.len() > 0,
        paths_valid(e),
        spec_advance(s, e) is Ok,
        !(e is RegularContentChunk),
    ensures
        canonical_step(s, e),
        spec_encode(s, e) matches Ok((_, b)) && b.len() > 0,
        run(s, seq![e]) == Some((step_stack(s, e), step_bytes(s, e))),
        forall|rest: Seq<EventView>| #[trigger] drain(s, seq![e] + rest) == (step_bytes(s, e) + drain(
            step_stack(s, e),
            rest,
        ).0, drain(step_stack(s, e), rest).1),
{
    lemma_step_nonempty(s, e);
    lemma_run_single(s, e);
    assert forall|rest: Seq<EventView>| #[trigger] drain(s, seq![e] + rest) == (step_bytes(s, e) + drain(
        step_stack(s, e),
        rest,
    ).0, drain(step_stack(s, e), rest).1) by {
        lemma_drain_step(s, e, rest);
    }
}

/// The object that starts at `es[i]`, encoded from a stack whose top is an
/// open object, writes what its joined form writes as a canonical stream.
proof fn lemma_drain_object(s: Seq<StackFrame>, es: Seq<EventView>, i: int)
    requires
        nested_object(s),
        0 <= i,
        object_end(es, i) is Some,
        all_paths_valid(es),
    ensures
        ({
            let j = object_end(es, i)->Some_0;
            &&& i < j <= es.len()
            &&& run(s, joined_object(es, i)) matches Some((s2, bytes)) && s2 == spec_post_object(s).0
                && drains_as(s, es.subrange(i, j), bytes, s2)
        }),
    decreases es.len() - i, 1int,
{
    let j = object_end(es, i)->Some_0;
    let e = es[i];
    let post = spec_post_object(s);
    assert(paths_valid(es[i]));
    match e {
        EventView::Symlink { .. } => {
            lemma_plain_step(s, e);
            assert(es.subrange(i, j) =~= seq![e]);
        },
        EventView::Regular { size, .. } => {
            lemma_plain_step(s, e);
            if size == 0 {
                assert(es.subrange(i, j) =~= seq![e]);
            } else {
                let t0 = s.push(StackFrame::RegularData { expected: size, written: 0 });
                assert(step_stack(s, e) == t0);
                lemma_drain_chunks(s, 0, size, es, i + 1);
                let c = chunk_bytes(es, i + 1, size as int);
                let chunk = EventView::RegularContentChunk(c);
                assert(t0.drop_last() =~= s);
                assert(spec_advance(t0, chunk) == Ok::<(Seq<StackFrame>, Seq<StackFrame>), crate::nar::state::AdvanceError>(
                    (post.0, seq![StackFrame::RegularData { expected: size, written: 0 }] + post.1),
                ));
                assert(canonical_step(t0, chunk));
                lemma_run_single(t0, chunk);
                assert(joined_object(es, i) =~= seq![e] + seq![chunk]);
                lemma_run_append(s, seq![e], seq![chunk]);
                let head = step_bytes(s, e);
                let body = step_bytes(t0, chunk);
                let closing = closing_bytes(seq![StackFrame::RegularData { expected: size, written: 0 }] + post.1);
                assert(body == c + closing);
                let tail = es.subrange(i + 1, j);
                assert forall|rest: Seq<EventView>| #[trigger] drain(s, es.subrange(i, j) + rest) == (head + body
                    + drain(post.0, rest).0, drain(post.0, rest).1) by {
                    assert(es.subrange(i, j) + rest =~= seq![e] + (tail + rest));
                    assert(drain(t0, tail + rest) == (c + closing + drain(post.0, rest).0, drain(post.0, rest).1));
                    assert(head + (c + closing + drain(post.0, rest).0) =~= head + (c + closing) + drain(post.0, rest).0);
                }
            }
        },
        EventView::Directory => {
            lemma_plain_step(s, e);
            let t = s.push(StackFrame::Directory);
            assert(step_stack(s, e) == t);
            assert(t.drop_last() =~= s);
            lemma_drain_entries(t, es, i + 1);
            let inner = joined_entries(es, i + 1);
            lemma_run_append(s, seq![e], inner);
            let head = step_bytes(s, e);
            let body = run(t, inner)->Some_0.1;
            let tail = es.subrange(i + 1, j);
            assert forall|rest: Seq<EventView>| #[trigger] drain(s, es.subrange(i, j) + rest) == (head + body
                + drain(post.0, rest).0, drain(post.0, rest).1) by {
                assert(es.subrange(i, j) + rest =~= seq![e] + (tail + rest));
                assert(drain(t, tail + rest) == (body + drain(post.0, rest).0, drain(post.0, rest).1));
                assert(head + (body + drain(post.0, rest).0) =~= head + body + drain(post.0, rest).0);
            }
        },
        _ => {},
    }
}

/// The entries of a directory from `es[k]` on, encoded from a stack whose
/// top is the open directory, write what their joined form writes as a
/// canonical stream.
proof fn lemma_drain_entries(t: Seq<StackFrame>, es: Seq<EventView>, k: int)
    requires
        t.len() >= 2,
        t.last() == StackFrame::Directory,
        nested_object(t.drop_last()),
        0 <= k,
        entries_end(es, k) is Some,
        all_paths_valid(es),
    ensures
        ({
            let j = entries_end(es, k)->Some_0;
            &&& k < j <= es.len()
            &&& run(t, joined_entries(es, k)) matches Some((s2, bytes)) && s2 == spec_post_object(
                t.drop_last(),
            ).0 && drains_as(t, es.subrange(k, j), bytes, s2)
        }),
    decreases es.len() - k, 0int,
{
    let j = entries_end(es, k)->Some_0;
    let s = t.drop_last();
    let e = es[k];
    let post = spec_post_object(s);
    assert(paths_valid(es[k]));
    assert(wf_stack(t));
    match e {
        EventView::DirectoryEnd => {
            lemma_plain_step(t, e);
            assert(es.subrange(k, j) =~= seq![e]);
        },
        EventView::DirectoryEntry { .. } => {
            lemma_plain_step(t, e);
            let t2 = t.push(StackFrame::DirectoryEntry).push(StackFrame::Object);
            assert(step_stack(t, e) == t2);
            assert(t2.subrange(0, t2.len() - 3) =~= s);
            assert(nested_object(t2));
            assert(t2.drop_last() =~= t.push(StackFrame::DirectoryEntry));
            assert(t2.drop_last().drop_last() =~= t);
            assert(spec_post_object(t2) == (t, seq![StackFrame::Object, StackFrame::DirectoryEntry]));
            lemma_drain_object(t2, es, k + 1);
            let m = object_end(es, k + 1)->Some_0;
            lemma_drain_entries(t, es, m);
            let jo = joined_object(es, k + 1);
            let je = joined_entries(es, m);
            assert(joined_entries(es, k) == seq![e] + jo + je);
            lemma_run_append(t, seq![e], jo);
            lemma_run_append(t, seq![e] + jo, je);
            let head = step_bytes(t, e);
            let b1 = run(t2, jo)->Some_0.1;
            let b2 = run(t, je)->Some_0.1;
            let seg1 = es.subrange(k + 1, m);
            let seg2 = es.subrange(m, j);
            assert forall|rest: Seq<EventView>| #[trigger] drain(t, es.subrange(k, j) + rest) == (head + b1 + b2
                + drain(post.0, rest).0, drain(post.0, rest).1) by {
                assert(es.subrange(k, j) + rest =~= seq![e] + (seg1 + (seg2 + rest)));
                assert(drain(t2, seg1 + (seg2 + rest)) == (b1 + drain(t, seg2 + rest).0, drain(t, seg2 + rest).1));
                assert(drain(t, seg2 + rest) == (b2 + drain(post.0, rest).0, drain(post.0, rest).1));
                assert(head + (b1 + (b2 + drain(post.0, rest).0)) =~= head + b1 + b2 + drain(post.0, rest).0);
            }
        },
        _ => {},
    }
}

/// Encoding any well-formed NAR stream with UTF-8 paths, its file contents
/// cut into any non-empty chunks, does not fail, and writes exactly the
/// bytes of the stream with each file's chunks joined into one, which is a
/// canonical stream.
pub proof fn law_encode_any_chunking(es: Seq<EventView>)
    requires
        is_nar_stream(es),
        forall|x: int| 0 <= x < es.len() ==> paths_valid(#[trigger] es[x]),
    ensures
        is_nar(joined(es)),
        drain(initial_stack(), es) == (nar_bytes(joined(es)), None::<crate::nar::encoding::ReadFailure>),
{
    let top = seq![StackFrame::Object];
    assert(nested_object(top));
    assert(top.drop_last() =~= Seq::<StackFrame>::empty());
    assert(spec_post_object(top) == (Seq::<StackFrame>::empty(), seq![StackFrame::Object]));
    assert(paths_valid(es[0]));
    assert(wf_stack(initial_stack()));
    lemma_plain_step(initial_stack(), es[0]);
    assert(initial_stack().drop_last().push(StackFrame::Object) =~= top);
    assert(step_stack(initial_stack(), es[0]) == top);
    lemma_drain_object(top, es, 1);
    let jo = joined_object(es, 1);
    lemma_run_append(initial_stack(), seq![es[0]], jo);
    let body = es.subrange(1, es.len() as int);
    assert(es =~= seq![es[0]] + (body + Seq::<EventView>::empty()));
    let b = run(top, jo)->Some_0.1;
    assert(drain(top, body + Seq::<EventView>::empty()) == (b + drain(Seq::<StackFrame>::empty(), Seq::<EventView>::empty()).0, drain(Seq::<StackFrame>::empty(), Seq::<EventView>::empty()).1));
    assert(b + Seq::<u8>::empty() =~= b);
}

/// Decoding what any well-formed stream with UTF-8 paths encodes to gives
/// back the stream with each file's chunks joined into one.
pub proof fn law_any_chunking_roundtrip(es: Seq<EventView>, result: Option<Seq<EventView>>)
    requires
        is_nar_stream(es),
        forall|x: int| 0 <= x < es.len() ==> paths_valid(#[trigger] es[x]),
        decoding_of(drain(initial_stack(), es).0, result),
    ensures
        result == Some(joined(es)),
{
    law_encode_any_chunking(es);
    law_encode_then_decode(joined(es), result);
}

} // verus!
