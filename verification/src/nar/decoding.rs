//! Decoder for NAR data streams.
//!
//! The decoder is strict: it accepts exactly the bytes that the encoder writes
//! for a canonical event stream, in which every file's contents come in one chunk.
use vstd::bytes::*;
use vstd::prelude::*;
use vstd::slice::*;
use vstd::utf8::*;

use crate::nar::encoding::{
    closing_bytes, entry_head, event_bytes, frame_closing, path_to_str, paths_valid,
    push_closing, regular_head, spec_encode, symlink_head,
};
use crate::nar::state::{
    events_view, nested_object, spec_advance, spec_post_object, wf_stack, CoderState, Event,
    EventView, StackFrame,
};
use crate::nar::stream::{
    canonical_step, initial_stack, is_nar, lemma_closing_append, lemma_closing_single,
    lemma_run_push, lemma_run_split, nar_bytes, run, step_bytes, step_stack,
};
use crate::nar::wire::{
    bytes_at, calculate_padding, holds_at, int_at, int_token, lemma_int_at_int_token,
    lemma_int_token_of_int_at, lemma_str_token_of_token_at, lemma_token_at_str_token, lit,
    padding_of, read_int, read_token, str_token, str_token_len, token_at, word_at, word_token,
    zeros, Word,
};

verus! {

broadcast use vstd::seq::group_seq_axioms;

/// Two pieces held one after the other form their concatenation.
pub proof fn lemma_holds_join(input: Seq<u8>, pos: int, a: Seq<u8>, b: Seq<u8>)
    requires
        holds_at(input, pos, a),
        holds_at(input, pos + a.len(), b),
    ensures
        holds_at(input, pos, a + b),
{
    assert(input.subrange(pos, pos + (a + b).len()) =~= a + b);
}

/// The lengths of the fields of the fixed words.
pub proof fn lemma_word_lens()
    ensures
        word_token(Word::NixArchive1).len() == 24,
        word_token(Word::Open).len() == 16,
        word_token(Word::Close).len() == 16,
        word_token(Word::Type).len() == 16,
        word_token(Word::Regular).len() == 16,
        word_token(Word::Executable).len() == 24,
        word_token(Word::Empty).len() == 8,
        word_token(Word::Contents).len() == 16,
        word_token(Word::Symlink).len() == 16,
        word_token(Word::Target).len() == 16,
        word_token(Word::Directory).len() == 24,
        word_token(Word::Entry).len() == 16,
        word_token(Word::Name).len() == 16,
        word_token(Word::Node).len() == 16,
{
    lemma_token_lens();
}

/// The lengths of integer and string fields.
pub proof fn lemma_token_lens()
    ensures
        forall|v: u64| #[trigger] int_token(v).len() == 8,
        forall|d: Seq<u8>|
            d.len() <= u64::MAX ==> #[trigger] str_token(d).len() == str_token_len(d.len() as int),
{
    vstd::bytes::lemma_auto_spec_u64_to_from_le_bytes();
    assert forall|v: u64| #[trigger] int_token(v).len() == 8 by {
        assert(spec_u64_to_le_bytes(v).len() == 8);
    }
}

/// Two fixed words held at the same place are the same word.
pub proof fn lemma_word_unique(input: Seq<u8>, pos: int, w1: Word, w2: Word)
    requires
        holds_at(input, pos, word_token(w1)),
        holds_at(input, pos, word_token(w2)),
    ensures
        lit(w1) == lit(w2),
{
    lemma_token_at_str_token(input, pos, lit(w1));
    lemma_token_at_str_token(input, pos, lit(w2));
}

/// The events that may open an object.
pub open spec fn object_event(e: EventView) -> bool {
    e is Regular || e is Symlink || e is Directory
}

/// The word naming the type of an object event.
pub open spec fn object_word(e: EventView) -> Word {
    match e {
        EventView::Regular { .. } => Word::Regular,
        EventView::Symlink { .. } => Word::Symlink,
        _ => Word::Directory,
    }
}

/// A concatenation held at `pos` holds its two parts one after the other.
pub proof fn lemma_holds_split(input: Seq<u8>, pos: int, a: Seq<u8>, b: Seq<u8>)
    requires
        holds_at(input, pos, a + b),
    ensures
        holds_at(input, pos, a),
        holds_at(input, pos + a.len(), b),
{
    let full = input.subrange(pos, pos + (a + b).len());
    assert(full == a + b);
    assert(input.subrange(pos, pos + a.len()) =~= full.subrange(0, a.len() as int));
    assert(full.subrange(0, a.len() as int) =~= a);
    assert(input.subrange(pos + a.len(), pos + a.len() + b.len()) =~= full.subrange(
        a.len() as int,
        (a + b).len() as int,
    ));
    assert(full.subrange(a.len() as int, (a + b).len() as int) =~= b);
}

/// The fields that the bytes of a regular object hold.
proof fn lemma_regular_shape(input: Seq<u8>, pos: int, executable: bool, size: u64)
    requires
        holds_at(input, pos, event_bytes(EventView::Regular { executable, size })),
    ensures
        holds_at(input, pos, word_token(Word::Open)),
        holds_at(input, pos + 16, word_token(Word::Type)),
        holds_at(input, pos + 32, word_token(Word::Regular)),
        if executable {
            &&& holds_at(input, pos + 48, word_token(Word::Executable))
            &&& holds_at(input, pos + 72, word_token(Word::Empty))
            &&& holds_at(input, pos + 80, word_token(Word::Contents))
            &&& int_at(input, pos + 96) == Some(size)
        } else {
            &&& holds_at(input, pos + 48, word_token(Word::Contents))
            &&& int_at(input, pos + 64) == Some(size)
        },
{
    lemma_word_lens();
    lemma_token_lens();
    let o = word_token(Word::Open);
    let t = word_token(Word::Type);
    let r = word_token(Word::Regular);
    let c = word_token(Word::Contents);
    lemma_holds_split(input, pos, regular_head(executable), int_token(size));
    if executable {
        let x = word_token(Word::Executable) + word_token(Word::Empty);
        lemma_holds_split(input, pos, o + t + r + x, c);
        lemma_holds_split(input, pos, o + t + r, x);
        lemma_holds_split(input, pos + 48, word_token(Word::Executable), word_token(Word::Empty));
        lemma_holds_split(input, pos, o + t, r);
        lemma_holds_split(input, pos, o, t);
        lemma_int_at_int_token(input, pos + 96, size);
    } else {
        assert(regular_head(false) =~= o + t + r + c);
        lemma_holds_split(input, pos, o + t + r, c);
        lemma_holds_split(input, pos, o + t, r);
        lemma_holds_split(input, pos, o, t);
        lemma_int_at_int_token(input, pos + 64, size);
    }
}

/// The fields that the bytes of a symlink hold.
proof fn lemma_symlink_shape(input: Seq<u8>, pos: int, target: Seq<u8>)
    requires
        holds_at(input, pos, event_bytes(EventView::Symlink { target })),
        input.len() <= usize::MAX,
    ensures
        holds_at(input, pos, word_token(Word::Open)),
        holds_at(input, pos + 16, word_token(Word::Type)),
        holds_at(input, pos + 32, word_token(Word::Symlink)),
        holds_at(input, pos + 48, word_token(Word::Target)),
        token_at(input, pos + 64) == Some(target),
{
    lemma_word_lens();
    lemma_token_lens();
    let o = word_token(Word::Open);
    let t = word_token(Word::Type);
    let l = word_token(Word::Symlink);
    let g = word_token(Word::Target);
    lemma_holds_split(input, pos, symlink_head(), str_token(target));
    lemma_holds_split(input, pos, o + t + l, g);
    lemma_holds_split(input, pos, o + t, l);
    lemma_holds_split(input, pos, o, t);
    assert(target.len() <= str_token(target).len());
    lemma_token_at_str_token(input, pos + 64, target);
}

/// The fields that the bytes of a directory hold.
proof fn lemma_directory_shape(input: Seq<u8>, pos: int)
    requires
        holds_at(input, pos, event_bytes(EventView::Directory)),
    ensures
        holds_at(input, pos, word_token(Word::Open)),
        holds_at(input, pos + 16, word_token(Word::Type)),
        holds_at(input, pos + 32, word_token(Word::Directory)),
{
    lemma_word_lens();
    let o = word_token(Word::Open);
    let t = word_token(Word::Type);
    lemma_holds_split(input, pos, o + t, word_token(Word::Directory));
    lemma_holds_split(input, pos, o, t);
}

/// The fields that the bytes of an object event hold.
proof fn lemma_object_shape(input: Seq<u8>, pos: int, e: EventView)
    requires
        object_event(e),
        holds_at(input, pos, event_bytes(e)),
        input.len() <= usize::MAX,
    ensures
        holds_at(input, pos, word_token(Word::Open)),
        holds_at(input, pos + 16, word_token(Word::Type)),
        holds_at(input, pos + 32, word_token(object_word(e))),
        e matches EventView::Regular { executable, size } ==> if executable {
            &&& holds_at(input, pos + 48, word_token(Word::Executable))
            &&& holds_at(input, pos + 72, word_token(Word::Empty))
            &&& holds_at(input, pos + 80, word_token(Word::Contents))
            &&& int_at(input, pos + 96) == Some(size)
        } else {
            &&& holds_at(input, pos + 48, word_token(Word::Contents))
            &&& int_at(input, pos + 64) == Some(size)
        },
        e matches EventView::Symlink { target } ==> holds_at(
            input,
            pos + 48,
            word_token(Word::Target),
        ) && token_at(input, pos + 64) == Some(target),
{
    match e {
        EventView::Regular { executable, size } => lemma_regular_shape(input, pos, executable, size),
        EventView::Symlink { target } => lemma_symlink_shape(input, pos, target),
        _ => lemma_directory_shape(input, pos),
    }
}

/// The type word of an object event decides which kind of object it opens.
proof fn lemma_object_classify(input: Seq<u8>, pos: int, e: EventView)
    requires
        object_event(e),
        holds_at(input, pos, event_bytes(e)),
        input.len() <= usize::MAX,
    ensures
        e is Regular <==> holds_at(input, pos + 32, word_token(Word::Regular)),
        e is Symlink <==> holds_at(input, pos + 32, word_token(Word::Symlink)),
        e is Directory <==> holds_at(input, pos + 32, word_token(Word::Directory)),
{
    lemma_object_shape(input, pos, e);
    assert(lit(Word::Regular)[0] != lit(Word::Symlink)[0]);
    assert(lit(Word::Regular).len() != lit(Word::Directory).len());
    assert(lit(Word::Symlink).len() != lit(Word::Directory).len());
    if holds_at(input, pos + 32, word_token(Word::Regular)) {
        lemma_word_unique(input, pos + 32, Word::Regular, object_word(e));
    }
    if holds_at(input, pos + 32, word_token(Word::Symlink)) {
        lemma_word_unique(input, pos + 32, Word::Symlink, object_word(e));
    }
    if holds_at(input, pos + 32, word_token(Word::Directory)) {
        lemma_word_unique(input, pos + 32, Word::Directory, object_word(e));
    }
}

/// Parses a regular object whose type word has been read.
fn parse_regular(input: &[u8], pos: usize) -> (r: Option<(Event, usize)>)
    requires
        input@.len() <= usize::MAX,
        holds_at(input@, pos as int, word_token(Word::Open)),
        holds_at(input@, pos + 16, word_token(Word::Type)),
        holds_at(input@, pos + 32, word_token(Word::Regular)),
    ensures
        r matches Some((e, end)) ==> e@ is Regular && holds_at(
            input@,
            pos as int,
            event_bytes(e@),
        ) && end == pos + event_bytes(e@).len(),
        forall|x: bool, size: u64|
            #[trigger] holds_at(
                input@,
                pos as int,
                event_bytes(EventView::Regular { executable: x, size }),
            ) ==> (r matches Some((e2, _)) && e2@ == EventView::Regular { executable: x, size }),
{
    proof {
        lemma_word_lens();
        lemma_token_lens();
    }
    let mut q = pos + 48;
    let executable = word_at(input, q, Word::Executable);
    let mut ok = true;
    if executable {
        if word_at(input, q + 24, Word::Empty) {
            q = q + 32;
        } else {
            ok = false;
        }
    }
    let r = if ok && word_at(input, q, Word::Contents) {
        match read_int(input, q + 16) {
            Some(size) => Some((Event::Regular { executable, size }, q + 24)),
            None => None,
        }
    } else {
        None
    };
    proof {
        assert forall|x: bool, size: u64|
            #[trigger] holds_at(
                input@,
                pos as int,
                event_bytes(EventView::Regular { executable: x, size }),
            ) implies (r matches Some((e2, _)) && e2@ == EventView::Regular {
                executable: x,
                size,
            }) by {
            lemma_regular_shape(input@, pos as int, x, size);
            if !x && executable {
                lemma_word_unique(input@, pos + 48, Word::Executable, Word::Contents);
                assert(lit(Word::Executable).len() != lit(Word::Contents).len());
            }
        }
        if r is Some {
            let e2 = r->Some_0.0;
            let x = e2@->executable;
            let size = e2@->size;
            let o = word_token(Word::Open);
            let t = word_token(Word::Type);
            let g = word_token(Word::Regular);
            let c = word_token(Word::Contents);
            lemma_int_token_of_int_at(input@, q + 16);
            lemma_holds_join(input@, pos as int, o, t);
            lemma_holds_join(input@, pos as int, o + t, g);
            if x {
                let xe = word_token(Word::Executable);
                let em = word_token(Word::Empty);
                lemma_holds_join(input@, pos + 48, xe, em);
                lemma_holds_join(input@, pos as int, o + t + g, xe + em);
                lemma_holds_join(input@, pos as int, o + t + g + (xe + em), c);
                lemma_holds_join(input@, pos as int, regular_head(true), int_token(size));
            } else {
                assert(regular_head(false) =~= o + t + g + c);
                lemma_holds_join(input@, pos as int, o + t + g, c);
                lemma_holds_join(input@, pos as int, regular_head(false), int_token(size));
            }
        }
    }
    r
}

/// Parses a symlink whose type word has been read.
fn parse_symlink(input: &[u8], pos: usize) -> (r: Option<(Event, usize)>)
    requires
        input@.len() <= usize::MAX,
        holds_at(input@, pos as int, word_token(Word::Open)),
        holds_at(input@, pos + 16, word_token(Word::Type)),
        holds_at(input@, pos + 32, word_token(Word::Symlink)),
    ensures
        r matches Some((e, end)) ==> e@ is Symlink && paths_valid(e@) && holds_at(
            input@,
            pos as int,
            event_bytes(e@),
        ) && end == pos + event_bytes(e@).len(),
        forall|target: Seq<u8>|
            valid_utf8(target) && #[trigger] holds_at(
                input@,
                pos as int,
                event_bytes(EventView::Symlink { target }),
            ) ==> (r matches Some((e2, _)) && e2@ == EventView::Symlink { target }),
{
    proof {
        lemma_word_lens();
        lemma_token_lens();
    }
    let r = if word_at(input, pos + 48, Word::Target) {
        match read_token(input, pos + 64) {
            Some((start, len)) => {
                let data = slice_subrange(input, start, start + len);
                let end = start + len + calculate_padding(len as u64);
                match path_to_str(data) {
                    Ok(_) => Some((Event::Symlink { target: slice_to_vec(data) }, end)),
                    Err(_) => None,
                }
            },
            None => None,
        }
    } else {
        None
    };
    proof {
        assert forall|target: Seq<u8>|
            valid_utf8(target) && #[trigger] holds_at(
                input@,
                pos as int,
                event_bytes(EventView::Symlink { target }),
            ) implies (r matches Some((e2, _)) && e2@ == EventView::Symlink { target }) by {
            lemma_symlink_shape(input@, pos as int, target);
        }
        if r is Some {
            let e2 = r->Some_0.0;
            let target = e2@->target;
            lemma_str_token_of_token_at(input@, pos + 64);
            let o = word_token(Word::Open);
            let t = word_token(Word::Type);
            let l = word_token(Word::Symlink);
            let g = word_token(Word::Target);
            lemma_holds_join(input@, pos as int, o, t);
            lemma_holds_join(input@, pos as int, o + t, l);
            lemma_holds_join(input@, pos as int, o + t + l, g);
            lemma_holds_join(input@, pos as int, symlink_head(), str_token(target));
        }
    }
    r
}

/// Parses the event that opens an object.
fn parse_object(input: &[u8], pos: usize) -> (r: Option<(Event, usize)>)
    requires
        input@.len() <= usize::MAX,
    ensures
        r matches Some((e, end)) ==> object_event(e@) && paths_valid(e@) && holds_at(
            input@,
            pos as int,
            event_bytes(e@),
        ) && end == pos + event_bytes(e@).len(),
        forall|e: EventView|
            object_event(e) && paths_valid(e) && #[trigger] holds_at(
                input@,
                pos as int,
                event_bytes(e),
            ) ==> (r matches Some((e2, _)) && e2@ == e),
{
    proof {
        lemma_word_lens();
    }
    if !word_at(input, pos, Word::Open) || !word_at(input, pos + 16, Word::Type) {
        proof {
            assert forall|e: EventView|
                object_event(e) && paths_valid(e) && #[trigger] holds_at(
                    input@,
                    pos as int,
                    event_bytes(e),
                ) implies false by {
                lemma_object_shape(input@, pos as int, e);
            }
        }
        return None;
    }
    let p = pos + 32;
    let is_regular = word_at(input, p, Word::Regular);
    let is_symlink = word_at(input, p, Word::Symlink);
    let is_directory = word_at(input, p, Word::Directory);
    proof {
        assert forall|e: EventView|
            object_event(e) && #[trigger] holds_at(input@, pos as int, event_bytes(e)) implies {
            &&& (e is Regular <==> is_regular)
            &&& (e is Symlink <==> is_symlink)
            &&& (e is Directory <==> is_directory)
        } by {
            lemma_object_classify(input@, pos as int, e);
        }
    }
    if is_regular {
        let r = parse_regular(input, pos);
        proof {
            assert forall|e: EventView|
                object_event(e) && paths_valid(e) && #[trigger] holds_at(
                    input@,
                    pos as int,
                    event_bytes(e),
                ) implies (r matches Some((e2, _)) && e2@ == e) by {
                let x = e->executable;
                let size = e->size;
                assert(e == EventView::Regular { executable: x, size });
            }
        }
        r
    } else if is_symlink {
        let r = parse_symlink(input, pos);
        proof {
            assert forall|e: EventView|
                object_event(e) && paths_valid(e) && #[trigger] holds_at(
                    input@,
                    pos as int,
                    event_bytes(e),
                ) implies (r matches Some((e2, _)) && e2@ == e) by {
                let target = e->target;
                assert(e == EventView::Symlink { target });
            }
        }
        r
    } else if is_directory {
        proof {
            let o = word_token(Word::Open);
            let t = word_token(Word::Type);
            lemma_holds_join(input@, pos as int, o, t);
            lemma_holds_join(input@, pos as int, o + t, word_token(Word::Directory));
        }
        Some((Event::Directory, p + 24))
    } else {
        None
    }
}

/// The fields that the bytes of a directory entry hold.
proof fn lemma_entry_shape(input: Seq<u8>, pos: int, name: Seq<u8>)
    requires
        holds_at(input, pos, event_bytes(EventView::DirectoryEntry { name })),
        input.len() <= usize::MAX,
    ensures
        holds_at(input, pos, word_token(Word::Entry)),
        holds_at(input, pos + 16, word_token(Word::Open)),
        holds_at(input, pos + 32, word_token(Word::Name)),
        token_at(input, pos + 48) == Some(name),
        holds_at(input, pos + 48 + str_token_len(name.len() as int), word_token(Word::Node)),
{
    lemma_word_lens();
    lemma_token_lens();
    let en = word_token(Word::Entry);
    let o = word_token(Word::Open);
    let n = word_token(Word::Name);
    lemma_holds_split(input, pos, entry_head() + str_token(name), word_token(Word::Node));
    lemma_holds_split(input, pos, entry_head(), str_token(name));
    lemma_holds_split(input, pos, en + o, n);
    lemma_holds_split(input, pos, en, o);
    assert(name.len() <= str_token(name).len());
    lemma_token_at_str_token(input, pos + 48, name);
}

/// Parses a directory entry whose opening words have been read.
fn parse_entry(input: &[u8], pos: usize) -> (r: Option<(Event, usize)>)
    requires
        input@.len() <= usize::MAX,
        holds_at(input@, pos as int, word_token(Word::Entry)),
        holds_at(input@, pos + 16, word_token(Word::Open)),
        holds_at(input@, pos + 32, word_token(Word::Name)),
    ensures
        r matches Some((e, end)) ==> e@ is DirectoryEntry && paths_valid(e@) && holds_at(
            input@,
            pos as int,
            event_bytes(e@),
        ) && end == pos + event_bytes(e@).len(),
        forall|name: Seq<u8>|
            valid_utf8(name) && #[trigger] holds_at(
                input@,
                pos as int,
                event_bytes(EventView::DirectoryEntry { name }),
            ) ==> (r matches Some((e2, _)) && e2@ == EventView::DirectoryEntry { name }),
{
    proof {
        lemma_word_lens();
        lemma_token_lens();
    }
    let r = match read_token(input, pos + 48) {
        Some((start, len)) => {
            let data = slice_subrange(input, start, start + len);
            let end = start + len + calculate_padding(len as u64);
            if path_to_str(data).is_ok() && word_at(input, end, Word::Node) {
                Some((Event::DirectoryEntry { name: slice_to_vec(data) }, end + 16))
            } else {
                None
            }
        },
        None => None,
    };
    proof {
        assert forall|name: Seq<u8>|
            valid_utf8(name) && #[trigger] holds_at(
                input@,
                pos as int,
                event_bytes(EventView::DirectoryEntry { name }),
            ) implies (r matches Some((e2, _)) && e2@ == EventView::DirectoryEntry { name }) by {
            lemma_entry_shape(input@, pos as int, name);
        }
        if r is Some {
            let e2 = r->Some_0.0;
            let name = e2@->name;
            lemma_str_token_of_token_at(input@, pos + 48);
            let en = word_token(Word::Entry);
            let o = word_token(Word::Open);
            let n = word_token(Word::Name);
            lemma_holds_join(input@, pos as int, en, o);
            lemma_holds_join(input@, pos as int, en + o, n);
            lemma_holds_join(input@, pos as int, entry_head(), str_token(name));
            lemma_holds_join(
                input@,
                pos as int,
                entry_head() + str_token(name),
                word_token(Word::Node),
            );
        }
    }
    r
}

/// A directory entry does not start with the closing word.
proof fn lemma_close_not_entry(input: Seq<u8>, pos: int, name: Seq<u8>)
    requires
        input.len() <= usize::MAX,
        holds_at(input, pos, word_token(Word::Close)),
    ensures
        !holds_at(input, pos, event_bytes(EventView::DirectoryEntry { name })),
{
    if holds_at(input, pos, event_bytes(EventView::DirectoryEntry { name })) {
        lemma_entry_shape(input, pos, name);
        lemma_word_unique(input, pos, Word::Close, Word::Entry);
        assert(lit(Word::Close).len() != lit(Word::Entry).len());
    }
}

/// Parses the item that follows in a directory: an entry, or the directory's end.
#[verifier::spinoff_prover]
fn parse_directory_item(input: &[u8], pos: usize) -> (r: Option<(Event, usize)>)
    requires
        input@.len() <= usize::MAX,
    ensures
        r matches Some((e, end)) ==> (e@ is DirectoryEnd && end == pos && holds_at(
            input@,
            pos as int,
            word_token(Word::Close),
        )) || (e@ is DirectoryEntry && paths_valid(e@) && holds_at(
            input@,
            pos as int,
            event_bytes(e@),
        ) && end == pos + event_bytes(e@).len()),
        holds_at(input@, pos as int, word_token(Word::Close)) ==> (r matches Some((e2, _))
            && e2@ == EventView::DirectoryEnd),
        forall|name: Seq<u8>|
            valid_utf8(name) && #[trigger] holds_at(
                input@,
                pos as int,
                event_bytes(EventView::DirectoryEntry { name }),
            ) ==> (r matches Some((e2, _)) && e2@ == EventView::DirectoryEntry { name }),
{
    proof {
        lemma_word_lens();
    }
    if word_at(input, pos, Word::Close) {
        proof {
            assert forall|name: Seq<u8>|
                valid_utf8(name) && #[trigger] holds_at(
                    input@,
                    pos as int,
                    event_bytes(EventView::DirectoryEntry { name }),
                ) implies false by {
                lemma_close_not_entry(input@, pos as int, name);
            }
        }
        return Some((Event::DirectoryEnd, pos));
    }
    if word_at(input, pos, Word::Entry) && word_at(input, pos + 16, Word::Open) && word_at(
        input,
        pos + 32,
        Word::Name,
    ) {
        parse_entry(input, pos)
    } else {
        proof {
            assert forall|name: Seq<u8>|
                valid_utf8(name) && #[trigger] holds_at(
                    input@,
                    pos as int,
                    event_bytes(EventView::DirectoryEntry { name }),
                ) implies false by {
                lemma_entry_shape(input@, pos as int, name);
            }
        }
        None
    }
}

/// Takes the `remaining` bytes of a file's contents as one chunk.
fn parse_chunk(input: &[u8], pos: usize, remaining: u64) -> (r: Option<(Event, usize)>)
    requires
        pos <= input@.len(),
        input@.len() <= usize::MAX,
    ensures
        r matches Some((e, end)) ==> e@ matches EventView::RegularContentChunk(c) && c.len()
            == remaining && holds_at(input@, pos as int, c) && end == pos + c.len(),
        forall|c: Seq<u8>|
            c.len() == remaining && #[trigger] holds_at(input@, pos as int, c) ==> (r matches Some(
                (e2, _),
            ) && e2@ == EventView::RegularContentChunk(c)),
{
    let avail = input.len() - pos;
    if remaining > avail as u64 {
        return None;
    }
    let n = remaining as usize;
    let data = slice_subrange(input, pos, pos + n);
    proof {
        assert forall|c: Seq<u8>|
            c.len() == remaining && #[trigger] holds_at(input@, pos as int, c) implies c
            == data@ by {}
    }
    Some((Event::RegularContentChunk(slice_to_vec(data)), pos + n))
}

/// The kinds of events that each frame accepts.
pub open spec fn accepts(top: StackFrame, e: EventView) -> bool {
    match top {
        StackFrame::Header => e is Header,
        StackFrame::Object => object_event(e),
        StackFrame::Directory => e is DirectoryEntry || e is DirectoryEnd,
        StackFrame::RegularData { expected, written } => e matches EventView::RegularContentChunk(
            c,
        ) && written + c.len() == expected,
        StackFrame::DirectoryEntry => false,
    }
}

/// A canonical step is an event its frame accepts, and the step's bytes are
/// the event's bytes followed by the closing bytes; a directory's end starts
/// with the closing of its object.
proof fn lemma_step_parts(input: Seq<u8>, pos: int, s: Seq<StackFrame>, e: EventView)
    requires
        wf_stack(s),
        canonical_step(s, e),
        holds_at(input, pos, step_bytes(s, e)),
    ensures
        s.len() > 0,
        accepts(s.last(), e),
        paths_valid(e),
        holds_at(input, pos, event_bytes(e)),
        holds_at(input, pos + event_bytes(e).len(), closing_bytes(spec_advance(s, e)->Ok_0.1)),
        e is DirectoryEnd ==> holds_at(input, pos, word_token(Word::Close)),
        step_bytes(s, e) == event_bytes(e) + closing_bytes(spec_advance(s, e)->Ok_0.1),
{
    let closed = spec_advance(s, e)->Ok_0.1;
    lemma_holds_split(input, pos, event_bytes(e), closing_bytes(closed));
    if e is DirectoryEnd {
        let post = spec_post_object(s.drop_last());
        assert(nested_object(s.drop_last()));
        let c = word_token(Word::Close);
        lemma_closing_append(seq![StackFrame::Directory], post.1);
        lemma_closing_single(StackFrame::Directory);
        if post.1.len() == 1 {
            assert(post.1 =~= seq![StackFrame::Object]);
            lemma_closing_single(StackFrame::Object);
            assert(closing_bytes(closed) =~= c);
        } else {
            assert(post.1 =~= seq![StackFrame::Object] + seq![StackFrame::DirectoryEntry]);
            lemma_closing_append(seq![StackFrame::Object], seq![StackFrame::DirectoryEntry]);
            lemma_closing_single(StackFrame::Object);
            lemma_closing_single(StackFrame::DirectoryEntry);
            assert(closing_bytes(closed) =~= c + c);
            lemma_holds_split(input, pos, c, c);
        }
    }
}

/// Every canonical step writes at least one byte.
#[verifier::spinoff_prover]
#[verifier::rlimit(30)]
pub proof fn lemma_step_nonempty(s: Seq<StackFrame>, e: EventView)
    requires
        wf_stack(s),
        canonical_step(s, e),
    ensures
        step_bytes(s, e).len() > 0,
{
    lemma_word_lens();
    lemma_token_lens();
    let (s2, closed) = spec_advance(s, e)->Ok_0;
    let eb = event_bytes(e);
    assert(step_bytes(s, e) == eb + closing_bytes(closed));
    match e {
        EventView::Header => {},
        EventView::Regular { executable, size } => {
            assert(regular_head(executable).len() > 0);
        },
        EventView::Symlink { target } => {},
        EventView::Directory => {},
        EventView::DirectoryEntry { name } => {},
        EventView::DirectoryEnd => {
            let post = spec_post_object(s.drop_last());
            assert(nested_object(s.drop_last()));
            lemma_closing_append(seq![StackFrame::Directory], post.1);
            lemma_closing_append(seq![StackFrame::Object], post.1.drop_first());
            assert(post.1 =~= seq![StackFrame::Object] + post.1.drop_first());
            lemma_closing_single(StackFrame::Object);
        },
        EventView::RegularContentChunk(c) => {
            if c.len() == 0 {
                let frame = s.last();
                let post = spec_post_object(s.drop_last());
                assert(nested_object(s.drop_last()));
                assert(closed == seq![frame] + post.1);
                lemma_closing_append(seq![frame], post.1);
                lemma_closing_append(seq![StackFrame::Object], post.1.drop_first());
                assert(post.1 =~= seq![StackFrame::Object] + post.1.drop_first());
                lemma_closing_single(StackFrame::Object);
            }
        },
    }
}

/// Parses the event that the frame on top of the stack expects.
fn parse_event(input: &[u8], pos: usize, frame: StackFrame) -> (r: Option<(Event, usize)>)
    requires
        pos <= input@.len(),
        input@.len() <= usize::MAX,
        frame matches StackFrame::RegularData { expected, written } ==> written <= expected,
    ensures
        r matches Some((e, end)) ==> accepts(frame, e@) && paths_valid(e@) && holds_at(
            input@,
            pos as int,
            event_bytes(e@),
        ) && end == pos + event_bytes(e@).len(),
        forall|e2: EventView|
            accepts(frame, e2) && paths_valid(e2) && #[trigger] holds_at(
                input@,
                pos as int,
                event_bytes(e2),
            ) && (e2 is DirectoryEnd ==> holds_at(input@, pos as int, word_token(Word::Close)))
                ==> (r matches Some((e3, _)) && e3@ == e2),
{
    proof {
        lemma_word_lens();
    }
    let r = match frame {
        StackFrame::Header => if word_at(input, pos, Word::NixArchive1) {
            Some((Event::Header, pos + 24))
        } else {
            None
        },
        StackFrame::Object => parse_object(input, pos),
        StackFrame::Directory => parse_directory_item(input, pos),
        StackFrame::RegularData { expected, written } => parse_chunk(
            input,
            pos,
            expected - written,
        ),
        StackFrame::DirectoryEntry => None,
    };
    proof {
        assert forall|e2: EventView|
            accepts(frame, e2) && paths_valid(e2) && #[trigger] holds_at(
                input@,
                pos as int,
                event_bytes(e2),
            ) && (e2 is DirectoryEnd ==> holds_at(input@, pos as int, word_token(Word::Close)))
                implies (r matches Some((e3, _)) && e3@ == e2) by {
            match e2 {
                EventView::Regular { executable, size } => {},
                EventView::Symlink { target } => {},
                EventView::DirectoryEntry { name } => {},
                EventView::RegularContentChunk(c) => {},
                _ => {},
            }
        }
        if r is Some {
            let e = r->Some_0.0;
            match e@ {
                EventView::DirectoryEnd => {
                    assert(input@.subrange(pos as int, pos as int) =~= Seq::<u8>::empty());
                },
                _ => {},
            }
        }
    }
    r
}

/// An event that its frame accepts, with UTF-8 paths, is a canonical step.
proof fn lemma_accepted_canonical(s: Seq<StackFrame>, e: EventView)
    requires
        wf_stack(s),
        s.len() > 0,
        accepts(s.last(), e),
        paths_valid(e),
    ensures
        canonical_step(s, e),
{
}

/// Errors of the [`Decoder`].
#[derive(Debug, Clone, Copy, PartialEq, Eq)]
pub enum Error {
    /// The bytes at `position` are not what the stream expects there.
    InvalidData { position: usize },
    /// The archive is complete, but bytes follow it from `position`.
    TrailingData { position: usize },
}

/// Decodes NAR bytes into [`Event`]s.
pub struct Decoder<'a> {
    input: &'a [u8],
    position: usize,
    state: CoderState,
    failed: bool,
}

impl<'a> Decoder<'a> {
    /// The bytes being decoded.
    pub closed spec fn input(&self) -> Seq<u8> {
        self.input@
    }

    /// How many bytes were decoded.
    pub closed spec fn pos(&self) -> int {
        self.position as int
    }

    /// The coder stack.
    pub closed spec fn stack(&self) -> Seq<StackFrame> {
        self.state@
    }

    /// Whether decoding stopped at an error.
    pub closed spec fn failed(&self) -> bool {
        self.failed
    }

    /// The internal invariant.
    pub closed spec fn wf(&self) -> bool {
        &&& wf_stack(self.state@)
        &&& self.position <= self.input@.len()
        &&& self.input@.len() <= usize::MAX
    }

    /// Constructs a new [`Decoder`] over the bytes of an archive.
    pub fn new(input: &'a [u8]) -> (r: Self)
        ensures
            r.wf(),
            r.input() == input@,
            r.pos() == 0,
            r.stack() == initial_stack(),
            !r.failed(),
    {
        let _ = input.len();
        Decoder { input, position: 0, state: CoderState::new(), failed: false }
    }

    fn close_step(&mut self, event: Event, end: usize) -> (r: Option<Result<Event, Error>>)
        requires
            old(self).wf(),
            !old(self).failed(),
            canonical_step(old(self).stack(), event@),
            holds_at(old(self).input(), old(self).pos(), event_bytes(event@)),
            end == old(self).pos() + event_bytes(event@).len(),
            forall|e2: EventView|
                #[trigger] canonical_step(old(self).stack(), e2) && holds_at(
                    old(self).input(),
                    old(self).pos(),
                    step_bytes(old(self).stack(), e2),
                ) ==> e2 == event@,
        ensures
            final(self).wf(),
            final(self).input() == old(self).input(),
            match r {
                Some(Ok(e)) => {
                    &&& e@ == event@
                    &&& holds_at(old(self).input(), old(self).pos(), step_bytes(old(self).stack(), e@))
                    &&& final(self).pos() == old(self).pos() + step_bytes(old(self).stack(), e@).len()
                    &&& final(self).stack() == step_stack(old(self).stack(), e@)
                    &&& final(self).pos() > old(self).pos()
                    &&& !final(self).failed()
                },
                Some(Err(_)) => {
                    &&& final(self).failed()
                    &&& !holds_at(
                        old(self).input(),
                        old(self).pos(),
                        step_bytes(old(self).stack(), event@),
                    )
                },
                None => false,
            },
    {
        let ghost s = self.state@;
        let ghost pos = self.position as int;
        let input = self.input;
        let advanced = self.state.advance(&event);
        let closed = match advanced {
            Ok(closed) => closed,
            Err(_) => Vec::new(),
        };
        let mut expected = Vec::new();
        push_closing(&mut expected, &closed);
        if bytes_at(input, end, expected.as_slice()) {
            proof {
                lemma_holds_join(input@, pos, event_bytes(event@), expected@);
                lemma_step_nonempty(s, event@);
            }
            self.position = end + expected.len();
            Some(Ok(event))
        } else {
            self.failed = true;
            proof {
                if holds_at(input@, pos, step_bytes(s, event@)) {
                    lemma_step_parts(input@, pos, s, event@);
                }
            }
            Some(Err(Error::InvalidData { position: end }))
        }
    }

    /// Decodes the next event; `None` once the archive is complete or decoding failed.
    pub fn next_event(&mut self) -> (r: Option<Result<Event, Error>>)
        requires
            old(self).wf(),
        ensures
            final(self).wf(),
            final(self).input() == old(self).input(),
            old(self).failed() ==> r is None && final(self).failed(),
            !old(self).failed() && old(self).stack().len() == 0 ==> if old(self).pos() == old(
                self,
            ).input().len() {
                r is None && !final(self).failed() && final(self).stack().len() == 0
                    && final(self).pos() == old(self).pos()
            } else {
                r matches Some(Err(Error::TrailingData { .. })) && final(self).failed()
            },
            !old(self).failed() && old(self).stack().len() > 0 ==> match r {
                Some(Ok(e)) => {
                    &&& canonical_step(old(self).stack(), e@)
                    &&& holds_at(old(self).input(), old(self).pos(), step_bytes(old(self).stack(), e@))
                    &&& final(self).pos() == old(self).pos() + step_bytes(old(self).stack(), e@).len()
                    &&& final(self).stack() == step_stack(old(self).stack(), e@)
                    &&& final(self).pos() > old(self).pos()
                    &&& !final(self).failed()
                    &&& forall|e2: EventView|
                        #[trigger] canonical_step(old(self).stack(), e2) && holds_at(
                            old(self).input(),
                            old(self).pos(),
                            step_bytes(old(self).stack(), e2),
                        ) ==> e2 == e@
                },
                Some(Err(_)) => {
                    &&& final(self).failed()
                    &&& forall|e2: EventView|
                        #[trigger] canonical_step(old(self).stack(), e2) ==> !holds_at(
                            old(self).input(),
                            old(self).pos(),
                            step_bytes(old(self).stack(), e2),
                        )
                },
                None => false,
            },
    {
        if self.failed {
            return None;
        }
        if self.state.finished() {
            if self.position == self.input.len() {
                return None;
            }
            self.failed = true;
            return Some(Err(Error::TrailingData { position: self.position }));
        }
        let input = self.input;
        let pos = self.position;
        let ghost s = self.state@;
        let frame = match self.state.peek() {
            Ok(frame) => frame,
            Err(_) => StackFrame::DirectoryEntry,
        };
        let parsed = parse_event(input, pos, frame);
        proof {
            assert forall|e2: EventView|
                #[trigger] canonical_step(s, e2) && holds_at(
                    input@,
                    pos as int,
                    step_bytes(s, e2),
                ) implies (parsed matches Some((e3, end)) && e3@ == e2 && end == pos
                + event_bytes(e2).len()) by {
                lemma_step_parts(input@, pos as int, s, e2);
            }
        }
        match parsed {
            None => {
                self.failed = true;
                Some(Err(Error::InvalidData { position: pos }))
            },
            Some((event, end)) => {
                proof {
                    lemma_accepted_canonical(s, event@);
                }
                self.close_step(event, end)
            },
        }
    }

    /// Decodes the whole archive.
    ///
    /// Succeeds exactly when the input is the encoding of a canonical NAR stream,
    /// and then returns that stream, which is the only one with this encoding.
    pub fn decode_all(&mut self) -> (r: Result<Vec<Event>, Error>)
        requires
            old(self).wf(),
            !old(self).failed(),
            old(self).pos() == 0,
            old(self).stack() == initial_stack(),
        ensures
            match r {
                Ok(es) => {
                    &&& is_nar(events_view(es@))
                    &&& nar_bytes(events_view(es@)) == old(self).input()
                    &&& forall|es2: Seq<EventView>|
                        #[trigger] is_nar(es2) && nar_bytes(es2) == old(self).input() ==> es2
                            == events_view(es@)
                },
                Err(_) => forall|es2: Seq<EventView>|
                    #[trigger] is_nar(es2) ==> nar_bytes(es2) != old(self).input(),
            },
    {
        let ghost input = self.input();
        let mut events: Vec<Event> = Vec::new();
        proof {
            assert(input.take(0) =~= Seq::<u8>::empty());
            assert(events_view(events@) =~= Seq::<EventView>::empty());
        }
        loop
            invariant
                self.wf(),
                !self.failed(),
                self.input() == input,
                input == old(self).input(),
                run(initial_stack(), events_view(events@)) == Some(
                    (self.stack(), input.take(self.pos())),
                ),
                forall|es2: Seq<EventView>|
                    #[trigger] is_nar(es2) && nar_bytes(es2) == input ==> events@.len()
                        <= es2.len() && es2.take(events@.len() as int) == events_view(events@),
            decreases input.len() - self.pos(),
        {
            let ghost before = *self;
            let ghost evs = events_view(events@);
            let ghost k = events@.len() as int;
            let step = self.next_event();
            proof {
                // Any stream with this encoding continues the events decoded so far.
                if before.stack().len() > 0 {
                    assert forall|es2: Seq<EventView>|
                        #[trigger] is_nar(es2) && nar_bytes(es2) == input implies k < es2.len()
                            && canonical_step(before.stack(), es2[k]) && holds_at(
                            input,
                            before.pos(),
                            step_bytes(before.stack(), es2[k]),
                        ) by {
                        lemma_run_split(initial_stack(), es2, k);
                        let rest = run(before.stack(), es2.skip(k))->Some_0.1;
                        assert(input =~= input.take(before.pos()) + rest);
                        if es2.skip(k).len() == 0 {
                            assert(run(before.stack(), es2.skip(k)) == Some(
                                (before.stack(), Seq::<u8>::empty()),
                            ));
                        }
                        assert(es2.skip(k)[0] == es2[k]);
                        let (s1, b1) = (step_stack(before.stack(), es2[k]), step_bytes(
                            before.stack(),
                            es2[k],
                        ));
                        assert(rest == b1 + run(s1, es2.skip(k).drop_first())->Some_0.1);
                        assert(input.subrange(before.pos(), before.pos() + b1.len()) =~= b1);
                    }
                }
            }
            match step {
                None => {
                    proof {
                        assert(input.take(self.pos()) =~= input);
                        assert forall|es2: Seq<EventView>|
                            #[trigger] is_nar(es2) && nar_bytes(es2) == input implies es2
                                == events_view(events@) by {
                            lemma_run_split(initial_stack(), es2, k);
                            if es2.skip(k).len() > 0 {
                                assert(!canonical_step(before.stack(), es2.skip(k)[0]));
                            }
                            assert(es2 =~= es2.take(k));
                        }
                    }
                    return Ok(events);
                },
                Some(Ok(e)) => {
                    proof {
                        lemma_run_push(initial_stack(), evs, e@);
                        assert(input.take(before.pos()) + step_bytes(before.stack(), e@)
                            =~= input.take(self.pos()));
                        assert forall|es2: Seq<EventView>|
                            #[trigger] is_nar(es2) && nar_bytes(es2) == input implies k + 1
                                <= es2.len() && es2.take(k + 1) == evs.push(e@) by {
                            assert(es2.take(k + 1) =~= es2.take(k).push(es2[k]));
                        }
                    }
                    events.push(e);
                    proof {
                        assert(events_view(events@) =~= evs.push(e@));
                    }
                },
                Some(Err(err)) => {
                    proof {
                        assert forall|es2: Seq<EventView>|
                            #[trigger] is_nar(es2) implies nar_bytes(es2) != input by {
                            if nar_bytes(es2) == input && before.stack().len() == 0 {
                                lemma_run_split(initial_stack(), es2, k);
                                if es2.skip(k).len() > 0 {
                                    assert(!canonical_step(before.stack(), es2.skip(k)[0]));
                                }
                                assert(es2.skip(k) =~= Seq::<EventView>::empty());
                                assert(input =~= input.take(before.pos()));
                            }
                        }
                    }
                    return Err(err);
                },
            }
        }
    }
}

/// What decoding `input` gives (`None` for an error): the one canonical
/// stream whose encoding is `input`, or an error when there is none.
pub open spec fn decoding_of(input: Seq<u8>, result: Option<Seq<EventView>>) -> bool {
    match result {
        Some(es) => {
            &&& is_nar(es)
            &&& nar_bytes(es) == input
            &&& forall|es2: Seq<EventView>| #[trigger] is_nar(es2) && nar_bytes(es2) == input ==> es2 == es
        },
        None => forall|es2: Seq<EventView>| #[trigger] is_nar(es2) ==> nar_bytes(es2) != input,
    }
}

/// Decodes the NAR archive held by `input`.
pub fn decode(input: &[u8]) -> (r: Result<Vec<Event>, Error>)
    ensures
        decoding_of(
            input@,
            match r {
                Ok(es) => Some(events_view(es@)),
                Err(_) => None,
            },
        ),
{
    let mut decoder = Decoder::new(input);
    decoder.decode_all()
}

} // verus!
