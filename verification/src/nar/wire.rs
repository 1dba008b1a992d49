//! Wire tokens of the NAR format: little-endian integers and padded strings.
use vstd::bytes::*;
use vstd::prelude::*;
use vstd::slice::*;

verus! {

broadcast use vstd::seq::group_seq_axioms;

/// Alignment of every field in a NAR stream.
pub const PADDING: usize = 8;

/// Number of zero bytes that pad a field of `n` bytes to the alignment.
pub open spec fn padding_of(n: int) -> int {
    (8 - n % 8) % 8
}

/// Returns the number of zero bytes that pad a field of `strlen` bytes to a multiple of eight.
pub fn calculate_padding(strlen: u64) -> (r: usize)
    ensures
        r == padding_of(strlen as int),
        r < 8,
        (strlen + r) % 8 == 0,
{
    (PADDING - (strlen % PADDING as u64) as usize) % PADDING
}

/// `n` zero bytes.
pub open spec fn zeros(n: int) -> Seq<u8> {
    Seq::new(n as nat, |_i: int| 0u8)
}

/// An integer field: eight little-endian bytes.
pub open spec fn int_token(v: u64) -> Seq<u8> {
    spec_u64_to_le_bytes(v)
}

/// A string field: its length, its bytes, and zero padding.
pub open spec fn str_token(data: Seq<u8>) -> Seq<u8> {
    int_token(data.len() as u64) + data + zeros(padding_of(data.len() as int))
}

/// The length of the string field holding `n` bytes.
pub open spec fn str_token_len(n: int) -> int {
    8 + n + padding_of(n)
}

/// The fixed words of the format.
#[derive(Clone, Copy, PartialEq, Eq, Structural)]
pub enum Word {
    NixArchive1,
    Open,
    Close,
    Type,
    Regular,
    Executable,
    Empty,
    Contents,
    Symlink,
    Target,
    Directory,
    Entry,
    Name,
    Node,
}

/// The bytes of a fixed word.
pub open spec fn lit(w: Word) -> Seq<u8> {
    match w {
        Word::NixArchive1 => seq![110u8, 105, 120, 45, 97, 114, 99, 104, 105, 118, 101, 45, 49],
        Word::Open => seq![40u8],
        Word::Close => seq![41u8],
        Word::Type => seq![116u8, 121, 112, 101],
        Word::Regular => seq![114u8, 101, 103, 117, 108, 97, 114],
        Word::Executable => seq![101u8, 120, 101, 99, 117, 116, 97, 98, 108, 101],
        Word::Empty => seq![],
        Word::Contents => seq![99u8, 111, 110, 116, 101, 110, 116, 115],
        Word::Symlink => seq![115u8, 121, 109, 108, 105, 110, 107],
        Word::Target => seq![116u8, 97, 114, 103, 101, 116],
        Word::Directory => seq![100u8, 105, 114, 101, 99, 116, 111, 114, 121],
        Word::Entry => seq![101u8, 110, 116, 114, 121],
        Word::Name => seq![110u8, 97, 109, 101],
        Word::Node => seq![110u8, 111, 100, 101],
    }
}

/// The string field of a fixed word.
pub open spec fn word_token(w: Word) -> Seq<u8> {
    str_token(lit(w))
}

/// The bytes of a fixed word.
pub fn word_bytes(w: Word) -> (v: Vec<u8>)
    ensures
        v@ == lit(w),
{
    let v = match w {
        Word::NixArchive1 => vec![110u8, 105, 120, 45, 97, 114, 99, 104, 105, 118, 101, 45, 49],
        Word::Open => vec![40u8],
        Word::Close => vec![41u8],
        Word::Type => vec![116u8, 121, 112, 101],
        Word::Regular => vec![114u8, 101, 103, 117, 108, 97, 114],
        Word::Executable => vec![101u8, 120, 101, 99, 117, 116, 97, 98, 108, 101],
        Word::Empty => Vec::new(),
        Word::Contents => vec![99u8, 111, 110, 116, 101, 110, 116, 115],
        Word::Symlink => vec![115u8, 121, 109, 108, 105, 110, 107],
        Word::Target => vec![116u8, 97, 114, 103, 101, 116],
        Word::Directory => vec![100u8, 105, 114, 101, 99, 116, 111, 114, 121],
        Word::Entry => vec![101u8, 110, 116, 114, 121],
        Word::Name => vec![110u8, 97, 109, 101],
        Word::Node => vec![110u8, 111, 100, 101],
    };
    assert(v@ =~= lit(w));
    v
}

/// Appends `n` zero bytes.
pub fn push_zeros(buffer: &mut Vec<u8>, n: usize)
    ensures
        final(buffer)@ == old(buffer)@ + zeros(n as int),
{
    let mut i: usize = 0;
    while i < n
        invariant
            i <= n,
            buffer@ == old(buffer)@ + zeros(i as int),
        decreases n - i,
    {
        buffer.push(0u8);
        i = i + 1;
        assert(buffer@ =~= old(buffer)@ + zeros(i as int));
    }
}

/// Appends the bytes of a slice.
pub fn push_bytes(buffer: &mut Vec<u8>, data: &[u8])
    ensures
        final(buffer)@ == old(buffer)@ + data@,
{
    let mut i: usize = 0;
    while i < data.len()
        invariant
            i <= data@.len(),
            buffer@ == old(buffer)@ + data@.subrange(0, i as int),
        decreases data@.len() - i,
    {
        buffer.push(data[i]);
        i = i + 1;
        assert(buffer@ =~= old(buffer)@ + data@.subrange(0, i as int));
    }
    assert(data@.subrange(0, data@.len() as int) =~= data@);
}

/// Appends an integer field.
pub fn push_int(buffer: &mut Vec<u8>, value: u64)
    ensures
        final(buffer)@ == old(buffer)@ + int_token(value),
{
    let bytes = u64_to_le_bytes(value);
    push_bytes(buffer, bytes.as_slice());
}

/// Appends a string field.
pub fn push_str(buffer: &mut Vec<u8>, data: &[u8])
    ensures
        final(buffer)@ == old(buffer)@ + str_token(data@),
{
    let len = data.len() as u64;
    push_int(buffer, len);
    push_bytes(buffer, data);
    push_zeros(buffer, calculate_padding(len));
    assert(final(buffer)@ =~= old(buffer)@ + str_token(data@));
}

/// Appends the string field of a fixed word.
pub fn push_word(buffer: &mut Vec<u8>, w: Word)
    ensures
        final(buffer)@ == old(buffer)@ + word_token(w),
{
    let bytes = word_bytes(w);
    push_str(buffer, bytes.as_slice());
}

/// Whether the input holds `expected` at `pos`.
pub open spec fn holds_at(input: Seq<u8>, pos: int, expected: Seq<u8>) -> bool {
    0 <= pos && pos + expected.len() <= input.len() && input.subrange(pos, pos + expected.len())
        == expected
}

/// Checks whether the input holds `expected` at `pos`.
pub fn bytes_at(input: &[u8], pos: usize, expected: &[u8]) -> (r: bool)
    ensures
        r == holds_at(input@, pos as int, expected@),
{
    if pos > input.len() || expected.len() > input.len() - pos {
        return false;
    }
    let mut i: usize = 0;
    while i < expected.len()
        invariant
            pos + expected@.len() <= input@.len(),
            input@.len() <= usize::MAX,
            i <= expected@.len(),
            forall|j: int| 0 <= j < i ==> input@[pos + j] == expected@[j],
        decreases expected@.len() - i,
    {
        if input[pos + i] != expected[i] {
            assert(input@.subrange(pos as int, pos + expected@.len())[i as int] != expected@[i as int]);
            return false;
        }
        i = i + 1;
    }
    assert(input@.subrange(pos as int, pos + expected@.len()) =~= expected@);
    true
}

/// Whether the input holds the string field of a fixed word at `pos`.
pub fn word_at(input: &[u8], pos: usize, w: Word) -> (r: bool)
    ensures
        r == holds_at(input@, pos as int, word_token(w)),
{
    let mut expected = Vec::new();
    push_word(&mut expected, w);
    assert(expected@ =~= word_token(w));
    bytes_at(input, pos, expected.as_slice())
}

/// The integer field at `pos`, if the input is long enough.
pub open spec fn int_at(input: Seq<u8>, pos: int) -> Option<u64> {
    if 0 <= pos && pos + 8 <= input.len() {
        Some(spec_u64_from_le_bytes(input.subrange(pos, pos + 8)))
    } else {
        None
    }
}

/// The data of the string field at `pos`, if one is there.
pub open spec fn token_at(input: Seq<u8>, pos: int) -> Option<Seq<u8>> {
    match int_at(input, pos) {
        Some(len) => {
            let end = pos + str_token_len(len as int);
            if end <= input.len() && input.subrange(pos + 8 + len, end) == zeros(
                padding_of(len as int),
            ) {
                Some(input.subrange(pos + 8, pos + 8 + len))
            } else {
                None
            }
        },
        None => None,
    }
}

/// Reads the integer field at `pos`.
pub fn read_int(input: &[u8], pos: usize) -> (r: Option<u64>)
    ensures
        r == int_at(input@, pos as int),
{
    if pos > input.len() || 8 > input.len() - pos {
        return None;
    }
    let bytes = slice_subrange(input, pos, pos + 8);
    Some(u64_from_le_bytes(bytes))
}

/// Checks that `n` zero bytes stand at `pos`.
pub fn zeros_at(input: &[u8], pos: usize, n: usize) -> (r: bool)
    ensures
        r == holds_at(input@, pos as int, zeros(n as int)),
{
    if pos > input.len() || n > input.len() - pos {
        return false;
    }
    let mut i: usize = 0;
    while i < n
        invariant
            pos + n <= input@.len(),
            input@.len() <= usize::MAX,
            i <= n,
            forall|j: int| pos <= j < pos + i ==> input@[j] == 0u8,
        decreases n - i,
    {
        if input[pos + i] != 0u8 {
            assert(input@.subrange(pos as int, pos + n)[i as int] != zeros(n as int)[i as int]);
            return false;
        }
        i = i + 1;
    }
    assert(input@.subrange(pos as int, pos + n) =~= zeros(n as int));
    true
}

/// Reads the string field at `pos`, returning where its data starts and how long it is.
pub fn read_token(input: &[u8], pos: usize) -> (r: Option<(usize, usize)>)
    ensures
        match token_at(input@, pos as int) {
            Some(data) => r matches Some((start, len)) && start == pos + 8 && len == data.len()
                && start + len <= input@.len() && input@.subrange(start as int, start + len)
                == data,
            None => r is None,
        },
{
    let len = match read_int(input, pos) {
        Some(len) => len,
        None => return None,
    };
    let rest = input.len() - pos - 8;
    if len > rest as u64 {
        return None;
    }
    let len = len as usize;
    let pad = calculate_padding(len as u64);
    if pad > rest - len {
        return None;
    }
    if !zeros_at(input, pos + 8 + len, pad) {
        return None;
    }
    Some((pos + 8, len))
}

/// A string field is read back as the data it was written from.
pub proof fn lemma_token_at_str_token(input: Seq<u8>, pos: int, data: Seq<u8>)
    requires
        data.len() <= u64::MAX,
        holds_at(input, pos, str_token(data)),
    ensures
        token_at(input, pos) == Some(data),
        str_token(data).len() == str_token_len(data.len() as int),
{
    lemma_auto_spec_u64_to_from_le_bytes();
    let t = str_token(data);
    let n = data.len() as int;
    assert(int_token(data.len() as u64).len() == 8);
    assert(input.subrange(pos, pos + 8) =~= t.subrange(0, 8));
    assert(t.subrange(0, 8) =~= int_token(data.len() as u64));
    assert(int_at(input, pos) == Some(data.len() as u64));
    assert(input.subrange(pos + 8 + n, pos + str_token_len(n)) =~= t.subrange(8 + n, t.len() as int));
    assert(t.subrange(8 + n, t.len() as int) =~= zeros(padding_of(n)));
    assert(input.subrange(pos + 8, pos + 8 + n) =~= t.subrange(8, 8 + n));
    assert(t.subrange(8, 8 + n) =~= data);
}

/// A string field read at `pos` is exactly the field of its data.
pub proof fn lemma_str_token_of_token_at(input: Seq<u8>, pos: int)
    requires
        token_at(input, pos) is Some,
    ensures
        holds_at(input, pos, str_token(token_at(input, pos)->Some_0)),
        token_at(input, pos)->Some_0.len() <= u64::MAX,
{
    lemma_auto_spec_u64_to_from_le_bytes();
    let data = token_at(input, pos)->Some_0;
    let len = int_at(input, pos)->Some_0;
    let n = len as int;
    assert(data.len() == n);
    let t = str_token(data);
    assert(int_token(len) =~= input.subrange(pos, pos + 8));
    assert(input.subrange(pos, pos + t.len()) =~= t);
}

/// An integer field is read back as the integer it was written from.
pub proof fn lemma_int_at_int_token(input: Seq<u8>, pos: int, v: u64)
    requires
        holds_at(input, pos, int_token(v)),
    ensures
        int_at(input, pos) == Some(v),
{
    lemma_auto_spec_u64_to_from_le_bytes();
    assert(input.subrange(pos, pos + 8) =~= int_token(v));
}

/// An integer read at `pos` is exactly the field of its value.
pub proof fn lemma_int_token_of_int_at(input: Seq<u8>, pos: int)
    requires
        int_at(input, pos) is Some,
    ensures
        holds_at(input, pos, int_token(int_at(input, pos)->Some_0)),
{
    lemma_auto_spec_u64_to_from_le_bytes();
    let s = input.subrange(pos, pos + 8);
    assert(spec_u64_to_le_bytes(spec_u64_from_le_bytes(s)) == s);
}

} // verus!
