use xuehua::nar::decoding::decode;
use xuehua::nar::encoding::Encoder;
use xuehua::nar::state::{CoderState, Event, StackFrame};
use xuehua::nar::wire::calculate_padding;

fn token(out: &mut Vec<u8>, data: &[u8]) {
    out.extend_from_slice(&(data.len() as u64).to_le_bytes());
    out.extend_from_slice(data);
    while out.len() % 8 != 0 {
        out.push(0);
    }
}

fn regular(out: &mut Vec<u8>, executable: bool, contents: &[u8]) {
    for word in [&b"("[..], b"type", b"regular"] {
        token(out, word);
    }
    if executable {
        token(out, b"executable");
        token(out, b"");
    }
    token(out, b"contents");
    token(out, contents);
    token(out, b")");
}

fn symlink(out: &mut Vec<u8>, target: &[u8]) {
    for word in [&b"("[..], b"type", b"symlink", b"target"] {
        token(out, word);
    }
    token(out, target);
    token(out, b")");
}

fn entry_open(out: &mut Vec<u8>, name: &[u8]) {
    for word in [&b"entry"[..], b"(", b"name"] {
        token(out, word);
    }
    token(out, name);
    token(out, b"node");
}

fn directory_open(out: &mut Vec<u8>) {
    for word in [&b"("[..], b"type", b"directory"] {
        token(out, word);
    }
}

// merges consecutive content chunks, so that equivalent streams compare equal
fn chunk_collapse(events: Vec<Event>) -> Vec<Event> {
    let mut acc: Vec<Event> = Vec::new();
    for event in events {
        if let Some(Event::RegularContentChunk(parent)) = acc.last_mut() {
            if let Event::RegularContentChunk(chunk) = &event {
                parent.extend_from_slice(chunk);
                continue;
            }
        }
        acc.push(event);
    }
    acc
}

fn roundtrip(contents: &[u8]) {
    let decoded = decode(contents).expect("decoding should not fail");
    let decoded = chunk_collapse(decoded);
    let mut encoded = Vec::new();
    Encoder::new(decoded)
        .read_to_end(&mut encoded)
        .expect("encoding should not fail");
    assert!(contents == encoded.as_slice(), "re-encoding the decoded events did not give the input back");
}

fn compiler_archive() -> Vec<u8> {
    let mut out = Vec::new();
    token(&mut out, b"nix-archive-1");
    directory_open(&mut out);
    entry_open(&mut out, b"bin");
    directory_open(&mut out);
    entry_open(&mut out, b"rustc");
    regular(&mut out, true, b"\x7fELF\x02\x01\x01\0compiler");
    token(&mut out, b")");
    entry_open(&mut out, b"rustdoc");
    symlink(&mut out, b"rustc");
    token(&mut out, b")");
    token(&mut out, b")");
    token(&mut out, b")");
    entry_open(&mut out, b"version");
    regular(&mut out, false, b"1.90.0\n");
    token(&mut out, b")");
    token(&mut out, b")");
    out
}

fn core_archive() -> Vec<u8> {
    let mut out = Vec::new();
    token(&mut out, b"nix-archive-1");
    regular(&mut out, false, b"pub mod option;\npub mod result;\n");
    out
}

fn std_archive() -> Vec<u8> {
    let mut out = Vec::new();
    token(&mut out, b"nix-archive-1");
    directory_open(&mut out);
    entry_open(&mut out, b"lib");
    directory_open(&mut out);
    entry_open(&mut out, b"libstd.so");
    regular(&mut out, true, &[7u8; 37]);
    token(&mut out, b")");
    token(&mut out, b")");
    token(&mut out, b")");
    entry_open(&mut out, b"share");
    directory_open(&mut out);
    token(&mut out, b")");
    token(&mut out, b")");
    token(&mut out, b")");
    out
}

// The three blob round trips below use small archives written in this file,
// shaped like the compiler, core and std toolchain archives (a directory
// tree with executable and plain files), in place of the archive blobs.
#[test]
fn test_roundtrip_blob_rust_compiler() {
    roundtrip(&compiler_archive());
}

#[test]
fn test_roundtrip_blob_rust_core() {
    roundtrip(&core_archive());
}

#[test]
fn test_roundtrip_blob_rust_std() {
    roundtrip(&std_archive());
}

#[test]
fn padding_rounds_up_to_eight() {
    assert_eq!(calculate_padding(0), 0);
    assert_eq!(calculate_padding(1), 7);
    assert_eq!(calculate_padding(8), 0);
    assert_eq!(calculate_padding(13), 3);
}

#[test]
fn encoder_writes_a_single_file() {
    let events = vec![
        Event::Header,
        Event::Regular { executable: false, size: 3 },
        Event::RegularContentChunk(b"abc".to_vec()),
    ];
    let mut out = Vec::new();
    Encoder::new(events).read_to_end(&mut out).expect("encoding should not fail");
    let mut expected = Vec::new();
    token(&mut expected, b"nix-archive-1");
    regular(&mut expected, false, b"abc");
    assert_eq!(out, expected);
}

#[test]
fn split_chunks_encode_like_one_chunk() {
    let split = vec![
        Event::Header,
        Event::Regular { executable: true, size: 5 },
        Event::RegularContentChunk(b"ab".to_vec()),
        Event::RegularContentChunk(b"cde".to_vec()),
    ];
    let whole = vec![
        Event::Header,
        Event::Regular { executable: true, size: 5 },
        Event::RegularContentChunk(b"abcde".to_vec()),
    ];
    let mut a = Vec::new();
    let mut b = Vec::new();
    Encoder::new(split).read_to_end(&mut a).unwrap();
    Encoder::new(whole).read_to_end(&mut b).unwrap();
    assert_eq!(a, b);
}

#[test]
fn decoder_rejects_trailing_bytes() {
    let mut bytes = core_archive();
    bytes.extend_from_slice(&[0u8; 8]);
    assert!(decode(&bytes).is_err());
}

#[test]
fn decoder_rejects_a_truncated_archive() {
    let bytes = std_archive();
    assert!(decode(&bytes[..bytes.len() - 8]).is_err());
}

#[test]
fn decoder_rejects_a_wrong_magic() {
    let mut out = Vec::new();
    token(&mut out, b"nix-archive-2");
    regular(&mut out, false, b"x");
    assert!(decode(&out).is_err());
}

#[test]
fn encoder_refuses_a_stream_without_header() {
    let events = vec![Event::Directory];
    let mut out = Vec::new();
    assert!(Encoder::new(events).read_to_end(&mut out).is_err());
}

#[test]
fn encoder_refuses_too_much_content() {
    let events = vec![
        Event::Header,
        Event::Regular { executable: false, size: 1 },
        Event::RegularContentChunk(b"ab".to_vec()),
    ];
    let mut out = Vec::new();
    assert!(Encoder::new(events).read_to_end(&mut out).is_err());
}

#[test]
fn coder_state_tracks_frames() {
    let mut state = CoderState::new();
    assert!(!state.finished());
    assert_eq!(state.peek().ok(), Some(StackFrame::Header));
    state.advance(&Event::Header).unwrap();
    state.advance(&Event::Symlink { target: b"t".to_vec() }).unwrap();
    assert!(state.finished());
    assert!(state.advance(&Event::Header).is_err());
}

#[test]
fn decoded_events_of_a_directory() {
    let events = decode(&std_archive()).unwrap();
    assert_eq!(events[0], Event::Header);
    assert_eq!(events[1], Event::Directory);
    assert_eq!(events[2], Event::DirectoryEntry { name: b"lib".to_vec() });
    assert_eq!(events.last(), Some(&Event::DirectoryEnd));
}

fn one_entry_archive(name: &[u8]) -> Vec<u8> {
    let mut out = Vec::new();
    token(&mut out, b"nix-archive-1");
    directory_open(&mut out);
    entry_open(&mut out, name);
    symlink(&mut out, b"target");
    token(&mut out, b")");
    token(&mut out, b")");
    out
}

#[test]
fn decoder_rejects_a_name_that_is_not_utf8() {
    assert!(decode(&one_entry_archive(b"name")).is_ok());
    assert!(decode(&one_entry_archive(&[0xff, 0xfe])).is_err());
}

#[test]
fn encoder_refuses_a_name_that_is_not_utf8() {
    let events = |name: Vec<u8>| {
        vec![
            Event::Header,
            Event::Directory,
            Event::DirectoryEntry { name },
            Event::Symlink { target: b"target".to_vec() },
            Event::DirectoryEnd,
        ]
    };
    let mut out = Vec::new();
    Encoder::new(events(b"name".to_vec())).read_to_end(&mut out).unwrap();
    assert_eq!(out, one_entry_archive(b"name"));
    let mut out = Vec::new();
    assert!(Encoder::new(events(vec![0xff, 0xfe])).read_to_end(&mut out).is_err());
}

// a small deterministic generator of archives
struct Rng(u64);

impl Rng {
    fn next(&mut self, bound: u64) -> u64 {
        self.0 ^= self.0 << 13;
        self.0 ^= self.0 >> 7;
        self.0 ^= self.0 << 17;
        self.0 % bound
    }
}

fn arbitrary_object(rng: &mut Rng, depth: u32, out: &mut Vec<Event>) {
    match rng.next(if depth < 3 { 3 } else { 2 }) {
        0 => out.push(Event::Symlink { target: vec![b'a' + rng.next(26) as u8; 1 + rng.next(9) as usize] }),
        1 => {
            let size = rng.next(40) as usize;
            out.push(Event::Regular { executable: rng.next(2) == 1, size: size as u64 });
            let mut left = size;
            while left > 0 {
                let chunk = 1 + rng.next(left as u64) as usize;
                out.push(Event::RegularContentChunk(vec![rng.next(256) as u8; chunk]));
                left -= chunk;
            }
        }
        _ => {
            out.push(Event::Directory);
            for name in ["alpha", "beta", "gamma"].iter().take(rng.next(4) as usize) {
                out.push(Event::DirectoryEntry { name: name.as_bytes().to_vec() });
                arbitrary_object(rng, depth + 1, out);
            }
            out.push(Event::DirectoryEnd);
        }
    }
}

#[test]
fn arbtest_roundtrip() {
    let mut rng = Rng(0x9e37_79b9_7f4a_7c15);
    for _ in 0..200 {
        let mut events = vec![Event::Header];
        arbitrary_object(&mut rng, 0, &mut events);
        let events = chunk_collapse(events);
        let mut encoded = Vec::new();
        Encoder::new(events.clone()).read_to_end(&mut encoded).expect("encoding should not fail");
        let decoded = chunk_collapse(decode(&encoded).expect("decoding should not fail"));
        assert!(events == decoded, "decoded events did not match the encoded ones");
    }
}

#[test]
fn coder_accepts_any_chunking_and_counts_frames() {
    let events = vec![
        Event::Header,
        Event::Directory,
        Event::DirectoryEntry { name: b"bin".to_vec() },
        Event::Regular { executable: true, size: 5 },
        Event::RegularContentChunk(b"ab".to_vec()),
        Event::RegularContentChunk(b"c".to_vec()),
        Event::RegularContentChunk(b"de".to_vec()),
        Event::DirectoryEntry { name: b"lib".to_vec() },
        Event::Directory,
        Event::DirectoryEntry { name: b"empty".to_vec() },
        Event::Regular { executable: false, size: 0 },
        Event::DirectoryEnd,
        Event::DirectoryEntry { name: b"link".to_vec() },
        Event::Symlink { target: b"bin".to_vec() },
        Event::DirectoryEnd,
    ];
    let mut state = CoderState::new();
    let mut frames = Vec::new();
    for (i, event) in events.iter().enumerate() {
        assert!(!state.finished());
        frames.extend(state.advance(event).unwrap());
        assert_eq!(state.finished(), i + 1 == events.len());
    }
    let objects = frames.iter().filter(|f| **f == StackFrame::Object).count();
    let entries = frames.iter().filter(|f| **f == StackFrame::DirectoryEntry).count();
    assert_eq!(objects, 5);
    assert_eq!(entries, 4);
}
