//! Package names and link times, and their text forms.
use vstd::prelude::*;

use crate::reports::layer::{debug_text, format_debug};

verus! {

broadcast use vstd::seq_lib::group_seq_properties;

/// When a dependency is needed: at run time or only at build time.
#[derive(Debug, Clone, Copy, Hash, PartialEq, Eq, Structural)]
pub enum LinkTime {
    Runtime,
    Buildtime,
}

/// The text of a link time.
pub open spec fn link_time_text(time: LinkTime) -> Seq<char> {
    match time {
        LinkTime::Runtime => "runtime"@,
        LinkTime::Buildtime => "buildtime"@,
    }
}

/// A text that names no link time.
#[derive(Debug)]
pub struct LinkTimeParseError(pub String);

impl LinkTimeParseError {
    /// The message of this error.
    pub fn message(&self) -> (text: String)
        ensures
            text@ == "could not parse link time (expected \"buildtime\" or \"runtime\", found: "@
                + debug_text(self.0@) + ")"@,
    {
        let mut text = String::from_str(
            "could not parse link time (expected \"buildtime\" or \"runtime\", found: ",
        );
        text.append(format_debug(self.0.as_str()).as_str());
        text.append(")");
        text
    }
}

fn same_text(a: &str, b: &str) -> (r: bool)
    ensures
        r == (a@ == b@),
{
    String::from_str(a) == String::from_str(b)
}

impl LinkTime {
    /// The text of this link time.
    pub fn as_str(&self) -> (text: &'static str)
        ensures
            text@ == link_time_text(*self),
    {
        match self {
            LinkTime::Runtime => "runtime",
            LinkTime::Buildtime => "buildtime",
        }
    }

    /// Parses `buildtime` or `runtime`; any other text is an error that
    /// holds it.
    pub fn parse(text: &str) -> (r: Result<LinkTime, LinkTimeParseError>)
        ensures
            text@ == "buildtime"@ ==> r == Ok::<LinkTime, LinkTimeParseError>(LinkTime::Buildtime),
            text@ == "runtime"@ ==> r == Ok::<LinkTime, LinkTimeParseError>(LinkTime::Runtime),
            text@ != "buildtime"@ && text@ != "runtime"@ ==> r is Err && r->Err_0.0@ == text@,
    {
        proof {
            reveal_strlit("buildtime");
            reveal_strlit("runtime");
            assert("runtime"@.len() != "buildtime"@.len());
        }
        if same_text(text, "buildtime") {
            Ok(LinkTime::Buildtime)
        } else if same_text(text, "runtime") {
            Ok(LinkTime::Runtime)
        } else {
            Err(LinkTimeParseError(String::from_str(text)))
        }
    }
}

/// A dependency of a package: another node of the plan, and when it is
/// needed.
#[derive(Debug, Clone, Copy, PartialEq, Eq, Structural)]
pub struct Dependency {
    pub node: usize,
    pub time: LinkTime,
}

/// A request that builds part of a package: the executor that runs it, and
/// its payload.
#[derive(Debug)]
pub struct DispatchRequest<V> {
    pub executor: String,
    pub payload: V,
}

/// A package: its name, the requests that build it, and its dependencies.
#[derive(Debug)]
pub struct Package<R> {
    pub name: PackageName,
    pub requests: Vec<R>,
    pub dependencies: Vec<Dependency>,
}

/// A package's name: an identifier within a namespace path.
#[derive(Debug)]
pub struct PackageName {
    pub identifier: String,
    pub namespace: Vec<String>,
}

/// The pieces of `text` between its `sep`s: one more than there are `sep`s.
pub open spec fn pieces(text: Seq<char>, sep: char) -> Seq<Seq<char>>
    decreases text.len(),
{
    if text.len() == 0 {
        seq![Seq::<char>::empty()]
    } else {
        let rest = pieces(text.drop_last(), sep);
        if text.last() == sep {
            rest.push(Seq::<char>::empty())
        } else {
            rest.update(rest.len() - 1, rest.last().push(text.last()))
        }
    }
}

/// `parts` joined with `sep` between each two.
pub open spec fn join_with(parts: Seq<Seq<char>>, sep: char) -> Seq<char>
    decreases parts.len(),
{
    if parts.len() == 0 {
        Seq::empty()
    } else if parts.len() == 1 {
        parts[0]
    } else {
        join_with(parts.drop_last(), sep) + seq![sep] + parts.last()
    }
}

/// The text of a package name: `identifier`, or `identifier@a/b/c`.
pub open spec fn name_text(identifier: Seq<char>, namespace: Seq<Seq<char>>) -> Seq<char> {
    if namespace.len() == 0 {
        identifier
    } else {
        identifier + seq!['@'] + join_with(namespace, '/')
    }
}

/// The identifier parsed from `text`: everything before the first `@`.
pub open spec fn parsed_identifier(text: Seq<char>) -> Seq<char> {
    pieces(text, '@')[0]
}

/// The namespace parsed from `text`: what follows the first `@` (or
/// nothing), split at each `/`.
pub open spec fn parsed_namespace(text: Seq<char>) -> Seq<Seq<char>> {
    let identifier = parsed_identifier(text);
    if identifier.len() < text.len() {
        pieces(text.subrange(identifier.len() as int + 1, text.len() as int), '/')
    } else {
        pieces(Seq::<char>::empty(), '/')
    }
}

proof fn lemma_pieces_nonempty(text: Seq<char>, sep: char)
    ensures
        pieces(text, sep).len() >= 1,
    decreases text.len(),
{
    if text.len() > 0 {
        lemma_pieces_nonempty(text.drop_last(), sep);
    }
}

/// Splits `text` at each `sep`.
pub(crate) fn split_at_char(text: &str, sep: char) -> (parts: Vec<String>)
    ensures
        parts@.map_values(|p: String| p@) == pieces(text@, sep),
{
    let len = text.unicode_len();
    let mut parts: Vec<String> = Vec::new();
    let mut start: usize = 0;
    let mut i: usize = 0;
    while i < len
        invariant
            len == text@.len(),
            start <= i <= len,
            parts@.map_values(|p: String| p@) + seq![text@.subrange(start as int, i as int)]
                == pieces(text@.take(i as int), sep),
        decreases len - i,
    {
        let c = text.get_char(i);
        let ghost done = parts@.map_values(|p: String| p@);
        proof {
            assert(text@.take(i as int + 1).drop_last() =~= text@.take(i as int));
            assert(text@.take(i as int + 1).last() == c);
            lemma_pieces_nonempty(text@.take(i as int), sep);
        }
        if c == sep {
            let piece = String::from_str(text.substring_char(start, i));
            parts.push(piece);
            proof {
                assert(parts@.map_values(|p: String| p@) =~= done.push(
                    text@.subrange(start as int, i as int),
                ));
            }
            start = i + 1;
            proof {
                assert(text@.subrange(start as int, i as int + 1) =~= Seq::<char>::empty());
                assert(parts@.map_values(|p: String| p@) + seq![
                    text@.subrange(start as int, i as int + 1),
                ] =~= pieces(text@.take(i as int + 1), sep));
            }
        } else {
            proof {
                assert(text@.subrange(start as int, i as int + 1) =~= text@.subrange(
                    start as int,
                    i as int,
                ).push(c));
                assert(parts@.map_values(|p: String| p@) + seq![
                    text@.subrange(start as int, i as int + 1),
                ] =~= pieces(text@.take(i as int + 1), sep));
            }
        }
        i = i + 1;
    }
    let ghost done = parts@.map_values(|p: String| p@);
    let last = String::from_str(text.substring_char(start, len));
    parts.push(last);
    proof {
        assert(text@.take(len as int) =~= text@);
        assert(parts@.map_values(|p: String| p@) =~= done + seq![
            text@.subrange(start as int, len as int),
        ]);
    }
    parts
}

/// The position of the first `@` in `text`, or its length.
fn find_at(text: &str) -> (position: usize)
    ensures
        position <= text@.len(),
        position == parsed_identifier(text@).len(),
        text@.subrange(0, position as int) == parsed_identifier(text@),
{
    let len = text.unicode_len();
    let mut i: usize = 0;
    while i < len
        invariant
            len == text@.len(),
            i <= len,
            forall|j: int| 0 <= j < i ==> text@[j] != '@',
        decreases len - i,
    {
        if text.get_char(i) == '@' {
            proof {
                lemma_first_piece(text@, '@', i as int);
                assert(text@.take(i as int) =~= text@.subrange(0, i as int));
            }
            return i;
        }
        i = i + 1;
    }
    proof {
        lemma_single_piece(text@, '@');
        assert(text@ =~= text@.subrange(0, len as int));
    }
    len
}

/// A text without `sep` is a single piece.
proof fn lemma_single_piece(text: Seq<char>, sep: char)
    requires
        forall|j: int| 0 <= j < text.len() ==> text[j] != sep,
    ensures
        pieces(text, sep) == seq![text],
    decreases text.len(),
{
    if text.len() > 0 {
        let t = text.drop_last();
        assert forall|j: int| 0 <= j < t.len() implies t[j] != sep by {
            assert(t[j] == text[j]);
        }
        lemma_single_piece(t, sep);
        assert(text.last() == text[text.len() - 1]);
        assert(t.push(text.last()) =~= text);
    } else {
        assert(text =~= Seq::<char>::empty());
    }
}

/// With the first `sep` at `i`, the first piece is the text before it.
proof fn lemma_first_piece(text: Seq<char>, sep: char, i: int)
    requires
        0 <= i < text.len(),
        text[i] == sep,
        forall|j: int| 0 <= j < i ==> text[j] != sep,
    ensures
        pieces(text, sep).len() >= 2,
        pieces(text, sep)[0] == text.take(i),
    decreases text.len(),
{
    let t = text.drop_last();
    if text.len() == i + 1 {
        assert forall|j: int| 0 <= j < t.len() implies t[j] != sep by {
            assert(t[j] == text[j]);
        }
        lemma_single_piece(t, sep);
        assert(text.last() == text[i]);
        assert(t =~= text.take(i));
    } else {
        assert(t[i] == text[i]);
        assert forall|j: int| 0 <= j < i implies t[j] != sep by {
            assert(t[j] == text[j]);
        }
        lemma_first_piece(t, sep, i);
        assert(t.take(i) =~= text.take(i));
    }
}

impl PackageName {
    /// Parses `identifier@namespace/path`: the identifier is the text before
    /// the first `@`, and the namespace is the text after it split at each
    /// `/` (a text without `@` has the namespace of the empty text: one empty
    /// segment).
    pub fn parse(text: &str) -> (name: PackageName)
        ensures
            name.identifier@ == parsed_identifier(text@),
            name.namespace@.map_values(|s: String| s@) == parsed_namespace(text@),
    {
        let at = find_at(text);
        let len = text.unicode_len();
        let identifier = String::from_str(text.substring_char(0, at));
        let rest = if at < len {
            text.substring_char(at + 1, len)
        } else {
            text.substring_char(len, len)
        };
        proof {
            if at >= len {
                assert(rest@ =~= Seq::<char>::empty());
            }
        }
        let namespace = split_at_char(rest, '/');
        PackageName { identifier, namespace }
    }

    /// The text of this name: the identifier alone when the namespace is
    /// empty, else `identifier@` and the segments joined with `/`.
    pub fn to_text(&self) -> (text: String)
        ensures
            text@ == name_text(self.identifier@, self.namespace@.map_values(|s: String| s@)),
    {
        let ghost segments = self.namespace@.map_values(|s: String| s@);
        let mut text = String::from_str(self.identifier.as_str());
        if self.namespace.len() == 0 {
            return text;
        }
        proof {
            reveal_strlit("@");
            reveal_strlit("/");
        }
        text.append("@");
        let mut i: usize = 0;
        while i < self.namespace.len()
            invariant
                segments == self.namespace@.map_values(|s: String| s@),
                i <= self.namespace@.len(),
                self.namespace@.len() > 0,
                text@ == self.identifier@ + seq!['@'] + join_with(segments.take(i as int), '/'),
            decreases self.namespace@.len() - i,
        {
            proof {
                assert(segments.take(i as int + 1).drop_last() =~= segments.take(i as int));
                assert(segments.take(i as int + 1).last() == self.namespace@[i as int]@);
            }
            let ghost before = text@;
            proof {
                reveal_strlit("/");
            }
            if i > 0 {
                text.append("/");
                text.append(self.namespace[i].as_str());
                proof {
                    assert(text@ =~= before + seq!['/'] + self.namespace@[i as int]@);
                    assert(join_with(segments.take(i as int + 1), '/') == join_with(
                        segments.take(i as int),
                        '/',
                    ) + seq!['/'] + self.namespace@[i as int]@);
                    assert(text@ =~= self.identifier@ + seq!['@'] + join_with(
                        segments.take(i as int + 1),
                        '/',
                    ));
                }
            } else {
                text.append(self.namespace[i].as_str());
                proof {
                    assert(segments.take(1) =~= seq![self.namespace@[0]@]);
                    assert(join_with(segments.take(0), '/') =~= Seq::<char>::empty());
                    assert(text@ =~= self.identifier@ + seq!['@'] + join_with(
                        segments.take(i as int + 1),
                        '/',
                    ));
                }
            }
            i = i + 1;
        }
        proof {
            assert(segments.take(i as int) =~= segments);
        }
        text
    }
}

} // verus!
