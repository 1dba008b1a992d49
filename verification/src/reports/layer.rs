//! Turning logged events and their enclosing spans into reports.
use vstd::prelude::*;

use crate::reports::report::{Frame, FrameView, Level, Location, Metadata, ReportPayload};

verus! {

broadcast use vstd::seq_lib::group_seq_properties;

/// The most verbose level a filter lets through, or none at all.
#[derive(Debug, Clone, Copy, PartialEq, Eq, Structural)]
pub enum LevelFilter {
    Off,
    Error,
    Warn,
    Info,
    Debug,
    Trace,
}

/// How verbose a level is: errors are the least verbose.
pub open spec fn level_verbosity(level: Level) -> int {
    match level {
        Level::Error => 1,
        Level::Warn => 2,
        Level::Info => 3,
        Level::Debug => 4,
        Level::Trace => 5,
    }
}

/// How verbose the levels a filter lets through may be; `Off` lets none.
pub open spec fn filter_verbosity(filter: LevelFilter) -> int {
    match filter {
        LevelFilter::Off => 0,
        LevelFilter::Error => 1,
        LevelFilter::Warn => 2,
        LevelFilter::Info => 3,
        LevelFilter::Debug => 4,
        LevelFilter::Trace => 5,
    }
}

fn verbosity_of_level(level: Level) -> (v: u8)
    ensures
        v == level_verbosity(level),
{
    match level {
        Level::Error => 1,
        Level::Warn => 2,
        Level::Info => 3,
        Level::Debug => 4,
        Level::Trace => 5,
    }
}

fn verbosity_of_filter(filter: LevelFilter) -> (v: u8)
    ensures
        v == filter_verbosity(filter),
{
    match filter {
        LevelFilter::Off => 0,
        LevelFilter::Error => 1,
        LevelFilter::Warn => 2,
        LevelFilter::Info => 3,
        LevelFilter::Debug => 4,
        LevelFilter::Trace => 5,
    }
}

/// Whether `filter` lets events at `level` through.
pub fn enabled(level: Level, filter: LevelFilter) -> (r: bool)
    ensures
        r == (level_verbosity(level) <= filter_verbosity(filter)),
{
    verbosity_of_level(level) <= verbosity_of_filter(filter)
}

/// `after` is `before` with one more frame, whose text is `frame`.
pub open spec fn appended(before: Seq<Frame>, after: Seq<Frame>, frame: FrameView) -> bool {
    &&& after.len() == before.len() + 1
    &&& after.drop_last() == before
    &&& after.last()@ == frame
}

/// The fields recorded from an event or a span.
#[derive(Debug)]
pub struct RecordVisitor {
    pub message: Option<String>,
    pub frames: Vec<Frame>,
    pub children: Vec<ReportPayload>,
}

/// Whether `field` names a field of the `log` compatibility layer.
pub open spec fn is_log_field(field: Seq<char>) -> bool {
    field.len() >= 4 && field.subrange(0, 4) == "log."@
}

/// The text `{:?}` writes for a string.
pub uninterp spec fn debug_text(text: Seq<char>) -> Seq<char>;

/// Formats `text` with `{:?}`.
#[verifier::external_body]
pub(crate) fn format_debug(text: &str) -> (formatted: String)
    ensures
        formatted@ == debug_text(text@),
{
    format!("{:?}", text)
}

fn same_text(a: &str, b: &str) -> (r: bool)
    ensures
        r == (a@ == b@),
{
    String::from_str(a) == String::from_str(b)
}

fn has_log_prefix(field: &str) -> (r: bool)
    ensures
        r == is_log_field(field@),
{
    let len = field.unicode_len();
    if len < 4 {
        false
    } else {
        same_text(field.substring_char(0, 4), "log.")
    }
}

impl RecordVisitor {
    /// A visitor that recorded nothing.
    pub fn new() -> (visitor: Self)
        ensures
            visitor.message.is_none(),
            visitor.frames@.len() == 0,
            visitor.children@.len() == 0,
    {
        RecordVisitor { message: None, frames: Vec::new(), children: Vec::new() }
    }

    /// Records a field whose value was formatted with `{:?}`: fields of the
    /// `log` layer are skipped, `message` sets the message, `attachment`
    /// adds an attachment, and any other field adds a context entry.
    pub fn record_debug(&mut self, field: &str, value: &str)
        ensures
            final(self).children == old(self).children,
            final(self).recorded(*old(self), field@, value@),
    {
        if has_log_prefix(field) {
            return ;
        }
        if same_text(field, "message") {
            self.message = Some(String::from_str(value));
        } else if same_text(field, "attachment") {
            self.frames.push(Frame::attachment(value));
            assert(self.frames@.drop_last() =~= old(self).frames@);
        } else {
            self.frames.push(Frame::context(field, value));
            assert(self.frames@.drop_last() =~= old(self).frames@);
        }
    }

    /// Records a string field: `suggestion` adds a suggestion; any other
    /// field is recorded as its `{:?}` text.
    pub fn record_str(&mut self, field: &str, value: &str)
        ensures
            final(self).children == old(self).children,
            field@ == "suggestion"@ ==> final(self).message == old(self).message && appended(
                old(self).frames@,
                final(self).frames@,
                FrameView::Suggestion(value@),
            ),
            field@ != "suggestion"@ ==> final(self).recorded(*old(self), field@, debug_text(value@)),
    {
        if same_text(field, "suggestion") {
            self.frames.push(Frame::suggestion(value));
            assert(self.frames@.drop_last() =~= old(self).frames@);
        } else {
            let formatted = format_debug(value);
            self.record_debug(field, formatted.as_str());
        }
    }

    /// `self` is `before` after recording `field` with the text `value`.
    pub open spec fn recorded(&self, before: RecordVisitor, field: Seq<char>, value: Seq<char>) -> bool {
        if is_log_field(field) {
            self.message == before.message && self.frames@ == before.frames@
        } else if field == "message"@ {
            self.message.is_some() && self.message.unwrap()@ == value && self.frames@
                == before.frames@
        } else if field == "attachment"@ {
            self.message == before.message && appended(
                before.frames@,
                self.frames@,
                FrameView::Attachment(value),
            )
        } else {
            self.message == before.message && appended(
                before.frames@,
                self.frames@,
                FrameView::Context { key: field, value },
            )
        }
    }

    /// Records an error field as a child report.
    pub fn record_error(&mut self, child: ReportPayload)
        ensures
            final(self).message == old(self).message,
            final(self).frames == old(self).frames,
            final(self).children@ == old(self).children@.push(child),
    {
        self.children.push(child);
    }
}

/// What an event or span reports about itself, besides its fields.
#[derive(Debug)]
pub struct SiteMetadata {
    /// Whether this is a span rather than an event.
    pub is_span: bool,
    /// The name of the span or event.
    pub name: String,
    /// Its level.
    pub level: Level,
    /// The file it was logged in, if known.
    pub file: Option<String>,
    /// The line it was logged at, if known.
    pub line: Option<u32>,
    /// The module path it was logged from.
    pub target: String,
    /// The name of the event type.
    pub kind: String,
}

/// The message used when an event recorded none.
pub const NO_MESSAGE: &'static str = "no message specified";

/// Turns the metadata and the recorded fields of an event or span into a
/// report: a span is named by its name, an event by its message (or
/// [`NO_MESSAGE`]); the location is the file and line, or else the module.
pub fn metadata_to_payload(metadata: SiteMetadata, visitor: RecordVisitor) -> (payload: ReportPayload)
    ensures
        payload.message@ == (if metadata.is_span {
            metadata.name@
        } else {
            match visitor.message {
                Some(message) => message@,
                None => NO_MESSAGE@,
            }
        }),
        payload.metadata.level == metadata.level,
        payload.metadata.type_label == metadata.kind,
        payload.metadata.location == (match metadata.file {
            Some(name) => Location::File { name, line: metadata.line, column: None },
            None => Location::Module(metadata.target),
        }),
        payload.frames == visitor.frames,
        payload.children == visitor.children,
{
    let message = if metadata.is_span {
        metadata.name
    } else {
        match visitor.message {
            Some(message) => message,
            None => NO_MESSAGE.to_string(),
        }
    };
    let location = match metadata.file {
        Some(name) => Location::File { name, line: metadata.line, column: None },
        None => Location::Module(metadata.target),
    };
    ReportPayload {
        frames: visitor.frames,
        children: visitor.children,
        message,
        metadata: Metadata { location, level: metadata.level, type_label: metadata.kind },
    }
}

/// `result` is `payload` placed, span by span from the innermost, as the
/// last child of the report of each span in `scope` that has one.
pub open spec fn wrapped_in_spans(
    result: ReportPayload,
    payload: ReportPayload,
    scope: Seq<Option<ReportPayload>>,
) -> bool
    decreases scope.len(),
{
    if scope.len() == 0 {
        result == payload
    } else {
        match scope.last() {
            None => wrapped_in_spans(result, payload, scope.drop_last()),
            Some(parent) => {
                &&& result.message == parent.message
                &&& result.metadata == parent.metadata
                &&& result.frames == parent.frames
                &&& result.children@.len() == parent.children@.len() + 1
                &&& result.children@.drop_last() == parent.children@
                &&& wrapped_in_spans(result.children@.last(), payload, scope.drop_last())
            },
        }
    }
}

/// The frames of the spans in `scope` that have a report, in order.
pub open spec fn span_frames(scope: Seq<Option<ReportPayload>>) -> Seq<Frame>
    decreases scope.len(),
{
    if scope.len() == 0 {
        Seq::empty()
    } else {
        span_frames(scope.drop_last()) + match scope.last() {
            Some(span) => span.frames@,
            None => Seq::empty(),
        }
    }
}

/// A layer that renders logged events as reports.
#[derive(Debug)]
pub struct ReportLayer<R, W> {
    renderer: R,
    writer: W,
    render_spans_at: LevelFilter,
}

impl<R, W> ReportLayer<R, W> {
    /// The renderer.
    pub closed spec fn spec_renderer(&self) -> R {
        self.renderer
    }

    /// The writer.
    pub closed spec fn spec_writer(&self) -> W {
        self.writer
    }

    /// Up to which level spans are rendered as parents of events.
    pub closed spec fn spec_render_spans_at(&self) -> LevelFilter {
        self.render_spans_at
    }

    /// A layer with `renderer` and `writer`, rendering spans up to the debug
    /// level.
    pub fn new(renderer: R, writer: W) -> (layer: Self)
        ensures
            layer.spec_renderer() == renderer,
            layer.spec_writer() == writer,
            layer.spec_render_spans_at() == LevelFilter::Debug,
    {
        ReportLayer { renderer, writer, render_spans_at: LevelFilter::Debug }
    }

    /// Sets the renderer this layer uses to display reports.
    pub fn with_renderer<T>(self, renderer: T) -> (layer: ReportLayer<T, W>)
        ensures
            layer.spec_renderer() == renderer,
            layer.spec_writer() == self.spec_writer(),
            layer.spec_render_spans_at() == self.spec_render_spans_at(),
    {
        ReportLayer { renderer, writer: self.writer, render_spans_at: self.render_spans_at }
    }

    /// Sets the writer this layer uses to write events.
    pub fn with_writer<X>(self, writer: X) -> (layer: ReportLayer<R, X>)
        ensures
            layer.spec_renderer() == self.spec_renderer(),
            layer.spec_writer() == writer,
            layer.spec_render_spans_at() == self.spec_render_spans_at(),
    {
        ReportLayer { renderer: self.renderer, writer, render_spans_at: self.render_spans_at }
    }

    /// Sets up to which level spans are rendered as parents of events;
    /// below it, only their frames are kept.
    pub fn render_spans(self, at: LevelFilter) -> (layer: Self)
        ensures
            layer.spec_renderer() == self.spec_renderer(),
            layer.spec_writer() == self.spec_writer(),
            layer.spec_render_spans_at() == at,
    {
        ReportLayer { renderer: self.renderer, writer: self.writer, render_spans_at: at }
    }

    /// The renderer.
    pub fn renderer(&self) -> (renderer: &R)
        ensures
            *renderer == self.spec_renderer(),
    {
        &self.renderer
    }

    /// The writer.
    pub fn writer(&self) -> (writer: &W)
        ensures
            *writer == self.spec_writer(),
    {
        &self.writer
    }

    /// The report of an event at `level`, given the reports of its enclosing
    /// spans from the innermost out: when the filter lets `level` through,
    /// the event is nested into each span's report; otherwise it gets the
    /// spans' frames.
    pub fn assemble_event(
        &self,
        payload: ReportPayload,
        level: Level,
        scope: Vec<Option<ReportPayload>>,
    ) -> (report: ReportPayload)
        ensures
            level_verbosity(level) <= filter_verbosity(self.spec_render_spans_at())
                ==> wrapped_in_spans(report, payload, scope@),
            level_verbosity(level) > filter_verbosity(self.spec_render_spans_at()) ==> {
                &&& report.message == payload.message
                &&& report.metadata == payload.metadata
                &&& report.children == payload.children
                &&& report.frames@ == payload.frames@ + span_frames(scope@)
            },
    {
        let ghost all = scope@;
        let ghost initial = payload;
        let mut scope = scope;
        let n = scope.len();
        if enabled(level, self.render_spans_at) {
            let mut acc = payload;
            let mut k: usize = 0;
            while k < n
                invariant
                    n == all.len(),
                    k <= n,
                    scope@ == all.subrange(k as int, n as int),
                    wrapped_in_spans(acc, initial, all.take(k as int)),
                decreases n - k,
            {
                let span = scope.remove(0);
                proof {
                    assert(span == all[k as int]);
                    assert(scope@ =~= all.subrange(k as int + 1, n as int));
                    assert(all.take(k as int + 1).drop_last() =~= all.take(k as int));
                    assert(all.take(k as int + 1).last() == all[k as int]);
                }
                match span {
                    Some(parent) => {
                        let ghost inner = acc;
                        let ghost before = parent.children@;
                        let mut parent = parent;
                        parent.children.push(acc);
                        proof {
                            assert(parent.children@.drop_last() =~= before);
                        }
                        acc = parent;
                    },
                    None => {},
                }
                k = k + 1;
            }
            proof {
                assert(all.take(n as int) =~= all);
            }
            acc
        } else {
            let mut payload = payload;
            let mut k: usize = 0;
            while k < n
                invariant
                    n == all.len(),
                    k <= n,
                    scope@ == all.subrange(k as int, n as int),
                    payload.message == initial.message,
                    payload.metadata == initial.metadata,
                    payload.children == initial.children,
                    payload.frames@ == initial.frames@ + span_frames(all.take(k as int)),
                decreases n - k,
            {
                let span = scope.remove(0);
                proof {
                    assert(span == all[k as int]);
                    assert(scope@ =~= all.subrange(k as int + 1, n as int));
                    assert(all.take(k as int + 1).drop_last() =~= all.take(k as int));
                    assert(all.take(k as int + 1).last() == all[k as int]);
                }
                match span {
                    Some(parent) => {
                        let mut frames = parent.frames;
                        let ghost added = frames@;
                        let ghost before = payload.frames@;
                        payload.frames.append(&mut frames);
                        proof {
                            assert(payload.frames@ =~= initial.frames@ + span_frames(
                                all.take(k as int + 1),
                            ));
                        }
                    },
                    None => {
                        proof {
                            assert(span_frames(all.take(k as int + 1)) =~= span_frames(
                                all.take(k as int),
                            ));
                        }
                    },
                }
                k = k + 1;
            }
            proof {
                assert(all.take(n as int) =~= all);
            }
            payload
        }
    }
}

} // verus!
