//! The report tree and its builder.
use vstd::prelude::*;

verus! {

/// A single piece of information inside of a [`Report`].
#[derive(Debug)]
pub enum Frame {
    /// A key and a value, such as an id, a timestamp or a command.
    Context { key: String, value: String },
    /// A long-form piece of information, such as stderr or a build log.
    Attachment(String),
    /// An inline suggestion to resolve the issue.
    Suggestion(String),
}

/// The text of a [`Frame`].
pub enum FrameView {
    Context { key: Seq<char>, value: Seq<char> },
    Attachment(Seq<char>),
    Suggestion(Seq<char>),
}

impl View for Frame {
    type V = FrameView;

    open spec fn view(&self) -> FrameView {
        match self {
            Frame::Context { key, value } => FrameView::Context { key: key@, value: value@ },
            Frame::Attachment(text) => FrameView::Attachment(text@),
            Frame::Suggestion(text) => FrameView::Suggestion(text@),
        }
    }
}

/// A copy of a string.
pub fn copy_string(text: &String) -> (copy: String)
    ensures
        copy@ == text@,
{
    text.clone()
}

impl Clone for Frame {
    fn clone(&self) -> (copy: Self)
        ensures
            copy@ == self@,
    {
        match self {
            Frame::Context { key, value } => Frame::Context {
                key: copy_string(key),
                value: copy_string(value),
            },
            Frame::Attachment(text) => Frame::Attachment(copy_string(text)),
            Frame::Suggestion(text) => Frame::Suggestion(copy_string(text)),
        }
    }
}

impl Frame {
    /// A [`Frame::Context`].
    pub fn context(key: &str, value: &str) -> (frame: Frame)
        ensures
            frame@ == (FrameView::Context { key: key@, value: value@ }),
    {
        Frame::Context { key: key.to_string(), value: value.to_string() }
    }

    /// A [`Frame::Suggestion`].
    pub fn suggestion(suggestion: &str) -> (frame: Frame)
        ensures
            frame@ == FrameView::Suggestion(suggestion@),
    {
        Frame::Suggestion(suggestion.to_string())
    }

    /// A [`Frame::Attachment`].
    pub fn attachment(attachment: &str) -> (frame: Frame)
        ensures
            frame@ == FrameView::Attachment(attachment@),
    {
        Frame::Attachment(attachment.to_string())
    }
}

/// Where a [`Report`] originated.
#[derive(Debug)]
pub enum Location {
    /// A file, with optionally a line and a column.
    File { name: String, line: Option<u32>, column: Option<u32> },
    /// A module.
    Module(String),
    /// An unknown location.
    Unknown,
}

impl Clone for Location {
    fn clone(&self) -> (copy: Self)
        ensures
            copy == *self || (match (copy, *self) {
                (Location::File { name: a, line: l1, column: c1 }, Location::File {
                    name: b,
                    line: l2,
                    column: c2,
                }) => a@ == b@ && l1 == l2 && c1 == c2,
                (Location::Module(a), Location::Module(b)) => a@ == b@,
                _ => false,
            }),
    {
        match self {
            Location::File { name, line, column } => Location::File {
                name: copy_string(name),
                line: *line,
                column: *column,
            },
            Location::Module(name) => Location::Module(copy_string(name)),
            Location::Unknown => Location::Unknown,
        }
    }
}

impl Default for Location {
    fn default() -> (location: Self)
        ensures
            location == Location::Unknown,
    {
        Location::Unknown
    }
}

/// The importance level of a [`Report`].
#[derive(Debug, Clone, Copy, PartialEq, Eq, Structural)]
pub enum Level {
    Trace,
    Debug,
    Warn,
    Info,
    Error,
}

/// Metadata of a [`Report`].
#[derive(Debug)]
pub struct Metadata {
    /// The location in which the report originated.
    pub location: Location,
    /// The importance level of the report.
    pub level: Level,
    /// The name of the type associated with the report.
    pub type_label: String,
}

/// The payload of a report: its message, frames, children and metadata.
#[derive(Debug)]
pub struct ReportPayload {
    /// Frames attached to this report.
    pub frames: Vec<Frame>,
    /// Child reports that caused this report.
    pub children: Vec<ReportPayload>,
    /// Main message of this report.
    pub message: String,
    /// Other metadata, such as where the report was created.
    pub metadata: Metadata,
}

/// The name recorded for a report that has no type of its own.
pub const UNIT_TYPE_LABEL: &'static str = "()";

impl ReportPayload {
    /// A payload with `message`, created at `location`, at the error level,
    /// with no frames and no children.
    pub fn new(message: String, location: Location) -> (payload: ReportPayload)
        ensures
            payload.message == message,
            payload.metadata.location == location,
            payload.metadata.level == Level::Error,
            payload.metadata.type_label@ == UNIT_TYPE_LABEL@,
            payload.frames@.len() == 0,
            payload.children@.len() == 0,
    {
        ReportPayload {
            frames: Vec::new(),
            children: Vec::new(),
            message,
            metadata: Metadata { location, level: Level::Error, type_label: UNIT_TYPE_LABEL.to_string() },
        }
    }
}

/// The core error type: a tree of reports, typed by the error `E` it
/// stands for.
#[derive(Debug)]
pub struct Report<E> {
    inner: Box<ReportPayload>,
    _marker: std::marker::PhantomData<E>,
}

impl<E> Report<E> {
    /// The payload of this report.
    pub closed spec fn payload(&self) -> ReportPayload {
        *self.inner
    }

    /// Wraps a payload into a report.
    pub fn from_payload(payload: ReportPayload) -> (report: Report<E>)
        ensures
            report.payload() == payload,
    {
        Report { inner: Box::new(payload), _marker: std::marker::PhantomData }
    }

    /// The payload of this report.
    pub fn into_payload(self) -> (payload: ReportPayload)
        ensures
            payload == self.payload(),
    {
        *self.inner
    }

    /// Borrows the payload of this report.
    pub fn as_payload(&self) -> (payload: &ReportPayload)
        ensures
            *payload == self.payload(),
    {
        &self.inner
    }

    /// "Erases" the error type of this report to `()`; the payload is kept
    /// as it is.
    pub fn erased(self) -> (report: Report<()>)
        ensures
            report.payload() == self.payload(),
    {
        Report { inner: self.inner, _marker: std::marker::PhantomData }
    }

    /// Sets the level of this report.
    pub fn with_level(self, level: Level) -> (report: Self)
        ensures
            report.payload().metadata.level == level,
            report.payload().metadata.location == self.payload().metadata.location,
            report.payload().metadata.type_label == self.payload().metadata.type_label,
            report.payload().message == self.payload().message,
            report.payload().frames == self.payload().frames,
            report.payload().children == self.payload().children,
    {
        let mut payload = *self.inner;
        payload.metadata.level = level;
        Report { inner: Box::new(payload), _marker: std::marker::PhantomData }
    }

    /// Appends a frame to this report.
    pub fn with_frame(self, frame: Frame) -> (report: Self)
        ensures
            report.payload().frames@ == self.payload().frames@.push(frame),
            report.payload().message == self.payload().message,
            report.payload().metadata == self.payload().metadata,
            report.payload().children == self.payload().children,
    {
        let mut payload = *self.inner;
        payload.frames.push(frame);
        Report { inner: Box::new(payload), _marker: std::marker::PhantomData }
    }

    /// Appends frames to this report, in order.
    pub fn with_frames(self, frames: Vec<Frame>) -> (report: Self)
        ensures
            report.payload().frames@ == self.payload().frames@ + frames@,
            report.payload().message == self.payload().message,
            report.payload().metadata == self.payload().metadata,
            report.payload().children == self.payload().children,
    {
        let mut payload = *self.inner;
        let mut frames = frames;
        payload.frames.append(&mut frames);
        Report { inner: Box::new(payload), _marker: std::marker::PhantomData }
    }

    /// Appends a report as a child of this report.
    pub fn with_child<F>(self, child: Report<F>) -> (report: Self)
        ensures
            report.payload().children@ == self.payload().children@.push(child.payload()),
            report.payload().message == self.payload().message,
            report.payload().metadata == self.payload().metadata,
            report.payload().frames == self.payload().frames,
    {
        let mut payload = *self.inner;
        payload.children.push(child.into_payload());
        Report { inner: Box::new(payload), _marker: std::marker::PhantomData }
    }

    /// Appends reports as children of this report, in order.
    pub fn with_children<F>(self, children: Vec<Report<F>>) -> (report: Self)
        ensures
            report.payload().children@ == self.payload().children@ + children@.map_values(
                |child: Report<F>| child.payload(),
            ),
            report.payload().message == self.payload().message,
            report.payload().metadata == self.payload().metadata,
            report.payload().frames == self.payload().frames,
    {
        let ghost added = children@.map_values(|child: Report<F>| child.payload());
        let ghost start = self.payload().children@;
        let mut payload = *self.inner;
        let mut children = children;
        let mut taken: Vec<ReportPayload> = Vec::new();
        let ghost all = children@;
        let mut k: usize = 0;
        let n = children.len();
        while k < n
            invariant
                n == all.len(),
                k <= n,
                children@ == all.subrange(k as int, n as int),
                taken@ == all.subrange(0, k as int).map_values(|child: Report<F>| child.payload()),
            decreases n - k,
        {
            let child = children.remove(0);
            proof {
                assert(child == all[k as int]);
            }
            taken.push(child.into_payload());
            proof {
                assert(all.subrange(0, k as int + 1).map_values(|child: Report<F>| child.payload())
                    =~= all.subrange(0, k as int).map_values(|child: Report<F>| child.payload()).push(
                    all[k as int].payload(),
                ));
                assert(children@ =~= all.subrange(k as int + 1, n as int));
            }
            k = k + 1;
        }
        proof {
            assert(all.subrange(0, n as int) =~= all);
        }
        payload.children.append(&mut taken);
        Report { inner: Box::new(payload), _marker: std::marker::PhantomData }
    }
}

impl<E> Report<E> {
    /// "Casts" the error type of this report to `F`, recording `label`, the
    /// name of `F`, as its type; everything else is kept.
    pub fn cast<F>(self, label: String) -> (report: Report<F>)
        ensures
            report.payload().message == self.payload().message,
            report.payload().frames == self.payload().frames,
            report.payload().children == self.payload().children,
            report.payload().metadata.location == self.payload().metadata.location,
            report.payload().metadata.level == self.payload().metadata.level,
            report.payload().metadata.type_label == label,
    {
        let mut payload = *self.inner;
        payload.metadata.type_label = label;
        Report { inner: Box::new(payload), _marker: std::marker::PhantomData }
    }
}

impl Report<()> {
    /// A report with `message`, created at `location`.
    pub fn new(message: String, location: Location) -> (report: Report<()>)
        ensures
            report.payload().message == message,
            report.payload().metadata.location == location,
            report.payload().metadata.level == Level::Error,
            report.payload().metadata.type_label@ == UNIT_TYPE_LABEL@,
            report.payload().frames@.len() == 0,
            report.payload().children@.len() == 0,
    {
        Report::from_payload(ReportPayload::new(message, location))
    }

    /// The report of an error whose message, and those of its sources in
    /// turn, are `messages`, outermost first: a report of each message, all
    /// created at `location`, each the one child of the one before it.
    pub fn from_error(messages: Vec<String>, location: Location) -> (report: Report<()>)
        requires
            messages@.len() >= 1,
        ensures
            is_error_chain(report.payload(), messages@, location),
    {
        let ghost all = messages@;
        let n = messages.len();
        let mut messages = messages;
        let last = messages.pop().unwrap();
        let mut report = Report::new(last, location.clone());
        proof {
            assert(all.subrange(n - 1, n as int) =~= seq![last]);
        }
        while messages.len() > 0
            invariant
                n == all.len(),
                messages@ == all.subrange(0, messages@.len() as int),
                messages@.len() < n,
                is_error_chain(report.payload(), all.subrange(messages@.len() as int, n as int), location),
            decreases messages@.len(),
        {
            let ghost rest = all.subrange(messages@.len() as int, n as int);
            let message = messages.pop().unwrap();
            let ghost chain = all.subrange(messages@.len() as int, n as int);
            report = Report::new(message, location.clone()).with_child(report);
            proof {
                assert(chain.drop_first() =~= rest);
                assert(chain[0] == message);
                assert(messages@ =~= all.subrange(0, messages@.len() as int));
            }
        }
        proof {
            assert(all.subrange(0, n as int) =~= all);
        }
        report
    }
}

/// Two locations name the same place: equal, or equal field by field.
pub open spec fn same_location(a: Location, b: Location) -> bool {
    a == b || match (a, b) {
        (Location::File { name: x, line: l1, column: c1 }, Location::File {
            name: y,
            line: l2,
            column: c2,
        }) => x@ == y@ && l1 == l2 && c1 == c2,
        (Location::Module(x), Location::Module(y)) => x@ == y@,
        _ => false,
    }
}

/// `payload` reports `messages` as a chain: the first message at the error
/// level, at `location`, with no frames, whose one child is the chain of the
/// rest; the report of the last message has no child.
pub open spec fn is_error_chain(payload: ReportPayload, messages: Seq<String>, location: Location) -> bool
    decreases messages.len(),
{
    &&& messages.len() >= 1
    &&& payload.message == messages[0]
    &&& same_location(payload.metadata.location, location)
    &&& payload.metadata.level == Level::Error
    &&& payload.metadata.type_label@ == UNIT_TYPE_LABEL@
    &&& payload.frames@.len() == 0
    &&& if messages.len() == 1 {
        payload.children@.len() == 0
    } else {
        &&& payload.children@.len() == 1
        &&& is_error_chain(payload.children@[0], messages.drop_first(), location)
    }
}

/// Splits results into their values, in order, if every one is `Ok`, and
/// into their errors, in order, otherwise.
pub fn partition_results<T, E>(results: Vec<Result<T, E>>) -> (r: Result<Vec<T>, Vec<E>>)
    ensures
        match r {
            Ok(values) => {
                &&& forall|i: int| 0 <= i < results@.len() ==> (#[trigger] results@[i]) is Ok
                &&& values@ == results@.map_values(|result: Result<T, E>| result->Ok_0)
            },
            Err(errors) => {
                &&& exists|i: int| 0 <= i < results@.len() && (#[trigger] results@[i]) is Err
                &&& errors@ == results@.filter(|result: Result<T, E>| result is Err).map_values(
                    |result: Result<T, E>| result->Err_0,
                )
            },
        },
{
    let ghost all = results@;
    let ghost is_err = |result: Result<T, E>| result is Err;
    let mut results = results;
    let mut values: Vec<T> = Vec::new();
    let mut errors: Vec<E> = Vec::new();
    let mut has_error = false;
    let n = results.len();
    let mut k: usize = 0;
    while k < n
        invariant
            n == all.len(),
            k <= n,
            is_err == (|result: Result<T, E>| result is Err),
            results@ == all.subrange(k as int, n as int),
            has_error <==> exists|i: int| 0 <= i < k && (#[trigger] all[i]) is Err,
            !has_error ==> values@ == all.subrange(0, k as int).map_values(
                |result: Result<T, E>| result->Ok_0,
            ),
            errors@ == all.subrange(0, k as int).filter(is_err).map_values(
                |result: Result<T, E>| result->Err_0,
            ),
        decreases n - k,
    {
        let result = results.remove(0);
        proof {
            assert(result == all[k as int]);
            assert(all.subrange(0, k as int + 1) =~= all.subrange(0, k as int).push(result));
            all.subrange(0, k as int).lemma_filter_push(result, is_err);
            assert(results@ =~= all.subrange(k as int + 1, n as int));
        }
        match result {
            Ok(value) => {
                values.push(value);
            },
            Err(error) => {
                has_error = true;
                errors.push(error);
            },
        }
        proof {
            if !has_error {
                assert(all.subrange(0, k as int + 1).map_values(|result: Result<T, E>| result->Ok_0)
                    =~= all.subrange(0, k as int).map_values(|result: Result<T, E>| result->Ok_0).push(
                    all[k as int]->Ok_0,
                ));
            }
            assert(all.subrange(0, k as int + 1).filter(is_err).map_values(
                |result: Result<T, E>| result->Err_0,
            ) =~= if all[k as int] is Err {
                all.subrange(0, k as int).filter(is_err).map_values(
                    |result: Result<T, E>| result->Err_0,
                ).push(all[k as int]->Err_0)
            } else {
                all.subrange(0, k as int).filter(is_err).map_values(
                    |result: Result<T, E>| result->Err_0,
                )
            });
        }
        k = k + 1;
    }
    proof {
        assert(all.subrange(0, n as int) =~= all);
    }
    if has_error {
        Err(errors)
    } else {
        Ok(values)
    }
}

} // verus!
