use xuehua::reports::layer::{enabled, metadata_to_payload, LevelFilter, RecordVisitor, ReportLayer, SiteMetadata};
use xuehua::reports::pretty::PrettyRenderer;
use xuehua::reports::render::{join_lines, JsonRenderer, Renderer, SimpleRenderer};
use xuehua::reports::report::{partition_results, Frame, Level, Location, Report, ReportPayload};

fn plain_payload(message: &str) -> ReportPayload {
    ReportPayload::new(message.to_string(), Location::Unknown)
}

#[test]
fn partition_all_ok() {
    let results: Vec<Result<u32, String>> = vec![Ok(1), Ok(2), Ok(3)];
    assert_eq!(partition_results(results), Ok(vec![1, 2, 3]));
}

#[test]
fn partition_collects_errors_in_order() {
    let results: Vec<Result<u32, &str>> = vec![Ok(1), Err("a"), Ok(2), Err("b")];
    assert_eq!(partition_results(results), Err(vec!["a", "b"]));
}

#[test]
fn partition_empty_is_ok() {
    let results: Vec<Result<u32, u32>> = vec![];
    assert_eq!(partition_results(results), Ok(vec![]));
}

#[test]
fn simple_renderer_writes_the_message() {
    let payload = plain_payload("disk full");
    assert_eq!(SimpleRenderer::new().render(&payload), "disk full");
}

#[test]
fn json_renderer_is_compact_by_default() {
    assert!(!JsonRenderer::new().pretty);
}

#[test]
fn report_builder_appends() {
    let child = Report::new("cause".to_string(), Location::Module("m".to_string()));
    let report = Report::new("top".to_string(), Location::Unknown)
        .with_level(Level::Warn)
        .with_frame(Frame::suggestion("retry"))
        .with_frames(vec![Frame::context("id", "7"), Frame::attachment("log")])
        .with_child(child);
    let payload = report.into_payload();
    assert_eq!(payload.metadata.level, Level::Warn);
    assert_eq!(payload.frames.len(), 3);
    assert_eq!(payload.children.len(), 1);
    assert_eq!(payload.children[0].message, "cause");
    assert_eq!(payload.metadata.type_label, "()");
}

#[test]
fn erasing_keeps_the_payload() {
    let report: Report<u8> = Report::from_payload(plain_payload("x"));
    let erased = report.erased();
    assert_eq!(erased.as_payload().message, "x");
}

#[test]
fn join_lines_has_no_trailing_newline() {
    assert_eq!(join_lines(&vec!["a".to_string(), "b".to_string()]), "a\nb");
    assert_eq!(join_lines(&vec![]), "");
}

#[test]
fn pretty_rendering_of_a_tree() {
    let mut payload = plain_payload("build failed");
    payload.frames.push(Frame::context("package", "hello"));
    payload.frames.push(Frame::suggestion("check the logs"));
    payload.frames.push(Frame::attachment("line one\nline two\n"));
    payload.metadata.location = Location::File { name: "plan.lua".to_string(), line: Some(12), column: Some(3) };
    let mut child = plain_payload("command exited");
    child.metadata.level = Level::Info;
    payload.children.push(child);
    let text = PrettyRenderer::new().render(&payload);
    // the headers are painted
    assert!(text.contains('\u{1b}'));
    let plain: String = strip_ansi(&text);
    let lines: Vec<&str> = plain.lines().collect();
    assert_eq!(lines[0], "(error) build failed");
    assert_eq!(lines[1], "│ (suggestion) check the logs");
    assert_eq!(lines[2], "│ (context)");
    assert_eq!(lines[3], "│   package: hello");
    assert_eq!(lines[4], "│ (attachment)");
    assert_eq!(lines[5], "│   line one");
    assert_eq!(lines[6], "│   line two");
    assert_eq!(lines[7], "│ (location) plan.lua:12:3");
    assert_eq!(lines[8], "╰─(info) command exited");
    assert_eq!(lines.len(), 9);
}

fn strip_ansi(text: &str) -> String {
    let mut out = String::new();
    let mut chars = text.chars().peekable();
    while let Some(c) = chars.next() {
        if c == '\u{1b}' {
            for d in chars.by_ref() {
                if d == 'm' {
                    break;
                }
            }
        } else {
            out.push(c);
        }
    }
    out
}

#[test]
fn levels_and_filters() {
    assert!(enabled(Level::Error, LevelFilter::Debug));
    assert!(enabled(Level::Debug, LevelFilter::Debug));
    assert!(!enabled(Level::Trace, LevelFilter::Debug));
    assert!(!enabled(Level::Error, LevelFilter::Off));
}

#[test]
fn visitor_records_fields() {
    let mut visitor = RecordVisitor::new();
    visitor.record_str("suggestion", "try again");
    visitor.record_debug("log.target", "ignored");
    visitor.record_debug("message", "hello");
    visitor.record_debug("attachment", "stderr");
    visitor.record_str("user", "bob");
    assert_eq!(visitor.message.as_deref(), Some("hello"));
    assert_eq!(visitor.frames.len(), 3);
    match &visitor.frames[2] {
        Frame::Context { key, value } => {
            assert_eq!(key, "user");
            assert_eq!(value, "\"bob\"");
        }
        other => panic!("unexpected frame {other:?}"),
    }
}

fn site(is_span: bool, file: Option<&str>) -> SiteMetadata {
    SiteMetadata {
        is_span,
        name: "span name".to_string(),
        level: Level::Info,
        file: file.map(|f| f.to_string()),
        line: Some(4),
        target: "my::module".to_string(),
        kind: "Event".to_string(),
    }
}

#[test]
fn event_without_message() {
    let payload = metadata_to_payload(site(false, None), RecordVisitor::new());
    assert_eq!(payload.message, "no message specified");
    match payload.metadata.location {
        Location::Module(m) => assert_eq!(m, "my::module"),
        _ => panic!("expected a module location"),
    }
}

#[test]
fn span_is_named_by_its_name() {
    let mut visitor = RecordVisitor::new();
    visitor.record_debug("message", "ignored for spans");
    let payload = metadata_to_payload(site(true, Some("a.rs")), visitor);
    assert_eq!(payload.message, "span name");
    match payload.metadata.location {
        Location::File { name, line, column } => {
            assert_eq!(name, "a.rs");
            assert_eq!(line, Some(4));
            assert_eq!(column, None);
        }
        _ => panic!("expected a file location"),
    }
}

#[test]
fn layer_nests_events_into_spans() {
    let layer = ReportLayer::new(SimpleRenderer, ()).render_spans(LevelFilter::Debug);
    let span = plain_payload("outer");
    let event = plain_payload("inner");
    let report = layer.assemble_event(event, Level::Info, vec![Some(span), None]);
    assert_eq!(report.message, "outer");
    assert_eq!(report.children.len(), 1);
    assert_eq!(report.children[0].message, "inner");
}

#[test]
fn layer_keeps_span_frames_below_the_filter() {
    let layer = ReportLayer::new(SimpleRenderer, ()).render_spans(LevelFilter::Warn);
    let mut span = plain_payload("outer");
    span.frames.push(Frame::context("k", "v"));
    let event = plain_payload("inner");
    let report = layer.assemble_event(event, Level::Info, vec![Some(span)]);
    assert_eq!(report.message, "inner");
    assert_eq!(report.frames.len(), 1);
}

#[test]
fn report_from_error_chains_its_sources() {
    let location = Location::Module("engine".to_string());
    let report = Report::from_error(
        vec!["build failed".to_string(), "fetch failed".to_string(), "timed out".to_string()],
        location,
    );
    let payload = report.as_payload();
    assert_eq!(payload.message, "build failed");
    assert_eq!(payload.children.len(), 1);
    let cause = &payload.children[0];
    assert_eq!(cause.message, "fetch failed");
    assert_eq!(cause.children.len(), 1);
    let root = &cause.children[0];
    assert_eq!(root.message, "timed out");
    assert!(root.children.is_empty());
    assert!(matches!(&root.metadata.location, Location::Module(name) if name == "engine"));
    assert_eq!(root.metadata.level, Level::Error);
}

#[test]
fn report_from_error_without_sources_has_no_children() {
    let report = Report::from_error(vec!["oops".to_string()], Location::Unknown);
    assert_eq!(report.as_payload().message, "oops");
    assert!(report.as_payload().children.is_empty());
}
