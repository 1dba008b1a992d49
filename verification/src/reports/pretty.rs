//! Pretty rendering for reports: a tree of lines with guides, headers and
//! colors.
use vstd::prelude::*;

use crate::reports::render::{joined, lines_view, Renderer};
use crate::reports::report::{Frame, Level, Location, Metadata, ReportPayload};
use owo_colors::OwoColorize;

verus! {

broadcast use vstd::seq_lib::group_seq_properties;

/// A terminal style: plain, bold, or a foreground color.
#[derive(Debug, Clone, Copy, PartialEq, Eq, Structural)]
pub enum Paint {
    Plain,
    Bold,
    Red,
    Yellow,
    Blue,
    Magenta,
    White,
    Green,
    Cyan,
    Purple,
}

/// The SGR code of a style that is not plain: `1` for bold, the
/// foreground color's code otherwise (purple is magenta's).
pub open spec fn paint_code(paint: Paint) -> Seq<char> {
    match paint {
        Paint::Plain => Seq::empty(),
        Paint::Bold => seq!['1'],
        Paint::Red => seq!['3', '1'],
        Paint::Green => seq!['3', '2'],
        Paint::Yellow => seq!['3', '3'],
        Paint::Blue => seq!['3', '4'],
        Paint::Magenta => seq!['3', '5'],
        Paint::Purple => seq!['3', '5'],
        Paint::Cyan => seq!['3', '6'],
        Paint::White => seq!['3', '7'],
    }
}

/// The text `owo_colors` writes for `text` in style `paint`: the text
/// alone when plain, else `ESC [ code m`, the text, then `ESC [ 0 m`.
pub open spec fn painted(text: Seq<char>, paint: Paint) -> Seq<char> {
    if paint is Plain {
        text
    } else {
        seq!['\x1b', '['] + paint_code(paint) + seq!['m'] + text + seq!['\x1b', '[', '0', 'm']
    }
}

/// Writes `text` in style `paint` through `owo_colors` (`Style::fmt_prefix`,
/// the text, `Style::fmt_suffix`).
#[verifier::external_body]
fn paint_text(text: &str, paint: Paint) -> (styled: String)
    ensures
        styled@ == painted(text@, paint),
{
    let style = match paint {
        Paint::Plain => owo_colors::Style::new(),
        Paint::Bold => owo_colors::Style::new().bold(),
        Paint::Red => owo_colors::Style::new().red(),
        Paint::Yellow => owo_colors::Style::new().yellow(),
        Paint::Blue => owo_colors::Style::new().blue(),
        Paint::Magenta => owo_colors::Style::new().magenta(),
        Paint::White => owo_colors::Style::new().white(),
        Paint::Green => owo_colors::Style::new().green(),
        Paint::Cyan => owo_colors::Style::new().cyan(),
        Paint::Purple => owo_colors::Style::new().purple(),
    };
    format!("{}", text.style(style))
}

/// The lines of `text`, as `str::lines` splits them: at each `\n`, with a
/// `\r` just before the `\n` dropped, and no empty last line after a final
/// `\n`.
pub open spec fn text_lines(text: Seq<char>) -> Seq<Seq<char>> {
    let pieces = newline_pieces(text);
    pieces.drop_last().map_values(|line: Seq<char>| strip_carriage_return(line)) + (if pieces.last().len()
        == 0 {
        Seq::<Seq<char>>::empty()
    } else {
        seq![pieces.last()]
    })
}

/// The pieces of `text` between its `\n`s: one more than there are `\n`s.
pub open spec fn newline_pieces(text: Seq<char>) -> Seq<Seq<char>>
    decreases text.len(),
{
    if text.len() == 0 {
        seq![Seq::<char>::empty()]
    } else {
        let pieces = newline_pieces(text.drop_last());
        if text.last() == '\n' {
            pieces.push(Seq::<char>::empty())
        } else {
            pieces.update(pieces.len() - 1, pieces.last().push(text.last()))
        }
    }
}

/// `line` without one trailing `\r`.
pub open spec fn strip_carriage_return(line: Seq<char>) -> Seq<char> {
    if line.len() > 0 && line.last() == '\r' {
        line.drop_last()
    } else {
        line
    }
}

/// Splits `text` into lines with `str::lines`.
#[verifier::external_body]
fn split_lines(text: &str) -> (lines: Vec<String>)
    ensures
        lines_view(lines@) == text_lines(text@),
{
    text.lines().map(|line| line.to_string()).collect()
}

/// The decimal digits of `n`.
pub open spec fn decimal(n: nat) -> Seq<char>
    decreases n,
{
    if n < 10 {
        seq![digit_char(n)]
    } else {
        decimal(n / 10) + seq![digit_char(n % 10)]
    }
}

/// The character of a decimal digit.
pub open spec fn digit_char(d: nat) -> char {
    if d == 0 {
        '0'
    } else if d == 1 {
        '1'
    } else if d == 2 {
        '2'
    } else if d == 3 {
        '3'
    } else if d == 4 {
        '4'
    } else if d == 5 {
        '5'
    } else if d == 6 {
        '6'
    } else if d == 7 {
        '7'
    } else if d == 8 {
        '8'
    } else {
        '9'
    }
}

fn digit_str(d: u32) -> (s: &'static str)
    requires
        d < 10,
    ensures
        s@ == seq![digit_char(d as nat)],
{
    proof {
        reveal_strlit("0");
        reveal_strlit("1");
        reveal_strlit("2");
        reveal_strlit("3");
        reveal_strlit("4");
        reveal_strlit("5");
        reveal_strlit("6");
        reveal_strlit("7");
        reveal_strlit("8");
        reveal_strlit("9");
    }
    if d == 0 {
        "0"
    } else if d == 1 {
        "1"
    } else if d == 2 {
        "2"
    } else if d == 3 {
        "3"
    } else if d == 4 {
        "4"
    } else if d == 5 {
        "5"
    } else if d == 6 {
        "6"
    } else if d == 7 {
        "7"
    } else if d == 8 {
        "8"
    } else {
        "9"
    }
}

/// Writes `n` in decimal.
fn write_decimal(n: u32) -> (s: String)
    ensures
        s@ == decimal(n as nat),
    decreases n,
{
    if n < 10 {
        String::from_str(digit_str(n))
    } else {
        let mut s = write_decimal(n / 10);
        s.append(digit_str(n % 10));
        s
    }
}

/// Writes `n` in decimal.
pub(crate) fn write_decimal_u64(n: u64) -> (s: String)
    ensures
        s@ == decimal(n as nat),
    decreases n,
{
    if n < 10 {
        String::from_str(digit_str(n as u32))
    } else {
        let mut s = write_decimal_u64(n / 10);
        s.append(digit_str((n % 10) as u32));
        s
    }
}

/// Styles for each log level.
#[derive(Debug, Clone, Copy)]
pub struct LogStyles {
    pub error: Paint,
    pub warn: Paint,
    pub info: Paint,
    pub debug: Paint,
    pub trace: Paint,
}

impl Default for LogStyles {
    fn default() -> (styles: Self)
        ensures
            styles == (LogStyles {
                error: Paint::Red,
                warn: Paint::Yellow,
                info: Paint::Blue,
                debug: Paint::Magenta,
                trace: Paint::White,
            }),
    {
        LogStyles {
            error: Paint::Red,
            warn: Paint::Yellow,
            info: Paint::Blue,
            debug: Paint::Magenta,
            trace: Paint::White,
        }
    }
}

/// Styles for each component.
#[derive(Debug, Clone, Copy)]
pub struct Styles {
    pub guides: Paint,
    pub context: Paint,
    pub suggestion: Paint,
    pub attachment: Paint,
    pub location: Paint,
    pub distracting: Paint,
    pub log: LogStyles,
}

impl Default for Styles {
    fn default() -> (styles: Self)
        ensures
            styles.guides == Paint::Plain,
            styles.suggestion == Paint::Green,
            styles.context == Paint::Cyan,
            styles.attachment == Paint::Yellow,
            styles.location == Paint::Purple,
            styles.distracting == Paint::Plain,
            styles.log == (LogStyles {
                error: Paint::Red,
                warn: Paint::Yellow,
                info: Paint::Blue,
                debug: Paint::Magenta,
                trace: Paint::White,
            }),
    {
        Styles {
            guides: Paint::Plain,
            suggestion: Paint::Green,
            context: Paint::Cyan,
            attachment: Paint::Yellow,
            location: Paint::Purple,
            distracting: Paint::Plain,
            log: LogStyles::default(),
        }
    }
}

/// Display characters for each guide.
#[derive(Debug, Clone, Copy)]
pub struct Guides {
    pub line: &'static str,
    pub empty: &'static str,
    pub branch: &'static str,
    pub last_branch: &'static str,
}

impl Default for Guides {
    fn default() -> (guides: Self)
        ensures
            guides.line@ == "│ "@,
            guides.empty@ == "  "@,
            guides.branch@ == "├─"@,
            guides.last_branch@ == "╰─"@,
    {
        Guides { line: "│ ", empty: "  ", branch: "├─", last_branch: "╰─" }
    }
}

/// Display characters for each log header.
#[derive(Debug, Clone, Copy)]
pub struct LogHeaders {
    pub error: &'static str,
    pub warn: &'static str,
    pub info: &'static str,
    pub debug: &'static str,
    pub trace: &'static str,
}

impl Default for LogHeaders {
    fn default() -> (headers: Self)
        ensures
            headers.error@ == "(error)"@,
            headers.warn@ == "(warn)"@,
            headers.info@ == "(info)"@,
            headers.debug@ == "(debug)"@,
            headers.trace@ == "(trace)"@,
    {
        LogHeaders {
            error: "(error)",
            warn: "(warn)",
            info: "(info)",
            debug: "(debug)",
            trace: "(trace)",
        }
    }
}

/// Display characters for each header.
#[derive(Debug, Clone, Copy)]
pub struct Headers {
    pub context: &'static str,
    pub suggestion: &'static str,
    pub attachment: &'static str,
    pub location: &'static str,
    pub log: LogHeaders,
}

impl Default for Headers {
    fn default() -> (headers: Self)
        ensures
            headers.context@ == "(context)"@,
            headers.suggestion@ == "(suggestion)"@,
            headers.attachment@ == "(attachment)"@,
            headers.location@ == "(location)"@,
            headers.log.error@ == "(error)"@,
            headers.log.warn@ == "(warn)"@,
            headers.log.info@ == "(info)"@,
            headers.log.debug@ == "(debug)"@,
            headers.log.trace@ == "(trace)"@,
    {
        Headers {
            context: "(context)",
            suggestion: "(suggestion)",
            attachment: "(attachment)",
            location: "(location)",
            log: LogHeaders::default(),
        }
    }
}

/// Configuration of a [`PrettyRenderer`].
#[derive(Debug, Clone, Copy)]
pub struct Config {
    pub guides: Guides,
    pub headers: Headers,
    pub styles: Styles,
}

impl Default for Config {
    fn default() -> (config: Self)
        ensures
            config.guides.line@ == "│ "@,
            config.guides.empty@ == "  "@,
            config.guides.branch@ == "├─"@,
            config.guides.last_branch@ == "╰─"@,
            config.headers.context@ == "(context)"@,
            config.headers.suggestion@ == "(suggestion)"@,
            config.headers.attachment@ == "(attachment)"@,
            config.headers.location@ == "(location)"@,
            config.headers.log.error@ == "(error)"@,
            config.headers.log.warn@ == "(warn)"@,
            config.headers.log.info@ == "(info)"@,
            config.headers.log.debug@ == "(debug)"@,
            config.headers.log.trace@ == "(trace)"@,
            config.styles.guides == Paint::Plain,
            config.styles.suggestion == Paint::Green,
            config.styles.context == Paint::Cyan,
            config.styles.attachment == Paint::Yellow,
            config.styles.location == Paint::Purple,
            config.styles.distracting == Paint::Plain,
            config.styles.log == (LogStyles {
                error: Paint::Red,
                warn: Paint::Yellow,
                info: Paint::Blue,
                debug: Paint::Magenta,
                trace: Paint::White,
            }),
    {
        Config { guides: Guides::default(), headers: Headers::default(), styles: Styles::default() }
    }
}

/// Pretty renderer for reports.
#[derive(Debug, Clone, Copy)]
pub struct PrettyRenderer {
    /// Configuration of this renderer.
    pub config: Config,
}

/// The styled header of a log level.
pub open spec fn log_header(config: Config, level: Level) -> Seq<char> {
    match level {
        Level::Error => painted(config.headers.log.error@, config.styles.log.error),
        Level::Warn => painted(config.headers.log.warn@, config.styles.log.warn),
        Level::Info => painted(config.headers.log.info@, config.styles.log.info),
        Level::Debug => painted(config.headers.log.debug@, config.styles.log.debug),
        Level::Trace => painted(config.headers.log.trace@, config.styles.log.trace),
    }
}

/// One line per suggestion frame, in order.
pub open spec fn suggestion_lines(config: Config, frames: Seq<Frame>, prefix: Seq<char>) -> Seq<
    Seq<char>,
>
    decreases frames.len(),
{
    if frames.len() == 0 {
        Seq::empty()
    } else {
        let rest = suggestion_lines(config, frames.drop_last(), prefix);
        match frames.last() {
            Frame::Suggestion(text) => rest.push(
                prefix + painted(config.headers.suggestion@, config.styles.suggestion) + " "@
                    + text@,
            ),
            _ => rest,
        }
    }
}

/// One line per context frame, in order.
pub open spec fn context_entries(config: Config, frames: Seq<Frame>, prefix: Seq<char>) -> Seq<
    Seq<char>,
>
    decreases frames.len(),
{
    if frames.len() == 0 {
        Seq::empty()
    } else {
        let rest = context_entries(config, frames.drop_last(), prefix);
        match frames.last() {
            Frame::Context { key, value } => rest.push(
                prefix + "  "@ + painted(key@ + ": "@ + value@, config.styles.distracting),
            ),
            _ => rest,
        }
    }
}

/// The context header, then one line per context frame; nothing if there
/// is no context frame.
pub open spec fn context_lines(config: Config, frames: Seq<Frame>, prefix: Seq<char>) -> Seq<
    Seq<char>,
> {
    if exists|i: int| 0 <= i < frames.len() && (#[trigger] frames[i]) is Context {
        seq![prefix + painted(config.headers.context@, config.styles.context)] + context_entries(
            config,
            frames,
            prefix,
        )
    } else {
        Seq::empty()
    }
}

/// The lines of one attachment: its header, then each of its lines.
pub open spec fn attachment_block(config: Config, text: Seq<char>, prefix: Seq<char>) -> Seq<
    Seq<char>,
> {
    seq![prefix + painted(config.headers.attachment@, config.styles.attachment)] + text_lines(
        text,
    ).map_values(|line: Seq<char>| prefix + "  "@ + painted(line, config.styles.distracting))
}

/// The blocks of each attachment frame, in order.
pub open spec fn attachment_lines(config: Config, frames: Seq<Frame>, prefix: Seq<char>) -> Seq<
    Seq<char>,
>
    decreases frames.len(),
{
    if frames.len() == 0 {
        Seq::empty()
    } else {
        let rest = attachment_lines(config, frames.drop_last(), prefix);
        match frames.last() {
            Frame::Attachment(text) => rest + attachment_block(config, text@, prefix),
            _ => rest,
        }
    }
}

/// Suggestions first, then context, then attachments.
pub open spec fn frame_lines(config: Config, frames: Seq<Frame>, prefix: Seq<char>) -> Seq<
    Seq<char>,
> {
    suggestion_lines(config, frames, prefix) + context_lines(config, frames, prefix)
        + attachment_lines(config, frames, prefix)
}

/// The text of a location: `name`, `name:line` or `name:line:column`.
pub open spec fn location_text(location: Location) -> Seq<char> {
    match location {
        Location::File { name, line, column } => match (line, column) {
            (Some(l), Some(c)) => name@ + ":"@ + decimal(l as nat) + ":"@ + decimal(c as nat),
            (Some(l), None) => name@ + ":"@ + decimal(l as nat),
            _ => name@,
        },
        Location::Module(name) => name@,
        Location::Unknown => Seq::empty(),
    }
}

/// The location line, unless the location is unknown.
pub open spec fn extra_lines(config: Config, metadata: Metadata, prefix: Seq<char>) -> Seq<
    Seq<char>,
> {
    match metadata.location {
        Location::Unknown => Seq::empty(),
        _ => seq![
            prefix + painted(config.headers.location@, config.styles.location) + " "@ + painted(
                location_text(metadata.location),
                config.styles.distracting,
            ),
        ],
    }
}

/// The lines of a report: its header line, its frames and location under
/// the guide of its children, then its children.
pub open spec fn report_lines(
    config: Config,
    payload: ReportPayload,
    prefix: Seq<char>,
    next_prefix: Seq<char>,
) -> Seq<Seq<char>>
    decreases payload, payload.children@.len() + 1,
{
    let guide = if payload.children@.len() == 0 {
        config.guides.empty@
    } else {
        config.guides.line@
    };
    let sub_prefix = next_prefix + painted(guide, config.styles.guides);
    seq![
        prefix + log_header(config, payload.metadata.level) + " "@ + painted(
            payload.message@,
            Paint::Bold,
        ),
    ] + frame_lines(config, payload.frames@, sub_prefix) + extra_lines(
        config,
        payload.metadata,
        sub_prefix,
    ) + children_lines(config, payload, next_prefix, 0)
}

/// The lines of the children of `parent` from the `i`-th on, each under a
/// branch guide (the last under the last-branch guide).
pub open spec fn children_lines(config: Config, parent: ReportPayload, prefix: Seq<char>, i: int) -> Seq<
    Seq<char>,
>
    decreases parent, parent.children@.len() - i,
{
    if i < 0 || i >= parent.children@.len() {
        Seq::empty()
    } else {
        let last = i == parent.children@.len() - 1;
        let branch = if last {
            config.guides.last_branch@
        } else {
            config.guides.branch@
        };
        let guide = if last {
            config.guides.empty@
        } else {
            config.guides.line@
        };
        proof {
            assert(decreases_to!(parent => parent.children));
            assert(decreases_to!(parent.children => parent.children@));
            assert(decreases_to!(parent.children@ => parent.children@[i]));
        }
        report_lines(
            config,
            parent.children@[i],
            prefix + painted(branch, config.styles.guides),
            prefix + painted(guide, config.styles.guides),
        ) + children_lines(config, parent, prefix, i + 1)
    }
}

/// Adds a line.
fn push_line(lines: &mut Vec<String>, line: String)
    ensures
        lines_view(final(lines)@) == lines_view(old(lines)@).push(line@),
{
    let ghost before = lines@;
    lines.push(line);
    proof {
        assert(lines_view(lines@) =~= lines_view(before).push(line@));
    }
}

/// `a` followed by `b`.
fn cat(a: &str, b: &str) -> (s: String)
    ensures
        s@ == a@ + b@,
{
    let mut s = String::from_str(a);
    s.append(b);
    s
}

proof fn lemma_no_context_no_entries(config: Config, frames: Seq<Frame>, prefix: Seq<char>)
    requires
        !exists|i: int| 0 <= i < frames.len() && (#[trigger] frames[i]) is Context,
    ensures
        context_entries(config, frames, prefix) == Seq::<Seq<char>>::empty(),
    decreases frames.len(),
{
    if frames.len() > 0 {
        let rest = frames.drop_last();
        assert forall|i: int| 0 <= i < rest.len() implies !((#[trigger] rest[i]) is Context) by {
            assert(rest[i] == frames[i]);
        }
        lemma_no_context_no_entries(config, rest, prefix);
        assert(frames.last() == frames[frames.len() - 1]);
    }
}

impl PrettyRenderer {
    /// A renderer with the default configuration.
    pub fn new() -> (renderer: Self)
        ensures
            renderer.config.guides.line@ == "│ "@,
            renderer.config.guides.empty@ == "  "@,
            renderer.config.guides.branch@ == "├─"@,
            renderer.config.guides.last_branch@ == "╰─"@,
            renderer.config.headers.context@ == "(context)"@,
            renderer.config.headers.suggestion@ == "(suggestion)"@,
            renderer.config.headers.attachment@ == "(attachment)"@,
            renderer.config.headers.location@ == "(location)"@,
            renderer.config.headers.log.error@ == "(error)"@,
            renderer.config.headers.log.warn@ == "(warn)"@,
            renderer.config.headers.log.info@ == "(info)"@,
            renderer.config.headers.log.debug@ == "(debug)"@,
            renderer.config.headers.log.trace@ == "(trace)"@,
            renderer.config.styles.guides == Paint::Plain,
            renderer.config.styles.suggestion == Paint::Green,
            renderer.config.styles.context == Paint::Cyan,
            renderer.config.styles.attachment == Paint::Yellow,
            renderer.config.styles.location == Paint::Purple,
            renderer.config.styles.distracting == Paint::Plain,
            renderer.config.styles.log == (LogStyles {
                error: Paint::Red,
                warn: Paint::Yellow,
                info: Paint::Blue,
                debug: Paint::Magenta,
                trace: Paint::White,
            }),
    {
        PrettyRenderer { config: Config::default() }
    }

    fn render_suggestions(&self, frames: &Vec<Frame>, prefix: &str, lines: &mut Vec<String>)
        ensures
            lines_view(final(lines)@) == lines_view(old(lines)@) + suggestion_lines(
                self.config,
                frames@,
                prefix@,
            ),
    {
        let ghost start = lines_view(lines@);
        let mut j: usize = 0;
        while j < frames.len()
            invariant
                j <= frames@.len(),
                lines_view(lines@) == start + suggestion_lines(
                    self.config,
                    frames@.take(j as int),
                    prefix@,
                ),
            decreases frames@.len() - j,
        {
            proof {
                assert(frames@.take(j as int + 1).drop_last() =~= frames@.take(j as int));
                assert(frames@.take(j as int + 1).last() == frames@[j as int]);
            }
            match &frames[j] {
                Frame::Suggestion(text) => {
                    let mut line = cat(
                        prefix,
                        paint_text(self.config.headers.suggestion, self.config.styles.suggestion).as_str(),
                    );
                    line.append(" ");
                    line.append(text.as_str());
                    push_line(lines, line);
                },
                _ => {},
            }
            proof {
                assert(lines_view(lines@) =~= start + suggestion_lines(
                    self.config,
                    frames@.take(j as int + 1),
                    prefix@,
                ));
            }
            j = j + 1;
        }
        proof {
            assert(frames@.take(j as int) =~= frames@);
        }
    }

    fn render_context(&self, frames: &Vec<Frame>, prefix: &str, lines: &mut Vec<String>)
        ensures
            lines_view(final(lines)@) == lines_view(old(lines)@) + context_lines(
                self.config,
                frames@,
                prefix@,
            ),
    {
        let ghost start = lines_view(lines@);
        let ghost header = prefix@ + painted(self.config.headers.context@, self.config.styles.context);
        let mut first = true;
        let mut j: usize = 0;
        while j < frames.len()
            invariant
                j <= frames@.len(),
                header == prefix@ + painted(self.config.headers.context@, self.config.styles.context),
                first <==> !exists|i: int|
                    0 <= i < j && (#[trigger] frames@.take(j as int)[i]) is Context,
                lines_view(lines@) == start + context_lines(
                    self.config,
                    frames@.take(j as int),
                    prefix@,
                ),
            decreases frames@.len() - j,
        {
            let ghost before = frames@.take(j as int);
            let ghost after = frames@.take(j as int + 1);
            proof {
                assert(after.drop_last() =~= before);
                assert(after.last() == frames@[j as int]);
                assert forall|i: int| 0 <= i < j implies #[trigger] after[i] == before[i] by {}
            }
            match &frames[j] {
                Frame::Context { key, value } => {
                    if first {
                        proof {
                            lemma_no_context_no_entries(self.config, before, prefix@);
                        }
                        let header_line = cat(
                            prefix,
                            paint_text(self.config.headers.context, self.config.styles.context).as_str(),
                        );
                        push_line(lines, header_line);
                        first = false;
                    }
                    let mut entry = cat(key.as_str(), ": ");
                    entry.append(value.as_str());
                    let mut line = cat(prefix, "  ");
                    line.append(paint_text(entry.as_str(), self.config.styles.distracting).as_str());
                    push_line(lines, line);
                    proof {
                        assert(after[j as int] is Context);
                        assert(lines_view(lines@) =~= start + context_lines(self.config, after, prefix@));
                    }
                },
                _ => {
                    proof {
                        if exists|i: int| 0 <= i < j + 1 && (#[trigger] after[i]) is Context {
                            let i = choose|i: int| 0 <= i < j + 1 && (#[trigger] after[i]) is Context;
                            assert(i < j);
                            assert(before[i] is Context);
                        }
                        if exists|i: int| 0 <= i < j && (#[trigger] before[i]) is Context {
                            let i = choose|i: int| 0 <= i < j && (#[trigger] before[i]) is Context;
                            assert(after[i] is Context);
                        }
                        assert(lines_view(lines@) =~= start + context_lines(self.config, after, prefix@));
                    }
                },
            }
            j = j + 1;
        }
        proof {
            assert(frames@.take(j as int) =~= frames@);
        }
    }

    fn render_attachments(&self, frames: &Vec<Frame>, prefix: &str, lines: &mut Vec<String>)
        ensures
            lines_view(final(lines)@) == lines_view(old(lines)@) + attachment_lines(
                self.config,
                frames@,
                prefix@,
            ),
    {
        let ghost start = lines_view(lines@);
        let mut j: usize = 0;
        while j < frames.len()
            invariant
                j <= frames@.len(),
                lines_view(lines@) == start + attachment_lines(
                    self.config,
                    frames@.take(j as int),
                    prefix@,
                ),
            decreases frames@.len() - j,
        {
            proof {
                assert(frames@.take(j as int + 1).drop_last() =~= frames@.take(j as int));
                assert(frames@.take(j as int + 1).last() == frames@[j as int]);
            }
            match &frames[j] {
                Frame::Attachment(text) => {
                    let ghost mid = lines_view(lines@);
                    let header = cat(
                        prefix,
                        paint_text(self.config.headers.attachment, self.config.styles.attachment).as_str(),
                    );
                    push_line(lines, header);
                    let text_lines_of = split_lines(text.as_str());
                    let ghost f = |line: Seq<char>| prefix@ + "  "@ + painted(line, self.config.styles.distracting);
                    let ghost all = lines_view(text_lines_of@);
                    let mut k: usize = 0;
                    while k < text_lines_of.len()
                        invariant
                            k <= text_lines_of@.len(),
                            all == lines_view(text_lines_of@),
                            f == (|line: Seq<char>| prefix@ + "  "@ + painted(line, self.config.styles.distracting)),
                            lines_view(lines@) == mid + seq![prefix@ + painted(
                                self.config.headers.attachment@,
                                self.config.styles.attachment,
                            )] + all.take(k as int).map_values(f),
                        decreases text_lines_of@.len() - k,
                    {
                        let mut line = cat(prefix, "  ");
                        line.append(
                            paint_text(text_lines_of[k].as_str(), self.config.styles.distracting).as_str(),
                        );
                        push_line(lines, line);
                        proof {
                            assert(all.take(k as int + 1).map_values(f) =~= all.take(k as int).map_values(
                                f,
                            ).push(f(all[k as int])));
                        }
                        k = k + 1;
                    }
                    proof {
                        assert(all.take(k as int) =~= all);
                        assert(lines_view(lines@) =~= start + attachment_lines(
                            self.config,
                            frames@.take(j as int + 1),
                            prefix@,
                        ));
                    }
                },
                _ => {},
            }
            j = j + 1;
        }
        proof {
            assert(frames@.take(j as int) =~= frames@);
        }
    }

    fn render_frames(&self, frames: &Vec<Frame>, prefix: &str, lines: &mut Vec<String>)
        ensures
            lines_view(final(lines)@) == lines_view(old(lines)@) + frame_lines(
                self.config,
                frames@,
                prefix@,
            ),
    {
        let ghost start = lines_view(lines@);
        self.render_suggestions(frames, prefix, lines);
        self.render_context(frames, prefix, lines);
        self.render_attachments(frames, prefix, lines);
        proof {
            assert(lines_view(lines@) =~= start + frame_lines(self.config, frames@, prefix@));
        }
    }

    fn render_extra(&self, metadata: &Metadata, prefix: &str, lines: &mut Vec<String>)
        ensures
            lines_view(final(lines)@) == lines_view(old(lines)@) + extra_lines(
                self.config,
                *metadata,
                prefix@,
            ),
    {
        let ghost start = lines_view(lines@);
        let text = match &metadata.location {
            Location::File { name, line, column } => {
                let mut text = String::from_str(name.as_str());
                match (line, column) {
                    (Some(l), Some(c)) => {
                        text.append(":");
                        text.append(write_decimal(*l).as_str());
                        text.append(":");
                        text.append(write_decimal(*c).as_str());
                    },
                    (Some(l), None) => {
                        text.append(":");
                        text.append(write_decimal(*l).as_str());
                    },
                    _ => {},
                }
                Some(text)
            },
            Location::Module(name) => Some(String::from_str(name.as_str())),
            Location::Unknown => None,
        };
        match text {
            Some(text) => {
                let mut line = cat(
                    prefix,
                    paint_text(self.config.headers.location, self.config.styles.location).as_str(),
                );
                line.append(" ");
                line.append(paint_text(text.as_str(), self.config.styles.distracting).as_str());
                push_line(lines, line);
                proof {
                    assert(text@ == location_text(metadata.location));
                    assert(lines_view(lines@) =~= start + extra_lines(self.config, *metadata, prefix@));
                }
            },
            None => {
                proof {
                    assert(lines_view(lines@) =~= start + extra_lines(self.config, *metadata, prefix@));
                }
            },
        }
    }

    fn render_report(
        &self,
        payload: &ReportPayload,
        prefix: &str,
        next_prefix: &str,
        lines: &mut Vec<String>,
    )
        ensures
            lines_view(final(lines)@) == lines_view(old(lines)@) + report_lines(
                self.config,
                *payload,
                prefix@,
                next_prefix@,
            ),
        decreases *payload, payload.children@.len() + 1,
    {
        let ghost start = lines_view(lines@);
        let header = match payload.metadata.level {
            Level::Error => paint_text(self.config.headers.log.error, self.config.styles.log.error),
            Level::Warn => paint_text(self.config.headers.log.warn, self.config.styles.log.warn),
            Level::Info => paint_text(self.config.headers.log.info, self.config.styles.log.info),
            Level::Debug => paint_text(self.config.headers.log.debug, self.config.styles.log.debug),
            Level::Trace => paint_text(self.config.headers.log.trace, self.config.styles.log.trace),
        };
        let mut line = cat(prefix, header.as_str());
        line.append(" ");
        line.append(paint_text(payload.message.as_str(), Paint::Bold).as_str());
        push_line(lines, line);
        let guide = if payload.children.len() == 0 {
            self.config.guides.empty
        } else {
            self.config.guides.line
        };
        let sub_prefix = cat(next_prefix, paint_text(guide, self.config.styles.guides).as_str());
        self.render_frames(&payload.frames, sub_prefix.as_str(), lines);
        self.render_extra(&payload.metadata, sub_prefix.as_str(), lines);
        self.render_children(payload, next_prefix, lines);
        proof {
            assert(lines_view(lines@) =~= start + report_lines(
                self.config,
                *payload,
                prefix@,
                next_prefix@,
            ));
        }
    }

    fn render_children(&self, payload: &ReportPayload, prefix: &str, lines: &mut Vec<String>)
        ensures
            lines_view(final(lines)@) == lines_view(old(lines)@) + children_lines(
                self.config,
                *payload,
                prefix@,
                0,
            ),
        decreases *payload, 0int,
    {
        let ghost start = lines_view(lines@);
        let len = payload.children.len();
        let mut i: usize = 0;
        while i < len
            invariant
                len == payload.children@.len(),
                i <= len,
                lines_view(lines@) + children_lines(self.config, *payload, prefix@, i as int) == start
                    + children_lines(self.config, *payload, prefix@, 0),
            decreases len - i,
        {
            let last = i == len - 1;
            let branch = if last {
                self.config.guides.last_branch
            } else {
                self.config.guides.branch
            };
            let guide = if last {
                self.config.guides.empty
            } else {
                self.config.guides.line
            };
            let next_prefix = cat(prefix, paint_text(branch, self.config.styles.guides).as_str());
            let next_next_prefix = cat(prefix, paint_text(guide, self.config.styles.guides).as_str());
            let ghost mid = lines_view(lines@);
            proof {
                assert(decreases_to!(*payload => payload.children));
                assert(decreases_to!(payload.children => payload.children@));
                assert(decreases_to!(payload.children@ => payload.children@[i as int]));
            }
            self.render_report(
                &payload.children[i],
                next_prefix.as_str(),
                next_next_prefix.as_str(),
                lines,
            );
            proof {
                assert(lines_view(lines@) + children_lines(self.config, *payload, prefix@, i + 1)
                    =~= mid + children_lines(self.config, *payload, prefix@, i as int));
            }
            i = i + 1;
        }
        proof {
            assert(lines_view(lines@) =~= lines_view(lines@) + children_lines(
                self.config,
                *payload,
                prefix@,
                i as int,
            ));
        }
    }
}

/// The text a [`PrettyRenderer`] writes for a report: its lines, joined.
pub open spec fn pretty_text(config: Config, payload: ReportPayload) -> Seq<char> {
    joined(report_lines(config, payload, ""@, ""@))
}

impl Renderer for PrettyRenderer {
    fn render(&self, payload: &ReportPayload) -> (text: String)
        ensures
            text@ == pretty_text(self.config, *payload),
    {
        let mut lines: Vec<String> = Vec::new();
        proof {
            assert(lines_view(lines@) =~= Seq::<Seq<char>>::empty());
        }
        self.render_report(payload, "", "", &mut lines);
        proof {
            assert(lines_view(lines@) =~= report_lines(self.config, *payload, ""@, ""@));
        }
        crate::reports::render::join_lines(&lines)
    }
}

} // verus!
