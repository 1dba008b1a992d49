//! Rendering of reports, and the plain renderers.
use vstd::prelude::*;

use crate::reports::report::ReportPayload;

verus! {

/// The texts of a list of lines.
pub open spec fn lines_view(lines: Seq<String>) -> Seq<Seq<char>> {
    lines.map_values(|line: String| line@)
}

/// Lines joined with `\n`, with no `\n` after the last.
pub open spec fn joined(lines: Seq<Seq<char>>) -> Seq<char>
    decreases lines.len(),
{
    if lines.len() == 0 {
        Seq::empty()
    } else if lines.len() == 1 {
        lines[0]
    } else {
        joined(lines.drop_last()) + "\n"@ + lines.last()
    }
}

/// Something that renders reports to text.
pub trait Renderer {
    /// Renders a report.
    fn render(&self, payload: &ReportPayload) -> String;
}

/// Renders a report as its message.
#[derive(Debug, Clone, Copy, Default)]
pub struct SimpleRenderer;

impl SimpleRenderer {
    /// A `SimpleRenderer`.
    pub fn new() -> (renderer: Self)
        ensures
            renderer == SimpleRenderer,
    {
        SimpleRenderer
    }
}

impl Renderer for SimpleRenderer {
    fn render(&self, payload: &ReportPayload) -> (text: String)
        ensures
            text@ == payload.message@,
    {
        payload.message.clone()
    }
}

/// [JSON](https://json.org/) renderer for reports.
#[derive(Debug, Clone, Copy, Default)]
pub struct JsonRenderer {
    /// Whether or not the output is pretty-printed.
    pub pretty: bool,
}

impl JsonRenderer {
    /// A renderer that writes compact JSON.
    pub fn new() -> (renderer: Self)
        ensures
            !renderer.pretty,
    {
        JsonRenderer { pretty: false }
    }
}

/// Joins lines with `\n`.
pub fn join_lines(lines: &Vec<String>) -> (text: String)
    ensures
        text@ == joined(lines_view(lines@)),
{
    let ghost view = lines_view(lines@);
    let mut text = String::new();
    let mut i: usize = 0;
    while i < lines.len()
        invariant
            view == lines_view(lines@),
            i <= lines@.len(),
            text@ == joined(view.take(i as int)),
        decreases lines@.len() - i,
    {
        proof {
            assert(view.take(i as int + 1).drop_last() =~= view.take(i as int));
            assert(view.take(i as int + 1).last() == lines@[i as int]@);
        }
        if i > 0 {
            text.append("\n");
        } else {
            proof {
                assert(view.take(1) =~= seq![lines@[0]@]);
            }
        }
        text.append(lines[i].as_str());
        i = i + 1;
    }
    proof {
        assert(view.take(i as int) =~= view);
    }
    text
}

} // verus!
