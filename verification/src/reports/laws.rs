//! What holds of rendered reports.
use vstd::prelude::*;

use crate::reports::pretty::{
    attachment_lines, children_lines, context_lines, extra_lines, log_header, painted, report_lines,
    suggestion_lines, decimal, Config, Paint,
};
use crate::reports::layer::{span_frames, wrapped_in_spans};
use crate::reports::report::{Frame, Location, Metadata, ReportPayload};

verus! {

/// A report with no frames, no known location and no children renders as
/// its header line alone.
pub proof fn law_bare_report_is_one_line(
    config: Config,
    payload: ReportPayload,
    prefix: Seq<char>,
    next_prefix: Seq<char>,
)
    requires
        payload.frames@.len() == 0,
        payload.children@.len() == 0,
        payload.metadata.location == Location::Unknown,
    ensures
        report_lines(config, payload, prefix, next_prefix) == seq![
            prefix + log_header(config, payload.metadata.level) + " "@ + painted(
                payload.message@,
                Paint::Bold,
            ),
        ],
{
    let guide = config.guides.empty@;
    let sub = next_prefix + painted(guide, config.styles.guides);
    assert(suggestion_lines(config, payload.frames@, sub) =~= Seq::<Seq<char>>::empty());
    assert(context_lines(config, payload.frames@, sub) =~= Seq::<Seq<char>>::empty());
    assert(attachment_lines(config, payload.frames@, sub) =~= Seq::<Seq<char>>::empty());
    assert(extra_lines(config, payload.metadata, sub) =~= Seq::<Seq<char>>::empty());
    assert(children_lines(config, payload, next_prefix, 0) =~= Seq::<Seq<char>>::empty());
    assert(report_lines(config, payload, prefix, next_prefix) =~= seq![
        prefix + log_header(config, payload.metadata.level) + " "@ + painted(
            payload.message@,
            Paint::Bold,
        ),
    ]);
}

/// Each child of a report starts one line of the rendered tree right after
/// the lines of its earlier siblings: the children are rendered in order.
pub proof fn law_children_in_order(
    config: Config,
    parent: ReportPayload,
    prefix: Seq<char>,
    i: int,
)
    requires
        0 <= i < parent.children@.len(),
    ensures
        children_lines(config, parent, prefix, i) == report_lines(
            config,
            parent.children@[i],
            prefix + painted(
                if i == parent.children@.len() - 1 {
                    config.guides.last_branch@
                } else {
                    config.guides.branch@
                },
                config.styles.guides,
            ),
            prefix + painted(
                if i == parent.children@.len() - 1 {
                    config.guides.empty@
                } else {
                    config.guides.line@
                },
                config.styles.guides,
            ),
        ) + children_lines(config, parent, prefix, i + 1),
{
}

/// A report's location line names the place in full (an unknown place
/// gets no line): a file with its line
/// and column as `name:line:column`, with its line alone as `name:line`,
/// with neither as `name`, and a module by its name, each after the
/// location header.
pub proof fn law_location_line_names_the_place(config: Config, metadata: Metadata, prefix: Seq<char>)
    ensures
        ({
            let head = prefix + painted(config.headers.location@, config.styles.location) + " "@;
            let shown = |text: Seq<char>| seq![head + painted(text, config.styles.distracting)];
            match metadata.location {
                Location::File { name, line: Some(l), column: Some(c) } => extra_lines(config, metadata, prefix)
                    == shown(name@ + seq![':'] + decimal(l as nat) + seq![':'] + decimal(c as nat)),
                Location::File { name, line: Some(l), column: None } => extra_lines(config, metadata, prefix)
                    == shown(name@ + seq![':'] + decimal(l as nat)),
                Location::File { name, line: None, .. } => extra_lines(config, metadata, prefix) == shown(name@),
                Location::Module(name) => extra_lines(config, metadata, prefix) == shown(name@),
                Location::Unknown => extra_lines(config, metadata, prefix).len() == 0,
            }
        }),
{
    reveal_strlit(":");
    assert(":"@ =~= seq![':']);
    match metadata.location {
        Location::File { name, line: Some(l), column: Some(c) } => {
            assert(name@ + ":"@ + decimal(l as nat) + ":"@ + decimal(c as nat) =~= name@ + seq![':']
                + decimal(l as nat) + seq![':'] + decimal(c as nat));
        },
        Location::File { name, line: Some(l), column: None } => {
            assert(name@ + ":"@ + decimal(l as nat) =~= name@ + seq![':'] + decimal(l as nat));
        },
        _ => {},
    }
}

/// How many frames the spans of `scope` that have a report hold together.
pub open spec fn frame_total(scope: Seq<Option<ReportPayload>>) -> nat
    decreases scope.len(),
{
    if scope.len() == 0 {
        0
    } else {
        frame_total(scope.drop_last()) + match scope.last() {
            Some(span) => span.frames@.len(),
            None => 0,
        }
    }
}

/// The frames an event gets from its enclosing spans (below the span
/// filter) are every frame of every span that has a report, span by span in
/// the order given (innermost first): as many as those spans hold together,
/// and the frames of the span at `k` stand as one block, after those of the
/// spans before it.
pub proof fn law_event_gets_every_span_frame(scope: Seq<Option<ReportPayload>>, k: int)
    requires
        0 <= k < scope.len(),
    ensures
        span_frames(scope).len() == frame_total(scope),
        scope[k] matches Some(span) ==> span_frames(scope).subrange(
            frame_total(scope.take(k)) as int,
            (frame_total(scope.take(k)) + span.frames@.len()) as int,
        ) == span.frames@,
    decreases scope.len(),
{
    lemma_span_frames_len(scope);
    let n = scope.len() - 1;
    let init = scope.drop_last();
    if k < n {
        law_event_gets_every_span_frame(init, k);
        assert(init.take(k) =~= scope.take(k));
        assert(init[k] == scope[k]);
        match scope[k] {
            Some(span) => {
                let lo = frame_total(scope.take(k)) as int;
                let hi = lo + span.frames@.len();
                lemma_span_frames_len(init);
                lemma_total_prefix(init, k);
                assert(span_frames(scope).subrange(lo, hi) =~= span_frames(init).subrange(lo, hi));
            },
            None => {},
        }
    } else {
        assert(scope.take(k) =~= init);
        lemma_span_frames_len(init);
        match scope[k] {
            Some(span) => {
                assert(span_frames(scope).subrange(
                    frame_total(init) as int,
                    (frame_total(init) + span.frames@.len()) as int,
                ) =~= span.frames@);
            },
            None => {},
        }
    }
}

proof fn lemma_span_frames_len(scope: Seq<Option<ReportPayload>>)
    ensures
        span_frames(scope).len() == frame_total(scope),
    decreases scope.len(),
{
    if scope.len() > 0 {
        lemma_span_frames_len(scope.drop_last());
    }
}

/// The frames before the span at `k`, and that span's own, fit in all.
proof fn lemma_total_prefix(scope: Seq<Option<ReportPayload>>, k: int)
    requires
        0 <= k < scope.len(),
    ensures
        frame_total(scope.take(k)) + match scope[k] {
            Some(span) => span.frames@.len(),
            None => 0,
        } <= frame_total(scope),
    decreases scope.len(),
{
    if k < scope.len() - 1 {
        lemma_total_prefix(scope.drop_last(), k);
        assert(scope.drop_last().take(k) =~= scope.take(k));
    } else {
        assert(scope.take(k) =~= scope.drop_last());
    }
}

/// The number that a string of decimal digits spells.
pub open spec fn digits_value(digits: Seq<char>) -> int
    decreases digits.len(),
{
    if digits.len() == 0 {
        0
    } else {
        10 * digits_value(digits.drop_last()) + (digits.last() as int - '0' as int)
    }
}

/// The decimal text of a number (as a location's line and column are
/// written) is digits only, with no leading zero, and spells the number.
pub proof fn law_decimal_spells_the_number(n: nat)
    ensures
        decimal(n).len() >= 1,
        forall|i: int| 0 <= i < decimal(n).len() ==> '0' as int <= #[trigger] decimal(n)[i] as int <= '9' as int,
        n > 0 ==> decimal(n)[0] != '0',
        digits_value(decimal(n)) == n,
    decreases n,
{
    if n >= 10 {
        law_decimal_spells_the_number(n / 10);
        let d = n % 10;
        let rest = decimal(n / 10);
        assert(decimal(n) == rest + seq![crate::reports::pretty::digit_char(d)]);
        assert(decimal(n).drop_last() =~= rest);
        assert(decimal(n)[0] == rest[0]);
        assert(forall|i: int| 0 <= i < rest.len() ==> decimal(n)[i] == rest[i]);
        assert(decimal(n).last() == crate::reports::pretty::digit_char(d));
        assert(crate::reports::pretty::digit_char(d) as int - '0' as int == d);
        assert(digits_value(decimal(n)) == 10 * digits_value(rest) + d);
        assert(n == 10 * (n / 10) + d) by (nonlinear_arith)
            requires
                d == n % 10,
        ;
    } else {
        assert(decimal(n) == seq![crate::reports::pretty::digit_char(n)]);
        assert(decimal(n).drop_last() =~= Seq::<char>::empty());
        assert(crate::reports::pretty::digit_char(n) as int - '0' as int == n);
        assert(digits_value(Seq::<char>::empty()) == 0);
        assert(digits_value(decimal(n)) == 10 * digits_value(decimal(n).drop_last()) + (decimal(n).last() as int - '0' as int));
    }
}

/// A report with no frames and no children, created at a known place,
/// renders as its header line followed by its location line, under the
/// empty guide.
pub proof fn law_lone_report_shows_its_location(
    config: Config,
    payload: ReportPayload,
    prefix: Seq<char>,
    next_prefix: Seq<char>,
)
    requires
        payload.frames@.len() == 0,
        payload.children@.len() == 0,
        !(payload.metadata.location is Unknown),
    ensures
        ({
            let sub = next_prefix + painted(config.guides.empty@, config.styles.guides);
            let lines = report_lines(config, payload, prefix, next_prefix);
            &&& lines.len() == 2
            &&& lines[0] == prefix + log_header(config, payload.metadata.level) + " "@ + painted(
                payload.message@,
                Paint::Bold,
            )
            &&& seq![lines[1]] == extra_lines(config, payload.metadata, sub)
        }),
{
    let sub = next_prefix + painted(config.guides.empty@, config.styles.guides);
    assert(suggestion_lines(config, payload.frames@, sub) =~= Seq::<Seq<char>>::empty());
    assert(context_lines(config, payload.frames@, sub) =~= Seq::<Seq<char>>::empty());
    assert(attachment_lines(config, payload.frames@, sub) =~= Seq::<Seq<char>>::empty());
    assert(children_lines(config, payload, next_prefix, 0) =~= Seq::<Seq<char>>::empty());
    let lines = report_lines(config, payload, prefix, next_prefix);
    let extra = extra_lines(config, payload.metadata, sub);
    assert(extra.len() == 1);
    assert(lines[1] == extra[0]);
    assert(seq![lines[1]] =~= extra);
}

/// How many spans of `scope` have a report.
pub open spec fn reports_in(scope: Seq<Option<ReportPayload>>) -> nat
    decreases scope.len(),
{
    if scope.len() == 0 {
        0
    } else {
        reports_in(scope.drop_last()) + if scope.last() is Some {
            1nat
        } else {
            0nat
        }
    }
}

/// The report reached from `report` by stepping `n` times into the last
/// child.
pub open spec fn last_child_after(report: ReportPayload, n: nat) -> ReportPayload
    decreases n,
{
    if n == 0 {
        report
    } else {
        last_child_after(report.children@.last(), (n - 1) as nat)
    }
}

/// An event let through the span filter is nested into its spans: the
/// result is the report of the outermost span that has one, with the same
/// message, metadata and frames; stepping into the last child once per span
/// that has a report reaches the event itself.
pub proof fn law_event_nested_in_spans(result: ReportPayload, payload: ReportPayload, scope: Seq<Option<ReportPayload>>, k: int)
    requires
        wrapped_in_spans(result, payload, scope),
    ensures
        last_child_after(result, reports_in(scope)) == payload,
        0 <= k < scope.len() && scope[k] is Some && (forall|m: int| k < m < scope.len() ==> #[trigger] scope[m] is None)
            ==> result.message == scope[k]->Some_0.message && result.metadata == scope[k]->Some_0.metadata
            && result.frames == scope[k]->Some_0.frames,
        reports_in(scope) == 0 ==> result == payload,
    decreases scope.len(),
{
    if scope.len() > 0 {
        let init = scope.drop_last();
        match scope.last() {
            None => {
                law_event_nested_in_spans(result, payload, init, k);
                if 0 <= k < scope.len() && scope[k] is Some && (forall|m: int| k < m < scope.len() ==> #[trigger] scope[m] is None) {
                    assert(k != scope.len() - 1);
                    assert(init[k] == scope[k]);
                    assert forall|m: int| k < m < init.len() implies #[trigger] init[m] is None by {
                        assert(init[m] == scope[m]);
                    }
                }
            },
            Some(parent) => {
                let child = result.children@.last();
                law_event_nested_in_spans(child, payload, init, k);
                assert(reports_in(scope) == reports_in(init) + 1);
                if 0 <= k < scope.len() && scope[k] is Some && (forall|m: int| k < m < scope.len() ==> #[trigger] scope[m] is None) {
                    if k < scope.len() - 1 {
                        assert(scope[scope.len() - 1] is None);
                    }
                }
            },
        }
    }
}

} // verus!
