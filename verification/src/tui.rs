//! What the terminal views show: pane titles cut to their width, the plain line-by-line
//! rendering of events, and the dashboard's fixed texts. Drawing is done by the caller.
use vstd::prelude::*;

use crate::config::opt_view;
use crate::output::{sanitize, sanitize_line, AgentPaneState, AgentStatus, OutputEvent};
use crate::text::{cat, chars_of, decimal, decimal_spec, owned, push_char};

verus! {

/// `UnicodeWidthChar::width` of a character.
pub uninterp spec fn char_display_width(c: char) -> Option<usize>;

/// `UnicodeWidthStr::width` of a string.
pub uninterp spec fn str_display_width(s: Seq<char>) -> usize;

/// Calls `unicode_width::UnicodeWidthChar::width`.
#[verifier::external_body]
fn char_width(c: char) -> (r: Option<usize>)
    ensures
        r == char_display_width(c),
{
    unicode_width::UnicodeWidthChar::width(c)
}

/// Calls `unicode_width::UnicodeWidthStr::width`.
#[verifier::external_body]
fn str_width(s: &str) -> (r: usize)
    ensures
        r == str_display_width(s@),
{
    unicode_width::UnicodeWidthStr::width(s)
}

pub open spec fn width_of(c: char) -> int {
    match char_display_width(c) {
        Some(w) => w as int,
        None => 0,
    }
}

/// Where a line is cut: the first character whose width would reach `max` columns.
pub open spec fn cut_point(s: Seq<char>, i: int, width: int, max: int) -> Option<int>
    decreases s.len() - i,
{
    if i >= s.len() || i < 0 {
        None
    } else if width + width_of(s[i]) >= max {
        Some(i)
    } else {
        cut_point(s, i + 1, width + width_of(s[i]), max)
    }
}

/// A line fitted to `max` columns: empty when there is no room, whole when narrower,
/// otherwise cut with an ellipsis.
pub open spec fn truncated(line: Seq<char>, max: usize) -> Seq<char> {
    if max == 0 {
        Seq::empty()
    } else if str_display_width(line) < max {
        line
    } else {
        match cut_point(line, 0, 0, max as int) {
            Some(i) => line.take(i).push('…'),
            None => line,
        }
    }
}

pub fn truncate_for_width(line: &str, max_width: usize) -> (r: String)
    ensures
        r@ == truncated(line@, max_width),
{
    if max_width == 0 {
        return String::new();
    }
    if str_width(line) < max_width {
        return owned(line);
    }
    let v = chars_of(line);
    let mut width: usize = 0;
    let mut i: usize = 0;
    while i < v.len()
        invariant
            v@ == line@,
            i <= v@.len(),
            max_width > 0,
            str_display_width(line@) >= max_width,
            width < max_width,
            cut_point(v@, 0, 0, max_width as int) == cut_point(v@, i as int, width as int, max_width as int),
        decreases v.len() - i,
    {
        let w = match char_width(v[i]) {
            Some(w) => w,
            None => 0,
        };
        if w >= max_width - width {
            let mut r = crate::text::string_from_range(&v, 0, i);
            push_char(&mut r, '…');
            assert(r@ =~= v@.take(i as int).push('…'));
            return r;
        }
        width = width + w;
        i = i + 1;
    }
    owned(line)
}

pub open spec fn status_text(status: AgentStatus) -> Seq<char> {
    match status {
        AgentStatus::Running => "running"@,
        AgentStatus::Succeeded => "done"@,
        AgentStatus::Failed => "failed"@,
    }
}

pub fn status_label(status: AgentStatus) -> (r: &'static str)
    ensures
        r@ == status_text(status),
{
    match status {
        AgentStatus::Running => "running",
        AgentStatus::Succeeded => "done",
        AgentStatus::Failed => "failed",
    }
}

pub open spec fn title_text(pane: AgentPaneState) -> Seq<char> {
    " "@ + pane.id@ + " | "@ + pane.label@ + " | model: "@ + match opt_view(pane.model) {
        Some(m) => m,
        None => "n/a"@,
    } + " | "@ + status_text(pane.status) + " "@
}

/// The title of an agent's pane: id, label, model and status, fitted to the width.
pub fn pane_title(pane: &AgentPaneState, max_width: usize) -> (r: String)
    ensures
        r@ == truncated(title_text(*pane), max_width),
{
    let model: &str = match &pane.model {
        Some(m) => m.as_str(),
        None => "n/a",
    };
    let mut t = cat(" ", pane.id.as_str());
    t = cat(t.as_str(), " | ");
    t = cat(t.as_str(), pane.label.as_str());
    t = cat(t.as_str(), " | model: ");
    t = cat(t.as_str(), model);
    t = cat(t.as_str(), " | ");
    t = cat(t.as_str(), status_label(pane.status));
    t = cat(t.as_str(), " ");
    truncate_for_width(t.as_str(), max_width)
}

/// The name `Debug` gives a status.
pub open spec fn status_name(status: AgentStatus) -> Seq<char> {
    match status {
        AgentStatus::Running => "Running"@,
        AgentStatus::Succeeded => "Succeeded"@,
        AgentStatus::Failed => "Failed"@,
    }
}

/// What the plain renderer prints for an event, one entry per printed line; nothing for the
/// shutdown event, which ends the rendering.
pub open spec fn plain_text(e: OutputEvent) -> Option<Seq<Seq<char>>> {
    match e {
        OutputEvent::PhaseStarted { phase } => Some(seq!["\n== "@ + phase@ + " phase =="@]),
        OutputEvent::AgentStarted { id, label, phase, model } => Some(
            seq![
                "\n== "@ + id@ + " | "@ + label@ + " | "@ + phase@ + " | model: "@ + match opt_view(
                    model,
                ) {
                    Some(m) => m,
                    None => "n/a"@,
                } + " =="@,
            ],
        ),
        OutputEvent::Line { id, stream, line } => Some(seq![sanitize(line@)]),
        OutputEvent::AgentInput { id, glimpse } => Some(seq![id@ + " input: "@ + sanitize(glimpse@)]),
        OutputEvent::AgentFinished { id, status } => Some(
            seq!["== "@ + id@ + " | "@ + status_name(status) + " =="@],
        ),
        OutputEvent::IterationSummary { iteration, summary, next_step } => Some(
            seq![
                "\n== iteration "@ + decimal_spec(iteration as nat) + " summary =="@,
                sanitize(summary@),
                sanitize(next_step@),
            ],
        ),
        OutputEvent::Shutdown => None,
    }
}

fn one(s: String) -> (r: Vec<String>)
    ensures
        r.deep_view() == seq![s@],
{
    let mut r = Vec::new();
    r.push(s);
    assert(r.deep_view() =~= seq![s@]);
    r
}

pub fn plain_lines(event: &OutputEvent) -> (r: Option<Vec<String>>)
    ensures
        match plain_text(*event) {
            Some(t) => r matches Some(v) && v.deep_view() == t,
            None => r is None,
        },
{
    match event {
        OutputEvent::PhaseStarted { phase } => {
            let a = cat("\n== ", phase.as_str());
            Some(one(cat(a.as_str(), " phase ==")))
        },
        OutputEvent::AgentStarted { id, label, phase, model } => {
            let m: &str = match model {
                Some(m) => m.as_str(),
                None => "n/a",
            };
            let mut t = cat("\n== ", id.as_str());
            t = cat(t.as_str(), " | ");
            t = cat(t.as_str(), label.as_str());
            t = cat(t.as_str(), " | ");
            t = cat(t.as_str(), phase.as_str());
            t = cat(t.as_str(), " | model: ");
            t = cat(t.as_str(), m);
            t = cat(t.as_str(), " ==");
            Some(one(t))
        },
        OutputEvent::Line { id, stream, line } => Some(one(sanitize_line(line.as_str()))),
        OutputEvent::AgentInput { id, glimpse } => {
            let g = sanitize_line(glimpse.as_str());
            let a = cat(id.as_str(), " input: ");
            Some(one(cat(a.as_str(), g.as_str())))
        },
        OutputEvent::AgentFinished { id, status } => {
            let name: &str = match status {
                AgentStatus::Running => "Running",
                AgentStatus::Succeeded => "Succeeded",
                AgentStatus::Failed => "Failed",
            };
            let mut t = cat("== ", id.as_str());
            t = cat(t.as_str(), " | ");
            t = cat(t.as_str(), name);
            t = cat(t.as_str(), " ==");
            Some(one(t))
        },
        OutputEvent::IterationSummary { iteration, summary, next_step } => {
            let n = decimal(*iteration as u64);
            let a = cat("\n== iteration ", n.as_str());
            let mut r: Vec<String> = Vec::new();
            r.push(cat(a.as_str(), " summary =="));
            r.push(sanitize_line(summary.as_str()));
            r.push(sanitize_line(next_step.as_str()));
            assert(r.deep_view() =~= seq![
                "\n== iteration "@ + decimal_spec(*iteration as nat) + " summary =="@,
                sanitize(summary@),
                sanitize(next_step@),
            ]);
            Some(r)
        },
        OutputEvent::Shutdown => None,
    }
}

/// The footer of the dashboard.
pub fn footer_text(stop_requested: bool) -> (r: &'static str)
    ensures
        r@ == if stop_requested {
            "Stopping agents... running child processes are being terminated. Fallback: rerun with --plain if the TUI misbehaves."@
        } else {
            "Stop: press q, Esc, or Ctrl-C. Fallback: rerun with --plain for line-oriented output."@
        },
{
    if stop_requested {
        "Stopping agents... running child processes are being terminated. Fallback: rerun with --plain if the TUI misbehaves."
    } else {
        "Stop: press q, Esc, or Ctrl-C. Fallback: rerun with --plain for line-oriented output."
    }
}

/// What the dashboard shows while no pane is open.
pub fn waiting_message(active_phase: Option<&str>) -> (r: String)
    ensures
        r@ == match active_phase {
            Some(p) => "Starting "@ + p@ + " phase..."@,
            None => "Waiting for agents..."@,
        },
{
    match active_phase {
        Some(p) => {
            let a = cat("Starting ", p);
            cat(a.as_str(), " phase...")
        },
        None => owned("Waiting for agents..."),
    }
}

/// The large header needs sixteen rows; otherwise the compact one is used.
pub fn header_height(area_height: u16) -> (h: u16)
    ensures
        h == if area_height >= 16 {
            9u16
        } else {
            3u16
        },
{
    if area_height >= 16 {
        9
    } else {
        3
    }
}

} // verus!
