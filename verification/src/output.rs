//! The live view of a run: one pane per agent with its recent output lines, the active
//! phase, and the summary of the last iteration.
use vstd::prelude::*;

use crate::config::opt_view;
use crate::keyed::{
    keyed_lookup, keyed_slot, keyed_upsert, keys_sorted, lemma_keyed_slot, lemma_keyed_upsert,
    lemma_upsert_sorted,
};
use crate::text::{
    cat, chars_of, is_ascii_alphabetic, is_control, less_str, owned, push_char, seq_lt,
    spec_is_ascii_alphabetic, spec_is_control,
};

verus! {

pub const MAX_LINES_PER_AGENT: usize = 400;

#[derive(Debug, Clone, Copy, PartialEq, Eq, Structural)]
pub enum OutputStream {
    Stdout,
    Stderr,
}

#[derive(Debug, Clone, Copy, PartialEq, Eq, Structural)]
pub enum AgentStatus {
    Running,
    Succeeded,
    Failed,
}

#[derive(Clone, Debug)]
pub enum OutputEvent {
    PhaseStarted { phase: String },
    AgentStarted { id: String, label: String, phase: String, model: Option<String> },
    AgentInput { id: String, glimpse: String },
    Line { id: String, stream: OutputStream, line: String },
    AgentFinished { id: String, status: AgentStatus },
    IterationSummary { iteration: usize, summary: String, next_step: String },
    Shutdown,
}

// ---------------------------------------------------------------- sanitizing

/// The position after the first ASCII letter at or after `i`, or the length: the end of a
/// terminal escape sequence.
pub open spec fn csi_end(s: Seq<char>, i: int) -> int
    decreases s.len() - i,
{
    if i >= s.len() {
        s.len() as int
    } else if spec_is_ascii_alphabetic(s[i]) {
        i + 1
    } else {
        csi_end(s, i + 1)
    }
}

/// The end of an escape sequence searched from `i` is not before `i` nor past the text.
pub proof fn lemma_csi_end_after(s: Seq<char>, i: int)
    ensures
        csi_end(s, i) >= i || csi_end(s, i) == s.len(),
        csi_end(s, i) <= if i > s.len() { i } else { s.len() as int },
    decreases s.len() - i,
{
    if i < s.len() && !spec_is_ascii_alphabetic(s[i]) {
        lemma_csi_end_after(s, i + 1);
    }
}

/// `s` from `i` on with escape sequences (`ESC [` up to a letter) and control characters
/// removed and tabs turned into spaces.
pub open spec fn sanitize_from(s: Seq<char>, i: int) -> Seq<char>
    decreases s.len() - i,
{
    if i >= s.len() || i < 0 {
        Seq::empty()
    } else if s[i] == '\u{1b}' && i + 1 < s.len() && s[i + 1] == '[' {
        proof {
            lemma_csi_end_after(s, i + 2);
        }
        sanitize_from(s, csi_end(s, i + 2))
    } else if s[i] == '\t' {
        seq![' '] + sanitize_from(s, i + 1)
    } else if spec_is_control(s[i]) {
        sanitize_from(s, i + 1)
    } else {
        seq![s[i]] + sanitize_from(s, i + 1)
    }
}

pub open spec fn sanitize(s: Seq<char>) -> Seq<char> {
    sanitize_from(s, 0)
}

/// A line as shown in a pane: escape sequences and control characters dropped, tabs as
/// spaces.
pub fn sanitize_line(line: &str) -> (r: String)
    ensures
        r@ == sanitize(line@),
{
    let v = chars_of(line);
    let n = v.len();
    let mut out = String::new();
    let mut i: usize = 0;
    while i < n
        invariant
            v@ == line@,
            n == v@.len(),
            i <= n,
            out@ + sanitize_from(v@, i as int) == sanitize(v@),
        decreases n - i,
    {
        let c = v[i];
        let ghost o0 = out@;
        if c == '\u{1b}' && i + 1 < n && v[i + 1] == '[' {
            let mut j: usize = i + 2;
            while j < n && !is_ascii_alphabetic(v[j])
                invariant
                    v@ == line@,
                    n == v@.len(),
                    i + 2 <= j <= n,
                    csi_end(v@, i + 2) == csi_end(v@, j as int),
                decreases n - j,
            {
                j = j + 1;
            }
            i = if j < n {
                j + 1
            } else {
                n
            };
        } else if c == '\t' {
            push_char(&mut out, ' ');
            assert(o0 + (seq![' '] + sanitize_from(v@, i + 1)) =~= out@ + sanitize_from(
                v@,
                i + 1,
            ));
            i = i + 1;
        } else if is_control(c) {
            i = i + 1;
        } else {
            push_char(&mut out, c);
            assert(o0 + (seq![c] + sanitize_from(v@, i + 1)) =~= out@ + sanitize_from(
                v@,
                i + 1,
            ));
            i = i + 1;
        }
    }
    assert(out@ + sanitize_from(v@, n as int) =~= out@);
    out
}

// ---------------------------------------------------------------- panes

#[derive(Clone, Debug)]
pub struct AgentPaneState {
    pub id: String,
    pub label: String,
    pub phase: String,
    pub model: Option<String>,
    pub status: AgentStatus,
    pub lines: std::collections::VecDeque<String>,
}

/// A pane as its id, label, phase, model, status and lines.
pub type PaneView = (Seq<char>, Seq<char>, Seq<char>, Option<Seq<char>>, AgentStatus, Seq<Seq<char>>);

pub open spec fn lines_view(lines: Seq<String>) -> Seq<Seq<char>> {
    lines.map_values(|l: String| l@)
}

impl AgentPaneState {
    pub open spec fn view(self) -> PaneView {
        (self.id@, self.label@, self.phase@, opt_view(self.model), self.status, lines_view(self.lines@))
    }
}

pub open spec fn fresh_pane(id: Seq<char>, label: Seq<char>, phase: Seq<char>, model: Option<Seq<char>>) -> PaneView {
    (id, label, phase, model, AgentStatus::Running, Seq::empty())
}

/// The pane after a line: the oldest line goes when the pane is full.
pub open spec fn with_line(p: PaneView, line: Seq<char>) -> PaneView {
    let kept = if p.5.len() >= MAX_LINES_PER_AGENT {
        p.5.drop_first()
    } else {
        p.5
    };
    (p.0, p.1, p.2, p.3, p.4, kept.push(sanitize(line)))
}

pub open spec fn with_status(p: PaneView, status: AgentStatus) -> PaneView {
    (p.0, p.1, p.2, p.3, status, p.5)
}

pub open spec fn pane_key() -> spec_fn(PaneView) -> Seq<char> {
    |p: PaneView| p.0
}

/// The pane of `id`, or an empty one.
pub open spec fn pane_or_new(s: Seq<PaneView>, id: Seq<char>) -> PaneView {
    match keyed_lookup(s, pane_key(), id) {
        Some(p) => p,
        None => fresh_pane(id, Seq::empty(), Seq::empty(), None),
    }
}

#[derive(Clone, Debug)]
pub struct IterationSummaryState {
    pub iteration: usize,
    pub summary: String,
    pub next_step: String,
}

#[derive(Debug)]
pub struct OutputState {
    panes: Vec<AgentPaneState>,
    iteration_summary: Option<IterationSummaryState>,
    active_phase: Option<String>,
    stop_requested: bool,
}

pub open spec fn panes_view(v: Seq<AgentPaneState>) -> Seq<PaneView> {
    v.map_values(|p: AgentPaneState| p.view())
}

pub open spec fn summary_view(s: Option<IterationSummaryState>) -> Option<(usize, Seq<char>, Seq<char>)> {
    match s {
        Some(x) => Some((x.iteration, x.summary@, x.next_step@)),
        None => None,
    }
}

impl OutputState {
    pub closed spec fn pane_views(self) -> Seq<PaneView> {
        panes_view(self.panes@)
    }

    pub closed spec fn summary(self) -> Option<(usize, Seq<char>, Seq<char>)> {
        summary_view(self.iteration_summary)
    }

    pub closed spec fn phase(self) -> Option<Seq<char>> {
        opt_view(self.active_phase)
    }

    pub closed spec fn stopping(self) -> bool {
        self.stop_requested
    }
}

/// What an event does to the view.
pub open spec fn event_effect(old: OutputState, new: OutputState, e: OutputEvent, r: bool) -> bool {
    match e {
        OutputEvent::PhaseStarted { phase } => {
            &&& r
            &&& new.pane_views().len() == 0
            &&& new.summary() is None
            &&& new.phase() == Some(phase@)
        },
        OutputEvent::AgentStarted { id, label, phase, model } => {
            &&& r
            &&& new.pane_views() == keyed_upsert(
                old.pane_views(),
                pane_key(),
                fresh_pane(id@, label@, phase@, opt_view(model)),
            )
            &&& new.summary() is None
            &&& new.phase() == Some(phase@)
        },
        OutputEvent::AgentInput { id, glimpse } => {
            &&& r
            &&& new.pane_views() == keyed_upsert(
                old.pane_views(),
                pane_key(),
                with_line(pane_or_new(old.pane_views(), id@), "Input: "@ + glimpse@),
            )
            &&& new.summary() == old.summary()
            &&& new.phase() == old.phase()
        },
        OutputEvent::Line { id, stream, line } => {
            &&& r
            &&& new.pane_views() == keyed_upsert(
                old.pane_views(),
                pane_key(),
                with_line(pane_or_new(old.pane_views(), id@), line@),
            )
            &&& new.summary() == old.summary()
            &&& new.phase() == old.phase()
        },
        OutputEvent::AgentFinished { id, status } => {
            &&& r
            &&& new.pane_views() == keyed_upsert(
                old.pane_views(),
                pane_key(),
                with_status(pane_or_new(old.pane_views(), id@), status),
            )
            &&& new.summary() == old.summary()
            &&& new.phase() == old.phase()
        },
        OutputEvent::IterationSummary { iteration, summary, next_step } => {
            &&& r
            &&& new.pane_views().len() == 0
            &&& new.summary() == Some((iteration, sanitize(summary@), sanitize(next_step@)))
            &&& new.phase() is None
        },
        OutputEvent::Shutdown => !r && new.pane_views() == old.pane_views() && new.summary()
            == old.summary() && new.phase() == old.phase(),
    }
}

impl Default for OutputState {
    fn default() -> (s: Self)
        ensures
            s.pane_views().len() == 0,
            s.summary() is None,
            s.phase() is None,
            !s.stopping(),
    {
        OutputState {
            panes: Vec::new(),
            iteration_summary: None,
            active_phase: None,
            stop_requested: false,
        }
    }
}

fn new_pane(id: String, label: String, phase: String, model: Option<String>) -> (p: AgentPaneState)
    ensures
        p.view() == fresh_pane(id@, label@, phase@, opt_view(model)),
{
    let lines = std::collections::VecDeque::new();
    assert(lines_view(lines@) =~= Seq::<Seq<char>>::empty());
    AgentPaneState { id, label, phase, model, status: AgentStatus::Running, lines }
}

fn push_line(pane: &mut AgentPaneState, line: &str)
    ensures
        final(pane).view() == with_line(old(pane).view(), line@),
{
    let ghost l0 = lines_view(pane.lines@);
    if pane.lines.len() >= MAX_LINES_PER_AGENT {
        pane.lines.pop_front();
        assert(lines_view(pane.lines@) =~= l0.drop_first());
    }
    let ghost l1 = lines_view(pane.lines@);
    pane.lines.push_back(sanitize_line(line));
    assert(lines_view(pane.lines@) =~= l1.push(sanitize(line@)));
}

impl OutputState {
    fn slot_of(&self, id: &str) -> (r: usize)
        ensures
            r == keyed_slot(self.pane_views(), pane_key(), id@),
    {
        let ghost s = self.pane_views();
        let mut i: usize = 0;
        assert(s.skip(0) =~= s);
        while i < self.panes.len() && less_str(self.panes[i].id.as_str(), id)
            invariant
                s == self.pane_views(),
                i <= s.len(),
                keyed_slot(s, pane_key(), id@) == i + keyed_slot(s.skip(i as int), pane_key(), id@),
            decreases self.panes.len() - i,
        {
            assert(s.skip(i as int)[0] == s[i as int]);
            assert(s.skip(i as int).drop_first() =~= s.skip(i + 1));
            i = i + 1;
        }
        if i < self.panes.len() {
            assert(s.skip(i as int)[0] == s[i as int]);
        }
        i
    }

    /// Takes out the pane of `id`, or makes an empty one, and says where it goes back.
    fn take_pane(&mut self, id: &String) -> (r: (AgentPaneState, usize))
        ensures
            r.0.view() == pane_or_new(old(self).pane_views(), id@),
            r.1 == keyed_slot(old(self).pane_views(), pane_key(), id@),
            final(self).pane_views() == if keyed_lookup(old(self).pane_views(), pane_key(), id@) is Some {
                old(self).pane_views().remove(r.1 as int)
            } else {
                old(self).pane_views()
            },
            final(self).iteration_summary == old(self).iteration_summary,
            final(self).active_phase == old(self).active_phase,
            final(self).stop_requested == old(self).stop_requested,
    {
        let ghost s = self.pane_views();
        proof {
            lemma_keyed_slot(s, pane_key(), id@);
        }
        let pos = self.slot_of(id.as_str());
        if pos < self.panes.len() && crate::text::eq_str(self.panes[pos].id.as_str(), id.as_str()) {
            let pane = self.panes.remove(pos);
            assert(panes_view(self.panes@) =~= s.remove(pos as int));
            (pane, pos)
        } else {
            (new_pane(id.clone(), String::new(), String::new(), None), pos)
        }
    }

    /// Puts a pane back where its id belongs, replacing one with the same id.
    fn put_pane(&mut self, pane: AgentPaneState)
        ensures
            final(self).pane_views() == keyed_upsert(old(self).pane_views(), pane_key(), pane.view()),
            final(self).iteration_summary == old(self).iteration_summary,
            final(self).active_phase == old(self).active_phase,
            final(self).stop_requested == old(self).stop_requested,
    {
        let ghost s = self.pane_views();
        let ghost p = pane.view();
        proof {
            lemma_keyed_slot(s, pane_key(), p.0);
            lemma_keyed_upsert(s, pane_key(), p);
        }
        let pos = self.slot_of(pane.id.as_str());
        if pos < self.panes.len() && crate::text::eq_str(self.panes[pos].id.as_str(), pane.id.as_str()) {
            self.panes.set(pos, pane);
            assert(panes_view(self.panes@) =~= s.update(pos as int, p));
        } else {
            self.panes.insert(pos, pane);
            assert(panes_view(self.panes@) =~= s.insert(pos as int, p));
        }
    }

    /// Applies an event; `false` only for the shutdown event.
    pub fn apply(&mut self, event: OutputEvent) -> (r: bool)
        ensures
            event_effect(*old(self), *final(self), event, r),
            final(self).stopping() == old(self).stopping(),
    {
        let ghost s = self.pane_views();
        match event {
            OutputEvent::PhaseStarted { phase } => {
                self.panes = Vec::new();
                self.iteration_summary = None;
                self.active_phase = Some(phase);
                assert(self.pane_views().len() == 0);
                true
            },
            OutputEvent::AgentStarted { id, label, phase, model } => {
                self.iteration_summary = None;
                self.active_phase = Some(phase.clone());
                let pane = new_pane(id, label, phase, model);
                self.put_pane(pane);
                true
            },
            OutputEvent::Line { id, stream, line } => {
                proof {
                    lemma_keyed_slot(s, pane_key(), id@);
                }
                let (mut pane, pos) = self.take_pane(&id);
                push_line(&mut pane, line.as_str());
                self.restore_after_take(pane, pos, Ghost(s), Ghost(id@));
                true
            },
            OutputEvent::AgentInput { id, glimpse } => {
                proof {
                    lemma_keyed_slot(s, pane_key(), id@);
                }
                let (mut pane, pos) = self.take_pane(&id);
                let text = cat("Input: ", glimpse.as_str());
                push_line(&mut pane, text.as_str());
                self.restore_after_take(pane, pos, Ghost(s), Ghost(id@));
                true
            },
            OutputEvent::AgentFinished { id, status } => {
                proof {
                    lemma_keyed_slot(s, pane_key(), id@);
                }
                let (mut pane, pos) = self.take_pane(&id);
                pane.status = status;
                self.restore_after_take(pane, pos, Ghost(s), Ghost(id@));
                true
            },
            OutputEvent::IterationSummary { iteration, summary, next_step } => {
                self.panes = Vec::new();
                self.active_phase = None;
                self.iteration_summary = Some(
                    IterationSummaryState {
                        iteration,
                        summary: sanitize_line(summary.as_str()),
                        next_step: sanitize_line(next_step.as_str()),
                    },
                );
                assert(self.pane_views().len() == 0);
                true
            },
            OutputEvent::Shutdown => false,
        }
    }

    /// Puts back a pane taken out by `take_pane`, where it was or where its id belongs: the
    /// result is as if the pane had been updated in place.
    fn restore_after_take(
        &mut self,
        pane: AgentPaneState,
        pos: usize,
        before: Ghost<Seq<PaneView>>,
        id: Ghost<Seq<char>>,
    )
        requires
            pane.view().0 == id@,
            pos == keyed_slot(before@, pane_key(), id@),
            old(self).pane_views() == if keyed_lookup(before@, pane_key(), id@) is Some {
                before@.remove(pos as int)
            } else {
                before@
            },
        ensures
            final(self).pane_views() == keyed_upsert(before@, pane_key(), pane.view()),
            final(self).iteration_summary == old(self).iteration_summary,
            final(self).active_phase == old(self).active_phase,
            final(self).stop_requested == old(self).stop_requested,
    {
        let ghost s = before@;
        let ghost p = pane.view();
        proof {
            lemma_keyed_slot(s, pane_key(), id@);
            lemma_keyed_upsert(s, pane_key(), p);
        }
        let ghost t = self.pane_views();
        assert(self.panes@.len() == t.len());
        self.panes.insert(pos, pane);
        proof {
            let k = pos as int;
            assert(panes_view(self.panes@) =~= t.insert(k, p));
            if keyed_lookup(s, pane_key(), id@) is Some {
                assert(t =~= s.remove(k));
                assert(panes_view(self.panes@) =~= s.update(k, p));
            } else {
                assert(panes_view(self.panes@) =~= s.insert(k, p));
            }
        }
    }

    pub fn panes(&self) -> (r: &Vec<AgentPaneState>)
        ensures
            panes_view(r@) == self.pane_views(),
    {
        &self.panes
    }

    pub fn active_phase(&self) -> (r: Option<&str>)
        ensures
            match r {
                Some(p) => self.phase() == Some(p@),
                None => self.phase() is None,
            },
    {
        match &self.active_phase {
            Some(p) => Some(p.as_str()),
            None => None,
        }
    }

    pub fn iteration_summary(&self) -> (r: Option<&IterationSummaryState>)
        ensures
            summary_view(
                match r {
                    Some(x) => Some(*x),
                    None => None,
                },
            ) == self.summary(),
    {
        match &self.iteration_summary {
            Some(x) => Some(x),
            None => None,
        }
    }

    pub fn stop_requested(&self) -> (b: bool)
        ensures
            b == self.stopping(),
    {
        self.stop_requested
    }

    pub fn request_stop(&mut self)
        ensures
            final(self).stopping(),
            final(self).pane_views() == old(self).pane_views(),
            final(self).summary() == old(self).summary(),
            final(self).phase() == old(self).phase(),
    {
        self.stop_requested = true;
    }
}

/// Panes are kept one per id in the order of ids, none holding more than the line limit.
pub open spec fn panes_ok(v: Seq<PaneView>) -> bool {
    &&& keys_sorted(v, pane_key())
    &&& forall|i: int| 0 <= i < v.len() ==> (#[trigger] v[i]).5.len() <= MAX_LINES_PER_AGENT
}

proof fn lemma_upsert_keeps_panes_ok(s: Seq<PaneView>, p: PaneView)
    requires
        panes_ok(s),
        p.5.len() <= MAX_LINES_PER_AGENT,
    ensures
        panes_ok(keyed_upsert(s, pane_key(), p)),
{
    lemma_upsert_sorted(s, pane_key(), p);
    lemma_keyed_slot(s, pane_key(), p.0);
    lemma_keyed_upsert(s, pane_key(), p);
    let u = keyed_upsert(s, pane_key(), p);
    let m = keyed_slot(s, pane_key(), p.0);
    assert forall|i: int| 0 <= i < u.len() implies (#[trigger] u[i]).5.len() <= MAX_LINES_PER_AGENT by {
        if m < s.len() && s[m].0 == p.0 {
            if i != m {
                assert(u[i] == s[i]);
            }
        } else {
            if i < m {
                assert(u[i] == s[i]);
            } else if i > m {
                assert(u[i] == s[i - 1]);
            }
        }
    }
}

proof fn lemma_pane_or_new_ok(s: Seq<PaneView>, id: Seq<char>)
    requires
        panes_ok(s),
    ensures
        pane_or_new(s, id).5.len() <= MAX_LINES_PER_AGENT,
        pane_or_new(s, id).0 == id,
{
    lemma_keyed_slot(s, pane_key(), id);
}

/// Every event keeps the panes one per id, in the order of ids, each within the line limit.
pub proof fn lemma_events_keep_panes_ok(old: OutputState, new: OutputState, e: OutputEvent, r: bool)
    requires
        panes_ok(old.pane_views()),
        event_effect(old, new, e, r),
    ensures
        panes_ok(new.pane_views()),
{
    let s = old.pane_views();
    match e {
        OutputEvent::PhaseStarted { phase } => {},
        OutputEvent::AgentStarted { id, label, phase, model } => {
            lemma_upsert_keeps_panes_ok(s, fresh_pane(id@, label@, phase@, opt_view(model)));
        },
        OutputEvent::AgentInput { id, glimpse } => {
            lemma_pane_or_new_ok(s, id@);
            lemma_upsert_keeps_panes_ok(s, with_line(pane_or_new(s, id@), "Input: "@ + glimpse@));
        },
        OutputEvent::Line { id, stream, line } => {
            lemma_pane_or_new_ok(s, id@);
            lemma_upsert_keeps_panes_ok(s, with_line(pane_or_new(s, id@), line@));
        },
        OutputEvent::AgentFinished { id, status } => {
            lemma_pane_or_new_ok(s, id@);
            lemma_upsert_keeps_panes_ok(s, with_status(pane_or_new(s, id@), status));
        },
        OutputEvent::IterationSummary { iteration, summary, next_step } => {},
        OutputEvent::Shutdown => {},
    }
}

/// After a line for `id`, the pane of `id` ends with that line, sanitized.
pub proof fn lemma_line_lands_in_its_pane(old: OutputState, new: OutputState, id: String, stream: OutputStream, line: String, r: bool)
    requires
        panes_ok(old.pane_views()),
        event_effect(old, new, OutputEvent::Line { id, stream, line }, r),
    ensures
        keyed_lookup(new.pane_views(), pane_key(), id@) matches Some(p) && p.5.last() == sanitize(line@),
{
    let s = old.pane_views();
    lemma_pane_or_new_ok(s, id@);
    lemma_upsert_sorted(s, pane_key(), with_line(pane_or_new(s, id@), line@));
}

proof fn lemma_sanitize_from_clean(s: Seq<char>, i: int)
    ensures
        forall|k: int|
            0 <= k < sanitize_from(s, i).len() ==> !spec_is_control(#[trigger] sanitize_from(s, i)[k]),
    decreases s.len() - i,
{
    if i >= s.len() || i < 0 {
    } else if s[i] == '\u{1b}' && i + 1 < s.len() && s[i + 1] == '[' {
        lemma_csi_end_after(s, i + 2);
        lemma_sanitize_from_clean(s, csi_end(s, i + 2));
        assert(sanitize_from(s, i) == sanitize_from(s, csi_end(s, i + 2)));
    } else {
        lemma_sanitize_from_clean(s, i + 1);
        let rest = sanitize_from(s, i + 1);
        let out = sanitize_from(s, i);
        if s[i] == '\t' {
            assert forall|k: int| 0 <= k < out.len() implies !spec_is_control(#[trigger] out[k]) by {
                if k > 0 {
                    assert(out[k] == rest[k - 1]);
                }
            }
        } else if !spec_is_control(s[i]) {
            assert forall|k: int| 0 <= k < out.len() implies !spec_is_control(#[trigger] out[k]) by {
                if k > 0 {
                    assert(out[k] == rest[k - 1]);
                }
            }
        } else {
            assert(out == rest);
        }
    }
}

/// A sanitized line holds no control characters.
pub proof fn lemma_sanitized_lines_have_no_control_characters(line: Seq<char>)
    ensures
        forall|k: int| 0 <= k < sanitize(line).len() ==> !spec_is_control(#[trigger] sanitize(line)[k]),
{
    lemma_sanitize_from_clean(line, 0);
}

proof fn lemma_sanitize_from_identity(s: Seq<char>, i: int)
    requires
        0 <= i <= s.len(),
        forall|k: int| 0 <= k < s.len() ==> !spec_is_control(#[trigger] s[k]),
    ensures
        sanitize_from(s, i) == s.skip(i),
    decreases s.len() - i,
{
    if i < s.len() {
        assert(!spec_is_control(s[i]));
        assert(s[i] != '\u{1b}' && s[i] != '\t');
        lemma_sanitize_from_identity(s, i + 1);
        assert(seq![s[i]] + s.skip(i + 1) =~= s.skip(i));
    } else {
        assert(s.skip(i) =~= Seq::<char>::empty());
    }
}

/// Text without control characters is shown as it is.
pub proof fn lemma_sanitize_keeps_clean_text(line: Seq<char>)
    requires
        forall|k: int| 0 <= k < line.len() ==> !spec_is_control(#[trigger] line[k]),
    ensures
        sanitize(line) == line,
{
    lemma_sanitize_from_identity(line, 0);
    assert(line.skip(0) =~= line);
}

/// Sanitizing a sanitized line changes nothing.
pub proof fn lemma_sanitize_idempotent(line: Seq<char>)
    ensures
        sanitize(sanitize(line)) == sanitize(line),
{
    lemma_sanitized_lines_have_no_control_characters(line);
    lemma_sanitize_keeps_clean_text(sanitize(line));
}

/// In every state reached from the initial one by a run of events, the panes are one per id,
/// in the order of ids, each holding at most the line limit.
pub proof fn lemma_reached_states_keep_panes_ok(
    states: Seq<OutputState>,
    events: Seq<OutputEvent>,
    results: Seq<bool>,
)
    requires
        states.len() == events.len() + 1,
        results.len() == events.len(),
        states[0].pane_views().len() == 0,
        forall|i: int|
            0 <= i < events.len() ==> event_effect(
                states[i],
                #[trigger] states[i + 1],
                events[i],
                results[i],
            ),
    ensures
        forall|i: int| 0 <= i < states.len() ==> panes_ok(#[trigger] states[i].pane_views()),
    decreases events.len(),
{
    if events.len() == 0 {
        assert(panes_ok(states[0].pane_views()));
    } else {
        let n = events.len() - 1;
        lemma_reached_states_keep_panes_ok(states.drop_last(), events.drop_last(), results.drop_last());
        assert(panes_ok(states[n].pane_views())) by {
            assert(states.drop_last()[n] == states[n]);
        }
        assert(event_effect(states[n], states[n + 1], events[n], results[n]));
        lemma_events_keep_panes_ok(states[n], states[n + 1], events[n], results[n]);
        assert forall|i: int| 0 <= i < states.len() implies panes_ok(#[trigger] states[i].pane_views()) by {
            if i < states.len() - 1 {
                assert(states.drop_last()[i] == states[i]);
            }
        }
    }
}

} // verus!
