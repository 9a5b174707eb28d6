//! Running an execution plan: which command starts next, which are skipped, and what is
//! reported when a run stops. Commands are run by the caller, which reports each outcome
//! back to the state kept here.
use vstd::prelude::*;

use crate::config::opt_view;
use crate::executor::CommandExecutor;
use crate::keyed::{
    holds_key, keyed_remove, keyed_slot, keyed_upsert, keys_distinct, keys_sorted,
    lemma_filter_keys, lemma_filter_sorted, lemma_keyed_slot, lemma_keyed_upsert,
    lemma_remove_at_keys, lemma_remove_at_sorted, lemma_remove_keys, lemma_remove_sorted,
    lemma_sorted_distinct, lemma_upsert_keys, lemma_upsert_sorted,
};
use crate::model::{result_failed, CommandOutcome, CommandResult, CommandSpec, ExecutionPlan, RunSummary};
use crate::text::{eq_str, less_str, owned, seq_lt};

verus! {

/// A command result as its id, outcome, exit code, attempts, output and error.
pub type ResultView = (Seq<char>, CommandOutcome, Option<i32>, u32, Seq<char>, Seq<char>, Option<Seq<char>>);

pub open spec fn rview(r: CommandResult) -> ResultView {
    (r.id@, r.outcome, r.exit_code, r.attempts, r.stdout@, r.stderr@, opt_view(r.error))
}

pub open spec fn rviews(rs: Seq<CommandResult>) -> Seq<ResultView> {
    rs.map_values(|r: CommandResult| rview(r))
}

pub open spec fn skipped_view(id: Seq<char>, reason: Seq<char>) -> ResultView {
    (id, CommandOutcome::Skipped, None, 0, Seq::empty(), Seq::empty(), Some(reason))
}

pub open spec fn cancelled_view(id: Seq<char>) -> ResultView {
    (id, CommandOutcome::Cancelled, None, 0, Seq::empty(), Seq::empty(), Some(
        "cancelled after earlier failure"@,
    ))
}

pub open spec fn skipped_views(cs: Seq<CommandSpec>, reason: Seq<char>) -> Seq<ResultView> {
    cs.map_values(|c: CommandSpec| skipped_view(c.id@, reason))
}

pub open spec fn cancelled_views(ids: Seq<String>) -> Seq<ResultView> {
    ids.map_values(|i: String| cancelled_view(i@))
}

pub open spec fn command_key() -> spec_fn(CommandSpec) -> Seq<char> {
    |c: CommandSpec| c.id@
}

pub open spec fn string_key() -> spec_fn(String) -> Seq<char> {
    |s: String| s@
}

/// The commands waiting to run, one per id in the order of ids, a later command replacing
/// an earlier one with the same id.
pub open spec fn pending_of(cs: Seq<CommandSpec>) -> Seq<CommandSpec>
    decreases cs.len(),
{
    if cs.len() == 0 {
        Seq::empty()
    } else {
        keyed_upsert(pending_of(cs.drop_last()), command_key(), cs.last())
    }
}

/// The latest result of the command `id`.
pub open spec fn result_for(rs: Seq<CommandResult>, id: Seq<char>) -> Option<CommandResult>
    decreases rs.len(),
{
    if rs.len() == 0 {
        None
    } else if rs.last().id@ == id {
        Some(rs.last())
    } else {
        result_for(rs.drop_last(), id)
    }
}

/// Some dependency of `c` has failed or was skipped.
pub open spec fn dep_failed(rs: Seq<CommandResult>, c: CommandSpec) -> bool {
    exists|j: int|
        0 <= j < c.depends_on@.len() && (result_for(rs, (#[trigger] c.depends_on@[j])@) matches Some(r)
            && result_failed(r))
}

/// Every dependency of `c` has succeeded.
pub open spec fn deps_succeeded(rs: Seq<CommandResult>, c: CommandSpec) -> bool {
    forall|j: int|
        0 <= j < c.depends_on@.len() ==> (result_for(rs, (#[trigger] c.depends_on@[j])@) matches Some(
            r,
        ) && r.outcome == CommandOutcome::Success)
}

pub open spec fn first_ready_cmd(p: Seq<CommandSpec>, rs: Seq<CommandResult>, i: int) -> int
    decreases p.len() - i,
{
    if i >= p.len() || i < 0 {
        p.len() as int
    } else if deps_succeeded(rs, p[i]) {
        i
    } else {
        first_ready_cmd(p, rs, i + 1)
    }
}

pub open spec fn no_failed_dep(rs: Seq<CommandResult>) -> spec_fn(CommandSpec) -> bool {
    |c: CommandSpec| !dep_failed(rs, c)
}

pub open spec fn has_failed_dep(rs: Seq<CommandResult>) -> spec_fn(CommandSpec) -> bool {
    |c: CommandSpec| dep_failed(rs, c)
}

/// Runs execution plans with a command executor.
#[derive(Debug, Clone, Copy)]
pub struct Scheduler {
    pub executor: CommandExecutor,
}

impl Scheduler {
    pub fn new(executor: CommandExecutor) -> (s: Self)
        ensures
            s.executor == executor,
    {
        Scheduler { executor }
    }
}

/// The progress of a run.
pub struct RunState {
    pub pending: Vec<CommandSpec>,
    pub results: Vec<CommandResult>,
    pub ordered_results: Vec<CommandResult>,
    pub running_ids: Vec<String>,
    pub running: usize,
    pub stopping: bool,
    pub max_concurrency: usize,
    pub continue_on_error: bool,
    /// The ids of the plan's commands.
    pub planned: Ghost<Set<Seq<char>>>,
}

fn find_result(results: &Vec<CommandResult>, id: &str) -> (r: Option<usize>)
    ensures
        r matches Some(k) ==> k < results@.len() && result_for(results@, id@) == Some(
            results@[k as int],
        ),
        r is None ==> result_for(results@, id@) is None,
{
    let mut k: usize = results.len();
    assert(results@.take(k as int) =~= results@);
    while k > 0
        invariant
            k <= results@.len(),
            result_for(results@, id@) == result_for(results@.take(k as int), id@),
        decreases k,
    {
        let ghost t = results@.take(k as int);
        assert(t.drop_last() =~= results@.take(k - 1));
        assert(t.last() == results@[k - 1]);
        if eq_str(results[k - 1].id.as_str(), id) {
            return Some(k - 1);
        }
        k = k - 1;
    }
    None
}

fn has_failed_dependency(results: &Vec<CommandResult>, c: &CommandSpec) -> (b: bool)
    ensures
        b == dep_failed(results@, *c),
{
    let mut j: usize = 0;
    while j < c.depends_on.len()
        invariant
            j <= c.depends_on@.len(),
            forall|m: int|
                0 <= m < j ==> !(result_for(results@, (#[trigger] c.depends_on@[m])@) matches Some(r)
                    && result_failed(r)),
        decreases c.depends_on.len() - j,
    {
        match find_result(results, c.depends_on[j].as_str()) {
            Some(k) => {
                if results[k].failed() {
                    return true;
                }
            },
            None => {},
        }
        j = j + 1;
    }
    false
}

fn dependencies_succeeded(results: &Vec<CommandResult>, c: &CommandSpec) -> (b: bool)
    ensures
        b == deps_succeeded(results@, *c),
{
    let mut j: usize = 0;
    while j < c.depends_on.len()
        invariant
            j <= c.depends_on@.len(),
            forall|m: int|
                0 <= m < j ==> (result_for(results@, (#[trigger] c.depends_on@[m])@) matches Some(r)
                    && r.outcome == CommandOutcome::Success),
        decreases c.depends_on.len() - j,
    {
        match find_result(results, c.depends_on[j].as_str()) {
            Some(k) => {
                if !results[k].succeeded() {
                    return false;
                }
            },
            None => {
                return false;
            },
        }
        j = j + 1;
    }
    true
}

fn skipped_result(id: &String, reason: &str) -> (r: CommandResult)
    ensures
        rview(r) == skipped_view(id@, reason@),
{
    CommandResult::skipped(id.clone(), owned(reason))
}

impl RunState {
    /// Every command of the plan is reported at most once, and otherwise waits or runs.
    pub open spec fn accounts(self) -> bool {
        accounted(self.planned@, rviews(self.ordered_results@), self.pending@, self.running_ids@)
    }

    /// Pending commands and running ids are each kept one per id, in the order of ids.
    pub open spec fn wf(self) -> bool {
        &&& keys_sorted(self.pending@, command_key())
        &&& keys_sorted(self.running_ids@, string_key())
    }

    /// A run of the plan with nothing started.
    pub fn new(plan: ExecutionPlan) -> (st: Self)
        ensures
            st.wf(),
            st.pending@ == pending_of(plan.commands@),
            st.results@.len() == 0,
            st.ordered_results@.len() == 0,
            st.running_ids@.len() == 0,
            st.running == 0,
            !st.stopping,
            st.max_concurrency == plan.max_concurrency,
            st.continue_on_error == plan.continue_on_error,
            st.planned@ == planned_ids(plan.commands@),
            st.accounts(),
    {
        let ghost cs = plan.commands@;
        let n = plan.commands.len();
        let mut rest = plan.commands;
        let mut pending: Vec<CommandSpec> = Vec::new();
        let mut k: usize = 0;
        while k < n
            invariant
                n == cs.len(),
                k <= n,
                rest@ == cs.subrange(k as int, n as int),
                pending@ == pending_of(cs.take(k as int)),
                keys_sorted(pending@, command_key()),
            decreases n - k,
        {
            let c = rest.remove(0);
            assert(c == cs[k as int]);
            assert(rest@ =~= cs.subrange(k + 1, n as int));
            assert(cs.take(k + 1).drop_last() =~= cs.take(k as int));
            assert(cs.take(k + 1).last() == c);
            proof {
                lemma_upsert_sorted(pending@, command_key(), c);
            }
            upsert_command(&mut pending, c);
            k = k + 1;
        }
        assert(cs.take(n as int) =~= cs);
        proof {
            lemma_fresh_accounted(cs);
        }
        let st = RunState {
            pending,
            results: Vec::new(),
            ordered_results: Vec::new(),
            running_ids: Vec::new(),
            running: 0,
            stopping: false,
            max_concurrency: plan.max_concurrency,
            continue_on_error: plan.continue_on_error,
            planned: Ghost(planned_ids(cs)),
        };
        assert(rviews(st.ordered_results@) =~= Seq::<ResultView>::empty());
        assert(st.running_ids@ =~= Seq::<String>::empty());
        st
    }

    /// Pending commands with a failed or skipped dependency are skipped.
    pub fn skip_commands_with_failed_dependencies(&mut self)
        requires
            old(self).wf(),
        ensures
            final(self).wf(),
            final(self).pending@ == old(self).pending@.filter(no_failed_dep(old(self).results@)),
            rviews(final(self).ordered_results@) == rviews(old(self).ordered_results@)
                + skipped_views(
                old(self).pending@.filter(has_failed_dep(old(self).results@)),
                "dependency failed or was skipped"@,
            ),
            final(self).results == old(self).results,
            final(self).running_ids == old(self).running_ids,
            final(self).running == old(self).running,
            final(self).stopping == old(self).stopping,
            final(self).max_concurrency == old(self).max_concurrency,
            final(self).continue_on_error == old(self).continue_on_error,
            final(self).planned == old(self).planned,
            old(self).accounts() ==> final(self).accounts(),
    {
        let ghost p = self.pending@;
        let ghost rs = self.results@;
        let ghost o0 = rviews(self.ordered_results@);
        let ghost keep = no_failed_dep(rs);
        let ghost drop = has_failed_dep(rs);
        let n = self.pending.len();
        let mut rest: Vec<CommandSpec> = Vec::new();
        std::mem::swap(&mut rest, &mut self.pending);
        let mut kept: Vec<CommandSpec> = Vec::new();
        let mut i: usize = 0;
        while i < n
            invariant
                keep == no_failed_dep(rs),
                drop == has_failed_dep(rs),
                rs == self.results@,
                self.results == old(self).results,
                self.running_ids == old(self).running_ids,
                self.running == old(self).running,
                self.stopping == old(self).stopping,
                self.max_concurrency == old(self).max_concurrency,
                self.continue_on_error == old(self).continue_on_error,
                self.planned == old(self).planned,
                p == old(self).pending@,
                o0 == rviews(old(self).ordered_results@),
                n == p.len(),
                i <= n,
                rest@ == p.subrange(i as int, n as int),
                kept@ == p.take(i as int).filter(keep),
                rviews(self.ordered_results@) == o0 + skipped_views(
                    p.take(i as int).filter(drop),
                    "dependency failed or was skipped"@,
                ),
            decreases n - i,
        {
            let c = rest.remove(0);
            assert(c == p[i as int]);
            assert(rest@ =~= p.subrange(i + 1, n as int));
            assert(p.take(i + 1).drop_last() =~= p.take(i as int));
            assert(p.take(i + 1).last() == c);
            proof {
                reveal(Seq::filter);
            }
            let ghost before_drop = p.take(i as int).filter(drop);
            let ghost ov = rviews(self.ordered_results@);
            if has_failed_dependency(&self.results, &c) {
                let r = skipped_result(&c.id, "dependency failed or was skipped");
                self.ordered_results.push(r);
                proof {
                    assert(p.take(i + 1).filter(drop) == before_drop.push(c));
                    assert(p.take(i + 1).filter(keep) == p.take(i as int).filter(keep));
                    assert(rviews(self.ordered_results@) =~= ov.push(rview(r)));
                    assert(skipped_views(before_drop.push(c), "dependency failed or was skipped"@)
                        =~= skipped_views(before_drop, "dependency failed or was skipped"@).push(
                        skipped_view(c.id@, "dependency failed or was skipped"@),
                    ));
                }
            } else {
                kept.push(c);
                proof {
                    assert(p.take(i + 1).filter(drop) == before_drop);
                }
            }
            i = i + 1;
        }
        assert(p.take(n as int) =~= p);
        proof {
            lemma_filter_sorted(p, command_key(), keep);
        }
        self.pending = kept;
        proof {
            if old(self).accounts() {
                lemma_skip_accounted(
                    old(self).planned@,
                    rviews(old(self).ordered_results@),
                    p,
                    old(self).running_ids@,
                    rs,
                    "dependency failed or was skipped"@,
                );
            }
        }
    }

    pub open spec fn first_ready(self) -> int {
        first_ready_cmd(self.pending@, self.results@, 0)
    }

    /// Starts the first pending command, in id order, whose dependencies all succeeded, when
    /// fewer than `max_concurrency` commands run.
    pub fn start_next(&mut self) -> (r: Option<CommandSpec>)
        requires
            old(self).wf(),
            old(self).running < usize::MAX,
        ensures
            final(self).wf(),
            r matches Some(c) ==> old(self).running < old(self).max_concurrency && deps_succeeded(
                old(self).results@,
                c,
            ),
            (old(self).running >= old(self).max_concurrency || old(self).first_ready() >= old(
                self,
            ).pending@.len()) ==> (r is None && *final(self) == *old(self)),
            (old(self).running < old(self).max_concurrency && old(self).first_ready() < old(
                self,
            ).pending@.len()) ==> (r == Some(old(self).pending@[old(self).first_ready()])
                && final(self).pending@ == old(self).pending@.remove(old(self).first_ready())
                && final(self).running_ids@ == keyed_upsert(
                old(self).running_ids@,
                string_key(),
                r->0.id,
            ) && final(self).running == old(self).running + 1 && final(self).results
                == old(self).results && final(self).ordered_results == old(self).ordered_results
                && final(self).stopping == old(self).stopping && final(self).max_concurrency
                == old(self).max_concurrency && final(self).continue_on_error == old(
                self,
            ).continue_on_error),
            final(self).planned == old(self).planned,
            old(self).accounts() ==> final(self).accounts(),
    {
        if self.running >= self.max_concurrency {
            return None;
        }
        let mut i: usize = 0;
        while i < self.pending.len()
            invariant
                *self == *old(self),
                self.wf(),
                self.running < self.max_concurrency,
                self.running < usize::MAX,
                i <= self.pending@.len(),
                self.first_ready() == first_ready_cmd(self.pending@, self.results@, i as int),
            decreases self.pending.len() - i,
        {
            if dependencies_succeeded(&self.results, &self.pending[i]) {
                proof {
                    lemma_remove_at_sorted(self.pending@, command_key(), i as int);
                    lemma_upsert_sorted(self.running_ids@, string_key(), self.pending@[i as int].id);
                }
                let c = self.pending.remove(i);
                let mut ids: Vec<String> = Vec::new();
                std::mem::swap(&mut ids, &mut self.running_ids);
                upsert_string(&mut ids, c.id.clone());
                self.running_ids = ids;
                self.running = self.running + 1;
                proof {
                    if old(self).accounts() {
                        lemma_start_accounted(
                            old(self).planned@,
                            rviews(old(self).ordered_results@),
                            old(self).pending@,
                            old(self).running_ids@,
                            i as int,
                        );
                    }
                }
                return Some(c);
            }
            i = i + 1;
        }
        None
    }

    /// Records the outcome of a command; a failure stops the run unless the plan continues
    /// on errors.
    pub fn finish(&mut self, id: String, result: CommandResult)
        requires
            old(self).wf(),
            old(self).running > 0,
        ensures
            final(self).wf(),
            final(self).running_ids@ == keyed_remove(old(self).running_ids@, string_key(), id@),
            final(self).running == old(self).running - 1,
            final(self).stopping == (old(self).stopping || (result_failed(result)
                && !old(self).continue_on_error)),
            final(self).results@ == old(self).results@.push(result),
            final(self).ordered_results@ == old(self).ordered_results@.push(result),
            final(self).pending == old(self).pending,
            final(self).max_concurrency == old(self).max_concurrency,
            final(self).continue_on_error == old(self).continue_on_error,
            final(self).planned == old(self).planned,
            old(self).accounts() && result.id@ == id@ && holds_key(
                old(self).running_ids@,
                string_key(),
                id@,
            ) ==> final(self).accounts(),
    {
        let mut ids: Vec<String> = Vec::new();
        proof {
            lemma_remove_sorted(self.running_ids@, string_key(), id@);
        }
        std::mem::swap(&mut ids, &mut self.running_ids);
        remove_string(&mut ids, id.as_str());
        self.running_ids = ids;
        self.running = self.running - 1;
        if result.failed() && !self.continue_on_error {
            self.stopping = true;
        }
        let copy = result.clone();
        self.results.push(copy);
        let ghost rv = rview(result);
        let ghost rid = result.id@;
        self.ordered_results.push(result);
        proof {
            assert(rviews(self.ordered_results@) =~= rviews(old(self).ordered_results@).push(rv));
            if old(self).accounts() && rid == id@ && holds_key(old(self).running_ids@, string_key(), id@) {
                lemma_finish_accounted(
                    old(self).planned@,
                    rviews(old(self).ordered_results@),
                    old(self).pending@,
                    old(self).running_ids@,
                    id@,
                    rv,
                );
            }
        }
    }

    /// A command task ended without reporting; the run stops unless it continues on errors.
    pub fn task_lost(&mut self)
        requires
            old(self).running > 0,
        ensures
            final(self).running == old(self).running - 1,
            final(self).stopping == (old(self).stopping || !old(self).continue_on_error),
            final(self).planned == old(self).planned,
            old(self).accounts() ==> final(self).accounts(),
            final(self).pending == old(self).pending,
            final(self).results == old(self).results,
            final(self).ordered_results == old(self).ordered_results,
            final(self).running_ids == old(self).running_ids,
            final(self).max_concurrency == old(self).max_concurrency,
            final(self).continue_on_error == old(self).continue_on_error,
    {
        self.running = self.running - 1;
        if !self.continue_on_error {
            self.stopping = true;
        }
    }

    /// Stops the run: pending commands are skipped and running ones cancelled, in id order.
    pub fn stop(&mut self)
        ensures
            final(self).pending@.len() == 0,
            rviews(final(self).ordered_results@) == rviews(old(self).ordered_results@)
                + skipped_views(old(self).pending@, "not started after earlier failure"@)
                + cancelled_views(old(self).running_ids@),
            final(self).running_ids == old(self).running_ids,
            final(self).results == old(self).results,
            final(self).running == old(self).running,
            final(self).stopping == old(self).stopping,
            final(self).planned == old(self).planned,
            old(self).accounts() && old(self).wf() ==> resolved(
                old(self).planned@,
                rviews(final(self).ordered_results@),
            ),
    {
        self.skip_all("not started after earlier failure");
        let ghost o1 = rviews(self.ordered_results@);
        let mut i: usize = 0;
        while i < self.running_ids.len()
            invariant
                self.pending@.len() == 0,
                o1 == rviews(old(self).ordered_results@) + skipped_views(
                    old(self).pending@,
                    "not started after earlier failure"@,
                ),
                self.running_ids == old(self).running_ids,
                self.results == old(self).results,
                self.running == old(self).running,
                self.stopping == old(self).stopping,
                self.planned == old(self).planned,
                i <= self.running_ids@.len(),
                rviews(self.ordered_results@) == o1 + cancelled_views(self.running_ids@.take(i as int)),
            decreases self.running_ids.len() - i,
        {
            let ghost ov = rviews(self.ordered_results@);
            let r = CommandResult::cancelled(self.running_ids[i].clone());
            assert(r.stdout@ =~= Seq::<char>::empty());
            assert(r.stderr@ =~= Seq::<char>::empty());
            assert(rview(r) == cancelled_view(self.running_ids@[i as int]@));
            self.ordered_results.push(r);
            assert(rviews(self.ordered_results@) =~= ov.push(rview(r)));
            assert(cancelled_views(self.running_ids@.take(i + 1)) =~= cancelled_views(
                self.running_ids@.take(i as int),
            ).push(cancelled_view(self.running_ids@[i as int]@)));
            i = i + 1;
        }
        assert(self.running_ids@.take(self.running_ids@.len() as int) =~= self.running_ids@);
        proof {
            if old(self).accounts() && old(self).wf() {
                lemma_stop_resolved(
                    old(self).planned@,
                    rviews(old(self).ordered_results@),
                    old(self).pending@,
                    old(self).running_ids@,
                    "not started after earlier failure"@,
                );
            }
        }
    }

    /// When nothing runs: the commands still pending could never start and are skipped.
    pub fn settle_idle(&mut self)
        ensures
            final(self).pending@.len() == 0,
            rviews(final(self).ordered_results@) == rviews(old(self).ordered_results@)
                + skipped_views(old(self).pending@, "dependencies did not complete successfully"@),
            final(self).running_ids == old(self).running_ids,
            final(self).results == old(self).results,
            final(self).running == old(self).running,
            final(self).stopping == old(self).stopping,
            final(self).planned == old(self).planned,
            old(self).accounts() && old(self).wf() && old(self).running_ids@.len() == 0 ==> resolved(
                old(self).planned@,
                rviews(final(self).ordered_results@),
            ),
    {
        self.skip_all("dependencies did not complete successfully");
        proof {
            if old(self).accounts() && old(self).wf() && old(self).running_ids@.len() == 0 {
                let done = rviews(old(self).ordered_results@);
                let sv = skipped_views(old(self).pending@, "dependencies did not complete successfully"@);
                lemma_stop_resolved(
                    old(self).planned@,
                    done,
                    old(self).pending@,
                    old(self).running_ids@,
                    "dependencies did not complete successfully"@,
                );
                assert(cancelled_views(old(self).running_ids@) =~= Seq::<ResultView>::empty());
                assert(done + sv + cancelled_views(old(self).running_ids@) =~= done + sv);
            }
        }
    }

    fn skip_all(&mut self, reason: &str)
        ensures
            final(self).pending@.len() == 0,
            rviews(final(self).ordered_results@) == rviews(old(self).ordered_results@)
                + skipped_views(old(self).pending@, reason@),
            final(self).running_ids == old(self).running_ids,
            final(self).results == old(self).results,
            final(self).running == old(self).running,
            final(self).stopping == old(self).stopping,
            final(self).planned == old(self).planned,
    {
        let ghost o0 = rviews(self.ordered_results@);
        let mut i: usize = 0;
        while i < self.pending.len()
            invariant
                o0 == rviews(old(self).ordered_results@),
                self.pending == old(self).pending,
                self.running_ids == old(self).running_ids,
                self.results == old(self).results,
                self.running == old(self).running,
                self.stopping == old(self).stopping,
                self.planned == old(self).planned,
                i <= self.pending@.len(),
                rviews(self.ordered_results@) == o0 + skipped_views(self.pending@.take(i as int), reason@),
            decreases self.pending.len() - i,
        {
            let ghost ov = rviews(self.ordered_results@);
            let r = skipped_result(&self.pending[i].id, reason);
            self.ordered_results.push(r);
            assert(rviews(self.ordered_results@) =~= ov.push(rview(r)));
            assert(skipped_views(self.pending@.take(i + 1), reason@) =~= skipped_views(
                self.pending@.take(i as int),
                reason@,
            ).push(skipped_view(self.pending@[i as int].id@, reason@)));
            i = i + 1;
        }
        assert(self.pending@.take(self.pending@.len() as int) =~= self.pending@);
        self.pending = Vec::new();
    }

    /// The results in the order they were recorded.
    pub fn into_summary(self) -> (s: RunSummary)
        ensures
            s.results == self.ordered_results,
    {
        RunSummary { results: self.ordered_results }
    }
}

fn upsert_command(v: &mut Vec<CommandSpec>, c: CommandSpec)
    ensures
        final(v)@ == keyed_upsert(old(v)@, command_key(), c),
{
    let ghost s = v@;
    proof {
        lemma_keyed_slot(s, command_key(), c.id@);
        lemma_keyed_upsert(s, command_key(), c);
    }
    let mut i: usize = 0;
    assert(s.skip(0) =~= s);
    while i < v.len() && less_str(v[i].id.as_str(), c.id.as_str())
        invariant
            s == v@,
            i <= s.len(),
            keyed_slot(s, command_key(), c.id@) == i + keyed_slot(s.skip(i as int), command_key(), c.id@),
        decreases v.len() - i,
    {
        assert(s.skip(i as int)[0] == s[i as int]);
        assert(s.skip(i as int).drop_first() =~= s.skip(i + 1));
        i = i + 1;
    }
    if i < v.len() {
        assert(s.skip(i as int)[0] == s[i as int]);
    }
    if i < v.len() && eq_str(v[i].id.as_str(), c.id.as_str()) {
        v.set(i, c);
    } else {
        v.insert(i, c);
    }
}

fn upsert_string(v: &mut Vec<String>, x: String)
    ensures
        final(v)@ == keyed_upsert(old(v)@, string_key(), x),
{
    let ghost s = v@;
    proof {
        lemma_keyed_slot(s, string_key(), x@);
        lemma_keyed_upsert(s, string_key(), x);
    }
    let mut i: usize = 0;
    assert(s.skip(0) =~= s);
    while i < v.len() && less_str(v[i].as_str(), x.as_str())
        invariant
            s == v@,
            i <= s.len(),
            keyed_slot(s, string_key(), x@) == i + keyed_slot(s.skip(i as int), string_key(), x@),
        decreases v.len() - i,
    {
        assert(s.skip(i as int)[0] == s[i as int]);
        assert(s.skip(i as int).drop_first() =~= s.skip(i + 1));
        i = i + 1;
    }
    if i < v.len() {
        assert(s.skip(i as int)[0] == s[i as int]);
    }
    if i < v.len() && eq_str(v[i].as_str(), x.as_str()) {
        v.set(i, x);
    } else {
        v.insert(i, x);
    }
}

fn remove_string(v: &mut Vec<String>, x: &str)
    ensures
        final(v)@ == keyed_remove(old(v)@, string_key(), x@),
{
    let ghost s = v@;
    proof {
        lemma_keyed_slot(s, string_key(), x@);
    }
    let mut i: usize = 0;
    assert(s.skip(0) =~= s);
    while i < v.len() && less_str(v[i].as_str(), x)
        invariant
            s == v@,
            i <= s.len(),
            keyed_slot(s, string_key(), x@) == i + keyed_slot(s.skip(i as int), string_key(), x@),
        decreases v.len() - i,
    {
        assert(s.skip(i as int)[0] == s[i as int]);
        assert(s.skip(i as int).drop_first() =~= s.skip(i + 1));
        i = i + 1;
    }
    if i < v.len() {
        assert(s.skip(i as int)[0] == s[i as int]);
    }
    if i < v.len() && eq_str(v[i].as_str(), x) {
        v.remove(i);
    }
}

// ---------------------------------------------------------------- accounting for commands

pub open spec fn view_key() -> spec_fn(ResultView) -> Seq<char> {
    |v: ResultView| v.0
}

/// Where a planned command stands: it has a result, waits, or runs, and only one of them; a
/// command that is not planned is in none of them.
pub open spec fn placed_once(
    planned: Set<Seq<char>>,
    done: Seq<ResultView>,
    pending: Seq<CommandSpec>,
    running: Seq<String>,
    k: Seq<char>,
) -> bool {
    let a = holds_key(done, view_key(), k);
    let b = holds_key(pending, command_key(), k);
    let c = holds_key(running, string_key(), k);
    &&& planned.contains(k) <==> (a || b || c)
    &&& !(a && b)
    &&& !(a && c)
    &&& !(b && c)
}

/// Every planned command is accounted for once: reported at most once, and otherwise
/// waiting or running.
pub open spec fn accounted(
    planned: Set<Seq<char>>,
    done: Seq<ResultView>,
    pending: Seq<CommandSpec>,
    running: Seq<String>,
) -> bool {
    &&& keys_distinct(done, view_key())
    &&& forall|k: Seq<char>| #[trigger] placed_once(planned, done, pending, running, k)
}

/// Every planned command has exactly one result, and no other command has one.
pub open spec fn resolved(planned: Set<Seq<char>>, done: Seq<ResultView>) -> bool {
    &&& keys_distinct(done, view_key())
    &&& forall|k: Seq<char>| #[trigger] planned.contains(k) <==> holds_key(done, view_key(), k)
}

proof fn lemma_concat_keys<T>(a: Seq<T>, b: Seq<T>, key: spec_fn(T) -> Seq<char>, k: Seq<char>)
    ensures
        holds_key(a + b, key, k) <==> (holds_key(a, key, k) || holds_key(b, key, k)),
{
    let c = a + b;
    if holds_key(c, key, k) {
        let i = choose|i: int| 0 <= i < c.len() && key(#[trigger] c[i]) == k;
        if i < a.len() {
            assert(key(a[i]) == k);
        } else {
            assert(key(b[i - a.len()]) == k);
        }
    }
    if holds_key(a, key, k) {
        let i = choose|i: int| 0 <= i < a.len() && key(#[trigger] a[i]) == k;
        assert(key(c[i]) == k);
    }
    if holds_key(b, key, k) {
        let i = choose|i: int| 0 <= i < b.len() && key(#[trigger] b[i]) == k;
        assert(key(c[i + a.len()]) == k);
    }
}

proof fn lemma_concat_distinct<T>(a: Seq<T>, b: Seq<T>, key: spec_fn(T) -> Seq<char>)
    requires
        keys_distinct(a, key),
        keys_distinct(b, key),
        forall|i: int, j: int|
            0 <= i < a.len() && 0 <= j < b.len() ==> key(#[trigger] a[i]) != key(#[trigger] b[j]),
    ensures
        keys_distinct(a + b, key),
{
    let c = a + b;
    assert forall|i: int, j: int| 0 <= i < j < c.len() implies key(#[trigger] c[i]) != key(
        #[trigger] c[j],
    ) by {
        if j < a.len() {
            assert(c[i] == a[i] && c[j] == a[j]);
        } else if i >= a.len() {
            assert(c[i] == b[i - a.len()] && c[j] == b[j - a.len()]);
        } else {
            assert(c[i] == a[i] && c[j] == b[j - a.len()]);
        }
    }
}

proof fn lemma_skipped_keys(cs: Seq<CommandSpec>, reason: Seq<char>, k: Seq<char>)
    ensures
        holds_key(skipped_views(cs, reason), view_key(), k) <==> holds_key(cs, command_key(), k),
        keys_distinct(cs, command_key()) ==> keys_distinct(skipped_views(cs, reason), view_key()),
{
    let v = skipped_views(cs, reason);
    assert forall|i: int| 0 <= i < cs.len() implies (#[trigger] v[i]).0 == cs[i].id@ by {}
    if holds_key(v, view_key(), k) {
        let i = choose|i: int| 0 <= i < v.len() && view_key()(#[trigger] v[i]) == k;
        assert(cs[i].id@ == k);
    }
    if holds_key(cs, command_key(), k) {
        let i = choose|i: int| 0 <= i < cs.len() && command_key()(#[trigger] cs[i]) == k;
        assert(v[i].0 == k);
    }
    if keys_distinct(cs, command_key()) {
        assert forall|i: int, j: int| 0 <= i < j < v.len() implies view_key()(#[trigger] v[i])
            != view_key()(#[trigger] v[j]) by {
            assert(command_key()(cs[i]) != command_key()(cs[j]));
        }
    }
}

proof fn lemma_cancelled_keys(ids: Seq<String>, k: Seq<char>)
    ensures
        holds_key(cancelled_views(ids), view_key(), k) <==> holds_key(ids, string_key(), k),
        keys_distinct(ids, string_key()) ==> keys_distinct(cancelled_views(ids), view_key()),
{
    let v = cancelled_views(ids);
    assert forall|i: int| 0 <= i < ids.len() implies (#[trigger] v[i]).0 == ids[i]@ by {}
    if holds_key(v, view_key(), k) {
        let i = choose|i: int| 0 <= i < v.len() && view_key()(#[trigger] v[i]) == k;
        assert(ids[i]@ == k);
    }
    if holds_key(ids, string_key(), k) {
        let i = choose|i: int| 0 <= i < ids.len() && string_key()(#[trigger] ids[i]) == k;
        assert(v[i].0 == k);
    }
    if keys_distinct(ids, string_key()) {
        assert forall|i: int, j: int| 0 <= i < j < v.len() implies view_key()(#[trigger] v[i])
            != view_key()(#[trigger] v[j]) by {
            assert(string_key()(ids[i]) != string_key()(ids[j]));
        }
    }
}

/// The ids of the commands of a plan.
pub open spec fn planned_ids(cs: Seq<CommandSpec>) -> Set<Seq<char>> {
    Set::new(|k: Seq<char>| holds_key(cs, command_key(), k))
}

proof fn lemma_single_key<T>(x: T, key: spec_fn(T) -> Seq<char>, k: Seq<char>)
    ensures
        holds_key(seq![x], key, k) <==> key(x) == k,
{
    if key(x) == k {
        assert(key(seq![x][0]) == k);
    }
}

proof fn lemma_pending_of_keys(cs: Seq<CommandSpec>, k: Seq<char>)
    ensures
        holds_key(pending_of(cs), command_key(), k) <==> holds_key(cs, command_key(), k),
    decreases cs.len(),
{
    if cs.len() > 0 {
        let d = cs.drop_last();
        lemma_pending_of_keys(d, k);
        lemma_upsert_keys(pending_of(d), command_key(), cs.last(), k);
        assert(cs =~= d + seq![cs.last()]);
        lemma_concat_keys(d, seq![cs.last()], command_key(), k);
        lemma_single_key(cs.last(), command_key(), k);
    }
}

proof fn lemma_pending_of_sorted(cs: Seq<CommandSpec>)
    ensures
        keys_sorted(pending_of(cs), command_key()),
    decreases cs.len(),
{
    if cs.len() > 0 {
        lemma_pending_of_sorted(cs.drop_last());
        lemma_upsert_sorted(pending_of(cs.drop_last()), command_key(), cs.last());
    }
}

proof fn lemma_fresh_accounted(cs: Seq<CommandSpec>)
    ensures
        accounted(planned_ids(cs), Seq::empty(), pending_of(cs), Seq::empty()),
{
    assert forall|k: Seq<char>| #[trigger]
        placed_once(planned_ids(cs), Seq::empty(), pending_of(cs), Seq::empty(), k) by {
        lemma_pending_of_keys(cs, k);
    }
}

proof fn lemma_start_accounted(
    planned: Set<Seq<char>>,
    done: Seq<ResultView>,
    p: Seq<CommandSpec>,
    u: Seq<String>,
    f: int,
)
    requires
        accounted(planned, done, p, u),
        keys_sorted(p, command_key()),
        0 <= f < p.len(),
    ensures
        accounted(planned, done, p.remove(f), keyed_upsert(u, string_key(), p[f].id)),
{
    lemma_sorted_distinct(p, command_key());
    let id = p[f].id@;
    assert(command_key()(p[f]) == id);
    assert(placed_once(planned, done, p, u, id));
    let u2 = keyed_upsert(u, string_key(), p[f].id);
    assert forall|k: Seq<char>| #[trigger] placed_once(planned, done, p.remove(f), u2, k) by {
        assert(placed_once(planned, done, p, u, k));
        lemma_remove_at_keys(p, command_key(), f, k);
        lemma_upsert_keys(u, string_key(), p[f].id, k);
    }
}

proof fn lemma_finish_accounted(
    planned: Set<Seq<char>>,
    done: Seq<ResultView>,
    p: Seq<CommandSpec>,
    u: Seq<String>,
    id: Seq<char>,
    r: ResultView,
)
    requires
        accounted(planned, done, p, u),
        keys_sorted(u, string_key()),
        r.0 == id,
        holds_key(u, string_key(), id),
    ensures
        accounted(planned, done.push(r), p, keyed_remove(u, string_key(), id)),
{
    assert(placed_once(planned, done, p, u, id));
    let d2 = done.push(r);
    assert(d2 == done + seq![r]);
    assert forall|i: int, j: int| 0 <= i < done.len() && 0 <= j < 1 implies view_key()(
        #[trigger] done[i],
    ) != view_key()(#[trigger] seq![r][j]) by {
        if done[i].0 == id {
            assert(holds_key(done, view_key(), id));
        }
    }
    assert(keys_distinct(seq![r], view_key()));
    lemma_concat_distinct(done, seq![r], view_key());
    let u2 = keyed_remove(u, string_key(), id);
    assert forall|k: Seq<char>| #[trigger] placed_once(planned, d2, p, u2, k) by {
        assert(placed_once(planned, done, p, u, k));
        lemma_remove_keys(u, string_key(), id, k);
        lemma_concat_keys(done, seq![r], view_key(), k);
        lemma_single_key(r, view_key(), k);
    }
}

proof fn lemma_skip_accounted(
    planned: Set<Seq<char>>,
    done: Seq<ResultView>,
    p: Seq<CommandSpec>,
    u: Seq<String>,
    rs: Seq<CommandResult>,
    reason: Seq<char>,
)
    requires
        accounted(planned, done, p, u),
        keys_sorted(p, command_key()),
    ensures
        accounted(
            planned,
            done + skipped_views(p.filter(has_failed_dep(rs)), reason),
            p.filter(no_failed_dep(rs)),
            u,
        ),
{
    let drop = has_failed_dep(rs);
    let keep = no_failed_dep(rs);
    let f = p.filter(drop);
    let kept = p.filter(keep);
    let sv = skipped_views(f, reason);
    lemma_sorted_distinct(p, command_key());
    lemma_filter_sorted(p, command_key(), drop);
    lemma_sorted_distinct(f, command_key());
    lemma_skipped_keys(f, reason, Seq::empty());
    assert forall|i: int, j: int| 0 <= i < done.len() && 0 <= j < sv.len() implies view_key()(
        #[trigger] done[i],
    ) != view_key()(#[trigger] sv[j]) by {
        let k = sv[j].0;
        assert(k == f[j].id@);
        assert(command_key()(f[j]) == k);
        assert(holds_key(f, command_key(), k));
        lemma_filter_keys(p, command_key(), drop, k);
        assert(holds_key(p, command_key(), k));
        assert(placed_once(planned, done, p, u, k));
        if done[i].0 == k {
            assert(holds_key(done, view_key(), k));
        }
    }
    lemma_concat_distinct(done, sv, view_key());
    assert forall|k: Seq<char>| #[trigger] placed_once(planned, done + sv, kept, u, k) by {
        assert(placed_once(planned, done, p, u, k));
        lemma_concat_keys(done, sv, view_key(), k);
        lemma_skipped_keys(f, reason, k);
        lemma_filter_keys(p, command_key(), drop, k);
        lemma_filter_keys(p, command_key(), keep, k);
        if holds_key(p, command_key(), k) {
            let i = choose|i: int| 0 <= i < p.len() && command_key()(#[trigger] p[i]) == k;
            if drop(p[i]) {
                assert(holds_key(f, command_key(), k));
                if exists|j: int| 0 <= j < p.len() && command_key()(#[trigger] p[j]) == k && keep(p[j]) {
                    let j = choose|j: int|
                        0 <= j < p.len() && command_key()(#[trigger] p[j]) == k && keep(p[j]);
                    assert(i != j);
                }
            } else {
                assert(keep(p[i]));
                if exists|j: int| 0 <= j < p.len() && command_key()(#[trigger] p[j]) == k && drop(p[j]) {
                    let j = choose|j: int|
                        0 <= j < p.len() && command_key()(#[trigger] p[j]) == k && drop(p[j]);
                    assert(i != j);
                }
            }
        }
    }
}

proof fn lemma_stop_resolved(
    planned: Set<Seq<char>>,
    done: Seq<ResultView>,
    p: Seq<CommandSpec>,
    u: Seq<String>,
    reason: Seq<char>,
)
    requires
        accounted(planned, done, p, u),
        keys_sorted(p, command_key()),
        keys_sorted(u, string_key()),
    ensures
        resolved(planned, done + skipped_views(p, reason) + cancelled_views(u)),
{
    let sv = skipped_views(p, reason);
    let cv = cancelled_views(u);
    lemma_sorted_distinct(p, command_key());
    lemma_sorted_distinct(u, string_key());
    lemma_skipped_keys(p, reason, Seq::empty());
    lemma_cancelled_keys(u, Seq::empty());
    assert forall|i: int, j: int| 0 <= i < done.len() && 0 <= j < sv.len() implies view_key()(
        #[trigger] done[i],
    ) != view_key()(#[trigger] sv[j]) by {
        let k = sv[j].0;
        assert(command_key()(p[j]) == k);
        assert(placed_once(planned, done, p, u, k));
        if done[i].0 == k {
            assert(holds_key(done, view_key(), k));
        }
    }
    lemma_concat_distinct(done, sv, view_key());
    let ds = done + sv;
    assert forall|i: int, j: int| 0 <= i < ds.len() && 0 <= j < cv.len() implies view_key()(
        #[trigger] ds[i],
    ) != view_key()(#[trigger] cv[j]) by {
        let k = cv[j].0;
        assert(string_key()(u[j]) == k);
        assert(placed_once(planned, done, p, u, k));
        if ds[i].0 == k {
            lemma_concat_keys(done, sv, view_key(), k);
            lemma_skipped_keys(p, reason, k);
            assert(holds_key(ds, view_key(), k));
        }
    }
    lemma_concat_distinct(ds, cv, view_key());
    assert forall|k: Seq<char>| #[trigger] planned.contains(k) <==> holds_key(ds + cv, view_key(), k) by {
        assert(placed_once(planned, done, p, u, k));
        lemma_concat_keys(done, sv, view_key(), k);
        lemma_concat_keys(ds, cv, view_key(), k);
        lemma_skipped_keys(p, reason, k);
        lemma_cancelled_keys(u, k);
    }
}

} // verus!
