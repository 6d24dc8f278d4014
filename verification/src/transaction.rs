//! Transaction record of the five-step organise pipeline.
//!
//! Each step that completes is appended to `completed_steps`.  On a failure
//! every completed step is undone, last first.  Filesystem steps are undone
//! by moving the file back into `papers/unclassified/`; the Zotero step by
//! restoring the previous collection; the other steps need nothing.
//!
//! | # | step                      | undo                                         |
//! |---|---------------------------|----------------------------------------------|
//! | 1 | `MovedToStaging`          | move `.staging/{name}` → `unclassified/`     |
//! | 2 | `GeminiClassified`        | nothing (read-only API call)                 |
//! | 3 | `MovedToTarget`           | move `{category}/{name}` → `unclassified/`   |
//! | 4 | `ZoteroCollectionChanged` | set the item's collection back               |
//! | 5 | `ZotMovConfirmed`         | nothing (follows from undoing step 4)        |
use vstd::prelude::*;

use crate::clock::now_rfc3339;

verus! {

/// A completed step; each variant carries what is needed to undo it.
#[derive(Debug, Clone)]
pub enum TxStep {
    /// File moved `unclassified/{name}` → `.staging/{name}`.
    MovedToStaging { staging_path: String },
    /// Gemini returned a category.  Nothing to undo.
    GeminiClassified { category: String },
    /// File moved `.staging/{name}` → `{category}/{name}`.
    MovedToTarget { target_path: String },
    /// The Zotero item's collection was changed.
    ZoteroCollectionChanged { item_key: String, previous_collection: String, new_collection: String },
    /// ZotMoov put the PDF in place.  Undone by undoing the collection change.
    ZotMovConfirmed { pdf_path: String },
}

/// The five pipeline steps, by name.
#[derive(Debug, Clone, Copy, PartialEq, Eq, Structural)]
pub enum StepKind {
    MovedToStaging,
    GeminiClassified,
    MovedToTarget,
    ZoteroCollectionChanged,
    ZotMovConfirmed,
}

pub open spec fn step_label(k: StepKind) -> Seq<char> {
    match k {
        StepKind::MovedToStaging => "MovedToStaging"@,
        StepKind::GeminiClassified => "GeminiClassified"@,
        StepKind::MovedToTarget => "MovedToTarget"@,
        StepKind::ZoteroCollectionChanged => "ZoteroCollectionChanged"@,
        StepKind::ZotMovConfirmed => "ZotMovConfirmed"@,
    }
}

impl StepKind {
    /// The step's name as it appears in events, outcomes and logs.
    pub fn label(&self) -> (r: String)
        ensures
            r@ == step_label(*self),
    {
        match self {
            StepKind::MovedToStaging => "MovedToStaging".to_owned(),
            StepKind::GeminiClassified => "GeminiClassified".to_owned(),
            StepKind::MovedToTarget => "MovedToTarget".to_owned(),
            StepKind::ZoteroCollectionChanged => "ZoteroCollectionChanged".to_owned(),
            StepKind::ZotMovConfirmed => "ZotMovConfirmed".to_owned(),
        }
    }
}

pub open spec fn kind_of(s: TxStep) -> StepKind {
    match s {
        TxStep::MovedToStaging { .. } => StepKind::MovedToStaging,
        TxStep::GeminiClassified { .. } => StepKind::GeminiClassified,
        TxStep::MovedToTarget { .. } => StepKind::MovedToTarget,
        TxStep::ZoteroCollectionChanged { .. } => StepKind::ZoteroCollectionChanged,
        TxStep::ZotMovConfirmed { .. } => StepKind::ZotMovConfirmed,
    }
}

/// How one completed step is undone.
#[derive(Debug, Clone)]
pub enum Undo {
    /// Move the file at `from` back into `papers/unclassified/`, keeping its
    /// file name.
    MoveToUnclassified { from: String },
    /// Put the Zotero item back into `collection`.
    RestoreCollection { item_key: String, collection: String },
    /// Nothing to undo.
    Nothing,
}

/// The undoing of one step, named by the step it undoes.
#[derive(Debug, Clone)]
pub struct RollbackAction {
    pub step: StepKind,
    pub undo: Undo,
}

/// The undoing of a completed step.
pub open spec fn undo_of(s: TxStep) -> RollbackAction {
    RollbackAction {
        step: kind_of(s),
        undo: match s {
            TxStep::MovedToStaging { staging_path } => Undo::MoveToUnclassified { from: staging_path },
            TxStep::MovedToTarget { target_path } => Undo::MoveToUnclassified { from: target_path },
            TxStep::ZoteroCollectionChanged { item_key, previous_collection, .. } =>
                Undo::RestoreCollection { item_key: item_key, collection: previous_collection },
            _ => Undo::Nothing,
        },
    }
}

/// The rollback of a list of completed steps: every step undone, last first.
pub open spec fn rollback_of(steps: Seq<TxStep>) -> Seq<RollbackAction> {
    steps.reverse().map_values(|s: TxStep| undo_of(s))
}

/// Live state of a single paper-organise transaction.
#[derive(Debug, Clone)]
pub struct PaperTransaction {
    /// The paper file's location before the pipeline started.
    pub original_path: String,
    /// Steps completed so far, in order.
    pub completed_steps: Vec<TxStep>,
    /// RFC 3339 time of creation (for log correlation).
    pub started_at: String,
}

fn undo_exec(s: &TxStep) -> (r: RollbackAction)
    ensures
        r == undo_of(*s),
{
    match s {
        TxStep::MovedToStaging { staging_path } => RollbackAction {
            step: StepKind::MovedToStaging,
            undo: Undo::MoveToUnclassified { from: staging_path.clone() },
        },
        TxStep::GeminiClassified { .. } => RollbackAction {
            step: StepKind::GeminiClassified,
            undo: Undo::Nothing,
        },
        TxStep::MovedToTarget { target_path } => RollbackAction {
            step: StepKind::MovedToTarget,
            undo: Undo::MoveToUnclassified { from: target_path.clone() },
        },
        TxStep::ZoteroCollectionChanged { item_key, previous_collection, .. } => RollbackAction {
            step: StepKind::ZoteroCollectionChanged,
            undo: Undo::RestoreCollection {
                item_key: item_key.clone(),
                collection: previous_collection.clone(),
            },
        },
        TxStep::ZotMovConfirmed { .. } => RollbackAction {
            step: StepKind::ZotMovConfirmed,
            undo: Undo::Nothing,
        },
    }
}

impl PaperTransaction {
    /// A fresh transaction for the given paper file, with no steps.
    pub fn new(original_path: String) -> (r: Self)
        ensures
            r.original_path == original_path,
            r.completed_steps@ == Seq::<TxStep>::empty(),
    {
        PaperTransaction { original_path, completed_steps: Vec::new(), started_at: now_rfc3339() }
    }

    /// Append a completed step.
    pub fn record_step(&mut self, step: TxStep)
        ensures
            final(self).completed_steps@ == old(self).completed_steps@.push(step),
            final(self).original_path == old(self).original_path,
            final(self).started_at == old(self).started_at,
    {
        self.completed_steps.push(step);
    }

    /// The rollback to run on failure: every completed step undone, last
    /// first.
    pub fn rollback_plan(&self) -> (r: Vec<RollbackAction>)
        ensures
            r@ == rollback_of(self.completed_steps@),
    {
        let steps = &self.completed_steps;
        let mut r: Vec<RollbackAction> = Vec::new();
        let mut i = steps.len();
        while i > 0
            invariant
                i <= steps.len(),
                r@ == steps@.skip(i as int).reverse().map_values(|s: TxStep| undo_of(s)),
            decreases i,
        {
            i -= 1;
            let a = undo_exec(&steps[i]);
            let ghost before = r@;
            r.push(a);
            proof {
                assert(steps@.skip(i as int).reverse() =~= steps@.skip(i + 1).reverse().push(
                    steps@[i as int],
                ));
                assert(r@ =~= steps@.skip(i as int).reverse().map_values(|s: TxStep| undo_of(s)));
            }
        }
        assert(steps@.skip(0) =~= steps@);
        r
    }
}

/// Law: the rollback undoes the recorded steps in the opposite order; step
/// `i` of the rollback undoes step `n - 1 - i` of the transaction.
pub proof fn lemma_rollback_reverses(steps: Seq<TxStep>)
    ensures
        rollback_of(steps).len() == steps.len(),
        forall|i: int|
            0 <= i < steps.len() ==> #[trigger] rollback_of(steps)[i] == undo_of(
                steps[steps.len() - 1 - i],
            ),
{
}

/// Law: recording a step puts its undoing first in the rollback, ahead of
/// the undoing of everything recorded before.
pub proof fn lemma_record_then_rollback(steps: Seq<TxStep>, s: TxStep)
    ensures
        rollback_of(steps.push(s)) == seq![undo_of(s)] + rollback_of(steps),
{
    assert(steps.push(s).reverse() =~= seq![s] + steps.reverse());
    assert(rollback_of(steps.push(s)) =~= seq![undo_of(s)] + rollback_of(steps));
}

/// Law: the file always goes back to `unclassified/`.  Every move recorded
/// in the transaction is undone by moving the file from where that step
/// put it back into `unclassified/`.
pub proof fn lemma_rollback_returns_file(steps: Seq<TxStep>, i: int)
    requires
        0 <= i < steps.len(),
    ensures
        match steps[i] {
            TxStep::MovedToStaging { staging_path } => rollback_of(steps).contains(
                RollbackAction {
                    step: StepKind::MovedToStaging,
                    undo: Undo::MoveToUnclassified { from: staging_path },
                },
            ),
            TxStep::MovedToTarget { target_path } => rollback_of(steps).contains(
                RollbackAction {
                    step: StepKind::MovedToTarget,
                    undo: Undo::MoveToUnclassified { from: target_path },
                },
            ),
            _ => true,
        },
{
    let k = steps.len() - 1 - i;
    assert(rollback_of(steps)[k] == undo_of(steps[i]));
}

/// Law: a transaction with no steps has nothing to roll back.
pub proof fn lemma_empty_rollback()
    ensures
        rollback_of(Seq::<TxStep>::empty()) == Seq::<RollbackAction>::empty(),
{
    assert(rollback_of(Seq::<TxStep>::empty()) =~= Seq::<RollbackAction>::empty());
}

// ── Outcomes ───────────────────────────────────────────────────────────────

/// Result of reversing a single step.
#[derive(Debug, Clone)]
pub struct StepOutcome {
    pub step: String,
    pub ok: bool,
    pub error: Option<String>,
}

impl StepOutcome {
    /// The outcome of undoing `step` with result `r`.
    pub fn from_result(step: &str, r: Result<(), String>) -> (o: Self)
        ensures
            o.step@ == step@,
            o.ok == r is Ok,
            o.error == match r {
                Ok(_) => None,
                Err(e) => Some(e),
            },
    {
        let ok = r.is_ok();
        StepOutcome {
            step: step.to_owned(),
            ok,
            error: match r {
                Ok(_) => None,
                Err(e) => Some(e),
            },
        }
    }
}

/// Aggregate result of a full rollback run.
#[derive(Debug, Clone)]
pub struct RollbackOutcome {
    /// One entry per step that was reversed, in the order they were undone.
    pub steps: Vec<StepOutcome>,
}

impl RollbackOutcome {
    /// `true` if every step rolled back without error.
    pub fn all_ok(&self) -> (b: bool)
        ensures
            b == forall|i: int| 0 <= i < self.steps@.len() ==> (#[trigger] self.steps@[i]).ok,
    {
        let mut i: usize = 0;
        while i < self.steps.len()
            invariant
                i <= self.steps.len(),
                forall|j: int| 0 <= j < i ==> (#[trigger] self.steps@[j]).ok,
            decreases self.steps.len() - i,
        {
            if !self.steps[i].ok {
                return false;
            }
            i += 1;
        }
        true
    }

    /// The outcome of running `plan`, where `results[i]` is what undoing
    /// `plan[i]` gave.
    pub fn from_results(plan: &Vec<RollbackAction>, results: Vec<Result<(), String>>) -> (o: Self)
        requires
            plan.len() == results.len(),
        ensures
            o.steps@.len() == plan@.len(),
            forall|i: int|
                0 <= i < plan@.len() ==> (#[trigger] o.steps@[i]).step@ == step_label(plan@[i].step)
                    && o.steps@[i].ok == results@[i] is Ok && o.steps@[i].error == match results@[i] {
                    Ok(_) => None,
                    Err(e) => Some(e),
                },
    {
        let ghost rs = results@;
        let mut rest = results;
        let mut steps: Vec<StepOutcome> = Vec::new();
        let mut i: usize = 0;
        while i < plan.len()
            invariant
                i <= plan.len(),
                plan.len() == rs.len(),
                rest@ == rs.skip(i as int),
                steps@.len() == i,
                forall|j: int|
                    0 <= j < i ==> (#[trigger] steps@[j]).step@ == step_label(plan@[j].step)
                        && steps@[j].ok == rs[j] is Ok && steps@[j].error == match rs[j] {
                        Ok(_) => None,
                        Err(e) => Some(e),
                    },
            decreases plan.len() - i,
        {
            assert(rest@[0] == rs[i as int]);
            let r = rest.remove(0);
            let label = plan[i].step.label();
            steps.push(StepOutcome::from_result(label.as_str(), r));
            proof {
                assert(rest@ =~= rs.skip(i + 1));
            }
            i += 1;
        }
        RollbackOutcome { steps }
    }
}

/// Law: the outcome of a rollback run is all ok exactly when every undo
/// succeeded; in particular an empty rollback is all ok.
pub proof fn lemma_outcome_all_ok(plan: Seq<RollbackAction>, results: Seq<Result<(), String>>, o: RollbackOutcome)
    requires
        o.steps@.len() == plan.len(),
        plan.len() == results.len(),
        forall|i: int| 0 <= i < plan.len() ==> (#[trigger] o.steps@[i]).ok == results[i] is Ok,
    ensures
        (forall|i: int| 0 <= i < o.steps@.len() ==> (#[trigger] o.steps@[i]).ok) <==> (forall|i: int|
            0 <= i < results.len() ==> #[trigger] results[i] is Ok),
{
    if forall|i: int| 0 <= i < o.steps@.len() ==> (#[trigger] o.steps@[i]).ok {
        assert forall|i: int| 0 <= i < results.len() implies #[trigger] results[i] is Ok by {
            assert(o.steps@[i].ok);
        }
    }
}

// ── Carrying out a rollback ────────────────────────────────────────────────

/// `outcomes` are those of the first actions of `plan`, each named after
/// the step it undid; an action with nothing to undo succeeded.
pub open spec fn outcomes_fit(plan: Seq<RollbackAction>, outcomes: Seq<StepOutcome>) -> bool {
    &&& outcomes.len() <= plan.len()
    &&& forall|i: int|
        0 <= i < outcomes.len() ==> (#[trigger] outcomes[i]).step@ == step_label(plan[i].step) && (
        plan[i].undo is Nothing ==> outcomes[i].ok && outcomes[i].error is None)
}

/// What `next_undo` does, from `o` to `n`: the actions it passes over have
/// nothing to undo and get their outcomes, and it hands out `r`, the next
/// action that needs outside work, or `None` once every action has its
/// outcome.
pub open spec fn handed_on(o: RollbackRun, n: RollbackRun, r: Option<Undo>) -> bool {
    &&& n.wf()
    &&& n.plan == o.plan
    &&& o.outcomes@.len() <= n.outcomes@.len()
    &&& n.outcomes@.take(o.outcomes@.len() as int) == o.outcomes@
    &&& forall|i: int|
        o.outcomes@.len() <= i < n.outcomes@.len() ==> (#[trigger] n.plan@[i]).undo is Nothing
    &&& match r {
        Some(u) => !n.done() && u == n.plan@[n.outcomes@.len() as int].undo && !(u is Nothing),
        None => n.done(),
    }
}

/// What `record` does, from `o` to `n`: the next action gets its outcome
/// from `result`.
pub open spec fn recorded(o: RollbackRun, n: RollbackRun, result: Result<(), String>) -> bool {
    &&& n.wf()
    &&& n.plan == o.plan
    &&& n.outcomes@.len() == o.outcomes@.len() + 1
    &&& n.outcomes@.take(o.outcomes@.len() as int) == o.outcomes@
    &&& ({
        let out = n.outcomes@.last();
        &&& out.step@ == step_label(o.plan@[o.outcomes@.len() as int].step)
        &&& out.ok == result is Ok
        &&& out.error == match result {
            Ok(_) => None,
            Err(e) => Some(e),
        }
    })
}

/// A rollback carried out one action at a time: `next_undo` hands out the
/// next action that needs outside work, `record` takes what came of it.
/// A failed undo is recorded and the run goes on with the rest.
#[derive(Debug)]
pub struct RollbackRun {
    pub plan: Vec<RollbackAction>,
    pub outcomes: Vec<StepOutcome>,
}

impl RollbackRun {
    pub open spec fn wf(self) -> bool {
        outcomes_fit(self.plan@, self.outcomes@)
    }

    /// Every action of the plan has its outcome.
    pub open spec fn done(self) -> bool {
        self.outcomes@.len() == self.plan@.len()
    }

    /// A run of `plan` with nothing done yet.
    pub fn new(plan: Vec<RollbackAction>) -> (r: Self)
        ensures
            r.wf(),
            r.plan == plan,
            r.outcomes@ == Seq::<StepOutcome>::empty(),
    {
        RollbackRun { plan, outcomes: Vec::new() }
    }

    /// Records each action ahead that has nothing to undo as succeeded, then
    /// hands out the next action that needs outside work, or `None` once
    /// every action has its outcome.
    pub fn next_undo(&mut self) -> (r: Option<Undo>)
        requires
            old(self).wf(),
        ensures
            final(self).wf(),
            handed_on(*old(self), *final(self), r),
    {
        let ghost start = self.outcomes@;
        while self.outcomes.len() < self.plan.len()
            invariant
                self.wf(),
                self.plan == old(self).plan,
                start == old(self).outcomes@,
                start.len() <= self.outcomes@.len(),
                self.outcomes@.take(start.len() as int) == start,
                forall|i: int|
                    start.len() <= i < self.outcomes@.len() ==> (#[trigger] self.plan@[i]).undo is Nothing,
            decreases self.plan.len() - self.outcomes.len(),
        {
            let i = self.outcomes.len();
            match &self.plan[i].undo {
                Undo::MoveToUnclassified { from } => {
                    return Some(Undo::MoveToUnclassified { from: from.clone() });
                },
                Undo::RestoreCollection { item_key, collection } => {
                    return Some(
                        Undo::RestoreCollection {
                            item_key: item_key.clone(),
                            collection: collection.clone(),
                        },
                    );
                },
                Undo::Nothing => {
                    let label = self.plan[i].step.label();
                    let ghost before = self.outcomes@;
                    self.outcomes.push(StepOutcome { step: label, ok: true, error: None });
                    proof {
                        assert(self.outcomes@.take(start.len() as int) =~= before.take(
                            start.len() as int,
                        ));
                    }
                },
            }
        }
        None
    }

    /// Records what came of the action that `next_undo` handed out.
    pub fn record(&mut self, result: Result<(), String>)
        requires
            old(self).wf(),
            !old(self).done(),
            !(old(self).plan@[old(self).outcomes@.len() as int].undo is Nothing),
        ensures
            final(self).wf(),
            recorded(*old(self), *final(self), result),
    {
        let i = self.outcomes.len();
        let label = self.plan[i].step.label();
        let o = StepOutcome::from_result(label.as_str(), result);
        self.outcomes.push(o);
        proof {
            assert(self.outcomes@.take(i as int) =~= old(self).outcomes@);
        }
    }

    /// The outcomes gathered, once every action has one.
    pub fn outcome(self) -> (o: RollbackOutcome)
        requires
            self.done(),
        ensures
            o.steps@ == self.outcomes@,
    {
        RollbackOutcome { steps: self.outcomes }
    }
}

/// The undos of `plan` that need outside work, in order.
pub open spec fn outside_undos(plan: Seq<RollbackAction>) -> Seq<Undo>
    decreases plan.len(),
{
    if plan.len() == 0 {
        seq![]
    } else {
        let rest = outside_undos(plan.drop_last());
        if plan.last().undo is Nothing {
            rest
        } else {
            rest.push(plan.last().undo)
        }
    }
}

/// A rollback of `plan` driven to its end: from a fresh run, `next_undo`
/// hands out `handed[i]` and `record` takes `results[i]`, in turn, until
/// `next_undo` gives `None`.  `runs` are the states between the calls.
pub open spec fn is_rollback_drive(
    plan: Seq<RollbackAction>,
    runs: Seq<RollbackRun>,
    handed: Seq<Undo>,
    results: Seq<Result<(), String>>,
) -> bool {
    &&& runs.len() == 2 * handed.len() + 2
    &&& results.len() == handed.len()
    &&& runs[0].wf()
    &&& runs[0].plan@ == plan
    &&& runs[0].outcomes@.len() == 0
    &&& forall|i: int|
        0 <= i < handed.len() ==> handed_on(runs[2 * i], runs[2 * i + 1], Some(#[trigger] handed[i]))
            && recorded(runs[2 * i + 1], runs[2 * i + 2], results[i])
    &&& handed_on(runs[2 * handed.len() as int], runs[2 * handed.len() as int + 1], None)
}

proof fn lemma_outside_undos_skip(plan: Seq<RollbackAction>, a: int, b: int)
    requires
        0 <= a <= b <= plan.len(),
        forall|i: int| a <= i < b ==> (#[trigger] plan[i]).undo is Nothing,
    ensures
        outside_undos(plan.take(b)) == outside_undos(plan.take(a)),
    decreases b - a,
{
    if a < b {
        lemma_outside_undos_skip(plan, a, b - 1);
        assert(plan.take(b).drop_last() =~= plan.take(b - 1));
    }
}

proof fn lemma_drive_prefix(
    plan: Seq<RollbackAction>,
    runs: Seq<RollbackRun>,
    handed: Seq<Undo>,
    results: Seq<Result<(), String>>,
    k: int,
)
    requires
        is_rollback_drive(plan, runs, handed, results),
        0 <= k <= handed.len(),
    ensures
        runs[2 * k].plan@ == plan,
        runs[2 * k].outcomes@.len() <= plan.len(),
        handed.take(k) == outside_undos(plan.take(runs[2 * k].outcomes@.len() as int)),
    decreases k,
{
    if k == 0 {
        assert(plan.take(0) =~= Seq::<RollbackAction>::empty());
        assert(handed.take(0) =~= Seq::<Undo>::empty());
    } else {
        let j = k - 1;
        lemma_drive_prefix(plan, runs, handed, results, j);
        assert(handed_on(runs[2 * j], runs[2 * j + 1], Some(handed[j])));
        assert(recorded(runs[2 * j + 1], runs[2 * j + 2], results[j]));
        let a = runs[2 * j].outcomes@.len() as int;
        let b = runs[2 * j + 1].outcomes@.len() as int;
        lemma_outside_undos_skip(plan, a, b);
        assert(plan.take(b + 1).drop_last() =~= plan.take(b));
        assert(plan.take(b + 1).last() == plan[b]);
        assert(handed.take(k) =~= handed.take(j).push(handed[j]));
    }
}

/// Law: driving a rollback to its end hands out, in order and each exactly
/// once, the undos of the plan that need outside work (the file moves and
/// the collection restores), whatever each of them gave; and the run ends
/// with an outcome for every action of the plan.
pub proof fn lemma_rollback_drive(
    plan: Seq<RollbackAction>,
    runs: Seq<RollbackRun>,
    handed: Seq<Undo>,
    results: Seq<Result<(), String>>,
)
    requires
        is_rollback_drive(plan, runs, handed, results),
    ensures
        handed == outside_undos(plan),
        runs.last().done(),
        runs.last().plan@ == plan,
{
    let h = handed.len() as int;
    lemma_drive_prefix(plan, runs, handed, results, h);
    let a = runs[2 * h].outcomes@.len() as int;
    lemma_outside_undos_skip(plan, a, plan.len() as int);
    assert(plan.take(plan.len() as int) =~= plan);
    assert(handed.take(h) =~= handed);
}

/// Law: a rollback run of a transaction's plan that is through holds one
/// outcome per completed step, last step first, each named after the step
/// it undid; the classification and the ZotMoov confirmation, which have
/// nothing to undo, come out succeeded.
pub proof fn lemma_rollback_run_complete(steps: Seq<TxStep>, run: RollbackRun)
    requires
        run.wf(),
        run.done(),
        run.plan@ == rollback_of(steps),
    ensures
        run.outcomes@.len() == steps.len(),
        forall|i: int|
            0 <= i < steps.len() ==> (#[trigger] run.outcomes@[i]).step@ == step_label(
                kind_of(steps[steps.len() - 1 - i]),
            ),
        forall|i: int|
            0 <= i < steps.len() && (steps[steps.len() - 1 - i] is GeminiClassified
                || steps[steps.len() - 1 - i] is ZotMovConfirmed) ==> (#[trigger] run.outcomes@[i]).ok
                && run.outcomes@[i].error is None,
{
    lemma_rollback_reverses(steps);
    assert forall|i: int| 0 <= i < steps.len() implies (#[trigger] run.outcomes@[i]).step@
        == step_label(kind_of(steps[steps.len() - 1 - i])) by {
        assert(run.plan@[i] == undo_of(steps[steps.len() - 1 - i]));
    }
    assert forall|i: int|
        0 <= i < steps.len() && (steps[steps.len() - 1 - i] is GeminiClassified
            || steps[steps.len() - 1 - i] is ZotMovConfirmed) implies (#[trigger] run.outcomes@[i]).ok
        && run.outcomes@[i].error is None by {
        assert(run.plan@[i] == undo_of(steps[steps.len() - 1 - i]));
    }
}

// ── Log entries ────────────────────────────────────────────────────────────

/// One entry in `logs/organize-YYYY-MM-DD.json`.
#[derive(Debug, Clone)]
pub struct TxError {
    pub step: String,
    pub message: String,
    pub paper_path: String,
    pub timestamp: String,
}

impl TxError {
    /// A log entry stamped with the current time.
    pub fn new(step: &str, message: &str, paper_path: &str) -> (e: Self)
        ensures
            e.step@ == step@,
            e.message@ == message@,
            e.paper_path@ == paper_path@,
    {
        TxError {
            step: step.to_owned(),
            message: message.to_owned(),
            paper_path: paper_path.to_owned(),
            timestamp: now_rfc3339(),
        }
    }
}

// ── Where a rollback puts the file ────────────────────────────────────────

/// `content/papers/unclassified/{name}`, where `name` is the file name of
/// `from` (empty when it has none).
pub open spec fn undo_destination_text(content_root: Seq<char>, from: Seq<char>) -> Seq<char> {
    crate::paths::join_path(
        crate::organizer::unclassified_text(content_root),
        match crate::paths::path_file_name(from) {
            Some(n) => n,
            None => Seq::<char>::empty(),
        },
    )
}

/// Where undoing a move puts the file back.
pub fn undo_destination(content_root: &str, from: &str) -> (r: String)
    ensures
        r@ == undo_destination_text(content_root@, from@),
{
    let cfg = crate::organizer::OrganizerConfig::new(content_root.to_owned());
    let dir = cfg.unclassified_dir();
    let name = match crate::paths::file_name(from) {
        Some(n) => n,
        None => {
            let e = String::new();
            assert(e@ =~= Seq::<char>::empty());
            e
        },
    };
    crate::paths::join(dir.as_str(), name.as_str())
}

} // verus!
