//! Whole runs, and what holds of them whatever the tests do.

use crate::driver::{begun, continued, reported};
use crate::driver::{ActionView, DriverModel, RunOutcomeView, TestOutcomeView};
use crate::koan::KoanView;
use crate::progress::{lemma_append_adds_one_record, lemma_append_counts};
use crate::progress::{line_of, records, terminated};
use vstd::prelude::*;

verus! {

/// Goes on from a state and the action that led to it: as long as tests are
/// asked for and an outcome is left, the next outcome is reported.
pub open spec fn run_through(at: (DriverModel, ActionView), outcomes: Seq<TestOutcomeView>) -> (
    DriverModel,
    ActionView,
)
    decreases outcomes.len(),
{
    match at.1 {
        ActionView::Report(_) => at,
        ActionView::Test { .. } => if outcomes.len() == 0 {
            at
        } else {
            run_through(reported(at.0, outcomes[0]), outcomes.drop_first())
        },
    }
}

/// A whole run: it begins, and each outcome is reported when its tests are
/// asked for.
pub open spec fn run(model: DriverModel, outcomes: Seq<TestOutcomeView>) -> (
    DriverModel,
    ActionView,
) {
    run_through(begun(model), outcomes)
}

/// The exercises whose tests are asked for, in that order, from a state and
/// the action that led to it.
pub open spec fn asked_through(
    at: (DriverModel, ActionView),
    outcomes: Seq<TestOutcomeView>,
) -> Seq<KoanView>
    decreases outcomes.len(),
{
    match at.1 {
        ActionView::Report(_) => Seq::empty(),
        ActionView::Test { exercise, .. } => if outcomes.len() == 0 {
            seq![exercise]
        } else {
            seq![exercise] + asked_through(reported(at.0, outcomes[0]), outcomes.drop_first())
        },
    }
}

/// The exercises whose tests are asked for in a whole run.
pub open spec fn asked(model: DriverModel, outcomes: Seq<TestOutcomeView>) -> Seq<KoanView> {
    asked_through(begun(model), outcomes)
}

/// The first `count` outcomes are successes.
pub open spec fn all_pass(outcomes: Seq<TestOutcomeView>, count: nat) -> bool {
    count <= outcomes.len() && forall|i: int|
        0 <= i < count ==> (#[trigger] outcomes[i]) is Success
}

/// The state after several runs, one after the other.
pub open spec fn after_runs(model: DriverModel, scripts: Seq<Seq<TestOutcomeView>>) -> DriverModel
    decreases scripts.len(),
{
    if scripts.len() == 0 {
        model
    } else {
        run(after_runs(model, scripts.drop_last()), scripts.last()).0
    }
}

/// What may have happened between two states when `action` is asked for:
/// the catalog is the same, and the marker is the same but for the one line
/// of the exercise that `action` reports as opened, which is the first
/// exercise that was not open.
pub open spec fn follows(before: DriverModel, after: DriverModel, action: ActionView) -> bool {
    &&& after.catalog == before.catalog
    &&& match action {
        ActionView::Report(RunOutcomeView::Advanced { exercise }) => {
            &&& before.unlocked() < before.catalog.len()
            &&& exercise == before.catalog[before.unlocked() as int]
            &&& after.marker == before.marker + line_of(exercise.qualified_name())
        },
        _ => after.marker == before.marker,
    }
}

/// Going on with a run changes only what `follows` allows.
pub proof fn lemma_continued_follows(model: DriverModel, from: nat)
    ensures
        follows(model, continued(model, from).0, continued(model, from).1),
{
}

/// Taking an outcome changes only what `follows` allows.
pub proof fn lemma_reported_follows(model: DriverModel, outcome: TestOutcomeView)
    ensures
        follows(model, reported(model, outcome).0, reported(model, outcome).1),
{
}

/// Going on from a state in which tests are awaited changes only what
/// `follows` allows.
pub proof fn lemma_run_through_follows(
    at: (DriverModel, ActionView),
    outcomes: Seq<TestOutcomeView>,
)
    requires
        at.1 is Test,
    ensures
        follows(at.0, run_through(at, outcomes).0, run_through(at, outcomes).1),
    decreases outcomes.len(),
{
    if outcomes.len() > 0 {
        let next = reported(at.0, outcomes[0]);
        lemma_reported_follows(at.0, outcomes[0]);
        if next.1 is Test {
            lemma_run_through_follows(next, outcomes.drop_first());
        }
    }
}

/// A whole run changes only what `follows` allows: it keeps the catalog, and
/// it adds to the marker the line of the exercise that it opens, or nothing.
pub proof fn lemma_run_follows(model: DriverModel, outcomes: Seq<TestOutcomeView>)
    ensures
        follows(model, run(model, outcomes).0, run(model, outcomes).1),
{
    lemma_continued_follows(model, 0);
    if begun(model).1 is Test {
        lemma_run_through_follows(begun(model), outcomes);
    }
}

/// What `follows` means for the records: those that the marker held stay
/// in front, their number never falls and rises by one at most, and only
/// where an exercise is reported as opened. A marker that ends a line still
/// ends a line afterwards, and has then gained exactly the record of the
/// opened exercise, behind the records it held.
pub proof fn lemma_follows_keeps_records(
    before: DriverModel,
    after: DriverModel,
    action: ActionView,
)
    requires
        before.well_formed(),
        follows(before, after, action),
    ensures
        after.well_formed(),
        before.marker.is_prefix_of(after.marker),
        before.unlocked() <= after.unlocked() <= before.unlocked() + 1,
        after.unlocked() != before.unlocked() ==> action is Report && action->Report_0 is Advanced,
        terminated(before.marker) ==> terminated(after.marker),
        terminated(before.marker) ==> records(after.marker) == match action {
            ActionView::Report(RunOutcomeView::Advanced { exercise }) => records(
                before.marker,
            ).push(exercise.qualified_name()),
            _ => records(before.marker),
        },
{
    match action {
        ActionView::Report(RunOutcomeView::Advanced { exercise }) => {
            lemma_append_counts(before.marker, exercise.qualified_name());
            if terminated(before.marker) {
                lemma_append_adds_one_record(before.marker, exercise.qualified_name());
            }
        },
        _ => {},
    }
}

/// A run never lowers the number of records and raises it by one at most.
/// It keeps the catalog and what the marker held, and it changes the marker
/// only where it reports that an exercise was opened.
pub proof fn lemma_run_keeps_records(model: DriverModel, outcomes: Seq<TestOutcomeView>)
    requires
        model.well_formed(),
    ensures
        ({
            let (last, action) = run(model, outcomes);
            &&& last.catalog == model.catalog
            &&& model.marker.is_prefix_of(last.marker)
            &&& model.unlocked() <= last.unlocked() <= model.unlocked() + 1
            &&& !(action is Report && action->Report_0 is Advanced) ==> last.marker == model.marker
        }),
{
    lemma_run_follows(model, outcomes);
    lemma_follows_keeps_records(model, run(model, outcomes).0, run(model, outcomes).1);
}

/// Over any number of runs the number of records never falls, and each run
/// raises it by one at most. What the marker held at first stays in front.
pub proof fn lemma_runs_count_upwards(model: DriverModel, scripts: Seq<Seq<TestOutcomeView>>)
    requires
        model.well_formed(),
        scripts.len() > 0,
    ensures
        after_runs(model, scripts).catalog == model.catalog,
        after_runs(model, scripts.drop_last()).unlocked() <= after_runs(model, scripts).unlocked()
            <= after_runs(model, scripts.drop_last()).unlocked() + 1,
        model.unlocked() <= after_runs(model, scripts).unlocked() <= model.unlocked()
            + scripts.len(),
        model.marker.is_prefix_of(after_runs(model, scripts).marker),
    decreases scripts.len(),
{
    let earlier = scripts.drop_last();
    if earlier.len() > 0 {
        lemma_runs_count_upwards(model, earlier);
    }
    lemma_run_keeps_records(after_runs(model, earlier), scripts.last());
}

/// While tests pass, the run goes on with the next open exercise.
proof fn lemma_passing(model: DriverModel, from: nat, outcomes: Seq<TestOutcomeView>, count: nat)
    requires
        from + count <= model.open_count(),
        all_pass(outcomes, count),
    ensures
        run_through(continued(model, from), outcomes) == run_through(
            continued(model, from + count),
            outcomes.skip(count as int),
        ),
        asked_through(continued(model, from), outcomes) == model.catalog.subrange(
            from as int,
            (from + count) as int,
        ) + asked_through(continued(model, from + count), outcomes.skip(count as int)),
    decreases count,
{
    if count == 0 {
        assert(outcomes.skip(0) =~= outcomes);
    } else {
        let rest = outcomes.drop_first();
        lemma_passing(model, from + 1, rest, (count - 1) as nat);
        assert(rest.skip(count - 1) =~= outcomes.skip(count as int));
    }
}

/// The first failure ends the run: the exercise that failed is reported with
/// the details of its failure, the marker stays as it was, and no tests of
/// a later exercise are asked for.
pub proof fn lemma_first_failure_blocks(
    model: DriverModel,
    outcomes: Seq<TestOutcomeView>,
    failing: nat,
)
    requires
        failing < model.open_count(),
        failing < outcomes.len(),
        all_pass(outcomes, failing),
        outcomes[failing as int] is Failure,
    ensures
        run(model, outcomes) == (
            model.at_rest(),
            ActionView::Report(
                RunOutcomeView::Blocked {
                    failing_exercise: model.catalog[failing as int],
                    failure_details: outcomes[failing as int]->details,
                },
            ),
        ),
        asked(model, outcomes) == model.catalog.take(failing as int + 1),
{
    lemma_passing(model, 0, outcomes, failing);
    let rest = outcomes.skip(failing as int);
    let ended = reported(continued(model, failing).0, rest[0]);
    assert(run_through(ended, rest.drop_first()) == ended);
    assert(asked_through(ended, rest.drop_first()) =~= Seq::<KoanView>::empty());
}

/// Where the tests of every open exercise pass, all of them are asked for,
/// in the order of the catalog, and then the next exercise is opened, or
/// the run reports that none is left.
pub proof fn lemma_full_pass_advances(model: DriverModel, outcomes: Seq<TestOutcomeView>)
    requires
        all_pass(outcomes, model.open_count()),
    ensures
        run(model, outcomes) == continued(model, model.open_count()),
        run(model, outcomes).1 is Report,
        run(model, outcomes).1->Report_0 == if model.unlocked() < model.catalog.len() {
            RunOutcomeView::Advanced { exercise: model.catalog[model.unlocked() as int] }
        } else {
            RunOutcomeView::AllComplete
        },
        asked(model, outcomes) == model.catalog.take(model.open_count() as int),
{
    lemma_passing(model, 0, outcomes, model.open_count());
}

/// A run in which the tests of some open exercise fail adds no record: it
/// ends blocked, with the marker as it was.
pub proof fn lemma_failure_never_advances(
    model: DriverModel,
    outcomes: Seq<TestOutcomeView>,
    failing: nat,
)
    requires
        failing < model.open_count(),
        failing < outcomes.len(),
        outcomes[failing as int] is Failure,
    ensures
        run(model, outcomes).0 == model.at_rest(),
        run(model, outcomes).1 is Report,
        run(model, outcomes).1->Report_0 is Blocked,
    decreases failing,
{
    if all_pass(outcomes, failing) {
        lemma_first_failure_blocks(model, outcomes, failing);
    } else {
        let earlier = choose|i: int| 0 <= i < failing && !((#[trigger] outcomes[i]) is Success);
        lemma_failure_never_advances(model, outcomes, earlier as nat);
    }
}

/// A run that ends without being blocked has asked for the tests of every
/// open exercise, and all of them have passed.
pub proof fn lemma_success_needs_full_pass(model: DriverModel, outcomes: Seq<TestOutcomeView>)
    requires
        run(model, outcomes).1 is Report,
        !(run(model, outcomes).1->Report_0 is Blocked),
    ensures
        all_pass(outcomes, model.open_count()),
        asked(model, outcomes) == model.catalog.take(model.open_count() as int),
{
    if exists|i: int|
        0 <= i < model.open_count() && i < outcomes.len() && (#[trigger] outcomes[i]) is Failure {
        let failing = choose|i: int|
            0 <= i < model.open_count() && i < outcomes.len() && (#[trigger] outcomes[i])
                is Failure;
        lemma_failure_never_advances(model, outcomes, failing as nat);
    } else if outcomes.len() < model.open_count() {
        assert(all_pass(outcomes, outcomes.len()));
        lemma_passing(model, 0, outcomes, outcomes.len());
    } else {
        assert(all_pass(outcomes, model.open_count()));
        lemma_full_pass_advances(model, outcomes);
    }
}

/// Once every exercise is open, a run in which all tests pass reports that
/// none is left and changes nothing.
pub proof fn lemma_complete_stays_complete(model: DriverModel, outcomes: Seq<TestOutcomeView>)
    requires
        model.unlocked() >= model.catalog.len(),
        all_pass(outcomes, model.catalog.len()),
    ensures
        run(model, outcomes) == (
            model.at_rest(),
            ActionView::Report(RunOutcomeView::AllComplete),
        ),
{
    lemma_full_pass_advances(model, outcomes);
}

/// Once every exercise is open, any number of runs in which all tests pass
/// leave the catalog and the marker as they are, and each of them reports
/// that none is left.
pub proof fn lemma_complete_for_good(model: DriverModel, scripts: Seq<Seq<TestOutcomeView>>)
    requires
        model.unlocked() >= model.catalog.len(),
        forall|i: int|
            0 <= i < scripts.len() ==> all_pass(#[trigger] scripts[i], model.catalog.len()),
    ensures
        after_runs(model, scripts).catalog == model.catalog,
        after_runs(model, scripts).marker == model.marker,
        scripts.len() > 0 ==> run(after_runs(model, scripts.drop_last()), scripts.last()).1
            == ActionView::Report(RunOutcomeView::AllComplete),
    decreases scripts.len(),
{
    if scripts.len() > 0 {
        let earlier = scripts.drop_last();
        lemma_complete_for_good(model, earlier);
        lemma_complete_stays_complete(after_runs(model, earlier), scripts.last());
    }
}

} // verus!
