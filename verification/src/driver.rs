//! One run: the tests of every open exercise, one after the other, and the
//! next exercise only where all of them passed.
//!
//! The tests themselves run elsewhere. The driver says which tests to run
//! next, takes their outcome, and says what to do then.

use crate::catalog::{all_recordable, koan_views};
use crate::collection::KoanCollection;
use crate::koan::{Koan, KoanView};
use crate::progress::{line_of, records};
use vstd::prelude::*;

verus! {

/// How the tests of one exercise ended.
#[derive(Debug, PartialEq, Eq)]
pub enum TestOutcome {
    Success,
    Failure { details: String },
}

/// A `TestOutcome` as plain values.
pub enum TestOutcomeView {
    Success,
    Failure { details: Seq<char> },
}

impl View for TestOutcome {
    type V = TestOutcomeView;

    open spec fn view(&self) -> TestOutcomeView {
        match self {
            TestOutcome::Success => TestOutcomeView::Success,
            TestOutcome::Failure { details } => TestOutcomeView::Failure { details: details@ },
        }
    }
}

/// The program that runs the tests.
pub const TEST_PROGRAM: &'static str = "cargo";

/// What the program that runs the tests is told: to test, to say little,
/// and, with a filter, to run only the tests that the filter selects.
pub open spec fn arguments(filter: Option<Seq<char>>) -> Seq<Seq<char>> {
    match filter {
        Some(selected) => seq!["test"@, "-q"@, selected],
        None => seq!["test"@, "-q"@],
    }
}

/// The arguments for the program that runs the tests.
pub fn test_arguments(filter: Option<&str>) -> (args: Vec<String>)
    ensures
        args.deep_view() == arguments(filter.deep_view()),
{
    let mut args: Vec<String> = Vec::new();
    args.push(String::from_str("test"));
    args.push(String::from_str("-q"));
    if let Some(selected) = filter {
        args.push(String::from_str(selected));
    }
    args
}

impl TestOutcome {
    /// Reads the outcome of the tests from how their program ended: a
    /// success, or a failure with all that the program wrote, first to its
    /// output and then to its error stream.
    pub fn classify(success: bool, stdout: &str, stderr: &str) -> (outcome: TestOutcome)
        ensures
            outcome@ == if success {
                TestOutcomeView::Success
            } else {
                TestOutcomeView::Failure { details: stdout@ + stderr@ }
            },
    {
        if success {
            TestOutcome::Success
        } else {
            let mut details = String::from_str(stdout);
            details.append(stderr);
            TestOutcome::Failure { details }
        }
    }
}

/// How a run ended.
#[derive(Debug, PartialEq, Eq)]
pub enum RunOutcome {
    /// The tests of an open exercise failed.
    Blocked { failing_exercise: Koan, failure_details: String },
    /// All open exercises passed and one more was opened.
    Advanced { exercise: Koan },
    /// All open exercises passed and none is left to open.
    AllComplete,
}

/// A `RunOutcome` as plain values.
pub enum RunOutcomeView {
    Blocked { failing_exercise: KoanView, failure_details: Seq<char> },
    Advanced { exercise: KoanView },
    AllComplete,
}

impl View for RunOutcome {
    type V = RunOutcomeView;

    open spec fn view(&self) -> RunOutcomeView {
        match self {
            RunOutcome::Blocked { failing_exercise, failure_details } => RunOutcomeView::Blocked {
                failing_exercise: failing_exercise@,
                failure_details: failure_details@,
            },
            RunOutcome::Advanced { exercise } => RunOutcomeView::Advanced { exercise: exercise@ },
            RunOutcome::AllComplete => RunOutcomeView::AllComplete,
        }
    }
}

/// What the driver asks for.
#[derive(Debug, PartialEq, Eq)]
pub enum Action {
    /// Run the tests of `exercise`, which `filter` selects, and hand their
    /// outcome to `Driver::tested`.
    Test { exercise: Koan, filter: String },
    /// The run is over.
    Report(RunOutcome),
}

/// An `Action` as plain values.
pub enum ActionView {
    Test { exercise: KoanView, filter: Seq<char> },
    Report(RunOutcomeView),
}

impl View for Action {
    type V = ActionView;

    open spec fn view(&self) -> ActionView {
        match self {
            Action::Test { exercise, filter } => ActionView::Test {
                exercise: exercise@,
                filter: filter@,
            },
            Action::Report(outcome) => ActionView::Report(outcome@),
        }
    }
}

/// The state of a driver: the catalog, the text of the marker, and the
/// place in the catalog of the exercise whose tests are awaited.
pub struct DriverModel {
    pub catalog: Seq<KoanView>,
    pub marker: Seq<char>,
    pub pending: Option<nat>,
}

impl DriverModel {
    /// The number of records in the marker.
    pub open spec fn unlocked(self) -> nat {
        records(self.marker).len()
    }

    /// The number of exercises that are open.
    pub open spec fn open_count(self) -> nat {
        if self.unlocked() < self.catalog.len() {
            self.unlocked()
        } else {
            self.catalog.len()
        }
    }

    /// Every exercise of the catalog fits on one line of the marker.
    pub open spec fn well_formed(self) -> bool {
        all_recordable(self.catalog)
    }

    /// The same catalog and marker, with no tests awaited.
    pub open spec fn at_rest(self) -> DriverModel {
        DriverModel { pending: None, ..self }
    }
}

/// Goes on with a run in which the first `from` open exercises have passed:
/// asks for the tests of the next open exercise, or, where all have passed,
/// opens the next exercise of the catalog and ends the run.
pub open spec fn continued(model: DriverModel, from: nat) -> (DriverModel, ActionView) {
    if from < model.open_count() {
        (
            DriverModel { pending: Some(from), ..model },
            ActionView::Test {
                exercise: model.catalog[from as int],
                filter: model.catalog[from as int].qualified_name(),
            },
        )
    } else if model.unlocked() < model.catalog.len() {
        let exercise = model.catalog[model.unlocked() as int];
        (
            DriverModel {
                pending: None,
                marker: model.marker + line_of(exercise.qualified_name()),
                ..model
            },
            ActionView::Report(RunOutcomeView::Advanced { exercise }),
        )
    } else {
        (model.at_rest(), ActionView::Report(RunOutcomeView::AllComplete))
    }
}

/// Begins a run, whatever was awaited before.
pub open spec fn begun(model: DriverModel) -> (DriverModel, ActionView) {
    continued(model, 0)
}

/// Takes the outcome of the tests that were asked for. A failure ends the
/// run and leaves the marker as it is; a success goes on with the run.
/// Where no tests of an open exercise were awaited, a run begins.
pub open spec fn reported(model: DriverModel, outcome: TestOutcomeView) -> (
    DriverModel,
    ActionView,
) {
    match model.pending {
        Some(at) => if at < model.open_count() {
            match outcome {
                TestOutcomeView::Success => continued(model, at + 1),
                TestOutcomeView::Failure { details } => (
                    model.at_rest(),
                    ActionView::Report(
                        RunOutcomeView::Blocked {
                            failing_exercise: model.catalog[at as int],
                            failure_details: details,
                        },
                    ),
                ),
            }
        } else {
            begun(model)
        },
        None => begun(model),
    }
}

/// Runs the tests of the open exercises one by one and opens the next
/// exercise where all of them pass.
pub struct Driver {
    koans: KoanCollection,
    pending: Option<usize>,
}

impl Driver {
    /// The state of the driver.
    pub closed spec fn model(&self) -> DriverModel {
        DriverModel {
            catalog: self.koans.catalog(),
            marker: self.koans.marker(),
            pending: match self.pending {
                Some(at) => Some(at as nat),
                None => None,
            },
        }
    }

    /// The collection that the driver works on.
    pub closed spec fn collection(&self) -> KoanCollection {
        self.koans
    }

    /// A driver for `koans` that awaits no tests.
    pub fn new(koans: KoanCollection) -> (driver: Driver)
        ensures
            driver.collection() == koans,
            driver.model() == (DriverModel {
                catalog: koans.catalog(),
                marker: koans.marker(),
                pending: None,
            }),
            driver.model().well_formed(),
    {
        proof {
            use_type_invariant(&koans);
        }
        Driver { koans, pending: None }
    }

    /// The collection that the driver works on.
    pub fn koans(&self) -> (koans: &KoanCollection)
        ensures
            *koans == self.collection(),
            koans.catalog() == self.model().catalog,
            koans.marker() == self.model().marker,
    {
        &self.koans
    }

    /// Gives the collection back.
    pub fn into_koans(self) -> (koans: KoanCollection)
        ensures
            koans == self.collection(),
            koans.catalog() == self.model().catalog,
            koans.marker() == self.model().marker,
    {
        self.koans
    }

    /// Takes the text of the marker anew and forgets what was awaited.
    pub fn reload(&mut self, marker: String)
        ensures
            final(self).model() == (DriverModel {
                catalog: old(self).model().catalog,
                marker: marker@,
                pending: None,
            }),
    {
        self.koans.reload(marker);
        self.pending = None;
    }

    fn proceed(&mut self, from: usize) -> (action: Action)
        ensures
            (final(self).model(), action@) == continued(old(self).model(), from as nat),
    {
        let opened = self.koans.opened();
        proof {
            assert(koan_views(opened@).len() == opened@.len());
            if from < opened@.len() {
                assert(koan_views(opened@)[from as int] == opened@[from as int]@);
            }
        }
        if from < opened.len() {
            let exercise = opened[from].clone();
            let filter = exercise.qualified_name();
            self.pending = Some(from);
            Action::Test { exercise, filter }
        } else {
            self.pending = None;
            match self.koans.open_next() {
                Ok(koan) => Action::Report(RunOutcome::Advanced { exercise: koan.clone() }),
                Err(_) => Action::Report(RunOutcome::AllComplete),
            }
        }
    }

    /// Begins a run: asks for the tests of the first open exercise, or,
    /// where none is open, opens the first exercise of the catalog.
    pub fn start(&mut self) -> (action: Action)
        ensures
            (final(self).model(), action@) == begun(old(self).model()),
    {
        self.proceed(0)
    }

    /// Takes the outcome of the tests that were asked for, and says what to
    /// do next.
    pub fn tested(&mut self, outcome: TestOutcome) -> (action: Action)
        ensures
            (final(self).model(), action@) == reported(old(self).model(), outcome@),
    {
        let at = match self.pending {
            Some(at) => at,
            None => {
                return self.proceed(0);
            },
        };
        let opened = self.koans.opened();
        proof {
            assert(koan_views(opened@).len() == opened@.len());
            if at < opened@.len() {
                assert(koan_views(opened@)[at as int] == opened@[at as int]@);
            }
        }
        if at >= opened.len() {
            return self.proceed(0);
        }
        match outcome {
            TestOutcome::Success => self.proceed(at + 1),
            TestOutcome::Failure { details } => {
                let failing_exercise = opened[at].clone();
                self.pending = None;
                Action::Report(RunOutcome::Blocked { failing_exercise, failure_details: details })
            },
        }
    }
}

} // verus!
