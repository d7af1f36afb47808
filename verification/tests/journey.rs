use koans::catalog::Entry;
use koans::driver::{Action, Driver, RunOutcome, TestOutcome};
use koans::KoanCollection;

fn directory(name: &str, files: &[&str]) -> Entry {
    Entry::Directory {
        name: name.to_string(),
        files: files.iter().map(|file| file.to_string()).collect(),
    }
}

fn journey(marker: &str) -> Driver {
    let listing = vec![
        directory("08_goodbye", &["00_goodbye.rs"]),
        directory("03_k_means", &["00_the_plan.rs"]),
        directory("00_greetings", &["00_greetings.rs"]),
    ];
    let koans =
        KoanCollection::new("src/koans", "src/path_to_enlightenment.rs", &listing, marker.to_string())
            .unwrap();
    Driver::new(koans)
}

fn walk(driver: &mut Driver) -> RunOutcome {
    let mut action = driver.start();
    loop {
        match action {
            Action::Test { .. } => action = driver.tested(TestOutcome::Success),
            Action::Report(outcome) => return outcome,
        }
    }
}

#[test]
fn the_beginning_of_your_journey() {
    let mut driver = journey("");
    let i_am_ready_to_start = match walk(&mut driver) {
        RunOutcome::Advanced { exercise } => exercise.qualified_name() == "00_greetings/00_greetings",
        _ => false,
    };

    assert!(i_am_ready_to_start);
}

#[test]
fn the_plan() {
    let mut driver = journey("00_greetings/00_greetings\n");
    let i_am_ready_to_start = match walk(&mut driver) {
        RunOutcome::Advanced { exercise } => exercise.qualified_name() == "03_k_means/00_the_plan",
        _ => false,
    };

    assert!(i_am_ready_to_start);
}

#[test]
fn the_end_of_your_journey() {
    let mut driver = journey(
        "00_greetings/00_greetings\n03_k_means/00_the_plan\n08_goodbye/00_goodbye\n",
    );
    let i_made_it = walk(&mut driver) == RunOutcome::AllComplete;

    assert!(i_made_it);
}
