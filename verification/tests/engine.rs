use pathfinder::manager::TaskManager;
use pathfinder::search::Search;
use pathfinder::string_vec;
use pathfinder::worker::Job;

fn registry(entries: &[(&str, &[&str])]) -> Vec<(String, Vec<String>)> {
    let mut v: Vec<(String, Vec<String>)> = Vec::new();
    for (name, stops) in entries {
        v.push((name.to_string(), string_vec(stops)));
    }
    v
}

fn run_engine(entries: &[(&str, &[&str])], origin: &str, dest: &str) -> Vec<String> {
    let mut manager = TaskManager::new(registry(entries));
    manager.run(Job::Work(Search::new(origin.to_string(), dest.to_string())))
}

fn sorted(mut v: Vec<String>) -> Vec<String> {
    v.sort();
    v
}

#[test]
fn finds_direct_and_chained_routes() {
    let results = run_engine(
        &[
            ("S1", &["A", "B"]),
            ("S2", &["A", "C"]),
            ("S3", &["C", "D", "E", "F"]),
            ("S4", &["D", "B"]),
        ],
        "A",
        "B",
    );
    assert_eq!(
        sorted(results),
        vec![
            "A--S1-->B".to_string(),
            "A--S2-->C--S3-->D--S4-->B".to_string(),
        ]
    );
}

#[test]
fn single_service_covering_both_ends_gives_exactly_one_match() {
    let results = run_engine(&[("S1", &["A", "B"])], "A", "B");
    assert_eq!(results, vec!["A--S1-->B".to_string()]);
}

#[test]
fn no_connection_terminates_with_zero_matches() {
    let results = run_engine(&[("S1", &["A", "C"]), ("S2", &["D", "B"])], "A", "B");
    assert_eq!(results, Vec::<String>::new());
}

#[test]
fn same_input_twice_yields_same_set_of_routes() {
    let entries: &[(&str, &[&str])] = &[
        ("S1", &["A", "B"]),
        ("S2", &["A", "C"]),
        ("S3", &["C", "D", "E", "F"]),
        ("S4", &["D", "B"]),
    ];
    let first = run_engine(entries, "A", "B");
    let second = run_engine(entries, "A", "B");
    assert_eq!(sorted(first), sorted(second));
}

#[test]
fn finish_job_reports_nothing() {
    let mut manager = TaskManager::new(registry(&[("S1", &["A", "B"])]));
    let results = manager.run(Job::Finish);
    assert_eq!(results, Vec::<String>::new());
}

#[test]
fn no_service_is_used_twice_on_one_route() {
    // S2 alone could shuttle back and forth; a route may use it only once.
    let results = run_engine(
        &[("S1", &["A", "C"]), ("S2", &["C", "D", "E"]), ("S3", &["E", "B"])],
        "A",
        "B",
    );
    assert_eq!(
        sorted(results),
        vec!["A--S1-->C--S2-->E--S3-->B".to_string()]
    );
}

#[test]
fn empty_registry_is_quiescent_at_once() {
    let results = run_engine(&[], "A", "B");
    assert_eq!(results, Vec::<String>::new());
}
