use pathfinder::dispatch::MultiTaskSender;
use pathfinder::increment_all;
use pathfinder::manager::render_route;
use pathfinder::search::{Path, Search};
use pathfinder::string_vec;
use pathfinder::tracker::SearchTracker;
use pathfinder::worker::{evaluate, Event};

#[test]
fn path_renders_one_hop() {
    let p = Path::new("A".to_string(), "B".to_string(), "S1".to_string());
    assert_eq!(p.to_string(), "A--S1-->B");
}

#[test]
fn add_path_moves_frontier_and_appends_one_hop() {
    let s = Search::new("A".to_string(), "B".to_string());
    let extended = s.add_path(Path::new("A".to_string(), "C".to_string(), "S2".to_string()));
    assert_eq!(extended.from, "C");
    assert_eq!(extended.to, "B");
    assert_eq!(extended.paths.len(), s.paths.len() + 1);
    assert_eq!(extended.paths[0].service, "S2");
    // the original search is untouched
    assert_eq!(s.from, "A");
    assert_eq!(s.paths.len(), 0);
}

#[test]
fn search_lists_services_and_stops_in_order() {
    let s = Search::new("A".to_string(), "B".to_string())
        .add_path(Path::new("A".to_string(), "C".to_string(), "S2".to_string()))
        .add_path(Path::new("C".to_string(), "D".to_string(), "S3".to_string()));
    assert_eq!(s.services(), vec!["S2".to_string(), "S3".to_string()]);
    assert_eq!(
        s.stops(),
        string_vec(&["D", "B", "A", "C", "C", "D"])
    );
}

#[test]
fn tracker_counts_one_round_trip() {
    let names = string_vec(&["S1", "S2"]);
    let mut tracker = SearchTracker::new(&names);
    assert!(tracker.is_done());
    tracker.add_search();
    assert!(!tracker.is_done());
    assert_eq!(tracker.count(&"S1".to_string()), Some(1));
    assert_eq!(tracker.count(&"S2".to_string()), Some(1));
    assert_eq!(tracker.count(&"S9".to_string()), None);
    tracker.mark_done("S1".to_string());
    assert!(!tracker.is_done());
    tracker.mark_done("S2".to_string());
    assert!(tracker.is_done());
    assert_eq!(tracker.count(&"S1".to_string()), Some(0));
}

#[test]
fn worker_matches_when_it_covers_frontier_and_destination() {
    let stops = string_vec(&["A", "B"]);
    let search = Search::new("A".to_string(), "B".to_string());
    match evaluate(&"S1".to_string(), &stops, &search) {
        Event::Match(paths) => {
            assert_eq!(paths.len(), 1);
            assert_eq!(paths[0].from, "A");
            assert_eq!(paths[0].to, "B");
            assert_eq!(paths[0].service, "S1");
        }
        _ => panic!("expected a match"),
    }
}

#[test]
fn worker_expands_to_unvisited_stops_only() {
    let stops = string_vec(&["A", "B", "C", "D"]);
    let search = Search::new("A".to_string(), "E".to_string())
        .add_path(Path::new("A".to_string(), "B".to_string(), "S9".to_string()));
    // frontier B is covered, E is not; A and B are visited, C and D are not
    match evaluate(&"S1".to_string(), &stops, &search) {
        Event::Partial(children) => {
            assert_eq!(children.len(), 2);
            assert_eq!(children[0].from, "C");
            assert_eq!(children[1].from, "D");
            for child in &children {
                assert_eq!(child.to, "E");
                assert_eq!(child.paths.len(), 2);
                assert_eq!(child.paths[1].from, "B");
                assert_eq!(child.paths[1].service, "S1");
            }
        }
        _ => panic!("expected a batch of child searches"),
    }
}

#[test]
fn worker_reports_done_when_it_cannot_help() {
    let stops = string_vec(&["C", "D"]);
    let search = Search::new("A".to_string(), "B".to_string());
    match evaluate(&"S1".to_string(), &stops, &search) {
        Event::Done(name) => assert_eq!(name, "S1"),
        _ => panic!("expected done"),
    }
}

#[test]
fn worker_does_not_reuse_its_own_service() {
    let stops = string_vec(&["A", "B", "C"]);
    let search = Search::new("A".to_string(), "Z".to_string())
        .add_path(Path::new("A".to_string(), "B".to_string(), "S1".to_string()));
    // S1 covers the frontier B and has unvisited stop C, but was already used
    match evaluate(&"S1".to_string(), &stops, &search) {
        Event::Done(name) => assert_eq!(name, "S1"),
        _ => panic!("expected done"),
    }
}

#[test]
fn render_joins_hops_through_shared_stops() {
    let paths = vec![
        Path::new("A".to_string(), "C".to_string(), "S2".to_string()),
        Path::new("C".to_string(), "D".to_string(), "S3".to_string()),
        Path::new("D".to_string(), "B".to_string(), "S4".to_string()),
    ];
    assert_eq!(render_route(&paths), "A--S2-->C--S3-->D--S4-->B");
}

#[test]
fn broadcast_reaches_every_channel() {
    let (tx1, rx1) = std::sync::mpsc::channel::<u64>();
    let (tx2, rx2) = std::sync::mpsc::channel::<u64>();
    let mut sender: MultiTaskSender<u64> = MultiTaskSender::new();
    sender.add_sender(tx1);
    sender.add_sender(tx2);
    sender.send(7);
    sender.send(9);
    assert_eq!(rx1.recv(), Ok(7));
    assert_eq!(rx2.recv(), Ok(7));
    assert_eq!(rx1.recv(), Ok(9));
    assert_eq!(rx2.recv(), Ok(9));
}

#[test]
fn increment_all_adds_one_to_each() {
    let mut numbers = vec![1usize, 2, 3];
    increment_all(&mut numbers);
    assert_eq!(numbers, vec![2usize, 3, 4]);
}

#[test]
fn string_vec_keeps_order() {
    assert_eq!(
        string_vec(&["x", "y"]),
        vec!["x".to_string(), "y".to_string()]
    );
}
