//! The per-service worker decision: evaluate one search against one
//! service's stop set and answer with exactly one event.

use vstd::prelude::*;
use crate::search::{Path, PathView, Search, SearchView};

verus! {

/// Mathematical value of a `Job`.
pub ghost enum JobView {
    Work(SearchView),
    Finish,
}

/// What the task manager sends to every worker: a search to evaluate, or the
/// order to shut down.
pub enum Job {
    Work(Search),
    Finish,
}

impl View for Job {
    type V = JobView;

    open spec fn view(&self) -> JobView {
        match self {
            Job::Work(s) => JobView::Work(s@),
            Job::Finish => JobView::Finish,
        }
    }
}

impl Clone for Job {
    fn clone(&self) -> (res: Self)
        ensures
            res@ == self@,
    {
        match self {
            Job::Work(s) => Job::Work(s.clone()),
            Job::Finish => Job::Finish,
        }
    }
}

/// Mathematical value of an `Event`.
#[verifier::ext_equal]
pub ghost enum EventView {
    Match(Seq<PathView>),
    Partial(Seq<SearchView>),
    Done(Seq<char>),
}

/// What a worker answers: a complete route, a batch of extended searches, or
/// the word that this service can contribute nothing to the search.
pub enum Event {
    Match(Vec<Path>),
    Partial(Vec<Search>),
    Done(String),
}

impl View for Event {
    type V = EventView;

    open spec fn view(&self) -> EventView {
        match self {
            Event::Match(ps) => EventView::Match(ps@.map_values(|p: Path| p@)),
            Event::Partial(ss) => EventView::Partial(ss@.map_values(|s: Search| s@)),
            Event::Done(n) => EventView::Done(n@),
        }
    }
}

/// Whether the itinerary has already travelled through the named service.
pub open spec fn used_service(s: SearchView, name: Seq<char>) -> bool {
    exists|i: int| 0 <= i < s.paths.len() && s.paths[i].service == name
}

/// Whether the itinerary has already touched the stop: as its frontier, its
/// destination, or either end of a hop taken.
pub open spec fn is_visited(s: SearchView, stop: Seq<char>) -> bool {
    ||| stop == s.from
    ||| stop == s.to
    ||| exists|i: int| 0 <= i < s.paths.len() && (s.paths[i].from == stop || s.paths[i].to == stop)
}

/// The itinerary extended by one hop from its frontier to `stop` through
/// `service`.
pub open spec fn child_search(s: SearchView, service: Seq<char>, stop: Seq<char>) -> SearchView {
    SearchView {
        from: stop,
        to: s.to,
        paths: s.paths.push(PathView { from: s.from, to: stop, service }),
    }
}

/// The stops of the list not yet visited by the itinerary, in list order.
pub open spec fn unvisited_stops(stops: Seq<Seq<char>>, s: SearchView) -> Seq<Seq<char>>
    decreases stops.len(),
{
    if stops.len() == 0 {
        Seq::empty()
    } else {
        let rest = unvisited_stops(stops.drop_last(), s);
        if !is_visited(s, stops.last()) {
            rest.push(stops.last())
        } else {
            rest
        }
    }
}

/// One extended search per unvisited stop, in stop-list order.
pub open spec fn partial_children(
    stops: Seq<Seq<char>>,
    s: SearchView,
    service: Seq<char>,
) -> Seq<SearchView> {
    unvisited_stops(stops, s).map_values(|stop: Seq<char>| child_search(s, service, stop))
}

/// The worker decision for one service over one search: a complete route when
/// the service covers both the frontier and the destination; otherwise a batch
/// of extended searches when the service is fresh, covers the frontier and
/// still has unvisited stops; otherwise no contribution.
pub open spec fn decide(name: Seq<char>, stops: Seq<Seq<char>>, s: SearchView) -> EventView {
    if stops.contains(s.from) && stops.contains(s.to) {
        EventView::Match(s.paths.push(PathView { from: s.from, to: s.to, service: name }))
    } else if !used_service(s, name) && stops.contains(s.from) && unvisited_stops(stops, s).len()
        > 0 {
        EventView::Partial(partial_children(stops, s, name))
    } else {
        EventView::Done(name)
    }
}

/// Whether a vector of strings holds this string's characters.
pub fn contains_string(v: &Vec<String>, x: &String) -> (b: bool)
    ensures
        b == v.deep_view().contains(x@),
{
    let mut i: usize = 0;
    while i < v.len()
        invariant
            i <= v@.len(),
            forall|j: int| 0 <= j < i ==> v@[j]@ != x@,
        decreases v@.len() - i,
    {
        if v[i] == *x {
            proof {
                assert(v.deep_view()[i as int] == x@);
            }
            return true;
        }
        i = i + 1;
    }
    proof {
        assert(forall|j: int| 0 <= j < v.deep_view().len() ==> v.deep_view()[j] != x@);
    }
    false
}

fn is_visited_exec(search: &Search, stop: &String) -> (b: bool)
    ensures
        b == is_visited(search@, stop@),
{
    if search.from == *stop {
        return true;
    }
    if search.to == *stop {
        return true;
    }
    let mut i: usize = 0;
    while i < search.paths.len()
        invariant
            i <= search.paths@.len(),
            forall|j: int|
                0 <= j < i ==> search@.paths[j].from != stop@ && search@.paths[j].to != stop@,
        decreases search.paths@.len() - i,
    {
        if search.paths[i].from == *stop || search.paths[i].to == *stop {
            proof {
                assert(search@.paths[i as int].from == stop@ || search@.paths[i as int].to
                    == stop@);
            }
            return true;
        }
        i = i + 1;
    }
    false
}

fn used_service_exec(search: &Search, name: &String) -> (b: bool)
    ensures
        b == used_service(search@, name@),
{
    let mut i: usize = 0;
    while i < search.paths.len()
        invariant
            i <= search.paths@.len(),
            forall|j: int| 0 <= j < i ==> search@.paths[j].service != name@,
        decreases search.paths@.len() - i,
    {
        if search.paths[i].service == *name {
            proof {
                assert(search@.paths[i as int].service == name@);
            }
            return true;
        }
        i = i + 1;
    }
    false
}

/// No service is travelled twice.
pub open spec fn distinct_services(paths: Seq<PathView>) -> bool {
    forall|i: int, j: int| 0 <= i < j < paths.len() ==> paths[i].service != paths[j].service
}

/// Every unvisited stop comes from the stop list and was indeed never visited.
pub proof fn lemma_unvisited_props(stops: Seq<Seq<char>>, s: SearchView)
    ensures
        forall|j: int|
            0 <= j < unvisited_stops(stops, s).len() ==> stops.contains(
                #[trigger] unvisited_stops(stops, s)[j],
            ) && !is_visited(s, unvisited_stops(stops, s)[j]),
    decreases stops.len(),
{
    if stops.len() > 0 {
        let u = unvisited_stops(stops, s);
        let prev = unvisited_stops(stops.drop_last(), s);
        lemma_unvisited_props(stops.drop_last(), s);
        assert forall|j: int| 0 <= j < u.len() implies stops.contains(u[j]) && !is_visited(
            s,
            u[j],
        ) by {
            if j < prev.len() {
                assert(u[j] == prev[j]);
                assert(stops.drop_last().contains(prev[j]));
                let i = choose|i: int|
                    0 <= i < stops.drop_last().len() && stops.drop_last()[i] == prev[j];
                assert(stops[i] == u[j]);
            } else {
                assert(u[j] == stops.last());
                assert(stops[stops.len() - 1] == u[j]);
            }
        }
    }
}

/// No batched child search reuses a stop its parent already visited.
pub proof fn lemma_partial_children_fresh(name: Seq<char>, stops: Seq<Seq<char>>, s: SearchView)
    ensures
        decide(name, stops, s) matches EventView::Partial(ss) ==> forall|j: int|
            0 <= j < ss.len() ==> !is_visited(s, (#[trigger] ss[j]).from),
{
    lemma_unvisited_props(stops, s);
    if let EventView::Partial(ss) = decide(name, stops, s) {
        assert forall|j: int| 0 <= j < ss.len() implies !is_visited(s, (#[trigger] ss[j]).from) by {
            assert(ss[j] == child_search(s, name, unvisited_stops(stops, s)[j]));
        }
    }
}

/// A child search of a parent that repeats no service repeats none either.
pub proof fn lemma_partial_children_distinct_services(
    name: Seq<char>,
    stops: Seq<Seq<char>>,
    s: SearchView,
)
    requires
        distinct_services(s.paths),
    ensures
        decide(name, stops, s) matches EventView::Partial(ss) ==> forall|j: int|
            0 <= j < ss.len() ==> distinct_services((#[trigger] ss[j]).paths),
{
    if let EventView::Partial(ss) = decide(name, stops, s) {
        assert(!used_service(s, name));
        assert forall|j: int| 0 <= j < ss.len() implies distinct_services(
            (#[trigger] ss[j]).paths,
        ) by {
            assert(ss[j] == child_search(s, name, unvisited_stops(stops, s)[j]));
            let ps = ss[j].paths;
            assert forall|a: int, b: int| 0 <= a < b < ps.len() implies ps[a].service
                != ps[b].service by {
                if b < s.paths.len() {
                    assert(ps[a] == s.paths[a] && ps[b] == s.paths[b]);
                } else {
                    assert(ps[a] == s.paths[a]);
                    assert(ps[b].service == name);
                    if ps[a].service == name {
                        assert(used_service(s, name));
                    }
                }
            }
        }
    }
}

/// Evaluates one search against one service and returns the one event the
/// worker owes for it.
#[verifier::loop_isolation(false)]
pub fn evaluate(name: &String, stops: &Vec<String>, search: &Search) -> (ev: Event)
    ensures
        ev@ == decide(name@, stops.deep_view(), search@),
{
    let has_from = contains_string(stops, &search.from);
    let has_to = contains_string(stops, &search.to);
    if has_from && has_to {
        let path = Path::new(search.from.clone(), search.to.clone(), name.clone());
        let ev = Event::Match(search.add_path(path).paths);
        proof {
            assert(ev@ =~= decide(name@, stops.deep_view(), search@));
        }
        return ev;
    }
    let ghost all = stops.deep_view();
    let mut tos: Vec<String> = Vec::new();
    let mut i: usize = 0;
    while i < stops.len()
        invariant
            i <= stops@.len(),
            tos@.map_values(|t: String| t@) =~= unvisited_stops(
                all.take(i as int),
                search@,
            ),
        decreases stops@.len() - i,
    {
        proof {
            assert(all.take(i + 1 as int).drop_last() =~= all.take(i as int));
            assert(all.take(i + 1 as int).last() == stops@[i as int]@);
        }
        let ghost prev = tos@.map_values(|t: String| t@);
        if !is_visited_exec(search, &stops[i]) {
            tos.push(stops[i].clone());
            proof {
                assert(tos@.map_values(|t: String| t@) =~= prev.push(stops@[i as int]@));
            }
        }
        i = i + 1;
    }
    proof {
        assert(all.take(stops@.len() as int) =~= all);
    }
    let used = used_service_exec(search, name);
    if !used && has_from && tos.len() > 0 {
        let mut children: Vec<Search> = Vec::new();
        let mut k: usize = 0;
        while k < tos.len()
            invariant
                k <= tos@.len(),
                children@.len() == k,
                forall|j: int|
                    0 <= j < k ==> children@[j]@ =~= child_search(search@, name@, tos@[j]@),
            decreases tos@.len() - k,
        {
            let path = Path::new(search.from.clone(), tos[k].clone(), name.clone());
            children.push(search.add_path(path));
            proof {
                assert(children@.last()@ =~= child_search(search@, name@, tos@[k as int]@));
            }
            k = k + 1;
        }
        let ev = Event::Partial(children);
        proof {
            assert(ev@ =~= decide(name@, stops.deep_view(), search@));
        }
        ev
    } else {
        Event::Done(name.clone())
    }
}

} // verus!
