//! The task manager: broadcasts jobs, consumes events, tracks quiescence and
//! collects completed routes.

use vstd::prelude::*;
use vstd::string::StringExecFns;
use crate::search::{Path, PathView, Search, SearchView};
use crate::tracker::SearchTracker;
use crate::worker::{
    decide, evaluate, used_service, unvisited_stops, partial_children, child_search,
    distinct_services, lemma_unvisited_props, Event, EventView, Job, JobView,
};

verus! {

/// The registry as a mathematical value: one (service name, stop names) pair
/// per service, in registration order.
pub type Registry = Seq<(Seq<char>, Seq<Seq<char>>)>;

/// The registry value of a service vector.
pub open spec fn registry_of(services: Seq<(String, Vec<String>)>) -> Registry {
    services.map_values(|e: (String, Vec<String>)| (e.0@, e.1.deep_view()))
}

/// No service name occurs twice.
pub open spec fn registry_distinct(reg: Registry) -> bool {
    forall|i: int, j: int| 0 <= i < j < reg.len() ==> reg[i].0 != reg[j].0
}

/// Whether a service of this name is registered.
pub open spec fn is_service(reg: Registry, name: Seq<char>) -> bool {
    exists|i: int| 0 <= i < reg.len() && reg[i].0 == name
}

/// Whether the named service covers the stop.
pub open spec fn service_covers(reg: Registry, name: Seq<char>, stop: Seq<char>) -> bool {
    exists|i: int| 0 <= i < reg.len() && reg[i].0 == name && reg[i].1.contains(stop)
}

/// The registration slot of a service name: the first index holding it.
pub open spec fn slot_of(reg: Registry, name: Seq<char>) -> int
    decreases reg.len(),
{
    if reg.len() == 0 {
        0
    } else if reg[0].0 == name {
        0
    } else {
        1 + slot_of(reg.drop_first(), name)
    }
}

proof fn lemma_slot_of_unique(reg: Registry, name: Seq<char>, k: int)
    requires
        registry_distinct(reg),
        0 <= k < reg.len(),
        reg[k].0 == name,
    ensures
        slot_of(reg, name) == k,
    decreases reg.len(),
{
    if k > 0 {
        assert(reg[0].0 != name);
        lemma_slot_of_unique(reg.drop_first(), name, k - 1);
    }
}

/// The service that produced an event: the service of the last path of a
/// match, of the last path of the last search of a batch, or the name itself.
pub open spec fn origin_of(e: EventView) -> Seq<char> {
    match e {
        EventView::Match(ps) => ps.last().service,
        EventView::Partial(ss) => ss.last().paths.last().service,
        EventView::Done(n) => n,
    }
}

/// The hops form an unbroken chain from `origin` to `frontier`.
pub open spec fn chained(paths: Seq<PathView>, origin: Seq<char>, frontier: Seq<char>) -> bool {
    &&& (paths.len() == 0 ==> frontier == origin)
    &&& (paths.len() > 0 ==> paths[0].from == origin && paths.last().to == frontier)
    &&& (forall|i: int| 1 <= i < paths.len() ==> paths[i].from == paths[i - 1].to)
}

/// The hop travels through a registered service covering both its ends.
pub open spec fn hop_ok(reg: Registry, p: PathView) -> bool {
    exists|k: int|
        0 <= k < reg.len() && reg[k].0 == p.service && reg[k].1.contains(p.from)
            && reg[k].1.contains(p.to)
}

/// The destinations of the hops, in travel order.
pub open spec fn tos_of(ps: Seq<PathView>) -> Seq<Seq<char>> {
    ps.map_values(|p: PathView| p.to)
}

/// A live search of the run from `origin` to `dest`: it aims at `dest`, its
/// hops chain from `origin` to its frontier through registered services, no
/// service repeats, no hop arrives at a stop some hop arrived at before, and
/// no service used so far covers the destination.
pub open spec fn search_ok(s: SearchView, origin: Seq<char>, dest: Seq<char>, reg: Registry) -> bool {
    &&& s.to == dest
    &&& chained(s.paths, origin, s.from)
    &&& distinct_services(s.paths)
    &&& tos_of(s.paths).no_duplicates()
    &&& (forall|i: int| 0 <= i < s.paths.len() ==> hop_ok(reg, #[trigger] s.paths[i]))
    &&& (forall|i: int|
        0 <= i < s.paths.len() ==> !service_covers(reg, (#[trigger] s.paths[i]).service, dest))
}

/// A complete route from `origin` to `dest`: at least one hop, chained all the
/// way, each hop through a registered service, no service twice.
pub open spec fn route_ok(ps: Seq<PathView>, origin: Seq<char>, dest: Seq<char>, reg: Registry) -> bool {
    &&& ps.len() > 0
    &&& chained(ps, origin, dest)
    &&& distinct_services(ps)
    &&& (forall|i: int| 0 <= i < ps.len() ==> hop_ok(reg, #[trigger] ps[i]))
}

/// A well-formed event of the run from `origin` to `dest`.
pub open spec fn event_ok(e: EventView, origin: Seq<char>, dest: Seq<char>, reg: Registry) -> bool {
    &&& match e {
        EventView::Match(ps) => route_ok(ps, origin, dest, reg),
        EventView::Partial(ss) => {
            &&& ss.len() > 0
            &&& (forall|j: int|
                0 <= j < ss.len() ==> search_ok(#[trigger] ss[j], origin, dest, reg))
            &&& (forall|j: int| 0 <= j < ss.len() ==> (#[trigger] ss[j]).paths.len() > 0)
            &&& (forall|j: int|
                0 <= j < ss.len() ==> (#[trigger] ss[j]).paths.last().service == origin_of(e))
        },
        EventView::Done(n) => true,
    }
    &&& is_service(reg, origin_of(e))
}

/// How many queued events the named service produced.
pub open spec fn count_from(q: Seq<EventView>, name: Seq<char>) -> int
    decreases q.len(),
{
    if q.len() == 0 {
        0
    } else {
        (if origin_of(q[0]) == name {
            1int
        } else {
            0int
        }) + count_from(q.drop_first(), name)
    }
}

pub proof fn lemma_count_from_bounds(q: Seq<EventView>, name: Seq<char>)
    ensures
        0 <= count_from(q, name) <= q.len(),
    decreases q.len(),
{
    if q.len() > 0 {
        lemma_count_from_bounds(q.drop_first(), name);
    }
}

pub proof fn lemma_count_from_concat(q1: Seq<EventView>, q2: Seq<EventView>, name: Seq<char>)
    ensures
        count_from(q1 + q2, name) == count_from(q1, name) + count_from(q2, name),
    decreases q1.len(),
{
    if q1.len() == 0 {
        assert(q1 + q2 =~= q2);
    } else {
        assert((q1 + q2).drop_first() =~= q1.drop_first() + q2);
        lemma_count_from_concat(q1.drop_first(), q2, name);
    }
}

/// The events a broadcast of one search produces: one per service, in
/// registration order, each the decision of its worker.
pub open spec fn events_of(reg: Registry, s: SearchView) -> Seq<EventView> {
    reg.map_values(|e: (Seq<char>, Seq<Seq<char>>)| decide(e.0, e.1, s))
}

/// The shape the worker decision guarantees: the event names its service as
/// origin, a match carries at least one hop, and a batch carries at least one
/// search, each with at least one hop, all hopped last through this service.
pub proof fn lemma_decide_origin(name: Seq<char>, stops: Seq<Seq<char>>, s: SearchView)
    ensures
        origin_of(decide(name, stops, s)) == name,
        decide(name, stops, s) matches EventView::Match(ps) ==> ps.len() > 0,
        decide(name, stops, s) matches EventView::Partial(ss) ==> ss.len() > 0 && (forall|j: int|
            0 <= j < ss.len() ==> (#[trigger] ss[j]).paths.len() > 0 && ss[j].paths.last().service
                == name),
{
    let e = decide(name, stops, s);
    if stops.contains(s.from) && stops.contains(s.to) {
    } else if !used_service(s, name) && stops.contains(s.from) && unvisited_stops(stops, s).len()
        > 0 {
        let ss = partial_children(stops, s, name);
        assert(forall|j: int|
            0 <= j < ss.len() ==> ss[j] == child_search(s, name, unvisited_stops(stops, s)[j]));
        assert(origin_of(e) == name);
    } else {
    }
}

pub proof fn lemma_count_from_events(reg: Registry, s: SearchView, name: Seq<char>)
    requires
        registry_distinct(reg),
    ensures
        count_from(events_of(reg, s), name) == if is_service(reg, name) {
            1int
        } else {
            0int
        },
    decreases reg.len(),
{
    if reg.len() == 0 {
    } else {
        let evs = events_of(reg, s);
        lemma_decide_origin(reg[0].0, reg[0].1, s);
        assert(origin_of(evs[0]) == reg[0].0);
        assert(evs.drop_first() =~= events_of(reg.drop_first(), s));
        lemma_count_from_events(reg.drop_first(), s, name);
        if reg[0].0 == name {
            assert(!is_service(reg.drop_first(), name));
            assert(is_service(reg, name));
        } else {
            if is_service(reg.drop_first(), name) {
                let i = choose|i: int|
                    0 <= i < reg.drop_first().len() && reg.drop_first()[i].0 == name;
                assert(reg[i + 1].0 == name);
            }
            if is_service(reg, name) {
                let i = choose|i: int| 0 <= i < reg.len() && reg[i].0 == name;
                assert(reg.drop_first()[i - 1].0 == name);
            }
        }
    }
}

/// The worker decision on a live search yields a well-formed event.
pub proof fn lemma_decide_event_ok(
    reg: Registry,
    k: int,
    s: SearchView,
    origin: Seq<char>,
    dest: Seq<char>,
)
    requires
        registry_distinct(reg),
        0 <= k < reg.len(),
        search_ok(s, origin, dest, reg),
    ensures
        event_ok(decide(reg[k].0, reg[k].1, s), origin, dest, reg),
{
    let name = reg[k].0;
    let stops = reg[k].1;
    let e = decide(name, stops, s);
    lemma_decide_origin(name, stops, s);
    if stops.contains(s.from) && stops.contains(s.to) {
        let hop = PathView { from: s.from, to: s.to, service: name };
        let ps = s.paths.push(hop);
        assert(chained(ps, origin, dest)) by {
            assert(ps[0].from == origin);
            assert forall|i: int| 1 <= i < ps.len() implies ps[i].from == ps[i - 1].to by {
                if i < s.paths.len() {
                    assert(ps[i] == s.paths[i] && ps[i - 1] == s.paths[i - 1]);
                } else {
                    assert(ps[i] == hop);
                    if s.paths.len() > 0 {
                        assert(ps[i - 1] == s.paths[s.paths.len() - 1]);
                    }
                }
            }
        }
        assert(distinct_services(ps)) by {
            assert forall|a: int, b: int| 0 <= a < b < ps.len() implies ps[a].service
                != ps[b].service by {
                if b < s.paths.len() {
                    assert(ps[a] == s.paths[a] && ps[b] == s.paths[b]);
                } else {
                    assert(ps[a] == s.paths[a]);
                    if ps[a].service == name {
                        assert(service_covers(reg, s.paths[a].service, dest));
                    }
                }
            }
        }
        assert(forall|i: int| 0 <= i < ps.len() ==> hop_ok(reg, #[trigger] ps[i])) by {
            assert(hop_ok(reg, hop));
            assert(forall|i: int| 0 <= i < s.paths.len() ==> ps[i] == s.paths[i]);
        }
    } else if !used_service(s, name) && stops.contains(s.from) && unvisited_stops(stops, s).len()
        > 0 {
        let ss = partial_children(stops, s, name);
        lemma_unvisited_props(stops, s);
        assert(!stops.contains(s.to));
        assert(!service_covers(reg, name, dest)) by {
            if service_covers(reg, name, dest) {
                let k2 = choose|k2: int|
                    0 <= k2 < reg.len() && reg[k2].0 == name && reg[k2].1.contains(dest);
                assert(k2 == k);
            }
        }
        assert forall|j: int| 0 <= j < ss.len() implies search_ok(
            #[trigger] ss[j],
            origin,
            dest,
            reg,
        ) by {
            let stop = unvisited_stops(stops, s)[j];
            assert(ss[j] == child_search(s, name, stop));
            let hop = PathView { from: s.from, to: stop, service: name };
            let ps = ss[j].paths;
            assert(ps == s.paths.push(hop));
            assert(chained(ps, origin, stop)) by {
                assert(ps[0].from == origin);
                assert forall|i: int| 1 <= i < ps.len() implies ps[i].from == ps[i - 1].to by {
                    if i < s.paths.len() {
                        assert(ps[i] == s.paths[i] && ps[i - 1] == s.paths[i - 1]);
                    } else {
                        assert(ps[i] == hop);
                        if s.paths.len() > 0 {
                            assert(ps[i - 1] == s.paths[s.paths.len() - 1]);
                        }
                    }
                }
            }
            assert(distinct_services(ps)) by {
                assert forall|a: int, b: int| 0 <= a < b < ps.len() implies ps[a].service
                    != ps[b].service by {
                    if b < s.paths.len() {
                        assert(ps[a] == s.paths[a] && ps[b] == s.paths[b]);
                    } else {
                        assert(ps[a] == s.paths[a]);
                        if ps[a].service == name {
                            assert(used_service(s, name));
                        }
                    }
                }
            }
            assert(stops.contains(stop) && !crate::worker::is_visited(s, stop));
            assert(tos_of(ps).no_duplicates()) by {
                assert forall|a: int, b: int|
                    0 <= a < b < tos_of(ps).len() implies tos_of(ps)[a] != tos_of(ps)[b] by {
                    if b < s.paths.len() {
                        assert(tos_of(ps)[a] == tos_of(s.paths)[a]);
                        assert(tos_of(ps)[b] == tos_of(s.paths)[b]);
                    } else {
                        assert(ps[a] == s.paths[a]);
                        assert(tos_of(ps)[b] == stop);
                        assert(!crate::worker::is_visited(s, stop));
                    }
                }
            }
            assert(hop_ok(reg, hop));
            assert(forall|i: int| 0 <= i < s.paths.len() ==> ps[i] == s.paths[i]);
            assert(forall|i: int| 0 <= i < ps.len() ==> hop_ok(reg, #[trigger] ps[i]));
            assert(forall|i: int|
                0 <= i < ps.len() ==> !service_covers(reg, (#[trigger] ps[i]).service, dest));
        }
    } else {
    }
}

/// The rendered suffix of a hop list: `--<service>--><to>` for each hop.
pub open spec fn hops_rendered(ps: Seq<PathView>) -> Seq<char>
    decreases ps.len(),
{
    if ps.len() == 0 {
        Seq::empty()
    } else {
        hops_rendered(ps.drop_last()) + "--"@ + ps.last().service + "-->"@ + ps.last().to
    }
}

/// The route line reported for a complete match:
/// `<origin>--<service1>--><stop1>--<service2>--><stop2>...`.
pub open spec fn route_string(ps: Seq<PathView>) -> Seq<char>
    recommends
        ps.len() > 0,
{
    ps[0].from + hops_rendered(ps)
}

/// Renders a non-empty chain of hops as one route line.
#[verifier::loop_isolation(false)]
pub fn render_route(paths: &Vec<Path>) -> (s: String)
    requires
        paths@.len() > 0,
    ensures
        s@ == route_string(paths@.map_values(|p: Path| p@)),
{
    let ghost ps = paths@.map_values(|p: Path| p@);
    let mut s = paths[0].from.clone();
    let mut i: usize = 0;
    while i < paths.len()
        invariant
            i <= ps.len(),
            s@ == ps[0].from + hops_rendered(ps.take(i as int)),
        decreases ps.len() - i,
    {
        proof {
            assert(ps.take(i + 1 as int).drop_last() =~= ps.take(i as int));
            assert(ps.take(i + 1 as int).last() == ps[i as int]);
        }
        s.append("--");
        s.append(paths[i].service.as_str());
        s.append("-->");
        s.append(paths[i].to.as_str());
        i = i + 1;
    }
    proof {
        assert(ps.take(ps.len() as int) =~= ps);
    }
    s
}

/// One abstract state of a run: the pending events, the per-slot outstanding
/// counters, and the route lines reported so far.
#[verifier::ext_equal]
pub ghost struct Config {
    pub queue: Seq<EventView>,
    pub counts: Seq<int>,
    pub results: Seq<Seq<char>>,
}

/// Every counter of the registered services is down to zero.
pub open spec fn quiescent_cfg(c: Config) -> bool {
    forall|i: int| 0 <= i < c.counts.len() ==> c.counts[i] == 0
}

/// The counters after the named service completed one response.
pub open spec fn counts_decremented(reg: Registry, counts: Seq<int>, name: Seq<char>) -> Seq<int> {
    counts.update(slot_of(reg, name), counts[slot_of(reg, name)] - 1)
}

/// Broadcasting one search: every counter goes up by one and every service
/// queues its decision.
pub open spec fn dispatch_one(reg: Registry, c: Config, s: SearchView) -> Config {
    Config {
        queue: c.queue + events_of(reg, s),
        counts: c.counts.map_values(|n: int| n + 1),
        results: c.results,
    }
}

/// Broadcasting a batch of searches, first to last.
pub open spec fn dispatch_list(reg: Registry, c: Config, ss: Seq<SearchView>) -> Config
    decreases ss.len(),
{
    if ss.len() == 0 {
        c
    } else {
        dispatch_list(reg, dispatch_one(reg, c, ss[0]), ss.drop_first())
    }
}

pub proof fn lemma_dispatch_list_push(reg: Registry, c: Config, ss: Seq<SearchView>, x: SearchView)
    ensures
        dispatch_list(reg, c, ss.push(x)) == dispatch_one(reg, dispatch_list(reg, c, ss), x),
    decreases ss.len(),
{
    if ss.len() == 0 {
        assert(ss.push(x)[0] == x);
        assert(ss.push(x).drop_first() =~= Seq::<SearchView>::empty());
        assert(dispatch_list(reg, c, ss.push(x)) == dispatch_list(
            reg,
            dispatch_one(reg, c, x),
            Seq::<SearchView>::empty(),
        ));
        assert(dispatch_list(reg, dispatch_one(reg, c, x), Seq::<SearchView>::empty())
            == dispatch_one(reg, c, x));
        assert(dispatch_list(reg, c, ss) == c);
    } else {
        assert(ss.push(x)[0] == ss[0]);
        assert(ss.push(x).drop_first() =~= ss.drop_first().push(x));
        lemma_dispatch_list_push(reg, dispatch_one(reg, c, ss[0]), ss.drop_first(), x);
        assert(dispatch_list(reg, c, ss.push(x)) == dispatch_list(
            reg,
            dispatch_one(reg, c, ss[0]),
            ss.drop_first().push(x),
        ));
        assert(dispatch_list(reg, c, ss) == dispatch_list(
            reg,
            dispatch_one(reg, c, ss[0]),
            ss.drop_first(),
        ));
    }
}

/// Consuming the next pending event: complete it towards its origin's counter,
/// then report the route of a match or broadcast the children of a batch.
pub open spec fn step(reg: Registry, c: Config) -> Config {
    if c.queue.len() == 0 {
        c
    } else {
        let e = c.queue[0];
        let rest = c.queue.drop_first();
        let dec = counts_decremented(reg, c.counts, origin_of(e));
        match e {
            EventView::Match(ps) => Config {
                queue: rest,
                counts: dec,
                results: c.results.push(route_string(ps)),
            },
            EventView::Partial(ss) => dispatch_list(
                reg,
                Config { queue: rest, counts: dec, results: c.results },
                ss,
            ),
            EventView::Done(n) => Config { queue: rest, counts: dec, results: c.results },
        }
    }
}

/// The abstract state after `n` consumed events.
pub open spec fn iterate(reg: Registry, c0: Config, n: nat) -> Config
    decreases n,
{
    if n == 0 {
        c0
    } else {
        step(reg, iterate(reg, c0, (n - 1) as nat))
    }
}

/// The state right after the initial search was broadcast.
pub open spec fn initial_config(reg: Registry, origin: Seq<char>, dest: Seq<char>) -> Config {
    dispatch_one(
        reg,
        Config {
            queue: Seq::empty(),
            counts: Seq::new(reg.len(), |i: int| 0int),
            results: Seq::empty(),
        },
        SearchView { from: origin, to: dest, paths: Seq::empty() },
    )
}

/// A run is deterministic: two runs over the same registry, origin and
/// destination stop after the same number of events and report the same route
/// lines in the same order, hence the same set of route lines.
pub proof fn lemma_run_deterministic(
    reg: Registry,
    origin: Seq<char>,
    dest: Seq<char>,
    n1: nat,
    r1: Seq<Seq<char>>,
    n2: nat,
    r2: Seq<Seq<char>>,
)
    requires
        quiescent_cfg(iterate(reg, initial_config(reg, origin, dest), n1)),
        forall|m: nat| m < n1 ==> !quiescent_cfg(iterate(reg, initial_config(reg, origin, dest), m)),
        r1 == iterate(reg, initial_config(reg, origin, dest), n1).results,
        quiescent_cfg(iterate(reg, initial_config(reg, origin, dest), n2)),
        forall|m: nat| m < n2 ==> !quiescent_cfg(iterate(reg, initial_config(reg, origin, dest), m)),
        r2 == iterate(reg, initial_config(reg, origin, dest), n2).results,
    ensures
        n1 == n2,
        r1 == r2,
        r1.to_set() == r2.to_set(),
{
    if n1 < n2 {
        assert(!quiescent_cfg(iterate(reg, initial_config(reg, origin, dest), n1)));
    } else if n2 < n1 {
        assert(!quiescent_cfg(iterate(reg, initial_config(reg, origin, dest), n2)));
    }
}

/// The shape the manager needs of every pending event to look up its origin.
pub open spec fn event_shape(e: EventView) -> bool {
    match e {
        EventView::Match(ps) => ps.len() > 0,
        EventView::Partial(ss) => ss.len() > 0 && (forall|j: int|
            0 <= j < ss.len() ==> (#[trigger] ss[j]).paths.len() > 0),
        EventView::Done(n) => true,
    }
}

/// The orchestrator of one run: the registry, the termination-detection
/// tracker, and the pending events not yet consumed.
pub struct TaskManager {
    services: Vec<(String, Vec<String>)>,
    tracker: SearchTracker,
    queue: Vec<Event>,
}

impl TaskManager {
    /// The registry this manager was built over.
    pub closed spec fn registry(&self) -> Registry {
        registry_of(self.services@)
    }

    /// The pending events, oldest first.
    pub closed spec fn queue_view(&self) -> Seq<EventView> {
        self.queue@.map_values(|e: Event| e@)
    }

    /// The outstanding-response counters, one per registration slot.
    pub closed spec fn counts(&self) -> Seq<int> {
        Seq::new(self.tracker.n_services() as nat, |i: int| self.tracker.count_at(i) as int)
    }

    /// Number of begun responses (ledger, for the accounting law).
    pub closed spec fn begins(&self) -> int {
        self.tracker.begins()
    }

    /// Number of completed responses (ledger, for the accounting law).
    pub closed spec fn completes(&self) -> int {
        self.tracker.completes()
    }

    /// The manager's internal consistency: distinct service names, a healthy
    /// tracker mirroring the registry slot by slot, every counter equal to the
    /// number of pending events its service produced, and every pending event
    /// shaped so that its origin can be looked up and is registered.
    pub closed spec fn wf(&self) -> bool {
        &&& registry_distinct(self.registry())
        &&& self.tracker.wf()
        &&& self.tracker.n_services() == self.services@.len()
        &&& (forall|i: int|
            0 <= i < self.tracker.n_services() ==> self.tracker.name_at(i)
                == self.registry()[i].0)
        &&& (forall|i: int|
            0 <= i < self.tracker.n_services() ==> self.tracker.count_at(i) as int == count_from(
                self.queue_view(),
                self.tracker.name_at(i),
            ))
        &&& (forall|j: int|
            0 <= j < self.queue_view().len() ==> event_shape(#[trigger] self.queue_view()[j])
                && is_service(self.registry(), origin_of(self.queue_view()[j])))
    }

    /// Builds a manager over a registry of services with distinct names; no
    /// job has been broadcast yet, so nothing is outstanding or pending.
    pub fn new(services: Vec<(String, Vec<String>)>) -> (m: TaskManager)
        requires
            forall|i: int, j: int|
                0 <= i < j < services@.len() ==> services@[i].0@ != services@[j].0@,
        ensures
            m.wf(),
            m.registry() == registry_of(services@),
            m.queue_view() == Seq::<EventView>::empty(),
            m.counts() == Seq::new(services@.len() as nat, |i: int| 0int),
            m.begins() == 0,
            m.completes() == 0,
    {
        let mut names: Vec<String> = Vec::new();
        let mut i: usize = 0;
        while i < services.len()
            invariant
                i <= services@.len(),
                names@.len() == i,
                forall|j: int| 0 <= j < i ==> names@[j]@ == services@[j].0@,
            decreases services@.len() - i,
        {
            names.push(services[i].0.clone());
            i = i + 1;
        }
        let tracker = SearchTracker::new(&names);
        let m = TaskManager { services, tracker, queue: Vec::new() };
        proof {
            assert(m.queue_view() =~= Seq::<EventView>::empty());
            assert(m.counts() =~= Seq::new(m.services@.len() as nat, |i: int| 0int));
        }
        m
    }

    /// Broadcasts a job.  A work job begins one response per service and
    /// queues each service's decision, in registration order; the finish
    /// signal is not tracked and queues nothing.
    #[verifier::loop_isolation(false)]
    pub fn send_job(&mut self, job: Job)
        requires
            old(self).wf(),
        ensures
            final(self).wf(),
            final(self).registry() == old(self).registry(),
            final(self).completes() == old(self).completes(),
            (job@ matches JobView::Work(s) ==> {
                &&& final(self).queue_view() == old(self).queue_view() + events_of(
                    old(self).registry(),
                    s,
                )
                &&& final(self).counts() == old(self).counts().map_values(|n: int| n + 1)
                &&& final(self).begins() == old(self).begins() + old(self).registry().len()
            }),
            (job@ matches JobView::Finish ==> {
                &&& final(self).queue_view() == old(self).queue_view()
                &&& final(self).counts() == old(self).counts()
                &&& final(self).begins() == old(self).begins()
            }),
    {
        match job {
            Job::Work(search) => {
                let ghost reg = self.registry();
                let ghost old_qv = self.queue_view();
                let mut evs: Vec<Event> = Vec::new();
                let mut i: usize = 0;
                while i < self.services.len()
                    invariant
                        i <= self.services@.len(),
                        evs@.len() == i,
                        forall|j: int|
                            0 <= j < i ==> (#[trigger] evs@[j])@ == events_of(reg, search@)[j],
                    decreases self.services@.len() - i,
                {
                    let ev = evaluate(&self.services[i].0, &self.services[i].1, &search);
                    proof {
                        assert(reg[i as int] == (self.services@[i as int].0@, self.services@[
                            i as int].1.deep_view()));
                    }
                    evs.push(ev);
                    i = i + 1;
                }
                let qlen: usize = self.queue.len();
                proof {
                    assert forall|k: int|
                        0 <= k < self.tracker.n_services() implies self.tracker.count_at(k)
                        < u128::MAX by {
                        lemma_count_from_bounds(old_qv, self.tracker.name_at(k));
                        assert(old_qv.len() == self.queue@.len());
                        assert(self.queue@.len() <= usize::MAX);
                    }
                }
                self.tracker.add_search();
                self.queue.append(&mut evs);
                proof {
                    let qv = self.queue_view();
                    let evs_views = events_of(reg, search@);
                    assert(qv =~= old_qv + evs_views);
                    assert forall|k: int|
                        0 <= k < self.tracker.n_services() implies self.tracker.count_at(k) as int
                        == count_from(qv, self.tracker.name_at(k)) by {
                        let name = self.tracker.name_at(k);
                        lemma_count_from_concat(old_qv, evs_views, name);
                        lemma_count_from_events(reg, search@, name);
                        assert(reg[k].0 == name);
                        assert(is_service(reg, name));
                    }
                    assert forall|j: int|
                        0 <= j < qv.len() implies event_shape(#[trigger] qv[j]) && is_service(
                        reg,
                        origin_of(qv[j]),
                    ) by {
                        if j >= old_qv.len() {
                            let k: int = j - old_qv.len();
                            assert(qv[j] == decide(reg[k].0, reg[k].1, search@));
                            lemma_decide_origin(reg[k].0, reg[k].1, search@);
                        }
                    }
                    assert(self.counts() =~= old(self).counts().map_values(|n: int| n + 1));
                }
            },
            Job::Finish => {},
        }
    }
}

/// All stops of all services, in registration order, repeats kept.
pub open spec fn all_stops(reg: Registry) -> Seq<Seq<char>>
    decreases reg.len(),
{
    if reg.len() == 0 {
        Seq::empty()
    } else {
        reg[0].1 + all_stops(reg.drop_first())
    }
}

/// How many distinct stops the whole registry covers.
pub open spec fn stop_budget(reg: Registry) -> int {
    all_stops(reg).to_set().len() as int
}

/// The longest stop list of any service.
pub open spec fn max_list(reg: Registry) -> int
    decreases reg.len(),
{
    if reg.len() == 0 {
        0
    } else {
        let rest = max_list(reg.drop_first());
        if reg[0].1.len() > rest {
            reg[0].1.len() as int
        } else {
            rest
        }
    }
}

/// Base of the event weights: more than any one consumed event can spawn.
pub open spec fn weight_base(reg: Registry) -> int {
    reg.len() * max_list(reg) + reg.len() + 1
}

/// `weight_base ^ p`, one for non-positive exponents.
pub open spec fn wpow(reg: Registry, p: int) -> int
    decreases p,
{
    if p <= 0 {
        1
    } else {
        weight_base(reg) * wpow(reg, p - 1)
    }
}

/// How many more hops a search could possibly take, plus one.
pub open spec fn potential(reg: Registry, s: SearchView) -> int {
    stop_budget(reg) + 1 - s.paths.len()
}

/// Weight of a batch of searches: the sum of their potentials' weights.
pub open spec fn batch_weight(reg: Registry, ss: Seq<SearchView>) -> int
    decreases ss.len(),
{
    if ss.len() == 0 {
        0
    } else {
        wpow(reg, potential(reg, ss[0])) + batch_weight(reg, ss.drop_first())
    }
}

/// Weight of one pending event: what consuming it can still cost.
pub open spec fn event_weight(reg: Registry, e: EventView) -> int {
    match e {
        EventView::Match(ps) => 1,
        EventView::Partial(ss) => batch_weight(reg, ss),
        EventView::Done(n) => 1,
    }
}

/// The termination measure of the event loop: total weight of the queue.
pub open spec fn queue_measure(reg: Registry, q: Seq<EventView>) -> int
    decreases q.len(),
{
    if q.len() == 0 {
        0
    } else {
        event_weight(reg, q[0]) + queue_measure(reg, q.drop_first())
    }
}

proof fn lemma_max_list(reg: Registry, k: int)
    requires
        0 <= k < reg.len() || reg.len() == 0,
    ensures
        max_list(reg) >= 0,
        0 <= k < reg.len() ==> reg[k].1.len() <= max_list(reg),
    decreases reg.len(),
{
    if reg.len() > 0 {
        if k > 0 {
            lemma_max_list(reg.drop_first(), k - 1);
        } else {
            lemma_max_list(reg.drop_first(), 0);
        }
    }
}

proof fn lemma_wpow_pos(reg: Registry, p: int)
    ensures
        wpow(reg, p) >= 1,
    decreases p,
{
    lemma_max_list(reg, 0);
    if p > 0 {
        lemma_wpow_pos(reg, p - 1);
        assert(weight_base(reg) >= 1) by (nonlinear_arith)
            requires
                reg.len() >= 0,
                max_list(reg) >= 0,
        ;
        assert(weight_base(reg) * wpow(reg, p - 1) >= 1) by (nonlinear_arith)
            requires
                weight_base(reg) >= 1,
                wpow(reg, p - 1) >= 1,
        ;
    }
}

proof fn lemma_batch_weight_nonneg(reg: Registry, ss: Seq<SearchView>)
    ensures
        batch_weight(reg, ss) >= 0,
        ss.len() > 0 ==> batch_weight(reg, ss) >= 1,
    decreases ss.len(),
{
    if ss.len() > 0 {
        lemma_wpow_pos(reg, potential(reg, ss[0]));
        lemma_batch_weight_nonneg(reg, ss.drop_first());
    }
}

proof fn lemma_queue_measure_nonneg(reg: Registry, q: Seq<EventView>)
    ensures
        queue_measure(reg, q) >= 0,
    decreases q.len(),
{
    if q.len() > 0 {
        if let EventView::Partial(ss) = q[0] {
            lemma_batch_weight_nonneg(reg, ss);
        }
        lemma_queue_measure_nonneg(reg, q.drop_first());
    }
}

proof fn lemma_queue_measure_concat(reg: Registry, q1: Seq<EventView>, q2: Seq<EventView>)
    ensures
        queue_measure(reg, q1 + q2) == queue_measure(reg, q1) + queue_measure(reg, q2),
    decreases q1.len(),
{
    if q1.len() == 0 {
        assert(q1 + q2 =~= q2);
    } else {
        assert((q1 + q2).drop_first() =~= q1.drop_first() + q2);
        lemma_queue_measure_concat(reg, q1.drop_first(), q2);
    }
}

proof fn lemma_batch_weight_push(reg: Registry, ss: Seq<SearchView>, x: SearchView)
    ensures
        batch_weight(reg, ss.push(x)) == batch_weight(reg, ss) + wpow(reg, potential(reg, x)),
    decreases ss.len(),
{
    let pushed = ss.push(x);
    assert(batch_weight(reg, pushed) == wpow(reg, potential(reg, pushed[0])) + batch_weight(
        reg,
        pushed.drop_first(),
    ));
    if ss.len() == 0 {
        assert(pushed[0] == x);
        assert(pushed.drop_first() =~= Seq::<SearchView>::empty());
        assert(batch_weight(reg, Seq::<SearchView>::empty()) == 0);
    } else {
        assert(pushed[0] == ss[0]);
        assert(pushed.drop_first() =~= ss.drop_first().push(x));
        lemma_batch_weight_push(reg, ss.drop_first(), x);
    }
}

proof fn lemma_batch_weight_uniform(reg: Registry, ss: Seq<SearchView>, w: int)
    requires
        forall|j: int| 0 <= j < ss.len() ==> wpow(reg, potential(reg, #[trigger] ss[j])) == w,
    ensures
        batch_weight(reg, ss) == ss.len() * w,
    decreases ss.len(),
{
    if ss.len() == 0 {
    } else {
        lemma_batch_weight_uniform(reg, ss.drop_first(), w);
        assert(batch_weight(reg, ss) == w + (ss.len() - 1) * w);
        assert(w + (ss.len() - 1) * w == ss.len() * w) by (nonlinear_arith);
    }
}

proof fn lemma_unvisited_len(stops: Seq<Seq<char>>, s: SearchView)
    ensures
        unvisited_stops(stops, s).len() <= stops.len(),
    decreases stops.len(),
{
    if stops.len() > 0 {
        lemma_unvisited_len(stops.drop_last(), s);
    }
}

proof fn lemma_all_stops_contains(reg: Registry, k: int, x: Seq<char>)
    requires
        0 <= k < reg.len(),
        reg[k].1.contains(x),
    ensures
        all_stops(reg).contains(x),
    decreases reg.len(),
{
    if k == 0 {
        let i = choose|i: int| 0 <= i < reg[0].1.len() && reg[0].1[i] == x;
        assert(all_stops(reg)[i] == x);
    } else {
        lemma_all_stops_contains(reg.drop_first(), k - 1, x);
        let i = choose|i: int|
            0 <= i < all_stops(reg.drop_first()).len() && all_stops(reg.drop_first())[i] == x;
        assert(all_stops(reg)[reg[0].1.len() + i] == x);
    }
}

/// Pigeonhole: a search whose hops arrive at pairwise different registered
/// stops cannot have more hops than the registry has distinct stops.
proof fn lemma_search_len_bound(reg: Registry, s: SearchView, origin: Seq<char>, dest: Seq<char>)
    requires
        search_ok(s, origin, dest, reg),
    ensures
        s.paths.len() <= stop_budget(reg),
        potential(reg, s) >= 1,
{
    broadcast use vstd::seq_lib::seq_to_set_is_finite;

    let ts = tos_of(s.paths);
    ts.unique_seq_to_set();
    assert forall|x: Seq<char>| ts.to_set().contains(x) implies all_stops(
        reg,
    ).to_set().contains(x) by {
        let i = choose|i: int| 0 <= i < ts.len() && ts[i] == x;
        assert(hop_ok(reg, s.paths[i]));
        let k = choose|k: int|
            0 <= k < reg.len() && reg[k].0 == s.paths[i].service && reg[k].1.contains(
                s.paths[i].from,
            ) && reg[k].1.contains(s.paths[i].to);
        lemma_all_stops_contains(reg, k, x);
    }
    assert(ts.to_set() <= all_stops(reg).to_set());
    vstd::set_lib::lemma_len_subset(ts.to_set(), all_stops(reg).to_set());
}

/// Dispatching one live search costs strictly less than its weight.
proof fn lemma_dispatch_weight(reg: Registry, c: SearchView, origin: Seq<char>, dest: Seq<char>)
    requires
        registry_distinct(reg),
        search_ok(c, origin, dest, reg),
    ensures
        queue_measure(reg, events_of(reg, c)) <= wpow(reg, potential(reg, c)) - 1,
{
    let p = potential(reg, c);
    let lmax = max_list(reg);
    let w = wpow(reg, p - 1);
    lemma_search_len_bound(reg, c, origin, dest);
    lemma_wpow_pos(reg, p - 1);
    lemma_max_list(reg, 0);
    assert forall|k: int| 0 <= k < reg.len() implies (#[trigger] reg[k]).1.len() <= max_list(
        reg,
    ) by {
        lemma_max_list(reg, k);
    }
    lemma_events_weight_rec(reg, reg, c, p);
    assert(wpow(reg, p) == weight_base(reg) * w);
    assert(reg.len() * (1 + lmax * w) <= (reg.len() * lmax + reg.len() + 1) * w - 1)
        by (nonlinear_arith)
        requires
            w >= 1,
            reg.len() >= 0,
            lmax >= 0,
    ;
}

proof fn lemma_events_weight_rec(full: Registry, reg2: Registry, c: SearchView, p: int)
    requires
        p == potential(full, c),
        forall|k: int| 0 <= k < reg2.len() ==> (#[trigger] reg2[k]).1.len() <= max_list(full),
    ensures
        queue_measure(
            full,
            reg2.map_values(|e: (Seq<char>, Seq<Seq<char>>)| decide(e.0, e.1, c)),
        ) <= reg2.len() * (1 + max_list(full) * wpow(full, p - 1)),
    decreases reg2.len(),
{
    let w = wpow(full, p - 1);
    let lmax = max_list(full);
    lemma_wpow_pos(full, p - 1);
    lemma_max_list(full, 0);
    let evs = reg2.map_values(|e: (Seq<char>, Seq<Seq<char>>)| decide(e.0, e.1, c));
    if reg2.len() == 0 {
    } else {
        let e0 = decide(reg2[0].0, reg2[0].1, c);
        assert(evs[0] == e0);
        assert(event_weight(full, e0) <= 1 + lmax * w) by {
            assert(lmax * w >= 0) by (nonlinear_arith)
                requires
                    lmax >= 0,
                    w >= 1,
            ;
            if let EventView::Partial(gc) = e0 {
                let u = unvisited_stops(reg2[0].1, c);
                assert(gc == partial_children(reg2[0].1, c, reg2[0].0));
                assert forall|j: int| 0 <= j < gc.len() implies wpow(
                    full,
                    potential(full, #[trigger] gc[j]),
                ) == w by {
                    assert(gc[j] == child_search(c, reg2[0].0, u[j]));
                    assert(gc[j].paths.len() == c.paths.len() + 1);
                }
                lemma_batch_weight_uniform(full, gc, w);
                lemma_unvisited_len(reg2[0].1, c);
                assert(gc.len() <= reg2[0].1.len());
                assert(gc.len() * w <= lmax * w) by (nonlinear_arith)
                    requires
                        gc.len() <= lmax,
                        w >= 1,
                ;
            }
        }
        assert(evs.drop_first() =~= reg2.drop_first().map_values(
            |e: (Seq<char>, Seq<Seq<char>>)| decide(e.0, e.1, c),
        ));
        lemma_events_weight_rec(full, reg2.drop_first(), c, p);
        assert((1 + lmax * w) + (reg2.len() - 1) * (1 + lmax * w) == reg2.len() * (1 + lmax * w))
            by (nonlinear_arith);
    }
}

/// Every reported line renders some complete route of the run.
pub open spec fn results_ok(
    results: Seq<Seq<char>>,
    origin: Seq<char>,
    dest: Seq<char>,
    reg: Registry,
) -> bool {
    forall|i: int|
        0 <= i < results.len() ==> exists|ps: Seq<PathView>|
            route_ok(ps, origin, dest, reg) && #[trigger] results[i] == route_string(ps)
}

/// What a finished run reports: the registry reached quiescence for the first
/// time after `n` consumed events, and `results` are the route lines of that
/// state, in discovery order.
pub open spec fn run_outcome(reg: Registry, c0: Config, n: nat, results: Seq<Seq<char>>) -> bool {
    &&& quiescent_cfg(iterate(reg, c0, n))
    &&& (forall|m: nat| m < n ==> !quiescent_cfg(iterate(reg, c0, m)))
    &&& results == iterate(reg, c0, n).results
}

impl TaskManager {
    /// Runs the whole search: broadcasts the initial job, consumes events
    /// until every service has answered every job, and returns the discovered
    /// route lines in discovery order.  A finish job broadcasts the shutdown
    /// signal and reports nothing.
    #[verifier::loop_isolation(false)]
    #[verifier::rlimit(100)]
    pub fn run(&mut self, work: Job) -> (results: Vec<String>)
        requires
            old(self).wf(),
            old(self).queue_view().len() == 0,
            forall|i: int| 0 <= i < old(self).counts().len() ==> old(self).counts()[i] == 0,
            work@ matches JobView::Work(s) ==> s.paths.len() == 0,
        ensures
            final(self).wf(),
            final(self).registry() == old(self).registry(),
            final(self).queue_view().len() == 0,
            forall|i: int| 0 <= i < final(self).counts().len() ==> final(self).counts()[i] == 0,
            final(self).begins() == final(self).completes(),
            work@ matches JobView::Finish ==> results@.len() == 0,
            work@ matches JobView::Work(s) ==> {
                &&& results_ok(results.deep_view(), s.from, s.to, old(self).registry())
                &&& exists|n: nat|
                    run_outcome(
                        old(self).registry(),
                        initial_config(old(self).registry(), s.from, s.to),
                        n,
                        results.deep_view(),
                    )
            },
    {
        let ghost reg = old(self).registry();
        match work {
            Job::Finish => {
                self.send_job(Job::Finish);
                proof {
                    crate::tracker::lemma_quiescent_accounting(&self.tracker);
                }
                Vec::new()
            },
            Job::Work(search) => {
                let ghost origin = search@.from;
                let ghost dest = search@.to;
                let ghost s0 = SearchView { from: origin, to: dest, paths: Seq::empty() };
                let ghost c0 = initial_config(reg, origin, dest);
                proof {
                    assert(search@ =~= s0);
                    assert(search_ok(s0, origin, dest, reg));
                }
                self.send_job(Job::Work(search));
                let mut results: Vec<String> = Vec::new();
                let ghost mut steps: nat = 0;
                proof {
                    assert(self.queue_view() =~= c0.queue);
                    assert(self.counts() =~= c0.counts);
                    assert(results.deep_view() =~= c0.results);
                    assert(iterate(reg, c0, steps) == c0);
                    assert forall|j: int| 0 <= j < self.queue_view().len() implies event_ok(
                        #[trigger] self.queue_view()[j],
                        origin,
                        dest,
                        reg,
                    ) by {
                        assert(self.queue_view()[j] == decide(reg[j].0, reg[j].1, s0));
                        lemma_decide_event_ok(reg, j, s0, origin, dest);
                    }
                }
                while !self.tracker.is_done()
                    invariant
                        self.wf(),
                        self.registry() == reg,
                        forall|j: int|
                            0 <= j < self.queue_view().len() ==> event_ok(
                                #[trigger] self.queue_view()[j],
                                origin,
                                dest,
                                reg,
                            ),
                        results_ok(results.deep_view(), origin, dest, reg),
                        (Config {
                            queue: self.queue_view(),
                            counts: self.counts(),
                            results: results.deep_view(),
                        }) == iterate(reg, c0, steps),
                        forall|m: nat| m < steps ==> !quiescent_cfg(iterate(reg, c0, m)),
                    decreases queue_measure(reg, self.queue_view()),
                {
                    let ghost cfg_pre = Config {
                        queue: self.queue_view(),
                        counts: self.counts(),
                        results: results.deep_view(),
                    };
                    let ghost e0 = self.queue_view()[0];
                    proof {
                        let k = choose|k: int|
                            0 <= k < self.tracker.n_services() && self.tracker.count_at(k) != 0;
                        lemma_count_from_bounds(self.queue_view(), self.tracker.name_at(k));
                        assert(self.queue_view().len() > 0);
                        assert(!quiescent_cfg(cfg_pre)) by {
                            assert(cfg_pre.counts[k] != 0);
                        }
                        assert(event_ok(e0, origin, dest, reg));
                        assert(event_shape(e0) && is_service(reg, origin_of(e0)));
                        let slot = choose|i: int| 0 <= i < reg.len() && reg[i].0 == origin_of(e0);
                        lemma_count_from_bounds(self.queue_view().drop_first(), origin_of(e0));
                        assert(self.tracker.count_at(slot) >= 1);
                        assert(queue_measure(reg, cfg_pre.queue) == event_weight(reg, e0)
                            + queue_measure(reg, cfg_pre.queue.drop_first()));
                        lemma_queue_measure_nonneg(reg, cfg_pre.queue.drop_first());
                    }
                    let ev = self.queue.remove(0);
                    proof {
                        assert(ev@ == e0);
                        assert(self.queue_view() =~= cfg_pre.queue.drop_first());
                    }
                    match ev {
                        Event::Match(paths) => {
                            proof {
                                assert(paths@.map_values(|p: Path| p@).len() > 0);
                            }
                            let n: usize = paths.len();
                            let name = paths[n - 1].service.clone();
                            proof {
                                assert(name@ == origin_of(e0));
                            }
                            self.tracker.mark_done(name);
                            let line = render_route(&paths);
                            results.push(line);
                            proof {
                                self.lemma_after_complete(cfg_pre, e0, reg, origin, dest);
                                let psv = paths@.map_values(|p: Path| p@);
                                assert(route_ok(psv, origin, dest, reg));
                                assert(results.deep_view() =~= cfg_pre.results.push(
                                    route_string(psv),
                                ));
                                assert forall|i: int|
                                    0 <= i < results.deep_view().len() implies exists|
                                    ps: Seq<PathView>,
                                |
                                    route_ok(ps, origin, dest, reg)
                                        && #[trigger] results.deep_view()[i] == route_string(
                                        ps,
                                    ) by {
                                    assert(results_ok(cfg_pre.results, origin, dest, reg));
                                    if i < cfg_pre.results.len() {
                                        assert(results.deep_view()[i] == cfg_pre.results[i]);
                                        let ps0 = choose|ps0: Seq<PathView>|
                                            route_ok(ps0, origin, dest, reg)
                                                && cfg_pre.results[i] == route_string(ps0);
                                        assert(route_ok(ps0, origin, dest, reg)
                                            && results.deep_view()[i] == route_string(ps0));
                                    } else {
                                        assert(route_ok(psv, origin, dest, reg)
                                            && results.deep_view()[i] == route_string(psv));
                                    }
                                }
                                assert(Config {
                                    queue: self.queue_view(),
                                    counts: self.counts(),
                                    results: results.deep_view(),
                                } =~= step(reg, cfg_pre));
                                assert(queue_measure(reg, self.queue_view()) < queue_measure(
                                    reg,
                                    cfg_pre.queue,
                                ));
                            }
                        },
                        Event::Partial(searches) => {
                            let n: usize = searches.len();
                            proof {
                                assert(searches@.map_values(|s: Search| s@).len() > 0);
                                assert(searches@[n - 1]@ == searches@.map_values(
                                    |s: Search| s@,
                                ).last());
                            }
                            let m: usize = searches[n - 1].paths.len();
                            let name = searches[n - 1].paths[m - 1].service.clone();
                            proof {
                                assert(name@ == origin_of(e0));
                            }
                            self.tracker.mark_done(name);
                            let ghost ssv = searches@.map_values(|s: Search| s@);
                            let ghost cfg_mid = Config {
                                queue: cfg_pre.queue.drop_first(),
                                counts: counts_decremented(reg, cfg_pre.counts, origin_of(e0)),
                                results: cfg_pre.results,
                            };
                            proof {
                                self.lemma_after_complete(cfg_pre, e0, reg, origin, dest);
                                assert(Config {
                                    queue: self.queue_view(),
                                    counts: self.counts(),
                                    results: results.deep_view(),
                                } =~= cfg_mid);
                                assert(dispatch_list(reg, cfg_mid, ssv.take(0)) == cfg_mid) by {
                                    assert(ssv.take(0) =~= Seq::<SearchView>::empty());
                                }
                                assert(event_weight(reg, e0) == batch_weight(reg, ssv));
                                assert(batch_weight(reg, ssv.take(0)) == 0) by {
                                    assert(ssv.take(0) =~= Seq::<SearchView>::empty());
                                }
                            }
                            let mut k: usize = 0;
                            while k < searches.len()
                                invariant
                                    k <= searches@.len(),
                                    self.wf(),
                                    self.registry() == reg,
                                    forall|j: int|
                                        0 <= j < self.queue_view().len() ==> event_ok(
                                            #[trigger] self.queue_view()[j],
                                            origin,
                                            dest,
                                            reg,
                                        ),
                                    (Config {
                                        queue: self.queue_view(),
                                        counts: self.counts(),
                                        results: results.deep_view(),
                                    }) == dispatch_list(reg, cfg_mid, ssv.take(k as int)),
                                    queue_measure(reg, self.queue_view()) <= queue_measure(
                                        reg,
                                        cfg_mid.queue,
                                    ) + batch_weight(reg, ssv.take(k as int)) - k,
                                    results_ok(results.deep_view(), origin, dest, reg),
                                decreases searches@.len() - k,
                            {
                                let ghost pre_k = Config {
                                    queue: self.queue_view(),
                                    counts: self.counts(),
                                    results: results.deep_view(),
                                };
                                self.send_job(Job::Work(searches[k].clone()));
                                proof {
                                    assert(ssv[k as int] == searches@[k as int]@);
                                    assert(Config {
                                        queue: self.queue_view(),
                                        counts: self.counts(),
                                        results: results.deep_view(),
                                    } =~= dispatch_one(reg, pre_k, ssv[k as int]));
                                    assert(ssv.take(k + 1 as int) =~= ssv.take(k as int).push(
                                        ssv[k as int],
                                    ));
                                    lemma_dispatch_list_push(
                                        reg,
                                        cfg_mid,
                                        ssv.take(k as int),
                                        ssv[k as int],
                                    );
                                    assert(search_ok(ssv[k as int], origin, dest, reg));
                                    lemma_queue_measure_concat(
                                        reg,
                                        pre_k.queue,
                                        events_of(reg, ssv[k as int]),
                                    );
                                    lemma_dispatch_weight(reg, ssv[k as int], origin, dest);
                                    lemma_batch_weight_push(reg, ssv.take(k as int), ssv[k as int]);
                                    assert forall|j: int|
                                        0 <= j < self.queue_view().len() implies event_ok(
                                        #[trigger] self.queue_view()[j],
                                        origin,
                                        dest,
                                        reg,
                                    ) by {
                                        if j >= pre_k.queue.len() {
                                            let t = j - pre_k.queue.len();
                                            assert(self.queue_view()[j] == decide(
                                                reg[t].0,
                                                reg[t].1,
                                                ssv[k as int],
                                            ));
                                            lemma_decide_event_ok(
                                                reg,
                                                t,
                                                ssv[k as int],
                                                origin,
                                                dest,
                                            );
                                        } else {
                                            assert(self.queue_view()[j] == pre_k.queue[j]);
                                        }
                                    }
                                }
                                k = k + 1;
                            }
                            proof {
                                assert(ssv.take(searches@.len() as int) =~= ssv);
                                assert(step(reg, cfg_pre) == dispatch_list(reg, cfg_mid, ssv));
                                assert(queue_measure(reg, self.queue_view()) < queue_measure(
                                    reg,
                                    cfg_pre.queue,
                                ));
                                lemma_queue_measure_nonneg(reg, self.queue_view());
                            }
                        },
                        Event::Done(name) => {
                            proof {
                                assert(name@ == origin_of(e0));
                            }
                            self.tracker.mark_done(name);
                            proof {
                                self.lemma_after_complete(cfg_pre, e0, reg, origin, dest);
                                assert(Config {
                                    queue: self.queue_view(),
                                    counts: self.counts(),
                                    results: results.deep_view(),
                                } =~= step(reg, cfg_pre));
                                assert(queue_measure(reg, self.queue_view()) < queue_measure(
                                    reg,
                                    cfg_pre.queue,
                                ));
                            }
                        },
                    }
                    proof {
                        steps = steps + 1;
                        assert(iterate(reg, c0, steps) == step(reg, iterate(reg, c0, (steps
                            - 1) as nat)));
                    }
                }
                proof {
                    assert(self.queue_view().len() == 0) by {
                        if self.queue_view().len() > 0 {
                            let nm = origin_of(self.queue_view()[0]);
                            let slot = choose|i: int| 0 <= i < reg.len() && reg[i].0 == nm;
                            lemma_count_from_bounds(self.queue_view().drop_first(), nm);
                            assert(self.tracker.count_at(slot) >= 1);
                            assert(self.tracker.count_at(slot) == 0);
                        }
                    }
                    crate::tracker::lemma_quiescent_accounting(&self.tracker);
                    assert(quiescent_cfg(iterate(reg, c0, steps))) by {
                        assert(forall|i: int|
                            0 <= i < self.counts().len() ==> self.counts()[i] == 0);
                    }
                    assert(run_outcome(reg, c0, steps, results.deep_view()));
                }
                results
            },
        }
    }

    /// After one event left the queue and its origin completed one response,
    /// the counters sit exactly at the decremented abstract value.
    proof fn lemma_after_complete(
        &self,
        cfg_pre: Config,
        e0: EventView,
        reg: Registry,
        origin: Seq<char>,
        dest: Seq<char>,
    )
        requires
            registry_distinct(reg),
            self.registry() == reg,
            cfg_pre.queue.len() > 0,
            cfg_pre.queue[0] == e0,
            is_service(reg, origin_of(e0)),
            cfg_pre.counts.len() == reg.len(),
            self.tracker.n_services() == reg.len(),
            forall|i: int| 0 <= i < reg.len() ==> self.tracker.name_at(i) == reg[i].0,
            forall|i: int|
                0 <= i < reg.len() && reg[i].0 != origin_of(e0) ==> self.tracker.count_at(i) as int
                    == cfg_pre.counts[i],
            forall|i: int|
                0 <= i < reg.len() && reg[i].0 == origin_of(e0) ==> self.tracker.count_at(i) as int
                    == cfg_pre.counts[i] - 1,
        ensures
            self.counts() =~= counts_decremented(reg, cfg_pre.counts, origin_of(e0)),
    {
        let nm = origin_of(e0);
        let k = choose|i: int| 0 <= i < reg.len() && reg[i].0 == nm;
        lemma_slot_of_unique(reg, nm, k);
        assert forall|i: int| 0 <= i < reg.len() implies self.counts()[i] == counts_decremented(
            reg,
            cfg_pre.counts,
            nm,
        )[i] by {
            if i != k {
                assert(reg[i].0 != nm);
            }
        }
    }
}

} // verus!
