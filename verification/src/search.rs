//! Itinerary data: one hop (`Path`) and a growing itinerary (`Search`).

use vstd::prelude::*;
use vstd::string::StringExecFns;

verus! {

/// Mathematical value of a `Path`: the three stop and service names.
#[verifier::ext_equal]
pub ghost struct PathView {
    pub from: Seq<char>,
    pub to: Seq<char>,
    pub service: Seq<char>,
}

/// One hop through one service, immutable once built.
pub struct Path {
    pub from: String,
    pub to: String,
    pub service: String,
}

impl View for Path {
    type V = PathView;

    open spec fn view(&self) -> PathView {
        PathView { from: self.from@, to: self.to@, service: self.service@ }
    }
}

impl Clone for Path {
    fn clone(&self) -> (res: Self)
        ensures
            res@ == self@,
    {
        Path { from: self.from.clone(), to: self.to.clone(), service: self.service.clone() }
    }
}

impl Path {
    pub fn new(from: String, to: String, service: String) -> (p: Path)
        ensures
            p@ == (PathView { from: from@, to: to@, service: service@ }),
    {
        Path { from, to, service }
    }

    /// Renders the hop as `<from>--<service>--><to>`.
    pub fn to_string(&self) -> (s: String)
        ensures
            s@ == self@.from + "--"@ + self@.service + "-->"@ + self@.to,
    {
        let mut s = self.from.clone();
        s.append("--");
        s.append(self.service.as_str());
        s.append("-->");
        s.append(self.to.as_str());
        s
    }
}

/// Mathematical value of a `Search`.
#[verifier::ext_equal]
pub ghost struct SearchView {
    pub from: Seq<char>,
    pub to: Seq<char>,
    pub paths: Seq<PathView>,
}

/// A partially built itinerary: the current frontier stop `from`, the final
/// destination `to`, and the hops taken so far in travel order.
pub struct Search {
    pub from: String,
    pub to: String,
    pub paths: Vec<Path>,
}

impl View for Search {
    type V = SearchView;

    open spec fn view(&self) -> SearchView {
        SearchView { from: self.from@, to: self.to@, paths: self.paths@.map_values(|p: Path| p@) }
    }
}

impl Clone for Search {
    fn clone(&self) -> (res: Self)
        ensures
            res@ == self@,
    {
        let res = Search { from: self.from.clone(), to: self.to.clone(), paths: clone_paths(&self.paths) };
        proof {
            assert(res@ =~= self@);
        }
        res
    }
}

fn clone_paths(paths: &Vec<Path>) -> (res: Vec<Path>)
    ensures
        res@.map_values(|p: Path| p@) == paths@.map_values(|p: Path| p@),
{
    let mut res: Vec<Path> = Vec::new();
    let mut i: usize = 0;
    while i < paths.len()
        invariant
            i <= paths@.len(),
            res@.len() == i,
            forall|j: int| 0 <= j < i ==> res@[j]@ == paths@[j]@,
        decreases paths@.len() - i,
    {
        res.push(paths[i].clone());
        i = i + 1;
    }
    proof {
        assert(res@.map_values(|p: Path| p@) =~= paths@.map_values(|p: Path| p@));
    }
    res
}

impl Search {
    pub fn new(from: String, to: String) -> (s: Search)
        ensures
            s@ == (SearchView { from: from@, to: to@, paths: Seq::<PathView>::empty() }),
    {
        let s = Search { from, to, paths: Vec::new() };
        proof {
            assert(s@.paths =~= Seq::<PathView>::empty());
        }
        s
    }

    /// The services already used by this itinerary, in travel order.
    pub fn services(&self) -> (v: Vec<String>)
        ensures
            v@.len() == self@.paths.len(),
            forall|i: int| 0 <= i < v@.len() ==> v@[i]@ == self@.paths[i].service,
    {
        let mut v: Vec<String> = Vec::new();
        let mut i: usize = 0;
        while i < self.paths.len()
            invariant
                i <= self.paths@.len(),
                v@.len() == i,
                forall|j: int| 0 <= j < i ==> v@[j]@ == self.paths@[j]@.service,
            decreases self.paths@.len() - i,
        {
            v.push(self.paths[i].service.clone());
            i = i + 1;
        }
        v
    }

    /// Every stop this itinerary has touched: the frontier, the destination,
    /// and both ends of every hop taken.
    pub fn stops(&self) -> (v: Vec<String>)
        ensures
            v@.len() == 2 + 2 * self@.paths.len(),
            v@[0]@ == self@.from,
            v@[1]@ == self@.to,
            forall|i: int|
                0 <= i < self@.paths.len() ==> v@[2 + 2 * i]@ == self@.paths[i].from
                    && v@[3 + 2 * i]@ == self@.paths[i].to,
    {
        let mut v: Vec<String> = Vec::new();
        v.push(self.from.clone());
        v.push(self.to.clone());
        let mut i: usize = 0;
        while i < self.paths.len()
            invariant
                i <= self.paths@.len(),
                v@.len() == 2 + 2 * i,
                v@[0]@ == self@.from,
                v@[1]@ == self@.to,
                forall|j: int|
                    0 <= j < i ==> v@[2 + 2 * j]@ == self.paths@[j]@.from
                        && v@[3 + 2 * j]@ == self.paths@[j]@.to,
            decreases self.paths@.len() - i,
        {
            v.push(self.paths[i].from.clone());
            v.push(self.paths[i].to.clone());
            i = i + 1;
        }
        v
    }

    /// Extends the itinerary by one hop, leaving this value untouched: the
    /// result's frontier is the hop's destination and its hop list is this
    /// one's with the hop appended.
    pub fn add_path(&self, path: Path) -> (s: Search)
        ensures
            s@.from == path@.to,
            s@.to == self@.to,
            s@.paths == self@.paths.push(path@),
    {
        let mut paths = clone_paths(&self.paths);
        paths.push(path);
        let s = Search { from: path_to_clone(&paths), to: self.to.clone(), paths };
        proof {
            assert(s@.paths =~= self@.paths.push(s@.paths.last()));
        }
        s
    }
}

/// Clones the destination of the last hop of a non-empty hop list.
fn path_to_clone(paths: &Vec<Path>) -> (to: String)
    requires
        paths@.len() > 0,
    ensures
        to@ == paths@.last()@.to,
{
    paths[paths.len() - 1].to.clone()
}

} // verus!
