//! A route-finding engine over named services.
//!
//! A *service* covers a fixed set of stops; a route from an origin stop to a
//! destination stop chains services whose stop sets overlap.  The engine
//! broadcasts a search to every service, collects the responses, and expands
//! partial itineraries until every service has answered every job.

use vstd::prelude::*;

pub mod search;
pub mod tracker;
pub mod worker;
pub mod manager;
pub mod dispatch;

verus! {

/// Adds one to every element of a vector, in place.
pub fn increment_all(numbers: &mut Vec<usize>)
    requires
        forall|i: int| 0 <= i < old(numbers)@.len() ==> old(numbers)@[i] < usize::MAX,
    ensures
        final(numbers)@.len() == old(numbers)@.len(),
        forall|i: int| 0 <= i < old(numbers)@.len() ==> final(numbers)@[i] == old(numbers)@[i] + 1,
{
    let mut i: usize = 0;
    while i < numbers.len()
        invariant
            i <= numbers@.len(),
            numbers@.len() == old(numbers)@.len(),
            forall|j: int| i <= j < numbers@.len() ==> numbers@[j] == old(numbers)@[j],
            forall|j: int| 0 <= j < i ==> numbers@[j] == old(numbers)@[j] + 1,
            forall|j: int| 0 <= j < numbers@.len() ==> old(numbers)@[j] < usize::MAX,
        decreases numbers@.len() - i,
    {
        let n: usize = numbers[i];
        numbers.set(i, n + 1);
        i = i + 1;
    }
}

/// Builds owned strings from string slices, keeping the order.
pub fn string_vec(strs: &[&str]) -> (v: Vec<String>)
    ensures
        v@.len() == strs@.len(),
        forall|i: int| 0 <= i < strs@.len() ==> v@[i]@ == strs@[i]@,
{
    let mut v: Vec<String> = Vec::new();
    let mut i: usize = 0;
    while i < strs.len()
        invariant
            i <= strs@.len(),
            v@.len() == i,
            forall|j: int| 0 <= j < i ==> v@[j]@ == strs@[j]@,
        decreases strs@.len() - i,
    {
        v.push(strs[i].to_owned());
        i = i + 1;
    }
    v
}

} // verus!
