//! Termination detection: one outstanding-response counter per service.

use vstd::prelude::*;

verus! {

/// Sum of the counters of an entry list.
pub open spec fn sum_counts(entries: Seq<(String, u128)>) -> int
    decreases entries.len(),
{
    if entries.len() == 0 {
        0
    } else {
        entries[0].1 + sum_counts(entries.drop_first())
    }
}

proof fn lemma_sum_nonneg(entries: Seq<(String, u128)>)
    ensures
        sum_counts(entries) >= 0,
    decreases entries.len(),
{
    if entries.len() > 0 {
        lemma_sum_nonneg(entries.drop_first());
    }
}

proof fn lemma_sum_all_incremented(s1: Seq<(String, u128)>, s2: Seq<(String, u128)>)
    requires
        s1.len() == s2.len(),
        forall|i: int| 0 <= i < s1.len() ==> s2[i].1 == s1[i].1 + 1,
    ensures
        sum_counts(s2) == sum_counts(s1) + s1.len(),
    decreases s1.len(),
{
    if s1.len() > 0 {
        lemma_sum_all_incremented(s1.drop_first(), s2.drop_first());
    }
}

proof fn lemma_sum_one_decremented(s1: Seq<(String, u128)>, s2: Seq<(String, u128)>, k: int)
    requires
        s1.len() == s2.len(),
        0 <= k < s1.len(),
        s2[k].1 == s1[k].1 - 1,
        forall|i: int| 0 <= i < s1.len() && i != k ==> s2[i].1 == s1[i].1,
    ensures
        sum_counts(s2) == sum_counts(s1) - 1,
    decreases s1.len(),
{
    if k == 0 {
        lemma_sum_same(s1.drop_first(), s2.drop_first());
    } else {
        lemma_sum_one_decremented(s1.drop_first(), s2.drop_first(), k - 1);
    }
}

proof fn lemma_sum_same(s1: Seq<(String, u128)>, s2: Seq<(String, u128)>)
    requires
        s1.len() == s2.len(),
        forall|i: int| 0 <= i < s1.len() ==> s2[i].1 == s1[i].1,
    ensures
        sum_counts(s2) == sum_counts(s1),
    decreases s1.len(),
{
    if s1.len() > 0 {
        lemma_sum_same(s1.drop_first(), s2.drop_first());
    }
}

proof fn lemma_sum_zero_iff_all_zero(entries: Seq<(String, u128)>)
    ensures
        sum_counts(entries) == 0 <==> (forall|i: int| 0 <= i < entries.len() ==> entries[i].1 == 0),
    decreases entries.len(),
{
    if entries.len() > 0 {
        lemma_sum_zero_iff_all_zero(entries.drop_first());
        lemma_sum_nonneg(entries.drop_first());
        assert(forall|i: int|
            1 <= i < entries.len() ==> entries[i].1 == entries.drop_first()[i - 1].1);
    }
}

/// Outstanding-response counters, one per registered service, together with a
/// ghost tally of how often `add_search` began a response and `mark_done`
/// completed one.
pub struct SearchTracker {
    counts: Vec<(String, u128)>,
    begins: Ghost<int>,
    completes: Ghost<int>,
}

impl SearchTracker {
    /// Number of registered services.
    pub closed spec fn n_services(&self) -> int {
        self.counts@.len() as int
    }

    /// Name of the service at a registration slot.
    pub closed spec fn name_at(&self, i: int) -> Seq<char> {
        self.counts@[i].0@
    }

    /// Outstanding-response counter of the service at a slot.
    pub closed spec fn count_at(&self, i: int) -> u128 {
        self.counts@[i].1
    }

    /// Total number of responses ever begun (one per service per job).
    pub closed spec fn begins(&self) -> int {
        self.begins@
    }

    /// Total number of responses ever completed.
    pub closed spec fn completes(&self) -> int {
        self.completes@
    }

    /// No service is registered twice, and the counters balance the ledger:
    /// what was begun and not yet completed is exactly what is outstanding.
    pub closed spec fn wf(&self) -> bool {
        &&& (forall|i: int, j: int|
            0 <= i < j < self.counts@.len() ==> self.counts@[i].0@ != self.counts@[j].0@)
        &&& self.begins@ == self.completes@ + sum_counts(self.counts@)
        &&& self.completes@ >= 0
    }

    /// Every service has answered every job broadcast to it.
    pub open spec fn quiescent(&self) -> bool {
        forall|i: int| 0 <= i < self.n_services() ==> self.count_at(i) == 0
    }

    /// Whether a service of this name is registered.
    pub open spec fn has_service(&self, name: Seq<char>) -> bool {
        exists|i: int| 0 <= i < self.n_services() && self.name_at(i) == name
    }

    proof fn lemma_unique_name(&self, a: int, b: int)
        requires
            self.wf(),
            0 <= a < self.n_services(),
            0 <= b < self.n_services(),
            self.name_at(a) == self.name_at(b),
        ensures
            a == b,
    {
        if a < b {
            assert(self.counts@[a].0@ != self.counts@[b].0@);
        } else if b < a {
            assert(self.counts@[b].0@ != self.counts@[a].0@);
        }
    }

    /// One zeroed counter per given service.
    pub fn new(service_names: &Vec<String>) -> (t: SearchTracker)
        requires
            forall|i: int, j: int|
                0 <= i < j < service_names@.len() ==> service_names@[i]@ != service_names@[j]@,
        ensures
            t.wf(),
            t.n_services() == service_names@.len(),
            forall|i: int| 0 <= i < t.n_services() ==> t.name_at(i) == service_names@[i]@,
            forall|i: int| 0 <= i < t.n_services() ==> t.count_at(i) == 0,
            t.begins() == 0,
            t.completes() == 0,
    {
        let mut counts: Vec<(String, u128)> = Vec::new();
        let mut i: usize = 0;
        while i < service_names.len()
            invariant
                i <= service_names@.len(),
                counts@.len() == i,
                forall|j: int| 0 <= j < i ==> counts@[j].0@ == service_names@[j]@,
                forall|j: int| 0 <= j < i ==> counts@[j].1 == 0,
                sum_counts(counts@) == 0,
            decreases service_names@.len() - i,
        {
            let ghost prev = counts@;
            counts.push((service_names[i].clone(), 0));
            proof {
                lemma_sum_push(prev, counts@.last());
            }
            i = i + 1;
        }
        let t = SearchTracker { counts, begins: Ghost(0), completes: Ghost(0) };
        proof {
            assert forall|a: int, b: int|
                0 <= a < b < t.counts@.len() implies t.counts@[a].0@ != t.counts@[b].0@ by {
                assert(t.counts@[a].0@ == service_names@[a]@);
                assert(t.counts@[b].0@ == service_names@[b]@);
                assert(service_names@[a]@ != service_names@[b]@);
            }
        }
        t
    }

    /// Begins one response per service: every counter goes up by one.
    pub fn add_search(&mut self)
        requires
            old(self).wf(),
            forall|i: int| 0 <= i < old(self).n_services() ==> old(self).count_at(i) < u128::MAX,
        ensures
            final(self).wf(),
            final(self).n_services() == old(self).n_services(),
            forall|i: int|
                0 <= i < old(self).n_services() ==> final(self).name_at(i) == old(self).name_at(i),
            forall|i: int|
                0 <= i < old(self).n_services() ==> final(self).count_at(i) == old(self).count_at(i) + 1,
            final(self).begins() == old(self).begins() + old(self).n_services(),
            final(self).completes() == old(self).completes(),
    {
        proof {
            assert forall|j: int| 0 <= j < self.counts@.len() implies self.counts@[j].1
                < u128::MAX by {
                assert(old(self).count_at(j) < u128::MAX);
            }
        }
        let n: usize = self.counts.len();
        let mut i: usize = 0;
        while i < n
            invariant
                i <= n,
                n == self.counts@.len(),
                n == old(self).counts@.len(),
                self.begins == old(self).begins,
                self.completes == old(self).completes,
                forall|j: int| 0 <= j < n ==> self.counts@[j].0@ == old(self).counts@[j].0@,
                forall|j: int| 0 <= j < i ==> self.counts@[j].1 == old(self).counts@[j].1 + 1,
                forall|j: int| i <= j < n ==> self.counts@[j].1 == old(self).counts@[j].1,
                forall|j: int| 0 <= j < n ==> old(self).counts@[j].1 < u128::MAX,
            decreases n - i,
        {
            let name = self.counts[i].0.clone();
            let c: u128 = self.counts[i].1;
            self.counts.set(i, (name, c + 1));
            i = i + 1;
        }
        proof {
            lemma_sum_all_incremented(old(self).counts@, self.counts@);
            self.begins@ = self.begins@ + n as int;
        }
    }

    /// Completes one response of the named service: its counter goes down by
    /// one.  Completing a response of a service whose counter is already zero
    /// would be a defect in the caller's accounting, so it is ruled out here.
    #[verifier::loop_isolation(false)]
    pub fn mark_done(&mut self, name: String)
        requires
            old(self).wf(),
            exists|i: int|
                0 <= i < old(self).n_services() && old(self).name_at(i) == name@ && old(self).count_at(i) >= 1,
        ensures
            final(self).wf(),
            final(self).n_services() == old(self).n_services(),
            forall|i: int|
                0 <= i < old(self).n_services() ==> final(self).name_at(i) == old(self).name_at(i),
            forall|i: int|
                0 <= i < old(self).n_services() && old(self).name_at(i) != name@ ==> final(self).count_at(i) == old(self).count_at(i),
            forall|i: int|
                0 <= i < old(self).n_services() && old(self).name_at(i) == name@ ==> final(self).count_at(i) == old(self).count_at(i) - 1,
            final(self).begins() == old(self).begins(),
            final(self).completes() == old(self).completes() + 1,
    {
        let n: usize = self.counts.len();
        let mut i: usize = 0;
        while i < n
            invariant
                i <= n,
                n == self.counts@.len(),
                self.counts@ == old(self).counts@,
                self.begins == old(self).begins,
                self.completes == old(self).completes,
                forall|j: int| 0 <= j < i ==> self.counts@[j].0@ != name@,
            decreases n - i,
        {
            if self.counts[i].0 == name {
                proof {
                    assert(old(self).name_at(i as int) == name@);
                    let j = choose|j: int|
                        0 <= j < old(self).n_services() && old(self).name_at(j) == name@ && old(
                            self,
                        ).count_at(j) >= 1;
                    old(self).lemma_unique_name(j, i as int);
                    assert(old(self).count_at(i as int) >= 1);
                }
                let entry_name = self.counts[i].0.clone();
                let c: u128 = self.counts[i].1;
                let ghost prev = self.counts@;
                self.counts.set(i, (entry_name, c - 1));
                proof {
                    lemma_sum_one_decremented(prev, self.counts@, i as int);
                    self.completes@ = self.completes@ + 1;
                }
                return ;
            }
            i = i + 1;
        }
        proof {
            assert(false);
        }
    }

    /// True exactly when every counter is zero.
    pub fn is_done(&self) -> (done: bool)
        ensures
            done == self.quiescent(),
    {
        let n: usize = self.counts.len();
        let mut i: usize = 0;
        while i < n
            invariant
                i <= n,
                n == self.counts@.len(),
                forall|j: int| 0 <= j < i ==> self.counts@[j].1 == 0,
            decreases n - i,
        {
            if self.counts[i].1 != 0 {
                proof {
                    assert(self.count_at(i as int) != 0);
                }
                return false;
            }
            i = i + 1;
        }
        proof {
            assert forall|j: int| 0 <= j < self.n_services() implies self.count_at(j) == 0 by {
                assert(self.counts@[j].1 == 0);
            }
        }
        true
    }

    /// The counter of the named service, or nothing for an unknown name.
    #[verifier::loop_isolation(false)]
    pub fn count(&self, name: &String) -> (c: Option<u128>)
        requires
            self.wf(),
        ensures
            c is Some <==> self.has_service(name@),
            forall|i: int|
                0 <= i < self.n_services() && self.name_at(i) == name@ ==> c == Some(
                    self.count_at(i),
                ),
    {
        let n: usize = self.counts.len();
        let mut i: usize = 0;
        while i < n
            invariant
                i <= n,
                n == self.counts@.len(),
                forall|j: int| 0 <= j < i ==> self.counts@[j].0@ != name@,
            decreases n - i,
        {
            if self.counts[i].0 == *name {
                proof {
                    assert(self.name_at(i as int) == name@);
                    assert forall|j: int|
                        0 <= j < self.n_services() && self.name_at(j) == name@ implies j
                        == i as int by {
                        self.lemma_unique_name(j, i as int);
                    }
                }
                return Some(self.counts[i].1);
            }
            i = i + 1;
        }
        proof {
            assert forall|j: int| 0 <= j < self.n_services() implies self.name_at(j) != name@ by {
                assert(self.counts@[j].0@ != name@);
            }
        }
        None
    }
}

proof fn lemma_sum_push(entries: Seq<(String, u128)>, entry: (String, u128))
    ensures
        sum_counts(entries.push(entry)) == sum_counts(entries) + entry.1,
    decreases entries.len(),
{
    let pushed = entries.push(entry);
    if entries.len() == 0 {
        assert(pushed.drop_first() =~= Seq::<(String, u128)>::empty());
        assert(sum_counts(pushed) == pushed[0].1 + sum_counts(pushed.drop_first()));
        assert(sum_counts(Seq::<(String, u128)>::empty()) == 0);
    } else {
        assert(pushed.drop_first() =~= entries.drop_first().push(entry));
        lemma_sum_push(entries.drop_first(), entry);
        assert(sum_counts(pushed) == pushed[0].1 + sum_counts(pushed.drop_first()));
    }
}

/// At quiescence the ledger balances: every begun response was completed.
pub proof fn lemma_quiescent_accounting(t: &SearchTracker)
    requires
        t.wf(),
        t.quiescent(),
    ensures
        t.begins() == t.completes(),
{
    t.lemma_wf_entries();
}

impl SearchTracker {
    proof fn lemma_wf_entries(&self)
        requires
            self.wf(),
            self.quiescent(),
        ensures
            self.begins() == self.completes(),
    {
        assert forall|i: int| 0 <= i < self.counts@.len() implies self.counts@[i].1 == 0 by {
            assert(self.count_at(i) == 0);
        }
        lemma_sum_zero_iff_all_zero(self.counts@);
    }
}

} // verus!
