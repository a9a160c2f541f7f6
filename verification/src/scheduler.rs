//! The entity types — [`Slot`], [`Activity`], [`Schedule`] — and the
//! enumeration pipeline that turns a pool of activities and slots into the
//! set of distinct feasible schedules.

use vstd::prelude::*;

verus! {

use crate::model::arrangements_post;
use crate::model::can_alloc;
use crate::model::class_of;
use crate::model::consume;
use crate::model::distinct_post;
use crate::model::enumeration_post;
use crate::model::feasible;
use crate::model::filtered_post;
use crate::model::lemma_class_push;
use crate::model::lemma_consume_insert;
use crate::model::lemma_from_set_count;
use crate::model::lemma_names_push;
use crate::model::lemma_pipeline;
use crate::model::lemma_pipeline_over;
use crate::model::lemma_pipeline_zero;
use crate::model::lemma_pool_remove;
use crate::model::lemma_run_append;
use crate::model::lemma_run_one;
use crate::model::names_of;
use crate::model::names_seq;
use crate::model::pool_of;
use crate::model::run_pool;
use itertools::Itertools;
use vstd::multiset::group_multiset_axioms;
use vstd::seq_lib::group_to_multiset_ensures;

/// A named, reusable unit of scheduling capacity.  Its identity is its name
/// alone: two slots with equal names are the same slot for all allocation
/// purposes.
#[derive(Debug, Clone, Hash)]
pub struct Slot {
    pub name: String,
}

impl Slot {
    /// Creates a slot with the given name.
    pub fn new(name: &str) -> (slot: Slot)
        ensures
            slot.name@ == name@,
    {
        Slot { name: name.to_string() }
    }
}

impl PartialEq for Slot {
    fn eq(&self, other: &Slot) -> (r: bool) {
        self.name == other.name
    }
}

impl vstd::std_specs::cmp::PartialEqSpecImpl for Slot {
    open spec fn obeys_eq_spec() -> bool {
        true
    }

    open spec fn eq_spec(&self, other: &Slot) -> bool {
        self.name@ == other.name@
    }
}

/// A named task together with the slots it needs.  The requirement is fixed
/// at construction: an activity is never mutated.  The order of
/// `slots_to_use`, and duplicate names in it, do not matter: the requirement
/// is the *set* of names.
#[derive(Debug, Clone, Hash)]
pub struct Activity {
    pub name: String,
    pub slots_to_use: Vec<Slot>,
}

impl Activity {
    /// The set of slot names this activity requires.
    pub open spec fn req_names(self) -> Set<Seq<char>> {
        names_of(self.slots_to_use@)
    }

    /// The identity of an activity: its name together with its requirement.
    pub open spec fn key(self) -> crate::model::ActivityKey {
        (self.name@, self.req_names())
    }

    /// Creates an activity that requires (a copy of) each of the given slots.
    pub fn new_with_slots(name: &str, slots: Vec<&Slot>) -> (a: Activity)
        ensures
            a.name@ == name@,
            a.slots_to_use@.len() == slots@.len(),
            forall|i: int| 0 <= i < slots@.len() ==> a.slots_to_use@[i] == *slots@[i],
    {
        let mut owned: Vec<Slot> = Vec::new();
        let mut i: usize = 0;
        while i < slots.len()
            invariant
                i <= slots@.len(),
                owned@.len() == i,
                forall|j: int| 0 <= j < i ==> owned@[j] == *slots@[j],
            decreases slots@.len() - i,
        {
            let s: &Slot = slots[i];
            owned.push(Slot { name: s.name.clone() });
            i += 1;
        }
        Activity { name: name.to_string(), slots_to_use: owned }
    }

    /// True iff every slot this activity requires is present, by name, in
    /// `slots`.  A pure predicate: nothing is consumed.
    pub fn can_be_allocated_in(&self, slots: &[Slot]) -> (r: bool)
        ensures
            r == can_alloc(self.req_names(), pool_of(slots@)),
    {
        let mut i: usize = 0;
        while i < self.slots_to_use.len()
            invariant
                i <= self.slots_to_use@.len(),
                forall|j: int| 0 <= j < i
                    ==> pool_of(slots@).count(#[trigger] self.slots_to_use@[j].name@) > 0,
            decreases self.slots_to_use@.len() - i,
        {
            if !pool_has_name(slots, &self.slots_to_use[i].name) {
                proof {
                    broadcast use group_to_multiset_ensures;

                    let names = crate::model::names_seq(self.slots_to_use@);
                    assert(names[i as int] == self.slots_to_use@[i as int].name@);
                    assert(self.req_names().contains(self.slots_to_use@[i as int].name@));
                }
                return false;
            }
            i += 1;
        }
        proof {
            broadcast use group_to_multiset_ensures;

            assert forall|n: Seq<char>| self.req_names().contains(n) implies pool_of(
                slots@,
            ).count(n) > 0 by {
                let names = crate::model::names_seq(self.slots_to_use@);
                assert(names.contains(n));
                let j = choose|j: int| 0 <= j < names.len() && names[j] == n;
                assert(self.slots_to_use@[j].name@ == n);
            }
        }
        true
    }
}

/// Does the pool described by `slots` hold at least one occurrence of the
/// given name?
fn pool_has_name(slots: &[Slot], name: &String) -> (r: bool)
    ensures
        r == (pool_of(slots@).count(name@) > 0),
{
    let mut i: usize = 0;
    while i < slots.len()
        invariant
            i <= slots@.len(),
            forall|j: int| 0 <= j < i ==> (#[trigger] slots@[j].name@) != name@,
        decreases slots@.len() - i,
    {
        if slots[i].name == *name {
            proof {
                broadcast use group_to_multiset_ensures;

                let names = crate::model::names_seq(slots@);
                assert(names[i as int] == name@);
                assert(names.contains(name@));
            }
            return true;
        }
        i += 1;
    }
    proof {
        broadcast use group_to_multiset_ensures;

        let names = crate::model::names_seq(slots@);
        assert forall|j: int| 0 <= j < names.len() implies names[j] != name@ by {
            assert(slots@[j].name@ != name@);
        }
        assert(!names.contains(name@));
    }
    false
}

/// Is every name required by `a` also borne by some slot of `b`?
fn requirement_subset(a: &Vec<Slot>, b: &Vec<Slot>) -> (r: bool)
    ensures
        r == names_of(a@).subset_of(names_of(b@)),
{
    let mut i: usize = 0;
    while i < a.len()
        invariant
            i <= a@.len(),
            forall|j: int| 0 <= j < i ==> names_of(b@).contains(#[trigger] a@[j].name@),
        decreases a@.len() - i,
    {
        if !pool_has_name(b.as_slice(), &a[i].name) {
            proof {
                broadcast use group_to_multiset_ensures;

                let names = crate::model::names_seq(a@);
                assert(names[i as int] == a@[i as int].name@);
                assert(names_of(a@).contains(a@[i as int].name@));
                assert(!names_of(b@).contains(a@[i as int].name@));
            }
            return false;
        }
        proof {
            broadcast use group_to_multiset_ensures;

            assert(names_of(b@).contains(a@[i as int].name@));
        }
        i += 1;
    }
    proof {
        assert forall|n: Seq<char>| names_of(a@).contains(n) implies names_of(b@).contains(
            n,
        ) by {
            let names = crate::model::names_seq(a@);
            assert(names.contains(n));
            let j = choose|j: int| 0 <= j < names.len() && names[j] == n;
            assert(a@[j].name@ == n);
        }
    }
    true
}

impl PartialEq for Activity {
    fn eq(&self, other: &Activity) -> (r: bool) {
        if !(self.name == other.name) {
            return false;
        }
        let fwd = requirement_subset(&self.slots_to_use, &other.slots_to_use);
        let bwd = requirement_subset(&other.slots_to_use, &self.slots_to_use);
        proof {
            if fwd && bwd {
                assert(self.req_names() =~= other.req_names());
            }
        }
        fwd && bwd
    }
}

impl vstd::std_specs::cmp::PartialEqSpecImpl for Activity {
    open spec fn obeys_eq_spec() -> bool {
        true
    }

    open spec fn eq_spec(&self, other: &Activity) -> bool {
        self.key() == other.key()
    }
}

/// An ordered pick of activities.  Two schedules are the same whenever they
/// pick the same activities, whatever the order: equality compares the
/// multisets of activity keys.
#[derive(Debug, Clone, Hash)]
pub struct Schedule {
    activities: Vec<Activity>,
}

impl View for Schedule {
    type V = Seq<Activity>;

    closed spec fn view(&self) -> Seq<Activity> {
        self.activities@
    }
}

impl Schedule {
    /// Creates a schedule that picks the given activities in the given order.
    pub fn new(activities: Vec<Activity>) -> (s: Schedule)
        ensures
            s@ == activities@,
    {
        Schedule { activities }
    }

    /// The picked activities, in the schedule's order.
    pub fn activities(&self) -> (r: &Vec<Activity>)
        ensures
            r@ == self@,
    {
        &self.activities
    }
}

/// How many activities of `v` share their key with `a`?
fn count_key(v: &Vec<Activity>, a: &Activity) -> (r: usize)
    ensures
        r == class_of(v@).count(a.key()),
{
    proof {
        broadcast use group_to_multiset_ensures;
        broadcast use group_multiset_axioms;

    }
    let mut c: usize = 0;
    let mut i: usize = 0;
    while i < v.len()
        invariant
            i <= v@.len(),
            c <= i,
            c == class_of(v@.take(i as int)).count(a.key()),
        decreases v@.len() - i,
    {
        proof {
            broadcast use group_to_multiset_ensures;
            broadcast use group_multiset_axioms;

            assert(v@.take(i + 1) =~= v@.take(i as int).push(v@[i as int]));
            lemma_class_push(v@.take(i as int), v@[i as int]);
        }
        if v[i] == *a {
            c = c + 1;
        }
        i += 1;
    }
    proof {
        assert(v@.take(v@.len() as int) =~= v@);
    }
    c
}

impl PartialEq for Schedule {
    fn eq(&self, other: &Schedule) -> (r: bool) {
        let mut i: usize = 0;
        while i < self.activities.len()
            invariant
                i <= self.activities@.len(),
                forall|j: int| 0 <= j < i ==> class_of(self.activities@).count(
                    #[trigger] self.activities@[j].key(),
                ) == class_of(other.activities@).count(self.activities@[j].key()),
            decreases self.activities@.len() - i,
        {
            let c1 = count_key(&self.activities, &self.activities[i]);
            let c2 = count_key(&other.activities, &self.activities[i]);
            if c1 != c2 {
                return false;
            }
            i += 1;
        }
        let mut j: usize = 0;
        while j < other.activities.len()
            invariant
                j <= other.activities@.len(),
                forall|l: int| 0 <= l < self.activities@.len() ==> class_of(
                    self.activities@,
                ).count(#[trigger] self.activities@[l].key()) == class_of(
                    other.activities@,
                ).count(self.activities@[l].key()),
                forall|l: int| 0 <= l < j ==> class_of(self.activities@).count(
                    #[trigger] other.activities@[l].key(),
                ) == class_of(other.activities@).count(other.activities@[l].key()),
            decreases other.activities@.len() - j,
        {
            let c1 = count_key(&self.activities, &other.activities[j]);
            let c2 = count_key(&other.activities, &other.activities[j]);
            if c1 != c2 {
                return false;
            }
            j += 1;
        }
        proof {
            broadcast use group_to_multiset_ensures;
            broadcast use group_multiset_axioms;

            let m1 = class_of(self.activities@);
            let m2 = class_of(other.activities@);
            assert forall|k: crate::model::ActivityKey| m1.count(k) == m2.count(k) by {
                let s1 = self.activities@.map_values(|x: Activity| x.key());
                let s2 = other.activities@.map_values(|x: Activity| x.key());
                if m1.count(k) > 0 {
                    assert(s1.contains(k));
                    let l = choose|l: int| 0 <= l < s1.len() && s1[l] == k;
                    assert(self.activities@[l].key() == k);
                } else if m2.count(k) > 0 {
                    assert(s2.contains(k));
                    let l = choose|l: int| 0 <= l < s2.len() && s2[l] == k;
                    assert(other.activities@[l].key() == k);
                }
            }
            assert(m1 =~= m2);
        }
        true
    }
}

impl vstd::std_specs::cmp::PartialEqSpecImpl for Schedule {
    open spec fn obeys_eq_spec() -> bool {
        true
    }

    open spec fn eq_spec(&self, other: &Schedule) -> bool {
        class_of(self@) == class_of(other@)
    }
}

/// Every ordered arrangement of `k` distinct entries of `activities`, as a
/// schedule each.
///
/// Relies on itertools' `permutations` adaptor: it yields every
/// `k`-permutation of the iterator's elements — each pick of `k` distinct
/// positions, in each order, with the elements cloned; if `k` exceeds the
/// number of elements it yields nothing, and for `k == 0` it yields exactly
/// one empty arrangement.
#[verifier::external_body]
fn permutation_schedules(activities: &[Activity], k: u8) -> (r: Vec<Schedule>)
    ensures
        arrangements_post(activities@, k as int, r@),
{
    activities
        .iter()
        .permutations(k as usize)
        .map(|p| Schedule::new(p.into_iter().cloned().collect()))
        .collect()
}

/// A working copy of the pool, slot for slot.
fn copy_slots(slots: &[Slot]) -> (r: Vec<Slot>)
    ensures
        r@ == slots@,
{
    let mut r: Vec<Slot> = Vec::new();
    let mut i: usize = 0;
    while i < slots.len()
        invariant
            i <= slots@.len(),
            r@.len() == i,
            forall|j: int| 0 <= j < i ==> r@[j] == slots@[j],
        decreases slots@.len() - i,
    {
        r.push(Slot { name: slots[i].name.clone() });
        i += 1;
    }
    proof {
        assert(r@ =~= slots@);
    }
    r
}

/// Is some schedule of `v` the same pick of activities as `s`?
fn contains_equivalent(v: &Vec<Schedule>, s: &Schedule) -> (r: bool)
    ensures
        r == (exists|i: int| 0 <= i < v@.len() && class_of(#[trigger] v@[i]@) == class_of(s@)),
{
    let mut i: usize = 0;
    while i < v.len()
        invariant
            i <= v@.len(),
            forall|j: int| 0 <= j < i ==> class_of(#[trigger] v@[j]@) != class_of(s@),
        decreases v@.len() - i,
    {
        if v[i] == *s {
            return true;
        }
        i += 1;
    }
    false
}

impl Schedule {
    /// Every candidate schedule: each ordered arrangement of
    /// `num_of_activities` distinct activities drawn from `activities`.
    pub fn get_possible_schedules(activities: &[Activity], num_of_activities: u8) -> (r: Vec<
        Schedule,
    >)
        ensures
            arrangements_post(activities@, num_of_activities as int, r@),
    {
        permutation_schedules(activities, num_of_activities)
    }

    /// Every valid schedule for the given activities and slots with the
    /// given number of activities: each distinct, feasible way to pick and
    /// order `num_of_activities` of the activities, one schedule per
    /// unordered pick.
    pub fn get_all_valid_schedules(
        activities: &[Activity],
        slots: &[Slot],
        num_of_activities: u8,
    ) -> (r: Vec<Schedule>)
        ensures
            enumeration_post(activities@, slots@, num_of_activities as int, r@),
            num_of_activities == 0 ==> r@.len() == 1 && r@[0]@ == Seq::<Activity>::empty(),
            num_of_activities > activities@.len() ==> r@.len() == 0,
    {
        let ghost acts = activities@;
        let ghost k = num_of_activities as int;
        let possible = Self::get_possible_schedules(activities, num_of_activities);
        let ghost ps = possible@;
        let valid = Self::filter_valid_schedules(possible, slots);
        let ghost vs = valid@;
        let result = Self::filter_identical_schedules(valid);
        let ghost rs = result@;
        proof {
            lemma_pipeline(acts, slots@, k, ps, vs, rs);
            if num_of_activities == 0 {
                lemma_pipeline_zero(acts, slots@, ps, vs, rs);
            }
            if num_of_activities > activities.len() {
                lemma_pipeline_over(acts, slots@, k, ps, vs, rs);
            }
        }
        result
    }

    /// Keeps exactly the schedules that can be allocated in the given slots.
    pub fn filter_valid_schedules(all_schedules: Vec<Schedule>, slots: &[Slot]) -> (r: Vec<
        Schedule,
    >)
        ensures
            filtered_post(all_schedules@, slots@, r@),
    {
        let ghost orig = all_schedules@;
        let ghost pool = pool_of(slots@);
        let mut pending = all_schedules;
        let mut r: Vec<Schedule> = Vec::new();
        proof {
            assert(pending@ =~= orig.take(pending@.len() as int));
        }
        while pending.len() > 0
            invariant
                pending@.len() <= orig.len(),
                pending@ == orig.take(pending@.len() as int),
                pool == pool_of(slots@),
                forall|i: int|
                    0 <= i < r@.len() ==> feasible(#[trigger] r@[i]@, pool) && orig.contains(
                        r@[i],
                    ),
                forall|j: int|
                    pending@.len() <= j < orig.len() && feasible(#[trigger] orig[j]@, pool)
                        ==> r@.contains(orig[j]),
            decreases pending@.len(),
        {
            let ghost l = pending@.len() as int;
            let s = pending.pop().unwrap();
            proof {
                assert(orig.take(l)[l - 1] == orig[l - 1]);
                assert(s == orig[l - 1]);
                assert(orig.take(l).drop_last() =~= orig.take(l - 1));
            }
            let mut working = copy_slots(slots);
            let ok = filter_schedule_with_slots(&s, &mut working);
            if ok {
                let ghost r_old = r@;
                r.push(s);
                proof {
                    assert(orig.contains(orig[l - 1]));
                    assert forall|j: int|
                        l - 1 <= j < orig.len() && feasible(#[trigger] orig[j]@, pool) implies r@
                        .contains(orig[j]) by {
                        if j == l - 1 {
                            assert(r@[r@.len() - 1] == orig[j]);
                        } else {
                            let w = choose|w: int| 0 <= w < r_old.len() && r_old[w] == orig[j];
                            assert(r@[w] == orig[j]);
                        }
                    }
                }
            } else {
                proof {
                    assert(!feasible(orig[l - 1]@, pool));
                }
            }
        }
        proof {
            assert(pending@.len() == 0);
            assert(filtered_post(orig, slots@, r@)) by {
                assert forall|i: int| 0 <= i < r@.len() implies feasible(
                    #[trigger] r@[i]@,
                    pool_of(slots@),
                ) && orig.contains(r@[i]) by {
                    assert(feasible(r@[i]@, pool));
                }
                assert forall|x: Schedule|
                    #[trigger] orig.contains(x) && feasible(x@, pool_of(slots@)) implies r@
                    .contains(x) by {
                    let j = choose|j: int| 0 <= j < orig.len() && orig[j] == x;
                    assert(feasible(orig[j]@, pool));
                    assert(r@.contains(orig[j]));
                }
            }
        }
        r
    }

    /// Collapses the result to one representative per equivalence class:
    /// schedules that pick the same activities are the same schedule.
    pub fn filter_identical_schedules(possible_schedules: Vec<Schedule>) -> (r: Vec<Schedule>)
        ensures
            distinct_post(possible_schedules@, r@),
    {
        let ghost orig = possible_schedules@;
        let mut pending = possible_schedules;
        let mut r: Vec<Schedule> = Vec::new();
        proof {
            assert(pending@ =~= orig.take(pending@.len() as int));
        }
        while pending.len() > 0
            invariant
                pending@.len() <= orig.len(),
                pending@ == orig.take(pending@.len() as int),
                forall|i: int| 0 <= i < r@.len() ==> orig.contains(#[trigger] r@[i]),
                forall|j: int|
                    #![trigger orig[j]]
                    pending@.len() <= j < orig.len() ==> (exists|i: int|
                        0 <= i < r@.len() && class_of(#[trigger] r@[i]@) == class_of(orig[j]@)),
                forall|i: int, j: int|
                    0 <= i < r@.len() && 0 <= j < r@.len() && i != j ==> class_of(r@[i]@)
                        != class_of(r@[j]@),
            decreases pending@.len(),
        {
            let ghost l = pending@.len() as int;
            let s = pending.pop().unwrap();
            proof {
                assert(orig.take(l)[l - 1] == orig[l - 1]);
                assert(s == orig[l - 1]);
                assert(orig.take(l).drop_last() =~= orig.take(l - 1));
            }
            let dup = contains_equivalent(&r, &s);
            if !dup {
                let ghost r_old = r@;
                r.push(s);
                proof {
                    assert(orig.contains(orig[l - 1]));
                    assert forall|j: int| #![trigger orig[j]] l - 1 <= j < orig.len() implies (exists|i: int|
                        0 <= i < r@.len() && class_of(#[trigger] r@[i]@) == class_of(
                            orig[j]@,
                        )) by {
                        if j == l - 1 {
                            assert(class_of(r@[r@.len() - 1]@) == class_of(orig[j]@));
                        } else {
                            let w = choose|w: int|
                                0 <= w < r_old.len() && class_of(#[trigger] r_old[w]@) == class_of(
                                    orig[j]@,
                                );
                            assert(class_of(r@[w]@) == class_of(orig[j]@));
                        }
                    }
                }
            } else {
                proof {
                    let w = choose|w: int|
                        0 <= w < r@.len() && class_of(#[trigger] r@[w]@) == class_of(s@);
                    assert forall|j: int| #![trigger orig[j]] l - 1 <= j < orig.len() implies (exists|i: int|
                        0 <= i < r@.len() && class_of(#[trigger] r@[i]@) == class_of(
                            orig[j]@,
                        )) by {
                        if j == l - 1 {
                            assert(class_of(r@[w]@) == class_of(orig[j]@));
                        }
                    }
                }
            }
        }
        proof {
            assert(pending@.len() == 0);
            assert(distinct_post(orig, r@)) by {
                assert forall|x: Schedule| #[trigger] orig.contains(x) implies (exists|i: int|
                    0 <= i < r@.len() && class_of(#[trigger] r@[i]@) == class_of(x@)) by {
                    let j = choose|j: int| 0 <= j < orig.len() && orig[j] == x;
                    let w = choose|w: int|
                        0 <= w < r@.len() && class_of(#[trigger] r@[w]@) == class_of(orig[j]@);
                    assert(0 <= w < r@.len() && class_of(r@[w]@) == class_of(x@));
                }
            }
        }
        r
    }
}

/// Removes the first slot bearing the given name from the working pool.
fn remove_one_slot(slots: &mut Vec<Slot>, name: &String)
    requires
        pool_of(old(slots)@).count(name@) > 0,
    ensures
        pool_of(final(slots)@) == pool_of(old(slots)@).remove(name@),
{
    let mut j: usize = 0;
    while j < slots.len()
        invariant
            j <= slots@.len(),
            slots@ == old(slots)@,
            pool_of(old(slots)@).count(name@) > 0,
            forall|l: int| 0 <= l < j ==> (#[trigger] slots@[l].name@) != name@,
        decreases slots@.len() - j,
    {
        if slots[j].name == *name {
            proof {
                lemma_pool_remove(slots@, j as int);
            }
            slots.remove(j);
            return ;
        }
        j += 1;
    }
    proof {
        broadcast use group_to_multiset_ensures;

        let names = names_seq(slots@);
        assert forall|l: int| 0 <= l < names.len() implies names[l] != name@ by {
            assert(slots@[l].name@ != name@);
        }
        assert(!names.contains(name@));
        assert(false);
    }
}

/// Does the name of slot `i` of the activity's requirement list already occur
/// earlier in that list?
fn name_in_prefix(activity: &Activity, i: usize) -> (r: bool)
    requires
        i < activity.slots_to_use@.len(),
    ensures
        r == names_of(activity.slots_to_use@.take(i as int)).contains(
            activity.slots_to_use@[i as int].name@,
        ),
{
    let ghost prefix = activity.slots_to_use@.take(i as int);
    let mut j: usize = 0;
    while j < i
        invariant
            j <= i,
            i < activity.slots_to_use@.len(),
            prefix == activity.slots_to_use@.take(i as int),
            forall|l: int| 0 <= l < j ==> (#[trigger] activity.slots_to_use@[l].name@)
                != activity.slots_to_use@[i as int].name@,
        decreases i - j,
    {
        if activity.slots_to_use[j].name == activity.slots_to_use[i].name {
            proof {
                let names = names_seq(prefix);
                assert(prefix[j as int] == activity.slots_to_use@[j as int]);
                assert(names[j as int] == activity.slots_to_use@[i as int].name@);
                assert(names.contains(activity.slots_to_use@[i as int].name@));
            }
            return true;
        }
        j += 1;
    }
    proof {
        let names = names_seq(prefix);
        assert forall|l: int| 0 <= l < names.len() implies names[l]
            != activity.slots_to_use@[i as int].name@ by {
            assert(prefix[l] == activity.slots_to_use@[l]);
        }
        assert(!names.contains(activity.slots_to_use@[i as int].name@));
    }
    false
}

/// Consumes one pool occurrence of each distinct name the activity requires.
fn consume_requirement(slots: &mut Vec<Slot>, activity: &Activity)
    requires
        can_alloc(activity.req_names(), pool_of(old(slots)@)),
    ensures
        pool_of(final(slots)@) == consume(activity.req_names(), pool_of(old(slots)@)),
{
    let ghost pool0 = pool_of(old(slots)@);
    proof {
        broadcast use group_multiset_axioms;

        let e = names_of(activity.slots_to_use@.take(0));
        assert(names_seq(activity.slots_to_use@.take(0)) =~= Seq::<Seq<char>>::empty());
        assert(e =~= Set::<Seq<char>>::empty());
        assert forall|x: Seq<char>| consume(e, pool0).count(x) == pool0.count(x) by {
            lemma_from_set_count(e, x);
        }
        assert(consume(e, pool0) =~= pool0);
    }
    let mut i: usize = 0;
    while i < activity.slots_to_use.len()
        invariant
            i <= activity.slots_to_use@.len(),
            can_alloc(activity.req_names(), pool0),
            pool0 == pool_of(old(slots)@),
            pool_of(slots@) == consume(names_of(activity.slots_to_use@.take(i as int)), pool0),
        decreases activity.slots_to_use@.len() - i,
    {
        let ghost prefix = activity.slots_to_use@.take(i as int);
        let ghost elem = activity.slots_to_use@[i as int];
        proof {
            assert(activity.slots_to_use@.take(i + 1) =~= prefix.push(elem));
            lemma_names_push(prefix, elem);
        }
        let seen = name_in_prefix(activity, i);
        if !seen {
            proof {
                broadcast use group_to_multiset_ensures;
                broadcast use group_multiset_axioms;

                let n = elem.name@;
                let names = names_seq(activity.slots_to_use@);
                assert(names[i as int] == n);
                assert(names.contains(n));
                assert(activity.req_names().contains(n));
                lemma_from_set_count(names_of(prefix), n);
                assert(pool_of(slots@).count(n) == pool0.count(n));
                lemma_consume_insert(names_of(prefix), n, pool0);
            }
            remove_one_slot(slots, &activity.slots_to_use[i].name);
        } else {
            proof {
                assert(names_of(prefix).insert(elem.name@) =~= names_of(prefix));
            }
        }
        i += 1;
    }
    proof {
        assert(activity.slots_to_use@.take(activity.slots_to_use@.len() as int)
            =~= activity.slots_to_use@);
    }
}

/// Simulates the schedule against a working copy of the pool: each activity
/// in order must find every slot name it requires still unconsumed, and then
/// consumes one occurrence of each.  Returns whether the whole schedule could
/// be allocated; `slots` is left as the pool stood when the simulation
/// stopped.
pub fn filter_schedule_with_slots(schedule: &Schedule, slots: &mut Vec<Slot>) -> (ok: bool)
    ensures
        ok == feasible(schedule@, pool_of(old(slots)@)),
        pool_of(final(slots)@) == run_pool(schedule@, pool_of(old(slots)@)),
{
    let ghost pool0 = pool_of(old(slots)@);
    let ghost s = schedule@;
    let mut i: usize = 0;
    while i < schedule.activities.len()
        invariant
            i <= s.len(),
            s == schedule@,
            pool0 == pool_of(old(slots)@),
            feasible(s.take(i as int), pool0),
            pool_of(slots@) == run_pool(s.take(i as int), pool0),
        decreases s.len() - i,
    {
        let activity = &schedule.activities[i];
        proof {
            assert(s =~= s.take(i as int) + s.skip(i as int));
            lemma_run_append(s.take(i as int), s.skip(i as int), pool0);
            assert(s.skip(i as int).first() == s[i as int]);
        }
        let ok = activity.can_be_allocated_in(slots.as_slice());
        if !ok {
            proof {
                let cur = run_pool(s.take(i as int), pool0);
                assert(!feasible(s.skip(i as int), cur));
                assert(run_pool(s.skip(i as int), cur) == cur);
            }
            return false;
        }
        consume_requirement(slots, activity);
        proof {
            let cur = run_pool(s.take(i as int), pool0);
            assert(s.take(i + 1) =~= s.take(i as int) + seq![s[i as int]]);
            lemma_run_append(s.take(i as int), seq![s[i as int]], pool0);
            lemma_run_one(s[i as int], cur);
        }
        i += 1;
    }
    proof {
        assert(s.take(s.len() as int) =~= s);
    }
    true
}

} // verus!
