//! Global properties of the enumeration, proved from what
//! [`crate::scheduler::Schedule::get_all_valid_schedules`] promises.

use vstd::prelude::*;

verus! {

use crate::model::class_of;
use crate::model::enumeration_post;
use crate::model::feasible;
use crate::model::feasible_selection;
use crate::model::is_perm_index;
use crate::model::pool_of;
use crate::model::select;
use crate::scheduler::Activity;
use crate::scheduler::Schedule;
use crate::scheduler::Slot;

/// One direction of determinism: every schedule of a result that meets the
/// enumeration's promise has an equal schedule — the same pick of
/// activities — in any other result that meets it for the same inputs.
pub proof fn lemma_enumeration_covered(
    acts: Seq<Activity>,
    slots: Seq<Slot>,
    k: int,
    r1: Seq<Schedule>,
    r2: Seq<Schedule>,
)
    requires
        enumeration_post(acts, slots, k, r1),
        enumeration_post(acts, slots, k, r2),
    ensures
        forall|x: Schedule|
            #[trigger] r1.contains(x) ==> (exists|j: int|
                0 <= j < r2.len() && class_of(x@) == class_of(#[trigger] r2[j]@)),
{
    let pool = pool_of(slots);
    assert forall|x: Schedule| #[trigger] r1.contains(x) implies (exists|j: int|
        0 <= j < r2.len() && class_of(x@) == class_of(#[trigger] r2[j]@)) by {
        let i = choose|i: int| 0 <= i < r1.len() && r1[i] == x;
        assert(feasible_selection(acts, pool, k, r1[i]@));
        let idx = choose|idx: Seq<int>|
            #[trigger] is_perm_index(idx, acts.len() as int, k) && r1[i]@ == select(acts, idx);
        assert(feasible(select(acts, idx), pool));
        let j = choose|j: int|
            0 <= j < r2.len() && class_of(#[trigger] r2[j]@) == class_of(select(acts, idx));
        assert(0 <= j < r2.len() && class_of(x@) == class_of(r2[j]@));
    }
}

/// Determinism: for fixed inputs, any two results that meet the
/// enumeration's promise are equal as sets of schedules — each schedule of
/// the one is, as a pick of activities, also in the other, though their
/// internal order may differ.
pub proof fn lemma_enumeration_deterministic(
    acts: Seq<Activity>,
    slots: Seq<Slot>,
    k: int,
    r1: Seq<Schedule>,
    r2: Seq<Schedule>,
)
    requires
        enumeration_post(acts, slots, k, r1),
        enumeration_post(acts, slots, k, r2),
    ensures
        forall|x: Schedule|
            #[trigger] r1.contains(x) ==> (exists|j: int|
                0 <= j < r2.len() && class_of(x@) == class_of(#[trigger] r2[j]@)),
        forall|x: Schedule|
            #[trigger] r2.contains(x) ==> (exists|i: int|
                0 <= i < r1.len() && class_of(x@) == class_of(#[trigger] r1[i]@)),
{
    lemma_enumeration_covered(acts, slots, k, r1, r2);
    lemma_enumeration_covered(acts, slots, k, r2, r1);
}

/// Symmetry: only one representative of each unordered pick is returned.
/// Two returned schedules that pick the same activities — in particular a
/// schedule and a reordering of it — stand at the same position, so a
/// reordering never appears as a separate result.
pub proof fn lemma_one_representative(
    acts: Seq<Activity>,
    slots: Seq<Slot>,
    k: int,
    r: Seq<Schedule>,
    i: int,
    j: int,
)
    requires
        enumeration_post(acts, slots, k, r),
        0 <= i < r.len(),
        0 <= j < r.len(),
        class_of(r[i]@) == class_of(r[j]@),
    ensures
        i == j,
{
}

} // verus!
