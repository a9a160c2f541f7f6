//! The mathematical model of slot allocation: pools as multisets of slot
//! names, activity requirements as sets of slot names, and the feasibility of
//! a sequence of activities against a pool.

use vstd::prelude::*;

verus! {

use crate::scheduler::Activity;
use crate::scheduler::Schedule;
use crate::scheduler::Slot;
use vstd::multiset::Multiset;

/// The key under which an activity is compared: its name together with the
/// set of slot names it requires.
pub type ActivityKey = (Seq<char>, Set<Seq<char>>);

/// The names borne by a sequence of slots, in order.
pub open spec fn names_seq(slots: Seq<Slot>) -> Seq<Seq<char>> {
    slots.map_values(|s: Slot| s.name@)
}

/// The set of names borne by a sequence of slots.
pub open spec fn names_of(slots: Seq<Slot>) -> Set<Seq<char>> {
    names_seq(slots).to_set()
}

/// The pool described by a sequence of slots: the multiset of their names.
/// A name occurring on several slots is that many separate consumable units.
pub open spec fn pool_of(slots: Seq<Slot>) -> Multiset<Seq<char>> {
    names_seq(slots).to_multiset()
}

/// A requirement can be allocated in a pool iff every required name has at
/// least one unconsumed occurrence in the pool.
pub open spec fn can_alloc(req: Set<Seq<char>>, pool: Multiset<Seq<char>>) -> bool {
    forall|n: Seq<char>| req.contains(n) ==> pool.count(n) > 0
}

/// The pool left after an allocated requirement consumes its slots: one
/// occurrence of each required name leaves the pool.
pub open spec fn consume(req: Set<Seq<char>>, pool: Multiset<Seq<char>>) -> Multiset<Seq<char>> {
    pool.sub(Multiset::from_set(req))
}

/// Sequential feasibility: each activity in turn must find all its required
/// names in what is left of the pool, and then consumes them.
pub open spec fn feasible(acts: Seq<Activity>, pool: Multiset<Seq<char>>) -> bool
    decreases acts.len(),
{
    acts.len() == 0 || (can_alloc(acts.first().req_names(), pool) && feasible(
        acts.drop_first(),
        consume(acts.first().req_names(), pool),
    ))
}

/// The pool left after running a sequence of activities against it.
/// Consumption stops at the first activity that cannot be allocated.
pub open spec fn run_pool(acts: Seq<Activity>, pool: Multiset<Seq<char>>) -> Multiset<Seq<char>>
    decreases acts.len(),
{
    if acts.len() == 0 {
        pool
    } else if can_alloc(acts.first().req_names(), pool) {
        run_pool(acts.drop_first(), consume(acts.first().req_names(), pool))
    } else {
        pool
    }
}

/// In the multiset of a finite set, every member counts once and every other
/// value zero times.
pub proof fn lemma_from_set_count(s: Set<Seq<char>>, n: Seq<char>)
    requires
        s.finite(),
    ensures
        Multiset::from_set(s).count(n) == if s.contains(n) {
            1nat
        } else {
            0nat
        },
{
    broadcast use vstd::multiset::group_multiset_axioms;

    let m = Map::new(|k: Seq<char>| s.contains(k), |v: Seq<char>| 1nat);
    assert(m.dom() =~= s);
}

/// Appending a slot to a sequence adds its name to the name set.
pub proof fn lemma_names_push(s: Seq<Slot>, x: Slot)
    ensures
        names_of(s.push(x)) == names_of(s).insert(x.name@),
{
    assert(names_seq(s.push(x)) =~= names_seq(s).push(x.name@));
    assert forall|n: Seq<char>| #[trigger] names_of(s.push(x)).contains(n) implies names_of(
        s,
    ).insert(x.name@).contains(n) by {
        let names = names_seq(s).push(x.name@);
        let j = choose|j: int| 0 <= j < names.len() && names[j] == n;
        if j < names.len() - 1 {
            assert(names_seq(s)[j] == n);
        }
    }
    assert forall|n: Seq<char>| #[trigger] names_of(s).insert(x.name@).contains(n) implies names_of(
        s.push(x),
    ).contains(n) by {
        let names = names_seq(s.push(x));
        if n == x.name@ {
            assert(names[names.len() - 1] == n);
        } else {
            let j = choose|j: int| 0 <= j < names_seq(s).len() && names_seq(s)[j] == n;
            assert(names[j] == n);
        }
    }
    assert(names_of(s.push(x)) =~= names_of(s).insert(x.name@));
}

/// Removing a slot from a sequence removes one occurrence of its name from
/// the pool.
pub proof fn lemma_pool_remove(s: Seq<Slot>, j: int)
    requires
        0 <= j < s.len(),
    ensures
        pool_of(s.remove(j)) == pool_of(s).remove(s[j].name@),
{
    broadcast use vstd::seq_lib::group_to_multiset_ensures;

    assert(names_seq(s.remove(j)) =~= names_seq(s).remove(j));
}

/// Growing the requirement by one fresh name consumes one more occurrence.
pub proof fn lemma_consume_insert(req: Set<Seq<char>>, n: Seq<char>, pool: Multiset<Seq<char>>)
    requires
        req.finite(),
        !req.contains(n),
    ensures
        consume(req.insert(n), pool) == consume(req, pool).remove(n),
{
    broadcast use vstd::multiset::group_multiset_axioms;

    assert forall|x: Seq<char>|
        consume(req.insert(n), pool).count(x) == consume(req, pool).remove(n).count(x) by {
        lemma_from_set_count(req, x);
        lemma_from_set_count(req.insert(n), x);
    }
    assert(consume(req.insert(n), pool) =~= consume(req, pool).remove(n));
}

/// Running a feasible prefix first, then the rest, is running the whole.
pub proof fn lemma_run_append(s1: Seq<Activity>, s2: Seq<Activity>, pool: Multiset<Seq<char>>)
    requires
        feasible(s1, pool),
    ensures
        feasible(s1 + s2, pool) == feasible(s2, run_pool(s1, pool)),
        run_pool(s1 + s2, pool) == run_pool(s2, run_pool(s1, pool)),
    decreases s1.len(),
{
    if s1.len() == 0 {
        assert(s1 + s2 =~= s2);
    } else {
        assert((s1 + s2).first() == s1.first());
        assert((s1 + s2).drop_first() =~= s1.drop_first() + s2);
        lemma_run_append(s1.drop_first(), s2, consume(s1.first().req_names(), pool));
    }
}

/// Feasibility and the remaining pool of a one-activity sequence.
pub proof fn lemma_run_one(a: Activity, pool: Multiset<Seq<char>>)
    ensures
        feasible(seq![a], pool) == can_alloc(a.req_names(), pool),
        run_pool(seq![a], pool) == (if can_alloc(a.req_names(), pool) {
            consume(a.req_names(), pool)
        } else {
            pool
        }),
{
    let rest = seq![a].drop_first();
    assert(rest =~= Seq::<Activity>::empty());
    assert(seq![a].first() == a);
    assert(feasible(rest, consume(a.req_names(), pool)));
    assert(run_pool(rest, consume(a.req_names(), pool)) == consume(a.req_names(), pool));
}

/// The equivalence class of a schedule-shaped sequence: the multiset of its
/// activities' keys.  Two sequences with equal classes are the same schedule,
/// whatever the order of their activities.
pub open spec fn class_of(acts: Seq<Activity>) -> Multiset<ActivityKey> {
    acts.map_values(|a: Activity| a.key()).to_multiset()
}

/// Appending an activity to a sequence adds its key to the class.
pub proof fn lemma_class_push(s: Seq<Activity>, a: Activity)
    ensures
        class_of(s.push(a)) == class_of(s).insert(a.key()),
{
    broadcast use vstd::seq_lib::group_to_multiset_ensures;

    assert(s.push(a).map_values(|x: Activity| x.key()) =~= s.map_values(
        |x: Activity| x.key(),
    ).push(a.key()));
}

/// `idx` picks `k` distinct positions out of `n`: an ordered arrangement
/// drawn without repetition.
pub open spec fn is_perm_index(idx: Seq<int>, n: int, k: int) -> bool {
    idx.len() == k && (forall|i: int| 0 <= i < idx.len() ==> 0 <= #[trigger] idx[i] < n)
        && idx.no_duplicates()
}

/// The activities that an index arrangement picks, in its order.
pub open spec fn select(acts: Seq<Activity>, idx: Seq<int>) -> Seq<Activity> {
    idx.map_values(|j: int| acts[j])
}

/// What the arrangement generator promises of its result `r`: every entry
/// arranges `k` distinct entries of `acts` in some order, every such
/// arrangement occurs, `k == 0` yields exactly the empty arrangement, and
/// `k` beyond `acts.len()` yields nothing.
pub open spec fn arrangements_post(acts: Seq<Activity>, k: int, r: Seq<Schedule>) -> bool {
    &&& (forall|i: int|
        #![trigger r[i]]
        0 <= i < r.len() ==> (exists|idx: Seq<int>|
            #[trigger] is_perm_index(idx, acts.len() as int, k) && r[i]@ == select(acts, idx)))
    &&& (forall|idx: Seq<int>|
        #[trigger] is_perm_index(idx, acts.len() as int, k) ==> (exists|i: int|
            0 <= i < r.len() && r[i]@ == select(acts, idx)))
    &&& (k == 0 ==> r.len() == 1)
    &&& (k > acts.len() ==> r.len() == 0)
}

/// What the feasibility filter promises of its result `r`: exactly the
/// feasible schedules of `input` survive, unchanged.
pub open spec fn filtered_post(input: Seq<Schedule>, slots: Seq<Slot>, r: Seq<Schedule>) -> bool {
    &&& (forall|i: int|
        0 <= i < r.len() ==> feasible(#[trigger] r[i]@, pool_of(slots)) && input.contains(r[i]))
    &&& (forall|x: Schedule|
        #[trigger] input.contains(x) && feasible(x@, pool_of(slots)) ==> r.contains(x))
}

/// What the deduplication promises of its result `r`: every entry comes from
/// `input`, every entry of `input` is represented by an entry of the same
/// class, and no class occurs twice.
pub open spec fn distinct_post(input: Seq<Schedule>, r: Seq<Schedule>) -> bool {
    &&& (forall|i: int| 0 <= i < r.len() ==> input.contains(#[trigger] r[i]))
    &&& (forall|x: Schedule|
        #[trigger] input.contains(x) ==> (exists|i: int|
            0 <= i < r.len() && class_of(#[trigger] r[i]@) == class_of(x@)))
    &&& (forall|i: int, j: int|
        0 <= i < r.len() && 0 <= j < r.len() && i != j ==> class_of(r[i]@) != class_of(r[j]@))
}

/// `s` is an ordered arrangement of `k` distinct entries of `acts` that can
/// be allocated, in its own order, in `pool`.
pub open spec fn feasible_selection(
    acts: Seq<Activity>,
    pool: Multiset<Seq<char>>,
    k: int,
    s: Seq<Activity>,
) -> bool {
    feasible(s, pool) && (exists|idx: Seq<int>|
        #[trigger] is_perm_index(idx, acts.len() as int, k) && s == select(acts, idx))
}

/// What the enumeration promises of its result `r`:
/// every returned schedule is a feasible arrangement of `k` distinct
/// activities of the pool; every feasible arrangement is represented by a
/// returned schedule of the same class; and no class is represented twice.
pub open spec fn enumeration_post(
    acts: Seq<Activity>,
    slots: Seq<Slot>,
    k: int,
    r: Seq<Schedule>,
) -> bool {
    let pool = pool_of(slots);
    &&& (forall|i: int| 0 <= i < r.len() ==> feasible_selection(acts, pool, k, #[trigger] r[i]@))
    &&& (forall|idx: Seq<int>|
        #[trigger] is_perm_index(idx, acts.len() as int, k) && feasible(select(acts, idx), pool)
            ==> exists|i: int| 0 <= i < r.len() && class_of(#[trigger] r[i]@) == class_of(
                select(acts, idx),
            ))
    &&& (forall|i: int, j: int|
        0 <= i < r.len() && 0 <= j < r.len() && i != j ==> class_of(r[i]@) != class_of(r[j]@))
}

/// Chaining the three stages: every entry of the deduplicated result is a
/// feasible arrangement.
pub proof fn lemma_pipeline_sound(
    acts: Seq<Activity>,
    slots: Seq<Slot>,
    k: int,
    ps: Seq<Schedule>,
    vs: Seq<Schedule>,
    rs: Seq<Schedule>,
)
    requires
        arrangements_post(acts, k, ps),
        filtered_post(ps, slots, vs),
        distinct_post(vs, rs),
    ensures
        forall|i: int|
            0 <= i < rs.len() ==> feasible_selection(acts, pool_of(slots), k, #[trigger] rs[i]@),
{
    let n = acts.len() as int;
    let pool = pool_of(slots);
    assert forall|i: int| 0 <= i < rs.len() implies feasible_selection(
        acts,
        pool,
        k,
        #[trigger] rs[i]@,
    ) by {
        assert(vs.contains(rs[i]));
        let jv = choose|jv: int| 0 <= jv < vs.len() && vs[jv] == rs[i];
        assert(feasible(vs[jv]@, pool));
        let jp = choose|jp: int| 0 <= jp < ps.len() && ps[jp] == vs[jv];
        let idx = choose|idx: Seq<int>|
            #[trigger] is_perm_index(idx, n, k) && ps[jp]@ == select(acts, idx);
        assert(is_perm_index(idx, n, k) && rs[i]@ == select(acts, idx));
        assert(feasible(rs[i]@, pool));
    }
}

/// Chaining the three stages: every feasible arrangement is represented in
/// the deduplicated result by an entry of its class.
pub proof fn lemma_pipeline_complete(
    acts: Seq<Activity>,
    slots: Seq<Slot>,
    k: int,
    ps: Seq<Schedule>,
    vs: Seq<Schedule>,
    rs: Seq<Schedule>,
)
    requires
        arrangements_post(acts, k, ps),
        filtered_post(ps, slots, vs),
        distinct_post(vs, rs),
    ensures
        forall|idx: Seq<int>|
            #[trigger] is_perm_index(idx, acts.len() as int, k) && feasible(
                select(acts, idx),
                pool_of(slots),
            ) ==> exists|i: int|
                0 <= i < rs.len() && class_of(#[trigger] rs[i]@) == class_of(select(acts, idx)),
{
    let n = acts.len() as int;
    let pool = pool_of(slots);
    assert forall|idx: Seq<int>|
        #[trigger] is_perm_index(idx, n, k) && feasible(select(acts, idx), pool) implies (exists|
    i: int,
    |
        0 <= i < rs.len() && class_of(#[trigger] rs[i]@) == class_of(select(acts, idx))) by {
        let l = choose|l: int| 0 <= l < ps.len() && ps[l]@ == select(acts, idx);
        assert(feasible(ps[l]@, pool));
        assert(ps.contains(ps[l]));
        assert(vs.contains(ps[l]));
        let w = choose|w: int| 0 <= w < rs.len() && class_of(#[trigger] rs[w]@) == class_of(ps[l]@);
        assert(0 <= w < rs.len() && class_of(rs[w]@) == class_of(select(acts, idx)));
    }
}

/// Chaining the three stages gives the enumeration's whole promise.
pub proof fn lemma_pipeline(
    acts: Seq<Activity>,
    slots: Seq<Slot>,
    k: int,
    ps: Seq<Schedule>,
    vs: Seq<Schedule>,
    rs: Seq<Schedule>,
)
    requires
        arrangements_post(acts, k, ps),
        filtered_post(ps, slots, vs),
        distinct_post(vs, rs),
    ensures
        enumeration_post(acts, slots, k, rs),
{
    lemma_pipeline_sound(acts, slots, k, ps, vs, rs);
    lemma_pipeline_complete(acts, slots, k, ps, vs, rs);
}

/// With a count of zero, the pipeline returns exactly one schedule: the
/// empty one.
pub proof fn lemma_pipeline_zero(
    acts: Seq<Activity>,
    slots: Seq<Slot>,
    ps: Seq<Schedule>,
    vs: Seq<Schedule>,
    rs: Seq<Schedule>,
)
    requires
        arrangements_post(acts, 0, ps),
        filtered_post(ps, slots, vs),
        distinct_post(vs, rs),
    ensures
        rs.len() == 1,
        rs[0]@ == Seq::<Activity>::empty(),
{
    let n = acts.len() as int;
    let pool = pool_of(slots);
    assert(ps.len() == 1);
    let idx0 = choose|idx0: Seq<int>| #[trigger] is_perm_index(idx0, n, 0) && ps[0]@ == select(
        acts,
        idx0,
    );
    assert(select(acts, idx0).len() == 0);
    assert(ps[0]@ =~= Seq::<Activity>::empty());
    assert(feasible(ps[0]@, pool));
    assert(ps.contains(ps[0]));
    assert(vs.contains(ps[0]));
    assert forall|iv: int| 0 <= iv < vs.len() implies vs[iv] == ps[0] by {
        assert(feasible(vs[iv]@, pool));
        assert(ps.contains(vs[iv]));
        let lp = choose|lp: int| 0 <= lp < ps.len() && ps[lp] == vs[iv];
    }
    let w0 = choose|w0: int| 0 <= w0 < rs.len() && class_of(#[trigger] rs[w0]@) == class_of(
        ps[0]@,
    );
    assert(rs.len() >= 1);
    assert forall|ir: int| 0 <= ir < rs.len() implies rs[ir] == ps[0] by {
        assert(vs.contains(rs[ir]));
        let lv = choose|lv: int| 0 <= lv < vs.len() && vs[lv] == rs[ir];
    }
    if rs.len() > 1 {
        assert(rs[0] == ps[0] && rs[1] == ps[0]);
        assert(class_of(rs[0]@) != class_of(rs[1]@));
        assert(false);
    }
    assert(rs[0]@ == Seq::<Activity>::empty());
}

/// With a count beyond the number of activities, the pipeline returns
/// nothing.
pub proof fn lemma_pipeline_over(
    acts: Seq<Activity>,
    slots: Seq<Slot>,
    k: int,
    ps: Seq<Schedule>,
    vs: Seq<Schedule>,
    rs: Seq<Schedule>,
)
    requires
        k > acts.len(),
        arrangements_post(acts, k, ps),
        filtered_post(ps, slots, vs),
        distinct_post(vs, rs),
    ensures
        rs.len() == 0,
{
    assert(ps.len() == 0);
    if vs.len() > 0 {
        assert(feasible(vs[0]@, pool_of(slots)));
        assert(ps.contains(vs[0]));
        let lp = choose|lp: int| 0 <= lp < ps.len() && ps[lp] == vs[0];
        assert(false);
    }
    if rs.len() > 0 {
        assert(vs.contains(rs[0]));
        let lv = choose|lv: int| 0 <= lv < vs.len() && vs[lv] == rs[0];
        assert(false);
    }
}

} // verus!
