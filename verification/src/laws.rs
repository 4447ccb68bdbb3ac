//! The global laws of the store, stated and proved over the mathematical
//! model: what a whole sequence of operations preserves or restores.

use vstd::prelude::*;
use crate::store::TaskV;
use crate::store::compatible;
use crate::store::covers;
use crate::store::task_wf;
use crate::store::tasks_wf;
use crate::task::children_of;
use crate::task::children_upto;
use crate::task::count_left_below;
use crate::task::is_immediate_child;
use crate::task::lemma_all_boundaries_distinct;
use crate::task::lemma_count_sorted;
use crate::task::lemma_insert_wf;
use crate::task::lemma_move_left_spans;
use crate::task::lemma_siblings_apart;
use crate::task::lemma_swap_wf;
use crate::task::new_task_v;
use crate::task::spec_insert_tasks;
use crate::task::spec_remove_tasks;
use crate::task::spec_swap_spans;
use crate::task::spec_task_lines;
use crate::task::swap_orig;
use crate::task::swap_task;
use crate::types::valid_uid_seq;

verus! {

/// One requested insertion: the index of the parent row at the time of the
/// insertion, and the fields of the new task.
pub struct InsertReq {
    pub parent: int,
    pub uid: Seq<char>,
    pub name: Seq<char>,
    pub desc: Seq<char>,
}

/// The rows after applying one requested insertion.
pub open spec fn apply_insert(s: Seq<TaskV>, req: InsertReq) -> Seq<TaskV> {
    spec_insert_tasks(
        s,
        s[req.parent].right,
        new_task_v(req.uid, s[req.parent].right, req.name, req.desc),
    )
}

/// Every requested insertion names a valid parent row and a valid id, at
/// the moment it runs.
pub open spec fn reqs_ok(s: Seq<TaskV>, reqs: Seq<InsertReq>) -> bool
    decreases reqs.len(),
{
    if reqs.len() == 0 {
        true
    } else {
        &&& 0 <= reqs[0].parent < s.len()
        &&& valid_uid_seq(reqs[0].uid)
        &&& reqs_ok(apply_insert(s, reqs[0]), reqs.drop_first())
    }
}

/// Inserting the requested tasks in order and then removing each of them
/// again, in reverse order of insertion: the innermost recursion inserts
/// and removes the later requests, so each removal meets exactly the
/// width-1 interval its insertion created.
pub open spec fn insert_all_then_remove_all(s: Seq<TaskV>, reqs: Seq<InsertReq>) -> Seq<TaskV>
    decreases reqs.len(),
{
    if reqs.len() == 0 {
        s
    } else {
        let p = s[reqs[0].parent].right;
        let inner = insert_all_then_remove_all(apply_insert(s, reqs[0]), reqs.drop_first());
        spec_remove_tasks(inner, p, p + 1)
    }
}

/// Removing a freshly inserted leaf restores the rows exactly.
pub proof fn lemma_insert_then_remove(s: Seq<TaskV>, req: InsertReq)
    requires
        tasks_wf(s),
        0 <= req.parent < s.len(),
        valid_uid_seq(req.uid),
    ensures
        ({
            let p = s[req.parent].right;
            spec_remove_tasks(apply_insert(s, req), p, p + 1) == s
        }),
{
    let k = req.parent;
    let p = s[k].right;
    let n = s.len() as int;
    let new = new_task_v(req.uid, p, req.name, req.desc);
    let mapped = s.map_values(|t: TaskV| crate::task::shift_for_insert(t, p));
    let idx = count_left_below(s, p, n);
    let s2 = spec_insert_tasks(s, p, new);
    crate::task::lemma_boundaries_distinct(s, k);
    lemma_count_sorted(s, p, n);
    lemma_insert_wf(s, k, req.uid, req.name, req.desc);
    assert(s2.len() == n + 1);
    assert(p >= 2);
    assert(0 < idx <= n);
    // the rows of the widened tree, by index
    assert forall|i: int| 0 <= i < s2.len() && i != idx implies #[trigger] s2[i]
        == crate::task::shift_for_insert(
        s[if i < idx {
            i
        } else {
            i - 1
        }],
        p,
    ) by {
        if i < idx {
            assert(s2[i] == mapped[i]);
        } else {
            assert(s2[i] == mapped[i - 1]);
        }
    }
    assert(s2[idx] == new);
    // the removal span [p, p + 1] holds exactly the new row
    let i1 = count_left_below(s2, p, n + 1);
    let i2 = count_left_below(s2, p + 2, n + 1);
    lemma_count_sorted(s2, p, n + 1);
    lemma_count_sorted(s2, p + 2, n + 1);
    assert forall|i: int| 0 <= i < s2.len() implies ((#[trigger] s2[i]).left < p <==> i < idx) by {
        if i != idx {
            let o = if i < idx {
                i
            } else {
                i - 1
            };
            assert(task_wf(s[o]));
        }
    }
    assert forall|i: int| 0 <= i < s2.len() implies ((#[trigger] s2[i]).left < p + 2 <==> i
        < idx + 1) by {
        if i != idx {
            let o = if i < idx {
                i
            } else {
                i - 1
            };
            assert(task_wf(s[o]));
        }
    }
    assert(i1 == idx) by {
        if i1 < idx {
            assert(s2[i1].left >= p);
        }
        if i1 > idx {
            assert(s2[idx].left < p);
        }
    }
    assert(i2 == idx + 1) by {
        if i2 < idx + 1 {
            assert(s2[i2].left >= p + 2);
        }
        if i2 > idx + 1 {
            assert(s2[idx + 1].left < p + 2);
        }
    }
    let res = spec_remove_tasks(s2, p, p + 1);
    assert(res.len() == n);
    assert forall|a: int| 0 <= a < n implies #[trigger] res[a] == s[a] by {
        let base = s2.subrange(0, i1) + s2.subrange(i2, n + 1);
        if a < idx {
            assert(base[a] == s2[a]);
            assert(s2[a] == crate::task::shift_for_insert(s[a], p));
        } else {
            assert(base[a] == s2.subrange(i2, n + 1)[a - i1]);
            assert(s2[a + 1] == crate::task::shift_for_insert(s[a], p));
        }
        assert(task_wf(s[a]));
        assert(s[a].left != p);
        assert(a == k ==> s[a].right == p);
    }
    assert(res =~= s);
}

/// Round trip: inserting any sequence of tasks and then removing them in
/// reverse order of insertion restores the rows exactly — in particular
/// the root's `right` boundary returns to its original value.
pub proof fn lemma_insert_remove_round_trip(s: Seq<TaskV>, reqs: Seq<InsertReq>)
    requires
        tasks_wf(s),
        reqs_ok(s, reqs),
    ensures
        insert_all_then_remove_all(s, reqs) == s,
    decreases reqs.len(),
{
    if reqs.len() > 0 {
        let s1 = apply_insert(s, reqs[0]);
        lemma_insert_wf(s, reqs[0].parent, reqs[0].uid, reqs[0].name, reqs[0].desc);
        lemma_insert_remove_round_trip(s1, reqs.drop_first());
        lemma_insert_then_remove(s, reqs[0]);
    }
}

/// Idempotence of listing: the rendered lines are a pure function of the
/// task rows, and listing mutates nothing, so listing the same rows twice
/// yields identical output and ordering.
pub proof fn lemma_listing_idempotent(s1: Seq<TaskV>, s2: Seq<TaskV>)
    requires
        s1 == s2,
    ensures
        spec_task_lines(s1) == spec_task_lines(s2),
{
}

/// Reorder correctness, for a move towards the front: after the swap the
/// moved subtree's rows stand exactly where the target sibling's block
/// began, the moved task's interval starts at the target's former `left`
/// boundary, and every row outside the moved subtree keeps its relative
/// order.
pub proof fn lemma_reorder_positions(s: Seq<TaskV>, p: int, m: int, t: int)
    requires
        tasks_wf(s),
        is_immediate_child(s, p, m),
        is_immediate_child(s, p, t),
        t != m,
        s[t].left < s[m].left,
    ensures
        ({
            let a = s[t].left;
            let b = s[m].left - 1;
            let c = s[m].right;
            let r = spec_swap_spans(s, a, b, c);
            let j1 = count_left_below(s, a, s.len() as int);
            let j2 = count_left_below(s, b + 1, s.len() as int);
            let j3 = count_left_below(s, c + 1, s.len() as int);
            &&& tasks_wf(r)
            &&& r.len() == s.len()
            // the moved task now stands at the start of the reordered window
            &&& j2 == m
            &&& r[j1] == swap_task(s[m], a, b, c)
            &&& r[j1].left == s[t].left
            &&& r[j1].right - r[j1].left == s[m].right - s[m].left
            // rows outside the moved subtree keep their relative order
            &&& forall|x: int, y: int|
                0 <= x < s.len() && 0 <= y < s.len() && !(j2 <= x < j3) && !(j2 <= y < j3) ==> ((x
                    < y) <==> (#[trigger] position_after_swap(j1, j2, j3, x)
                    < #[trigger] position_after_swap(j1, j2, j3, y)))
            &&& forall|x: int|
                0 <= x < s.len() ==> #[trigger] r[position_after_swap(j1, j2, j3, x)] == swap_task(
                    s[x],
                    a,
                    b,
                    c,
                )
        }),
{
    let a = s[t].left;
    let b = s[m].left - 1;
    let c = s[m].right;
    let n = s.len() as int;
    let j1 = count_left_below(s, a, n);
    let j2 = count_left_below(s, b + 1, n);
    let j3 = count_left_below(s, c + 1, n);
    lemma_move_left_spans(s, p, m, t);
    lemma_swap_wf(s, a, b, c);
    lemma_count_sorted(s, a, n);
    lemma_count_sorted(s, b + 1, n);
    lemma_count_sorted(s, c + 1, n);
    lemma_all_boundaries_distinct(s);
    let r = spec_swap_spans(s, a, b, c);
    assert(j2 == m) by {
        assert(s[m].left == b + 1);
        if j2 < m {
            assert(s[j2].left >= b + 1);
            assert(s[j2].left < s[m].left);
        }
        if j2 > m {
            assert(s[m].left < b + 1);
        }
    }
    assert(j1 <= j2) by {
        if j1 > j2 {
            assert(s[j2].left < a);
            assert(s[j2].left >= b + 1);
        }
    }
    assert(j2 < j3) by {
        assert(s[m].left < c + 1);
    }
    assert(swap_orig(j1, j2, j3, j1) == j2);
    assert(r[j1] == swap_task(s[j2], a, b, c));
    assert(task_wf(s[m]));
    assert forall|x: int| 0 <= x < n implies #[trigger] r[position_after_swap(j1, j2, j3, x)]
        == swap_task(s[x], a, b, c) by {
        assert(swap_orig(j1, j2, j3, position_after_swap(j1, j2, j3, x)) == x);
    }
}

/// Reorder correctness, for a move towards the back: after the swap the
/// moved subtree's rows stand exactly where the reordered window ends, the
/// moved task's interval ends at the target's former `right` boundary, and
/// every row outside the moved subtree keeps its relative order.
pub proof fn lemma_reorder_positions_right(s: Seq<TaskV>, p: int, m: int, t: int)
    requires
        tasks_wf(s),
        is_immediate_child(s, p, m),
        is_immediate_child(s, p, t),
        t != m,
        s[m].right < s[t].right,
    ensures
        ({
            let a = s[m].left;
            let b = s[m].right;
            let c = s[t].right;
            let r = spec_swap_spans(s, a, b, c);
            let j1 = count_left_below(s, a, s.len() as int);
            let j2 = count_left_below(s, b + 1, s.len() as int);
            let j3 = count_left_below(s, c + 1, s.len() as int);
            &&& tasks_wf(r)
            &&& r.len() == s.len()
            // the moved task now stands at the end of the reordered window
            &&& j1 == m
            &&& r[j1 + (j3 - j2)] == swap_task(s[m], a, b, c)
            &&& r[j1 + (j3 - j2)].right == s[t].right
            &&& r[j1 + (j3 - j2)].right - r[j1 + (j3 - j2)].left == s[m].right - s[m].left
            // rows outside the moved subtree keep their relative order
            &&& forall|x: int, y: int|
                0 <= x < s.len() && 0 <= y < s.len() && !(j1 <= x < j2) && !(j1 <= y < j2) ==> ((x
                    < y) <==> (#[trigger] position_after_swap(j1, j2, j3, x)
                    < #[trigger] position_after_swap(j1, j2, j3, y)))
            &&& forall|x: int|
                0 <= x < s.len() ==> #[trigger] r[position_after_swap(j1, j2, j3, x)] == swap_task(
                    s[x],
                    a,
                    b,
                    c,
                )
        }),
{
    let a = s[m].left;
    let b = s[m].right;
    let c = s[t].right;
    let n = s.len() as int;
    let j1 = count_left_below(s, a, n);
    let j2 = count_left_below(s, b + 1, n);
    let j3 = count_left_below(s, c + 1, n);
    crate::task::lemma_move_right_spans(s, p, m, t);
    lemma_swap_wf(s, a, b, c);
    lemma_count_sorted(s, a, n);
    lemma_count_sorted(s, b + 1, n);
    lemma_count_sorted(s, c + 1, n);
    lemma_all_boundaries_distinct(s);
    lemma_siblings_apart(s, p, m, t);
    let r = spec_swap_spans(s, a, b, c);
    assert(task_wf(s[m]) && task_wf(s[t]));
    assert(j1 == m) by {
        assert(s[m].left == a);
        if j1 < m {
            assert(s[j1].left >= a);
            assert(s[j1].left < s[m].left);
        }
        if j1 > m {
            assert(s[m].left < a);
        }
    }
    assert(j1 < j2) by {
        assert(s[m].left < b + 1);
    }
    assert(j2 <= j3) by {
        if j2 > j3 {
            assert(s[j3].left < b + 1);
            assert(s[j3].left >= c + 1);
        }
    }
    assert(swap_orig(j1, j2, j3, j1 + (j3 - j2)) == j1);
    assert(r[j1 + (j3 - j2)] == swap_task(s[j1], a, b, c));
    assert forall|x: int| 0 <= x < n implies #[trigger] r[position_after_swap(j1, j2, j3, x)]
        == swap_task(s[x], a, b, c) by {
        assert(swap_orig(j1, j2, j3, position_after_swap(j1, j2, j3, x)) == x);
    }
}

/// The span swap changes where tasks stand, never how they nest: one
/// swapped task strictly contains another exactly when the originals did.
pub proof fn lemma_swap_covers_equiv(s: Seq<TaskV>, a: int, b: int, c: int)
    requires
        tasks_wf(s),
        2 <= a <= b < c,
        c < s[0].right,
        forall|i: int|
            0 <= i < s.len() ==> crate::task::in_span(#[trigger] s[i], a, b)
                || crate::task::in_span(s[i], b + 1, c) || crate::task::out_of_span(s[i], a, c),
    ensures
        forall|u: int, v: int|
            #![trigger swap_task(s[u], a, b, c), swap_task(s[v], a, b, c)]
            0 <= u < s.len() && 0 <= v < s.len() ==> (covers(
                swap_task(s[u], a, b, c),
                swap_task(s[v], a, b, c),
            ) <==> covers(s[u], s[v])),
{
    assert forall|u: int, v: int|
        #![trigger swap_task(s[u], a, b, c), swap_task(s[v], a, b, c)]
        0 <= u < s.len() && 0 <= v < s.len() implies (covers(
        swap_task(s[u], a, b, c),
        swap_task(s[v], a, b, c),
    ) <==> covers(s[u], s[v])) by {
        assert(task_wf(s[u]));
        assert(task_wf(s[v]));
    }
}

/// The span swap keeps the parent-child structure: a row is an immediate
/// child of another after the swap exactly when its counterpart was one
/// before.
pub proof fn lemma_swap_child_equiv(s: Seq<TaskV>, a: int, b: int, c: int, p: int, x: int)
    requires
        tasks_wf(s),
        2 <= a <= b < c,
        c < s[0].right,
        forall|i: int|
            0 <= i < s.len() ==> crate::task::in_span(#[trigger] s[i], a, b)
                || crate::task::in_span(s[i], b + 1, c) || crate::task::out_of_span(s[i], a, c),
        0 <= p < s.len(),
        0 <= x < s.len(),
    ensures
        ({
            let j1 = count_left_below(s, a, s.len() as int);
            let j2 = count_left_below(s, b + 1, s.len() as int);
            let j3 = count_left_below(s, c + 1, s.len() as int);
            is_immediate_child(
                spec_swap_spans(s, a, b, c),
                position_after_swap(j1, j2, j3, p),
                position_after_swap(j1, j2, j3, x),
            ) <==> is_immediate_child(s, p, x)
        }),
{
    let n = s.len() as int;
    let j1 = count_left_below(s, a, n);
    let j2 = count_left_below(s, b + 1, n);
    let j3 = count_left_below(s, c + 1, n);
    let r = spec_swap_spans(s, a, b, c);
    lemma_swap_wf(s, a, b, c);
    lemma_swap_covers_equiv(s, a, b, c);
    lemma_count_sorted(s, a, n);
    lemma_count_sorted(s, b + 1, n);
    lemma_count_sorted(s, c + 1, n);
    assert(j1 <= j2) by {
        if j1 > j2 {
            assert(s[j2].left < a);
        }
    }
    assert(j2 <= j3) by {
        if j2 > j3 {
            assert(s[j3].left < b + 1);
        }
    }
    assert forall|u: int| 0 <= u < n implies {
        &&& 0 <= #[trigger] position_after_swap(j1, j2, j3, u) < n
        &&& swap_orig(j1, j2, j3, position_after_swap(j1, j2, j3, u)) == u
        &&& r[position_after_swap(j1, j2, j3, u)] == swap_task(s[u], a, b, c)
    } by {
        assert(swap_orig(j1, j2, j3, position_after_swap(j1, j2, j3, u)) == u);
    }
    let pp = position_after_swap(j1, j2, j3, p);
    let px = position_after_swap(j1, j2, j3, x);
    if is_immediate_child(s, p, x) {
        assert(covers(r[pp], r[px]));
        if exists|j: int| 0 <= j < n && covers(r[pp], #[trigger] r[j]) && covers(r[j], r[px]) {
            let j = choose|j: int| 0 <= j < n && covers(r[pp], #[trigger] r[j]) && covers(
                r[j],
                r[px],
            );
            let oj = swap_orig(j1, j2, j3, j);
            assert(position_after_swap(j1, j2, j3, oj) == j);
            assert(r[j] == swap_task(s[oj], a, b, c));
            assert(covers(s[p], s[oj]));
            assert(covers(s[oj], s[x]));
            assert(false);
        }
        assert(is_immediate_child(r, pp, px));
    }
    if is_immediate_child(r, pp, px) {
        assert(covers(s[p], s[x]));
        if exists|j: int| 0 <= j < n && covers(s[p], #[trigger] s[j]) && covers(s[j], s[x]) {
            let j = choose|j: int| 0 <= j < n && covers(s[p], #[trigger] s[j]) && covers(
                s[j],
                s[x],
            );
            let pj = position_after_swap(j1, j2, j3, j);
            assert(r[pj] == swap_task(s[j], a, b, c));
            assert(covers(r[pp], r[pj]));
            assert(covers(r[pj], r[px]));
            assert(false);
        }
        assert(is_immediate_child(s, p, x));
    }
}

/// Two row sequences that agree on childhood over a prefix list the same
/// children there.
pub proof fn lemma_children_prefix_equal(s1: Seq<TaskV>, s2: Seq<TaskV>, p: int, i: int)
    requires
        forall|x: int| 0 <= x < i ==> (is_immediate_child(s1, p, x) <==> #[trigger] is_immediate_child(
            s2,
            p,
            x,
        )),
    ensures
        children_upto(s1, p, i) == children_upto(s2, p, i),
    decreases i,
{
    if i > 0 {
        lemma_children_prefix_equal(s1, s2, p, i - 1);
        assert(children_upto(s1, p, i) =~= children_upto(s2, p, i));
    }
}

/// A row range without children adds nothing to the enumeration.
pub proof fn lemma_children_range_none(s: Seq<TaskV>, p: int, lo: int, hi: int)
    requires
        0 <= lo <= hi,
        forall|x: int| lo <= x < hi ==> !is_immediate_child(s, p, x),
    ensures
        children_upto(s, p, hi).len() == children_upto(s, p, lo).len(),
    decreases hi - lo,
{
    if lo < hi {
        lemma_children_range_none(s, p, lo, hi - 1);
        assert(!is_immediate_child(s, p, hi - 1));
    }
}

/// Two row sequences that agree on childhood over a shifted range hold
/// equally many children there.
pub proof fn lemma_children_range_shift(
    s1: Seq<TaskV>,
    s2: Seq<TaskV>,
    p: int,
    lo: int,
    hi: int,
    off: int,
)
    requires
        0 <= lo <= hi,
        forall|x: int|
            lo <= x < hi ==> (is_immediate_child(s1, p, x + off) <==> #[trigger] is_immediate_child(
                s2,
                p,
                x,
            )),
    ensures
        children_upto(s1, p, hi + off).len() - children_upto(s1, p, lo + off).len()
            == children_upto(s2, p, hi).len() - children_upto(s2, p, lo).len(),
    decreases hi - lo,
{
    if lo < hi {
        lemma_children_range_shift(s1, s2, p, lo, hi - 1, off);
        assert(is_immediate_child(s1, p, (hi - 1) + off) <==> is_immediate_child(s2, p, hi - 1));
        assert(children_upto(s1, p, hi + off).len() == children_upto(s1, p, hi + off - 1).len()
            + (if is_immediate_child(s1, p, hi + off - 1) {
            1int
        } else {
            0int
        }));
    }
}

/// Reorder correctness at the children level, for a move towards the
/// back: moving a task to the position of the sibling that was child
/// number `kk` makes it child number `kk` of the same parent, with its id
/// unchanged; and a row is an immediate child of that parent afterwards
/// exactly when its counterpart was one before, so the other siblings keep
/// their relative order.
#[verifier::rlimit(100)]
pub proof fn lemma_reorder_children_right(s: Seq<TaskV>, p: int, m: int, t: int, kk: int)
    requires
        tasks_wf(s),
        is_immediate_child(s, p, m),
        is_immediate_child(s, p, t),
        t != m,
        s[m].right < s[t].right,
        0 <= kk < children_of(s, p).len(),
        children_of(s, p)[kk] == t,
    ensures
        ({
            let a = s[m].left;
            let b = s[m].right;
            let c = s[t].right;
            let r = spec_swap_spans(s, a, b, c);
            let j1 = count_left_below(s, a, s.len() as int);
            let j2 = count_left_below(s, b + 1, s.len() as int);
            let j3 = count_left_below(s, c + 1, s.len() as int);
            &&& kk < children_of(r, p).len()
            &&& children_of(r, p)[kk] == j1 + (j3 - j2)
            &&& r[j1 + (j3 - j2)].id == s[m].id
            &&& forall|x: int|
                0 <= x < s.len() ==> (is_immediate_child(
                    r,
                    p,
                    #[trigger] position_after_swap(j1, j2, j3, x),
                ) <==> is_immediate_child(s, p, x))
        }),
{
    let a = s[m].left;
    let b = s[m].right;
    let c = s[t].right;
    let n = s.len() as int;
    let j1 = count_left_below(s, a, n);
    let j2 = count_left_below(s, b + 1, n);
    let j3 = count_left_below(s, c + 1, n);
    let r = spec_swap_spans(s, a, b, c);
    crate::task::lemma_move_right_spans(s, p, m, t);
    lemma_reorder_positions_right(s, p, m, t);
    lemma_swap_wf(s, a, b, c);
    lemma_count_sorted(s, a, n);
    lemma_count_sorted(s, b + 1, n);
    lemma_count_sorted(s, c + 1, n);
    lemma_all_boundaries_distinct(s);
    lemma_siblings_apart(s, p, m, t);
    assert(task_wf(s[t]) && task_wf(s[m]) && task_wf(s[p]));
    assert(j1 == m);
    assert(j1 < j2) by {
        assert(s[m].left < b + 1);
    }
    assert(j2 <= j3) by {
        if j2 > j3 {
            assert(s[j3].left < b + 1);
            assert(s[j3].left >= c + 1);
        }
    }
    // the target's row lies in the block between the two spans
    assert(j2 <= t < j3) by {
        assert(s[t].left > s[m].right);
        assert(s[t].left < c + 1);
    }
    // the parent stands before the window and keeps its row
    assert(covers(s[p], s[m]));
    assert(p < j1);
    assert(position_after_swap(j1, j2, j3, p) == p);
    let pm = j1 + (j3 - j2);
    assert(position_after_swap(j1, j2, j3, m) == pm);
    // childhood is untouched, row by row
    assert forall|x: int| 0 <= x < n implies (is_immediate_child(
        r,
        p,
        #[trigger] position_after_swap(j1, j2, j3, x),
    ) <==> is_immediate_child(s, p, x)) by {
        lemma_swap_child_equiv(s, a, b, c, p, x);
    }
    // children on the identity prefix are the same rows in both sequences
    assert forall|x: int| 0 <= x < j1 implies (is_immediate_child(r, p, x)
        <==> #[trigger] is_immediate_child(s, p, x)) by {
        assert(position_after_swap(j1, j2, j3, x) == x);
    }
    lemma_children_prefix_equal(r, s, p, j1);
    let jj = children_upto(s, p, m).len() as int;
    // the moved task's own descendants are not children of the parent
    assert forall|x: int| m < x < j2 implies !is_immediate_child(s, p, x) by {
        assert(s[x].left < b + 1);
        assert(s[x].left >= a);
        if x != m {
            assert(compatible(s[x], s[m]));
            assert(task_wf(s[x]));
            assert(covers(s[m], s[x]));
            if is_immediate_child(s, p, x) {
                assert(covers(s[p], s[m]) && covers(s[m], s[x]));
                assert(false);
            }
        }
    }
    lemma_children_range_none(s, p, m + 1, j2);
    assert(children_upto(s, p, j2).len() == jj + 1);
    // the target's own descendants are not children of the parent either
    crate::task::lemma_children_index_count(s, p, kk);
    assert(children_upto(s, p, t).len() == kk);
    assert forall|x: int| t < x < j3 implies !is_immediate_child(s, p, x) by {
        assert(s[x].left < c + 1);
        assert(s[x].left > s[t].left);
        assert(compatible(s[x], s[t]));
        assert(task_wf(s[x]));
        assert(covers(s[t], s[x]));
        if is_immediate_child(s, p, x) {
            assert(covers(s[p], s[t]) && covers(s[t], s[x]));
            assert(false);
        }
    }
    lemma_children_range_none(s, p, t + 1, j3);
    assert(children_upto(s, p, j3).len() == kk + 1);
    // the block between the spans keeps its children, shifted down
    assert forall|x: int| j2 <= x < j3 implies (is_immediate_child(r, p, x + (j1 - j2))
        <==> #[trigger] is_immediate_child(s, p, x)) by {
        assert(position_after_swap(j1, j2, j3, x) == x + (j1 - j2));
    }
    lemma_children_range_shift(r, s, p, j2, j3, j1 - j2);
    assert(children_upto(r, p, j1).len() == jj);
    assert(children_upto(r, p, pm).len() == jj + (kk + 1) - (jj + 1));
    assert(children_upto(r, p, pm).len() == kk);
    // the moved task's new row ends the window and is still a child
    assert(is_immediate_child(r, p, pm));
    assert(children_upto(r, p, pm + 1) == children_upto(r, p, pm) + seq![pm]);
    crate::task::lemma_children_prefix(r, p, pm + 1, n);
    assert(children_upto(r, p, pm + 1)[kk] == pm);
    assert(children_of(r, p)[kk] == pm);
    assert(r[pm] == swap_task(s[m], a, b, c));
}

/// Reorder correctness at the children level, for a move towards the
/// front: moving a task to the position of the sibling that was child
/// number `kk` makes it child number `kk` of the same parent, with its id
/// unchanged; and a row is an immediate child of that parent afterwards
/// exactly when its counterpart was one before, so the other siblings keep
/// their relative order.
pub proof fn lemma_reorder_children(s: Seq<TaskV>, p: int, m: int, t: int, kk: int)
    requires
        tasks_wf(s),
        is_immediate_child(s, p, m),
        is_immediate_child(s, p, t),
        t != m,
        s[t].left < s[m].left,
        0 <= kk < children_of(s, p).len(),
        children_of(s, p)[kk] == t,
    ensures
        ({
            let a = s[t].left;
            let b = s[m].left - 1;
            let c = s[m].right;
            let r = spec_swap_spans(s, a, b, c);
            let j1 = count_left_below(s, a, s.len() as int);
            let j2 = count_left_below(s, b + 1, s.len() as int);
            let j3 = count_left_below(s, c + 1, s.len() as int);
            &&& kk < children_of(r, p).len()
            &&& children_of(r, p)[kk] == j1
            &&& r[j1].id == s[m].id
            &&& forall|x: int|
                0 <= x < s.len() ==> (is_immediate_child(
                    r,
                    p,
                    #[trigger] position_after_swap(j1, j2, j3, x),
                ) <==> is_immediate_child(s, p, x))
        }),
{
    let a = s[t].left;
    let b = s[m].left - 1;
    let c = s[m].right;
    let n = s.len() as int;
    let j1 = count_left_below(s, a, n);
    let j2 = count_left_below(s, b + 1, n);
    let j3 = count_left_below(s, c + 1, n);
    let r = spec_swap_spans(s, a, b, c);
    lemma_move_left_spans(s, p, m, t);
    lemma_reorder_positions(s, p, m, t);
    lemma_swap_wf(s, a, b, c);
    lemma_count_sorted(s, a, n);
    lemma_count_sorted(s, b + 1, n);
    lemma_count_sorted(s, c + 1, n);
    lemma_all_boundaries_distinct(s);
    assert(task_wf(s[t]) && task_wf(s[m]) && task_wf(s[p]));
    // the target's row is the first row of the reordered window
    assert(j1 == t) by {
        if j1 < t {
            assert(s[j1].left >= a);
            assert(s[j1].left < s[t].left);
        }
        if j1 > t {
            assert(s[t].left < a);
        }
    }
    // the parent stands before the window and keeps its row
    assert(covers(s[p], s[t]));
    assert(p < j1);
    assert(position_after_swap(j1, j2, j3, p) == p);
    assert(j2 == m);
    assert(position_after_swap(j1, j2, j3, m) == j1);
    // childhood is untouched, row by row
    assert forall|x: int| 0 <= x < n implies (is_immediate_child(
        r,
        p,
        #[trigger] position_after_swap(j1, j2, j3, x),
    ) <==> is_immediate_child(s, p, x)) by {
        lemma_swap_child_equiv(s, a, b, c, p, x);
    }
    // the children before the window are the same rows in both sequences
    assert forall|x: int| 0 <= x < j1 implies (is_immediate_child(r, p, x)
        <==> #[trigger] is_immediate_child(s, p, x)) by {
        assert(position_after_swap(j1, j2, j3, x) == x);
    }
    lemma_children_prefix_equal(r, s, p, j1);
    crate::task::lemma_children_index_count(s, p, kk);
    assert(children_upto(r, p, j1).len() == kk);
    // the moved task's new row opens the window and is still a child
    assert(is_immediate_child(r, p, j1));
    assert(children_upto(r, p, j1 + 1) == children_upto(r, p, j1) + seq![j1]);
    crate::task::lemma_children_prefix(r, p, j1 + 1, n);
    assert(children_upto(r, p, j1 + 1)[kk] == j1);
    assert(children_of(r, p)[kk] == j1);
    assert(r[j1] == swap_task(s[m], a, b, c));
}

/// Where a row lands when the blocks `[j1, j2)` and `[j2, j3)` change
/// places: the inverse of `swap_orig`.
pub open spec fn position_after_swap(j1: int, j2: int, j3: int, x: int) -> int {
    if x < j1 {
        x
    } else if x < j2 {
        x + (j3 - j2)
    } else if x < j3 {
        x - (j2 - j1)
    } else {
        x
    }
}

} // verus!
