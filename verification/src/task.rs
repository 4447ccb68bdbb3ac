//! Operations on the tasks of the current tree: short-prefix resolution,
//! insertion, removal, renaming, reordering and depth-first listing.

use vstd::prelude::*;
use vstd::string::*;
use crate::store::Forest;
use crate::store::ForestV;
use crate::store::Task;
use crate::store::TaskV;
use crate::store::Tree;
use crate::store::TreeV;
use crate::store::apart;
use crate::store::compatible;
use crate::store::covers;
use crate::store::forest_wf;
use crate::store::is_prefix;
use crate::store::spec_current_index;
use crate::store::str_starts_with;
use crate::store::task_wf;
use crate::store::tasks_view;
use crate::store::tasks_wf;
use crate::store::tree_wf;
use crate::types::ForestError;
use crate::types::valid_uid_seq;
use crate::types::Candidate;
use crate::types::Uid;

verus! {

/// The indices, in ascending order, of the non-root tasks among the first
/// `n` rows whose id starts with the prefix `p`.
pub open spec fn match_upto(s: Seq<TaskV>, p: Seq<char>, n: int) -> Seq<int>
    decreases n,
{
    if n <= 1 {
        Seq::empty()
    } else {
        match_upto(s, p, n - 1) + (if is_prefix(p, s[n - 1].id) {
            seq![n - 1]
        } else {
            Seq::empty()
        })
    }
}

/// The indices of the non-root tasks of the tree whose id starts with `p`.
pub open spec fn match_indices(s: Seq<TaskV>, p: Seq<char>) -> Seq<int> {
    match_upto(s, p, s.len() as int)
}

/// Every index returned by `match_upto` is a matching non-root row.
pub proof fn lemma_match_upto_sound(s: Seq<TaskV>, p: Seq<char>, n: int)
    requires
        n <= s.len(),
    ensures
        forall|k: int|
            0 <= k < match_upto(s, p, n).len() ==> {
                let i = #[trigger] match_upto(s, p, n)[k];
                1 <= i < n && is_prefix(p, s[i].id)
            },
    decreases n,
{
    if n > 1 {
        lemma_match_upto_sound(s, p, n - 1);
        let prev = match_upto(s, p, n - 1);
        let cur = match_upto(s, p, n);
        assert forall|k: int|
            0 <= k < cur.len() implies {
            let i = #[trigger] cur[k];
            1 <= i < n && is_prefix(p, s[i].id)
        } by {
            if k < prev.len() {
                assert(cur[k] == prev[k]);
            } else {
                assert(cur[k] == n - 1);
            }
        }
    }
}

/// Inserting at point `p` widens every interval boundary at or beyond `p`:
/// a `right` at or beyond `p` and a `left` beyond `p` move up by 2, making
/// room for the new width-1 interval `[p, p + 1]`.
pub open spec fn shift_for_insert(t: TaskV, p: int) -> TaskV {
    TaskV {
        left: if t.left > p {
            t.left + 2
        } else {
            t.left
        },
        right: if t.right >= p {
            t.right + 2
        } else {
            t.right
        },
        ..t
    }
}

/// How many of the first `n` tasks have a `left` below `p`.
pub open spec fn count_left_below(s: Seq<TaskV>, p: int, n: int) -> int
    decreases n,
{
    if n <= 0 {
        0
    } else {
        count_left_below(s, p, n - 1) + if s[n - 1].left < p {
            1int
        } else {
            0int
        }
    }
}

/// The fresh task that an insertion at point `p` creates.
pub open spec fn new_task_v(uid: Seq<char>, p: int, name: Seq<char>, desc: Seq<char>) -> TaskV {
    TaskV { id: uid, left: p, right: p + 1, name: name, description: desc }
}

/// The task rows after inserting `new` at point `p`: all rows shifted to
/// make room, and the new row placed so that the rows stay sorted by
/// ascending `left`.
pub open spec fn spec_insert_tasks(s: Seq<TaskV>, p: int, new: TaskV) -> Seq<TaskV> {
    s.map_values(|t: TaskV| shift_for_insert(t, p)).insert(
        count_left_below(s, p, s.len() as int),
        new,
    )
}

/// A tree after inserting a task as the last child of the task at index
/// `pi`: the insertion point is that parent's `right` boundary.
pub open spec fn spec_add_task(
    t: TreeV,
    pi: int,
    uid: Seq<char>,
    name: Seq<char>,
    desc: Seq<char>,
) -> TreeV {
    TreeV {
        name: t.name,
        description: t.description,
        tasks: spec_insert_tasks(
            t.tasks,
            t.tasks[pi].right,
            new_task_v(uid, t.tasks[pi].right, name, desc),
        ),
    }
}

/// The view of an optional borrowed prefix string.
pub open spec fn prefix_view(p: Option<&String>) -> Option<Seq<char>> {
    match p {
        Some(s) => Some(s@),
        None => None,
    }
}

/// How a parent argument resolves against the task rows: no argument means
/// the root at index 0; a prefix must resolve to exactly one non-root task.
pub open spec fn parent_resolves(tasks: Seq<TaskV>, parent: Option<Seq<char>>, pi: int) -> bool {
    match parent {
        None => pi == 0,
        Some(pref) => match_indices(tasks, pref) == seq![pi],
    }
}

/// In a sorted row sequence, the tasks with `left` below `p` are exactly
/// the first `count_left_below` rows.
pub proof fn lemma_count_sorted(s: Seq<TaskV>, p: int, n: int)
    requires
        0 <= n <= s.len(),
        forall|i: int, j: int| #![trigger s[i], s[j]] 0 <= i < j < s.len() ==> s[i].left < s[j].left,
    ensures
        0 <= count_left_below(s, p, n) <= n,
        forall|i: int| 0 <= i < n ==> (i < count_left_below(s, p, n) <==> (#[trigger] s[i]).left < p),
    decreases n,
{
    if n > 0 {
        lemma_count_sorted(s, p, n - 1);
        let c = count_left_below(s, p, n - 1);
        if s[n - 1].left < p {
            assert forall|i: int| 0 <= i < n - 1 implies (#[trigger] s[i]).left < p by {
                assert(s[i].left < s[n - 1].left);
            }
            assert(c == n - 1);
        }
    }
}

/// No `left` boundary of a well-formed row sequence coincides with a
/// `right` boundary, and `right` boundaries are pairwise distinct.
pub proof fn lemma_boundaries_distinct(s: Seq<TaskV>, k: int)
    requires
        tasks_wf(s),
        0 <= k < s.len(),
    ensures
        forall|i: int| 0 <= i < s.len() ==> (#[trigger] s[i]).left != s[k].right,
        forall|i: int| 0 <= i < s.len() && i != k ==> (#[trigger] s[i]).right != s[k].right,
{
    assert forall|i: int| 0 <= i < s.len() implies (#[trigger] s[i]).left != s[k].right by {
        if i != k {
            assert(compatible(s[i], s[k]));
        }
    }
    assert forall|i: int| 0 <= i < s.len() && i != k implies (#[trigger] s[i]).right
        != s[k].right by {
        assert(compatible(s[i], s[k]));
    }
}

/// Inserting a fresh width-1 task at the `right` boundary of an existing
/// task preserves the well-formedness of the rows.
pub proof fn lemma_insert_wf(s: Seq<TaskV>, k: int, uid: Seq<char>, name: Seq<char>, desc: Seq<char>)
    requires
        tasks_wf(s),
        0 <= k < s.len(),
        crate::types::valid_uid_seq(uid),
    ensures
        tasks_wf(spec_insert_tasks(s, s[k].right, new_task_v(uid, s[k].right, name, desc))),
{
    let p = s[k].right;
    let new = new_task_v(uid, p, name, desc);
    let mapped = s.map_values(|t: TaskV| shift_for_insert(t, p));
    let idx = count_left_below(s, p, s.len() as int);
    let r = mapped.insert(idx, new);
    lemma_boundaries_distinct(s, k);
    lemma_count_sorted(s, p, s.len() as int);
    assert(p >= 2);
    assert(s[0].left < p);
    assert(0 < idx <= s.len());
    // index correspondence of the result sequence
    assert(r.len() == s.len() + 1);
    assert forall|i: int| 0 <= i < r.len() && i != idx implies r[i] == shift_for_insert(
        s[if i < idx {
            i
        } else {
            i - 1
        }],
        p,
    ) by {
        if i < idx {
            assert(r[i] == mapped[i]);
        } else {
            assert(r[i] == mapped[i - 1]);
        }
    }
    assert(r[idx] == new);
    // each row is well formed
    assert forall|i: int| 0 <= i < r.len() implies task_wf(#[trigger] r[i]) by {
        if i != idx {
            let o = if i < idx {
                i
            } else {
                i - 1
            };
            assert(task_wf(s[o]));
        }
    }
    // pairwise compatibility
    assert forall|i: int, j: int|
        #![trigger r[i], r[j]]
        0 <= i < r.len() && 0 <= j < r.len() && i != j implies compatible(r[i], r[j]) by {
        if i != idx && j != idx {
            let oi = if i < idx {
                i
            } else {
                i - 1
            };
            let oj = if j < idx {
                j
            } else {
                j - 1
            };
            assert(oi != oj);
            assert(compatible(s[oi], s[oj]));
            assert(task_wf(s[oi]));
            assert(task_wf(s[oj]));
        } else {
            let a = if i == idx {
                j
            } else {
                i
            };
            let o = if a < idx {
                a
            } else {
                a - 1
            };
            assert(task_wf(s[o]));
            if o != k {
                assert(compatible(s[o], s[k]));
            }
        }
    }
    // sorted by ascending left
    assert forall|i: int, j: int|
        #![trigger r[i], r[j]]
        0 <= i < j < r.len() implies r[i].left < r[j].left by {
        if i != idx && j != idx {
            let oi = if i < idx {
                i
            } else {
                i - 1
            };
            let oj = if j < idx {
                j
            } else {
                j - 1
            };
            assert(s[oi].left < s[oj].left);
        } else if i == idx {
            let oj = j - 1;
            assert(!(s[oj].left < p));
        } else {
            let oi = i;
            assert(s[oi].left < p);
        }
    }
    // the root keeps its place and contains everything
    assert(r[0] == shift_for_insert(s[0], p));
    assert(r[0].left == 1);
    assert forall|i: int| 1 <= i < r.len() implies covers(r[0], #[trigger] r[i]) by {
        if i != idx {
            let o = if i < idx {
                i
            } else {
                i - 1
            };
            if o != 0 {
                assert(covers(s[0], s[o]));
            }
        } else {
            if k != 0 {
                assert(covers(s[0], s[k]));
            }
        }
    }
    // boundaries stay within twice the new length
    assert forall|i: int| 0 <= i < r.len() implies (#[trigger] r[i]).right <= 2 * r.len() by {
        if i != idx {
            let o = if i < idx {
                i
            } else {
                i - 1
            };
            assert(s[o].right <= 2 * s.len());
        } else {
            assert(s[k].right <= 2 * s.len());
        }
    }
    assert(tasks_wf(r));
}

/// Removing the span `[l, r]` narrows every boundary beyond `r` by the
/// width `shift = r - l + 1` of the span.
pub open spec fn shift_for_remove(t: TaskV, r: int, shift: int) -> TaskV {
    TaskV {
        left: if t.left > r {
            t.left - shift
        } else {
            t.left
        },
        right: if t.right > r {
            t.right - shift
        } else {
            t.right
        },
        ..t
    }
}

/// The task rows after removing the subtree spanning `[l, r]`: the rows
/// whose `left` lies in the span disappear, and the survivors close the
/// gap.  In a sorted row sequence the removed rows are contiguous.
pub open spec fn spec_remove_tasks(s: Seq<TaskV>, l: int, r: int) -> Seq<TaskV> {
    let i1 = count_left_below(s, l, s.len() as int);
    let i2 = count_left_below(s, r + 1, s.len() as int);
    (s.subrange(0, i1) + s.subrange(i2, s.len() as int)).map_values(
        |t: TaskV| shift_for_remove(t, r, r - l + 1),
    )
}

/// All interval boundaries of a well-formed row sequence are pairwise
/// distinct, within each row and across rows.
pub proof fn lemma_all_boundaries_distinct(s: Seq<TaskV>)
    requires
        tasks_wf(s),
    ensures
        forall|i: int, j: int|
            #![trigger s[i], s[j]]
            0 <= i < s.len() && 0 <= j < s.len() && i != j ==> s[i].left != s[j].left
                && s[i].right != s[j].right && s[i].left != s[j].right,
{
    assert forall|i: int, j: int|
        #![trigger s[i], s[j]]
        0 <= i < s.len() && 0 <= j < s.len() && i != j implies s[i].left != s[j].left
        && s[i].right != s[j].right && s[i].left != s[j].right by {
        assert(compatible(s[i], s[j]));
        assert(task_wf(s[i]));
        assert(task_wf(s[j]));
    }
}

/// A span `[l, r]` of a well-formed row sequence holds the complete
/// intervals of the rows it removes, so its width is at least twice their
/// number.
pub proof fn lemma_span_capacity(s: Seq<TaskV>, k: int)
    requires
        tasks_wf(s),
        1 <= k < s.len(),
    ensures
        ({
            let l = s[k].left;
            let r = s[k].right;
            let i1 = count_left_below(s, l, s.len() as int);
            let i2 = count_left_below(s, r + 1, s.len() as int);
            i1 <= i2 <= s.len() && 2 * (i2 - i1) <= r - l + 1
        }),
{
    let l = s[k].left;
    let r = s[k].right;
    let n = s.len() as int;
    let i1 = count_left_below(s, l, n);
    let i2 = count_left_below(s, r + 1, n);
    lemma_count_sorted(s, l, n);
    lemma_count_sorted(s, r + 1, n);
    lemma_all_boundaries_distinct(s);
    assert forall|i: int| 0 <= i < n implies ((i1 <= i < i2) <==> (l <= (#[trigger] s[i]).left
        <= r)) by {}
    assert(i1 <= i2);
    // every removed interval lies completely inside the span
    assert forall|i: int| i1 <= i < i2 implies l <= (#[trigger] s[i]).left && s[i].right <= r by {
        if i != k {
            assert(compatible(s[i], s[k]));
            assert(task_wf(s[i]));
        }
    }
    let m = i2 - i1;
    let bs = Seq::new((2 * m) as nat, |x: int| if x % 2 == 0 {
        s[i1 + x / 2].left
    } else {
        s[i1 + x / 2].right
    });
    assert forall|x: int, y: int|
        0 <= x < bs.len() && 0 <= y < bs.len() && x != y implies bs[x] != bs[y] by {
        let ix = i1 + x / 2;
        let iy = i1 + y / 2;
        assert(task_wf(s[ix]));
        if ix != iy {
            assert(s[ix].left != s[iy].left && s[ix].right != s[iy].right && s[ix].left
                != s[iy].right && s[iy].left != s[ix].right);
        }
    }
    assert(bs.no_duplicates());
    bs.unique_seq_to_set();
    vstd::set_lib::lemma_int_range(l, r + 1);
    assert forall|v: int| bs.to_set().contains(v) implies vstd::set_lib::set_int_range(
        l,
        r + 1,
    ).contains(v) by {
        let x = choose|x: int| 0 <= x < bs.len() && bs[x] == v;
        assert(l <= s[i1 + x / 2].left && s[i1 + x / 2].right <= r);
        assert(task_wf(s[i1 + x / 2]));
    }
    vstd::set_lib::lemma_len_subset(bs.to_set(), vstd::set_lib::set_int_range(l, r + 1));
}

/// Removing the complete subtree of a non-root task preserves the
/// well-formedness of the rows.
pub proof fn lemma_remove_wf(s: Seq<TaskV>, k: int)
    requires
        tasks_wf(s),
        1 <= k < s.len(),
    ensures
        tasks_wf(spec_remove_tasks(s, s[k].left, s[k].right)),
        spec_remove_tasks(s, s[k].left, s[k].right).len() == s.len() - (count_left_below(
            s,
            s[k].right + 1,
            s.len() as int,
        ) - count_left_below(s, s[k].left, s.len() as int)),
{
    let l = s[k].left;
    let r = s[k].right;
    let sh = r - l + 1;
    let n = s.len() as int;
    let i1 = count_left_below(s, l, n);
    let i2 = count_left_below(s, r + 1, n);
    let res = spec_remove_tasks(s, l, r);
    lemma_count_sorted(s, l, n);
    lemma_count_sorted(s, r + 1, n);
    lemma_all_boundaries_distinct(s);
    lemma_span_capacity(s, k);
    let m = i2 - i1;
    assert(covers(s[0], s[k]));
    assert(s[0].left < l);
    assert(i1 >= 1);
    assert(i1 <= k < i2);
    assert(res.len() == n - m);
    // index correspondence
    assert forall|a: int| 0 <= a < res.len() implies #[trigger] res[a] == shift_for_remove(
        s[if a < i1 {
            a
        } else {
            a - i1 + i2
        }],
        r,
        sh,
    ) by {
        let base = s.subrange(0, i1) + s.subrange(i2, n);
        if a < i1 {
            assert(base[a] == s[a]);
        } else {
            assert(base[a] == s.subrange(i2, n)[a - i1]);
        }
    }
    // kept rows have both boundaries outside the span
    assert forall|i: int| 0 <= i < n && !(i1 <= i < i2) implies !(l <= (#[trigger] s[i]).left
        <= r) && !(l <= s[i].right <= r) by {
        assert(task_wf(s[i]));
        if i != k {
            assert(compatible(s[i], s[k]));
        }
    }
    // every boundary is at most the root's right boundary
    assert forall|i: int| 0 <= i < n implies (#[trigger] s[i]).left <= s[0].right && s[i].right
        <= s[0].right by {
        assert(task_wf(s[i]));
        if i != 0 {
            assert(covers(s[0], s[i]));
        }
    }
    // pairwise properties of the result
    assert forall|a: int, b: int|
        #![trigger res[a], res[b]]
        0 <= a < res.len() && 0 <= b < res.len() && a != b implies compatible(res[a], res[b])
        && task_wf(res[a]) && (a < b ==> res[a].left < res[b].left) by {
        let oa = if a < i1 {
            a
        } else {
            a - i1 + i2
        };
        let ob = if b < i1 {
            b
        } else {
            b - i1 + i2
        };
        assert(oa != ob);
        assert(compatible(s[oa], s[ob]));
        assert(task_wf(s[oa]));
        assert(task_wf(s[ob]));
        assert(!(l <= s[oa].left <= r) && !(l <= s[oa].right <= r));
        assert(!(l <= s[ob].left <= r) && !(l <= s[ob].right <= r));
    }
    // the root keeps its place and still contains every row
    assert(res[0] == shift_for_remove(s[0], r, sh));
    assert(res[0].left == 1);
    assert forall|a: int| 1 <= a < res.len() implies covers(res[0], #[trigger] res[a]) by {
        let oa = if a < i1 {
            a
        } else {
            a - i1 + i2
        };
        assert(oa != 0);
        assert(covers(s[0], s[oa]));
        assert(!(l <= s[oa].left <= r) && !(l <= s[oa].right <= r));
        assert(s[0].right > r);
    }
    // the boundaries stay within twice the new length
    assert forall|a: int| 0 <= a < res.len() implies (#[trigger] res[a]).right <= 2 * res.len() by {
        let oa = if a < i1 {
            a
        } else {
            a - i1 + i2
        };
        assert(!(l <= s[oa].right <= r));
        assert(s[oa].right <= s[0].right);
        assert(s[0].right <= 2 * n);
        assert(s[0].right > r);
        assert(2 * m <= sh);
    }
    assert(tasks_wf(res));
}

/// Every index in the children sequence is an immediate child.
pub proof fn lemma_children_sound(s: Seq<TaskV>, p: int, n: int)
    ensures
        forall|k: int|
            0 <= k < children_upto(s, p, n).len() ==> {
                let i = #[trigger] children_upto(s, p, n)[k];
                0 <= i < n && is_immediate_child(s, p, i)
            },
    decreases n,
{
    if n > 0 {
        lemma_children_sound(s, p, n - 1);
        let prev = children_upto(s, p, n - 1);
        let cur = children_upto(s, p, n);
        assert forall|k: int|
            0 <= k < cur.len() implies {
            let i = #[trigger] cur[k];
            0 <= i < n && is_immediate_child(s, p, i)
        } by {
            if k < prev.len() {
                assert(cur[k] == prev[k]);
            } else {
                assert(cur[k] == n - 1);
            }
        }
    }
}

/// The children sequence lists row indices in strictly increasing order.
pub proof fn lemma_children_increasing(s: Seq<TaskV>, p: int, n: int)
    ensures
        forall|a: int, b: int|
            0 <= a < b < children_upto(s, p, n).len() ==> #[trigger] children_upto(s, p, n)[a]
                < #[trigger] children_upto(s, p, n)[b],
    decreases n,
{
    if n > 0 {
        lemma_children_increasing(s, p, n - 1);
        lemma_children_sound(s, p, n - 1);
        let prev = children_upto(s, p, n - 1);
        let cur = children_upto(s, p, n);
        assert forall|a: int, b: int|
            0 <= a < b < cur.len() implies #[trigger] cur[a] < #[trigger] cur[b] by {
            if b < prev.len() {
                assert(cur[a] == prev[a] && cur[b] == prev[b]);
            } else {
                assert(cur[b] == n - 1);
                assert(cur[a] == prev[a]);
                assert(prev[a] < n - 1);
            }
        }
    }
}

/// The child at offset `K` of the enumeration has exactly `K` children
/// before its own row.
pub proof fn lemma_children_index_count(s: Seq<TaskV>, p: int, kk: int)
    requires
        0 <= kk < children_of(s, p).len(),
    ensures
        is_immediate_child(s, p, children_of(s, p)[kk]),
        0 <= children_of(s, p)[kk] < s.len(),
        children_upto(s, p, children_of(s, p)[kk]).len() == kk,
{
    let e = children_of(s, p);
    let n = s.len() as int;
    let i = e[kk];
    lemma_children_sound(s, p, n);
    lemma_children_increasing(s, p, n);
    lemma_children_prefix(s, p, i + 1, n);
    lemma_children_prefix(s, p, i, i + 1);
    lemma_children_sound(s, p, i);
    let ll = children_upto(s, p, i).len() as int;
    assert(is_immediate_child(s, p, i));
    assert(children_upto(s, p, i + 1) == children_upto(s, p, i) + seq![i]);
    assert(children_upto(s, p, i + 1)[ll] == i);
    lemma_children_prefix(s, p, i + 1, n);
    assert(e[ll] == i);
    if ll != kk {
        assert(e[ll] == e[kk]);
        if ll < kk {
            assert(e[ll] < e[kk]);
        } else {
            assert(e[kk] < e[ll]);
        }
        assert(false);
    }
}

/// A shorter prefix of the rows holds a prefix of the children.
pub proof fn lemma_children_prefix(s: Seq<TaskV>, p: int, i: int, n: int)
    requires
        0 <= i <= n,
    ensures
        children_upto(s, p, i).len() <= children_upto(s, p, n).len(),
        forall|k: int|
            0 <= k < children_upto(s, p, i).len() ==> #[trigger] children_upto(s, p, n)[k]
                == children_upto(s, p, i)[k],
    decreases n - i,
{
    if i < n {
        lemma_children_prefix(s, p, i, n - 1);
    }
}

/// Finds the immediate parent of the non-root row `m`: the container with
/// the greatest `left` boundary.
fn find_parent(tasks: &Vec<Task>, m: usize) -> (p: usize)
    requires
        tasks_wf(tasks_view(tasks@)),
        1 <= m < tasks@.len(),
    ensures
        is_immediate_child(tasks_view(tasks@), p as int, m as int),
        p < tasks@.len(),
{
    let ghost tv = tasks_view(tasks@);
    let n = tasks.len();
    let ml = tasks[m].left;
    let mr = tasks[m].right;
    proof {
        assert(tv[m as int] == tasks@[m as int]@);
        assert(covers(tv[0], tv[m as int]));
        assert(tv[0] == tasks@[0]@);
    }
    let mut best: usize = 0;
    let mut i: usize = 1;
    while i < n
        invariant
            1 <= i <= n,
            n == tasks@.len(),
            tv == tasks_view(tasks@),
            tasks_wf(tv),
            1 <= m < n,
            ml as int == tv[m as int].left,
            mr as int == tv[m as int].right,
            best < n,
            covers(tv[best as int], tv[m as int]),
            forall|j: int|
                0 <= j < i && covers(#[trigger] tv[j], tv[m as int]) ==> tv[j].left
                    <= tv[best as int].left,
        decreases n - i,
    {
        proof {
            assert(tv[i as int] == tasks@[i as int]@);
            assert(tv[best as int] == tasks@[best as int]@);
        }
        let t = &tasks[i];
        if t.left < ml && mr < t.right && t.left > tasks[best].left {
            best = i;
        }
        i += 1;
    }
    proof {
        lemma_tightest_is_parent(tv, m as int, best as int);
    }
    best
}

/// Whether the row `c` is an immediate child of the row `p`: contained in
/// it, with no third row between them.
fn is_child_exec(tasks: &Vec<Task>, p: usize, c: usize) -> (r: bool)
    requires
        tasks_wf(tasks_view(tasks@)),
        p < tasks@.len(),
        c < tasks@.len(),
    ensures
        r == is_immediate_child(tasks_view(tasks@), p as int, c as int),
{
    let ghost tv = tasks_view(tasks@);
    let n = tasks.len();
    proof {
        assert(tv[p as int] == tasks@[p as int]@);
        assert(tv[c as int] == tasks@[c as int]@);
    }
    if !(tasks[p].left < tasks[c].left && tasks[c].right < tasks[p].right) {
        return false;
    }
    let pl = tasks[p].left;
    let pr = tasks[p].right;
    let cl = tasks[c].left;
    let cr = tasks[c].right;
    let mut j: usize = 0;
    while j < n
        invariant
            0 <= j <= n,
            n == tasks@.len(),
            tv == tasks_view(tasks@),
            p < n,
            c < n,
            pl as int == tv[p as int].left,
            pr as int == tv[p as int].right,
            cl as int == tv[c as int].left,
            cr as int == tv[c as int].right,
            forall|k: int|
                0 <= k < j ==> !(covers(tv[p as int], #[trigger] tv[k]) && covers(
                    tv[k],
                    tv[c as int],
                )),
        decreases n - j,
    {
        proof {
            assert(tv[j as int] == tasks@[j as int]@);
        }
        let t = &tasks[j];
        if pl < t.left && t.right < pr && t.left < cl && cr < t.right {
            proof {
                assert(covers(tv[p as int], tv[j as int]) && covers(tv[j as int], tv[c as int]));
            }
            return false;
        }
        j += 1;
    }
    true
}

/// Finds the child of `p` at offset `k` among its immediate children in
/// ascending order, if there is one.
fn nth_child(tasks: &Vec<Task>, p: usize, k: u64) -> (r: Option<usize>)
    requires
        tasks_wf(tasks_view(tasks@)),
        p < tasks@.len(),
    ensures
        ({
            let ch = children_of(tasks_view(tasks@), p as int);
            match r {
                Some(c) => k < ch.len() && ch[k as int] == c as int && c < tasks@.len(),
                None => ch.len() <= k,
            }
        }),
{
    let ghost tv = tasks_view(tasks@);
    let n = tasks.len();
    let mut cnt: u64 = 0;
    let mut i: usize = 0;
    while i < n
        invariant
            0 <= i <= n,
            n == tasks@.len(),
            tv == tasks_view(tasks@),
            tasks_wf(tv),
            p < n,
            cnt as int == children_upto(tv, p as int, i as int).len(),
            cnt <= k,
        decreases n - i,
    {
        if is_child_exec(tasks, p, i) {
            if cnt == k {
                proof {
                    lemma_children_prefix(tv, p as int, i + 1, tv.len() as int);
                    assert(children_upto(tv, p as int, i + 1)[k as int] == i as int);
                }
                return Some(i);
            }
            cnt = cnt + 1;
        }
        i += 1;
    }
    proof {
        lemma_children_prefix(tv, p as int, n as int, tv.len() as int);
    }
    None
}

/// Applies the span swap to the rows `[from, to)` and appends them to `out`.
fn push_swapped(
    out: &mut Vec<Task>,
    tasks: &Vec<Task>,
    from: usize,
    to: usize,
    a: u64,
    b: u64,
    c: u64,
)
    requires
        from <= to <= tasks@.len(),
        2 <= a <= b < c,
    ensures
        final(out)@.len() == old(out)@.len() + (to - from),
        forall|k: int|
            0 <= k < old(out)@.len() ==> #[trigger] final(out)@[k] == old(out)@[k],
        forall|k: int|
            old(out)@.len() <= k < final(out)@.len() ==> #[trigger] tasks_view(final(out)@)[k]
                == swap_task(
                tasks_view(tasks@)[from + (k - old(out)@.len())],
                a as int,
                b as int,
                c as int,
            ),
{
    let base = out.len();
    let mut i: usize = from;
    while i < to
        invariant
            from <= i <= to,
            to <= tasks@.len(),
            2 <= a <= b < c,
            base == old(out)@.len(),
            out@.len() == base + (i - from),
            forall|k: int| 0 <= k < base ==> #[trigger] out@[k] == old(out)@[k],
            forall|k: int|
                base <= k < out@.len() ==> #[trigger] tasks_view(out@)[k] == swap_task(
                    tasks_view(tasks@)[from + (k - base)],
                    a as int,
                    b as int,
                    c as int,
                ),
        decreases to - i,
    {
        let t = &tasks[i];
        let ghost pre = out@;
        proof {
            assert(tasks_view(tasks@)[i as int] == tasks@[i as int]@);
        }
        let nl = if a <= t.left && t.left <= b {
            t.left + (c - b)
        } else if b < t.left && t.left <= c {
            t.left - (b - a + 1)
        } else {
            t.left
        };
        let nr = if a <= t.right && t.right <= b {
            t.right + (c - b)
        } else if b < t.right && t.right <= c {
            t.right - (b - a + 1)
        } else {
            t.right
        };
        out.push(
            Task {
                id: t.id.duplicate(),
                left: nl,
                right: nr,
                name: t.name.clone(),
                description: t.description.clone(),
            },
        );
        proof {
            assert(tasks_view(out@)[base + (i - from)] == out@[base + (i - from)]@);
            assert forall|k: int|
                base <= k < out@.len() implies #[trigger] tasks_view(out@)[k] == swap_task(
                tasks_view(tasks@)[from + (k - base)],
                a as int,
                b as int,
                c as int,
            ) by {
                if k < out@.len() - 1 {
                    assert(out@[k] == pre[k]);
                    assert(tasks_view(pre)[k] == pre[k]@);
                    assert(tasks_view(out@)[k] == out@[k]@);
                }
            }
            assert forall|k: int| 0 <= k < base implies #[trigger] out@[k] == old(out)@[k] by {
                assert(out@[k] == pre[k]);
            }
        }
        i += 1;
    }
}

/// Rebuilds the rows with the spans `[a, b]` and `[b + 1, c]` swapped.
fn swap_span_tasks(tasks: &Vec<Task>, a: u64, b: u64, c: u64) -> (out: Vec<Task>)
    requires
        tasks_wf(tasks_view(tasks@)),
        2 <= a <= b < c,
        c < tasks_view(tasks@)[0].right,
        forall|i: int|
            0 <= i < tasks@.len() ==> in_span(#[trigger] tasks_view(tasks@)[i], a as int, b as int)
                || in_span(tasks_view(tasks@)[i], b as int + 1, c as int) || out_of_span(
                tasks_view(tasks@)[i],
                a as int,
                c as int,
            ),
    ensures
        tasks_view(out@) == spec_swap_spans(tasks_view(tasks@), a as int, b as int, c as int),
{
    let ghost tv = tasks_view(tasks@);
    let ghost n = tv.len() as int;
    let j1 = count_pos(tasks, a);
    let j2 = count_pos(tasks, b + 1);
    let j3 = count_pos(tasks, c + 1);
    proof {
        lemma_count_sorted(tv, a as int, n);
        lemma_count_sorted(tv, b as int + 1, n);
        lemma_count_sorted(tv, c as int + 1, n);
        assert(j1 <= j2) by {
            if j1 > j2 {
                assert(tv[j2 as int].left < a as int);
            }
        }
        assert(j2 <= j3) by {
            if j2 > j3 {
                assert(tv[j3 as int].left < b as int + 1);
            }
        }
    }
    let len = tasks.len();
    let mut out: Vec<Task> = Vec::new();
    push_swapped(&mut out, tasks, 0, j1, a, b, c);
    let ghost s1 = out@;
    push_swapped(&mut out, tasks, j2, j3, a, b, c);
    let ghost s2 = out@;
    push_swapped(&mut out, tasks, j1, j2, a, b, c);
    let ghost s3 = out@;
    push_swapped(&mut out, tasks, j3, len, a, b, c);
    proof {
        let ai = a as int;
        let bi = b as int;
        let ci = c as int;
        let j1i = j1 as int;
        let j2i = j2 as int;
        let j3i = j3 as int;
        let base = tv.subrange(0, j1i) + tv.subrange(j2i, j3i) + tv.subrange(j1i, j2i)
            + tv.subrange(j3i, n);
        assert(spec_swap_spans(tv, ai, bi, ci) == base.map_values(
            |t: TaskV| swap_task(t, ai, bi, ci),
        ));
        assert(tasks_view(out@) =~= spec_swap_spans(tv, ai, bi, ci)) by {
            assert(spec_swap_spans(tv, ai, bi, ci) == base.map_values(
                |t: TaskV| swap_task(t, ai, bi, ci),
            ));
            assert(out@.len() == n);
            assert forall|x: int| 0 <= x < n implies tasks_view(out@)[x] == spec_swap_spans(
                tv,
                ai,
                bi,
                ci,
            )[x] by {
                assert(tasks_view(out@)[x] == out@[x]@);
                if x < j1i {
                    assert(out@[x] == s3[x]);
                    assert(s3[x] == s2[x]);
                    assert(s2[x] == s1[x]);
                    assert(tasks_view(s1)[x] == s1[x]@);
                    assert(tasks_view(s1)[x] == swap_task(tv[x], ai, bi, ci));
                    assert(base[x] == tv[x]);
                } else if x < j1i + (j3i - j2i) {
                    assert(out@[x] == s3[x]);
                    assert(s3[x] == s2[x]);
                    assert(tasks_view(s2)[x] == s2[x]@);
                    assert(tasks_view(s2)[x] == swap_task(tv[j2i + (x - j1i)], ai, bi, ci));
                    assert(base[x] == tv.subrange(j2i, j3i)[x - j1i]);
                } else if x < j3i {
                    assert(out@[x] == s3[x]);
                    assert(tasks_view(s3)[x] == s3[x]@);
                    assert(tasks_view(s3)[x] == swap_task(
                        tv[j1i + (x - (j1i + (j3i - j2i)))],
                        ai,
                        bi,
                        ci,
                    ));
                    assert(base[x] == tv.subrange(j1i, j2i)[x - (j1i + (j3i - j2i))]);
                } else {
                    assert(tasks_view(out@)[x] == swap_task(tv[j3i + (x - j3i)], ai, bi, ci));
                    assert(base[x] == tv.subrange(j3i, n)[x - j3i]);
                }
                assert(out@[x]@ == swap_task(base[x], ai, bi, ci));
                assert(tasks_view(out@)[x] == swap_task(base[x], ai, bi, ci));
                assert(spec_swap_spans(tv, ai, bi, ci)[x] == base.map_values(
                    |t: TaskV| swap_task(t, ai, bi, ci),
                )[x]);
                assert(base.map_values(|t: TaskV| swap_task(t, ai, bi, ci))[x] == swap_task(
                    base[x],
                    ai,
                    bi,
                    ci,
                ));
            }
        }
    }
    out
}

/// Counts the rows whose `left` lies below the insertion point `p`.
fn count_pos(tasks: &Vec<Task>, p: u64) -> (r: usize)
    ensures
        r as int == count_left_below(tasks_view(tasks@), p as int, tasks@.len() as int),
        r <= tasks@.len(),
{
    let n = tasks.len();
    let mut idx: usize = 0;
    let mut i: usize = 0;
    while i < n
        invariant
            0 <= i <= n,
            n == tasks@.len(),
            idx as int == count_left_below(tasks_view(tasks@), p as int, i as int),
            idx <= i,
        decreases n - i,
    {
        proof {
            assert(tasks_view(tasks@)[i as int] == tasks@[i as int]@);
        }
        if tasks[i].left < p {
            idx += 1;
        }
        i += 1;
    }
    idx
}

/// Applies the insertion shift at point `p` to every row.
fn shifted_tasks(tasks: &Vec<Task>, p: u64) -> (r: Vec<Task>)
    requires
        forall|j: int|
            0 <= j < tasks@.len() ==> (#[trigger] tasks_view(tasks@)[j]).left + 2 <= u64::MAX
                && tasks_view(tasks@)[j].right + 2 <= u64::MAX,
    ensures
        tasks_view(r@) == tasks_view(tasks@).map_values(|t: TaskV| shift_for_insert(t, p as int)),
{
    let n = tasks.len();
    let mut out: Vec<Task> = Vec::new();
    let mut i: usize = 0;
    while i < n
        invariant
            0 <= i <= n,
            n == tasks@.len(),
            forall|j: int|
                0 <= j < tasks@.len() ==> (#[trigger] tasks_view(tasks@)[j]).left + 2 <= u64::MAX
                    && tasks_view(tasks@)[j].right + 2 <= u64::MAX,
            out@.len() == i,
            forall|k: int|
                0 <= k < i ==> #[trigger] tasks_view(out@)[k] == shift_for_insert(
                    tasks_view(tasks@)[k],
                    p as int,
                ),
        decreases n - i,
    {
        let t = &tasks[i];
        let ghost pre = out@;
        proof {
            assert(tasks_view(tasks@)[i as int] == tasks@[i as int]@);
        }
        let nl = if t.left > p {
            t.left + 2
        } else {
            t.left
        };
        let nr = if t.right >= p {
            t.right + 2
        } else {
            t.right
        };
        out.push(
            Task {
                id: t.id.duplicate(),
                left: nl,
                right: nr,
                name: t.name.clone(),
                description: t.description.clone(),
            },
        );
        proof {
            assert(tasks_view(out@)[i as int] == out@[i as int]@);
            assert(tasks_view(out@)[i as int] == shift_for_insert(
                tasks_view(tasks@)[i as int],
                p as int,
            ));
            assert forall|k: int| 0 <= k < i implies #[trigger] tasks_view(out@)[k]
                == shift_for_insert(tasks_view(tasks@)[k], p as int) by {
                assert(out@[k] == pre[k]);
                assert(tasks_view(pre)[k] == pre[k]@);
                assert(tasks_view(out@)[k] == out@[k]@);
            }
        }
        i += 1;
    }
    proof {
        assert(tasks_view(out@) =~= tasks_view(tasks@).map_values(
            |t: TaskV| shift_for_insert(t, p as int),
        ));
    }
    out
}

/// Pops ancestor `right` boundaries until the task starting at `left` lies
/// inside the span of the entry on top of the stack.
pub open spec fn spec_pop(stack: Seq<int>, left: int) -> Seq<int>
    decreases stack.len(),
{
    if stack.len() == 0 {
        stack
    } else if left > stack.last() {
        spec_pop(stack.drop_last(), left)
    } else {
        stack
    }
}

/// The ancestor stack after the depth-first traversal has processed row
/// `i`: the root's `right` boundary at the bottom, and above it the
/// `right` boundaries of the ancestors the traversal is still inside of.
/// A row pushes its own `right` boundary when it has descendants.
pub open spec fn stack_after(s: Seq<TaskV>, i: int) -> Seq<int>
    decreases i,
{
    if i <= 0 {
        seq![s[0].right]
    } else {
        let ps = spec_pop(stack_after(s, i - 1), s[i].left);
        if s[i].right - s[i].left > 1 {
            ps.push(s[i].right)
        } else {
            ps
        }
    }
}

/// The two indent cells: an ancestor that is the last child of its own
/// parent contributes an empty cell, any other a guide line.
pub open spec fn pair_glyph(parent: int, child: int) -> Seq<char> {
    if child == parent - 1 {
        "  "@
    } else {
        "│ "@
    }
}

/// The first `k` indent cells of a line rendered under the ancestor stack
/// `ps`: one cell for each adjacent pair of stack entries.
pub open spec fn indent_upto(ps: Seq<int>, k: int) -> Seq<char>
    decreases k,
{
    if k <= 0 {
        Seq::empty()
    } else {
        indent_upto(ps, k - 1) + pair_glyph(ps[k - 1], ps[k])
    }
}

/// The rendered line of row `i`: the indent cells, the branch glyph (a
/// closing corner when the row is the last child of its parent), the short
/// id and the name.
pub open spec fn spec_task_line(s: Seq<TaskV>, i: int) -> Seq<char> {
    let ps = spec_pop(stack_after(s, i - 1), s[i].left);
    let glyph = if ps.len() >= 1 && s[i].right == ps.last() - 1 {
        "└╴"@
    } else {
        "├╴"@
    };
    indent_upto(ps, ps.len() - 1) + glyph + s[i].id.subrange(0, crate::types::SHORT_UID_LENGTH as int)
        + " "@ + s[i].name
}

/// The rendered lines of a depth-first listing: one line for each non-root
/// row, in row order.
pub open spec fn spec_task_lines(s: Seq<TaskV>) -> Seq<Seq<char>> {
    Seq::new((s.len() - 1) as nat, |i: int| spec_task_line(s, i + 1))
}

/// The ancestor stack never loses its bottom entry, the root's `right`
/// boundary, while the rows traversed start inside the root.
pub proof fn lemma_pop_keeps_bottom(stack: Seq<int>, left: int)
    requires
        stack.len() >= 1,
        left < stack[0],
    ensures
        spec_pop(stack, left).len() >= 1,
        spec_pop(stack, left)[0] == stack[0],
        spec_pop(stack, left).len() <= stack.len(),
    decreases stack.len(),
{
    if stack.len() > 0 && left > stack.last() {
        lemma_pop_keeps_bottom(stack.drop_last(), left);
    }
}

/// The mathematical value of a boundary stack.
pub open spec fn stack_view(v: Seq<u64>) -> Seq<int> {
    v.map_values(|x: u64| x as int)
}

/// The mathematical value of a vector of rendered lines.
pub open spec fn lines_view(v: Seq<String>) -> Seq<Seq<char>> {
    v.map_values(|l: String| l@)
}

/// The ancestor stack always keeps the root's `right` boundary at its
/// bottom.
pub proof fn lemma_stack_after_bottom(s: Seq<TaskV>, i: int)
    requires
        tasks_wf(s),
        0 <= i < s.len(),
    ensures
        stack_after(s, i).len() >= 1,
        stack_after(s, i)[0] == s[0].right,
    decreases i,
{
    if i > 0 {
        lemma_stack_after_bottom(s, i - 1);
        assert(covers(s[0], s[i]));
        lemma_pop_keeps_bottom(stack_after(s, i - 1), s[i].left);
    }
}

/// The task lies completely within `[a, c]`.
pub open spec fn in_span(t: TaskV, a: int, c: int) -> bool {
    a <= t.left && t.right <= c
}

/// The task lies completely outside `[a, c]`: before it, after it, or
/// strictly around it.
pub open spec fn out_of_span(t: TaskV, a: int, c: int) -> bool {
    t.right < a || t.left > c || (t.left < a && t.right > c)
}

/// Swapping the adjacent spans `[a, b]` and `[b + 1, c]` moves every
/// boundary of the first span up by the width of the second, and every
/// boundary of the second span down by the width of the first.
pub open spec fn swap_val(v: int, a: int, b: int, c: int) -> int {
    if a <= v <= b {
        v + (c - b)
    } else if b < v <= c {
        v - (b - a + 1)
    } else {
        v
    }
}

/// The span swap applied to one task.
pub open spec fn swap_task(t: TaskV, a: int, b: int, c: int) -> TaskV {
    TaskV { left: swap_val(t.left, a, b, c), right: swap_val(t.right, a, b, c), ..t }
}

/// The task rows after swapping the adjacent spans `[a, b]` and
/// `[b + 1, c]`: the two row blocks change places and every boundary moves
/// by the width of the span it jumps across.
pub open spec fn spec_swap_spans(s: Seq<TaskV>, a: int, b: int, c: int) -> Seq<TaskV> {
    let j1 = count_left_below(s, a, s.len() as int);
    let j2 = count_left_below(s, b + 1, s.len() as int);
    let j3 = count_left_below(s, c + 1, s.len() as int);
    (s.subrange(0, j1) + s.subrange(j2, j3) + s.subrange(j1, j2) + s.subrange(
        j3,
        s.len() as int,
    )).map_values(|t: TaskV| swap_task(t, a, b, c))
}

/// The original row index of entry `x` of a row sequence in which the row
/// blocks `[j1, j2)` and `[j2, j3)` changed places.
pub open spec fn swap_orig(j1: int, j2: int, j3: int, x: int) -> int {
    if x < j1 {
        x
    } else if x < j1 + (j3 - j2) {
        x - j1 + j2
    } else if x < j3 {
        x - (j3 - j2)
    } else {
        x
    }
}

/// Swapping two adjacent spans that tear no task apart preserves the
/// well-formedness of the rows.
#[verifier::rlimit(60)]
pub proof fn lemma_swap_wf(s: Seq<TaskV>, a: int, b: int, c: int)
    requires
        tasks_wf(s),
        2 <= a <= b < c,
        c < s[0].right,
        forall|i: int|
            0 <= i < s.len() ==> in_span(#[trigger] s[i], a, b) || in_span(s[i], b + 1, c)
                || out_of_span(s[i], a, c),
    ensures
        tasks_wf(spec_swap_spans(s, a, b, c)),
        spec_swap_spans(s, a, b, c).len() == s.len(),
        ({
            let j1 = count_left_below(s, a, s.len() as int);
            let j2 = count_left_below(s, b + 1, s.len() as int);
            let j3 = count_left_below(s, c + 1, s.len() as int);
            forall|x: int|
                0 <= x < s.len() ==> #[trigger] spec_swap_spans(s, a, b, c)[x] == swap_task(
                    s[swap_orig(j1, j2, j3, x)],
                    a,
                    b,
                    c,
                )
        }),
{
    let n = s.len() as int;
    let j1 = count_left_below(s, a, n);
    let j2 = count_left_below(s, b + 1, n);
    let j3 = count_left_below(s, c + 1, n);
    let res = spec_swap_spans(s, a, b, c);
    lemma_count_sorted(s, a, n);
    lemma_count_sorted(s, b + 1, n);
    lemma_count_sorted(s, c + 1, n);
    assert(j1 <= j2) by {
        if j1 > j2 {
            assert(s[j2].left < a);
        }
    }
    assert(j2 <= j3) by {
        if j2 > j3 {
            assert(s[j3].left < b + 1);
        }
    }
    assert(res.len() == n);
    // region of each original row, from its sort position
    assert forall|i: int| 0 <= i < n implies {
        &&& (j1 <= i < j2 ==> in_span(#[trigger] s[i], a, b))
        &&& (j2 <= i < j3 ==> in_span(s[i], b + 1, c))
        &&& (i < j1 || j3 <= i ==> out_of_span(s[i], a, c))
    } by {
        assert(task_wf(s[i]));
    }
    // index correspondence
    assert forall|x: int| 0 <= x < n implies #[trigger] res[x] == swap_task(
        s[swap_orig(j1, j2, j3, x)],
        a,
        b,
        c,
    ) by {
        let base = s.subrange(0, j1) + s.subrange(j2, j3) + s.subrange(j1, j2) + s.subrange(j3, n);
        if x < j1 {
            assert(base[x] == s[x]);
        } else if x < j1 + (j3 - j2) {
            assert(base[x] == s.subrange(j2, j3)[x - j1]);
        } else if x < j3 {
            assert(base[x] == s.subrange(j1, j2)[x - (j1 + (j3 - j2))]);
        } else {
            assert(base[x] == s.subrange(j3, n)[x - j3]);
        }
    }
    // pairwise properties of the result
    assert forall|x: int, y: int|
        #![trigger res[x], res[y]]
        0 <= x < n && 0 <= y < n && x != y implies compatible(res[x], res[y]) && task_wf(res[x])
        && (x < y ==> res[x].left < res[y].left) by {
        let ox = swap_orig(j1, j2, j3, x);
        let oy = swap_orig(j1, j2, j3, y);
        assert(ox != oy);
        assert(compatible(s[ox], s[oy]));
        assert(task_wf(s[ox]));
        assert(task_wf(s[oy]));
    }
    // the root keeps its place and still contains every row
    assert(s[0].left == 1 && s[0].right > c);
    assert(0 < j1);
    assert(res[0] == swap_task(s[0], a, b, c));
    assert forall|x: int| 1 <= x < n implies covers(res[0], #[trigger] res[x]) by {
        let ox = swap_orig(j1, j2, j3, x);
        assert(ox != 0);
        assert(covers(s[0], s[ox]));
        assert(task_wf(s[ox]));
    }
    // the boundaries stay within twice the length
    assert forall|x: int| 0 <= x < n implies (#[trigger] res[x]).right <= 2 * n by {
        let ox = swap_orig(j1, j2, j3, x);
        assert(task_wf(s[ox]));
        assert(s[ox].right <= 2 * n);
    }
    assert(tasks_wf(res));
}

/// `c` is an immediate child of `p`: strictly contained in `p`, with no
/// third task between them.
pub open spec fn is_immediate_child(s: Seq<TaskV>, p: int, c: int) -> bool {
    &&& 0 <= p < s.len()
    &&& 0 <= c < s.len()
    &&& covers(s[p], s[c])
    &&& !(exists|j: int| 0 <= j < s.len() && covers(s[p], #[trigger] s[j]) && covers(s[j], s[c]))
}

/// The indices, in ascending order, of the immediate children of `p` among
/// the first `n` rows.
pub open spec fn children_upto(s: Seq<TaskV>, p: int, n: int) -> Seq<int>
    decreases n,
{
    if n <= 0 {
        Seq::empty()
    } else {
        children_upto(s, p, n - 1) + (if is_immediate_child(s, p, n - 1) {
            seq![n - 1]
        } else {
            Seq::empty()
        })
    }
}

/// The indices, in ascending order, of the immediate children of `p`.
pub open spec fn children_of(s: Seq<TaskV>, p: int) -> Seq<int> {
    children_upto(s, p, s.len() as int)
}

/// Two distinct immediate children of one parent are disjoint.
pub proof fn lemma_siblings_apart(s: Seq<TaskV>, p: int, c1: int, c2: int)
    requires
        tasks_wf(s),
        is_immediate_child(s, p, c1),
        is_immediate_child(s, p, c2),
        c1 != c2,
    ensures
        apart(s[c1], s[c2]),
{
    assert(compatible(s[c1], s[c2]));
    if covers(s[c1], s[c2]) {
        assert(covers(s[p], s[c1]) && covers(s[c1], s[c2]));
        assert(false);
    }
    if covers(s[c2], s[c1]) {
        assert(covers(s[p], s[c2]) && covers(s[c2], s[c1]));
        assert(false);
    }
}

/// The container of `m` with the greatest `left` boundary is `m`'s
/// immediate parent.
pub proof fn lemma_tightest_is_parent(s: Seq<TaskV>, m: int, p: int)
    requires
        tasks_wf(s),
        0 <= m < s.len(),
        0 <= p < s.len(),
        covers(s[p], s[m]),
        forall|j: int|
            0 <= j < s.len() && covers(#[trigger] s[j], s[m]) ==> s[j].left <= s[p].left,
    ensures
        is_immediate_child(s, p, m),
{
    if exists|j: int| 0 <= j < s.len() && covers(s[p], #[trigger] s[j]) && covers(s[j], s[m]) {
        let j = choose|j: int|
            0 <= j < s.len() && covers(s[p], #[trigger] s[j]) && covers(s[j], s[m]);
        assert(s[j].left <= s[p].left);
        assert(false);
    }
}

/// Moving a task left, the span from the target sibling's `left` up to the
/// moved task's `left` and the moved task's own span tear no task apart.
#[verifier::rlimit(100)]
pub proof fn lemma_move_left_spans(s: Seq<TaskV>, p: int, m: int, t: int)
    requires
        tasks_wf(s),
        is_immediate_child(s, p, m),
        is_immediate_child(s, p, t),
        t != m,
        s[t].left < s[m].left,
    ensures
        2 <= s[t].left,
        s[t].right < s[m].left,
        s[m].right < s[0].right,
        forall|i: int|
            0 <= i < s.len() ==> in_span(#[trigger] s[i], s[t].left, s[m].left - 1) || in_span(
                s[i],
                s[m].left,
                s[m].right,
            ) || out_of_span(s[i], s[t].left, s[m].right),
{
    let tl = s[t].left;
    let tr = s[t].right;
    let ml = s[m].left;
    let mr = s[m].right;
    lemma_siblings_apart(s, p, m, t);
    lemma_all_boundaries_distinct(s);
    assert(task_wf(s[t]) && task_wf(s[m]) && task_wf(s[p]));
    assert(m != 0 && t != 0 && p != 0 ==> true);
    if m != 0 {
        assert(covers(s[0], s[m]));
    }
    assert(s[0].left < s[p].left || p == 0);
    assert forall|i: int| 0 <= i < s.len() implies in_span(#[trigger] s[i], tl, ml - 1) || in_span(
        s[i],
        ml,
        mr,
    ) || out_of_span(s[i], tl, mr) by {
        if i != m {
            assert(compatible(s[i], s[m]));
        }
        if i != t {
            assert(compatible(s[i], s[t]));
        }
        if i != p {
            assert(compatible(s[i], s[p]));
        }
        assert(task_wf(s[i]));
        if !(in_span(s[i], tl, ml - 1) || in_span(s[i], ml, mr) || out_of_span(s[i], tl, mr)) {
            // a straddling task would stand between the parent and one of
            // the two children, or overlap one of them partially
            if s[i].left < tl {
                assert(covers(s[i], s[t]));
                assert(s[i].right < ml);
                assert(i != p);
                assert(covers(s[p], s[i]) && covers(s[i], s[t]));
                assert(false);
            } else if ml <= s[i].left {
                assert(s[i].left <= mr);
                assert(false);
            } else {
                // tl <= left < ml, but the task reaches beyond the moved one
                assert(s[i].right >= ml);
                assert(covers(s[i], s[m]));
                assert(i != t);
                assert(s[i].left > tr);
                assert(i != p);
                assert(covers(s[p], s[i]) && covers(s[i], s[m]));
                assert(false);
            }
        }
    }
}

/// Moving a task right, the moved task's span and the span from its
/// `right` up to the target sibling's `right` tear no task apart.
#[verifier::rlimit(100)]
pub proof fn lemma_move_right_spans(s: Seq<TaskV>, p: int, m: int, t: int)
    requires
        tasks_wf(s),
        is_immediate_child(s, p, m),
        is_immediate_child(s, p, t),
        t != m,
        s[m].right < s[t].right,
    ensures
        2 <= s[m].left,
        s[m].right < s[t].left,
        s[t].right < s[0].right,
        forall|i: int|
            0 <= i < s.len() ==> in_span(#[trigger] s[i], s[m].left, s[m].right) || in_span(
                s[i],
                s[m].right + 1,
                s[t].right,
            ) || out_of_span(s[i], s[m].left, s[t].right),
{
    let tl = s[t].left;
    let tr = s[t].right;
    let ml = s[m].left;
    let mr = s[m].right;
    lemma_siblings_apart(s, p, m, t);
    lemma_all_boundaries_distinct(s);
    assert(task_wf(s[t]) && task_wf(s[m]) && task_wf(s[p]));
    if t != 0 {
        assert(covers(s[0], s[t]));
    }
    assert forall|i: int| 0 <= i < s.len() implies in_span(#[trigger] s[i], ml, mr) || in_span(
        s[i],
        mr + 1,
        tr,
    ) || out_of_span(s[i], ml, tr) by {
        if i != m {
            assert(compatible(s[i], s[m]));
        }
        if i != t {
            assert(compatible(s[i], s[t]));
        }
        if i != p {
            assert(compatible(s[i], s[p]));
        }
        assert(task_wf(s[i]));
        if !(in_span(s[i], ml, mr) || in_span(s[i], mr + 1, tr) || out_of_span(s[i], ml, tr)) {
            if s[i].left < ml {
                assert(covers(s[i], s[m]));
                assert(s[i].right < tl);
                assert(i != p);
                assert(covers(s[p], s[i]) && covers(s[i], s[m]));
                assert(false);
            } else if s[i].left <= mr {
                assert(false);
            } else {
                // mr < left <= tr, but the task reaches beyond the target
                assert(s[i].right > tr);
                assert(covers(s[i], s[t]));
                assert(i != p);
                assert(covers(s[p], s[i]) && covers(s[i], s[t]));
                assert(false);
            }
        }
    }
}

/// The original row index of entry `a` of a row sequence from which the
/// rows `[i1, i2)` were removed.
pub open spec fn remove_orig(i1: int, i2: int, a: int) -> int {
    if a < i1 {
        a
    } else {
        a - i1 + i2
    }
}

/// Drops the rows whose `left` lies in `[l, r]` and closes the gap, where
/// `[l, r]` is the interval of the non-root row at index `k`.
fn remove_span_tasks(tasks: &Vec<Task>, l: u64, r: u64, Ghost(k): Ghost<int>) -> (out: Vec<Task>)
    requires
        tasks_wf(tasks_view(tasks@)),
        1 <= k < tasks@.len(),
        tasks_view(tasks@)[k].left == l,
        tasks_view(tasks@)[k].right == r,
    ensures
        tasks_view(out@) == spec_remove_tasks(tasks_view(tasks@), l as int, r as int),
{
    let ghost tv = tasks_view(tasks@);
    let ghost n = tv.len() as int;
    let ghost i1 = count_left_below(tv, l as int, n);
    let ghost i2 = count_left_below(tv, r as int + 1, n);
    proof {
        lemma_count_sorted(tv, l as int, n);
        lemma_count_sorted(tv, r as int + 1, n);
        lemma_span_capacity(tv, k);
        assert(task_wf(tv[k]));
        assert(covers(tv[0], tv[k]));
    }
    let shift = r - l + 1;
    let len = tasks.len();
    let mut out: Vec<Task> = Vec::new();
    let mut i: usize = 0;
    while i < len
        invariant
            0 <= i <= len,
            len == tasks@.len(),
            tv == tasks_view(tasks@),
            tasks_wf(tv),
            n == tv.len() as int,
            i1 == count_left_below(tv, l as int, n),
            i2 == count_left_below(tv, r as int + 1, n),
            0 <= i1 <= i2 <= n,
            1 <= k < n,
            tv[k].left == l as int,
            tv[k].right == r as int,
            shift == r - l + 1,
            l >= 2,
            forall|j: int| 0 <= j < n ==> (j < i1 <==> (#[trigger] tv[j]).left < l),
            forall|j: int| 0 <= j < n ==> (j < i2 <==> (#[trigger] tv[j]).left < r + 1),
            out@.len() == (if i <= i1 {
                i as int
            } else if i as int <= i2 {
                i1
            } else {
                i1 + (i - i2)
            }),
            forall|a: int|
                0 <= a < out@.len() ==> #[trigger] tasks_view(out@)[a] == shift_for_remove(
                    tv[remove_orig(i1, i2, a)],
                    r as int,
                    shift as int,
                ),
        decreases len - i,
    {
        let t = &tasks[i];
        let ghost pre = out@;
        proof {
            assert(tv[i as int] == tasks@[i as int]@);
            assert(task_wf(tv[i as int]));
            if i as int != k {
                assert(compatible(tv[i as int], tv[k]));
            }
            if i != 0 {
                assert(covers(tv[0], tv[i as int]));
            }
        }
        if t.left < l || t.left > r {
            let nl = if t.left > r {
                t.left - shift
            } else {
                t.left
            };
            let nr = if t.right > r {
                t.right - shift
            } else {
                t.right
            };
            out.push(
                Task {
                    id: t.id.duplicate(),
                    left: nl,
                    right: nr,
                    name: t.name.clone(),
                    description: t.description.clone(),
                },
            );
            proof {
                let a = pre.len() as int;
                assert(out@[a]@ == shift_for_remove(tv[i as int], r as int, shift as int));
                assert(remove_orig(i1, i2, a) == i as int);
                assert forall|b: int| 0 <= b < out@.len() implies #[trigger] tasks_view(out@)[b]
                    == shift_for_remove(tv[remove_orig(i1, i2, b)], r as int, shift as int) by {
                    if b < a {
                        assert(out@[b] == pre[b]);
                        assert(tasks_view(pre)[b] == pre[b]@);
                        assert(tasks_view(out@)[b] == out@[b]@);
                    } else {
                        assert(tasks_view(out@)[b] == out@[b]@);
                    }
                }
            }
        }
        i += 1;
    }
    proof {
        assert(tasks_view(out@) =~= spec_remove_tasks(tv, l as int, r as int)) by {
            let base = tv.subrange(0, i1) + tv.subrange(i2, n);
            assert(out@.len() == i1 + (n - i2));
            assert forall|a: int| 0 <= a < out@.len() implies tasks_view(out@)[a]
                == spec_remove_tasks(tv, l as int, r as int)[a] by {
                if a < i1 {
                    assert(base[a] == tv[a]);
                } else {
                    assert(base[a] == tv.subrange(i2, n)[a - i1]);
                }
                assert(tasks_view(out@)[a] == shift_for_remove(
                    tv[remove_orig(i1, i2, a)],
                    r as int,
                    shift as int,
                ));
            }
        }
    }
    out
}

/// An ambiguous lookup reports every match: the candidate list carries the
/// full id and the name of each task the prefix matched, in row order.
pub open spec fn candidates_list_matches(
    tasks: Seq<TaskV>,
    prefix: Seq<char>,
    candidates: Seq<crate::types::Candidate>,
) -> bool {
    let m = match_indices(tasks, prefix);
    &&& m.len() >= 2
    &&& candidates.len() == m.len()
    &&& forall|k: int|
        0 <= k < m.len() ==> (#[trigger] candidates[k]).id@ == tasks[m[k]].id
            && candidates[k].name@ == tasks[m[k]].name
}

impl Forest {
    /// Resolves a short id prefix to the index of the unique task of the
    /// current tree (the synthetic root excluded) whose id starts with it.
    ///
    /// Fails with `EmptyForest` when no tree exists, with `NotFound` when no
    /// task matches, and with `Ambiguous`, listing every candidate id and
    /// name, when two or more match; it never silently picks one.
    pub fn find_task(&self, short_uid: &str) -> (r: Result<usize, ForestError>)
        requires
            forest_wf(self@),
        ensures
            ({
                let ci = spec_current_index(self@);
                match r {
                    Ok(i) => {
                        &&& ci matches Some(c)
                        &&& match_indices(self@.trees[ci->Some_0].tasks, short_uid@) == seq![
                            i as int,
                        ]
                        &&& 1 <= i < self@.trees[ci->Some_0].tasks.len()
                        &&& is_prefix(short_uid@, self@.trees[ci->Some_0].tasks[i as int].id)
                    },
                    Err(ForestError::EmptyForest) => ci is None,
                    Err(ForestError::NotFound) => ci matches Some(c) && match_indices(
                        self@.trees[c].tasks,
                        short_uid@,
                    ).len() == 0,
                    Err(ForestError::Ambiguous { candidates }) => ci matches Some(c)
                        && candidates_list_matches(
                        self@.trees[ci->Some_0].tasks,
                        short_uid@,
                        candidates@,
                    ),
                    _ => false,
                }
            }),
    {
        let ci = match self.current_tree_index() {
            Ok(i) => i,
            Err(e) => {
                return Err(e);
            },
        };
        let tree = &self.trees[ci];
        let n = tree.tasks.len();
        let ghost tv = self@.trees[ci as int].tasks;
        let mut found: Vec<usize> = Vec::new();
        let mut i: usize = 1;
        proof {
            assert(tv =~= tree.tasks@.map_values(|t: Task| t@));
        }
        while i < n
            invariant
                1 <= i <= n || (n == 0 && i == 1),
                n == tree.tasks.len(),
                tv == tree.tasks@.map_values(|t: Task| t@),
                found@.map_values(|u: usize| u as int) =~= match_upto(tv, short_uid@, i as int),
                forall|k: int| 0 <= k < found@.len() ==> (#[trigger] found@[k]) < n,
            decreases n - i,
        {
            if str_starts_with(tree.tasks[i].id.as_str(), short_uid) {
                found.push(i);
            }
            proof {
                assert(found@.map_values(|u: usize| u as int) =~= match_upto(
                    tv,
                    short_uid@,
                    i + 1,
                ));
            }
            i += 1;
        }
        proof {
            lemma_match_upto_sound(tv, short_uid@, tv.len() as int);
        }
        if found.len() == 0 {
            Err(ForestError::NotFound)
        } else if found.len() == 1 {
            let idx = found[0];
            proof {
                assert(found@.map_values(|u: usize| u as int)[0] == idx as int);
                assert(match_upto(tv, short_uid@, tv.len() as int)[0] == idx as int);
                assert(match_indices(tv, short_uid@) =~= seq![idx as int]);
            }
            Ok(idx)
        } else {
            let mut candidates: Vec<Candidate> = Vec::new();
            let mut k: usize = 0;
            let fl = found.len();
            while k < fl
                invariant
                    0 <= k <= fl,
                    fl == found@.len(),
                    n == tree.tasks.len(),
                    tv == tree.tasks@.map_values(|t: Task| t@),
                    forall|j: int| 0 <= j < found@.len() ==> (#[trigger] found@[j]) < n,
                    candidates@.len() == k,
                    forall|j: int|
                        0 <= j < k ==> (#[trigger] candidates@[j]).id@ == tv[found@[j] as int].id
                            && candidates@[j].name@ == tv[found@[j] as int].name,
                decreases fl - k,
            {
                let t = &tree.tasks[found[k]];
                candidates.push(Candidate { id: t.id.as_string(), name: t.name.clone() });
                k += 1;
            }
            Err(ForestError::Ambiguous { candidates })
        }
    }

    /// Resolves a short id prefix to the unique full identifier it denotes,
    /// as `find_task` does.
    pub fn find_uid(&self, short_uid: &str) -> (r: Result<Uid, ForestError>)
        requires
            forest_wf(self@),
        ensures
            ({
                let ci = spec_current_index(self@);
                match r {
                    Ok(u) => {
                        &&& ci matches Some(c)
                        &&& exists|i: int|
                            match_indices(self@.trees[c].tasks, short_uid@) == seq![i] && u@
                                == self@.trees[c].tasks[i].id
                        &&& u.wf()
                    },
                    Err(ForestError::EmptyForest) => ci is None,
                    Err(ForestError::NotFound) => ci matches Some(c) && match_indices(
                        self@.trees[c].tasks,
                        short_uid@,
                    ).len() == 0,
                    Err(ForestError::Ambiguous { candidates }) => ci matches Some(c)
                        && candidates_list_matches(self@.trees[c].tasks, short_uid@, candidates@),
                    _ => false,
                }
            }),
    {
        let ci = match self.current_tree_index() {
            Ok(i) => i,
            Err(e) => {
                return Err(e);
            },
        };
        match self.find_task(short_uid) {
            Ok(i) => {
                proof {
                    assert(forest_wf(self@));
                }
                let u = self.trees[ci].tasks[i].id.duplicate();
                proof {
                    let c = spec_current_index(self@)->Some_0;
                    assert(c == ci as int);
                    assert(tree_wf(self@.trees[c]));
                    assert(task_wf(self@.trees[c].tasks[i as int]));
                }
                Ok(u)
            },
            Err(e) => Err(e),
        }
    }

    /// Adds a task to the current tree, as the last child of the task the
    /// parent prefix resolves to, or of the root when no parent is given.
    ///
    /// Fails with `EmptyForest` when no tree exists, with `NotFound` or
    /// `Ambiguous` when the parent prefix resolves to no or to several
    /// tasks, and with `InvariantViolation` when the short prefix of the
    /// freshly generated id is already taken in the tree; the store is
    /// unchanged on every failure.
    pub fn add_task(&mut self, parent_uid: Option<&String>, name: String, description: String) -> (r:
        Result<Uid, ForestError>)
        requires
            forest_wf(old(self)@),
            forall|i: int|
                0 <= i < old(self)@.trees.len() ==> crate::store::room_for_task(
                    #[trigger] old(self)@.trees[i],
                ),
        ensures
            forest_wf(final(self)@),
            ({
                let ci = spec_current_index(old(self)@);
                match r {
                    Ok(uid) => {
                        &&& ci matches Some(c)
                        &&& uid.wf()
                        // the fresh id's short prefix was checked to match nothing
                        &&& match_indices(
                            old(self)@.trees[c].tasks,
                            uid@.subrange(0, crate::types::SHORT_UID_LENGTH as int),
                        ).len() == 0
                        &&& exists|pi: int|
                            #[trigger] parent_resolves(
                                old(self)@.trees[c].tasks,
                                prefix_view(parent_uid),
                                pi,
                            ) && 0 <= pi < old(self)@.trees[c].tasks.len() && final(self)@
                                == (ForestV {
                                trees: old(self)@.trees.update(
                                    c,
                                    spec_add_task(
                                        old(self)@.trees[c],
                                        pi,
                                        uid@,
                                        name@,
                                        description@,
                                    ),
                                ),
                                ..old(self)@
                            })
                    },
                    Err(ForestError::EmptyForest) => ci is None && final(self)@ == old(self)@,
                    Err(ForestError::NotFound) => {
                        &&& ci matches Some(c)
                        &&& parent_uid matches Some(s) && match_indices(
                            old(self)@.trees[c].tasks,
                            s@,
                        ).len() == 0
                        &&& final(self)@ == old(self)@
                    },
                    Err(ForestError::Ambiguous { candidates }) => {
                        &&& ci matches Some(c)
                        &&& parent_uid matches Some(s) && ({
                            let m = match_indices(old(self)@.trees[c].tasks, s@);
                            &&& m.len() >= 2
                            &&& candidates@.len() == m.len()
                            &&& forall|k: int|
                                0 <= k < m.len() ==> (#[trigger] candidates@[k]).id@
                                    == old(self)@.trees[c].tasks[m[k]].id && candidates@[k].name@
                                    == old(self)@.trees[c].tasks[m[k]].name
                        })
                        &&& final(self)@ == old(self)@
                    },
                    // only a short-prefix collision of the fresh id is fatal
                    Err(ForestError::InvariantViolation) => {
                        &&& ci matches Some(c)
                        &&& exists|u: Seq<char>|
                            valid_uid_seq(u) && #[trigger] match_indices(
                                old(self)@.trees[c].tasks,
                                u.subrange(0, crate::types::SHORT_UID_LENGTH as int),
                            ).len() >= 1
                        &&& final(self)@ == old(self)@
                    },
                    _ => false,
                }
            }),
    {
        let ci = match self.current_tree_index() {
            Ok(i) => i,
            Err(e) => {
                return Err(e);
            },
        };
        // resolve the parent: the root when no prefix is given
        let pi: usize = match parent_uid {
            Some(pref) => {
                match self.find_task(pref.as_str()) {
                    Ok(i) => i,
                    Err(e) => {
                        return Err(e);
                    },
                }
            },
            None => 0,
        };
        let ghost tv = self@.trees[ci as int].tasks;
        proof {
            assert(tree_wf(self@.trees[ci as int]));
            assert(parent_resolves(tv, prefix_view(parent_uid), pi as int));
        }
        let p = self.trees[ci].tasks[pi].right;
        proof {
            assert(tv[pi as int] == self.trees@[ci as int].tasks@[pi as int]@);
            assert(p as int == tv[pi as int].right);
        }
        // a fresh id; its short prefix must not already be taken
        let uid = Uid::new();
        match self.find_task(uid.short()) {
            Err(ForestError::NotFound) => {
                proof {
                    assert(match_indices(
                        tv,
                        uid@.subrange(0, crate::types::SHORT_UID_LENGTH as int),
                    ).len() == 0);
                }
            },
            Ok(_) => {
                proof {
                    assert(valid_uid_seq(uid@) && match_indices(
                        tv,
                        uid@.subrange(0, crate::types::SHORT_UID_LENGTH as int),
                    ).len() >= 1);
                }
                return Err(ForestError::InvariantViolation);
            },
            Err(ForestError::Ambiguous { .. }) => {
                proof {
                    assert(valid_uid_seq(uid@) && match_indices(
                        tv,
                        uid@.subrange(0, crate::types::SHORT_UID_LENGTH as int),
                    ).len() >= 1);
                }
                return Err(ForestError::InvariantViolation);
            },
            Err(_) => {
                proof {
                    assert(false);
                }
                return Err(ForestError::InvariantViolation);
            },
        }
        let mut tr = self.trees.remove(ci);
        proof {
            assert(tv == tasks_view(tr.tasks@));
            assert forall|j: int| 0 <= j < tr.tasks@.len() implies (#[trigger] tasks_view(
                tr.tasks@,
            )[j]).left + 2 <= u64::MAX && tasks_view(tr.tasks@)[j].right + 2 <= u64::MAX by {
                assert(task_wf(tv[j]));
                assert(tv[j].right <= 2 * tv.len());
            }
        }
        // the position that keeps the rows sorted by ascending left
        let idx = count_pos(&tr.tasks, p);
        // shift every boundary at or beyond the insertion point
        let mut out = shifted_tasks(&tr.tasks, p);
        let ghost sv = tasks_view(out@);
        let ghost namev = name@;
        let ghost descv = description@;
        let new_task = Task {
            id: uid.duplicate(),
            left: p,
            right: p + 1,
            name: name,
            description: description,
        };
        let ghost ntv = new_task@;
        out.insert(idx, new_task);
        proof {
            assert(tasks_view(out@) =~= sv.insert(idx as int, ntv));
        }
        tr.tasks = out;
        self.trees.insert(ci, tr);
        proof {
            let pint = p as int;
            let newv = new_task_v(uid@, pint, namev, descv);
            assert(ntv == newv);
            assert(tasks_view(out@) == spec_insert_tasks(tv, pint, newv));
            lemma_insert_wf(tv, pi as int, uid@, namev, descv);
            assert(self@.trees =~= old(self)@.trees.update(
                ci as int,
                spec_add_task(old(self)@.trees[ci as int], pi as int, uid@, namev, descv),
            ));
            assert(self@.frames =~= old(self)@.frames);
            assert(self@.notes =~= old(self)@.notes);
            assert(self@ == (ForestV {
                trees: old(self)@.trees.update(
                    ci as int,
                    spec_add_task(old(self)@.trees[ci as int], pi as int, uid@, namev, descv),
                ),
                ..old(self)@
            }));
            assert forall|j: int| 0 <= j < self@.trees.len() implies tree_wf(
                #[trigger] self@.trees[j],
            ) by {
                if j != ci as int {
                    assert(self@.trees[j] == old(self)@.trees[j]);
                    assert(tree_wf(old(self)@.trees[j]));
                } else {
                    assert(self@.trees[j].tasks == spec_insert_tasks(tv, pint, newv));
                }
            }
            assert forall|j: int| 0 <= j < self@.trees.len() implies (#[trigger] self@.trees[j]).name
                == old(self)@.trees[j].name by {
                if j != ci as int {
                    assert(self@.trees[j] == old(self)@.trees[j]);
                }
            }
            if self@.current is Some {
                let cn = self@.current->Some_0;
                let w = choose|i: int|
                    0 <= i < old(self)@.trees.len() && (#[trigger] old(self)@.trees[i]).name == cn;
                assert(self@.trees[w].name == cn);
            }
            assert(forest_wf(self@));
            assert(parent_resolves(
                old(self)@.trees[spec_current_index(old(self)@)->Some_0].tasks,
                prefix_view(parent_uid),
                pi as int,
            ));
        }
        Ok(uid)
    }

    /// Removes the task the prefix resolves to, together with every task of
    /// its subtree, and closes the gap its span leaves behind.
    ///
    /// Returns the id and the name of the removed task.  Fails as the
    /// resolver does; the store is unchanged on every failure.
    pub fn remove_task(&mut self, partial_uid: &String) -> (r: Result<(Uid, String), ForestError>)
        requires
            forest_wf(old(self)@),
        ensures
            forest_wf(final(self)@),
            ({
                let ci = spec_current_index(old(self)@);
                match r {
                    Ok((uid, name)) => {
                        &&& ci matches Some(c)
                        &&& exists|ti: int|
                            {
                                &&& #[trigger] match_indices(old(self)@.trees[c].tasks, partial_uid@)
                                    == seq![ti]
                                &&& 1 <= ti < old(self)@.trees[c].tasks.len()
                                &&& uid@ == old(self)@.trees[c].tasks[ti].id
                                &&& name@ == old(self)@.trees[c].tasks[ti].name
                                &&& final(self)@ == (ForestV {
                                    trees: old(self)@.trees.update(
                                        c,
                                        TreeV {
                                            tasks: spec_remove_tasks(
                                                old(self)@.trees[c].tasks,
                                                old(self)@.trees[c].tasks[ti].left,
                                                old(self)@.trees[c].tasks[ti].right,
                                            ),
                                            ..old(self)@.trees[c]
                                        },
                                    ),
                                    ..old(self)@
                                })
                            }
                    },
                    Err(ForestError::EmptyForest) => ci is None && final(self)@ == old(self)@,
                    Err(ForestError::NotFound) => {
                        &&& ci matches Some(c)
                        &&& match_indices(old(self)@.trees[c].tasks, partial_uid@).len() == 0
                        &&& final(self)@ == old(self)@
                    },
                    Err(ForestError::Ambiguous { candidates }) => {
                        &&& ci matches Some(c)
                        &&& candidates_list_matches(
                            old(self)@.trees[c].tasks,
                            partial_uid@,
                            candidates@,
                        )
                        &&& final(self)@ == old(self)@
                    },
                    _ => false,
                }
            }),
    {
        let ci = match self.current_tree_index() {
            Ok(i) => i,
            Err(e) => {
                return Err(e);
            },
        };
        let ti = match self.find_task(partial_uid.as_str()) {
            Ok(i) => i,
            Err(e) => {
                return Err(e);
            },
        };
        let ghost tv = self@.trees[ci as int].tasks;
        proof {
            assert(tree_wf(self@.trees[ci as int]));
            assert(tv[ti as int] == self.trees@[ci as int].tasks@[ti as int]@);
        }
        let removed = &self.trees[ci].tasks[ti];
        let l = removed.left;
        let rr = removed.right;
        let uid = removed.id.duplicate();
        let name = removed.name.clone();
        proof {
            assert(l as int == tv[ti as int].left);
            assert(rr as int == tv[ti as int].right);
            assert(task_wf(tv[ti as int]));
        }
        let mut tr = self.trees.remove(ci);
        proof {
            assert(tv == tasks_view(tr.tasks@));
        }
        let out = remove_span_tasks(&tr.tasks, l, rr, Ghost(ti as int));
        tr.tasks = out;
        self.trees.insert(ci, tr);
        proof {
            lemma_remove_wf(tv, ti as int);
            assert(self@.trees =~= old(self)@.trees.update(
                ci as int,
                TreeV {
                    tasks: spec_remove_tasks(tv, tv[ti as int].left, tv[ti as int].right),
                    ..old(self)@.trees[ci as int]
                },
            ));
            assert(self@.frames =~= old(self)@.frames);
            assert(self@.notes =~= old(self)@.notes);
            assert(self@ == (ForestV {
                trees: old(self)@.trees.update(
                    ci as int,
                    TreeV {
                        tasks: spec_remove_tasks(tv, tv[ti as int].left, tv[ti as int].right),
                        ..old(self)@.trees[ci as int]
                    },
                ),
                ..old(self)@
            }));
            assert forall|j: int| 0 <= j < self@.trees.len() implies tree_wf(
                #[trigger] self@.trees[j],
            ) by {
                if j != ci as int {
                    assert(self@.trees[j] == old(self)@.trees[j]);
                    assert(tree_wf(old(self)@.trees[j]));
                }
            }
            assert forall|j: int| 0 <= j < self@.trees.len() implies (#[trigger] self@.trees[j]).name
                == old(self)@.trees[j].name by {
                if j != ci as int {
                    assert(self@.trees[j] == old(self)@.trees[j]);
                }
            }
            if self@.current is Some {
                let cn = self@.current->Some_0;
                let w = choose|i: int|
                    0 <= i < old(self)@.trees.len() && (#[trigger] old(self)@.trees[i]).name == cn;
                assert(self@.trees[w].name == cn);
            }
            assert(forest_wf(self@));
        }
        Ok((uid, name))
    }

    /// Replaces the name of the task the prefix resolves to, leaving the
    /// intervals untouched.  Returns the id and the previous name.  Fails
    /// as the resolver does; the store is unchanged on every failure.
    pub fn rename_task(&mut self, partial_uid: &String, name: String) -> (r: Result<
        (Uid, String),
        ForestError,
    >)
        requires
            forest_wf(old(self)@),
        ensures
            forest_wf(final(self)@),
            ({
                let ci = spec_current_index(old(self)@);
                match r {
                    Ok((uid, old_name)) => {
                        &&& ci matches Some(c)
                        &&& exists|ti: int|
                            {
                                &&& #[trigger] match_indices(old(self)@.trees[c].tasks, partial_uid@)
                                    == seq![ti]
                                &&& 1 <= ti < old(self)@.trees[c].tasks.len()
                                &&& uid@ == old(self)@.trees[c].tasks[ti].id
                                &&& old_name@ == old(self)@.trees[c].tasks[ti].name
                                &&& final(self)@ == (ForestV {
                                    trees: old(self)@.trees.update(
                                        c,
                                        TreeV {
                                            tasks: old(self)@.trees[c].tasks.update(
                                                ti,
                                                TaskV {
                                                    name: name@,
                                                    ..old(self)@.trees[c].tasks[ti]
                                                },
                                            ),
                                            ..old(self)@.trees[c]
                                        },
                                    ),
                                    ..old(self)@
                                })
                            }
                    },
                    Err(ForestError::EmptyForest) => ci is None && final(self)@ == old(self)@,
                    Err(ForestError::NotFound) => {
                        &&& ci matches Some(c)
                        &&& match_indices(old(self)@.trees[c].tasks, partial_uid@).len() == 0
                        &&& final(self)@ == old(self)@
                    },
                    Err(ForestError::Ambiguous { candidates }) => {
                        &&& ci matches Some(c)
                        &&& candidates_list_matches(
                            old(self)@.trees[c].tasks,
                            partial_uid@,
                            candidates@,
                        )
                        &&& final(self)@ == old(self)@
                    },
                    _ => false,
                }
            }),
    {
        let ci = match self.current_tree_index() {
            Ok(i) => i,
            Err(e) => {
                return Err(e);
            },
        };
        let ti = match self.find_task(partial_uid.as_str()) {
            Ok(i) => i,
            Err(e) => {
                return Err(e);
            },
        };
        let ghost tv = self@.trees[ci as int].tasks;
        proof {
            assert(tree_wf(self@.trees[ci as int]));
            assert(tv[ti as int] == self.trees@[ci as int].tasks@[ti as int]@);
        }
        let mut tr = self.trees.remove(ci);
        let mut t = tr.tasks.remove(ti);
        let uid = t.id.duplicate();
        let old_name = t.name;
        t.name = name;
        tr.tasks.insert(ti, t);
        self.trees.insert(ci, tr);
        proof {
            let tiv = ti as int;
            let nv = tv.update(tiv, TaskV { name: self.trees@[ci as int].tasks@[tiv]@.name, ..tv[tiv] });
            assert(tasks_view(self.trees@[ci as int].tasks@) =~= nv);
            assert(self@.trees =~= old(self)@.trees.update(
                ci as int,
                TreeV { tasks: nv, ..old(self)@.trees[ci as int] },
            ));
            assert(self@.frames =~= old(self)@.frames);
            assert(self@.notes =~= old(self)@.notes);
            assert forall|a: int, b: int|
                #![trigger nv[a], nv[b]]
                0 <= a < nv.len() && 0 <= b < nv.len() && a != b implies compatible(nv[a], nv[b])
                && (a < b ==> nv[a].left < nv[b].left) by {
                assert(compatible(tv[a], tv[b]));
            }
            assert forall|a: int| 0 <= a < nv.len() implies task_wf(#[trigger] nv[a]) && (1 <= a
                ==> covers(nv[0], nv[a])) && nv[a].right <= 2 * nv.len() by {
                assert(task_wf(tv[a]));
                if 1 <= a {
                    assert(covers(tv[0], tv[a]));
                }
            }
            assert(tree_wf(self@.trees[ci as int]));
            assert forall|j: int| 0 <= j < self@.trees.len() implies tree_wf(
                #[trigger] self@.trees[j],
            ) && self@.trees[j].name == old(self)@.trees[j].name by {
                if j != ci as int {
                    assert(self@.trees[j] == old(self)@.trees[j]);
                    assert(tree_wf(old(self)@.trees[j]));
                }
            }
            if self@.current is Some {
                let cn = self@.current->Some_0;
                let w = choose|i: int|
                    0 <= i < old(self)@.trees.len() && (#[trigger] old(self)@.trees[i]).name == cn;
                assert(self@.trees[w].name == cn);
            }
            assert(forest_wf(self@));
        }
        Ok((uid, old_name))
    }

    /// Replaces the description of the task the prefix resolves to.
    /// Returns the id and the name of the task.  Fails as the resolver
    /// does; the store is unchanged on every failure.
    pub fn set_task_description(&mut self, partial_uid: &String, description: String) -> (r: Result<
        (Uid, String),
        ForestError,
    >)
        requires
            forest_wf(old(self)@),
        ensures
            forest_wf(final(self)@),
            ({
                let ci = spec_current_index(old(self)@);
                match r {
                    Ok((uid, name)) => {
                        &&& ci matches Some(c)
                        &&& exists|ti: int|
                            {
                                &&& #[trigger] match_indices(old(self)@.trees[c].tasks, partial_uid@)
                                    == seq![ti]
                                &&& 1 <= ti < old(self)@.trees[c].tasks.len()
                                &&& uid@ == old(self)@.trees[c].tasks[ti].id
                                &&& name@ == old(self)@.trees[c].tasks[ti].name
                                &&& final(self)@ == (ForestV {
                                    trees: old(self)@.trees.update(
                                        c,
                                        TreeV {
                                            tasks: old(self)@.trees[c].tasks.update(
                                                ti,
                                                TaskV {
                                                    description: description@,
                                                    ..old(self)@.trees[c].tasks[ti]
                                                },
                                            ),
                                            ..old(self)@.trees[c]
                                        },
                                    ),
                                    ..old(self)@
                                })
                            }
                    },
                    Err(ForestError::EmptyForest) => ci is None && final(self)@ == old(self)@,
                    Err(ForestError::NotFound) => {
                        &&& ci matches Some(c)
                        &&& match_indices(old(self)@.trees[c].tasks, partial_uid@).len() == 0
                        &&& final(self)@ == old(self)@
                    },
                    Err(ForestError::Ambiguous { candidates }) => {
                        &&& ci matches Some(c)
                        &&& candidates_list_matches(
                            old(self)@.trees[c].tasks,
                            partial_uid@,
                            candidates@,
                        )
                        &&& final(self)@ == old(self)@
                    },
                    _ => false,
                }
            }),
    {
        let ci = match self.current_tree_index() {
            Ok(i) => i,
            Err(e) => {
                return Err(e);
            },
        };
        let ti = match self.find_task(partial_uid.as_str()) {
            Ok(i) => i,
            Err(e) => {
                return Err(e);
            },
        };
        let ghost tv = self@.trees[ci as int].tasks;
        proof {
            assert(tree_wf(self@.trees[ci as int]));
            assert(tv[ti as int] == self.trees@[ci as int].tasks@[ti as int]@);
        }
        let mut tr = self.trees.remove(ci);
        let mut t = tr.tasks.remove(ti);
        let uid = t.id.duplicate();
        let name = t.name.clone();
        t.description = description;
        tr.tasks.insert(ti, t);
        self.trees.insert(ci, tr);
        proof {
            let tiv = ti as int;
            let nv = tv.update(
                tiv,
                TaskV { description: self.trees@[ci as int].tasks@[tiv]@.description, ..tv[tiv] },
            );
            assert(tasks_view(self.trees@[ci as int].tasks@) =~= nv);
            assert(self@.trees =~= old(self)@.trees.update(
                ci as int,
                TreeV { tasks: nv, ..old(self)@.trees[ci as int] },
            ));
            assert(self@.frames =~= old(self)@.frames);
            assert(self@.notes =~= old(self)@.notes);
            assert forall|a: int, b: int|
                #![trigger nv[a], nv[b]]
                0 <= a < nv.len() && 0 <= b < nv.len() && a != b implies compatible(nv[a], nv[b])
                && (a < b ==> nv[a].left < nv[b].left) by {
                assert(compatible(tv[a], tv[b]));
            }
            assert forall|a: int| 0 <= a < nv.len() implies task_wf(#[trigger] nv[a]) && (1 <= a
                ==> covers(nv[0], nv[a])) && nv[a].right <= 2 * nv.len() by {
                assert(task_wf(tv[a]));
                if 1 <= a {
                    assert(covers(tv[0], tv[a]));
                }
            }
            assert(tree_wf(self@.trees[ci as int]));
            assert forall|j: int| 0 <= j < self@.trees.len() implies tree_wf(
                #[trigger] self@.trees[j],
            ) && self@.trees[j].name == old(self)@.trees[j].name by {
                if j != ci as int {
                    assert(self@.trees[j] == old(self)@.trees[j]);
                    assert(tree_wf(old(self)@.trees[j]));
                }
            }
            if self@.current is Some {
                let cn = self@.current->Some_0;
                let w = choose|i: int|
                    0 <= i < old(self)@.trees.len() && (#[trigger] old(self)@.trees[i]).name == cn;
                assert(self@.trees[w].name == cn);
            }
            assert(forest_wf(self@));
        }
        Ok((uid, name))
    }

    /// Renders the tasks of the current tree in depth-first order: one line
    /// for each task below the synthetic root, made of indent cells for the
    /// ancestors, a branch glyph, the short id and the name.  Listing
    /// changes nothing, so repeating it yields the same lines.
    pub fn list_tasks(&self) -> (r: Result<Vec<String>, ForestError>)
        requires
            forest_wf(self@),
        ensures
            ({
                let ci = spec_current_index(self@);
                match r {
                    Ok(lines) => ci matches Some(c) && lines_view(lines@)
                        == spec_task_lines(self@.trees[c].tasks),
                    Err(e) => e is EmptyForest && ci is None,
                }
            }),
    {
        let ci = match self.current_tree_index() {
            Ok(i) => i,
            Err(e) => {
                return Err(e);
            },
        };
        let tree = &self.trees[ci];
        let ghost tv = self@.trees[ci as int].tasks;
        proof {
            assert(tree_wf(self@.trees[ci as int]));
            assert(tv == tasks_view(tree.tasks@));
            assert(tv[0] == tree.tasks@[0]@);
            assert(task_wf(tv[0]));
        }
        let n = tree.tasks.len();
        let mut lines: Vec<String> = Vec::new();
        let mut stack: Vec<u64> = Vec::new();
        stack.push(tree.tasks[0].right);
        proof {
            assert(stack_view(stack@) =~= stack_after(tv, 0));
        }
        let mut i: usize = 1;
        while i < n
            invariant
                1 <= i <= n || (n <= 1 && i == 1),
                n == tree.tasks.len(),
                tv == tasks_view(tree.tasks@),
                tasks_wf(tv),
                n == tv.len(),
                stack_view(stack@) == stack_after(tv, i - 1),
                stack@.len() >= 1,
                forall|k: int| 0 <= k < stack@.len() ==> (#[trigger] stack@[k]) >= 2,
                lines@.len() == i - 1,
                forall|k: int|
                    0 <= k < i - 1 ==> #[trigger] lines_view(lines@)[k] == spec_task_line(
                        tv,
                        k + 1,
                    ),
            decreases n - i,
        {
            let t = &tree.tasks[i];
            proof {
                assert(tv[i as int] == tree.tasks@[i as int]@);
                assert(task_wf(tv[i as int]));
                assert(covers(tv[0], tv[i as int]));
                lemma_stack_after_bottom(tv, i - 1);
            }
            let ghost entry_stack = stack_view(stack@);
            let ghost lv = tv[i as int].left;
            // pop the ancestors whose span ends before the current row
            while stack.len() > 0 && t.left > stack[stack.len() - 1]
                invariant
                    stack@.len() >= 1,
                    forall|k: int| 0 <= k < stack@.len() ==> (#[trigger] stack@[k]) >= 2,
                    stack@[0] as int == entry_stack[0],
                    i < n == tv.len(),
                    tasks_wf(tv),
                    tv[i as int] == tree.tasks@[i as int]@,
                    n == tree.tasks.len(),
                    lv == tv[i as int].left,
                    t.left as int == lv,
                    lv < entry_stack[0],
                    spec_pop(entry_stack, lv) == spec_pop(
                        stack_view(stack@),
                        lv,
                    ),
                decreases stack@.len(),
            {
                proof {
                    let smap = stack_view(stack@);
                    assert(smap.len() == stack@.len());
                    assert(smap.last() == stack@[stack@.len() - 1] as int);
                    assert(smap[0] == stack@[0] as int);
                    assert(lv > smap.last());
                    if stack@.len() == 1 {
                        assert(smap.last() == smap[0]);
                        assert(false);
                    }
                    assert(smap.drop_last() =~= stack_view(stack@.drop_last()));
                    assert(spec_pop(smap, lv) == spec_pop(smap.drop_last(), lv));
                }
                stack.pop();
            }
            let ghost ps = spec_pop(stack_after(tv, i - 1), lv);
            proof {
                let smap = stack_view(stack@);
                assert(!(stack@.len() > 0 && tv[i as int].left > smap.last()));
                assert(spec_pop(smap, lv) == smap);
                assert(ps == smap);
            }
            // indent cells: one for each adjacent pair of ancestors
            let mut line = String::new();
            let sl = stack.len();
            let mut k: usize = 0;
            while k + 1 < sl
                invariant
                    0 <= k,
                    k + 1 <= sl,
                    sl == stack@.len(),
                    forall|q: int| 0 <= q < stack@.len() ==> (#[trigger] stack@[q]) >= 2,
                    ps == stack_view(stack@),
                    line@ == indent_upto(ps, k as int),
                decreases sl - k,
            {
                proof {
                    assert(ps[k as int] == stack@[k as int] as int);
                    assert(ps[k + 1] == stack@[k + 1] as int);
                }
                if stack[k + 1] == stack[k] - 1 {
                    line.append("  ");
                } else {
                    line.append("│ ");
                }
                k += 1;
            }
            // the branch glyph: a closing corner for the last child
            proof {
                assert(ps.last() == stack@.last() as int);
            }
            if t.right == stack[sl - 1] - 1 {
                line.append("└╴");
            } else {
                line.append("├╴");
            }
            line.append(t.id.short());
            line.append(" ");
            line.append(t.name.as_str());
            proof {
                assert(line@ == spec_task_line(tv, i as int));
            }
            let ghost pre_lines = lines@;
            lines.push(line);
            proof {
                assert forall|q: int| 0 <= q < i as int implies #[trigger] lines_view(
                    lines@,
                )[q] == spec_task_line(tv, q + 1) by {
                    assert(lines_view(lines@)[q] == lines@[q]@);
                    if q < i - 1 {
                        assert(lines@[q] == pre_lines[q]);
                        assert(lines_view(pre_lines)[q] == pre_lines[q]@);
                    }
                }
            }
            // a task with descendants opens a new span
            let w = t.right - t.left;
            if w > 1 {
                stack.push(t.right);
            }
            proof {
                assert(stack_view(stack@) =~= stack_after(tv, i as int));
            }
            i += 1;
        }
        proof {
            assert(lines_view(lines@) =~= spec_task_lines(tv));
        }
        Ok(lines)
    }

    /// Moves the task the prefix resolves to, together with its whole
    /// subtree, so that it becomes the child number `priority` (counting
    /// from 1) of its current parent; the other siblings keep their
    /// relative order.
    ///
    /// Fails with `InvalidFormat` when `priority` is zero, with `NotFound`
    /// when the parent has fewer children than `priority`, and as the
    /// resolver does; the store is unchanged on every failure.
    pub fn priority(&mut self, partial_uid: &String, priority: u64) -> (r: Result<
        (Uid, String),
        ForestError,
    >)
        requires
            forest_wf(old(self)@),
        ensures
            forest_wf(final(self)@),
            ({
                let ci = spec_current_index(old(self)@);
                match r {
                    Ok((uid, name)) => {
                        &&& ci matches Some(c)
                        &&& priority >= 1
                        &&& exists|mi: int, pi: int|
                            {
                                let tasks = old(self)@.trees[c].tasks;
                                let ti = children_of(tasks, pi)[priority - 1];
                                &&& match_indices(tasks, partial_uid@) == seq![mi]
                                &&& 1 <= mi < tasks.len()
                                &&& uid@ == tasks[mi].id
                                &&& name@ == tasks[mi].name
                                &&& #[trigger] is_immediate_child(
                                    old(self)@.trees[c].tasks,
                                    pi,
                                    mi,
                                )
                                &&& #[trigger] children_of(old(self)@.trees[c].tasks, pi).len()
                                    > priority - 1
                                &&& final(self)@ == (ForestV {
                                    trees: old(self)@.trees.update(
                                        c,
                                        TreeV {
                                            tasks: (if tasks[ti].left < tasks[mi].left {
                                                spec_swap_spans(
                                                    tasks,
                                                    tasks[ti].left,
                                                    tasks[mi].left - 1,
                                                    tasks[mi].right,
                                                )
                                            } else if tasks[mi].right < tasks[ti].right {
                                                spec_swap_spans(
                                                    tasks,
                                                    tasks[mi].left,
                                                    tasks[mi].right,
                                                    tasks[ti].right,
                                                )
                                            } else {
                                                tasks
                                            }),
                                            ..old(self)@.trees[c]
                                        },
                                    ),
                                    ..old(self)@
                                })
                            }
                    },
                    Err(ForestError::InvalidFormat) => priority == 0 && final(self)@ == old(
                        self,
                    )@,
                    Err(ForestError::EmptyForest) => ci is None && final(self)@ == old(self)@,
                    Err(ForestError::NotFound) => {
                        &&& ci matches Some(c)
                        &&& priority >= 1
                        &&& (match_indices(old(self)@.trees[c].tasks, partial_uid@).len() == 0
                            || exists|mi: int, pi: int|
                            {
                                &&& match_indices(old(self)@.trees[c].tasks, partial_uid@)
                                    == seq![mi]
                                &&& #[trigger] is_immediate_child(
                                    old(self)@.trees[c].tasks,
                                    pi,
                                    mi,
                                )
                                &&& children_of(old(self)@.trees[c].tasks, pi).len() <= priority
                                    - 1
                            })
                        &&& final(self)@ == old(self)@
                    },
                    Err(ForestError::Ambiguous { candidates }) => {
                        &&& ci matches Some(c)
                        &&& candidates_list_matches(
                            old(self)@.trees[c].tasks,
                            partial_uid@,
                            candidates@,
                        )
                        &&& final(self)@ == old(self)@
                    },
                    _ => false,
                }
            }),
    {
        if priority == 0 {
            return Err(ForestError::InvalidFormat);
        }
        let ci = match self.current_tree_index() {
            Ok(i) => i,
            Err(e) => {
                return Err(e);
            },
        };
        let mi = match self.find_task(partial_uid.as_str()) {
            Ok(i) => i,
            Err(e) => {
                return Err(e);
            },
        };
        let ghost tv = self@.trees[ci as int].tasks;
        proof {
            assert(tree_wf(self@.trees[ci as int]));
            assert(tv == tasks_view(self.trees@[ci as int].tasks@));
        }
        let pi = find_parent(&self.trees[ci].tasks, mi);
        let ti = match nth_child(&self.trees[ci].tasks, pi, priority - 1) {
            Some(t) => t,
            None => {
                return Err(ForestError::NotFound);
            },
        };
        proof {
            lemma_children_sound(tv, pi as int, tv.len() as int);
            assert(children_of(tv, pi as int)[priority as int - 1] == ti as int);
            assert(is_immediate_child(tv, pi as int, ti as int));
            assert(tv[mi as int] == self.trees@[ci as int].tasks@[mi as int]@);
            assert(tv[ti as int] == self.trees@[ci as int].tasks@[ti as int]@);
        }
        let moved = &self.trees[ci].tasks[mi];
        let ml = moved.left;
        let mr = moved.right;
        let uid = moved.id.duplicate();
        let name = moved.name.clone();
        let target = &self.trees[ci].tasks[ti];
        let tl = target.left;
        let tr = target.right;
        let ghost old_trees = self@.trees;
        if tl < ml {
            proof {
                lemma_move_left_spans(tv, pi as int, mi as int, ti as int);
            }
            let mut tr2 = self.trees.remove(ci);
            let out = swap_span_tasks(&tr2.tasks, tl, ml - 1, mr);
            proof {
                lemma_swap_wf(tv, tl as int, ml as int - 1, mr as int);
            }
            tr2.tasks = out;
            self.trees.insert(ci, tr2);
            proof {
                assert(self@.trees =~= old_trees.update(
                    ci as int,
                    TreeV {
                        tasks: spec_swap_spans(tv, tl as int, ml as int - 1, mr as int),
                        ..old_trees[ci as int]
                    },
                ));
            }
        } else if mr < tr {
            proof {
                lemma_move_right_spans(tv, pi as int, mi as int, ti as int);
            }
            let mut tr2 = self.trees.remove(ci);
            let out = swap_span_tasks(&tr2.tasks, ml, mr, tr);
            proof {
                lemma_swap_wf(tv, ml as int, mr as int, tr as int);
            }
            tr2.tasks = out;
            self.trees.insert(ci, tr2);
            proof {
                assert(self@.trees =~= old_trees.update(
                    ci as int,
                    TreeV {
                        tasks: spec_swap_spans(tv, ml as int, mr as int, tr as int),
                        ..old_trees[ci as int]
                    },
                ));
            }
        } else {
            proof {
                if ti != mi {
                    lemma_siblings_apart(tv, pi as int, mi as int, ti as int);
                    assert(false);
                }
                assert(self@.trees =~= old_trees.update(
                    ci as int,
                    TreeV { tasks: tv, ..old_trees[ci as int] },
                ));
            }
        }
        proof {
            assert(self@.frames =~= old(self)@.frames);
            assert(self@.notes =~= old(self)@.notes);
            assert forall|j: int| 0 <= j < self@.trees.len() implies tree_wf(
                #[trigger] self@.trees[j],
            ) && self@.trees[j].name == old(self)@.trees[j].name by {
                if j != ci as int {
                    assert(self@.trees[j] == old(self)@.trees[j]);
                    assert(tree_wf(old(self)@.trees[j]));
                }
            }
            if self@.current is Some {
                let cn = self@.current->Some_0;
                let w = choose|i: int|
                    0 <= i < old(self)@.trees.len() && (#[trigger] old(self)@.trees[i]).name == cn;
                assert(self@.trees[w].name == cn);
            }
            assert(forest_wf(self@));
            assert(self@ == (ForestV {
                trees: old(self)@.trees.update(
                    ci as int,
                    TreeV {
                        tasks: (if tv[ti as int].left < tv[mi as int].left {
                            spec_swap_spans(
                                tv,
                                tv[ti as int].left,
                                tv[mi as int].left - 1,
                                tv[mi as int].right,
                            )
                        } else if tv[mi as int].right < tv[ti as int].right {
                            spec_swap_spans(
                                tv,
                                tv[mi as int].left,
                                tv[mi as int].right,
                                tv[ti as int].right,
                            )
                        } else {
                            tv
                        }),
                        ..old(self)@.trees[ci as int]
                    },
                ),
                ..old(self)@
            }));
        }
        Ok((uid, name))
    }

    /// Returns the id, the name and the description of the task the prefix
    /// resolves to, without changing anything.  Fails as the resolver does.
    pub fn show_task(&self, partial_uid: &String) -> (r: Result<(Uid, String, String), ForestError>)
        requires
            forest_wf(self@),
        ensures
            ({
                let ci = spec_current_index(self@);
                match r {
                    Ok((uid, name, description)) => {
                        &&& ci matches Some(c)
                        &&& exists|ti: int|
                            {
                                &&& #[trigger] match_indices(self@.trees[c].tasks, partial_uid@)
                                    == seq![ti]
                                &&& 1 <= ti < self@.trees[c].tasks.len()
                                &&& uid@ == self@.trees[c].tasks[ti].id
                                &&& name@ == self@.trees[c].tasks[ti].name
                                &&& description@ == self@.trees[c].tasks[ti].description
                            }
                    },
                    Err(ForestError::EmptyForest) => ci is None,
                    Err(ForestError::NotFound) => ci matches Some(c) && match_indices(
                        self@.trees[c].tasks,
                        partial_uid@,
                    ).len() == 0,
                    Err(ForestError::Ambiguous { candidates }) => ci matches Some(c)
                        && candidates_list_matches(self@.trees[c].tasks, partial_uid@, candidates@),
                    _ => false,
                }
            }),
    {
        let ci = match self.current_tree_index() {
            Ok(i) => i,
            Err(e) => {
                return Err(e);
            },
        };
        let ti = match self.find_task(partial_uid.as_str()) {
            Ok(i) => i,
            Err(e) => {
                return Err(e);
            },
        };
        proof {
            assert(self@.trees[ci as int].tasks[ti as int] == self.trees@[ci as int].tasks@[ti as int]@);
        }
        let t = &self.trees[ci].tasks[ti];
        Ok((t.id.duplicate(), t.name.clone(), t.description.clone()))
    }
}

} // verus!
