//! The store: trees of tasks in nested-set form, time frames and notes.
//!
//! Every mutation of this state is a single batch transformation: the new
//! rows are computed from the old ones in one pass and written back, so a
//! reader never observes an intermediate, invariant-violating state.

use vstd::prelude::*;
use vstd::string::*;
use crate::types::ForestError;
use crate::types::Uid;

verus! {

/// One task row: an identifier, the nested-set interval `[left, right]`
/// and the user-visible fields.
pub struct Task {
    pub id: Uid,
    pub left: u64,
    pub right: u64,
    pub name: String,
    pub description: String,
}

/// One tree with its tasks.  `tasks[0]` is the synthetic root; the vector
/// is ordered by ascending `left`.
pub struct Tree {
    pub name: String,
    pub description: String,
    pub tasks: Vec<Task>,
}

/// One recorded time frame, in epoch milliseconds.  `end == None` means the
/// frame is still open.  `task_id` is the id of the root task of the tree
/// the frame was recorded on.
pub struct Frame {
    pub id: Uid,
    pub start: i64,
    pub end: Option<i64>,
    pub task_id: Uid,
}

/// One note record: creation timestamp, the root task of the tree the note
/// belongs to, and whether it was generated by time tracking.  The textual
/// body lives outside the store.
pub struct Note {
    pub id: Uid,
    pub date: i64,
    pub task_id: Uid,
    pub time_tracking: bool,
}

/// The whole store: all trees, all frames, all notes, and the name of the
/// current tree, if one was ever set.
pub struct Forest {
    pub trees: Vec<Tree>,
    pub frames: Vec<Frame>,
    pub notes: Vec<Note>,
    pub current: Option<String>,
}

/// The mathematical value of a task row.
pub struct TaskV {
    pub id: Seq<char>,
    pub left: int,
    pub right: int,
    pub name: Seq<char>,
    pub description: Seq<char>,
}

/// The mathematical value of a tree.
pub struct TreeV {
    pub name: Seq<char>,
    pub description: Seq<char>,
    pub tasks: Seq<TaskV>,
}

/// The mathematical value of a frame.
pub struct FrameV {
    pub id: Seq<char>,
    pub start: int,
    pub end: Option<int>,
    pub task_id: Seq<char>,
}

/// The mathematical value of a note record.
pub struct NoteV {
    pub id: Seq<char>,
    pub date: int,
    pub task_id: Seq<char>,
    pub time_tracking: bool,
}

/// The mathematical value of the whole store.
pub struct ForestV {
    pub trees: Seq<TreeV>,
    pub frames: Seq<FrameV>,
    pub notes: Seq<NoteV>,
    pub current: Option<Seq<char>>,
}

impl View for Task {
    type V = TaskV;

    open spec fn view(&self) -> TaskV {
        TaskV {
            id: self.id@,
            left: self.left as int,
            right: self.right as int,
            name: self.name@,
            description: self.description@,
        }
    }
}

/// The mathematical value of a row vector.
pub open spec fn tasks_view(v: Seq<Task>) -> Seq<TaskV> {
    v.map_values(|t: Task| t@)
}

impl View for Tree {
    type V = TreeV;

    open spec fn view(&self) -> TreeV {
        TreeV { name: self.name@, description: self.description@, tasks: tasks_view(self.tasks@) }
    }
}

impl View for Frame {
    type V = FrameV;

    open spec fn view(&self) -> FrameV {
        FrameV {
            id: self.id@,
            start: self.start as int,
            end: match self.end {
                Some(e) => Some(e as int),
                None => None,
            },
            task_id: self.task_id@,
        }
    }
}

impl View for Note {
    type V = NoteV;

    open spec fn view(&self) -> NoteV {
        NoteV {
            id: self.id@,
            date: self.date as int,
            task_id: self.task_id@,
            time_tracking: self.time_tracking,
        }
    }
}

/// The mathematical value of a vector of trees.
pub open spec fn trees_view(v: Seq<Tree>) -> Seq<TreeV> {
    v.map_values(|t: Tree| t@)
}

/// The mathematical value of a vector of frames.
pub open spec fn frames_view(v: Seq<Frame>) -> Seq<FrameV> {
    v.map_values(|f: Frame| f@)
}

/// The mathematical value of a vector of note records.
pub open spec fn notes_view(v: Seq<Note>) -> Seq<NoteV> {
    v.map_values(|n: Note| n@)
}

impl View for Forest {
    type V = ForestV;

    open spec fn view(&self) -> ForestV {
        ForestV {
            trees: trees_view(self.trees@),
            frames: frames_view(self.frames@),
            notes: notes_view(self.notes@),
            current: match self.current {
                Some(ref s) => Some(s@),
                None => None,
            },
        }
    }
}

/// `a`'s interval strictly contains `b`'s.
pub open spec fn covers(a: TaskV, b: TaskV) -> bool {
    a.left < b.left && b.right < a.right
}

/// The two intervals are disjoint.
pub open spec fn apart(a: TaskV, b: TaskV) -> bool {
    a.right < b.left || b.right < a.left
}

/// The containment property for a pair of distinct tasks: strictly nested
/// one way or the other, or disjoint.  Partial overlap is forbidden.
pub open spec fn compatible(a: TaskV, b: TaskV) -> bool {
    apart(a, b) || covers(a, b) || covers(b, a)
}

/// A single task is well formed: a non-empty interval and a valid id.
pub open spec fn task_wf(t: TaskV) -> bool {
    t.left < t.right && crate::types::valid_uid_seq(t.id)
}

/// The task rows of one tree are well formed:
/// the root sits at index 0 with `left == 1` and contains every other task;
/// rows are strictly sorted by `left`; every pair of distinct intervals is
/// nested or disjoint; and all interval boundaries stay within `2 * len`.
pub open spec fn tasks_wf(s: Seq<TaskV>) -> bool {
    &&& 1 <= s.len()
    &&& s[0].left == 1
    &&& forall|i: int| 0 <= i < s.len() ==> task_wf(#[trigger] s[i])
    &&& forall|i: int, j: int|
        #![trigger s[i], s[j]]
        0 <= i < j < s.len() ==> s[i].left < s[j].left
    &&& forall|i: int, j: int|
        #![trigger s[i], s[j]]
        0 <= i < s.len() && 0 <= j < s.len() && i != j ==> compatible(s[i], s[j])
    &&& forall|i: int| 1 <= i < s.len() ==> covers(s[0], #[trigger] s[i])
    &&& forall|i: int| 0 <= i < s.len() ==> (#[trigger] s[i]).right <= 2 * s.len()
}

/// A tree is well formed when its task rows are.
pub open spec fn tree_wf(t: TreeV) -> bool {
    tasks_wf(t.tasks)
}

/// A frame is open when it has no end yet.
pub open spec fn frame_open(f: FrameV) -> bool {
    f.end is None
}

/// How many frames of the sequence are open.
pub open spec fn count_open(frames: Seq<FrameV>) -> int
    decreases frames.len(),
{
    if frames.len() == 0 {
        0
    } else {
        count_open(frames.drop_last()) + if frame_open(frames.last()) {
            1int
        } else {
            0int
        }
    }
}

/// At most one frame of the sequence is open.
pub open spec fn at_most_one_open(frames: Seq<FrameV>) -> bool {
    count_open(frames) <= 1
}

/// The whole store is well formed: every tree is well formed, tree names
/// are unique, the current-tree name (when set) names an existing tree, at
/// most one frame is open, and notes are ordered by descending date.
pub open spec fn forest_wf(f: ForestV) -> bool {
    &&& forall|i: int| 0 <= i < f.trees.len() ==> tree_wf(#[trigger] f.trees[i])
    &&& forall|i: int, j: int|
        #![trigger f.trees[i], f.trees[j]]
        0 <= i < j < f.trees.len() ==> f.trees[i].name != f.trees[j].name
    &&& (f.current matches Some(n) ==> exists|i: int|
        0 <= i < f.trees.len() && (#[trigger] f.trees[i]).name == n)
    &&& at_most_one_open(f.frames)
    &&& forall|i: int, j: int|
        #![trigger f.notes[i], f.notes[j]]
        0 <= i < j < f.notes.len() ==> f.notes[i].date >= f.notes[j].date
}

/// The machine can still hold the boundaries that one more insertion
/// produces: they stay below `u64::MAX`.
pub open spec fn room_for_task(t: TreeV) -> bool {
    2 * t.tasks.len() + 4 <= u64::MAX
}

/// `p` is a prefix of `s`.
pub open spec fn is_prefix(p: Seq<char>, s: Seq<char>) -> bool {
    p.len() <= s.len() && p == s.subrange(0, p.len() as int)
}

/// The index the stored current-tree name resolves to: the tree of that
/// name, or the first tree when no name is stored, or nothing when the
/// store holds no tree at all.
pub open spec fn spec_current_index(f: ForestV) -> Option<int> {
    match f.current {
        Some(n) => {
            if exists|i: int| 0 <= i < f.trees.len() && (#[trigger] f.trees[i]).name == n {
                Some(choose|i: int| 0 <= i < f.trees.len() && (#[trigger] f.trees[i]).name == n)
            } else {
                None
            }
        },
        None => {
            if f.trees.len() > 0 {
                Some(0int)
            } else {
                None
            }
        },
    }
}

/// The index of the tree carrying the given name; meaningful only when
/// such a tree exists, and unique because tree names are.
pub open spec fn spec_tree_index(f: ForestV, name: Seq<char>) -> int {
    choose|i: int| 0 <= i < f.trees.len() && (#[trigger] f.trees[i]).name == name
}

/// Compares two string slices character by character.
pub fn strings_equal(a: &str, b: &str) -> (r: bool)
    ensures
        r == (a@ == b@),
{
    let alen = a.unicode_len();
    let blen = b.unicode_len();
    if alen != blen {
        return false;
    }
    let mut i: usize = 0;
    while i < alen
        invariant
            0 <= i <= alen,
            alen == a@.len(),
            alen == b@.len(),
            forall|k: int| 0 <= k < i ==> a@[k] == b@[k],
        decreases alen - i,
    {
        if a.get_char(i) != b.get_char(i) {
            return false;
        }
        i += 1;
    }
    proof {
        assert(a@ =~= b@);
    }
    true
}

/// Whether `p` is a prefix of `s`, character by character.
pub fn str_starts_with(s: &str, p: &str) -> (r: bool)
    ensures
        r == is_prefix(p@, s@),
{
    let plen = p.unicode_len();
    let slen = s.unicode_len();
    if plen > slen {
        return false;
    }
    let mut i: usize = 0;
    while i < plen
        invariant
            0 <= i <= plen,
            plen == p@.len(),
            slen == s@.len(),
            plen <= slen,
            forall|k: int| 0 <= k < i ==> p@[k] == s@[k],
        decreases plen - i,
    {
        if p.get_char(i) != s.get_char(i) {
            return false;
        }
        i += 1;
    }
    proof {
        assert(p@ =~= s@.subrange(0, p@.len() as int));
    }
    true
}

/// Decides whether one tree's task rows are well formed.
pub fn check_tasks_wf(tasks: &Vec<Task>) -> (r: bool)
    ensures
        r == tasks_wf(tasks_view(tasks@)),
{
    let ghost s = tasks_view(tasks@);
    let n = tasks.len();
    if n < 1 {
        return false;
    }
    proof {
        assert(s[0] == tasks@[0]@);
    }
    if tasks[0].left != 1 {
        return false;
    }
    // each row: a non-empty interval, a valid id, a boundary within 2 * len,
    // and containment in the root
    let mut i: usize = 0;
    while i < n
        invariant
            0 <= i <= n,
            n == tasks@.len(),
            s == tasks_view(tasks@),
            s[0].left == 1,
            forall|k: int| 0 <= k < i ==> task_wf(#[trigger] s[k]),
            forall|k: int| 0 <= k < i ==> (#[trigger] s[k]).right <= 2 * s.len(),
            forall|k: int| 1 <= k < i ==> covers(s[0], #[trigger] s[k]),
        decreases n - i,
    {
        proof {
            assert(s[i as int] == tasks@[i as int]@);
            assert(s[0] == tasks@[0]@);
        }
        let t = &tasks[i];
        if !(t.left < t.right && t.id.check_wf()) {
            proof {
                assert(!task_wf(s[i as int]));
            }
            return false;
        }
        if !((t.right as u128) <= 2 * (n as u128)) {
            proof {
                assert(!(s[i as int].right <= 2 * s.len()));
            }
            return false;
        }
        if i >= 1 && !(tasks[0].left < t.left && t.right < tasks[0].right) {
            proof {
                assert(!covers(s[0], s[i as int]));
            }
            return false;
        }
        i += 1;
    }
    // each pair: sorted by left and nested or disjoint
    let mut i: usize = 0;
    while i < n
        invariant
            0 <= i <= n,
            n == tasks@.len(),
            s == tasks_view(tasks@),
            forall|a: int, b: int|
                #![trigger s[a], s[b]]
                0 <= a < b < s.len() && a < i ==> s[a].left < s[b].left && compatible(s[a], s[b]),
        decreases n - i,
    {
        let mut j: usize = i + 1;
        while j < n
            invariant
                0 <= i < j <= n,
                n == tasks@.len(),
                s == tasks_view(tasks@),
                forall|b: int|
                    i < b < j ==> s[i as int].left < (#[trigger] s[b]).left && compatible(
                        s[i as int],
                        s[b],
                    ),
            decreases n - j,
        {
            proof {
                assert(s[i as int] == tasks@[i as int]@);
                assert(s[j as int] == tasks@[j as int]@);
            }
            let a = &tasks[i];
            let b = &tasks[j];
            let pair_ok = a.left < b.left && ((a.right < b.left || b.right < a.left) || (a.left
                < b.left && b.right < a.right) || (b.left < a.left && a.right < b.right));
            if !pair_ok {
                proof {
                    assert(!(s[i as int].left < s[j as int].left && compatible(
                        s[i as int],
                        s[j as int],
                    )));
                }
                return false;
            }
            j += 1;
        }
        i += 1;
    }
    proof {
        assert forall|a: int, b: int|
            #![trigger s[a], s[b]]
            0 <= a < s.len() && 0 <= b < s.len() && a != b implies compatible(s[a], s[b]) by {
            if a < b {
                assert(compatible(s[a], s[b]));
            } else {
                assert(compatible(s[b], s[a]));
            }
        }
        assert(tasks_wf(s));
    }
    true
}

impl Forest {
    /// An empty store.
    pub fn new() -> (r: Forest)
        ensures
            forest_wf(r@),
            r@.trees.len() == 0,
            r@.frames.len() == 0,
            r@.notes.len() == 0,
            r@.current is None,
    {
        Forest { trees: Vec::new(), frames: Vec::new(), notes: Vec::new(), current: None }
    }

    /// The index of the tree with the given name, if any.
    pub fn find_tree(&self, name: &str) -> (r: Option<usize>)
        ensures
            r matches Some(i) ==> i < self@.trees.len() && self@.trees[i as int].name == name@,
            r is None ==> forall|i: int|
                0 <= i < self@.trees.len() ==> (#[trigger] self@.trees[i]).name != name@,
    {
        let mut i: usize = 0;
        let n = self.trees.len();
        while i < n
            invariant
                0 <= i <= n,
                n == self@.trees.len(),
                n == self.trees.len(),
                forall|k: int| 0 <= k < i ==> (#[trigger] self@.trees[k]).name != name@,
            decreases n - i,
        {
            if strings_equal(self.trees[i].name.as_str(), name) {
                return Some(i);
            }
            i += 1;
        }
        None
    }

    /// The index of the current tree, as `spec_current_index` resolves it.
    /// Fails with `EmptyForest` when no tree exists at all.
    pub fn current_tree_index(&self) -> (r: Result<usize, ForestError>)
        requires
            forest_wf(self@),
        ensures
            r matches Ok(i) ==> spec_current_index(self@) == Some(i as int) && i
                < self@.trees.len(),
            r matches Err(e) ==> e is EmptyForest && spec_current_index(self@) is None,
    {
        match &self.current {
            Some(name) => {
                match self.find_tree(name.as_str()) {
                    Some(i) => {
                        proof {
                            let n = self@.current->Some_0;
                            let w = choose|k: int|
                                0 <= k < self@.trees.len() && (#[trigger] self@.trees[k]).name
                                    == n;
                            assert(self@.trees[w].name == n);
                        }
                        Ok(i)
                    },
                    None => {
                        proof {
                            assert(false);
                        }
                        Err(ForestError::EmptyForest)
                    },
                }
            },
            None => {
                if self.trees.len() == 0 {
                    Err(ForestError::EmptyForest)
                } else {
                    Ok(0)
                }
            },
        }
    }

    /// Decides whether the whole store is well formed: rows read from an
    /// outside store must be checked before the engines may rely on them.
    pub fn check_wf(&self) -> (r: bool)
        ensures
            r == forest_wf(self@),
    {
        // every tree is well formed
        let nt = self.trees.len();
        let mut i: usize = 0;
        while i < nt
            invariant
                0 <= i <= nt,
                nt == self.trees@.len(),
                forall|k: int| 0 <= k < i ==> tree_wf(#[trigger] self@.trees[k]),
            decreases nt - i,
        {
            proof {
                assert(self@.trees[i as int] == self.trees@[i as int]@);
            }
            if !check_tasks_wf(&self.trees[i].tasks) {
                proof {
                    assert(!tree_wf(self@.trees[i as int]));
                }
                return false;
            }
            i += 1;
        }
        // tree names are unique
        let mut i: usize = 0;
        while i < nt
            invariant
                0 <= i <= nt,
                nt == self.trees@.len(),
                forall|a: int, b: int|
                    #![trigger self@.trees[a], self@.trees[b]]
                    0 <= a < b < self@.trees.len() && a < i ==> self@.trees[a].name
                        != self@.trees[b].name,
            decreases nt - i,
        {
            let mut j: usize = i + 1;
            while j < nt
                invariant
                    0 <= i < j <= nt,
                    nt == self.trees@.len(),
                    forall|b: int|
                        i < b < j ==> self@.trees[i as int].name != (#[trigger] self@.trees[b]).name,
                decreases nt - j,
            {
                proof {
                    assert(self@.trees[i as int] == self.trees@[i as int]@);
                    assert(self@.trees[j as int] == self.trees@[j as int]@);
                }
                if strings_equal(self.trees[i].name.as_str(), self.trees[j].name.as_str()) {
                    proof {
                        assert(self@.trees[i as int].name == self@.trees[j as int].name);
                    }
                    return false;
                }
                j += 1;
            }
            i += 1;
        }
        // the current-tree name, when set, names an existing tree
        match &self.current {
            Some(n) => {
                if self.find_tree(n.as_str()).is_none() {
                    return false;
                }
            },
            None => {},
        }
        // at most one frame is open
        let ghost fv = self@.frames;
        let nf = self.frames.len();
        let mut open_cnt: usize = 0;
        let mut i: usize = 0;
        while i < nf
            invariant
                0 <= i <= nf,
                nf == self.frames@.len(),
                fv == self@.frames,
                open_cnt <= i,
                open_cnt as int == count_open(fv.subrange(0, i as int)),
            decreases nf - i,
        {
            proof {
                assert(fv[i as int] == self.frames@[i as int]@);
                assert(fv.subrange(0, i + 1).drop_last() =~= fv.subrange(0, i as int));
                assert(fv.subrange(0, i + 1).last() == fv[i as int]);
            }
            if self.frames[i].end.is_none() {
                open_cnt += 1;
            }
            i += 1;
        }
        proof {
            assert(fv.subrange(0, nf as int) =~= fv);
        }
        if open_cnt > 1 {
            return false;
        }
        // notes are ordered by descending date
        let nn = self.notes.len();
        let mut i: usize = 0;
        while i < nn
            invariant
                0 <= i <= nn,
                nn == self.notes@.len(),
                forall|a: int, b: int|
                    #![trigger self@.notes[a], self@.notes[b]]
                    0 <= a < b < self@.notes.len() && a < i ==> self@.notes[a].date
                        >= self@.notes[b].date,
            decreases nn - i,
        {
            let mut j: usize = i + 1;
            while j < nn
                invariant
                    0 <= i < j <= nn,
                    nn == self.notes@.len(),
                    forall|b: int|
                        i < b < j ==> self@.notes[i as int].date >= (#[trigger] self@.notes[b]).date,
                decreases nn - j,
            {
                proof {
                    assert(self@.notes[i as int] == self.notes@[i as int]@);
                    assert(self@.notes[j as int] == self.notes@[j as int]@);
                }
                if self.notes[i].date < self.notes[j].date {
                    return false;
                }
                j += 1;
            }
            i += 1;
        }
        proof {
            if self@.current is Some {
                let n = self@.current->Some_0;
                let w = choose|w: int|
                    0 <= w < self@.trees.len() && (#[trigger] self@.trees[w]).name == n;
            }
            assert(forest_wf(self@));
        }
        true
    }

    /// The name of the current tree, as `spec_current_index` resolves it.
    pub fn current_tree_name(&self) -> (r: Result<String, ForestError>)
        requires
            forest_wf(self@),
        ensures
            r matches Ok(s) ==> spec_current_index(self@) matches Some(i) && self@.trees[i].name
                == s@,
            r matches Err(e) ==> e is EmptyForest && spec_current_index(self@) is None,
    {
        match self.current_tree_index() {
            Ok(i) => Ok(self.trees[i].name.clone()),
            Err(e) => Err(e),
        }
    }
}

} // verus!
