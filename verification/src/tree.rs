//! Operations on whole trees: creation, removal with cascade, renaming,
//! descriptions, the current-tree switch and the forest listing.

use vstd::prelude::*;
use vstd::string::*;
use crate::store::Forest;
use crate::store::ForestV;
use crate::store::Frame;
use crate::store::FrameV;
use crate::store::Note;
use crate::store::NoteV;
use crate::store::Task;
use crate::store::TaskV;
use crate::store::Tree;
use crate::store::TreeV;
use crate::store::count_open;
use crate::store::forest_wf;
use crate::store::spec_current_index;
use crate::store::strings_equal;
use crate::store::tasks_view;
use crate::store::tree_wf;
use crate::types::ForestError;
use crate::types::Uid;

verus! {

/// The frames that do not belong to the root task `tid`.
pub open spec fn frames_keep(frames: Seq<FrameV>, tid: Seq<char>) -> Seq<FrameV>
    decreases frames.len(),
{
    if frames.len() == 0 {
        frames
    } else {
        frames_keep(frames.drop_last(), tid) + (if frames.last().task_id == tid {
            Seq::empty()
        } else {
            seq![frames.last()]
        })
    }
}

/// The notes that do not belong to the root task `tid`.
pub open spec fn notes_keep(notes: Seq<NoteV>, tid: Seq<char>) -> Seq<NoteV>
    decreases notes.len(),
{
    if notes.len() == 0 {
        notes
    } else {
        notes_keep(notes.drop_last(), tid) + (if notes.last().task_id == tid {
            Seq::empty()
        } else {
            seq![notes.last()]
        })
    }
}

/// Dropping frames never opens one: the number of open frames can only
/// shrink.
pub proof fn lemma_keep_open(frames: Seq<FrameV>, tid: Seq<char>)
    ensures
        count_open(frames_keep(frames, tid)) <= count_open(frames),
    decreases frames.len(),
{
    if frames.len() > 0 {
        lemma_keep_open(frames.drop_last(), tid);
        let kept = frames_keep(frames, tid);
        let prev = frames_keep(frames.drop_last(), tid);
        if frames.last().task_id == tid {
            assert(kept =~= prev);
        } else {
            assert(kept.drop_last() =~= prev);
            assert(kept.last() == frames.last());
        }
    }
}

/// Kept notes keep their relative order.
pub proof fn lemma_notes_keep_sorted(notes: Seq<NoteV>, tid: Seq<char>)
    requires
        forall|i: int, j: int|
            #![trigger notes[i], notes[j]]
            0 <= i < j < notes.len() ==> notes[i].date >= notes[j].date,
    ensures
        ({
            let kept = notes_keep(notes, tid);
            forall|i: int, j: int|
                #![trigger kept[i], kept[j]]
                0 <= i < j < kept.len() ==> kept[i].date >= kept[j].date
        }),
        forall|i: int|
            0 <= i < notes_keep(notes, tid).len() ==> exists|j: int|
                0 <= j < notes.len() && #[trigger] notes_keep(notes, tid)[i] == notes[j],
    decreases notes.len(),
{
    if notes.len() > 0 {
        lemma_notes_keep_sorted(notes.drop_last(), tid);
        let kept = notes_keep(notes, tid);
        let prev = notes_keep(notes.drop_last(), tid);
        assert forall|i: int| 0 <= i < prev.len() implies exists|j: int|
            0 <= j < notes.len() && #[trigger] prev[i] == notes[j] by {
            let j = choose|j: int| 0 <= j < notes.drop_last().len() && prev[i] == notes.drop_last()[j];
            assert(prev[i] == notes[j]);
        }
        if notes.last().task_id == tid {
            assert(kept =~= prev);
        } else {
            assert(kept.drop_last() =~= prev);
            assert(kept.last() == notes.last());
            assert forall|i: int, j: int|
                #![trigger kept[i], kept[j]]
                0 <= i < j < kept.len() implies kept[i].date >= kept[j].date by {
                if j < kept.len() - 1 {
                    assert(kept[i] == prev[i] && kept[j] == prev[j]);
                } else {
                    assert(kept[j] == notes.last());
                    if i < kept.len() - 1 {
                        assert(kept[i] == prev[i]);
                        let w = choose|w: int|
                            0 <= w < notes.len() && #[trigger] prev[i] == notes[w];
                        if w < notes.len() - 1 {
                            assert(notes[w].date >= notes.last().date);
                        }
                    }
                }
            }
        }
    }
}

/// The first task of a tree in a forest listing: the task whose `left`
/// boundary is 2, when the tree has one.
pub struct NextTask {
    pub id: String,
    pub name: String,
}

/// One entry of the forest listing: the tree's name, whether it is the
/// current tree, and its first task, if any.
pub struct TreeListEntry {
    pub name: String,
    pub current: bool,
    pub next_task: Option<NextTask>,
}

impl Forest {
    /// Lists every tree of the forest, in store order: its name, whether it
    /// is the current tree, and its first task.
    pub fn tree_list(&self) -> (r: Vec<TreeListEntry>)
        requires
            forest_wf(self@),
        ensures
            r@.len() == self@.trees.len(),
            forall|i: int|
                0 <= i < r@.len() ==> {
                    let e = #[trigger] r@[i];
                    &&& e.name@ == self@.trees[i].name
                    &&& e.current == (spec_current_index(self@) == Some(i))
                    &&& (if self@.trees[i].tasks.len() > 1 && self@.trees[i].tasks[1].left == 2 {
                        e.next_task matches Some(nt) && nt.id@ == self@.trees[i].tasks[1].id
                            && nt.name@ == self@.trees[i].tasks[1].name
                    } else {
                        e.next_task is None
                    })
                },
    {
        let cur: Option<usize> = match self.current_tree_index() {
            Ok(i) => Some(i),
            Err(_) => None,
        };
        let n = self.trees.len();
        let mut out: Vec<TreeListEntry> = Vec::new();
        let mut i: usize = 0;
        while i < n
            invariant
                0 <= i <= n,
                n == self.trees@.len(),
                forest_wf(self@),
                (match cur {
                    Some(ci) => spec_current_index(self@) == Some(ci as int),
                    None => spec_current_index(self@) is None,
                }),
                out@.len() == i,
                forall|j: int|
                    0 <= j < i ==> {
                        let e = #[trigger] out@[j];
                        &&& e.name@ == self@.trees[j].name
                        &&& e.current == (spec_current_index(self@) == Some(j))
                        &&& (if self@.trees[j].tasks.len() > 1 && self@.trees[j].tasks[1].left
                            == 2 {
                            e.next_task matches Some(nt) && nt.id@ == self@.trees[j].tasks[1].id
                                && nt.name@ == self@.trees[j].tasks[1].name
                        } else {
                            e.next_task is None
                        })
                    },
            decreases n - i,
        {
            let tr = &self.trees[i];
            proof {
                assert(self@.trees[i as int] == self.trees@[i as int]@);
            }
            let is_current = match cur {
                Some(ci) => ci == i,
                None => false,
            };
            let next_task = if tr.tasks.len() > 1 {
                proof {
                    assert(self@.trees[i as int].tasks[1] == tr.tasks@[1]@);
                }
                if tr.tasks[1].left == 2 {
                    Some(
                        NextTask { id: tr.tasks[1].id.as_string(), name: tr.tasks[1].name.clone() },
                    )
                } else {
                    None
                }
            } else {
                None
            };
            let ghost pre = out@;
            out.push(TreeListEntry { name: tr.name.clone(), current: is_current, next_task });
            proof {
                assert forall|j: int| 0 <= j < i + 1 implies {
                    let e = #[trigger] out@[j];
                    &&& e.name@ == self@.trees[j].name
                    &&& e.current == (spec_current_index(self@) == Some(j))
                    &&& (if self@.trees[j].tasks.len() > 1 && self@.trees[j].tasks[1].left == 2 {
                        e.next_task matches Some(nt) && nt.id@ == self@.trees[j].tasks[1].id
                            && nt.name@ == self@.trees[j].tasks[1].name
                    } else {
                        e.next_task is None
                    })
                } by {
                    if j < i as int {
                        assert(out@[j] == pre[j]);
                    }
                }
            }
            i += 1;
        }
        out
    }

    /// Adds a tree with the given name and description, containing only its
    /// synthetic root task, and switches the current tree to it.
    ///
    /// Fails with `AlreadyExists`, leaving the store unchanged, when a tree
    /// of this name is already in the forest.
    pub fn add_tree(&mut self, name: String, description: String) -> (r: Result<Uid, ForestError>)
        requires
            forest_wf(old(self)@),
        ensures
            forest_wf(final(self)@),
            ({
                match r {
                    Ok(uid) => {
                        &&& forall|i: int|
                            0 <= i < old(self)@.trees.len() ==> (#[trigger] old(
                                self,
                            )@.trees[i]).name != name@
                        &&& uid.wf()
                        &&& final(self)@ == (ForestV {
                            trees: old(self)@.trees.push(
                                TreeV {
                                    name: name@,
                                    description: description@,
                                    tasks: seq![
                                        TaskV {
                                            id: uid@,
                                            left: 1,
                                            right: 2,
                                            name: Seq::empty(),
                                            description: Seq::empty(),
                                        },
                                    ],
                                },
                            ),
                            current: Some(name@),
                            ..old(self)@
                        })
                    },
                    Err(ForestError::AlreadyExists) => {
                        &&& exists|i: int|
                            0 <= i < old(self)@.trees.len() && (#[trigger] old(
                                self,
                            )@.trees[i]).name == name@
                        &&& final(self)@ == old(self)@
                    },
                    _ => false,
                }
            }),
    {
        if let Some(_) = self.find_tree(name.as_str()) {
            return Err(ForestError::AlreadyExists);
        }
        let uid = Uid::new();
        let ghost namev = name@;
        let ghost descv = description@;
        let root = Task {
            id: uid.duplicate(),
            left: 1,
            right: 2,
            name: String::new(),
            description: String::new(),
        };
        let mut tasks: Vec<Task> = Vec::new();
        tasks.push(root);
        let tr = Tree { name: name.clone(), description: description, tasks: tasks };
        self.trees.push(tr);
        self.current = Some(name);
        proof {
            let newt = TreeV {
                name: namev,
                description: descv,
                tasks: seq![
                    TaskV {
                        id: uid@,
                        left: 1,
                        right: 2,
                        name: Seq::empty(),
                        description: Seq::empty(),
                    },
                ],
            };
            assert(self@.trees[self@.trees.len() - 1].tasks =~= newt.tasks);
            assert(self@.trees[self@.trees.len() - 1] == newt);
            assert(self@.trees =~= old(self)@.trees.push(newt));
            assert(self@.frames =~= old(self)@.frames);
            assert(self@.notes =~= old(self)@.notes);
            assert(self@ == (ForestV {
                trees: old(self)@.trees.push(newt),
                current: Some(namev),
                ..old(self)@
            }));
            assert(tree_wf(newt));
            assert forall|i: int| 0 <= i < self@.trees.len() implies tree_wf(
                #[trigger] self@.trees[i],
            ) by {
                if i < self@.trees.len() - 1 {
                    assert(self@.trees[i] == old(self)@.trees[i]);
                    assert(tree_wf(old(self)@.trees[i]));
                }
            }
            assert(self@.trees[self@.trees.len() - 1].name == namev);
            assert(forest_wf(self@));
        }
        Ok(uid)
    }

    /// Removes the tree of the given name; its tasks disappear with it, and
    /// the frames and notes recorded on its root task are dropped as well.
    /// A current-tree name pointing at the removed tree is cleared.
    ///
    /// Fails with `NotFound`, leaving the store unchanged, when no tree of
    /// this name exists.
    pub fn remove_tree(&mut self, name: &String) -> (r: Result<(), ForestError>)
        requires
            forest_wf(old(self)@),
        ensures
            forest_wf(final(self)@),
            ({
                match r {
                    Ok(()) => exists|i: int|
                        {
                            &&& 0 <= i < old(self)@.trees.len()
                            &&& (#[trigger] old(self)@.trees[i]).name == name@
                            &&& final(self)@ == (ForestV {
                                trees: old(self)@.trees.remove(i),
                                frames: frames_keep(
                                    old(self)@.frames,
                                    old(self)@.trees[i].tasks[0].id,
                                ),
                                notes: notes_keep(
                                    old(self)@.notes,
                                    old(self)@.trees[i].tasks[0].id,
                                ),
                                current: if old(self)@.current == Some(name@) {
                                    None
                                } else {
                                    old(self)@.current
                                },
                            })
                        },
                    Err(ForestError::NotFound) => {
                        &&& forall|i: int|
                            0 <= i < old(self)@.trees.len() ==> (#[trigger] old(
                                self,
                            )@.trees[i]).name != name@
                        &&& final(self)@ == old(self)@
                    },
                    _ => false,
                }
            }),
    {
        let idx = match self.find_tree(name.as_str()) {
            Some(i) => i,
            None => {
                return Err(ForestError::NotFound);
            },
        };
        proof {
            assert(tree_wf(self@.trees[idx as int]));
            assert(self@.trees[idx as int].tasks[0] == self.trees@[idx as int].tasks@[0]@);
        }
        let root_id = self.trees[idx].tasks[0].id.duplicate();
        let ghost tid = root_id@;
        // drop the frames recorded on the removed tree
        let n = self.frames.len();
        let mut kept_frames: Vec<Frame> = Vec::new();
        let mut i: usize = 0;
        while i < n
            invariant
                0 <= i <= n,
                n == self.frames@.len(),
                tid == root_id@,
                kept_frames@.map_values(|f: Frame| f@) =~= frames_keep(
                    self@.frames.subrange(0, i as int),
                    tid,
                ),
            decreases n - i,
        {
            let ghost pre = self@.frames.subrange(0, i as int);
            proof {
                assert(self@.frames[i as int] == self.frames@[i as int]@);
                assert(self@.frames.subrange(0, i + 1).drop_last() =~= pre);
            }
            if !strings_equal(self.frames[i].task_id.as_str(), root_id.as_str()) {
                let f = &self.frames[i];
                kept_frames.push(
                    Frame {
                        id: f.id.duplicate(),
                        start: f.start,
                        end: f.end,
                        task_id: f.task_id.duplicate(),
                    },
                );
            }
            proof {
                assert(kept_frames@.map_values(|f: Frame| f@) =~= frames_keep(
                    self@.frames.subrange(0, i + 1),
                    tid,
                ));
            }
            i += 1;
        }
        // drop the notes recorded on the removed tree
        let m = self.notes.len();
        let mut kept_notes: Vec<Note> = Vec::new();
        let mut i: usize = 0;
        while i < m
            invariant
                0 <= i <= m,
                m == self.notes@.len(),
                tid == root_id@,
                kept_notes@.map_values(|x: Note| x@) =~= notes_keep(
                    self@.notes.subrange(0, i as int),
                    tid,
                ),
            decreases m - i,
        {
            let ghost pre = self@.notes.subrange(0, i as int);
            proof {
                assert(self@.notes[i as int] == self.notes@[i as int]@);
                assert(self@.notes.subrange(0, i + 1).drop_last() =~= pre);
            }
            if !strings_equal(self.notes[i].task_id.as_str(), root_id.as_str()) {
                let x = &self.notes[i];
                kept_notes.push(
                    Note {
                        id: x.id.duplicate(),
                        date: x.date,
                        task_id: x.task_id.duplicate(),
                        time_tracking: x.time_tracking,
                    },
                );
            }
            proof {
                assert(kept_notes@.map_values(|x: Note| x@) =~= notes_keep(
                    self@.notes.subrange(0, i + 1),
                    tid,
                ));
            }
            i += 1;
        }
        let clear_current = match &self.current {
            Some(cur) => strings_equal(cur.as_str(), name.as_str()),
            None => false,
        };
        self.trees.remove(idx);
        self.frames = kept_frames;
        self.notes = kept_notes;
        if clear_current {
            self.current = None;
        }
        proof {
            assert(old(self)@.frames.subrange(0, old(self)@.frames.len() as int) =~= old(
                self,
            )@.frames);
            assert(old(self)@.notes.subrange(0, old(self)@.notes.len() as int) =~= old(
                self,
            )@.notes);
            assert(self@.trees =~= old(self)@.trees.remove(idx as int));
            assert(self@ == (ForestV {
                trees: old(self)@.trees.remove(idx as int),
                frames: frames_keep(old(self)@.frames, old(self)@.trees[idx as int].tasks[0].id),
                notes: notes_keep(old(self)@.notes, old(self)@.trees[idx as int].tasks[0].id),
                current: if old(self)@.current == Some(name@) {
                    None
                } else {
                    old(self)@.current
                },
            }));
            lemma_keep_open(old(self)@.frames, tid);
            lemma_notes_keep_sorted(old(self)@.notes, tid);
            assert forall|j: int| 0 <= j < self@.trees.len() implies tree_wf(
                #[trigger] self@.trees[j],
            ) by {
                if j < idx as int {
                    assert(self@.trees[j] == old(self)@.trees[j]);
                    assert(tree_wf(old(self)@.trees[j]));
                } else {
                    assert(self@.trees[j] == old(self)@.trees[j + 1]);
                    assert(tree_wf(old(self)@.trees[j + 1]));
                }
            }
            assert forall|a: int, b: int|
                #![trigger self@.trees[a], self@.trees[b]]
                0 <= a < b < self@.trees.len() implies self@.trees[a].name
                != self@.trees[b].name by {
                let oa = if a < idx as int {
                    a
                } else {
                    a + 1
                };
                let ob = if b < idx as int {
                    b
                } else {
                    b + 1
                };
                assert(old(self)@.trees[oa].name != old(self)@.trees[ob].name);
            }
            if self@.current is Some {
                let cn = self@.current->Some_0;
                assert(cn != name@);
                let w = choose|w: int|
                    0 <= w < old(self)@.trees.len() && (#[trigger] old(self)@.trees[w]).name == cn;
                assert(old(self)@.trees[idx as int].name == name@);
                assert(w != idx as int);
                if w < idx as int {
                    assert(self@.trees[w].name == cn);
                } else {
                    assert(self@.trees[w - 1].name == cn);
                }
            }
            assert(forest_wf(self@));
        }
        Ok(())
    }

    /// Renames the tree of the given name, keeping its tasks; a
    /// current-tree name pointing at it follows the rename.
    ///
    /// Fails with `NotFound` when no tree of this name exists, and with
    /// `AlreadyExists` when the new name is already taken by another tree;
    /// the store is unchanged on every failure.
    pub fn rename_tree(&mut self, name: &String, new_name: String) -> (r: Result<(), ForestError>)
        requires
            forest_wf(old(self)@),
        ensures
            forest_wf(final(self)@),
            ({
                match r {
                    Ok(()) => exists|i: int|
                        {
                            &&& 0 <= i < old(self)@.trees.len()
                            &&& (#[trigger] old(self)@.trees[i]).name == name@
                            &&& final(self)@ == (ForestV {
                                trees: old(self)@.trees.update(
                                    i,
                                    TreeV { name: new_name@, ..old(self)@.trees[i] },
                                ),
                                current: if old(self)@.current == Some(name@) {
                                    Some(new_name@)
                                } else {
                                    old(self)@.current
                                },
                                ..old(self)@
                            })
                        },
                    Err(ForestError::NotFound) => {
                        &&& forall|i: int|
                            0 <= i < old(self)@.trees.len() ==> (#[trigger] old(
                                self,
                            )@.trees[i]).name != name@
                        &&& final(self)@ == old(self)@
                    },
                    Err(ForestError::AlreadyExists) => {
                        &&& new_name@ != name@
                        &&& exists|i: int|
                            0 <= i < old(self)@.trees.len() && (#[trigger] old(
                                self,
                            )@.trees[i]).name == new_name@
                        &&& final(self)@ == old(self)@
                    },
                    _ => false,
                }
            }),
    {
        let idx = match self.find_tree(name.as_str()) {
            Some(i) => i,
            None => {
                return Err(ForestError::NotFound);
            },
        };
        if !strings_equal(new_name.as_str(), name.as_str()) {
            if let Some(_) = self.find_tree(new_name.as_str()) {
                return Err(ForestError::AlreadyExists);
            }
        }
        let ghost newv = new_name@;
        let follow = match &self.current {
            Some(cur) => strings_equal(cur.as_str(), name.as_str()),
            None => false,
        };
        let mut tr = self.trees.remove(idx);
        tr.name = new_name.clone();
        self.trees.insert(idx, tr);
        if follow {
            self.current = Some(new_name);
        }
        proof {
            assert(self@.trees =~= old(self)@.trees.update(
                idx as int,
                TreeV { name: newv, ..old(self)@.trees[idx as int] },
            ));
            assert(self@.frames =~= old(self)@.frames);
            assert(self@.notes =~= old(self)@.notes);
            assert(self@ == (ForestV {
                trees: old(self)@.trees.update(
                    idx as int,
                    TreeV { name: newv, ..old(self)@.trees[idx as int] },
                ),
                current: if old(self)@.current == Some(name@) {
                    Some(newv)
                } else {
                    old(self)@.current
                },
                ..old(self)@
            }));
            assert forall|j: int| 0 <= j < self@.trees.len() implies tree_wf(
                #[trigger] self@.trees[j],
            ) by {
                if j != idx as int {
                    assert(self@.trees[j] == old(self)@.trees[j]);
                }
                assert(tree_wf(old(self)@.trees[j]));
            }
            assert forall|a: int, b: int|
                #![trigger self@.trees[a], self@.trees[b]]
                0 <= a < b < self@.trees.len() implies self@.trees[a].name
                != self@.trees[b].name by {
                assert(old(self)@.trees[a].name != old(self)@.trees[b].name);
                if newv != name@ {
                    if a == idx as int {
                        assert(old(self)@.trees[b].name != newv);
                    }
                    if b == idx as int {
                        assert(old(self)@.trees[a].name != newv);
                    }
                }
            }
            if self@.current is Some {
                let cn = self@.current->Some_0;
                if cn == newv && follow {
                    assert(self@.trees[idx as int].name == cn);
                } else {
                    let w = choose|w: int|
                        0 <= w < old(self)@.trees.len() && (#[trigger] old(self)@.trees[w]).name
                            == cn;
                    if w == idx as int {
                        assert(old(self)@.trees[w].name == name@);
                        assert(self@.trees[idx as int].name == newv);
                        if newv == name@ {
                            assert(self@.trees[w].name == cn);
                        } else {
                            assert(false);
                        }
                    } else {
                        assert(self@.trees[w].name == cn);
                    }
                }
            }
            assert(forest_wf(self@));
        }
        Ok(())
    }

    /// Replaces the description of the tree of the given name.
    ///
    /// Fails with `NotFound`, leaving the store unchanged, when no tree of
    /// this name exists.
    pub fn set_tree_description(&mut self, name: &String, description: String) -> (r: Result<
        (),
        ForestError,
    >)
        requires
            forest_wf(old(self)@),
        ensures
            forest_wf(final(self)@),
            ({
                match r {
                    Ok(()) => exists|i: int|
                        {
                            &&& 0 <= i < old(self)@.trees.len()
                            &&& (#[trigger] old(self)@.trees[i]).name == name@
                            &&& final(self)@ == (ForestV {
                                trees: old(self)@.trees.update(
                                    i,
                                    TreeV { description: description@, ..old(self)@.trees[i] },
                                ),
                                ..old(self)@
                            })
                        },
                    Err(ForestError::NotFound) => {
                        &&& forall|i: int|
                            0 <= i < old(self)@.trees.len() ==> (#[trigger] old(
                                self,
                            )@.trees[i]).name != name@
                        &&& final(self)@ == old(self)@
                    },
                    _ => false,
                }
            }),
    {
        let idx = match self.find_tree(name.as_str()) {
            Some(i) => i,
            None => {
                return Err(ForestError::NotFound);
            },
        };
        let ghost descv = description@;
        let mut tr = self.trees.remove(idx);
        tr.description = description;
        self.trees.insert(idx, tr);
        proof {
            assert(self@.trees =~= old(self)@.trees.update(
                idx as int,
                TreeV { description: descv, ..old(self)@.trees[idx as int] },
            ));
            assert(self@.frames =~= old(self)@.frames);
            assert(self@.notes =~= old(self)@.notes);
            assert(self@ == (ForestV {
                trees: old(self)@.trees.update(
                    idx as int,
                    TreeV { description: descv, ..old(self)@.trees[idx as int] },
                ),
                ..old(self)@
            }));
            assert forall|j: int| 0 <= j < self@.trees.len() implies tree_wf(
                #[trigger] self@.trees[j],
            ) && self@.trees[j].name == old(self)@.trees[j].name by {
                if j != idx as int {
                    assert(self@.trees[j] == old(self)@.trees[j]);
                }
                assert(tree_wf(old(self)@.trees[j]));
            }
            if self@.current is Some {
                let cn = self@.current->Some_0;
                let w = choose|w: int|
                    0 <= w < old(self)@.trees.len() && (#[trigger] old(self)@.trees[w]).name == cn;
                assert(self@.trees[w].name == cn);
            }
            assert(forest_wf(self@));
        }
        Ok(())
    }

    /// Returns the name and the description of the tree of the given name.
    /// Fails with `NotFound` when no tree of this name exists.
    pub fn show_tree(&self, name: &String) -> (r: Result<(String, String), ForestError>)
        requires
            forest_wf(self@),
        ensures
            ({
                match r {
                    Ok((n, d)) => exists|i: int|
                        {
                            &&& 0 <= i < self@.trees.len()
                            &&& (#[trigger] self@.trees[i]).name == name@
                            &&& n@ == self@.trees[i].name
                            &&& d@ == self@.trees[i].description
                        },
                    Err(ForestError::NotFound) => forall|i: int|
                        0 <= i < self@.trees.len() ==> (#[trigger] self@.trees[i]).name != name@,
                    _ => false,
                }
            }),
    {
        let idx = match self.find_tree(name.as_str()) {
            Some(i) => i,
            None => {
                return Err(ForestError::NotFound);
            },
        };
        Ok((self.trees[idx].name.clone(), self.trees[idx].description.clone()))
    }

    /// Makes the tree of the given name the current tree.
    ///
    /// Fails with `NotFound`, leaving the store unchanged, when no tree of
    /// this name exists.
    pub fn switch(&mut self, name: &String) -> (r: Result<(), ForestError>)
        requires
            forest_wf(old(self)@),
        ensures
            forest_wf(final(self)@),
            ({
                match r {
                    Ok(()) => {
                        &&& exists|i: int|
                            0 <= i < old(self)@.trees.len() && (#[trigger] old(
                                self,
                            )@.trees[i]).name == name@
                        &&& final(self)@ == (ForestV { current: Some(name@), ..old(self)@ })
                    },
                    Err(ForestError::NotFound) => {
                        &&& forall|i: int|
                            0 <= i < old(self)@.trees.len() ==> (#[trigger] old(
                                self,
                            )@.trees[i]).name != name@
                        &&& final(self)@ == old(self)@
                    },
                    _ => false,
                }
            }),
    {
        match self.find_tree(name.as_str()) {
            Some(i) => {
                self.current = Some(name.clone());
                proof {
                    assert(self@ == (ForestV { current: Some(name@), ..old(self)@ }));
                    assert(self@.trees[i as int].name == name@);
                }
                Ok(())
            },
            None => Err(ForestError::NotFound),
        }
    }
}

} // verus!
