//! Note records: short-prefix resolution, creation, removal and listing.
//! The textual body of a note lives outside the store; these operations
//! manage the records that point at it.

use vstd::prelude::*;
use vstd::string::*;
use crate::store::Forest;
use crate::store::ForestV;
use crate::store::Note;
use crate::store::NoteV;
use crate::store::forest_wf;
use crate::store::is_prefix;
use crate::store::spec_current_index;
use crate::store::str_starts_with;
use crate::types::Candidate;
use crate::types::ForestError;
use crate::types::Uid;

verus! {

/// The indices, in ascending order, of the notes among the first `n`
/// whose id starts with the prefix `p`.
pub open spec fn note_match_upto(s: Seq<NoteV>, p: Seq<char>, n: int) -> Seq<int>
    decreases n,
{
    if n <= 0 {
        Seq::empty()
    } else {
        note_match_upto(s, p, n - 1) + (if is_prefix(p, s[n - 1].id) {
            seq![n - 1]
        } else {
            Seq::empty()
        })
    }
}

/// The indices of the notes whose id starts with `p`.
pub open spec fn note_match_indices(s: Seq<NoteV>, p: Seq<char>) -> Seq<int> {
    note_match_upto(s, p, s.len() as int)
}

/// Every index returned by `note_match_upto` is a matching note.
pub proof fn lemma_note_match_sound(s: Seq<NoteV>, p: Seq<char>, n: int)
    requires
        n <= s.len(),
    ensures
        forall|k: int|
            0 <= k < note_match_upto(s, p, n).len() ==> {
                let i = #[trigger] note_match_upto(s, p, n)[k];
                0 <= i < n && is_prefix(p, s[i].id)
            },
    decreases n,
{
    if n > 0 {
        lemma_note_match_sound(s, p, n - 1);
        let prev = note_match_upto(s, p, n - 1);
        let cur = note_match_upto(s, p, n);
        assert forall|k: int|
            0 <= k < cur.len() implies {
            let i = #[trigger] cur[k];
            0 <= i < n && is_prefix(p, s[i].id)
        } by {
            if k < prev.len() {
                assert(cur[k] == prev[k]);
            } else {
                assert(cur[k] == n - 1);
            }
        }
    }
}

/// One entry of a note listing: the full id, the creation time, whether
/// the note came from time tracking, and the tree it belongs to, when
/// that tree still exists.
pub struct NoteEntry {
    pub id: String,
    pub date: i64,
    pub time_tracking: bool,
    pub tree_name: Option<String>,
}

/// The notes that a listing shows: every note, or only the user-authored
/// ones when time-tracking notes are hidden.
pub open spec fn notes_listed(notes: Seq<NoteV>, show_time_tracking: bool) -> Seq<NoteV>
    decreases notes.len(),
{
    if notes.len() == 0 {
        notes
    } else {
        notes_listed(notes.drop_last(), show_time_tracking) + (if show_time_tracking
            || !notes.last().time_tracking {
            seq![notes.last()]
        } else {
            Seq::empty()
        })
    }
}

/// An ambiguous note lookup reports every match: the candidate list
/// carries the full id of each note the prefix matched, in store order.
pub open spec fn note_candidates_match(
    notes: Seq<NoteV>,
    prefix: Seq<char>,
    candidates: Seq<crate::types::Candidate>,
) -> bool {
    let m = note_match_indices(notes, prefix);
    &&& m.len() >= 2
    &&& candidates.len() == m.len()
    &&& forall|k: int| 0 <= k < m.len() ==> (#[trigger] candidates[k]).id@ == notes[m[k]].id
}

impl Forest {
    /// Resolves a short id prefix to the index of the unique note whose id
    /// starts with it.
    ///
    /// Fails with `NotFound` when no note matches, and with `Ambiguous`,
    /// listing every candidate id, when two or more match.
    pub fn find_note(&self, partial_uid: &str) -> (r: Result<usize, ForestError>)
        ensures
            ({
                let m = note_match_indices(self@.notes, partial_uid@);
                match r {
                    Ok(i) => m == seq![i as int] && i < self@.notes.len() && is_prefix(
                        partial_uid@,
                        self@.notes[i as int].id,
                    ),
                    Err(ForestError::NotFound) => m.len() == 0,
                    Err(ForestError::Ambiguous { candidates }) => note_candidates_match(
                        self@.notes,
                        partial_uid@,
                        candidates@,
                    ),
                    _ => false,
                }
            }),
    {
        let ghost nv = self@.notes;
        let n = self.notes.len();
        let mut found: Vec<usize> = Vec::new();
        let mut i: usize = 0;
        while i < n
            invariant
                0 <= i <= n,
                n == self.notes@.len(),
                nv == self@.notes,
                found@.map_values(|u: usize| u as int) =~= note_match_upto(nv, partial_uid@, i as int),
                forall|k: int| 0 <= k < found@.len() ==> (#[trigger] found@[k]) < n,
            decreases n - i,
        {
            proof {
                assert(nv[i as int] == self.notes@[i as int]@);
            }
            if str_starts_with(self.notes[i].id.as_str(), partial_uid) {
                found.push(i);
            }
            proof {
                assert(found@.map_values(|u: usize| u as int) =~= note_match_upto(
                    nv,
                    partial_uid@,
                    i + 1,
                ));
            }
            i += 1;
        }
        proof {
            lemma_note_match_sound(nv, partial_uid@, nv.len() as int);
        }
        if found.len() == 0 {
            Err(ForestError::NotFound)
        } else if found.len() == 1 {
            let idx = found[0];
            proof {
                assert(found@.map_values(|u: usize| u as int)[0] == idx as int);
                assert(note_match_upto(nv, partial_uid@, nv.len() as int)[0] == idx as int);
                assert(note_match_indices(nv, partial_uid@) =~= seq![idx as int]);
            }
            Ok(idx)
        } else {
            let mut candidates: Vec<Candidate> = Vec::new();
            let mut k: usize = 0;
            let fl = found.len();
            while k < fl
                invariant
                    0 <= k <= fl,
                    fl == found@.len(),
                    n == self.notes@.len(),
                    nv == self@.notes,
                    forall|j: int| 0 <= j < found@.len() ==> (#[trigger] found@[j]) < n,
                    candidates@.len() == k,
                    forall|j: int|
                        0 <= j < k ==> (#[trigger] candidates@[j]).id@ == nv[found@[j] as int].id,
                decreases fl - k,
            {
                proof {
                    assert(nv[found@[k as int] as int] == self.notes@[found@[k as int] as int]@);
                }
                let x = &self.notes[found[k]];
                candidates.push(Candidate { id: x.id.as_string(), name: String::new() });
                k += 1;
            }
            Err(ForestError::Ambiguous { candidates })
        }
    }

    /// Creates a note record on the named tree, or on the current tree
    /// when no name is given, stamped with the current time; the record
    /// keeps its place in the date-ordered list.  Returns the new id, the
    /// tree recorded on and the timestamp.
    ///
    /// Fails with `InvariantViolation` when the short prefix of the fresh
    /// id is already taken, with `EmptyForest` when no name is given and
    /// no tree exists, and with `NotFound` when the named tree does not
    /// exist; the store is unchanged on every failure.
    #[verifier::rlimit(100)]
    pub fn add_note(&mut self, tree_name: Option<String>, time_tracking: bool) -> (r: Result<
        (Uid, String, i64),
        ForestError,
    >)
        requires
            forest_wf(old(self)@),
        ensures
            forest_wf(final(self)@),
            ({
                match r {
                    Ok((uid, tree, date)) => {
                        &&& uid.wf()
                        // the fresh id's short prefix was checked to match nothing
                        &&& note_match_indices(
                            old(self)@.notes,
                            uid@.subrange(0, crate::types::SHORT_UID_LENGTH as int),
                        ).len() == 0
                        &&& (match tree_name {
                            Some(ref n) => tree@ == n@,
                            None => spec_current_index(old(self)@) matches Some(c) && tree@
                                == old(self)@.trees[c].name,
                        })
                        &&& exists|i: int|
                            0 <= i < old(self)@.trees.len() && (#[trigger] old(
                                self,
                            )@.trees[i]).name == tree@
                        &&& exists|k: int|
                            {
                                &&& 0 <= k <= old(self)@.notes.len()
                                &&& (forall|j: int|
                                    0 <= j < k ==> (#[trigger] old(self)@.notes[j]).date
                                        > date as int)
                                &&& (k < old(self)@.notes.len() ==> old(self)@.notes[k].date
                                    <= date as int)
                                &&& final(self)@ == (ForestV {
                                    notes: #[trigger] old(self)@.notes.insert(
                                        k,
                                        NoteV {
                                            id: uid@,
                                            date: date as int,
                                            task_id: old(self)@.trees[crate::store::spec_tree_index(
                                                old(self)@,
                                                tree@,
                                            )].tasks[0].id,
                                            time_tracking: time_tracking,
                                        },
                                    ),
                                    ..old(self)@
                                })
                            }
                    },
                    // only a short-prefix collision of the fresh id is fatal
                    Err(ForestError::InvariantViolation) => {
                        &&& exists|u: Seq<char>|
                            crate::types::valid_uid_seq(u) && #[trigger] note_match_indices(
                                old(self)@.notes,
                                u.subrange(0, crate::types::SHORT_UID_LENGTH as int),
                            ).len() >= 1
                        &&& final(self)@ == old(self)@
                    },
                    Err(ForestError::EmptyForest) => tree_name is None && spec_current_index(
                        old(self)@,
                    ) is None && final(self)@ == old(self)@,
                    Err(ForestError::NotFound) => {
                        &&& tree_name matches Some(n)
                        &&& forall|i: int|
                            0 <= i < old(self)@.trees.len() ==> (#[trigger] old(
                                self,
                            )@.trees[i]).name != n@
                        &&& final(self)@ == old(self)@
                    },
                    _ => false,
                }
            }),
    {
        let uid = Uid::new();
        match self.find_note(uid.short()) {
            Err(ForestError::NotFound) => {
                proof {
                    assert(note_match_indices(
                        self@.notes,
                        uid@.subrange(0, crate::types::SHORT_UID_LENGTH as int),
                    ).len() == 0);
                }
            },
            Ok(_) => {
                proof {
                    assert(crate::types::valid_uid_seq(uid@) && note_match_indices(
                        self@.notes,
                        uid@.subrange(0, crate::types::SHORT_UID_LENGTH as int),
                    ).len() >= 1);
                }
                return Err(ForestError::InvariantViolation);
            },
            Err(ForestError::Ambiguous { .. }) => {
                proof {
                    assert(crate::types::valid_uid_seq(uid@) && note_match_indices(
                        self@.notes,
                        uid@.subrange(0, crate::types::SHORT_UID_LENGTH as int),
                    ).len() >= 1);
                }
                return Err(ForestError::InvariantViolation);
            },
            Err(_) => {
                proof {
                    assert(false);
                }
                return Err(ForestError::InvariantViolation);
            },
        }
        let ti = match &tree_name {
            Some(n) => {
                match self.find_tree(n.as_str()) {
                    Some(i) => i,
                    None => {
                        return Err(ForestError::NotFound);
                    },
                }
            },
            None => {
                match self.current_tree_index() {
                    Ok(i) => i,
                    Err(e) => {
                        return Err(e);
                    },
                }
            },
        };
        proof {
            assert(crate::store::tree_wf(self@.trees[ti as int]));
            assert(self@.trees[ti as int].tasks[0] == self.trees@[ti as int].tasks@[0]@);
        }
        let tree = self.trees[ti].name.clone();
        let root_id = self.trees[ti].tasks[0].id.duplicate();
        let date = crate::timetracking::now_millis();
        // the slot that keeps the notes ordered by descending date
        let ghost nv = self@.notes;
        let n = self.notes.len();
        let mut k: usize = 0;
        while k < n && self.notes[k].date > date
            invariant
                0 <= k <= n,
                n == self.notes@.len(),
                nv == self@.notes,
                forall|j: int| 0 <= j < k ==> (#[trigger] nv[j]).date > date as int,
            decreases n - k,
        {
            proof {
                assert(nv[k as int] == self.notes@[k as int]@);
            }
            k += 1;
        }
        proof {
            if k < n {
                assert(nv[k as int] == self.notes@[k as int]@);
                assert(nv[k as int].date <= date as int);
            }
        }
        self.notes.insert(
            k,
            Note { id: uid.duplicate(), date, task_id: root_id, time_tracking },
        );
        proof {
            let newn = NoteV {
                id: uid@,
                date: date as int,
                task_id: old(self)@.trees[ti as int].tasks[0].id,
                time_tracking: time_tracking,
            };
            assert(self@.notes =~= nv.insert(k as int, newn));
            assert(self@ == (ForestV { notes: nv.insert(k as int, newn), ..old(self)@ }));
            assert forall|a: int, b: int|
                #![trigger self@.notes[a], self@.notes[b]]
                0 <= a < b < self@.notes.len() implies self@.notes[a].date
                >= self@.notes[b].date by {
                let ki = k as int;
                let oa = if a < ki {
                    a
                } else {
                    a - 1
                };
                let ob = if b < ki {
                    b
                } else {
                    b - 1
                };
                if a == ki {
                    assert(nv[ki].date <= date as int);
                    if ob > ki {
                        assert(nv[ki].date >= nv[ob].date);
                    }
                } else if b == ki {
                    assert(nv[oa].date > date as int);
                } else {
                    assert(nv[oa].date >= nv[ob].date);
                }
            }
            if self@.current is Some {
                let cn = self@.current->Some_0;
                let w = choose|w: int|
                    0 <= w < old(self)@.trees.len() && (#[trigger] old(self)@.trees[w]).name == cn;
                assert(self@.trees[w].name == cn);
            }
            assert(forest_wf(self@));
            assert(old(self)@.trees[ti as int].name == tree@);
            let ti2 = crate::store::spec_tree_index(old(self)@, tree@);
            assert(old(self)@.trees[ti as int].name == tree@);
            assert(0 <= ti2 < old(self)@.trees.len() && old(self)@.trees[ti2].name == tree@);
            assert(ti2 == ti as int);
            let k2 = k as int;
            assert(0 <= k2 <= old(self)@.notes.len() && (forall|j: int|
                0 <= j < k2 ==> (#[trigger] old(self)@.notes[j]).date > date as int) && (k2 < old(
                self,
            )@.notes.len() ==> old(self)@.notes[k2].date <= date as int) && self@ == (ForestV {
                notes: old(self)@.notes.insert(
                    k2,
                    NoteV {
                        id: uid@,
                        date: date as int,
                        task_id: old(self)@.trees[ti2].tasks[0].id,
                        time_tracking: time_tracking,
                    },
                ),
                ..old(self)@
            }));
        }
        Ok((uid, tree, date))
    }

    /// Removes the note record the prefix resolves to and returns its id.
    /// Fails as the note resolver does; the store is unchanged on every
    /// failure.
    pub fn remove_note(&mut self, partial_uid: &String) -> (r: Result<Uid, ForestError>)
        requires
            forest_wf(old(self)@),
        ensures
            forest_wf(final(self)@),
            ({
                match r {
                    Ok(uid) => exists|i: int|
                        {
                            &&& #[trigger] note_match_indices(old(self)@.notes, partial_uid@)
                                == seq![i]
                            &&& 0 <= i < old(self)@.notes.len()
                            &&& uid@ == old(self)@.notes[i].id
                            &&& final(self)@ == (ForestV {
                                notes: old(self)@.notes.remove(i),
                                ..old(self)@
                            })
                        },
                    Err(ForestError::NotFound) => note_match_indices(
                        old(self)@.notes,
                        partial_uid@,
                    ).len() == 0 && final(self)@ == old(self)@,
                    Err(ForestError::Ambiguous { candidates }) => note_candidates_match(
                        old(self)@.notes,
                        partial_uid@,
                        candidates@,
                    ) && final(self)@ == old(self)@,
                    _ => false,
                }
            }),
    {
        let idx = match self.find_note(partial_uid.as_str()) {
            Ok(i) => i,
            Err(e) => {
                return Err(e);
            },
        };
        proof {
            assert(self@.notes[idx as int] == self.notes@[idx as int]@);
        }
        let uid = self.notes[idx].id.duplicate();
        self.notes.remove(idx);
        proof {
            assert(self@.notes =~= old(self)@.notes.remove(idx as int));
            assert(self@ == (ForestV { notes: old(self)@.notes.remove(idx as int), ..old(self)@ }));
            assert forall|a: int, b: int|
                #![trigger self@.notes[a], self@.notes[b]]
                0 <= a < b < self@.notes.len() implies self@.notes[a].date
                >= self@.notes[b].date by {
                let oa = if a < idx as int {
                    a
                } else {
                    a + 1
                };
                let ob = if b < idx as int {
                    b
                } else {
                    b + 1
                };
                assert(old(self)@.notes[oa].date >= old(self)@.notes[ob].date);
            }
            if self@.current is Some {
                let cn = self@.current->Some_0;
                let w = choose|w: int|
                    0 <= w < old(self)@.trees.len() && (#[trigger] old(self)@.trees[w]).name == cn;
                assert(self@.trees[w].name == cn);
            }
            assert(forest_wf(self@));
        }
        Ok(uid)
    }

    /// Returns the id, the date and the tree of the note the prefix
    /// resolves to, without changing anything.  Fails as the note resolver
    /// does.
    pub fn show_note(&self, partial_uid: &String) -> (r: Result<NoteEntry, ForestError>)
        requires
            forest_wf(self@),
        ensures
            ({
                match r {
                    Ok(e) => exists|i: int|
                        {
                            &&& #[trigger] note_match_indices(self@.notes, partial_uid@) == seq![i]
                            &&& 0 <= i < self@.notes.len()
                            &&& e.id@ == self@.notes[i].id
                            &&& e.date as int == self@.notes[i].date
                            &&& e.time_tracking == self@.notes[i].time_tracking
                            &&& (match e.tree_name {
                                Some(nm) => exists|w: int|
                                    0 <= w < self@.trees.len() && (#[trigger] self@.trees[w]).tasks[0].id
                                        == self@.notes[i].task_id && self@.trees[w].name == nm@,
                                None => forall|w: int|
                                    0 <= w < self@.trees.len() ==> (#[trigger] self@.trees[w]).tasks[0].id
                                        != self@.notes[i].task_id,
                            })
                        },
                    Err(ForestError::NotFound) => note_match_indices(
                        self@.notes,
                        partial_uid@,
                    ).len() == 0,
                    Err(ForestError::Ambiguous { candidates }) => note_candidates_match(
                        self@.notes,
                        partial_uid@,
                        candidates@,
                    ),
                    _ => false,
                }
            }),
    {
        let idx = match self.find_note(partial_uid.as_str()) {
            Ok(i) => i,
            Err(e) => {
                return Err(e);
            },
        };
        proof {
            assert(self@.notes[idx as int] == self.notes@[idx as int]@);
        }
        let x = &self.notes[idx];
        let tree_name = match self.find_tree_by_root(&x.task_id) {
            Some(w) => Some(self.trees[w].name.clone()),
            None => None,
        };
        Ok(
            NoteEntry {
                id: x.id.as_string(),
                date: x.date,
                time_tracking: x.time_tracking,
                tree_name,
            },
        )
    }

    /// Lists the note records, newest first: every note, or only the
    /// user-authored ones when time-tracking notes are hidden.  Fails with
    /// `NotFound` when the store holds no note at all.
    pub fn list_notes(&self, show_time_tracking: bool) -> (r: Result<Vec<NoteEntry>, ForestError>)
        requires
            forest_wf(self@),
        ensures
            ({
                match r {
                    Ok(entries) => {
                        let kept = notes_listed(self@.notes, show_time_tracking);
                        &&& self@.notes.len() > 0
                        &&& entries@.len() == kept.len()
                        &&& forall|k: int|
                            0 <= k < kept.len() ==> {
                                let e = #[trigger] entries@[k];
                                &&& e.id@ == kept[k].id
                                &&& e.date as int == kept[k].date
                                &&& e.time_tracking == kept[k].time_tracking
                            }
                    },
                    Err(ForestError::NotFound) => self@.notes.len() == 0,
                    _ => false,
                }
            }),
    {
        if self.notes.len() == 0 {
            return Err(ForestError::NotFound);
        }
        let ghost nv = self@.notes;
        let n = self.notes.len();
        let mut entries: Vec<NoteEntry> = Vec::new();
        let mut i: usize = 0;
        while i < n
            invariant
                0 <= i <= n,
                n == self.notes@.len(),
                nv == self@.notes,
                forest_wf(self@),
                entries@.len() == notes_listed(nv.subrange(0, i as int), show_time_tracking).len(),
                forall|k: int|
                    0 <= k < entries@.len() ==> {
                        let e = #[trigger] entries@[k];
                        let v = notes_listed(nv.subrange(0, i as int), show_time_tracking)[k];
                        &&& e.id@ == v.id
                        &&& e.date as int == v.date
                        &&& e.time_tracking == v.time_tracking
                    },
            decreases n - i,
        {
            let ghost kept_pre = notes_listed(nv.subrange(0, i as int), show_time_tracking);
            proof {
                assert(nv[i as int] == self.notes@[i as int]@);
                assert(nv.subrange(0, i + 1).drop_last() =~= nv.subrange(0, i as int));
                assert(nv.subrange(0, i + 1).last() == nv[i as int]);
            }
            let x = &self.notes[i];
            if show_time_tracking || !x.time_tracking {
                let tree_name = match self.find_tree_by_root(&x.task_id) {
                    Some(w) => Some(self.trees[w].name.clone()),
                    None => None,
                };
                let ghost pre = entries@;
                entries.push(
                    NoteEntry {
                        id: x.id.as_string(),
                        date: x.date,
                        time_tracking: x.time_tracking,
                        tree_name,
                    },
                );
                proof {
                    let kept = notes_listed(nv.subrange(0, i + 1), show_time_tracking);
                    assert(kept =~= kept_pre + seq![nv[i as int]]);
                    assert forall|k: int| 0 <= k < entries@.len() implies {
                        let e = #[trigger] entries@[k];
                        let v = kept[k];
                        &&& e.id@ == v.id
                        &&& e.date as int == v.date
                        &&& e.time_tracking == v.time_tracking
                    } by {
                        if k < pre.len() {
                            assert(entries@[k] == pre[k]);
                            assert(kept[k] == kept_pre[k]);
                        } else {
                            assert(kept[k] == nv[i as int]);
                        }
                    }
                }
            } else {
                proof {
                    assert(notes_listed(nv.subrange(0, i + 1), show_time_tracking) =~= kept_pre);
                }
            }
            i += 1;
        }
        proof {
            assert(nv.subrange(0, n as int) =~= nv);
        }
        Ok(entries)
    }
}

} // verus!
