//! Time tracking: opening and closing recording frames, the status view,
//! and the per-tree overlap report over a query window.

use vstd::prelude::*;
use vstd::string::*;
use crate::store::Forest;
use crate::store::ForestV;
use crate::store::Frame;
use crate::store::FrameV;
use crate::store::count_open;
use crate::store::forest_wf;
use crate::store::frame_open;
use crate::store::spec_current_index;
use crate::store::strings_equal;
use crate::types::ForestError;
use crate::types::Uid;

verus! {

/// Relies on `chrono::Local::now`: the current local time in epoch
/// milliseconds.
#[verifier::external_body]
pub(crate) fn now_millis() -> i64 {
    chrono::Local::now().timestamp_millis()
}

/// Relies on `chrono::NaiveDateTime::parse_from_str` with the format
/// `"%Y-%m-%d %H:%M"` and on `chrono::TimeZone::from_local_datetime`: the
/// parsed local date and time in epoch milliseconds, or nothing when the
/// string does not match the format or names no unambiguous local time.
#[verifier::external_body]
fn parse_full_datetime_millis(s: &str) -> Option<i64> {
    match chrono::NaiveDateTime::parse_from_str(s, "%Y-%m-%d %H:%M") {
        Ok(ndt) => ndt.and_local_timezone(chrono::Local).single().map(|dt| dt.timestamp_millis()),
        Err(_) => None,
    }
}

/// Relies on `chrono::NaiveTime::parse_from_str` with the format `"%H:%M"`
/// and on `chrono::Utc::now`: the parsed time on the current day in epoch
/// milliseconds, or nothing when the string does not match the format or
/// names no unambiguous local time.
#[verifier::external_body]
fn parse_time_today_millis(s: &str) -> Option<i64> {
    match chrono::NaiveTime::parse_from_str(s, "%H:%M") {
        Ok(t) => chrono::Utc::now().date_naive().and_time(t).and_local_timezone(
            chrono::Local,
        ).single().map(|dt| dt.timestamp_millis()),
        Err(_) => None,
    }
}

/// Picks the first parse that succeeded: the full date-and-time form wins,
/// then the bare time-of-day form; when both failed the input was
/// malformed.
pub fn combine_parsed(full: Option<i64>, time_only: Option<i64>) -> (r: Result<i64, ForestError>)
    ensures
        full matches Some(v) ==> r == Ok::<i64, ForestError>(v),
        full is None ==> (time_only matches Some(v) ==> r == Ok::<i64, ForestError>(v)),
        full is None && time_only is None ==> (r matches Err(e) && e is InvalidFormat),
{
    match full {
        Some(v) => Ok(v),
        None => match time_only {
            Some(v) => Ok(v),
            None => Err(ForestError::InvalidFormat),
        },
    }
}

/// Resolves a user date/time argument to epoch milliseconds: the fallback
/// when no argument was given, otherwise whatever the permissive parser
/// makes of it, or `InvalidFormat` when neither format matches.
pub fn resolve_at(at: &Option<String>, fallback: i64) -> (r: Result<i64, ForestError>)
    ensures
        at is None ==> r == Ok::<i64, ForestError>(fallback),
        r matches Err(e) ==> e is InvalidFormat && at is Some,
{
    match at {
        None => Ok(fallback),
        Some(s) => {
            let full = parse_full_datetime_millis(s.as_str());
            let time_only = parse_time_today_millis(s.as_str());
            combine_parsed(full, time_only)
        },
    }
}

/// The frames after closing every open frame at time `at`.
pub open spec fn close_all(frames: Seq<FrameV>, at: int) -> Seq<FrameV> {
    frames.map_values(
        |f: FrameV|
            if frame_open(f) {
                FrameV { end: Some(at), ..f }
            } else {
                f
            },
    )
}

/// After closing every open frame none stays open.
pub proof fn lemma_close_all_closed(frames: Seq<FrameV>, at: int)
    ensures
        count_open(close_all(frames, at)) == 0,
    decreases frames.len(),
{
    if frames.len() > 0 {
        lemma_close_all_closed(frames.drop_last(), at);
        assert(close_all(frames, at).drop_last() =~= close_all(frames.drop_last(), at));
    }
}

/// A sequence without open frames counts none, and vice versa.
pub proof fn lemma_count_open_zero(frames: Seq<FrameV>)
    ensures
        (count_open(frames) == 0) <==> (forall|j: int|
            0 <= j < frames.len() ==> !frame_open(#[trigger] frames[j])),
        count_open(frames) >= 0,
    decreases frames.len(),
{
    if frames.len() > 0 {
        lemma_count_open_zero(frames.drop_last());
        if count_open(frames) == 0 {
            assert forall|j: int| 0 <= j < frames.len() implies !frame_open(
                #[trigger] frames[j],
            ) by {
                if j < frames.len() - 1 {
                    assert(frames.drop_last()[j] == frames[j]);
                }
            }
        } else {
            if forall|j: int| 0 <= j < frames.len() ==> !frame_open(#[trigger] frames[j]) {
                assert forall|j: int|
                    0 <= j < frames.drop_last().len() implies !frame_open(
                    #[trigger] frames.drop_last()[j],
                ) by {
                    assert(frames.drop_last()[j] == frames[j]);
                }
                assert(!frame_open(frames.last()));
                assert(false);
            }
        }
    }
}

/// One frame closed by a stop or an implicit stop: the name of the tree it
/// was recorded on, when that tree still exists, and its start time.
pub struct ClosedFrame {
    pub tree_name: Option<String>,
    pub start: i64,
}

/// What a closed-frame report says: the entry names an open frame's start
/// time, and its tree name is the name of the tree whose root task the
/// frame was recorded on — or absent exactly when no tree's root carries
/// the frame's task id.
pub open spec fn closed_frame_reported(
    cf: ClosedFrame,
    frames: Seq<FrameV>,
    trees: Seq<crate::store::TreeV>,
) -> bool {
    exists|j: int|
        {
            &&& 0 <= j < frames.len()
            &&& frame_open(#[trigger] frames[j])
            &&& cf.start as int == frames[j].start
            &&& (match cf.tree_name {
                Some(nm) => exists|w: int|
                    0 <= w < trees.len() && (#[trigger] trees[w]).tasks[0].id
                        == frames[j].task_id && trees[w].name == nm@,
                None => forall|w: int|
                    0 <= w < trees.len() ==> (#[trigger] trees[w]).tasks[0].id
                        != frames[j].task_id,
            })
        }
}

/// What a successful start reports: the tree recorded on, the start time,
/// and the frames the start implicitly closed.
pub struct StartOutcome {
    pub tree: String,
    pub at_ms: i64,
    pub closed: Vec<ClosedFrame>,
}

/// What the status view reports: the current tree and the open recording,
/// if one exists.
pub struct StatusInfo {
    pub current_tree: String,
    pub recording: Option<ClosedFrame>,
}

/// The time recorded on one tree within the query window.
pub struct TreeReport {
    pub name: String,
    pub total_ms: i128,
}

/// A whole report: the resolved window, the per-tree totals and the grand
/// total.
pub struct ReportData {
    pub from_ms: i64,
    pub to_ms: i64,
    pub now_ms: i64,
    pub entries: Vec<TreeReport>,
    pub total_ms: i128,
}

/// The overlap between one frame and the window `[from, to]`, clamped to
/// be non-negative; a still-open frame is treated as ending `now`.  Only
/// frames that intersect the window at all contribute.
pub open spec fn frame_overlap(f: FrameV, from: int, to: int, now: int) -> int {
    let end = match f.end {
        Some(e) => e,
        None => now,
    };
    let intersects = f.start <= to && (match f.end {
        Some(e) => e >= from,
        None => true,
    });
    if intersects {
        let hi = if end < to {
            end
        } else {
            to
        };
        let lo = if f.start > from {
            f.start
        } else {
            from
        };
        if hi - lo > 0 {
            hi - lo
        } else {
            0
        }
    } else {
        0
    }
}

/// The total overlap between the frames recorded on the root task `tid`
/// and the window `[from, to]`.
pub open spec fn tree_total(frames: Seq<FrameV>, tid: Seq<char>, from: int, to: int, now: int) -> int
    decreases frames.len(),
{
    if frames.len() == 0 {
        0
    } else {
        tree_total(frames.drop_last(), tid, from, to, now) + (if frames.last().task_id == tid {
            frame_overlap(frames.last(), from, to, now)
        } else {
            0
        })
    }
}

/// The grand total over a report's entries.
pub open spec fn sum_totals(entries: Seq<TreeReport>) -> int
    decreases entries.len(),
{
    if entries.len() == 0 {
        0
    } else {
        sum_totals(entries.drop_last()) + entries.last().total_ms as int
    }
}

/// Every overlap is non-negative and smaller than the full span of 64-bit
/// millisecond timestamps, so a total stays within that span times the
/// number of frames.
pub proof fn lemma_tree_total_bound(
    frames: Seq<FrameV>,
    tid: Seq<char>,
    from: int,
    to: int,
    now: int,
)
    requires
        i64::MIN <= from <= i64::MAX,
        i64::MIN <= to <= i64::MAX,
        i64::MIN <= now <= i64::MAX,
        forall|j: int|
            0 <= j < frames.len() ==> {
                let f = #[trigger] frames[j];
                i64::MIN <= f.start <= i64::MAX && (f.end matches Some(e) ==> i64::MIN <= e
                    <= i64::MAX)
            },
    ensures
        0 <= tree_total(frames, tid, from, to, now) <= frames.len()
            * 0x1_0000_0000_0000_0000,
    decreases frames.len(),
{
    if frames.len() > 0 {
        assert forall|j: int| 0 <= j < frames.drop_last().len() implies {
            let f = #[trigger] frames.drop_last()[j];
            i64::MIN <= f.start <= i64::MAX && (f.end matches Some(e) ==> i64::MIN <= e
                <= i64::MAX)
        } by {
            assert(frames.drop_last()[j] == frames[j]);
        }
        lemma_tree_total_bound(frames.drop_last(), tid, from, to, now);
        assert(frames.last() == frames[frames.len() - 1]);
        assert(0 <= frame_overlap(frames.last(), from, to, now) < 0x1_0000_0000_0000_0000);
    }
}

/// Splits a non-negative total of milliseconds into whole hours and the
/// remaining minutes.
pub fn hours_minutes(total: i128) -> (r: (u128, u128))
    requires
        total >= 0,
    ensures
        r.0 as int == total as int / 3600000,
        r.1 as int == (total as int / 60000) % 60,
{
    let u = total as u128;
    let h = u / 3600000;
    let m = (u / 60000) % 60;
    (h, m)
}

impl Forest {
    /// The index of the tree whose root task carries the given id, if any.
    pub fn find_tree_by_root(&self, tid: &Uid) -> (r: Option<usize>)
        requires
            forest_wf(self@),
        ensures
            r matches Some(i) ==> i < self@.trees.len() && self@.trees[i as int].tasks[0].id
                == tid@,
            r is None ==> forall|i: int|
                0 <= i < self@.trees.len() ==> (#[trigger] self@.trees[i]).tasks[0].id != tid@,
    {
        let n = self.trees.len();
        let mut i: usize = 0;
        while i < n
            invariant
                0 <= i <= n,
                n == self@.trees.len(),
                forest_wf(self@),
                forall|k: int|
                    0 <= k < i ==> (#[trigger] self@.trees[k]).tasks[0].id != tid@,
            decreases n - i,
        {
            proof {
                assert(crate::store::tree_wf(self@.trees[i as int]));
                assert(self@.trees[i as int].tasks[0] == self.trees@[i as int].tasks@[0]@);
            }
            if strings_equal(self.trees[i].tasks[0].id.as_str(), tid.as_str()) {
                return Some(i);
            }
            i += 1;
        }
        None
    }

    /// Closes every open frame at time `at` and reports, for each, the
    /// tree it was recorded on and its start time.
    fn close_open_frames(&mut self, at: i64) -> (r: Vec<ClosedFrame>)
        requires
            forest_wf(old(self)@),
        ensures
            forest_wf(final(self)@),
            final(self)@ == (ForestV {
                frames: close_all(old(self)@.frames, at as int),
                ..old(self)@
            }),
            r@.len() == count_open(old(self)@.frames),
            forall|k: int|
                0 <= k < r@.len() ==> closed_frame_reported(
                    #[trigger] r@[k],
                    old(self)@.frames,
                    old(self)@.trees,
                ),
    {
        let ghost fv = self@.frames;
        let n = self.frames.len();
        let mut newf: Vec<Frame> = Vec::new();
        let mut closed: Vec<ClosedFrame> = Vec::new();
        let mut i: usize = 0;
        while i < n
            invariant
                0 <= i <= n,
                n == self.frames@.len(),
                fv == self@.frames,
                forest_wf(self@),
                newf@.len() == i,
                forall|k: int|
                    0 <= k < i ==> #[trigger] crate::store::frames_view(newf@)[k] == (if frame_open(
                        fv[k],
                    ) {
                        FrameV { end: Some(at as int), ..fv[k] }
                    } else {
                        fv[k]
                    }),
                closed@.len() == count_open(fv.subrange(0, i as int)),
                forall|k: int|
                    0 <= k < closed@.len() ==> closed_frame_reported(
                        #[trigger] closed@[k],
                        fv,
                        self@.trees,
                    ),
            decreases n - i,
        {
            proof {
                assert(fv[i as int] == self.frames@[i as int]@);
                assert(fv.subrange(0, i + 1).drop_last() =~= fv.subrange(0, i as int));
            }
            let f = &self.frames[i];
            let ghost pre_newf = newf@;
            let ghost pre_closed = closed@;
            match f.end {
                Some(e) => {
                    newf.push(
                        Frame {
                            id: f.id.duplicate(),
                            start: f.start,
                            end: Some(e),
                            task_id: f.task_id.duplicate(),
                        },
                    );
                },
                None => {
                    let tree_name = match self.find_tree_by_root(&f.task_id) {
                        Some(w) => Some(self.trees[w].name.clone()),
                        None => None,
                    };
                    closed.push(ClosedFrame { tree_name, start: f.start });
                    newf.push(
                        Frame {
                            id: f.id.duplicate(),
                            start: f.start,
                            end: Some(at),
                            task_id: f.task_id.duplicate(),
                        },
                    );
                },
            }
            proof {
                assert forall|k: int| 0 <= k < newf@.len() implies #[trigger] crate::store::frames_view(
                    newf@,
                )[k] == (if frame_open(fv[k]) {
                    FrameV { end: Some(at as int), ..fv[k] }
                } else {
                    fv[k]
                }) by {
                    assert(crate::store::frames_view(newf@)[k] == newf@[k]@);
                    if k < i as int {
                        assert(newf@[k] == pre_newf[k]);
                        assert(crate::store::frames_view(pre_newf)[k] == pre_newf[k]@);
                    }
                }
                assert forall|k: int| 0 <= k < closed@.len() implies closed_frame_reported(
                    #[trigger] closed@[k],
                    fv,
                    self@.trees,
                ) by {
                    if k < pre_closed.len() {
                        assert(closed@[k] == pre_closed[k]);
                    } else {
                        assert(closed@[k].start as int == fv[i as int].start);
                        assert(frame_open(fv[i as int]));
                    }
                }
            }
            i += 1;
        }
        proof {
            assert(fv.subrange(0, n as int) =~= fv);
        }
        self.frames = newf;
        proof {
            assert(self@.frames =~= close_all(fv, at as int));
            assert(self@ == (ForestV { frames: close_all(fv, at as int), ..old(self)@ }));
            lemma_close_all_closed(fv, at as int);
            if self@.current is Some {
                let cn = self@.current->Some_0;
                let w = choose|w: int|
                    0 <= w < old(self)@.trees.len() && (#[trigger] old(self)@.trees[w]).name == cn;
                assert(self@.trees[w].name == cn);
            }
            assert(forest_wf(self@));
        }
        closed
    }

    /// Starts recording time on the named tree, or on the current tree
    /// when no name is given.  Any open frame is closed first at the same
    /// time, so exactly one frame is open afterwards; the current tree
    /// switches to the started tree.
    ///
    /// Fails with `InvalidFormat` when the date/time string is malformed,
    /// with `EmptyForest` when no name is given and no tree exists, and
    /// with `NotFound` when the named tree does not exist; the store is
    /// unchanged on every failure.
    pub fn start(&mut self, tree_name: Option<String>, at: Option<String>) -> (r: Result<
        StartOutcome,
        ForestError,
    >)
        requires
            forest_wf(old(self)@),
        ensures
            forest_wf(final(self)@),
            ({
                match r {
                    Ok(o) => {
                        &&& count_open(final(self)@.frames) == 1
                        &&& (at is None ==> true)
                        &&& (match tree_name {
                            Some(ref n) => o.tree@ == n@,
                            None => spec_current_index(old(self)@) matches Some(c) && o.tree@
                                == old(self)@.trees[c].name,
                        })
                        &&& final(self)@.frames.len() == old(self)@.frames.len() + 1
                        &&& final(self)@.frames.drop_last() == close_all(
                            old(self)@.frames,
                            o.at_ms as int,
                        )
                        &&& final(self)@.frames.last().start == o.at_ms as int
                        &&& final(self)@.frames.last().end is None
                        &&& crate::types::valid_uid_seq(final(self)@.frames.last().id)
                        &&& exists|ti: int|
                            0 <= ti < old(self)@.trees.len() && (#[trigger] old(
                                self,
                            )@.trees[ti]).name == o.tree@ && final(self)@.frames.last().task_id
                                == old(self)@.trees[ti].tasks[0].id
                        &&& final(self)@.trees == old(self)@.trees
                        &&& final(self)@.notes == old(self)@.notes
                        &&& final(self)@.current == Some(o.tree@)
                        &&& o.closed@.len() == count_open(old(self)@.frames)
                        &&& forall|k: int|
                            0 <= k < o.closed@.len() ==> closed_frame_reported(
                                #[trigger] o.closed@[k],
                                old(self)@.frames,
                                old(self)@.trees,
                            )
                    },
                    Err(ForestError::InvalidFormat) => at is Some && final(self)@ == old(self)@,
                    Err(ForestError::EmptyForest) => tree_name is None && spec_current_index(
                        old(self)@,
                    ) is None && final(self)@ == old(self)@,
                    Err(ForestError::NotFound) => {
                        &&& tree_name matches Some(n)
                        &&& forall|i: int|
                            0 <= i < old(self)@.trees.len() ==> (#[trigger] old(
                                self,
                            )@.trees[i]).name != n@
                        &&& final(self)@ == old(self)@
                    },
                    _ => false,
                }
            }),
    {
        let at_ms = match resolve_at(&at, now_millis()) {
            Ok(v) => v,
            Err(e) => {
                return Err(e);
            },
        };
        let ti = match &tree_name {
            Some(n) => {
                match self.find_tree(n.as_str()) {
                    Some(i) => i,
                    None => {
                        return Err(ForestError::NotFound);
                    },
                }
            },
            None => {
                match self.current_tree_index() {
                    Ok(i) => i,
                    Err(e) => {
                        return Err(e);
                    },
                }
            },
        };
        proof {
            assert(crate::store::tree_wf(self@.trees[ti as int]));
            assert(self@.trees[ti as int].tasks[0] == self.trees@[ti as int].tasks@[0]@);
        }
        let started_tree = self.trees[ti].name.clone();
        let root_id = self.trees[ti].tasks[0].id.duplicate();
        let closed = self.close_open_frames(at_ms);
        let uid = Uid::new();
        let ghost mid = self@;
        self.frames.push(Frame { id: uid, start: at_ms, end: None, task_id: root_id });
        self.current = Some(started_tree.clone());
        proof {
            let newfv = FrameV {
                id: uid@,
                start: at_ms as int,
                end: None,
                task_id: old(self)@.trees[ti as int].tasks[0].id,
            };
            assert(self@.frames =~= mid.frames.push(newfv));
            assert(self@ == (ForestV {
                frames: close_all(old(self)@.frames, at_ms as int).push(newfv),
                current: Some(old(self)@.trees[ti as int].name),
                ..old(self)@
            }));
            assert(self@.frames.drop_last() =~= mid.frames);
            lemma_close_all_closed(old(self)@.frames, at_ms as int);
            assert(count_open(self@.frames) == 1);
            assert(self@.trees[ti as int].name == old(self)@.trees[ti as int].name);
            assert(forest_wf(self@));
            assert(self@.frames.drop_last() == close_all(old(self)@.frames, at_ms as int));
            assert(self@.frames.last() == newfv);
            assert(self@.trees =~= old(self)@.trees);
            assert(self@.notes =~= old(self)@.notes);
            assert(old(self)@.trees[ti as int].name == started_tree@);
        }
        Ok(StartOutcome { tree: started_tree, at_ms, closed })
    }

    /// Closes the open recording at the given time, or now.
    ///
    /// Fails with `InvalidFormat` when the date/time string is malformed
    /// and with `NothingToStop` when no frame is open; the store is
    /// unchanged on every failure.
    pub fn stop(&mut self, at: Option<String>) -> (r: Result<Vec<ClosedFrame>, ForestError>)
        requires
            forest_wf(old(self)@),
        ensures
            forest_wf(final(self)@),
            ({
                match r {
                    Ok(closed) => {
                        &&& count_open(old(self)@.frames) >= 1
                        &&& closed@.len() == count_open(old(self)@.frames)
                        &&& forall|k: int|
                            0 <= k < closed@.len() ==> closed_frame_reported(
                                #[trigger] closed@[k],
                                old(self)@.frames,
                                old(self)@.trees,
                            )
                        &&& count_open(final(self)@.frames) == 0
                        &&& exists|atv: int|
                            final(self)@ == (ForestV {
                                frames: #[trigger] close_all(old(self)@.frames, atv),
                                ..old(self)@
                            })
                    },
                    Err(ForestError::InvalidFormat) => at is Some && final(self)@ == old(self)@,
                    Err(ForestError::NothingToStop) => count_open(old(self)@.frames) == 0
                        && final(self)@ == old(self)@,
                    _ => false,
                }
            }),
    {
        let at_ms = match resolve_at(&at, now_millis()) {
            Ok(v) => v,
            Err(e) => {
                return Err(e);
            },
        };
        // count the open frames first: stopping without one is an error
        let n = self.frames.len();
        let ghost fv = self@.frames;
        let mut any_open = false;
        let mut i: usize = 0;
        while i < n
            invariant
                0 <= i <= n,
                n == self.frames@.len(),
                fv == self@.frames,
                any_open == !(forall|j: int| 0 <= j < i ==> !frame_open(#[trigger] fv[j])),
            decreases n - i,
        {
            proof {
                assert(fv[i as int] == self.frames@[i as int]@);
            }
            if self.frames[i].end.is_none() {
                any_open = true;
            }
            i += 1;
        }
        proof {
            lemma_count_open_zero(fv);
        }
        if !any_open {
            return Err(ForestError::NothingToStop);
        }
        let closed = self.close_open_frames(at_ms);
        proof {
            lemma_close_all_closed(old(self)@.frames, at_ms as int);
        }
        Ok(closed)
    }

    /// Reports the current tree and the open recording, if one exists.
    /// Fails with `EmptyForest` when no tree exists.
    pub fn status(&self) -> (r: Result<StatusInfo, ForestError>)
        requires
            forest_wf(self@),
        ensures
            ({
                match r {
                    Ok(st) => {
                        &&& spec_current_index(self@) matches Some(c) && st.current_tree@
                            == self@.trees[c].name
                        &&& (match st.recording {
                            Some(cf) => closed_frame_reported(cf, self@.frames, self@.trees),
                            None => count_open(self@.frames) == 0,
                        })
                    },
                    Err(e) => e is EmptyForest && spec_current_index(self@) is None,
                }
            }),
    {
        let current_tree = match self.current_tree_name() {
            Ok(s) => s,
            Err(e) => {
                return Err(e);
            },
        };
        let n = self.frames.len();
        let ghost fv = self@.frames;
        let mut recording: Option<ClosedFrame> = None;
        let mut i: usize = 0;
        while i < n
            invariant
                0 <= i <= n,
                n == self.frames@.len(),
                fv == self@.frames,
                forest_wf(self@),
                recording is None,
                spec_current_index(self@) matches Some(c) && current_tree@ == self@.trees[c].name,
                forall|j: int| 0 <= j < i ==> !frame_open(#[trigger] fv[j]),
            decreases n - i,
        {
            proof {
                assert(fv[i as int] == self.frames@[i as int]@);
            }
            if self.frames[i].end.is_none() {
                let f = &self.frames[i];
                let tree_name = match self.find_tree_by_root(&f.task_id) {
                    Some(w) => Some(self.trees[w].name.clone()),
                    None => None,
                };
                let cf = ClosedFrame { tree_name, start: f.start };
                proof {
                    assert(frame_open(self@.frames[i as int]));
                    assert(self@.frames[i as int].task_id == f.task_id@);
                    assert(closed_frame_reported(cf, self@.frames, self@.trees));
                }
                return Ok(StatusInfo { current_tree, recording: Some(cf) });
            }
            i += 1;
        }
        proof {
            lemma_count_open_zero(fv);
        }
        Ok(StatusInfo { current_tree, recording: None })
    }

    /// Computes, for every tree, the total overlap between its frames and
    /// the window `[from, to]`, a still-open frame ending `now`.
    pub fn report_totals(&self, from: i64, to: i64, now: i64) -> (r: Vec<TreeReport>)
        requires
            forest_wf(self@),
            self@.trees.len() < 0x8000_0000,
            self@.frames.len() < 0x8000_0000,
        ensures
            r@.len() == self@.trees.len(),
            forall|i: int|
                0 <= i < r@.len() ==> {
                    let e = #[trigger] r@[i];
                    &&& e.name@ == self@.trees[i].name
                    &&& e.total_ms as int == tree_total(
                        self@.frames,
                        self@.trees[i].tasks[0].id,
                        from as int,
                        to as int,
                        now as int,
                    )
                    &&& 0 <= e.total_ms
                },
    {
        let ghost fv = self@.frames;
        proof {
            assert forall|j: int| 0 <= j < fv.len() implies {
                let f = #[trigger] fv[j];
                i64::MIN <= f.start <= i64::MAX && (f.end matches Some(e) ==> i64::MIN <= e
                    <= i64::MAX)
            } by {
                assert(fv[j] == self.frames@[j]@);
            }
        }
        let nt = self.trees.len();
        let nf = self.frames.len();
        let mut out: Vec<TreeReport> = Vec::new();
        let mut i: usize = 0;
        while i < nt
            invariant
                0 <= i <= nt,
                nt == self@.trees.len(),
                nf == self.frames@.len(),
                fv == self@.frames,
                forest_wf(self@),
                nf < 0x8000_0000,
                forall|j: int|
                    0 <= j < fv.len() ==> {
                        let f = #[trigger] fv[j];
                        i64::MIN <= f.start <= i64::MAX && (f.end matches Some(e) ==> i64::MIN
                            <= e <= i64::MAX)
                    },
                out@.len() == i,
                forall|k: int|
                    0 <= k < i ==> {
                        let e = #[trigger] out@[k];
                        &&& e.name@ == self@.trees[k].name
                        &&& e.total_ms as int == tree_total(
                            fv,
                            self@.trees[k].tasks[0].id,
                            from as int,
                            to as int,
                            now as int,
                        )
                        &&& 0 <= e.total_ms
                    },
            decreases nt - i,
        {
            proof {
                assert(crate::store::tree_wf(self@.trees[i as int]));
                assert(self@.trees[i as int].tasks[0] == self.trees@[i as int].tasks@[0]@);
            }
            let root_id = &self.trees[i].tasks[0].id;
            let ghost tid = root_id@;
            let mut total: i128 = 0;
            let mut j: usize = 0;
            while j < nf
                invariant
                    0 <= j <= nf,
                    nf == self.frames@.len(),
                    fv == self@.frames,
                    nf < 0x8000_0000,
                    tid == root_id@,
                    forall|q: int|
                        0 <= q < fv.len() ==> {
                            let f = #[trigger] fv[q];
                            i64::MIN <= f.start <= i64::MAX && (f.end matches Some(e) ==> i64::MIN
                                <= e <= i64::MAX)
                        },
                    total as int == tree_total(
                        fv.subrange(0, j as int),
                        tid,
                        from as int,
                        to as int,
                        now as int,
                    ),
                    0 <= total <= (j as int) * 0x1_0000_0000_0000_0000,
                decreases nf - j,
            {
                proof {
                    assert(fv[j as int] == self.frames@[j as int]@);
                    assert(fv.subrange(0, j + 1).drop_last() =~= fv.subrange(0, j as int));
                    assert(fv.subrange(0, j + 1).last() == fv[j as int]);
                }
                let f = &self.frames[j];
                if strings_equal(f.task_id.as_str(), root_id.as_str()) {
                    let end: i64 = match f.end {
                        Some(e) => e,
                        None => now,
                    };
                    let intersects = f.start <= to && (match f.end {
                        Some(e) => e >= from,
                        None => true,
                    });
                    if intersects {
                        let hi: i64 = if end < to {
                            end
                        } else {
                            to
                        };
                        let lo: i64 = if f.start > from {
                            f.start
                        } else {
                            from
                        };
                        let ov: i128 = (hi as i128) - (lo as i128);
                        if ov > 0 {
                            proof {
                                assert(ov < 0x1_0000_0000_0000_0000);
                            }
                            total = total + ov;
                        }
                    }
                    proof {
                        assert(frame_overlap(fv[j as int], from as int, to as int, now as int)
                            == tree_total(
                            fv.subrange(0, j + 1),
                            tid,
                            from as int,
                            to as int,
                            now as int,
                        ) - tree_total(fv.subrange(0, j as int), tid, from as int, to as int, now as int));
                    }
                }
                j += 1;
            }
            proof {
                assert(fv.subrange(0, nf as int) =~= fv);
            }
            let ghost pre = out@;
            out.push(TreeReport { name: self.trees[i].name.clone(), total_ms: total });
            proof {
                assert forall|k: int| 0 <= k < out@.len() implies {
                    let e = #[trigger] out@[k];
                    &&& e.name@ == self@.trees[k].name
                    &&& e.total_ms as int == tree_total(
                        fv,
                        self@.trees[k].tasks[0].id,
                        from as int,
                        to as int,
                        now as int,
                    )
                    &&& 0 <= e.total_ms
                } by {
                    if k < i as int {
                        assert(out@[k] == pre[k]);
                    }
                }
            }
            i += 1;
        }
        out
    }

    /// Runs a report over the window the user described: `from` defaults
    /// to the beginning of time, `to` to now; a still-open frame ends now.
    /// Returns the resolved window, the per-tree totals and the grand
    /// total.  Fails with `InvalidFormat` when a date/time string is
    /// malformed.
    pub fn report(&self, from: Option<String>, to: Option<String>) -> (r: Result<
        ReportData,
        ForestError,
    >)
        requires
            forest_wf(self@),
            self@.trees.len() < 0x8000_0000,
            self@.frames.len() < 0x8000_0000,
        ensures
            ({
                match r {
                    Ok(d) => {
                        &&& (from is None ==> d.from_ms == i64::MIN)
                        &&& (to is None ==> d.to_ms == d.now_ms)
                        &&& d.entries@.len() == self@.trees.len()
                        &&& forall|i: int|
                            0 <= i < d.entries@.len() ==> {
                                let e = #[trigger] d.entries@[i];
                                &&& e.name@ == self@.trees[i].name
                                &&& e.total_ms as int == tree_total(
                                    self@.frames,
                                    self@.trees[i].tasks[0].id,
                                    d.from_ms as int,
                                    d.to_ms as int,
                                    d.now_ms as int,
                                )
                            }
                        &&& d.total_ms as int == sum_totals(d.entries@)
                    },
                    Err(e) => e is InvalidFormat && (from is Some || to is Some),
                }
            }),
    {
        let now = now_millis();
        let from_ms = match resolve_at(&from, i64::MIN) {
            Ok(v) => v,
            Err(e) => {
                return Err(e);
            },
        };
        let to_ms = match resolve_at(&to, now) {
            Ok(v) => v,
            Err(e) => {
                return Err(e);
            },
        };
        let entries = self.report_totals(from_ms, to_ms, now);
        // the grand total over every tree
        let ghost ev = entries@;
        let n = entries.len();
        let mut total: i128 = 0;
        let mut i: usize = 0;
        proof {
            assert forall|k: int| 0 <= k < ev.len() implies 0 <= (#[trigger] ev[k]).total_ms
                <= (self@.frames.len() as int) * 0x1_0000_0000_0000_0000 by {
                lemma_tree_total_bound(
                    self@.frames,
                    self@.trees[k].tasks[0].id,
                    from_ms as int,
                    to_ms as int,
                    now as int,
                );
                assert forall|j: int| 0 <= j < self@.frames.len() implies {
                    let f = #[trigger] self@.frames[j];
                    i64::MIN <= f.start <= i64::MAX && (f.end matches Some(e) ==> i64::MIN <= e
                        <= i64::MAX)
                } by {
                    assert(self@.frames[j] == self.frames@[j]@);
                }
            }
        }
        while i < n
            invariant
                0 <= i <= n,
                n == ev.len(),
                ev == entries@,
                n < 0x8000_0000,
                forall|k: int|
                    0 <= k < ev.len() ==> 0 <= (#[trigger] ev[k]).total_ms
                        <= 0x8000_0000_0000_0000_0000_0000,
                total as int == sum_totals(ev.subrange(0, i as int)),
                0 <= total <= (i as int) * 0x8000_0000_0000_0000_0000_0000,
            decreases n - i,
        {
            proof {
                assert(ev.subrange(0, i + 1).drop_last() =~= ev.subrange(0, i as int));
                assert(ev.subrange(0, i + 1).last() == ev[i as int]);
            }
            total = total + entries[i].total_ms;
            i += 1;
        }
        proof {
            assert(ev.subrange(0, n as int) =~= ev);
        }
        Ok(ReportData { from_ms, to_ms, now_ms: now, entries, total_ms: total })
    }
}

} // verus!
