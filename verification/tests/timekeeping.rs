//! Tests of tree management, time-frame recording and the overlap report.

use forest::store::{Forest, Frame, Task, Tree};
use forest::types::{ForestError, Uid};

fn uid_of(prefix: &str) -> Uid {
    let mut s = String::from(prefix);
    while s.len() < 32 {
        s.push('f');
    }
    Uid::try_from(s).expect("the padded string is a valid id")
}

fn root_task(id: &str) -> Task {
    Task {
        id: uid_of(id),
        left: 1,
        right: 2,
        name: String::new(),
        description: String::new(),
    }
}

fn tree_named(name: &str, root_id: &str) -> Tree {
    Tree {
        name: String::from(name),
        description: String::new(),
        tasks: vec![root_task(root_id)],
    }
}

fn frame(id: &str, start: i64, end: Option<i64>, task_id: &str) -> Frame {
    Frame { id: uid_of(id), start, end, task_id: uid_of(task_id) }
}

#[test]
fn aggregator_overlap_window() {
    // frames [0,100] and [50,150] on tree T, window [60,120]
    let f = Forest {
        trees: vec![tree_named("t", "aaa1")],
        frames: vec![
            frame("f1", 0, Some(100), "aaa1"),
            frame("f2", 50, Some(150), "aaa1"),
        ],
        notes: vec![],
        current: Some(String::from("t")),
    };
    // frame1: min(100,120) - max(0,60) = 40; frame2: min(150,120) - max(50,60) = 60
    let totals = f.report_totals(60, 120, 1000);
    assert_eq!(totals.len(), 1);
    assert_eq!(totals[0].name, "t");
    assert_eq!(totals[0].total_ms, 100);
}

#[test]
fn aggregator_open_frame_ends_now() {
    let f = Forest {
        trees: vec![tree_named("t", "aaa1")],
        frames: vec![frame("f1", 10, None, "aaa1")],
        notes: vec![],
        current: None,
    };
    let totals = f.report_totals(0, 1000, 200);
    assert_eq!(totals[0].total_ms, 190);
}

#[test]
fn aggregator_skips_disjoint_frames() {
    let f = Forest {
        trees: vec![tree_named("t", "aaa1"), tree_named("u", "bbb1")],
        frames: vec![
            frame("f1", 0, Some(10), "aaa1"),
            frame("f2", 500, Some(600), "aaa1"),
            frame("f3", 60, Some(80), "bbb1"),
        ],
        notes: vec![],
        current: None,
    };
    let totals = f.report_totals(50, 120, 1000);
    assert_eq!(totals.len(), 2);
    assert_eq!(totals[0].total_ms, 0);
    assert_eq!(totals[1].total_ms, 20);
}

#[test]
fn aggregator_counts_boundary_touch_as_zero() {
    // a frame ending exactly at the window start intersects with overlap 0
    let f = Forest {
        trees: vec![tree_named("t", "aaa1")],
        frames: vec![frame("f1", 0, Some(50), "aaa1"), frame("f2", 120, Some(130), "aaa1")],
        notes: vec![],
        current: None,
    };
    let totals = f.report_totals(50, 120, 1000);
    assert_eq!(totals[0].total_ms, 0);
}

#[test]
fn check_wf_rejects_two_open_frames() {
    let bad = Forest {
        trees: vec![tree_named("t", "aaa1")],
        frames: vec![frame("f1", 0, None, "aaa1"), frame("f2", 5, None, "aaa1")],
        notes: vec![],
        current: None,
    };
    assert!(!bad.check_wf());
    let good = Forest {
        trees: vec![tree_named("t", "aaa1")],
        frames: vec![frame("f1", 0, Some(3), "aaa1"), frame("f2", 5, None, "aaa1")],
        notes: vec![],
        current: None,
    };
    assert!(good.check_wf());
}

#[test]
fn single_open_frame_after_start() {
    let mut f = Forest {
        trees: vec![tree_named("t", "aaa1"), tree_named("u", "bbb1")],
        frames: vec![],
        notes: vec![],
        current: Some(String::from("t")),
    };
    let first = f
        .start(Some(String::from("t")), Some(String::from("2020-01-02 10:00")))
        .expect("the tree exists and the date parses");
    assert!(first.closed.is_empty());
    assert_eq!(f.frames.iter().filter(|fr| fr.end.is_none()).count(), 1);

    // starting again closes the previous frame at the new start time
    let second = f
        .start(Some(String::from("u")), Some(String::from("2020-01-02 11:00")))
        .expect("the tree exists and the date parses");
    assert_eq!(second.closed.len(), 1);
    assert_eq!(second.closed[0].tree_name.as_deref(), Some("t"));
    assert_eq!(second.closed[0].start, first.at_ms);
    assert_eq!(f.frames.len(), 2);
    assert_eq!(f.frames.iter().filter(|fr| fr.end.is_none()).count(), 1);
    assert_eq!(f.frames[0].end, Some(second.at_ms));
    // the current tree followed the start
    assert_eq!(f.current.as_deref(), Some("u"));
}

#[test]
fn stop_closes_and_reports() {
    let mut f = Forest {
        trees: vec![tree_named("t", "aaa1")],
        frames: vec![frame("f1", 42, None, "aaa1")],
        notes: vec![],
        current: Some(String::from("t")),
    };
    let closed = f.stop(None).expect("one frame is open");
    assert_eq!(closed.len(), 1);
    assert_eq!(closed[0].start, 42);
    assert_eq!(closed[0].tree_name.as_deref(), Some("t"));
    assert!(f.frames.iter().all(|fr| fr.end.is_some()));
    // stopping again has nothing to stop
    assert!(matches!(f.stop(None), Err(ForestError::NothingToStop)));
}

#[test]
fn stop_rejects_malformed_time() {
    let mut f = Forest {
        trees: vec![tree_named("t", "aaa1")],
        frames: vec![frame("f1", 42, None, "aaa1")],
        notes: vec![],
        current: None,
    };
    assert!(matches!(
        f.stop(Some(String::from("not a time"))),
        Err(ForestError::InvalidFormat)
    ));
    assert!(f.frames[0].end.is_none());
}

#[test]
fn status_reports_recording() {
    let f = Forest {
        trees: vec![tree_named("t", "aaa1")],
        frames: vec![frame("f1", 42, None, "aaa1")],
        notes: vec![],
        current: Some(String::from("t")),
    };
    let st = f.status().expect("a tree exists");
    assert_eq!(st.current_tree, "t");
    let rec = st.recording.expect("a frame is open");
    assert_eq!(rec.start, 42);
    assert_eq!(rec.tree_name.as_deref(), Some("t"));

    let idle = Forest {
        trees: vec![tree_named("t", "aaa1")],
        frames: vec![frame("f1", 42, Some(50), "aaa1")],
        notes: vec![],
        current: Some(String::from("t")),
    };
    assert!(idle.status().unwrap().recording.is_none());
}

#[test]
fn report_defaults_cover_everything() {
    let f = Forest {
        trees: vec![tree_named("t", "aaa1")],
        frames: vec![frame("f1", 0, Some(3_600_000), "aaa1")],
        notes: vec![],
        current: None,
    };
    let d = f.report(None, None).expect("no date strings to parse");
    assert_eq!(d.from_ms, i64::MIN);
    assert_eq!(d.entries.len(), 1);
    assert_eq!(d.entries[0].total_ms, 3_600_000);
    assert_eq!(d.total_ms, 3_600_000);
    let (h, m) = forest::timetracking::hours_minutes(d.total_ms);
    assert_eq!(h, 1);
    assert_eq!(m, 0);
}

#[test]
fn tree_lifecycle_add_switch_rename_remove() {
    let mut f = Forest::new();
    assert!(matches!(f.current_tree_name(), Err(ForestError::EmptyForest)));
    f.add_tree(String::from("one"), String::from("first")).unwrap();
    f.add_tree(String::from("two"), String::new()).unwrap();
    assert_eq!(f.current_tree_name().unwrap(), "two");
    assert!(matches!(
        f.add_tree(String::from("one"), String::new()),
        Err(ForestError::AlreadyExists)
    ));
    f.switch(&String::from("one")).unwrap();
    assert_eq!(f.current_tree_name().unwrap(), "one");
    assert!(matches!(
        f.switch(&String::from("three")),
        Err(ForestError::NotFound)
    ));
    f.rename_tree(&String::from("one"), String::from("uno")).unwrap();
    assert_eq!(f.current_tree_name().unwrap(), "uno");
    let (name, description) = f.show_tree(&String::from("uno")).unwrap();
    assert_eq!(name, "uno");
    assert_eq!(description, "first");
    f.remove_tree(&String::from("uno")).unwrap();
    assert_eq!(f.trees.len(), 1);
    // the cleared current-tree name falls back to the first tree
    assert_eq!(f.current_tree_name().unwrap(), "two");
}

#[test]
fn remove_tree_cascades_to_frames_and_notes() {
    let mut f = Forest {
        trees: vec![tree_named("t", "aaa1"), tree_named("u", "bbb1")],
        frames: vec![
            frame("f1", 0, Some(10), "aaa1"),
            frame("f2", 5, Some(20), "bbb1"),
        ],
        notes: vec![forest::store::Note {
            id: uid_of("cccc"),
            date: 7,
            task_id: uid_of("aaa1"),
            time_tracking: false,
        }],
        current: Some(String::from("t")),
    };
    f.remove_tree(&String::from("t")).unwrap();
    assert_eq!(f.trees.len(), 1);
    assert_eq!(f.frames.len(), 1);
    assert_eq!(f.frames[0].start, 5);
    assert!(f.notes.is_empty());
    assert_eq!(f.current, None);
}

#[test]
fn tree_list_marks_current_and_next_task() {
    let mut with_task = tree_named("t", "aaa1");
    with_task.tasks[0].right = 4;
    with_task.tasks.push(Task {
        id: uid_of("abc1"),
        left: 2,
        right: 3,
        name: String::from("next"),
        description: String::new(),
    });
    let f = Forest {
        trees: vec![with_task, tree_named("u", "bbb1")],
        frames: vec![],
        notes: vec![],
        current: Some(String::from("u")),
    };
    let entries = f.tree_list();
    assert_eq!(entries.len(), 2);
    assert_eq!(entries[0].name, "t");
    assert!(!entries[0].current);
    let next = entries[0].next_task.as_ref().expect("t has a first task");
    assert_eq!(next.name, "next");
    assert!(next.id.starts_with("abc1"));
    assert_eq!(entries[1].name, "u");
    assert!(entries[1].current);
    assert!(entries[1].next_task.is_none());
}

#[test]
fn notes_are_listed_newest_first() {
    let mut f = Forest {
        trees: vec![tree_named("t", "aaa1")],
        frames: vec![],
        notes: vec![],
        current: Some(String::from("t")),
    };
    assert!(matches!(f.list_notes(true), Err(ForestError::NotFound)));
    let (first, tree, _) = f.add_note(None, false).unwrap();
    assert_eq!(tree, "t");
    let (second, _, _) = f.add_note(None, true).unwrap();
    let all = f.list_notes(true).unwrap();
    assert_eq!(all.len(), 2);
    // the newer note comes first; with equal dates the newest stays in front
    assert_eq!(all[0].id, second.as_string());
    assert_eq!(all[1].id, first.as_string());
    // time-tracking notes are hidden by default
    let user_only = f.list_notes(false).unwrap();
    assert_eq!(user_only.len(), 1);
    assert_eq!(user_only[0].id, first.as_string());
}

#[test]
fn note_resolution_and_removal() {
    let mut f = Forest {
        trees: vec![tree_named("t", "aaa1")],
        frames: vec![],
        notes: vec![
            forest::store::Note {
                id: uid_of("abc1"),
                date: 10,
                task_id: uid_of("aaa1"),
                time_tracking: false,
            },
            forest::store::Note {
                id: uid_of("abc2"),
                date: 5,
                task_id: uid_of("aaa1"),
                time_tracking: false,
            },
        ],
        current: Some(String::from("t")),
    };
    assert!(matches!(
        f.find_note("abc"),
        Err(ForestError::Ambiguous { .. })
    ));
    let shown = f.show_note(&String::from("abc2")).unwrap();
    assert_eq!(shown.date, 5);
    assert_eq!(shown.tree_name.as_deref(), Some("t"));
    let removed = f.remove_note(&String::from("abc1")).unwrap();
    assert!(removed.as_string().starts_with("abc1"));
    assert_eq!(f.notes.len(), 1);
    assert!(matches!(
        f.find_note("abc1"),
        Err(ForestError::NotFound)
    ));
}

#[test]
fn resolve_at_parses_and_rejects() {
    assert_eq!(forest::timetracking::resolve_at(&None, 77).unwrap(), 77);
    let full = forest::timetracking::resolve_at(&Some(String::from("2020-06-01 12:30")), 0);
    assert!(full.is_ok());
    let bare = forest::timetracking::resolve_at(&Some(String::from("12:30")), 0);
    assert!(bare.is_ok());
    assert!(matches!(
        forest::timetracking::resolve_at(&Some(String::from("yesterday")), 0),
        Err(ForestError::InvalidFormat)
    ));
}
