//! Tests of the nested-set tree store: insertion, removal, listing,
//! reordering and the short-prefix resolver.

use forest::store::{Forest, Task, Tree};
use forest::types::{ForestError, Uid};

/// A deterministic identifier: the prefix padded with 'f' to full length.
fn uid_of(prefix: &str) -> Uid {
    let mut s = String::from(prefix);
    while s.len() < 32 {
        s.push('f');
    }
    Uid::try_from(s).expect("the padded string is a valid id")
}

/// A forest holding one tree with the given name and task rows.
fn forest_with_tree(name: &str, tasks: Vec<Task>) -> Forest {
    Forest {
        trees: vec![Tree { name: String::from(name), description: String::new(), tasks }],
        frames: vec![],
        notes: vec![],
        current: Some(String::from(name)),
    }
}

fn task(id: &str, left: u64, right: u64, name: &str) -> Task {
    Task {
        id: uid_of(id),
        left,
        right,
        name: String::from(name),
        description: String::new(),
    }
}

#[test]
fn scenario_work_design_spec() {
    // create tree "work", add "design" at the root, add "spec" under it
    let mut f = Forest::new();
    f.add_tree(String::from("work"), String::new()).expect("tree is fresh");
    let design = f
        .add_task(None, String::from("design"), String::new())
        .expect("adding at the root succeeds");
    let parent = design.as_string();
    let spec = f
        .add_task(Some(&parent), String::from("spec"), String::new())
        .expect("the parent resolves");

    let lines = f.list_tasks().expect("a current tree exists");
    assert_eq!(lines.len(), 2);
    assert_eq!(lines[0], format!("└╴{} design", &design.as_string()[..7]));
    assert_eq!(lines[1], format!("  └╴{} spec", &spec.as_string()[..7]));

    // removing "design" removes the whole subtree; the tree itself stays
    let removed = f.remove_task(&parent).expect("the task resolves");
    assert_eq!(removed.1, "design");
    let lines = f.list_tasks().expect("a current tree exists");
    assert!(lines.is_empty());
    assert_eq!(f.trees.len(), 1);
    assert_eq!(f.trees[0].tasks.len(), 1);
    assert_eq!(f.trees[0].tasks[0].left, 1);
    assert_eq!(f.trees[0].tasks[0].right, 2);
}

#[test]
fn insert_shifts_intervals() {
    let mut f = Forest::new();
    f.add_tree(String::from("work"), String::new()).unwrap();
    f.add_task(None, String::from("a"), String::new()).unwrap();
    f.add_task(None, String::from("b"), String::new()).unwrap();
    f.add_task(None, String::from("c"), String::new()).unwrap();
    let tasks = &f.trees[0].tasks;
    assert_eq!(tasks.len(), 4);
    let spans: Vec<(u64, u64)> = tasks.iter().map(|t| (t.left, t.right)).collect();
    assert_eq!(spans, vec![(1, 8), (2, 3), (4, 5), (6, 7)]);
    assert_eq!(tasks[1].name, "a");
    assert_eq!(tasks[2].name, "b");
    assert_eq!(tasks[3].name, "c");
}

#[test]
fn round_trip_insert_then_remove_restores_root() {
    let mut f = Forest::new();
    f.add_tree(String::from("work"), String::new()).unwrap();
    assert_eq!(f.trees[0].tasks[0].right, 2);
    let a = f.add_task(None, String::from("a"), String::new()).unwrap();
    let a_str = a.as_string();
    let b = f
        .add_task(Some(&a_str), String::from("b"), String::new())
        .unwrap();
    assert_eq!(f.trees[0].tasks[0].right, 6);
    // remove in reverse order of insertion
    f.remove_task(&b.as_string()).unwrap();
    f.remove_task(&a_str).unwrap();
    assert_eq!(f.trees[0].tasks.len(), 1);
    assert_eq!(f.trees[0].tasks[0].right, 2);
}

#[test]
fn listing_is_idempotent() {
    let mut f = Forest::new();
    f.add_tree(String::from("work"), String::new()).unwrap();
    f.add_task(None, String::from("a"), String::new()).unwrap();
    f.add_task(None, String::from("b"), String::new()).unwrap();
    let first = f.list_tasks().unwrap();
    let second = f.list_tasks().unwrap();
    assert_eq!(first, second);
}

#[test]
fn resolver_ambiguous_and_unique() {
    let f = forest_with_tree(
        "work",
        vec![
            task("eeeeeee", 1, 6, ""),
            task("abc1", 2, 3, "first"),
            task("abc2", 4, 5, "second"),
        ],
    );
    match f.find_uid("abc") {
        Err(ForestError::Ambiguous { candidates }) => {
            assert_eq!(candidates.len(), 2);
            assert!(candidates[0].id.starts_with("abc1"));
            assert!(candidates[1].id.starts_with("abc2"));
            assert_eq!(candidates[0].name, "first");
            assert_eq!(candidates[1].name, "second");
        }
        _ => panic!("a two-way prefix must be ambiguous"),
    }
    let unique = f.find_uid("abc1").expect("a one-way prefix resolves");
    assert!(unique.as_string().starts_with("abc1"));
}

#[test]
fn resolver_not_found_and_root_excluded() {
    let f = forest_with_tree(
        "work",
        vec![task("eeeeeee", 1, 4, ""), task("abc1", 2, 3, "only")],
    );
    assert!(matches!(f.find_uid("9"), Err(ForestError::NotFound)));
    // the synthetic root never resolves, even by its own id
    assert!(matches!(f.find_uid("eeeeeee"), Err(ForestError::NotFound)));
}

#[test]
fn resolver_empty_forest() {
    let f = Forest::new();
    assert!(matches!(f.find_uid("abc"), Err(ForestError::EmptyForest)));
}

#[test]
fn priority_moves_subtree_to_front() {
    // root with children a, b, c; c has a child under it
    let f0 = forest_with_tree(
        "work",
        vec![
            task("eeeeeee", 1, 10, ""),
            task("aaa1", 2, 3, "a"),
            task("bbb1", 4, 5, "b"),
            task("ccc1", 6, 9, "c"),
            task("ddd1", 7, 8, "d"),
        ],
    );
    let mut f = f0;
    let moved = f
        .priority(&String::from("ccc1"), 1)
        .expect("priority 1 targets the first child");
    assert_eq!(moved.1, "c");
    let spans: Vec<(&str, u64, u64)> = f.trees[0]
        .tasks
        .iter()
        .map(|t| (t.name.as_str(), t.left, t.right))
        .collect();
    assert_eq!(
        spans,
        vec![("", 1, 10), ("c", 2, 5), ("d", 3, 4), ("a", 6, 7), ("b", 8, 9)]
    );
}

#[test]
fn priority_moves_task_to_back() {
    let f0 = forest_with_tree(
        "work",
        vec![
            task("eeeeeee", 1, 8, ""),
            task("aaa1", 2, 3, "a"),
            task("bbb1", 4, 5, "b"),
            task("ccc1", 6, 7, "c"),
        ],
    );
    let mut f = f0;
    f.priority(&String::from("aaa1"), 3).expect("priority 3 targets the last child");
    let names: Vec<&str> = f.trees[0].tasks.iter().map(|t| t.name.as_str()).collect();
    assert_eq!(names, vec!["", "b", "c", "a"]);
    let spans: Vec<(u64, u64)> = f.trees[0].tasks.iter().map(|t| (t.left, t.right)).collect();
    assert_eq!(spans, vec![(1, 8), (2, 3), (4, 5), (6, 7)]);
}

#[test]
fn priority_moves_task_to_middle() {
    let f0 = forest_with_tree(
        "work",
        vec![
            task("eeeeeee", 1, 10, ""),
            task("aaa1", 2, 3, "a"),
            task("bbb1", 4, 5, "b"),
            task("ccc1", 6, 7, "c"),
            task("ddd1", 8, 9, "d"),
        ],
    );
    let mut f = f0;
    f.priority(&String::from("ddd1"), 2).expect("priority 2 targets the second child");
    let names: Vec<&str> = f.trees[0].tasks.iter().map(|t| t.name.as_str()).collect();
    assert_eq!(names, vec!["", "a", "d", "b", "c"]);
    let spans: Vec<(u64, u64)> = f.trees[0].tasks.iter().map(|t| (t.left, t.right)).collect();
    assert_eq!(spans, vec![(1, 10), (2, 3), (4, 5), (6, 7), (8, 9)]);
}

#[test]
fn priority_same_position_is_a_no_op() {
    let f0 = forest_with_tree(
        "work",
        vec![
            task("eeeeeee", 1, 6, ""),
            task("aaa1", 2, 3, "a"),
            task("bbb1", 4, 5, "b"),
        ],
    );
    let mut f = f0;
    f.priority(&String::from("bbb1"), 2).expect("its own position is a valid target");
    let spans: Vec<(u64, u64)> = f.trees[0].tasks.iter().map(|t| (t.left, t.right)).collect();
    assert_eq!(spans, vec![(1, 6), (2, 3), (4, 5)]);
}

#[test]
fn priority_zero_is_malformed() {
    let mut f = forest_with_tree(
        "work",
        vec![task("eeeeeee", 1, 4, ""), task("aaa1", 2, 3, "a")],
    );
    assert!(matches!(
        f.priority(&String::from("aaa1"), 0),
        Err(ForestError::InvalidFormat)
    ));
}

#[test]
fn priority_beyond_sibling_count_is_not_found() {
    let mut f = forest_with_tree(
        "work",
        vec![task("eeeeeee", 1, 4, ""), task("aaa1", 2, 3, "a")],
    );
    assert!(matches!(
        f.priority(&String::from("aaa1"), 2),
        Err(ForestError::NotFound)
    ));
}

#[test]
fn rename_and_describe_task() {
    let mut f = forest_with_tree(
        "work",
        vec![task("eeeeeee", 1, 4, ""), task("aaa1", 2, 3, "before")],
    );
    let key = String::from("aaa1");
    let (_, old_name) = f.rename_task(&key, String::from("after")).unwrap();
    assert_eq!(old_name, "before");
    assert_eq!(f.trees[0].tasks[1].name, "after");
    f.set_task_description(&key, String::from("details")).unwrap();
    let (_, name, description) = f.show_task(&key).unwrap();
    assert_eq!(name, "after");
    assert_eq!(description, "details");
}

#[test]
fn check_wf_accepts_a_sound_store() {
    let good = forest_with_tree(
        "work",
        vec![task("eeeeeee", 1, 6, ""), task("abc1", 2, 3, "a"), task("abc2", 4, 5, "b")],
    );
    assert!(good.check_wf());
}

#[test]
fn check_wf_rejects_partial_overlap() {
    // [2,4] and [3,5] overlap without nesting
    let bad = forest_with_tree(
        "work",
        vec![task("eeeeeee", 1, 6, ""), task("abc1", 2, 4, "a"), task("abc2", 3, 5, "b")],
    );
    assert!(!bad.check_wf());
}

#[test]
fn check_wf_rejects_a_dangling_current_tree() {
    let mut f = forest_with_tree("work", vec![task("eeeeeee", 1, 2, "")]);
    f.current = Some(String::from("elsewhere"));
    assert!(!f.check_wf());
}

#[test]
fn generated_uids_are_lowercase_hex() {
    let u = Uid::new();
    let s = u.as_string();
    assert_eq!(s.len(), 32);
    assert!(s.chars().all(|c| c.is_ascii_digit() || ('a'..='f').contains(&c)));
    assert_eq!(u.short().len(), 7);
    assert_eq!(u.short(), &s[..7]);
}

#[test]
fn uid_try_from_validates() {
    assert!(Uid::try_from(String::from("0123456789abcdef0123456789abcdef")).is_ok());
    assert!(matches!(
        Uid::try_from(String::from("short")),
        Err(ForestError::InvalidFormat)
    ));
    assert!(matches!(
        Uid::try_from(String::from("0123456789ABCDEF0123456789ABCDEF")),
        Err(ForestError::InvalidFormat)
    ));
}

#[test]
fn parsers_accept_and_reject() {
    assert_eq!(forest::types::tree_name_parser("work"), Ok(String::from("work")));
    assert_eq!(forest::types::task_name_parser("a task"), Ok(String::from("a task")));
    assert_eq!(forest::types::uid_parser("abc123"), Ok(String::from("abc123")));
    assert!(forest::types::uid_parser("xyz").is_err());
    assert!(forest::types::uid_parser("ABC").is_err());
}

#[test]
fn ansi_format_wraps_in_escape_codes() {
    let s = String::from("hi");
    assert_eq!(
        forest::ansi::format(&s, forest::ansi::ForestFormat::TreeName),
        "\u{1b}[35mhi\u{1b}[0m"
    );
    assert_eq!(
        forest::ansi::format(&s, forest::ansi::ForestFormat::TaskName),
        "\u{1b}[36mhi\u{1b}[0m"
    );
}
