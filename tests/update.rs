use nosman::transaction::Transaction;
use nosman::update::{plan_update, removal_order, sort_deepest_first, StagedEntry, Step};

fn dir(rel: &str, exists: bool) -> StagedEntry {
    StagedEntry { rel: rel.to_string(), is_dir: true, dst_exists: exists, same_content: false }
}

fn file(rel: &str, exists: bool, same: bool) -> StagedEntry {
    StagedEntry { rel: rel.to_string(), is_dir: false, dst_exists: exists, same_content: same }
}

fn strings(v: &[&str]) -> Vec<String> {
    v.iter().map(|s| s.to_string()).collect()
}

fn describe(steps: &[Step]) -> Vec<String> {
    steps
        .iter()
        .map(|s| match s {
            Step::CreateDir { rel, fresh } => format!("mkdir {rel} {fresh}"),
            Step::MoveAside { rel } => format!("aside {rel}"),
            Step::Copy { rel } => format!("copy {rel}"),
            Step::SelfReplace { rel } => format!("self {rel}"),
        })
        .collect()
}

#[test]
fn plan_orders_staged_then_leftovers_then_self() {
    let prev = strings(&["bin", "bin/nosman", "bin/old.dll", "docs", "docs/a.md", "keep.txt"]);
    let staged = vec![
        dir("bin", true),
        file("bin/nosman", true, false),
        file("bin/new.dll", false, false),
        file("keep.txt", true, true),
        dir("lib", false),
        file("lib/x.so", false, false),
    ];
    let exe = "bin/nosman".to_string();
    let steps = plan_update(&prev, &staged, Some(&exe), true);
    assert_eq!(
        describe(&steps),
        vec![
            "mkdir bin false",
            "copy bin/new.dll",
            "mkdir lib true",
            "copy lib/x.so",
            "aside bin/old.dll",
            "aside docs",
            "self bin/nosman",
        ]
    );
}

#[test]
fn plan_replaces_changed_files() {
    let prev = strings(&["a.txt"]);
    let staged = vec![file("a.txt", true, false)];
    let steps = plan_update(&prev, &staged, None, true);
    assert_eq!(describe(&steps), vec!["aside a.txt", "copy a.txt"]);
}

#[test]
fn plan_keeps_modules_unless_clean() {
    let prev = strings(&["Module", "Module/nos.a-1.0", "Module/nos.a-1.0/a.noscfg", "old"]);
    let staged: Vec<StagedEntry> = vec![];
    let kept = plan_update(&prev, &staged, None, false);
    assert_eq!(describe(&kept), vec!["aside old"]);
    let cleaned = plan_update(&prev, &staged, None, true);
    assert_eq!(describe(&cleaned), vec!["aside Module", "aside old"]);
}

#[test]
fn leftovers_come_deepest_first() {
    let prev = strings(&["a", "b", "b/c", "d/e/f", "d/e/g"]);
    let staged = vec![dir("b", true), dir("d", true), dir("d/e", true)];
    let order = removal_order(&prev, &staged, true);
    assert_eq!(order, strings(&["d/e/f", "d/e/g", "b/c", "a"]));
}

#[test]
fn sort_puts_children_first() {
    let paths = strings(&["x", "x/y", "x/y/z", "w/v"]);
    let sorted = sort_deepest_first(&paths);
    assert_eq!(sorted, strings(&["x/y/z", "x/y", "w/v", "x"]));
}

#[test]
fn self_replacement_runs_last_and_once() {
    let prev = strings(&["nosman", "a"]);
    let staged = vec![file("nosman", true, false), file("a", true, false), file("b", false, false)];
    let exe = "nosman".to_string();
    let steps = plan_update(&prev, &staged, Some(&exe), true);
    let n = steps.len();
    let selfs: Vec<usize> =
        steps.iter().enumerate().filter(|(_, s)| matches!(s, Step::SelfReplace { .. })).map(|(i, _)| i).collect();
    assert_eq!(selfs, vec![n - 1]);
    let mut tx = Transaction::new(steps);
    let mut performed = vec![];
    while let Some(step) = tx.current() {
        performed.push(describe(std::slice::from_ref(step))[0].clone());
        tx.complete_step();
    }
    assert!(tx.is_committed());
    assert_eq!(performed.last().unwrap(), "self nosman");
    assert_eq!(performed.iter().filter(|s| s.starts_with("self")).count(), 1);
}

#[test]
fn no_self_replacement_after_a_failure() {
    let staged = vec![file("a", true, false), file("nosman", true, false)];
    let exe = "nosman".to_string();
    let steps = plan_update(&strings(&["a", "nosman"]), &staged, Some(&exe), true);
    let mut tx = Transaction::new(steps);
    tx.complete_step(); // a moved aside
    let rb = tx.fail_step(); // copying a fails
    assert_eq!(rb.restore, strings(&["a"]));
    assert!(rb.remove.is_empty());
    assert!(tx.current().is_none());
    assert!(!tx.is_committed());
}

#[test]
fn failure_on_third_move_rolls_back_everything() {
    let prev = strings(&["x.txt", "sub", "sub/y.txt", "gone.txt"]);
    let staged = vec![
        dir("new", false),
        file("new/n.txt", false, false),
        file("x.txt", true, false),
        dir("sub", true),
        file("sub/y.txt", true, false),
    ];
    let steps = plan_update(&prev, &staged, None, true);
    assert_eq!(
        describe(&steps),
        vec![
            "mkdir new true",
            "copy new/n.txt",
            "aside x.txt",
            "copy x.txt",
            "mkdir sub false",
            "aside sub/y.txt",
            "copy sub/y.txt",
            "aside gone.txt",
        ]
    );
    let mut tx = Transaction::new(steps);
    for _ in 0..7 {
        tx.complete_step();
    }
    let rb = tx.fail_step(); // moving gone.txt aside fails
    assert_eq!(rb.remove, strings(&["new/n.txt", "sub/y.txt", "new", "x.txt"]));
    assert_eq!(rb.restore, strings(&["sub/y.txt", "x.txt"]));
    assert!(tx.current().is_none());
}

#[test]
fn absent_leftover_is_skipped() {
    let steps = plan_update(&strings(&["old"]), &vec![], None, true);
    let mut tx = Transaction::new(steps);
    tx.skip_step();
    assert!(tx.is_committed());
    assert!(tx.moved.is_empty());
}

#[test]
fn failed_self_replacement_keeps_the_rest() {
    let staged = vec![file("b", false, false), file("nosman", true, false)];
    let exe = "nosman".to_string();
    let steps = plan_update(&strings(&["nosman"]), &staged, Some(&exe), true);
    let mut tx = Transaction::new(steps);
    tx.complete_step(); // copy b
    assert!(matches!(tx.current(), Some(Step::SelfReplace { .. })));
    let rb = tx.fail_step();
    assert!(rb.remove.is_empty());
    assert!(rb.restore.is_empty());
}
