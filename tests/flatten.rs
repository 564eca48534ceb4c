use flatten_dir::{flatten, Event, Flattener, Outcome, Request};
use std::collections::BTreeMap;

/// An in-memory tree: each path below the root maps to whether it is a file.
type Tree = BTreeMap<Vec<String>, bool>;

fn path(parts: &[&str]) -> Vec<String> {
    parts.iter().map(|s| s.to_string()).collect()
}

fn tree(files: &[&[&str]], dirs: &[&[&str]]) -> Tree {
    let mut t = Tree::new();
    t.insert(Vec::new(), false);
    for d in dirs {
        t.insert(path(d), false);
    }
    for f in files {
        t.insert(path(f), true);
    }
    t
}

fn children(t: &Tree, dir: &Vec<String>) -> Vec<String> {
    t.keys()
        .filter(|k| k.len() == dir.len() + 1 && k[..dir.len()] == dir[..])
        .map(|k| k[dir.len()].clone())
        .collect()
}

/// Answers one request the way a filesystem does.
fn answer(t: &mut Tree, req: &Request) -> Event {
    match req {
        Request::Inspect { node } => Event::Inspected {
            root_is_file: t.get(&Vec::new()) == Some(&true),
            node_is_file: t.get(node) == Some(&true),
        },
        Request::List { dir } => {
            if t.get(dir) == Some(&false) {
                Event::Listed { names: children(t, dir) }
            } else {
                Event::Failed
            }
        }
        Request::Move { file } => {
            let to = vec![file.last().unwrap().clone()];
            if t.get(file) == Some(&true) && t.get(&to) != Some(&false) {
                t.remove(file);
                t.insert(to, true);
                Event::Done
            } else {
                Event::Failed
            }
        }
        Request::Remove { dir } => {
            if t.get(dir) == Some(&false) && children(t, dir).is_empty() {
                t.remove(dir);
                Event::Done
            } else {
                Event::Failed
            }
        }
        Request::Finish { .. } => panic!("no request after the end"),
    }
}

/// Runs the machine to its end on `t`, failing the move numbered
/// `failing_move` (from 0); returns the outcome and a log of the requests,
/// one line each.
fn run_failing(t: &mut Tree, failing_move: usize) -> (Outcome, Vec<String>) {
    let mut m: Flattener = flatten();
    let mut log = Vec::new();
    let mut moves: usize = 0;
    for _ in 0..10_000 {
        if let Some(o) = m.outcome() {
            return (o, log);
        }
        log.push(format!("{:?}", m.pending()));
        let ev = if let Request::Move { .. } = m.pending() {
            moves += 1;
            if moves - 1 == failing_move {
                Event::Failed
            } else {
                answer(t, m.pending())
            }
        } else {
            answer(t, m.pending())
        };
        m.step(ev);
    }
    panic!("run did not end");
}

fn run(t: &mut Tree) -> (Outcome, Vec<String>) {
    run_failing(t, usize::MAX)
}

fn count(log: &[String], prefix: &str) -> usize {
    log.iter().filter(|l| l.starts_with(prefix)).count()
}

#[test]
fn test_flatten() {
    let mut t = tree(
        &[&["test_file.txt"], &["test_subdir", "test_subfile.txt"]],
        &[&["test_subdir"]],
    );
    let (o, _) = run(&mut t);
    assert_eq!(o, Outcome::Flattened);
    let files = children(&t, &Vec::new());
    assert_eq!(files, ["test_file.txt", "test_subfile.txt"]);
}

#[test]
fn file_and_subdirectory_become_two_files() {
    let mut t = tree(&[&["a.txt"], &["sub", "b.txt"]], &[&["sub"]]);
    let (o, log) = run(&mut t);
    assert_eq!(o, Outcome::Flattened);
    assert_eq!(t, tree(&[&["a.txt"], &["b.txt"]], &[]));
    assert_eq!(count(&log, "Move"), 1);
    assert_eq!(count(&log, "Remove"), 1);
}

#[test]
fn nested_directories_are_removed() {
    let mut t = tree(&[&["sub1", "sub2", "c.txt"]], &[&["sub1"], &["sub1", "sub2"]]);
    let (o, log) = run(&mut t);
    assert_eq!(o, Outcome::Flattened);
    assert_eq!(t, tree(&[&["c.txt"]], &[]));
    assert_eq!(count(&log, "Remove"), 2);
}

#[test]
fn empty_root_survives() {
    let mut t = tree(&[], &[]);
    let (o, log) = run(&mut t);
    assert_eq!(o, Outcome::Flattened);
    assert_eq!(t, tree(&[], &[]));
    assert_eq!(log, ["Inspect { node: [] }", "List { dir: [] }"]);
}

#[test]
fn flat_root_is_untouched() {
    let mut t = tree(&[&["x"], &["y"], &["z"]], &[]);
    let before = t.clone();
    let (o, log) = run(&mut t);
    assert_eq!(o, Outcome::Flattened);
    assert_eq!(t, before);
    assert_eq!(count(&log, "Move"), 0);
    assert_eq!(count(&log, "Remove"), 0);
}

#[test]
fn file_root_is_refused() {
    let mut t = Tree::new();
    t.insert(Vec::new(), true);
    let before = t.clone();
    let (o, log) = run(&mut t);
    assert_eq!(o, Outcome::NotADirectory);
    assert_eq!(t, before);
    assert_eq!(log.len(), 1);
}

#[test]
fn missing_root_fails() {
    let mut t = Tree::new();
    let (o, _) = run(&mut t);
    assert_eq!(o, Outcome::IoFailed);
}

#[test]
fn second_run_moves_nothing() {
    let mut t = tree(
        &[&["a"], &["d", "b"], &["d", "e", "c"]],
        &[&["d"], &["d", "e"]],
    );
    let (o, _) = run(&mut t);
    assert_eq!(o, Outcome::Flattened);
    let after_first = t.clone();
    assert_eq!(after_first, tree(&[&["a"], &["b"], &["c"]], &[]));
    let (o2, log2) = run(&mut t);
    assert_eq!(o2, Outcome::Flattened);
    assert_eq!(t, after_first);
    assert_eq!(count(&log2, "Move"), 0);
}

#[test]
fn rerun_after_failure_completes() {
    let mut t = tree(
        &[&["a"], &["d", "b"], &["d", "c"], &["e", "f"]],
        &[&["d"], &["e"]],
    );
    let (o, _) = run_failing(&mut t, 1);
    assert_eq!(o, Outcome::IoFailed);
    assert!(t.get(&path(&[])) == Some(&false));
    assert_ne!(t, tree(&[&["a"], &["b"], &["c"], &["f"]], &[]));
    let (o2, _) = run(&mut t);
    assert_eq!(o2, Outcome::Flattened);
    assert_eq!(t, tree(&[&["a"], &["b"], &["c"], &["f"]], &[]));
}

#[test]
fn moving_onto_a_directory_fails() {
    // `y/` is visited before `x/`, so `y/x` would replace the directory `x`.
    let mut t = tree(&[&["x", "k"], &["y", "x"]], &[&["x"], &["y"]]);
    let before = t.clone();
    let (o, log) = run(&mut t);
    assert_eq!(o, Outcome::IoFailed);
    assert_eq!(t, before);
    assert_eq!(log.last().unwrap(), "Move { file: [\"y\", \"x\"] }");
}

#[test]
fn same_name_collides_into_one_file() {
    let mut t = tree(&[&["p", "f"], &["q", "f"]], &[&["p"], &["q"]]);
    let (o, log) = run(&mut t);
    assert_eq!(o, Outcome::Flattened);
    assert_eq!(t, tree(&[&["f"]], &[]));
    assert_eq!(count(&log, "Move"), 2);
}

#[test]
fn failed_move_stops_the_run() {
    let mut m = flatten();
    m.step(Event::Inspected { root_is_file: false, node_is_file: false });
    m.step(Event::Listed { names: path(&["d"]) });
    m.step(Event::Inspected { root_is_file: false, node_is_file: false });
    m.step(Event::Listed { names: path(&["f"]) });
    assert_eq!(format!("{:?}", m.pending()), "Inspect { node: [\"d\", \"f\"] }");
    m.step(Event::Inspected { root_is_file: false, node_is_file: true });
    assert_eq!(format!("{:?}", m.pending()), "Move { file: [\"d\", \"f\"] }");
    m.step(Event::Failed);
    assert_eq!(m.outcome(), Some(Outcome::IoFailed));
    m.step(Event::Done);
    assert_eq!(m.outcome(), Some(Outcome::IoFailed));
}

#[test]
fn emptied_directory_is_removed_after_its_entries() {
    let mut m = flatten();
    m.step(Event::Inspected { root_is_file: false, node_is_file: false });
    m.step(Event::Listed { names: path(&["d"]) });
    m.step(Event::Inspected { root_is_file: false, node_is_file: false });
    m.step(Event::Listed { names: Vec::new() });
    assert_eq!(format!("{:?}", m.pending()), "Remove { dir: [\"d\"] }");
    m.step(Event::Done);
    assert_eq!(m.outcome(), Some(Outcome::Flattened));
}

#[test]
fn root_level_file_is_not_moved() {
    let mut m = flatten();
    m.step(Event::Inspected { root_is_file: false, node_is_file: false });
    m.step(Event::Listed { names: path(&["a", "b"]) });
    assert_eq!(format!("{:?}", m.pending()), "Inspect { node: [\"b\"] }");
    m.step(Event::Inspected { root_is_file: false, node_is_file: true });
    assert_eq!(format!("{:?}", m.pending()), "Inspect { node: [\"a\"] }");
    m.step(Event::Inspected { root_is_file: false, node_is_file: true });
    assert_eq!(m.outcome(), Some(Outcome::Flattened));
}

#[test]
fn root_turned_file_midway_is_refused() {
    let mut m = flatten();
    m.step(Event::Inspected { root_is_file: false, node_is_file: false });
    m.step(Event::Listed { names: path(&["a"]) });
    m.step(Event::Inspected { root_is_file: true, node_is_file: true });
    assert_eq!(m.outcome(), Some(Outcome::NotADirectory));
}

#[test]
fn unexpected_answer_is_ignored() {
    let mut m = flatten();
    m.step(Event::Done);
    assert_eq!(format!("{:?}", m.pending()), "Inspect { node: [] }");
    m.step(Event::Inspected { root_is_file: false, node_is_file: false });
    m.step(Event::Done);
    assert_eq!(format!("{:?}", m.pending()), "List { dir: [] }");
    assert_eq!(m.outcome(), None);
}
