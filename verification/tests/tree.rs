use std::collections::HashMap;

use s5_groups::tree::{
    self, Directory, FileCollector, FileRef, FileSelection, FoundFile, NavStep, Navigator, PathTarget,
    SelectError, SelectPhase,
};

fn dir(files: &[(&str, u8, u64)], dirs: &[(&str, u8)]) -> Directory {
    let mut d = Directory::new();
    for (name, hash, size) in files {
        d.files.insert(name.to_string(), FileRef { hash: [*hash; 32], size: *size });
    }
    for (name, hash) in dirs {
        d.dirs.insert(name.to_string(), [*hash; 32]);
    }
    d
}

fn world() -> HashMap<[u8; 32], Directory> {
    let mut w = HashMap::new();
    w.insert([1; 32], dir(&[("z.txt", 100, 5), ("a.txt", 101, 7)], &[("sub", 2), ("lost", 9), ("alt", 3)]));
    w.insert([2; 32], dir(&[("b.txt", 102, 1)], &[("deep", 3)]));
    w.insert([3; 32], dir(&[("c.txt", 103, 2)], &[]));
    w
}

fn collect(start: &Directory, prefix: &str, world: &HashMap<[u8; 32], Directory>) -> Vec<FoundFile> {
    let mut c = FileCollector::new();
    c.enter(start, prefix);
    while let Some(next) = c.next() {
        if let Some(d) = world.get(&next.hash) {
            c.enter(d, &next.path);
        }
    }
    c.found
}

fn recurse(d: &Directory, prefix: &str, world: &HashMap<[u8; 32], Directory>, out: &mut Vec<FoundFile>) {
    for i in 0..d.files.len() {
        let (name, f) = d.files.entry(i);
        out.push(FoundFile { path: tree::join_path(prefix, name), hash: f.hash, size: f.size });
    }
    for i in 0..d.dirs.len() {
        let (name, hash) = d.dirs.entry(i);
        if let Some(sub) = world.get(hash) {
            recurse(sub, &tree::join_path(prefix, name), world, out);
        }
    }
}

#[test]
fn all_files_below_a_directory_are_found_in_order() {
    let w = world();
    let found = collect(&w[&[1; 32]], "", &w);
    let paths: Vec<&str> = found.iter().map(|f| f.path.as_str()).collect();
    assert_eq!(
        paths,
        vec!["a.txt", "z.txt", "alt/c.txt", "sub/b.txt", "sub/deep/c.txt"]
    );
    assert_eq!(found[2].hash, [103; 32]);
    assert_eq!(found[2].size, 2);
    let mut expected = Vec::new();
    recurse(&w[&[1; 32]], "", &w, &mut expected);
    assert_eq!(found, expected);
}

#[test]
fn paths_begin_with_the_prefix() {
    let w = world();
    let found = collect(&w[&[2; 32]], "sub", &w);
    let paths: Vec<&str> = found.iter().map(|f| f.path.as_str()).collect();
    assert_eq!(paths, vec!["sub/b.txt", "sub/deep/c.txt"]);
}

#[test]
fn paths_are_joined_with_a_slash() {
    assert_eq!(tree::join_path("", "a"), "a");
    assert_eq!(tree::join_path("a/b", "c"), "a/b/c");
}

#[test]
fn path_is_split_into_pieces() {
    assert_eq!(tree::path_pieces("a/b/c"), vec!["a", "b", "c"]);
    assert_eq!(tree::path_pieces("//ä//b/"), vec!["ä", "b"]);
    assert!(tree::path_pieces("").is_empty());
    assert!(tree::path_pieces("///").is_empty());
    assert_eq!(tree::path_pieces("file.txt"), vec!["file.txt"]);
}

#[test]
fn file_name_stands_after_the_last_slash() {
    assert_eq!(tree::file_name("a/b/ß.txt"), "ß.txt");
    assert_eq!(tree::file_name("file.txt"), "file.txt");
    assert_eq!(tree::file_name("a/b/"), "");
    assert_eq!(tree::file_name(""), "");
}

fn navigate(path: &str, world: &HashMap<[u8; 32], Directory>) -> Result<[u8; 32], String> {
    let mut nav = Navigator::new(path);
    let mut at = [1; 32];
    loop {
        match nav.step(&world[&at]) {
            NavStep::Arrived => return Ok(at),
            NavStep::Enter { hash, .. } => at = hash,
            NavStep::Missing { piece } => return Err(piece),
        }
    }
}

#[test]
fn navigation_ends_at_the_parent() {
    let w = world();
    assert_eq!(navigate("file.txt", &w), Ok([1; 32]));
    assert_eq!(navigate("", &w), Ok([1; 32]));
    assert_eq!(navigate("sub/b.txt", &w), Ok([2; 32]));
    assert_eq!(navigate("sub/deep/c.txt", &w), Ok([3; 32]));
    assert_eq!(navigate("/sub//deep/", &w), Ok([2; 32]));
    assert_eq!(navigate("sub/none/c.txt", &w), Err("none".into()));
}

#[test]
fn path_names_a_file_before_a_directory() {
    let d = dir(&[("x", 50, 4)], &[("x", 60), ("y", 61)]);
    assert_eq!(
        tree::path_target(&d, "p/x"),
        PathTarget::File(FoundFile { path: "p/x".into(), hash: [50; 32], size: 4 })
    );
    assert_eq!(tree::path_target(&d, "p/y"), PathTarget::Dir([61; 32]));
    assert_eq!(tree::path_target(&d, "p/z"), PathTarget::Missing);
    assert_eq!(tree::path_target(&d, "y/"), PathTarget::Missing);
}

fn select(path: Option<&str>, world: &HashMap<[u8; 32], Directory>) -> SelectPhase {
    let mut selection = FileSelection::new([1; 32], path.map(|p| p.to_string()));
    while let Some(hash) = selection.wanted() {
        selection = selection.read(world.get(&hash));
    }
    selection.phase
}

#[test]
fn files_that_are_pinned() {
    let w = world();
    // All files of the root
    let mut all = Vec::new();
    recurse(&w[&[1; 32]], "", &w, &mut all);
    assert_eq!(select(None, &w), SelectPhase::Done { files: all });
    // The one file
    let file = match tree::path_target(&w[&[3; 32]], "sub/deep/c.txt") {
        PathTarget::File(file) => file,
        other => panic!("{:?}", other),
    };
    assert_eq!(file.path, "sub/deep/c.txt");
    assert_eq!(select(Some("sub/deep/c.txt"), &w), SelectPhase::Done { files: vec![file] });
    // All files below the directory
    let files = collect(&w[&[2; 32]], "sub", &w);
    assert_eq!(files.len(), 2);
    assert_eq!(select(Some("sub"), &w), SelectPhase::Done { files });
    // Neither
    assert_eq!(
        select(Some("sub/none"), &w),
        SelectPhase::Failed { error: SelectError::NotFound }
    );
    assert_eq!(
        select(Some("none/c.txt"), &w),
        SelectPhase::Failed { error: SelectError::NoDirectory { piece: "none".into() } }
    );
}

#[test]
fn directories_on_the_way_have_to_be_readable() {
    let mut w = world();
    w.remove(&[3; 32]);
    let unreadable = SelectPhase::Failed { error: SelectError::Unreadable };
    assert_eq!(select(Some("sub/deep"), &w), unreadable);
    assert_eq!(select(Some("sub/deep/c.txt"), &w), unreadable);
    // One below is passed over
    let files = collect(&w[&[2; 32]], "sub", &w);
    assert_eq!(files.len(), 1);
    assert_eq!(select(Some("sub"), &w), SelectPhase::Done { files });
    w.clear();
    assert_eq!(select(None, &w), unreadable);
}
