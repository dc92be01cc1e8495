use std::collections::{HashMap, HashSet};

use s5_groups::peer::PeerAddr;
use s5_groups::tree::Directory;
use s5_groups::walk::{DirWalk, ExportPhase, ExportWalk, FetchPhase, FetchWalk};

type World = HashMap<u8, Vec<(&'static str, u8)>>;

fn directory(world: &World, hash: [u8; 32]) -> Option<Directory> {
    let dirs = world.get(&hash[0])?;
    let mut d = Directory::new();
    for (name, h) in dirs {
        d.dirs.insert(name.to_string(), [*h; 32]);
    }
    Some(d)
}

/// 1 -> (a: 2, b: 3, c: 2), 2 -> (x: 4), 3 -> (w: 5, y: 4, z: 1), 4 -> (), and 5 is not there
fn world() -> World {
    let mut w = World::new();
    w.insert(1, vec![("c", 2), ("a", 2), ("b", 3)]);
    w.insert(2, vec![("x", 4)]);
    w.insert(3, vec![("z", 1), ("y", 4), ("w", 5)]);
    w.insert(4, vec![]);
    w
}

fn peer(b: u8) -> PeerAddr {
    PeerAddr { id: [b; 32], paths: Vec::new() }
}

fn recurse(world: &World, h: u8, visited: &mut HashSet<u8>, order: &mut Vec<u8>) {
    if !visited.insert(h) {
        return;
    }
    order.push(h);
    if let Some(d) = directory(world, [h; 32]) {
        for i in 0..d.dirs.len() {
            recurse(world, d.dirs.entry(i).1[0], visited, order);
        }
    }
}

#[test]
fn each_directory_is_visited_once_in_the_order_of_a_descent() {
    let w = world();
    let mut walk = DirWalk::new([1; 32]);
    let mut order = Vec::new();
    while let Some(hash) = walk.next() {
        assert_eq!(walk.current(), Some(hash));
        order.push(hash[0]);
        walk.leave(hash[0] % 2 == 0, directory(&w, hash).as_ref());
        assert_eq!(walk.current(), None);
    }
    assert_eq!(order, vec![1, 2, 4, 3, 5]);
    assert_eq!(walk.copied(), 2);
    let mut expected = Vec::new();
    recurse(&w, 1, &mut HashSet::new(), &mut expected);
    assert_eq!(order, expected);
    assert_eq!(walk.next(), None);
}

#[test]
fn fetch_takes_what_is_missing_from_the_first_source_that_has_it() {
    let w = world();
    let me = [7u8; 32];
    let peers = vec![peer(8), peer(7), peer(9)];
    let mut fetch = FetchWalk::new([1; 32], &peers, &me);
    // 4 is there already, 2 is local, peer 9 has 1 and 3, peer 8 replies with nothing to 3
    let mut log: Vec<String> = Vec::new();
    while fetch.advance() {
        let hash = fetch.walk.current().unwrap();
        let h = hash[0];
        loop {
            match fetch.phase {
                FetchPhase::Checking => fetch.checked(h == 4),
                FetchPhase::Known => {
                    log.push(format!("known {}", h));
                    fetch.known(directory(&w, hash).as_ref());
                }
                FetchPhase::Local => {
                    log.push(format!("local {}", h));
                    fetch.read_local(h == 2);
                }
                FetchPhase::Remote(i) => {
                    let p = fetch.others[i].id[0];
                    log.push(format!("peer {} {}", p, h));
                    let reply = if p == 9 && h != 5 {
                        Some(10)
                    } else if h == 3 {
                        Some(0)
                    } else {
                        None
                    };
                    fetch.replied(reply);
                }
                FetchPhase::Importing => {
                    log.push(format!("import {}", h));
                    fetch.imported(directory(&w, hash).as_ref());
                }
                FetchPhase::Failed | FetchPhase::Idle => break,
            }
        }
        if fetch.phase == FetchPhase::Failed {
            break;
        }
    }
    assert_eq!(
        log,
        vec![
            "local 1", "peer 8 1", "peer 9 1", "import 1",
            "local 2", "import 2",
            "known 4",
            "local 3", "peer 8 3", "peer 9 3", "import 3",
            "local 5", "peer 8 5", "peer 9 5",
        ]
    );
    // Nobody has 5
    assert_eq!(fetch.phase, FetchPhase::Failed);
    assert_eq!(fetch.walk.current(), Some([5; 32]));
    assert_eq!(fetch.fetched(), 3);
}

#[test]
fn fetch_without_peers_fails_when_the_local_source_does() {
    let me = [7u8; 32];
    let mut fetch = FetchWalk::new([1; 32], &vec![peer(7)], &me);
    assert!(fetch.advance());
    fetch.checked(false);
    assert_eq!(fetch.phase, FetchPhase::Local);
    fetch.read_local(false);
    assert_eq!(fetch.phase, FetchPhase::Failed);
}

#[test]
fn export_copies_what_the_destination_does_not_have() {
    let w = world();
    let mut export = ExportWalk::new([1; 32]);
    let mut imported = Vec::new();
    while export.advance() {
        let hash = export.walk.current().unwrap();
        assert_eq!(export.phase, ExportPhase::Reading);
        export.read();
        assert_eq!(export.phase, ExportPhase::Checking);
        let dir = directory(&w, hash);
        export.checked(hash[0] == 2, dir.as_ref());
        if export.phase == ExportPhase::Importing {
            imported.push(hash[0]);
            export.imported(dir.as_ref());
        }
    }
    assert_eq!(imported, vec![1, 4, 3, 5]);
    assert_eq!(export.exported(), 4);
}

/// Exports the tree of 1 from a source to a destination: how many directories were copied, or
/// the one that the source does not have.
fn export(source: &World, destination: &mut HashSet<u8>) -> Result<usize, u8> {
    let mut export = ExportWalk::new([1; 32]);
    while export.advance() {
        let hash = export.walk.current().unwrap();
        if !source.contains_key(&hash[0]) {
            return Err(hash[0]);
        }
        export.read();
        let dir = directory(source, hash);
        export.checked(destination.contains(&hash[0]), dir.as_ref());
        if export.phase == ExportPhase::Importing {
            destination.insert(hash[0]);
            export.imported(dir.as_ref());
        }
    }
    Ok(export.exported())
}

#[test]
fn second_export_copies_nothing() {
    let mut source = world();
    source.insert(5, vec![]);
    let mut destination: HashSet<u8> = HashSet::from([2, 77]);
    assert_eq!(export(&source, &mut destination), Ok(4));
    assert_eq!(destination, HashSet::from([1, 2, 3, 4, 5, 77]));
    assert_eq!(export(&source, &mut destination), Ok(0));
    assert_eq!(destination, HashSet::from([1, 2, 3, 4, 5, 77]));
}

#[test]
fn export_needs_all_directories_in_the_source() {
    // The destination has 5, the source has not
    let mut destination: HashSet<u8> = HashSet::from([5]);
    assert_eq!(export(&world(), &mut destination), Err(5));
}
