//! What paths, directories and searches have to do with each other.

use vstd::prelude::*;

use crate::sorted_map;
use crate::tree::{
    dir_model, dir_named, file_named, files_ahead, files_at, files_below, files_in_dirs, files_named,
    files_to_pin, found_models, joined, last_piece, own_dirs, own_files, parent_dir,
    pending_models, pieces, pieces_from, DirModel, Directory, FileRef, FileSelection, FoundFile,
    FoundModel, Navigator, PendingDir, SelectError, SelectFailure, SelectModel, SelectPhase,
};

verus! {

/// Whether a text has no slash in it.
pub open spec fn without_slash(s: Seq<char>) -> bool {
    forall|i: int| 0 <= i < s.len() ==> #[trigger] s[i] != '/'
}

/// The pieces of a text without a slash, after the beginning of a piece.
proof fn lemma_pieces_of_one(s: Seq<char>, piece: Seq<char>)
    requires
        without_slash(s),
    ensures
        pieces_from(s, piece) == (if piece.len() + s.len() > 0 {
            seq![piece + s]
        } else {
            Seq::empty()
        }),
    decreases s.len(),
{
    if s.len() == 0 {
        assert(piece + s =~= piece);
    } else {
        let rest = s.drop_first();
        assert forall|i: int| 0 <= i < rest.len() implies #[trigger] rest[i] != '/' by {
            assert(rest[i] == s[i + 1]);
        }
        lemma_pieces_of_one(rest, piece.push(s[0]));
        assert(piece.push(s[0]) + rest =~= piece + s);
    }
}

/// A slash parts the pieces before it from those after it.
proof fn lemma_pieces_parted(a: Seq<char>, piece: Seq<char>, b: Seq<char>)
    ensures
        pieces_from(a + seq!['/'] + b, piece) == pieces_from(a, piece) + pieces(b),
    decreases a.len(),
{
    let s = a + seq!['/'] + b;
    if a.len() == 0 {
        assert(s[0] == '/');
        assert(s.drop_first() =~= b);
    } else {
        let rest = a.drop_first();
        assert(s[0] == a[0]);
        assert(s.drop_first() =~= rest + seq!['/'] + b);
        if a[0] == '/' {
            lemma_pieces_parted(rest, Seq::empty(), b);
            let first = if piece.len() > 0 {
                seq![piece]
            } else {
                Seq::empty()
            };
            assert(first + (pieces(rest) + pieces(b)) =~= first + pieces(rest) + pieces(b));
        } else {
            lemma_pieces_parted(rest, piece.push(a[0]), b);
        }
    }
}

/// An empty path has no pieces, a path without a slash is its only piece, and a slash parts a
/// path into two whose pieces follow each other. So slashes at the ends, or next to each
/// other, make no pieces.
pub proof fn law_pieces(a: Seq<char>, b: Seq<char>)
    ensures
        pieces(Seq::empty()) == Seq::<Seq<char>>::empty(),
        a.len() > 0 && without_slash(a) ==> pieces(a) == seq![a],
        pieces(a + seq!['/'] + b) == pieces(a) + pieces(b),
{
    if without_slash(a) {
        lemma_pieces_of_one(a, Seq::empty());
        assert(Seq::<char>::empty() + a =~= a);
    }
    lemma_pieces_parted(a, Seq::empty(), b);
}

/// The last piece of a path without a slash is the path, and otherwise it is what stands
/// behind the last slash.
pub proof fn law_last_piece(a: Seq<char>, b: Seq<char>)
    requires
        without_slash(b),
    ensures
        last_piece(b) == b,
        last_piece(a + seq!['/'] + b) == b,
    decreases b.len(),
{
    let s = a + seq!['/'] + b;
    if b.len() == 0 {
        assert(s.last() == '/');
        assert(last_piece(b) =~= b);
        assert(last_piece(s) =~= b);
    } else {
        let rest = b.drop_last();
        assert forall|i: int| 0 <= i < rest.len() implies #[trigger] rest[i] != '/' by {
            assert(rest[i] == b[i]);
        }
        law_last_piece(a, rest);
        assert(b.last() != '/');
        assert(s.last() == b.last());
        assert(s.drop_last() =~= a + seq!['/'] + rest);
        assert(rest.push(b.last()) =~= b);
    }
}

/// Where the last piece of a path stands in it.
proof fn lemma_last_piece_position(s: Seq<char>)
    ensures
        last_piece(s).len() <= s.len(),
        without_slash(last_piece(s)),
        s.skip(s.len() - last_piece(s).len()) == last_piece(s),
        last_piece(s).len() < s.len() ==> s[s.len() - last_piece(s).len() - 1] == '/',
    decreases s.len(),
{
    if s.len() == 0 || s.last() == '/' {
        assert(s.skip(s.len() as int) =~= Seq::<char>::empty());
    } else {
        let rest = s.drop_last();
        lemma_last_piece_position(rest);
        let p = last_piece(rest);
        let n = rest.len() - p.len();
        assert(s.len() - last_piece(s).len() == n);
        assert(s.skip(n) =~= rest.skip(n).push(s.last()));
    }
}

/// What stands behind the last slash of a path, where anything does, is the last of its
/// pieces.
pub proof fn law_last_piece_is_a_piece(path: Seq<char>)
    requires
        last_piece(path).len() > 0,
    ensures
        pieces(path).len() > 0,
        pieces(path).last() == last_piece(path),
{
    lemma_last_piece_position(path);
    let b = last_piece(path);
    let n = path.len() - b.len();
    if n == 0 {
        assert(path.skip(0) =~= path);
        law_pieces(path, Seq::empty());
    } else {
        let a = path.take(n - 1);
        assert(path =~= a + seq!['/'] + b);
        law_pieces(a, b);
        law_pieces(b, Seq::empty());
        assert((pieces(a) + seq![b]).last() == b);
    }
}

/// The path of an entry has the pieces of the directory's path and then the name, which is
/// its last piece. It begins with the directory's path, and no two entries of a directory
/// have the same path.
pub proof fn law_joined(prefix: Seq<char>, name: Seq<char>, other: Seq<char>)
    requires
        name.len() > 0,
        without_slash(name),
    ensures
        pieces(joined(prefix, name)) == pieces(prefix).push(name),
        last_piece(joined(prefix, name)) == name,
        joined(prefix, name).take(prefix.len() as int) == prefix,
        joined(prefix, name).len() == prefix.len() + name.len() + (if prefix.len() > 0 {
            1int
        } else {
            0
        }),
        joined(prefix, name) == joined(prefix, other) ==> name == other,
{
    reveal_strlit("/");
    assert("/"@ =~= seq!['/']);
    law_pieces(prefix, name);
    law_pieces(name, Seq::empty());
    law_last_piece(prefix, name);
    let path = joined(prefix, name);
    assert(pieces(prefix) + seq![name] =~= pieces(prefix).push(name));
    if prefix.len() == 0 {
        assert(prefix =~= Seq::empty());
        assert(pieces(prefix).push(name) =~= seq![name]);
    }
    assert(path.take(prefix.len() as int) =~= prefix);
    let n: int = if prefix.len() == 0 {
        0int
    } else {
        (prefix.len() + 1) as int
    };
    assert(path.skip(n) =~= name);
    assert(joined(prefix, other).skip(n) =~= other);
}

/// A name leads to the entry that the directory has under it, and to none where it has none.
pub proof fn law_entries_by_name(dir: &Directory, name: Seq<char>)
    requires
        dir.files.wf(),
        dir.dirs.wf(),
    ensures
        dir_named(dir@, name) == (if dir.dirs@.contains_key(name) {
            Some(dir.dirs@[name]@)
        } else {
            None
        }),
        file_named(dir@, name) == (if dir.files@.contains_key(name) {
            Some(dir.files@[name])
        } else {
            None
        }),
{
    let pairs = dir.dirs.pairs();
    let refs = dir@.dirs;
    if sorted_map::has_key(pairs, name) {
        let i = sorted_map::lemma_key_has_position(pairs, name);
        assert(refs[i].0 == name);
        let k = sorted_map::lemma_value_has_position(refs, name);
        assert(pairs[k].0 == name);
        sorted_map::lemma_pair_in_map::<String, [u8; 32]>(pairs, k);
    } else if sorted_map::has_key(refs, name) {
        let i = sorted_map::lemma_key_has_position(refs, name);
        assert(pairs[i].0 == name);
    }
}

/// A directory's own files are found each once, in the order of their names: under its name,
/// behind the directory's path where it has one, and with its hash and its size.
pub proof fn law_own_files(dir: &Directory, prefix: Seq<char>, name: Seq<char>)
    requires
        dir.files.wf(),
    ensures
        own_files(dir@, prefix).len() == dir.files@.len(),
        dir.files@.contains_key(name) ==> exists|i: int|
            0 <= i < own_files(dir@, prefix).len() && dir.files.pairs()[i].0 == name && (
            #[trigger] own_files(dir@, prefix)[i]) == (FoundModel {
                path: if prefix.len() == 0 {
                    name
                } else {
                    prefix + seq!['/'] + name
                },
                hash: dir.files@[name].hash@,
                size: dir.files@[name].size,
            }),
        forall|i: int|
            0 <= i < own_files(dir@, prefix).len() ==> dir.files@.contains_key(
                (#[trigger] dir.files.pairs()[i]).0,
            ) && own_files(dir@, prefix)[i].hash == dir.files@[dir.files.pairs()[i].0].hash@
                && own_files(dir@, prefix)[i].size == dir.files@[dir.files.pairs()[i].0].size,
        forall|i: int, j: int|
            0 <= i < j < own_files(dir@, prefix).len() ==> crate::order::before(
                vstd::utf8::encode_utf8((#[trigger] dir.files.pairs()[i]).0),
                vstd::utf8::encode_utf8((#[trigger] dir.files.pairs()[j]).0),
            ),
{
    reveal_strlit("/");
    assert("/"@ =~= seq!['/']);
    let pairs = dir.files.pairs();
    sorted_map::lemma_map_len::<String, FileRef>(pairs);
    assert forall|i: int| 0 <= i < pairs.len() implies dir.files@.contains_key(
        (#[trigger] pairs[i]).0,
    ) && dir.files@[pairs[i].0] == pairs[i].1 by {
        sorted_map::lemma_pair_in_map::<String, FileRef>(pairs, i);
    }
    if dir.files@.contains_key(name) {
        let i = sorted_map::lemma_key_has_position(pairs, name);
        assert(pairs[i].1 == dir.files@[name]);
        assert(own_files(dir@, prefix)[i].hash == dir.files@[name].hash@);
    }
}

/// The sub-directories of a directory are searched each once, in the order of their names:
/// under its name, behind the directory's path where it has one, and by its hash.
pub proof fn law_own_dirs(dir: &Directory, prefix: Seq<char>, name: Seq<char>)
    requires
        dir.dirs.wf(),
    ensures
        own_dirs(dir@, prefix).len() == dir.dirs@.len(),
        dir.dirs@.contains_key(name) ==> exists|i: int|
            0 <= i < own_dirs(dir@, prefix).len() && dir.dirs.pairs()[i].0 == name && (
            #[trigger] own_dirs(dir@, prefix)[i]) == (
                if prefix.len() == 0 {
                    name
                } else {
                    prefix + seq!['/'] + name
                },
                dir.dirs@[name]@,
            ),
        forall|i: int|
            0 <= i < own_dirs(dir@, prefix).len() ==> dir.dirs@.contains_key(
                (#[trigger] dir.dirs.pairs()[i]).0,
            ) && own_dirs(dir@, prefix)[i].1 == dir.dirs@[dir.dirs.pairs()[i].0]@,
        forall|i: int, j: int|
            0 <= i < j < own_dirs(dir@, prefix).len() ==> crate::order::before(
                vstd::utf8::encode_utf8((#[trigger] dir.dirs.pairs()[i]).0),
                vstd::utf8::encode_utf8((#[trigger] dir.dirs.pairs()[j]).0),
            ),
{
    reveal_strlit("/");
    assert("/"@ =~= seq!['/']);
    let pairs = dir.dirs.pairs();
    sorted_map::lemma_map_len::<String, [u8; 32]>(pairs);
    assert forall|i: int| 0 <= i < pairs.len() implies dir.dirs@.contains_key(
        (#[trigger] pairs[i]).0,
    ) && dir.dirs@[pairs[i].0] == pairs[i].1 by {
        sorted_map::lemma_pair_in_map::<String, [u8; 32]>(pairs, i);
    }
    if dir.dirs@.contains_key(name) {
        let i = sorted_map::lemma_key_has_position(pairs, name);
        assert(pairs[i].1 == dir.dirs@[name]);
        assert(own_dirs(dir@, prefix)[i].1 == dir.dirs@[name]@);
    }
}

/// Whether the entries of a directory have names that can stand in a path: none is empty or
/// has a slash in it, and no two files, and no two sub-directories, have the same name.
pub open spec fn well_named(dir: DirModel) -> bool {
    &&& forall|i: int|
        0 <= i < dir.files.len() ==> (#[trigger] dir.files[i]).0.len() > 0 && without_slash(
            dir.files[i].0,
        )
    &&& forall|i: int|
        0 <= i < dir.dirs.len() ==> (#[trigger] dir.dirs[i]).0.len() > 0 && without_slash(
            dir.dirs[i].0,
        )
    &&& forall|i: int, j: int|
        0 <= i < j < dir.files.len() ==> (#[trigger] dir.files[i]).0 != (#[trigger] dir.files[j]).0
    &&& forall|i: int, j: int|
        0 <= i < j < dir.dirs.len() ==> (#[trigger] dir.dirs[i]).0 != (#[trigger] dir.dirs[j]).0
}

/// Whether the entries of all directories have names that can stand in a path.
pub open spec fn all_well_named(world: spec_fn(Seq<u8>) -> Option<DirModel>) -> bool {
    forall|hash: Seq<u8>| (#[trigger] world(hash)) matches Some(dir) ==> well_named(dir)
}

/// Whether a path leads from `top` to the directory `dir`.
spec fn located(
    world: spec_fn(Seq<u8>) -> Option<DirModel>,
    top: DirModel,
    path: Seq<char>,
    dir: DirModel,
) -> bool {
    forall|x: Seq<char>| #[trigger] parent_dir(world, top, pieces(path).push(x)) == Some(dir)
}

/// Whether the path of a file leads from `top` to that file.
pub open spec fn stands_at_its_path(
    world: spec_fn(Seq<u8>) -> Option<DirModel>,
    top: DirModel,
    f: FoundModel,
) -> bool {
    parent_dir(world, top, pieces(f.path)) matches Some(parent) && (file_named(
        parent,
        last_piece(f.path),
    ) matches Some(r) && r.hash@ == f.hash && r.size == f.size)
}

/// The directory that a path leads to lies one step further than the one that holds it.
proof fn lemma_parent_of_longer(
    world: spec_fn(Seq<u8>) -> Option<DirModel>,
    top: DirModel,
    a: Seq<Seq<char>>,
    n: Seq<char>,
    x: Seq<char>,
)
    ensures
        parent_dir(world, top, a.push(n).push(x)) == match parent_dir(world, top, a.push(n)) {
            Some(d) => match dir_named(d, n) {
                Some(hash) => world(hash),
                None => None,
            },
            None => None,
        },
    decreases a.len(),
{
    reveal_with_fuel(parent_dir, 2);
    let long = a.push(n).push(x);
    let short = a.push(n);
    if a.len() == 0 {
        assert(long.drop_first() =~= seq![x]);
        assert(long[0] == n);
    } else {
        let rest = a.drop_first();
        assert(long.drop_first() =~= rest.push(n).push(x));
        assert(short.drop_first() =~= rest.push(n));
        assert(long[0] == a[0] && short[0] == a[0]);
        if let Some(hash) = dir_named(top, a[0]) {
            if let Some(next) = world(hash) {
                lemma_parent_of_longer(world, next, rest, n, x);
            }
        }
    }
}

/// The name of a sub-directory leads to its hash.
proof fn lemma_dir_by_name(dir: DirModel, i: int)
    requires
        well_named(dir),
        0 <= i < dir.dirs.len(),
    ensures
        dir_named(dir, dir.dirs[i].0) == Some(dir.dirs[i].1),
{
    let name = dir.dirs[i].0;
    assert(sorted_map::has_key(dir.dirs, name));
    let k = sorted_map::lemma_value_has_position(dir.dirs, name);
    assert(k == i) by {
        if k < i {
            assert(dir.dirs[k].0 != dir.dirs[i].0);
        } else if i < k {
            assert(dir.dirs[i].0 != dir.dirs[k].0);
        }
    }
}

/// The name of a file leads to the file.
proof fn lemma_file_by_name(dir: DirModel, i: int)
    requires
        well_named(dir),
        0 <= i < dir.files.len(),
    ensures
        file_named(dir, dir.files[i].0) == Some(dir.files[i].1),
{
    let name = dir.files[i].0;
    assert(sorted_map::has_key(dir.files, name));
    let k = sorted_map::lemma_value_has_position(dir.files, name);
    assert(k == i) by {
        if k < i {
            assert(dir.files[k].0 != dir.files[i].0);
        } else if i < k {
            assert(dir.files[i].0 != dir.files[k].0);
        }
    }
}

/// A file that is found below a directory stands at its path.
proof fn lemma_found_below(
    world: spec_fn(Seq<u8>) -> Option<DirModel>,
    top: DirModel,
    dir: DirModel,
    path: Seq<char>,
    depth: nat,
    f: FoundModel,
)
    requires
        all_well_named(world),
        well_named(dir),
        located(world, top, path, dir),
        files_below(world, dir, path, depth).contains(f),
    ensures
        stands_at_its_path(world, top, f),
    decreases depth, 2int, 0int,
{
    let own = own_files(dir, path);
    let dirs = own_dirs(dir, path);
    let all = files_below(world, dir, path, depth);
    let k = choose|k: int| 0 <= k < all.len() && all[k] == f;
    if k < own.len() {
        let name = dir.files[k].0;
        assert(own[k] == f);
        law_joined(path, name, name);
        lemma_file_by_name(dir, k);
        assert(parent_dir(world, top, pieces(path).push(name)) == Some(dir));
    } else {
        assert(files_in_dirs(world, dirs, depth)[k - own.len()] == f);
        assert forall|i: int| 0 <= i < dirs.len() implies (world(
            (#[trigger] dirs[i]).1,
        ) matches Some(d) ==> located(world, top, dirs[i].0, d)) by {
            if let Some(d) = world(dirs[i].1) {
                let name = dir.dirs[i].0;
                law_joined(path, name, name);
                lemma_dir_by_name(dir, i);
                assert forall|x: Seq<char>| #[trigger]
                    parent_dir(world, top, pieces(dirs[i].0).push(x)) == Some(d) by {
                    lemma_parent_of_longer(world, top, pieces(path), name, x);
                    assert(parent_dir(world, top, pieces(path).push(name)) == Some(dir));
                }
            }
        }
        lemma_found_in_dirs(world, top, dirs, depth, f);
    }
}

/// A file that is found below some directories stands at its path.
proof fn lemma_found_in_dirs(
    world: spec_fn(Seq<u8>) -> Option<DirModel>,
    top: DirModel,
    dirs: Seq<(Seq<char>, Seq<u8>)>,
    depth: nat,
    f: FoundModel,
)
    requires
        all_well_named(world),
        forall|i: int|
            0 <= i < dirs.len() ==> (world((#[trigger] dirs[i]).1) matches Some(d) ==> located(
                world,
                top,
                dirs[i].0,
                d,
            )),
        files_in_dirs(world, dirs, depth).contains(f),
    ensures
        stands_at_its_path(world, top, f),
    decreases depth, 1int, dirs.len(),
{
    let all = files_in_dirs(world, dirs, depth);
    let k = choose|k: int| 0 <= k < all.len() && all[k] == f;
    let first = files_at(world, dirs[0].0, dirs[0].1, depth);
    let rest = dirs.drop_first();
    if k < first.len() {
        assert(first[k] == f);
        match world(dirs[0].1) {
            Some(d) => {
                lemma_found_below(world, top, d, dirs[0].0, (depth - 1) as nat, f);
            },
            None => {},
        }
    } else {
        assert(files_in_dirs(world, rest, depth)[k - first.len()] == f);
        assert forall|i: int| 0 <= i < rest.len() implies (world(
            (#[trigger] rest[i]).1,
        ) matches Some(d) ==> located(world, top, rest[i].0, d)) by {
            assert(rest[i] == dirs[i + 1]);
        }
        lemma_found_in_dirs(world, top, rest, depth, f);
    }
}

/// A path names what stands in the directory that holds it.
proof fn lemma_files_at_parent(
    world: spec_fn(Seq<u8>) -> Option<DirModel>,
    dir: DirModel,
    ahead: Seq<Seq<char>>,
    path: Seq<char>,
    depth: nat,
)
    ensures
        parent_dir(world, dir, ahead) matches Some(parent) ==> files_ahead(
            world,
            dir,
            ahead,
            path,
            depth,
        ) == files_named(world, parent, path, depth),
        parent_dir(world, dir, ahead) is None ==> files_ahead(
            world,
            dir,
            ahead,
            path,
            depth,
        ) is Err,
    decreases ahead.len(),
{
    if ahead.len() > 1 {
        if let Some(hash) = dir_named(dir, ahead[0]) {
            if let Some(next) = world(hash) {
                lemma_files_at_parent(world, next, ahead.drop_first(), path, depth);
            }
        }
    }
}

/// Each file of a selection, be it of a whole tree or of what a path names, is what its own
/// path names: selected by that path, it comes out alone, with the same hash and size.
pub proof fn law_selected_again(
    world: spec_fn(Seq<u8>) -> Option<DirModel>,
    root: Seq<u8>,
    path: Option<Seq<char>>,
    depth: nat,
    f: FoundModel,
    depth_again: nat,
)
    requires
        all_well_named(world),
        files_to_pin(world, root, path, depth) matches Ok(files) && files.contains(f),
    ensures
        files_to_pin(world, root, Some(f.path), depth_again) == Ok::<
            Seq<FoundModel>,
            SelectFailure,
        >(seq![f]),
        world(root) matches Some(top) && stands_at_its_path(world, top, f),
{
    match world(root) {
        Some(top) => {
            match path {
                None => {
                    law_pieces(Seq::empty(), Seq::empty());
                    assert forall|x: Seq<char>| #[trigger]
                        parent_dir(world, top, pieces(Seq::<char>::empty()).push(x)) == Some(
                            top,
                        ) by {
                        assert(pieces(Seq::<char>::empty()).push(x).len() == 1);
                    }
                    lemma_found_below(world, top, top, Seq::empty(), depth, f);
                },
                Some(p) => {
                    lemma_files_at_parent(world, top, pieces(p), p, depth);
                    lemma_selected_below(world, top, p, depth, f);
                },
            }
            lemma_files_at_parent(world, top, pieces(f.path), f.path, depth_again);
        },
        None => {},
    }
}

/// A file that a path selects stands at its path.
proof fn lemma_selected_below(
    world: spec_fn(Seq<u8>) -> Option<DirModel>,
    top: DirModel,
    p: Seq<char>,
    depth: nat,
    f: FoundModel,
)
    requires
        all_well_named(world),
        files_ahead(world, top, pieces(p), p, depth) matches Ok(files) && files.contains(f),
        exists|hash: Seq<u8>| #[trigger] world(hash) == Some(top),
    ensures
        stands_at_its_path(world, top, f),
{
    lemma_files_at_parent(world, top, pieces(p), p, depth);
    match parent_dir(world, top, pieces(p)) {
        Some(parent) => {
            lemma_parent_well_named(world, top, pieces(p));
            match file_named(parent, last_piece(p)) {
                Some(r) => {
                    assert(seq![FoundModel { path: p, hash: r.hash@, size: r.size }].contains(f));
                },
                None => {
                    if let Some(hash) = dir_named(parent, last_piece(p)) {
                        let name = last_piece(p);
                        let k = choose|k: int|
                            0 <= k < parent.dirs.len() && (#[trigger] parent.dirs[k]).0 == name;
                        assert(parent.dirs[k].0.len() > 0);
                        law_last_piece_is_a_piece(p);
                        let a = pieces(p).drop_last();
                        assert(a.push(name) =~= pieces(p));
                        if let Some(d) = world(hash) {
                            assert forall|x: Seq<char>| #[trigger]
                                parent_dir(world, top, pieces(p).push(x)) == Some(d) by {
                                lemma_parent_of_longer(world, top, a, name, x);
                            }
                            lemma_found_below(world, top, d, p, depth, f);
                        }
                    }
                },
            }
        },
        None => {},
    }
}

/// The directory that holds a path has names that can stand in a path.
proof fn lemma_parent_well_named(
    world: spec_fn(Seq<u8>) -> Option<DirModel>,
    dir: DirModel,
    ahead: Seq<Seq<char>>,
)
    requires
        all_well_named(world),
        exists|hash: Seq<u8>| #[trigger] world(hash) == Some(dir),
    ensures
        parent_dir(world, dir, ahead) matches Some(parent) ==> well_named(parent),
    decreases ahead.len(),
{
    if ahead.len() > 1 {
        if let Some(hash) = dir_named(dir, ahead[0]) {
            if let Some(next) = world(hash) {
                assert(world(hash) == Some(next));
                lemma_parent_well_named(world, next, ahead.drop_first());
            }
        }
    }
}

/// The path of some pieces, behind the path of a directory.
pub open spec fn path_of(prefix: Seq<char>, names: Seq<Seq<char>>) -> Seq<char>
    decreases names.len(),
{
    if names.len() == 0 {
        prefix
    } else {
        path_of(joined(prefix, names[0]), names.drop_first())
    }
}

/// What is found below one of some directories is found below them.
proof fn lemma_found_in_one(
    world: spec_fn(Seq<u8>) -> Option<DirModel>,
    dirs: Seq<(Seq<char>, Seq<u8>)>,
    depth: nat,
    i: int,
    f: FoundModel,
)
    requires
        0 <= i < dirs.len(),
        files_at(world, dirs[i].0, dirs[i].1, depth).contains(f),
    ensures
        files_in_dirs(world, dirs, depth).contains(f),
    decreases dirs.len(),
{
    let first = files_at(world, dirs[0].0, dirs[0].1, depth);
    let rest = files_in_dirs(world, dirs.drop_first(), depth);
    if i == 0 {
        let k = choose|k: int| 0 <= k < first.len() && first[k] == f;
        assert((first + rest)[k] == f);
    } else {
        assert(dirs.drop_first()[i - 1] == dirs[i]);
        lemma_found_in_one(world, dirs.drop_first(), depth, i - 1, f);
        let k = choose|k: int| 0 <= k < rest.len() && rest[k] == f;
        assert((first + rest)[first.len() + k] == f);
    }
}

/// A search leaves out no file: each that names lead to, from directory to directory, is
/// found, with its hash and size, and under the path that the names make.
pub proof fn law_search_is_complete(
    world: spec_fn(Seq<u8>) -> Option<DirModel>,
    dir: DirModel,
    prefix: Seq<char>,
    names: Seq<Seq<char>>,
    depth: nat,
)
    requires
        1 <= names.len() <= depth + 1,
    ensures
        parent_dir(world, dir, names) matches Some(parent) ==> (file_named(
            parent,
            names.last(),
        ) matches Some(r) ==> files_below(world, dir, prefix, depth).contains(
            FoundModel { path: path_of(prefix, names), hash: r.hash@, size: r.size },
        )),
    decreases names.len(),
{
    let own = own_files(dir, prefix);
    let dirs = own_dirs(dir, prefix);
    let below = files_in_dirs(world, dirs, depth);
    reveal_with_fuel(path_of, 2);
    if names.len() == 1 {
        if let Some(r) = file_named(dir, names[0]) {
            let name = names[0];
            let k = sorted_map::lemma_value_has_position(dir.files, name);
            let f = FoundModel { path: path_of(prefix, names), hash: r.hash@, size: r.size };
            assert(own[k] == f);
            assert((own + below)[k] == f);
        }
    } else {
        let rest = names.drop_first();
        if let Some(hash) = dir_named(dir, names[0]) {
            if let Some(next) = world(hash) {
                let name = names[0];
                let k = sorted_map::lemma_value_has_position(dir.dirs, name);
                let path = joined(prefix, name);
                assert(dirs[k] == (path, hash));
                law_search_is_complete(world, next, path, rest, (depth - 1) as nat);
                if let Some(parent) = parent_dir(world, dir, names) {
                    if let Some(r) = file_named(parent, names.last()) {
                        let f = FoundModel {
                            path: path_of(prefix, names),
                            hash: r.hash@,
                            size: r.size,
                        };
                        assert(rest.last() == names.last());
                        assert(files_at(world, path, hash, depth).contains(f));
                        lemma_found_in_one(world, dirs, depth, k, f);
                        let j = choose|j: int| 0 <= j < below.len() && below[j] == f;
                        assert((own + below)[own.len() + j] == f);
                    }
                }
            }
        }
    }
}

/// The path that names make has these names as its pieces.
pub proof fn law_path_of_names(prefix: Seq<char>, names: Seq<Seq<char>>)
    requires
        forall|i: int|
            0 <= i < names.len() ==> (#[trigger] names[i]).len() > 0 && without_slash(names[i]),
    ensures
        pieces(path_of(prefix, names)) == pieces(prefix) + names,
        names.len() > 0 ==> last_piece(path_of(prefix, names)) == names.last(),
    decreases names.len(),
{
    if names.len() > 0 {
        let rest = names.drop_first();
        assert forall|i: int| 0 <= i < rest.len() implies (#[trigger] rest[i]).len() > 0
            && without_slash(rest[i]) by {
            assert(rest[i] == names[i + 1]);
        }
        law_joined(prefix, names[0], names[0]);
        law_path_of_names(joined(prefix, names[0]), rest);
        assert(pieces(prefix).push(names[0]) + rest =~= pieces(prefix) + names);
        if rest.len() == 0 {
            assert(path_of(joined(prefix, names[0]), rest) == joined(prefix, names[0]));
        }
    } else {
        assert(pieces(prefix) + names =~= pieces(prefix));
    }
}

/// Nothing is selected by a path exactly where the root or a directory that the path goes
/// through cannot be read, or has no sub-directory of the name that comes next, or where the
/// directory that holds the path has neither a file nor a sub-directory of the last name.
/// Where the path names a sub-directory, that one has to be readable too.
pub proof fn law_selection_fails(
    world: spec_fn(Seq<u8>) -> Option<DirModel>,
    root: Seq<u8>,
    p: Seq<char>,
    depth: nat,
)
    ensures
        world(root) is None ==> files_to_pin(world, root, Some(p), depth) == Err::<
            Seq<FoundModel>,
            SelectFailure,
        >(SelectFailure::Unreadable) && files_to_pin(world, root, None, depth) == Err::<
            Seq<FoundModel>,
            SelectFailure,
        >(SelectFailure::Unreadable),
        world(root) is Some ==> files_to_pin(world, root, None, depth) is Ok,
        world(root) matches Some(top) ==> match parent_dir(world, top, pieces(p)) {
            Some(parent) => {
                let name = last_piece(p);
                let r = files_to_pin(world, root, Some(p), depth);
                &&& r == Err::<Seq<FoundModel>, SelectFailure>(SelectFailure::NotFound)
                    <==> file_named(parent, name) is None && dir_named(parent, name) is None
                &&& r == Err::<Seq<FoundModel>, SelectFailure>(SelectFailure::Unreadable)
                    <==> file_named(parent, name) is None && (dir_named(
                    parent,
                    name,
                ) matches Some(h) && world(h) is None)
                &&& !(r matches Err(SelectFailure::NoDirectory { .. }))
            },
            None => match files_to_pin(world, root, Some(p), depth) {
                Ok(_) => false,
                Err(SelectFailure::NotFound) => false,
                Err(SelectFailure::Unreadable) => exists|k: int|
                    0 <= k < pieces(p).len() - 1 && lost_at(world, top, pieces(p), k, true),
                Err(SelectFailure::NoDirectory { piece }) => exists|k: int|
                    0 <= k < pieces(p).len() - 1 && piece == pieces(p)[k] && lost_at(
                        world,
                        top,
                        pieces(p),
                        k,
                        false,
                    ),
            },
        },
{
    if let Some(top) = world(root) {
        lemma_files_at_parent(world, top, pieces(p), p, depth);
        if parent_dir(world, top, pieces(p)) is None {
            lemma_lost(world, top, pieces(p), p, depth);
        }
    }
}

/// Whether the way along some names ends at the `k`-th: the directory that is reached before
/// it has no sub-directory of that name or, with `unreadable`, has one that cannot be read.
pub open spec fn lost_at(
    world: spec_fn(Seq<u8>) -> Option<DirModel>,
    top: DirModel,
    names: Seq<Seq<char>>,
    k: int,
    unreadable: bool,
) -> bool {
    parent_dir(world, top, names.take(k + 1)) matches Some(d) && match dir_named(d, names[k]) {
        Some(hash) => unreadable && world(hash) is None,
        None => !unreadable,
    }
}

/// Where the way along a path ends.
proof fn lemma_lost(
    world: spec_fn(Seq<u8>) -> Option<DirModel>,
    top: DirModel,
    names: Seq<Seq<char>>,
    p: Seq<char>,
    depth: nat,
)
    requires
        parent_dir(world, top, names) is None,
    ensures
        match files_ahead(world, top, names, p, depth) {
            Ok(_) => false,
            Err(SelectFailure::NotFound) => false,
            Err(SelectFailure::Unreadable) => exists|k: int|
                0 <= k < names.len() - 1 && lost_at(world, top, names, k, true),
            Err(SelectFailure::NoDirectory { piece }) => exists|k: int|
                0 <= k < names.len() - 1 && piece == names[k] && lost_at(
                    world,
                    top,
                    names,
                    k,
                    false,
                ),
        },
    decreases names.len(),
{
    let rest = names.drop_first();
    assert(names.take(1).len() == 1);
    assert(parent_dir(world, top, names.take(1)) == Some(top));
    match dir_named(top, names[0]) {
        None => {
            assert(lost_at(world, top, names, 0, false));
        },
        Some(hash) => match world(hash) {
            None => {
                assert(lost_at(world, top, names, 0, true));
            },
            Some(next) => {
                lemma_lost(world, next, rest, p, depth);
                let unreadable = files_ahead(world, top, names, p, depth) == Err::<
                    Seq<FoundModel>,
                    SelectFailure,
                >(SelectFailure::Unreadable);
                let k = choose|k: int|
                    0 <= k < rest.len() - 1 && lost_at(world, next, rest, k, unreadable) && (
                    unreadable || files_ahead(world, top, names, p, depth) == Err::<
                        Seq<FoundModel>,
                        SelectFailure,
                    >(SelectFailure::NoDirectory { piece: rest[k] }));
                assert(names.take(k + 2).drop_first() =~= rest.take(k + 1));
                assert(names.take(k + 2)[0] == names[0]);
                assert(names[k + 1] == rest[k]);
                assert(lost_at(world, top, names, k + 1, unreadable));
            },
        },
    }
}

/// What stands for found files, and for directories to search, says all of them in their
/// order.
pub proof fn law_found_models(found: Seq<FoundFile>, pending: Seq<PendingDir>)
    ensures
        found_models(found).len() == found.len(),
        forall|i: int|
            0 <= i < found.len() ==> #[trigger] found_models(found)[i] == (FoundModel {
                path: found[i].path@,
                hash: found[i].hash@,
                size: found[i].size,
            }),
        pending_models(pending).len() == pending.len(),
        forall|i: int|
            0 <= i < pending.len() ==> #[trigger] pending_models(pending)[i] == (
                pending[i].path@,
                pending[i].hash@,
            ),
{
}

/// What stands for a selection says all of it: its path, what it wants to read, and what it
/// has found. A navigator has ahead what it has not passed of its pieces, in their order.
pub proof fn law_selection_models(selection: FileSelection, nav: Navigator, dir: Directory)
    requires
        nav.at <= nav.pieces@.len(),
    ensures
        match selection.path {
            Some(p) => selection.path_model() == Some(p@),
            None => selection.path_model() is None,
        },
        match selection.phase {
            SelectPhase::Root { hash } => selection.phase@.wanted() == Some(hash@),
            SelectPhase::OnTheWay { hash, .. } => selection.phase@.wanted() == Some(hash@),
            SelectPhase::Target { hash } => selection.phase@.wanted() == Some(hash@),
            SelectPhase::Below { collector, next } => {
                &&& selection.phase@.wanted() == Some(next.hash@)
                &&& selection.phase@ == (SelectModel::Below {
                    found: found_models(collector.found@),
                    pending: pending_models(collector.pending@),
                    next: (next.path@, next.hash@),
                })
            },
            SelectPhase::Done { files } => selection.phase@.wanted() is None && selection.phase@
                == (SelectModel::Done { files: found_models(files@) }),
            SelectPhase::Failed { error } => selection.phase@.wanted() is None && (
            selection.phase@ matches SelectModel::Failed { error: e } && match error {
                SelectError::Unreadable => e == SelectFailure::Unreadable,
                SelectError::NoDirectory { piece } => e == (SelectFailure::NoDirectory {
                    piece: piece@,
                }),
                SelectError::NotFound => e == SelectFailure::NotFound,
            }),
        },
        nav.ahead().len() == nav.pieces@.len() - nav.at,
        forall|i: int|
            0 <= i < nav.ahead().len() ==> #[trigger] nav.ahead()[i] == nav.pieces@[nav.at + i]@,
        dir_model(Some(&dir)) == Some(dir@),
        dir_model(None) is None,
{
}

} // verus!
