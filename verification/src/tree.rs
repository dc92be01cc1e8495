//! Directory trees: paths, navigation, and the files below a directory.
//!
//! A directory refers to its sub-directories by hash. Reading a directory is left
//! to the caller, who is told which one to read next.

use vstd::prelude::*;

use crate::sorted_map;
use crate::sorted_map::SortedMap;

verus! {

/// A file of a directory.
#[derive(Debug, Clone, Copy, PartialEq, Eq)]
pub struct FileRef {
    /// BLAKE3 hash of the contents.
    pub hash: [u8; 32],
    /// Length of the contents in bytes.
    pub size: u64,
}

/// A directory: its files, and the hashes of its sub-directories, by name.
#[derive(Debug, PartialEq, Eq)]
pub struct Directory {
    pub files: SortedMap<String, FileRef>,
    pub dirs: SortedMap<String, [u8; 32]>,
}

/// A file below a directory.
#[derive(Debug, PartialEq, Eq)]
pub struct FoundFile {
    /// The path from the directory where the search began.
    pub path: String,
    pub hash: [u8; 32],
    pub size: u64,
}

/// What a `Directory` stands for: its files and sub-directories in the order of
/// their names.
#[verifier::ext_equal]
pub struct DirModel {
    pub files: Seq<(Seq<char>, FileRef)>,
    pub dirs: Seq<(Seq<char>, Seq<u8>)>,
}

/// What a `FoundFile` stands for.
pub struct FoundModel {
    pub path: Seq<char>,
    pub hash: Seq<u8>,
    pub size: u64,
}

impl View for Directory {
    type V = DirModel;

    open spec fn view(&self) -> DirModel {
        DirModel { files: self.files.pairs(), dirs: dir_refs(self.dirs.pairs()) }
    }
}

impl View for FoundFile {
    type V = FoundModel;

    open spec fn view(&self) -> FoundModel {
        FoundModel { path: self.path@, hash: self.hash@, size: self.size }
    }
}

/// The names and hashes of sub-directories.
pub open spec fn dir_refs(pairs: Seq<(Seq<char>, [u8; 32])>) -> Seq<(Seq<char>, Seq<u8>)> {
    Seq::new(pairs.len(), |i: int| (pairs[i].0, pairs[i].1@))
}

/// The models of a list of files.
pub open spec fn found_models(v: Seq<FoundFile>) -> Seq<FoundModel> {
    Seq::new(v.len(), |i: int| v[i]@)
}

impl Directory {
    /// A directory with nothing in it.
    pub fn new() -> (r: Self)
        ensures
            r@ == (DirModel { files: Seq::empty(), dirs: Seq::empty() }),
    {
        let r = Directory { files: SortedMap::new(), dirs: SortedMap::new() };
        assert(r@ =~= (DirModel { files: Seq::empty(), dirs: Seq::empty() }));
        r
    }
}

/// The pieces of a path that has been read up to `s`, where `piece` is the
/// beginning of the current piece. Empty pieces do not count.
pub open spec fn pieces_from(s: Seq<char>, piece: Seq<char>) -> Seq<Seq<char>>
    decreases s.len(),
{
    if s.len() == 0 {
        if piece.len() > 0 {
            seq![piece]
        } else {
            Seq::empty()
        }
    } else if s[0] == '/' {
        (if piece.len() > 0 {
            seq![piece]
        } else {
            Seq::empty()
        }) + pieces_from(s.drop_first(), Seq::empty())
    } else {
        pieces_from(s.drop_first(), piece.push(s[0]))
    }
}

/// The pieces of a path: what stands between its slashes, without the empty ones.
pub open spec fn pieces(s: Seq<char>) -> Seq<Seq<char>> {
    pieces_from(s, Seq::empty())
}

/// What stands after the last slash of a path.
pub open spec fn last_piece(s: Seq<char>) -> Seq<char>
    decreases s.len(),
{
    if s.len() == 0 || s.last() == '/' {
        Seq::empty()
    } else {
        last_piece(s.drop_last()).push(s.last())
    }
}

/// Splits a path into its pieces.
pub fn path_pieces(path: &str) -> (r: Vec<String>)
    ensures
        crate::local::texts(r@) == pieces(path@),
{
    let mut r: Vec<String> = Vec::new();
    let mut start: usize = 0;
    let mut i: usize = 0;
    let n: usize = path.unicode_len();
    proof {
        assert(path@.skip(0) =~= path@);
        assert(path@.subrange(0, 0) =~= Seq::<char>::empty());
        assert(crate::local::texts(r@) + pieces(path@) =~= pieces(path@));
    }
    for c in it: path.chars()
        invariant
            it.seq() == path@,
            n == path@.len(),
            i == it.index(),
            start <= i <= n,
            crate::local::texts(r@) + pieces_from(
                path@.skip(i as int),
                path@.subrange(start as int, i as int),
            ) == pieces(path@),
    {
        proof {
            assert(path@.skip(i as int).drop_first() =~= path@.skip(i + 1));
            assert(path@.subrange(start as int, i as int).push(c) =~= path@.subrange(
                start as int,
                i + 1,
            ));
            assert(path@.subrange(i + 1, i + 1) =~= Seq::<char>::empty());
        }
        if c == '/' {
            let ghost before = crate::local::texts(r@);
            if start < i {
                r.push(String::from_str(path.substring_char(start, i)));
                assert(crate::local::texts(r@) =~= before.push(
                    path@.subrange(start as int, i as int),
                ));
            }
            proof {
                let rest = pieces_from(path@.skip(i + 1), Seq::empty());
                let piece = path@.subrange(start as int, i as int);
                if start < i {
                    assert(before + (seq![piece] + rest) =~= before.push(piece) + rest);
                } else {
                    assert(Seq::<Seq<char>>::empty() + rest =~= rest);
                }
            }
            start = i + 1;
        }
        i = i + 1;
    }
    let ghost before = crate::local::texts(r@);
    if start < n {
        r.push(String::from_str(path.substring_char(start, n)));
        assert(crate::local::texts(r@) =~= before.push(path@.subrange(start as int, n as int)));
        assert(before + seq![path@.subrange(start as int, n as int)] =~= crate::local::texts(r@));
    } else {
        assert(before + Seq::<Seq<char>>::empty() =~= before);
    }
    r
}

/// What stands after the last slash of a path.
pub fn file_name(path: &str) -> (r: String)
    ensures
        r@ == last_piece(path@),
{
    let mut start: usize = 0;
    let mut i: usize = 0;
    let n: usize = path.unicode_len();
    for c in it: path.chars()
        invariant
            it.seq() == path@,
            n == path@.len(),
            i == it.index(),
            start <= i <= n,
            last_piece(path@.take(i as int)) == path@.subrange(start as int, i as int),
    {
        proof {
            let taken = path@.take(i + 1);
            assert(taken.drop_last() =~= path@.take(i as int));
            assert(taken.last() == c);
            assert(path@.subrange(start as int, i as int).push(c) =~= path@.subrange(
                start as int,
                i + 1,
            ));
            assert(path@.subrange(i + 1, i + 1) =~= Seq::<char>::empty());
        }
        if c == '/' {
            start = i + 1;
        }
        i = i + 1;
    }
    assert(path@.take(n as int) =~= path@);
    String::from_str(path.substring_char(start, n))
}

/// The path of `name` in the directory `prefix`.
pub open spec fn joined(prefix: Seq<char>, name: Seq<char>) -> Seq<char> {
    if prefix.len() == 0 {
        name
    } else {
        prefix + "/"@ + name
    }
}

/// The path of `name` in the directory `prefix`.
pub fn join_path(prefix: &str, name: &str) -> (r: String)
    ensures
        r@ == joined(prefix@, name@),
        prefix@.len() == 0 ==> r@ == name@,
        prefix@.len() > 0 ==> r@ == prefix@ + seq!['/'] + name@,
{
    proof {
        reveal_strlit("/");
        assert("/"@ =~= seq!['/']);
    }
    if prefix.is_empty() {
        String::from_str(name)
    } else {
        let mut r = String::from_str(prefix);
        r.append("/");
        r.append(name);
        r
    }
}

/// The hash of the sub-directory `name`.
pub open spec fn dir_named(dir: DirModel, name: Seq<char>) -> Option<Seq<u8>> {
    if sorted_map::has_key(dir.dirs, name) {
        Some(sorted_map::value_of(dir.dirs, name))
    } else {
        None
    }
}

/// The file `name`.
pub open spec fn file_named(dir: DirModel, name: Seq<char>) -> Option<FileRef> {
    if sorted_map::has_key(dir.files, name) {
        Some(sorted_map::value_of(dir.files, name))
    } else {
        None
    }
}

impl Directory {
    /// The hash of the sub-directory `name`.
    pub fn dir(&self, name: &str) -> (r: Option<[u8; 32]>)
        ensures
            match r {
                Some(h) => dir_named(self@, name@) == Some(h@),
                None => dir_named(self@, name@) is None,
            },
            r == (if self.dirs@.contains_key(name@) {
                Some(self.dirs@[name@])
            } else {
                None
            }),
    {
        let found = self.dirs.get_str(name);
        let ghost pairs = self.dirs.pairs();
        let ghost refs = dir_refs(pairs);
        proof {
            if sorted_map::has_key(pairs, name@) {
                let i = sorted_map::lemma_key_has_position(pairs, name@);
                sorted_map::lemma_pair_in_map::<String, [u8; 32]>(pairs, i);
                assert(refs[i].0 == name@);
                let j = sorted_map::lemma_key_has_position(refs, name@);
                let k = choose|k: int| 0 <= k < refs.len() && (#[trigger] refs[k]).0 == name@;
                assert(pairs[k].0 == name@);
                sorted_map::lemma_position_unique::<String, [u8; 32]>(pairs, i, k);
            } else if sorted_map::has_key(refs, name@) {
                let i = sorted_map::lemma_key_has_position(refs, name@);
                assert(pairs[i].0 == name@);
            }
        }
        match found {
            Some(h) => Some(*h),
            None => None,
        }
    }

    /// The file `name`.
    pub fn file(&self, name: &str) -> (r: Option<FileRef>)
        ensures
            r == file_named(self@, name@),
            r == (if self.files@.contains_key(name@) {
                Some(self.files@[name@])
            } else {
                None
            }),
    {
        match self.files.get_str(name) {
            Some(f) => Some(*f),
            None => None,
        }
    }
}

/// On the way through a directory tree to the directory that holds a path.
/// For "a/b/c" that is "a/b", for "file.txt" it is the root.
#[derive(Debug, PartialEq, Eq)]
pub struct Navigator {
    /// The pieces of the path.
    pub pieces: Vec<String>,
    /// How many of them have been passed.
    pub at: usize,
}

/// What to do on the way to a directory.
#[derive(Debug, PartialEq, Eq)]
pub enum NavStep {
    /// The directory at hand is the one that was looked for.
    Arrived,
    /// The directory with this hash, named by this piece of the path, is next.
    Enter { piece: String, hash: [u8; 32] },
    /// The directory at hand has no sub-directory of this name.
    Missing { piece: String },
}

impl Navigator {
    /// Begins at the root.
    pub fn new(path: &str) -> (r: Self)
        ensures
            crate::local::texts(r.pieces@) == pieces(path@),
            r.at == 0,
    {
        Navigator { pieces: path_pieces(path), at: 0 }
    }

    /// The pieces that are still ahead.
    pub open spec fn ahead(&self) -> Seq<Seq<char>> {
        crate::local::texts(self.pieces@).skip(self.at as int)
    }

    /// Goes one step on from the directory `current`.
    pub fn step(&mut self, current: &Directory) -> (r: NavStep)
        requires
            old(self).at <= old(self).pieces@.len(),
        ensures
            final(self).pieces == old(self).pieces,
            match r {
                NavStep::Arrived => old(self).ahead().len() <= 1 && final(self).at == old(self).at,
                NavStep::Enter { piece, hash } => {
                    &&& old(self).ahead().len() > 1
                    &&& piece@ == old(self).ahead()[0]
                    &&& dir_named(current@, piece@) == Some(hash@)
                    &&& current.dirs@.contains_key(piece@) && hash == current.dirs@[piece@]
                    &&& final(self).at == old(self).at + 1
                    &&& final(self).at <= final(self).pieces@.len()
                },
                NavStep::Missing { piece } => {
                    &&& old(self).ahead().len() > 1
                    &&& piece@ == old(self).ahead()[0]
                    &&& dir_named(current@, piece@) is None
                    &&& !current.dirs@.contains_key(piece@)
                    &&& final(self).at == old(self).at
                },
            },
    {
        if self.pieces.len() - self.at <= 1 {
            return NavStep::Arrived;
        }
        let piece = self.pieces[self.at].clone();
        match current.dir(piece.as_str()) {
            Some(hash) => {
                self.at = self.at + 1;
                NavStep::Enter { piece, hash }
            },
            None => NavStep::Missing { piece },
        }
    }
}

/// The directory that holds the path of these pieces, below `dir`, where `world`
/// gives the directory of each hash. `None` where there is no such directory.
pub open spec fn parent_dir(
    world: spec_fn(Seq<u8>) -> Option<DirModel>,
    dir: DirModel,
    ahead: Seq<Seq<char>>,
) -> Option<DirModel>
    decreases ahead.len(),
{
    if ahead.len() <= 1 {
        Some(dir)
    } else {
        match dir_named(dir, ahead[0]) {
            Some(hash) => match world(hash) {
                Some(next) => parent_dir(world, next, ahead.drop_first()),
                None => None,
            },
            None => None,
        }
    }
}

/// Each step of a navigator keeps the directory that it leads to.
pub proof fn law_navigator_leads_to_parent(
    world: spec_fn(Seq<u8>) -> Option<DirModel>,
    dir: DirModel,
    nav: Navigator,
)
    requires
        nav.at <= nav.pieces@.len(),
    ensures
        nav.ahead().len() <= 1 ==> parent_dir(world, dir, nav.ahead()) == Some(dir),
        nav.ahead().len() > 1 && dir_named(dir, nav.ahead()[0]) is None ==> parent_dir(
            world,
            dir,
            nav.ahead(),
        ) is None,
        nav.ahead().len() > 1 ==> (dir_named(dir, nav.ahead()[0]) matches Some(hash) ==> parent_dir(
            world,
            dir,
            nav.ahead(),
        ) == match world(hash) {
            Some(next) => parent_dir(
                world,
                next,
                (Navigator { pieces: nav.pieces, at: (nav.at + 1) as usize }).ahead(),
            ),
            None => None,
        }),
{
    if nav.ahead().len() > 1 {
        let later = Navigator { pieces: nav.pieces, at: (nav.at + 1) as usize };
        let n: nat = nav.pieces@.len();
        assert(crate::local::texts(nav.pieces@).len() == n);
        assert(nav.at + 1 <= usize::MAX) by {
            assert(nav.at + 1 < n);
            assert(nav.pieces.len() == n);
        }
        assert(nav.ahead().drop_first() =~= later.ahead());
    }
}

/// What a path names in the directory that holds it.
#[derive(Debug, PartialEq, Eq)]
pub enum PathTarget {
    File(FoundFile),
    Dir([u8; 32]),
    Missing,
}

/// Finds what a path names in the directory that holds it: a file of that name, or
/// else a directory.
pub fn path_target(parent: &Directory, path: &str) -> (r: PathTarget)
    ensures
        match r {
            PathTarget::File(found) => {
                &&& file_named(parent@, last_piece(path@)) matches Some(f) && found.hash == f.hash
                    && found.size == f.size
                &&& found.path@ == path@
                &&& parent.files@.contains_key(last_piece(path@))
                &&& found.hash == parent.files@[last_piece(path@)].hash
                &&& found.size == parent.files@[last_piece(path@)].size
            },
            PathTarget::Dir(hash) => {
                &&& !parent.files@.contains_key(last_piece(path@))
                &&& parent.dirs@.contains_key(last_piece(path@))
                &&& hash == parent.dirs@[last_piece(path@)]
                &&& file_named(parent@, last_piece(path@)) is None
                &&& dir_named(parent@, last_piece(path@)) == Some(hash@)
            },
            PathTarget::Missing => {
                &&& !parent.files@.contains_key(last_piece(path@))
                &&& !parent.dirs@.contains_key(last_piece(path@))
                &&& file_named(parent@, last_piece(path@)) is None
                &&& dir_named(parent@, last_piece(path@)) is None
            },
        },
{
    let name = file_name(path);
    match parent.file(name.as_str()) {
        Some(f) => PathTarget::File(
            FoundFile { path: String::from_str(path), hash: f.hash, size: f.size },
        ),
        None => match parent.dir(name.as_str()) {
            Some(hash) => PathTarget::Dir(hash),
            None => PathTarget::Missing,
        },
    }
}

/// A directory that is still to be searched.
#[derive(Debug, PartialEq, Eq)]
pub struct PendingDir {
    pub path: String,
    pub hash: [u8; 32],
}

/// What a list of directories to search stands for.
pub open spec fn pending_models(v: Seq<PendingDir>) -> Seq<(Seq<char>, Seq<u8>)> {
    Seq::new(v.len(), |i: int| (v[i].path@, v[i].hash@))
}

/// Collects the files below a directory: those of the directory itself, and then
/// those below each of its sub-directories in turn. A sub-directory that cannot be
/// read is passed over.
#[derive(Debug, PartialEq, Eq)]
pub struct FileCollector {
    /// The directories still to be searched, the next one last.
    pub pending: Vec<PendingDir>,
    /// The files found so far.
    pub found: Vec<FoundFile>,
}

/// The files of a directory itself.
pub open spec fn own_files(dir: DirModel, prefix: Seq<char>) -> Seq<FoundModel> {
    Seq::new(
        dir.files.len(),
        |i: int|
            FoundModel {
                path: joined(prefix, dir.files[i].0),
                hash: dir.files[i].1.hash@,
                size: dir.files[i].1.size,
            },
    )
}

/// The sub-directories of a directory.
pub open spec fn own_dirs(dir: DirModel, prefix: Seq<char>) -> Seq<(Seq<char>, Seq<u8>)> {
    Seq::new(dir.dirs.len(), |i: int| (joined(prefix, dir.dirs[i].0), dir.dirs[i].1))
}

impl FileCollector {
    /// Begins with nothing to search.
    pub fn new() -> (r: Self)
        ensures
            r.pending@.len() == 0,
            r.found@.len() == 0,
    {
        FileCollector { pending: Vec::new(), found: Vec::new() }
    }

    /// Takes the files of a directory whose path is `prefix`, and notes its
    /// sub-directories, so that the first of them comes next.
    pub fn enter(&mut self, dir: &Directory, prefix: &str)
        ensures
            found_models(final(self).found@) == found_models(old(self).found@) + own_files(
                dir@,
                prefix@,
            ),
            pending_models(final(self).pending@) == pending_models(old(self).pending@) + own_dirs(
                dir@,
                prefix@,
            ).reverse(),
            final(self).found@.len() == old(self).found@.len() + dir.files.pairs().len(),
            forall|i: int|
                0 <= i < old(self).found@.len() ==> ({
                    let f = #[trigger] final(self).found@[i];
                    let g = old(self).found@[i];
                    f.path@ == g.path@ && f.hash@ == g.hash@ && f.size == g.size
                }),
            forall|i: int|
                0 <= i < dir.files.pairs().len() ==> ({
                    let (name, file) = #[trigger] dir.files.pairs()[i];
                    let f = final(self).found@[old(self).found@.len() + i];
                    &&& f.hash@ == file.hash@
                    &&& f.size == file.size
                    &&& f.path@ == (if prefix@.len() == 0 {
                        name
                    } else {
                        prefix@ + seq!['/'] + name
                    })
                }),
            final(self).pending@.len() == old(self).pending@.len() + dir.dirs.pairs().len(),
            forall|i: int|
                0 <= i < old(self).pending@.len() ==> ({
                    let d = #[trigger] final(self).pending@[i];
                    let e = old(self).pending@[i];
                    d.path@ == e.path@ && d.hash@ == e.hash@
                }),
            forall|i: int|
                0 <= i < dir.dirs.pairs().len() ==> ({
                    let (name, hash) = #[trigger] dir.dirs.pairs()[i];
                    let d = final(self).pending@[final(self).pending@.len() - 1 - i];
                    &&& d.hash@ == hash@
                    &&& d.path@ == (if prefix@.len() == 0 {
                        name
                    } else {
                        prefix@ + seq!['/'] + name
                    })
                }),
    {
        let n: usize = dir.files.len();
        let mut i: usize = 0;
        let ghost files = own_files(dir@, prefix@);
        let ghost found0 = found_models(self.found@);
        assert(found_models(self.found@) =~= found0 + files.take(0));
        while i < n
            invariant
                i <= n == dir.files.pairs().len(),
                files == own_files(dir@, prefix@),
                self.pending == old(self).pending,
                found_models(self.found@) == found0 + files.take(i as int),
            decreases n - i,
        {
            let (name, f) = dir.files.entry(i);
            let ghost before = self.found@;
            self.found.push(
                FoundFile {
                    path: join_path(prefix, name.as_str()),
                    hash: f.hash,
                    size: f.size,
                },
            );
            proof {
                assert(found_models(self.found@) =~= found_models(before).push(files[i as int]));
                assert(files.take(i + 1) =~= files.take(i as int).push(files[i as int]));
                assert(found0 + files.take(i + 1) =~= (found0 + files.take(i as int)).push(
                    files[i as int],
                ));
            }
            i = i + 1;
        }
        assert(files.take(n as int) =~= files);
        let m: usize = dir.dirs.len();
        let mut k: usize = m;
        let ghost back = own_dirs(dir@, prefix@).reverse();
        let ghost pending0 = pending_models(self.pending@);
        assert(pending_models(self.pending@) =~= pending0 + back.take(0));
        while k > 0
            invariant
                k <= m == dir.dirs.pairs().len(),
                back == own_dirs(dir@, prefix@).reverse(),
                back.len() == m,
                found_models(self.found@) == found0 + own_files(dir@, prefix@),
                pending_models(self.pending@) == pending0 + back.take(m - k),
            decreases k,
        {
            k = k - 1;
            let (name, hash) = dir.dirs.entry(k);
            let ghost before = self.pending@;
            let ghost j = m - k - 1;
            self.pending.push(PendingDir { path: join_path(prefix, name.as_str()), hash: *hash });
            proof {
                assert(back[j] == own_dirs(dir@, prefix@)[k as int]);
                assert(pending_models(self.pending@) =~= pending_models(before).push(back[j]));
                assert(back.take(j + 1) =~= back.take(j).push(back[j]));
                assert(pending0 + back.take(j + 1) =~= (pending0 + back.take(j)).push(back[j]));
            }
        }
        assert(back.take(m as int) =~= back);
        proof {
            reveal_strlit("/");
            assert("/"@ =~= seq!['/']);
            let own = own_files(dir@, prefix@);
            let dirs = own_dirs(dir@, prefix@);
            assert forall|i: int| 0 <= i < old(self).found@.len() implies (
            #[trigger] self.found@[i])@ == old(self).found@[i]@ by {
                assert(found_models(self.found@)[i] == found0[i]);
            }
            assert forall|i: int| 0 <= i < own.len() implies self.found@[old(self).found@.len()
                + i]@ == #[trigger] own[i] by {
                assert(found_models(self.found@)[old(self).found@.len() + i] == own[i]);
            }
            assert forall|i: int| 0 <= i < dir.files.pairs().len() implies ({
                let (name, file) = #[trigger] dir.files.pairs()[i];
                let f = self.found@[old(self).found@.len() + i];
                f@ == (FoundModel {
                    path: joined(prefix@, name),
                    hash: file.hash@,
                    size: file.size,
                })
            }) by {
                assert(own[i].size == dir.files.pairs()[i].1.size);
            }
            assert forall|i: int| 0 <= i < old(self).pending@.len() implies (
            #[trigger] self.pending@[i]).path@ == old(self).pending@[i].path@
                && self.pending@[i].hash@ == old(self).pending@[i].hash@ by {
                assert(pending_models(self.pending@)[i] == pending0[i]);
            }
            assert forall|i: int| 0 <= i < dir.dirs.pairs().len() implies ({
                let (name, hash) = #[trigger] dir.dirs.pairs()[i];
                let d = self.pending@[self.pending@.len() - 1 - i];
                d.path@ == joined(prefix@, name) && d.hash@ == hash@
            }) by {
                let k = self.pending@.len() - 1 - i;
                assert(pending_models(self.pending@)[k] == back[m - 1 - i]);
                assert(back[m - 1 - i] == dirs[i]);
            }
        }
    }

    /// The directory to search next.
    pub fn next(&mut self) -> (r: Option<PendingDir>)
        ensures
            final(self).found == old(self).found,
            match r {
                Some(d) => old(self).pending@.len() > 0 && d == old(self).pending@.last()
                    && final(self).pending@ == old(self).pending@.drop_last(),
                None => old(self).pending@.len() == 0 && final(self).pending@
                    == old(self).pending@,
            },
    {
        self.pending.pop()
    }
}

/// All files below the directory with this hash and path, where `world` gives the
/// directory of each hash, and no directory is nested more than `depth` deep.
pub open spec fn files_at(
    world: spec_fn(Seq<u8>) -> Option<DirModel>,
    path: Seq<char>,
    hash: Seq<u8>,
    depth: nat,
) -> Seq<FoundModel>
    decreases depth, 0int, 0int,
{
    if depth == 0 {
        Seq::empty()
    } else {
        match world(hash) {
            Some(dir) => files_below(world, dir, path, (depth - 1) as nat),
            None => Seq::empty(),
        }
    }
}

/// All files below a directory whose path is `prefix`.
pub open spec fn files_below(
    world: spec_fn(Seq<u8>) -> Option<DirModel>,
    dir: DirModel,
    prefix: Seq<char>,
    depth: nat,
) -> Seq<FoundModel>
    decreases depth, 2int, 0int,
{
    own_files(dir, prefix) + files_in_dirs(world, own_dirs(dir, prefix), depth)
}

/// All files below each of some directories, one directory after the other.
pub open spec fn files_in_dirs(
    world: spec_fn(Seq<u8>) -> Option<DirModel>,
    dirs: Seq<(Seq<char>, Seq<u8>)>,
    depth: nat,
) -> Seq<FoundModel>
    decreases depth, 1int, dirs.len(),
{
    if dirs.len() == 0 {
        Seq::empty()
    } else {
        files_at(world, dirs[0].0, dirs[0].1, depth) + files_in_dirs(
            world,
            dirs.drop_first(),
            depth,
        )
    }
}

/// Whether no directory below the one with this hash is nested more than `depth`
/// deep.
pub open spec fn nested_within(
    world: spec_fn(Seq<u8>) -> Option<DirModel>,
    hash: Seq<u8>,
    depth: nat,
) -> bool
    decreases depth,
{
    match world(hash) {
        Some(dir) => depth > 0 && forall|i: int|
            0 <= i < dir.dirs.len() ==> nested_within(
                world,
                (#[trigger] dir.dirs[i]).1,
                (depth - 1) as nat,
            ),
        None => true,
    }
}

/// What is found does not change when deeper nesting is allowed than there is.
proof fn lemma_files_at_deeper(
    world: spec_fn(Seq<u8>) -> Option<DirModel>,
    path: Seq<char>,
    hash: Seq<u8>,
    depth: nat,
)
    requires
        nested_within(world, hash, depth),
    ensures
        files_at(world, path, hash, depth) == files_at(world, path, hash, depth + 1),
        nested_within(world, hash, depth + 1),
    decreases depth, 1int, 0int,
{
    match world(hash) {
        Some(dir) => {
            let dirs = own_dirs(dir, path);
            assert forall|i: int| 0 <= i < dirs.len() implies nested_within(
                world,
                (#[trigger] dirs[i]).1,
                (depth - 1) as nat,
            ) by {
                assert(dirs[i].1 == dir.dirs[i].1);
            }
            lemma_files_in_dirs_deeper(world, dirs, (depth - 1) as nat);
            assert forall|i: int| 0 <= i < dir.dirs.len() implies nested_within(
                world,
                (#[trigger] dir.dirs[i]).1,
                depth,
            ) by {
                lemma_files_at_deeper(world, path, dir.dirs[i].1, (depth - 1) as nat);
            }
        },
        None => {},
    }
}

/// What is found in several directories does not change when deeper nesting is
/// allowed than there is.
proof fn lemma_files_in_dirs_deeper(
    world: spec_fn(Seq<u8>) -> Option<DirModel>,
    dirs: Seq<(Seq<char>, Seq<u8>)>,
    depth: nat,
)
    requires
        forall|i: int|
            0 <= i < dirs.len() ==> nested_within(world, (#[trigger] dirs[i]).1, depth),
    ensures
        files_in_dirs(world, dirs, depth) == files_in_dirs(world, dirs, depth + 1),
    decreases depth, 2int, dirs.len(),
{
    if dirs.len() > 0 {
        assert(nested_within(world, dirs[0].1, depth));
        lemma_files_at_deeper(world, dirs[0].0, dirs[0].1, depth);
        let rest = dirs.drop_first();
        assert forall|i: int| 0 <= i < rest.len() implies nested_within(
            world,
            (#[trigger] rest[i]).1,
            depth,
        ) by {
            assert(rest[i] == dirs[i + 1]);
        }
        lemma_files_in_dirs_deeper(world, rest, depth);
    }
}

/// What is found in some directories and then in others.
proof fn lemma_files_in_dirs_add(
    world: spec_fn(Seq<u8>) -> Option<DirModel>,
    a: Seq<(Seq<char>, Seq<u8>)>,
    b: Seq<(Seq<char>, Seq<u8>)>,
    depth: nat,
)
    ensures
        files_in_dirs(world, a + b, depth) == files_in_dirs(world, a, depth) + files_in_dirs(
            world,
            b,
            depth,
        ),
    decreases a.len(),
{
    if a.len() == 0 {
        assert(a + b =~= b);
        assert(Seq::<FoundModel>::empty() + files_in_dirs(world, b, depth) =~= files_in_dirs(
            world,
            b,
            depth,
        ));
    } else {
        lemma_files_in_dirs_add(world, a.drop_first(), b, depth);
        assert((a + b).drop_first() =~= a.drop_first() + b);
        let x = files_at(world, a[0].0, a[0].1, depth);
        let y = files_in_dirs(world, a.drop_first(), depth);
        let z = files_in_dirs(world, b, depth);
        assert(x + (y + z) =~= x + y + z);
    }
}

/// What a collector will have found in the end: what it has found, and what is below
/// the directories that it has still to search.
pub open spec fn will_find(
    world: spec_fn(Seq<u8>) -> Option<DirModel>,
    found: Seq<FoundModel>,
    pending: Seq<(Seq<char>, Seq<u8>)>,
    depth: nat,
) -> Seq<FoundModel> {
    found + files_in_dirs(world, pending.reverse(), depth)
}

/// A collector that enters a directory will find all files below it, and a step of
/// a collector does not change what it will have found in the end: taking the next
/// directory and entering it, or passing over it where it cannot be read. In the
/// end it has found all files below the directory that it entered first, each once,
/// in order.
#[verifier::rlimit(60)]
#[verifier::spinoff_prover]
pub proof fn law_collector_finds_all(
    world: spec_fn(Seq<u8>) -> Option<DirModel>,
    dir: DirModel,
    prefix: Seq<char>,
    found: Seq<FoundModel>,
    pending: Seq<(Seq<char>, Seq<u8>)>,
    depth: nat,
)
    requires
        forall|i: int|
            0 <= i < pending.len() ==> nested_within(world, (#[trigger] pending[i]).1, depth),
    ensures
        will_find(world, own_files(dir, prefix), own_dirs(dir, prefix).reverse(), depth)
            == files_below(world, dir, prefix, depth),
        pending.len() > 0 ==> ({
            let (path, hash) = pending.last();
            will_find(world, found, pending, depth) == match world(hash) {
                Some(d) => will_find(
                    world,
                    found + own_files(d, path),
                    pending.drop_last() + own_dirs(d, path).reverse(),
                    depth,
                ),
                None => will_find(world, found, pending.drop_last(), depth),
            }
        }),
        pending.len() > 0 ==> (world(pending.last().1) matches Some(d) ==> forall|i: int|
            0 <= i < d.dirs.len() ==> nested_within(world, (#[trigger] d.dirs[i]).1, depth)),
        pending.len() == 0 ==> will_find(world, found, pending, depth) == found,
{
    assert(own_dirs(dir, prefix).reverse().reverse() =~= own_dirs(dir, prefix));
    if pending.len() > 0 {
        let (path, hash) = pending.last();
        let rest = pending.drop_last();
        assert(nested_within(world, pending[pending.len() - 1].1, depth));
        assert(pending.reverse() =~= seq![(path, hash)] + rest.reverse());
        assert(pending.reverse().drop_first() =~= rest.reverse());
        let after = files_in_dirs(world, rest.reverse(), depth);
        assert(pending.reverse()[0] == (path, hash));
        assert(files_in_dirs(world, pending.reverse(), depth) == files_at(world, path, hash, depth)
            + after);
        match world(hash) {
            Some(d) => {
                let own = own_dirs(d, path);
                assert((rest + own.reverse()).reverse() =~= own + rest.reverse());
                lemma_files_in_dirs_add(world, own, rest.reverse(), depth);
                assert forall|i: int| 0 <= i < own.len() implies nested_within(
                    world,
                    (#[trigger] own[i]).1,
                    (depth - 1) as nat,
                ) by {
                    assert(own[i].1 == d.dirs[i].1);
                }
                lemma_files_in_dirs_deeper(world, own, (depth - 1) as nat);
                assert forall|i: int| 0 <= i < d.dirs.len() implies nested_within(
                    world,
                    (#[trigger] d.dirs[i]).1,
                    depth,
                ) by {
                    lemma_files_at_deeper(world, path, d.dirs[i].1, (depth - 1) as nat);
                }
                assert(files_at(world, path, hash, depth) == files_below(
                    world,
                    d,
                    path,
                    (depth - 1) as nat,
                ));
                assert(found + (own_files(d, path) + files_in_dirs(world, own, depth) + after)
                    =~= found + own_files(d, path) + (files_in_dirs(world, own, depth) + after));
            },
            None => {
                assert(Seq::<FoundModel>::empty() + after =~= after);
            },
        }
    } else {
        assert(pending.reverse() =~= Seq::<(Seq<char>, Seq<u8>)>::empty());
        assert(found + Seq::<FoundModel>::empty() =~= found);
    }
}

/// How many directories are read when all below the directory with this hash and path are
/// searched, itself counted.
pub open spec fn searches_at(
    world: spec_fn(Seq<u8>) -> Option<DirModel>,
    path: Seq<char>,
    hash: Seq<u8>,
    depth: nat,
) -> nat
    decreases depth, 0int, 0int,
{
    if depth == 0 {
        1
    } else {
        match world(hash) {
            Some(dir) => 1 + searches_in(world, own_dirs(dir, path), (depth - 1) as nat),
            None => 1,
        }
    }
}

/// How many directories are read when all below some directories are searched, themselves
/// counted.
pub open spec fn searches_in(
    world: spec_fn(Seq<u8>) -> Option<DirModel>,
    dirs: Seq<(Seq<char>, Seq<u8>)>,
    depth: nat,
) -> nat
    decreases depth, 1int, dirs.len(),
{
    if dirs.len() == 0 {
        0
    } else {
        searches_at(world, dirs[0].0, dirs[0].1, depth) + searches_in(
            world,
            dirs.drop_first(),
            depth,
        )
    }
}

/// How much is read does not change when deeper nesting is allowed than there is.
proof fn lemma_searches_at_deeper(
    world: spec_fn(Seq<u8>) -> Option<DirModel>,
    path: Seq<char>,
    hash: Seq<u8>,
    depth: nat,
)
    requires
        nested_within(world, hash, depth),
    ensures
        searches_at(world, path, hash, depth) == searches_at(world, path, hash, depth + 1),
    decreases depth, 1int, 0int,
{
    match world(hash) {
        Some(dir) => {
            let dirs = own_dirs(dir, path);
            assert forall|i: int| 0 <= i < dirs.len() implies nested_within(
                world,
                (#[trigger] dirs[i]).1,
                (depth - 1) as nat,
            ) by {
                assert(dirs[i].1 == dir.dirs[i].1);
            }
            lemma_searches_in_deeper(world, dirs, (depth - 1) as nat);
        },
        None => {},
    }
}

/// How much is read below several directories does not change when deeper nesting is
/// allowed than there is.
proof fn lemma_searches_in_deeper(
    world: spec_fn(Seq<u8>) -> Option<DirModel>,
    dirs: Seq<(Seq<char>, Seq<u8>)>,
    depth: nat,
)
    requires
        forall|i: int|
            0 <= i < dirs.len() ==> nested_within(world, (#[trigger] dirs[i]).1, depth),
    ensures
        searches_in(world, dirs, depth) == searches_in(world, dirs, depth + 1),
    decreases depth, 2int, dirs.len(),
{
    if dirs.len() > 0 {
        assert(nested_within(world, dirs[0].1, depth));
        lemma_searches_at_deeper(world, dirs[0].0, dirs[0].1, depth);
        let rest = dirs.drop_first();
        assert forall|i: int| 0 <= i < rest.len() implies nested_within(
            world,
            (#[trigger] rest[i]).1,
            depth,
        ) by {
            assert(rest[i] == dirs[i + 1]);
        }
        lemma_searches_in_deeper(world, rest, depth);
    }
}

/// How much is read below some directories and then below others.
proof fn lemma_searches_in_add(
    world: spec_fn(Seq<u8>) -> Option<DirModel>,
    a: Seq<(Seq<char>, Seq<u8>)>,
    b: Seq<(Seq<char>, Seq<u8>)>,
    depth: nat,
)
    ensures
        searches_in(world, a + b, depth) == searches_in(world, a, depth) + searches_in(
            world,
            b,
            depth,
        ),
    decreases a.len(),
{
    if a.len() == 0 {
        assert(a + b =~= b);
    } else {
        lemma_searches_in_add(world, a.drop_first(), b, depth);
        assert((a + b).drop_first() =~= a.drop_first() + b);
    }
}

/// Searching one directory leaves one fewer to read.
proof fn lemma_searches_step(
    world: spec_fn(Seq<u8>) -> Option<DirModel>,
    pending: Seq<(Seq<char>, Seq<u8>)>,
    depth: nat,
)
    requires
        pending.len() > 0,
        nested_within(world, pending.last().1, depth),
    ensures
        ({
            let (path, hash) = pending.last();
            let after = match world(hash) {
                Some(d) => pending.drop_last() + own_dirs(d, path).reverse(),
                None => pending.drop_last(),
            };
            searches_in(world, pending.reverse(), depth) == 1 + searches_in(
                world,
                after.reverse(),
                depth,
            )
        }),
{
    let (path, hash) = pending.last();
    let rest = pending.drop_last();
    assert(pending.reverse().drop_first() =~= rest.reverse());
    assert(pending.reverse()[0] == (path, hash));
    assert(searches_in(world, pending.reverse(), depth) == searches_at(world, path, hash, depth)
        + searches_in(world, rest.reverse(), depth));
    match world(hash) {
        Some(d) => {
            let own = own_dirs(d, path);
            assert((rest + own.reverse()).reverse() =~= own + rest.reverse());
            assert(depth > 0);
            assert(searches_at(world, path, hash, depth) == 1 + searches_in(
                world,
                own,
                (depth - 1) as nat,
            ));
            lemma_searches_in_add(world, own, rest.reverse(), depth);
            assert forall|i: int| 0 <= i < own.len() implies nested_within(
                world,
                (#[trigger] own[i]).1,
                (depth - 1) as nat,
            ) by {
                assert(own[i].1 == d.dirs[i].1);
            }
            lemma_searches_in_deeper(world, own, (depth - 1) as nat);
        },
        None => {
            assert(searches_at(world, path, hash, depth) == 1);
        },
    }
}

/// Where anything is left to search, something is left to read.
proof fn lemma_searches_some(
    world: spec_fn(Seq<u8>) -> Option<DirModel>,
    pending: Seq<(Seq<char>, Seq<u8>)>,
    depth: nat,
)
    ensures
        pending.len() > 0 ==> searches_in(world, pending.reverse(), depth) > 0,
        pending.len() == 0 ==> searches_in(world, pending.reverse(), depth) == 0,
{
    if pending.len() > 0 {
        let first = pending.reverse()[0];
        assert(searches_at(world, first.0, first.1, depth) >= 1);
    }
}

/// What a collector has found, and what it has still to search, after it has entered `dir`
/// and then taken `n` directories.
pub open spec fn after_taking(
    world: spec_fn(Seq<u8>) -> Option<DirModel>,
    dir: DirModel,
    prefix: Seq<char>,
    n: nat,
) -> (Seq<FoundModel>, Seq<(Seq<char>, Seq<u8>)>)
    decreases n,
{
    if n == 0 {
        (own_files(dir, prefix), own_dirs(dir, prefix).reverse())
    } else {
        let (found, pending) = after_taking(world, dir, prefix, (n - 1) as nat);
        if pending.len() == 0 {
            (found, pending)
        } else {
            let (path, hash) = pending.last();
            match world(hash) {
                Some(d) => (
                    found + own_files(d, path),
                    pending.drop_last() + own_dirs(d, path).reverse(),
                ),
                None => (found, pending.drop_last()),
            }
        }
    }
}

/// A collector as a whole: when nothing is left to search, it has found the files below the
/// directory that it entered first, each directory's own files before those below its
/// sub-directories. It comes to that once it has taken each directory below.
pub proof fn law_collector_as_a_whole(
    world: spec_fn(Seq<u8>) -> Option<DirModel>,
    dir: DirModel,
    prefix: Seq<char>,
    n: nat,
    depth: nat,
)
    requires
        forall|i: int|
            0 <= i < dir.dirs.len() ==> nested_within(world, (#[trigger] dir.dirs[i]).1, depth),
    ensures
        ({
            let (found, pending) = after_taking(world, dir, prefix, n);
            &&& forall|i: int|
                0 <= i < pending.len() ==> nested_within(world, (#[trigger] pending[i]).1, depth)
            &&& will_find(world, found, pending, depth) == files_below(world, dir, prefix, depth)
            &&& pending.len() == 0 ==> found == files_below(world, dir, prefix, depth)
            &&& pending.len() > 0 ==> searches_in(world, pending.reverse(), depth) + n
                == searches_in(world, own_dirs(dir, prefix), depth)
            &&& n >= searches_in(world, own_dirs(dir, prefix), depth) ==> pending.len() == 0
        }),
    decreases n,
{
    let (found, pending) = after_taking(world, dir, prefix, n);
    lemma_searches_some(world, pending, depth);
    if n == 0 {
        assert(pending.reverse() =~= own_dirs(dir, prefix));
        assert forall|i: int| 0 <= i < pending.len() implies nested_within(
            world,
            (#[trigger] pending[i]).1,
            depth,
        ) by {
            assert(pending[i].1 == dir.dirs[pending.len() - 1 - i].1);
        }
    } else {
        let (found0, pending0) = after_taking(world, dir, prefix, (n - 1) as nat);
        law_collector_as_a_whole(world, dir, prefix, (n - 1) as nat, depth);
        law_collector_finds_all(world, dir, prefix, found0, pending0, depth);
        if pending0.len() > 0 {
            let (path, hash) = pending0.last();
            let rest = pending0.drop_last();
            assert(nested_within(world, pending0[pending0.len() - 1].1, depth));
            lemma_searches_step(world, pending0, depth);
            assert forall|i: int| 0 <= i < pending.len() implies nested_within(
                world,
                (#[trigger] pending[i]).1,
                depth,
            ) by {
                if i < rest.len() {
                    assert(pending[i] == pending0[i]);
                } else if let Some(d) = world(hash) {
                    let own = own_dirs(d, path);
                    let j = own.len() - 1 - (i - rest.len());
                    assert(pending[i] == own[j]);
                    assert(own[j].1 == d.dirs[j].1);
                }
            }
        }
    }
    law_collector_finds_all(world, dir, prefix, found, pending, depth);
}

/// Why no files could be selected.
#[derive(Debug, PartialEq, Eq)]
pub enum SelectError {
    /// A directory on the way to the files could not be read.
    Unreadable,
    /// There is no directory of this name on the way.
    NoDirectory { piece: String },
    /// The path names neither a file nor a directory.
    NotFound,
}

/// What a `SelectError` stands for.
pub enum SelectFailure {
    Unreadable,
    NoDirectory { piece: Seq<char> },
    NotFound,
}

impl View for SelectError {
    type V = SelectFailure;

    open spec fn view(&self) -> SelectFailure {
        match self {
            SelectError::Unreadable => SelectFailure::Unreadable,
            SelectError::NoDirectory { piece } => SelectFailure::NoDirectory { piece: piece@ },
            SelectError::NotFound => SelectFailure::NotFound,
        }
    }
}

/// The files that a path names in the directory that holds it: the file of that name, or
/// else all files below the directory of that name.
pub open spec fn files_named(
    world: spec_fn(Seq<u8>) -> Option<DirModel>,
    parent: DirModel,
    path: Seq<char>,
    depth: nat,
) -> Result<Seq<FoundModel>, SelectFailure> {
    match file_named(parent, last_piece(path)) {
        Some(f) => Ok(seq![FoundModel { path, hash: f.hash@, size: f.size }]),
        None => match dir_named(parent, last_piece(path)) {
            Some(hash) => files_of_dir(world, hash, path, depth),
            None => Err(SelectFailure::NotFound),
        },
    }
}

/// All files below the directory with this hash, which has to be readable.
pub open spec fn files_of_dir(
    world: spec_fn(Seq<u8>) -> Option<DirModel>,
    hash: Seq<u8>,
    path: Seq<char>,
    depth: nat,
) -> Result<Seq<FoundModel>, SelectFailure> {
    match world(hash) {
        Some(dir) => Ok(files_below(world, dir, path, depth)),
        None => Err(SelectFailure::Unreadable),
    }
}

/// The files that a path names, from the directory `dir` on, with these pieces of the
/// path ahead.
pub open spec fn files_ahead(
    world: spec_fn(Seq<u8>) -> Option<DirModel>,
    dir: DirModel,
    ahead: Seq<Seq<char>>,
    path: Seq<char>,
    depth: nat,
) -> Result<Seq<FoundModel>, SelectFailure>
    decreases ahead.len(),
{
    if ahead.len() <= 1 {
        files_named(world, dir, path, depth)
    } else {
        match dir_named(dir, ahead[0]) {
            Some(hash) => match world(hash) {
                Some(next) => files_ahead(world, next, ahead.drop_first(), path, depth),
                None => Err(SelectFailure::Unreadable),
            },
            None => Err(SelectFailure::NoDirectory { piece: ahead[0] }),
        }
    }
}

/// The files that are pinned of the tree of `root`: all of them, or those that a path
/// names.
pub open spec fn files_to_pin(
    world: spec_fn(Seq<u8>) -> Option<DirModel>,
    root: Seq<u8>,
    path: Option<Seq<char>>,
    depth: nat,
) -> Result<Seq<FoundModel>, SelectFailure> {
    match path {
        None => files_of_dir(world, root, Seq::empty(), depth),
        Some(p) => match world(root) {
            Some(dir) => files_ahead(world, dir, pieces(p), p, depth),
            None => Err(SelectFailure::Unreadable),
        },
    }
}

/// How far the selection of files has come.
#[derive(Debug, PartialEq, Eq)]
pub enum SelectPhase {
    /// The root is to be read.
    Root { hash: [u8; 32] },
    /// The directory that this piece of the path names is to be read.
    OnTheWay { navigator: Navigator, piece: String, hash: [u8; 32] },
    /// The directory that the path names is to be read.
    Target { hash: [u8; 32] },
    /// A directory below is to be read.
    Below { collector: FileCollector, next: PendingDir },
    /// These are the files.
    Done { files: Vec<FoundFile> },
    /// There are none to select.
    Failed { error: SelectError },
}

/// What a `SelectPhase` stands for.
pub enum SelectModel {
    Root { hash: Seq<u8> },
    OnTheWay { ahead: Seq<Seq<char>>, piece: Seq<char>, hash: Seq<u8> },
    Target { hash: Seq<u8> },
    Below { found: Seq<FoundModel>, pending: Seq<(Seq<char>, Seq<u8>)>, next: (Seq<char>, Seq<u8>) },
    Done { files: Seq<FoundModel> },
    Failed { error: SelectFailure },
}

impl View for SelectPhase {
    type V = SelectModel;

    open spec fn view(&self) -> SelectModel {
        match self {
            SelectPhase::Root { hash } => SelectModel::Root { hash: hash@ },
            SelectPhase::OnTheWay { navigator, piece, hash } => SelectModel::OnTheWay {
                ahead: navigator.ahead(),
                piece: piece@,
                hash: hash@,
            },
            SelectPhase::Target { hash } => SelectModel::Target { hash: hash@ },
            SelectPhase::Below { collector, next } => SelectModel::Below {
                found: found_models(collector.found@),
                pending: pending_models(collector.pending@),
                next: (next.path@, next.hash@),
            },
            SelectPhase::Done { files } => SelectModel::Done { files: found_models(files@) },
            SelectPhase::Failed { error } => SelectModel::Failed { error: error@ },
        }
    }
}

impl SelectModel {
    /// The directory to read next.
    pub open spec fn wanted(self) -> Option<Seq<u8>> {
        match self {
            SelectModel::Root { hash } => Some(hash),
            SelectModel::OnTheWay { ahead: _, piece: _, hash } => Some(hash),
            SelectModel::Target { hash } => Some(hash),
            SelectModel::Below { found: _, pending: _, next } => Some(next.1),
            SelectModel::Done { files: _ } => None,
            SelectModel::Failed { error: _ } => None,
        }
    }

    /// With these files found and these directories to search.
    pub open spec fn searching(
        found: Seq<FoundModel>,
        pending: Seq<(Seq<char>, Seq<u8>)>,
    ) -> Self {
        if pending.len() == 0 {
            SelectModel::Done { files: found }
        } else {
            SelectModel::Below { found, pending: pending.drop_last(), next: pending.last() }
        }
    }

    /// In the directory `dir`, below which all files are wanted.
    pub open spec fn at_top(dir: DirModel, prefix: Seq<char>) -> Self {
        Self::searching(own_files(dir, prefix), own_dirs(dir, prefix).reverse())
    }

    /// In the directory `dir`, with these pieces of the path ahead.
    pub open spec fn on_path(dir: DirModel, ahead: Seq<Seq<char>>, path: Seq<char>) -> Self {
        if ahead.len() <= 1 {
            match file_named(dir, last_piece(path)) {
                Some(f) => SelectModel::Done {
                    files: seq![FoundModel { path, hash: f.hash@, size: f.size }],
                },
                None => match dir_named(dir, last_piece(path)) {
                    Some(hash) => SelectModel::Target { hash },
                    None => SelectModel::Failed { error: SelectFailure::NotFound },
                },
            }
        } else {
            match dir_named(dir, ahead[0]) {
                Some(hash) => SelectModel::OnTheWay {
                    ahead: ahead.drop_first(),
                    piece: ahead[0],
                    hash,
                },
                None => SelectModel::Failed {
                    error: SelectFailure::NoDirectory { piece: ahead[0] },
                },
            }
        }
    }

    /// The selection after the wanted directory was read, or could not be read.
    pub open spec fn told(self, path: Option<Seq<char>>, dir: Option<DirModel>) -> Self {
        match self {
            SelectModel::Root { hash: _ } => match dir {
                Some(d) => match path {
                    Some(p) => Self::on_path(d, pieces(p), p),
                    None => Self::at_top(d, Seq::empty()),
                },
                None => SelectModel::Failed { error: SelectFailure::Unreadable },
            },
            SelectModel::OnTheWay { ahead, piece: _, hash: _ } => match dir {
                Some(d) => Self::on_path(d, ahead, path_text(path)),
                None => SelectModel::Failed { error: SelectFailure::Unreadable },
            },
            SelectModel::Target { hash: _ } => match dir {
                Some(d) => Self::at_top(d, path_text(path)),
                None => SelectModel::Failed { error: SelectFailure::Unreadable },
            },
            SelectModel::Below { found, pending, next } => match dir {
                Some(d) => Self::searching(
                    found + own_files(d, next.0),
                    pending + own_dirs(d, next.0).reverse(),
                ),
                None => Self::searching(found, pending),
            },
            SelectModel::Done { files: _ } => self,
            SelectModel::Failed { error: _ } => self,
        }
    }
}

/// The text of a path, where there is one.
pub open spec fn path_text(path: Option<Seq<char>>) -> Seq<char> {
    match path {
        Some(p) => p,
        None => Seq::empty(),
    }
}

/// Selects the files of a tree: all of them, or those that a path names. It says which
/// directory to read; the caller reads it and reports back.
#[derive(Debug, PartialEq, Eq)]
pub struct FileSelection {
    pub path: Option<String>,
    pub phase: SelectPhase,
}

/// The model of a directory that may be missing.
pub open spec fn dir_model(dir: Option<&Directory>) -> Option<DirModel> {
    match dir {
        Some(d) => Some(d@),
        None => None,
    }
}

/// Goes on to search the directories that a collector has noted.
fn search(mut collector: FileCollector) -> (r: SelectPhase)
    ensures
        r@ == SelectModel::searching(
            found_models(collector.found@),
            pending_models(collector.pending@),
        ),
        r.wf(),
{
    let ghost pending0 = pending_models(collector.pending@);
    match collector.next() {
        Some(next) => {
            assert(pending_models(collector.pending@) =~= pending0.drop_last());
            SelectPhase::Below { collector, next }
        },
        None => SelectPhase::Done { files: collector.found },
    }
}

/// Begins to search a directory.
fn search_from(dir: &Directory, prefix: &str) -> (r: SelectPhase)
    ensures
        r@ == SelectModel::at_top(dir@, prefix@),
        r.wf(),
{
    let mut collector = FileCollector::new();
    let ghost found0 = found_models(collector.found@);
    let ghost pending0 = pending_models(collector.pending@);
    collector.enter(dir, prefix);
    proof {
        assert(found0 + own_files(dir@, prefix@) =~= own_files(dir@, prefix@));
        let back = own_dirs(dir@, prefix@).reverse();
        assert(pending0 + back =~= back);
    }
    search(collector)
}

/// Goes on along a path from a directory.
fn follow(mut navigator: Navigator, dir: &Directory, path: &str) -> (r: SelectPhase)
    requires
        navigator.at <= navigator.pieces@.len(),
    ensures
        r@ == SelectModel::on_path(dir@, navigator.ahead(), path@),
        r.wf(),
{
    let ghost start = navigator;
    match navigator.step(dir) {
        NavStep::Arrived => match path_target(dir, path) {
            PathTarget::File(file) => {
                let mut files: Vec<FoundFile> = Vec::new();
                files.push(file);
                assert(found_models(files@) =~= seq![file@]);
                SelectPhase::Done { files }
            },
            PathTarget::Dir(hash) => SelectPhase::Target { hash },
            PathTarget::Missing => SelectPhase::Failed { error: SelectError::NotFound },
        },
        NavStep::Enter { piece, hash } => {
            assert(navigator.ahead() =~= start.ahead().drop_first());
            SelectPhase::OnTheWay { navigator, piece, hash }
        },
        NavStep::Missing { piece } => SelectPhase::Failed {
            error: SelectError::NoDirectory { piece },
        },
    }
}

impl SelectPhase {
    /// A navigator has not passed more pieces than there are.
    pub open spec fn wf(&self) -> bool {
        self matches SelectPhase::OnTheWay { navigator, .. } ==> navigator.at
            <= navigator.pieces@.len()
    }
}

impl FileSelection {
    /// A path is only followed where there is one.
    pub open spec fn wf(&self) -> bool {
        &&& self.phase.wf()
        &&& self.phase is OnTheWay || self.phase is Target ==> self.path is Some
    }

    /// The path that names the files, where there is one.
    pub open spec fn path_model(&self) -> Option<Seq<char>> {
        match self.path {
            Some(p) => Some(p@),
            None => None,
        }
    }

    /// Begins to select files of the tree of `root`.
    pub fn new(root: [u8; 32], path: Option<String>) -> (r: Self)
        ensures
            r.wf(),
            r.path == path,
            r.phase@ == (SelectModel::Root { hash: root@ }),
    {
        FileSelection { path, phase: SelectPhase::Root { hash: root } }
    }

    /// The directory to read next; `None` where the selection has come to its end.
    pub fn wanted(&self) -> (r: Option<[u8; 32]>)
        ensures
            match r {
                Some(hash) => self.phase@.wanted() == Some(hash@),
                None => self.phase@.wanted() is None,
            },
    {
        match &self.phase {
            SelectPhase::Root { hash } => Some(*hash),
            SelectPhase::OnTheWay { navigator: _, piece: _, hash } => Some(*hash),
            SelectPhase::Target { hash } => Some(*hash),
            SelectPhase::Below { collector: _, next } => Some(next.hash),
            SelectPhase::Done { files: _ } => None,
            SelectPhase::Failed { error: _ } => None,
        }
    }

    /// The wanted directory was read, or could not be read.
    pub fn read(self, dir: Option<&Directory>) -> (r: Self)
        requires
            self.wf(),
        ensures
            r.wf(),
            r.path == self.path,
            r.phase@ == self.phase@.told(self.path_model(), dir_model(dir)),
    {
        let FileSelection { path, phase } = self;
        let unreadable = SelectPhase::Failed { error: SelectError::Unreadable };
        let next = match phase {
            SelectPhase::Root { hash: _ } => match dir {
                Some(d) => match &path {
                    Some(p) => {
                        let navigator = Navigator::new(p.as_str());
                        assert(navigator.ahead() =~= pieces(p@));
                        follow(navigator, d, p.as_str())
                    },
                    None => {
                        proof {
                            reveal_strlit("");
                            assert(""@ =~= Seq::<char>::empty());
                        }
                        search_from(d, "")
                    },
                },
                None => unreadable,
            },
            SelectPhase::OnTheWay { navigator, piece: _, hash: _ } => match (dir, &path) {
                (Some(d), Some(p)) => follow(navigator, d, p.as_str()),
                _ => unreadable,
            },
            SelectPhase::Target { hash: _ } => match (dir, &path) {
                (Some(d), Some(p)) => search_from(d, p.as_str()),
                _ => unreadable,
            },
            SelectPhase::Below { mut collector, next } => {
                if let Some(d) = dir {
                    collector.enter(d, next.path.as_str());
                }
                search(collector)
            },
            SelectPhase::Done { files } => SelectPhase::Done { files },
            SelectPhase::Failed { error } => SelectPhase::Failed { error },
        };
        FileSelection { path, phase: next }
    }
}

/// What will have been selected in the end, where `world` gives the directory of each
/// hash.
pub open spec fn will_select(
    world: spec_fn(Seq<u8>) -> Option<DirModel>,
    path: Option<Seq<char>>,
    m: SelectModel,
    depth: nat,
) -> Result<Seq<FoundModel>, SelectFailure> {
    match m {
        SelectModel::Root { hash } => files_to_pin(world, hash, path, depth),
        SelectModel::OnTheWay { ahead, piece: _, hash } => match world(hash) {
            Some(d) => files_ahead(world, d, ahead, path_text(path), depth),
            None => Err(SelectFailure::Unreadable),
        },
        SelectModel::Target { hash } => files_of_dir(world, hash, path_text(path), depth),
        SelectModel::Below { found, pending, next } => Ok(
            will_find(world, found, pending.push(next), depth),
        ),
        SelectModel::Done { files } => Ok(files),
        SelectModel::Failed { error } => Err(error),
    }
}

/// Whether no directory that is still to be read is nested more than `depth` deep.
pub open spec fn select_nested(
    world: spec_fn(Seq<u8>) -> Option<DirModel>,
    m: SelectModel,
    depth: nat,
) -> bool {
    &&& m.wanted() matches Some(hash) ==> nested_within(world, hash, depth)
    &&& m matches SelectModel::Below { found, pending, next } ==> forall|i: int|
        0 <= i < pending.len() ==> nested_within(world, (#[trigger] pending[i]).1, depth)
}

/// A directory that is nested within some depth has sub-directories that are.
proof fn lemma_nested_below(
    world: spec_fn(Seq<u8>) -> Option<DirModel>,
    hash: Seq<u8>,
    d: DirModel,
    depth: nat,
)
    requires
        nested_within(world, hash, depth),
        world(hash) == Some(d),
    ensures
        forall|i: int|
            0 <= i < d.dirs.len() ==> nested_within(world, (#[trigger] d.dirs[i]).1, depth),
{
    let below = (depth - 1) as nat;
    reveal_with_fuel(nested_within, 2);
    match world(hash) {
        Some(dir) => {
            assert forall|i: int| 0 <= i < dir.dirs.len() implies nested_within(
                world,
                (#[trigger] dir.dirs[i]).1,
                depth,
            ) by {
                assert(nested_within(world, dir.dirs[i].1, below));
                lemma_files_at_deeper(world, Seq::empty(), dir.dirs[i].1, below);
            }
        },
        None => {},
    }
}

/// What a search of some directories will have found.
proof fn lemma_searching(
    world: spec_fn(Seq<u8>) -> Option<DirModel>,
    path: Option<Seq<char>>,
    found: Seq<FoundModel>,
    pending: Seq<(Seq<char>, Seq<u8>)>,
    depth: nat,
)
    requires
        forall|i: int|
            0 <= i < pending.len() ==> nested_within(world, (#[trigger] pending[i]).1, depth),
    ensures
        select_nested(world, SelectModel::searching(found, pending), depth),
        will_select(world, path, SelectModel::searching(found, pending), depth) == Ok::<
            Seq<FoundModel>,
            SelectFailure,
        >(will_find(world, found, pending, depth)),
{
    if pending.len() == 0 {
        assert(pending.reverse() =~= Seq::<(Seq<char>, Seq<u8>)>::empty());
        assert(found + Seq::<FoundModel>::empty() =~= found);
    } else {
        assert(pending.drop_last().push(pending.last()) =~= pending);
        assert(nested_within(world, pending[pending.len() - 1].1, depth));
        let rest = pending.drop_last();
        assert forall|i: int| 0 <= i < rest.len() implies nested_within(
            world,
            (#[trigger] rest[i]).1,
            depth,
        ) by {
            assert(rest[i] == pending[i]);
        }
    }
}

/// What a search of all that is below a directory will have found.
proof fn lemma_at_top(
    world: spec_fn(Seq<u8>) -> Option<DirModel>,
    path: Option<Seq<char>>,
    d: DirModel,
    prefix: Seq<char>,
    depth: nat,
)
    requires
        forall|i: int|
            0 <= i < d.dirs.len() ==> nested_within(world, (#[trigger] d.dirs[i]).1, depth),
    ensures
        select_nested(world, SelectModel::at_top(d, prefix), depth),
        will_select(world, path, SelectModel::at_top(d, prefix), depth) == Ok::<
            Seq<FoundModel>,
            SelectFailure,
        >(files_below(world, d, prefix, depth)),
{
    let back = own_dirs(d, prefix).reverse();
    assert forall|i: int| 0 <= i < back.len() implies nested_within(
        world,
        (#[trigger] back[i]).1,
        depth,
    ) by {
        assert(back[i].1 == d.dirs[back.len() - 1 - i].1);
    }
    lemma_searching(world, path, own_files(d, prefix), back, depth);
    assert(back.reverse() =~= own_dirs(d, prefix));
}

/// A directory that is named in another one is one of its sub-directories.
proof fn lemma_dir_named(d: DirModel, name: Seq<char>)
    ensures
        dir_named(d, name) matches Some(hash) ==> exists|i: int|
            0 <= i < d.dirs.len() && (#[trigger] d.dirs[i]).1 == hash,
{
}

/// What a selection that goes along a path will have selected.
proof fn lemma_on_path(
    world: spec_fn(Seq<u8>) -> Option<DirModel>,
    d: DirModel,
    ahead: Seq<Seq<char>>,
    path: Seq<char>,
    depth: nat,
)
    requires
        forall|i: int|
            0 <= i < d.dirs.len() ==> nested_within(world, (#[trigger] d.dirs[i]).1, depth),
    ensures
        select_nested(world, SelectModel::on_path(d, ahead, path), depth),
        will_select(world, Some(path), SelectModel::on_path(d, ahead, path), depth) == files_ahead(
            world,
            d,
            ahead,
            path,
            depth,
        ),
{
    lemma_dir_named(d, last_piece(path));
    if ahead.len() > 1 {
        lemma_dir_named(d, ahead[0]);
    }
}

/// A step of a selection does not change what will have been selected in the end.
pub proof fn law_selection_step(
    world: spec_fn(Seq<u8>) -> Option<DirModel>,
    path: Option<Seq<char>>,
    m: SelectModel,
    depth: nat,
)
    requires
        select_nested(world, m, depth),
        m is OnTheWay || m is Target ==> path is Some,
    ensures
        m.wanted() matches Some(hash) ==> {
            let next = m.told(path, world(hash));
            &&& select_nested(world, next, depth)
            &&& next is OnTheWay || next is Target ==> path is Some
            &&& will_select(world, path, next, depth) == will_select(world, path, m, depth)
        },
{
    if let Some(hash) = m.wanted() {
        match world(hash) {
            Some(d) => {
                lemma_nested_below(world, hash, d, depth);
                match m {
                    SelectModel::Root { .. } => match path {
                        Some(p) => lemma_on_path(world, d, pieces(p), p, depth),
                        None => lemma_at_top(world, path, d, Seq::empty(), depth),
                    },
                    SelectModel::OnTheWay { ahead, .. } => {
                        lemma_on_path(world, d, ahead, path->0, depth);
                    },
                    SelectModel::Target { .. } => {
                        lemma_at_top(world, path, d, path->0, depth);
                    },
                    SelectModel::Below { found, pending, next } => {
                        let own = own_dirs(d, next.0).reverse();
                        let all = pending + own;
                        assert forall|i: int| 0 <= i < all.len() implies nested_within(
                            world,
                            (#[trigger] all[i]).1,
                            depth,
                        ) by {
                            if i < pending.len() {
                                assert(all[i] == pending[i]);
                            } else {
                                let j = own.len() - 1 - (i - pending.len());
                                assert(all[i].1 == d.dirs[j].1);
                            }
                        }
                        lemma_searching(
                            world,
                            path,
                            found + own_files(d, next.0),
                            all,
                            depth,
                        );
                        let whole = pending.push(next);
                        assert(whole.drop_last() =~= pending);
                        assert forall|i: int| 0 <= i < whole.len() implies nested_within(
                            world,
                            (#[trigger] whole[i]).1,
                            depth,
                        ) by {
                            if i < pending.len() {
                                assert(whole[i] == pending[i]);
                            }
                        }
                        law_collector_finds_all(world, d, next.0, found, whole, depth);
                    },
                    _ => {},
                }
            },
            None => {
                if let SelectModel::Below { found, pending, next } = m {
                    lemma_searching(world, path, found, pending, depth);
                    let whole = pending.push(next);
                    assert(whole.drop_last() =~= pending);
                    assert forall|i: int| 0 <= i < whole.len() implies nested_within(
                        world,
                        (#[trigger] whole[i]).1,
                        depth,
                    ) by {
                        if i < pending.len() {
                            assert(whole[i] == pending[i]);
                        }
                    }
                    law_collector_finds_all(
                        world,
                        DirModel { files: Seq::empty(), dirs: Seq::empty() },
                        next.0,
                        found,
                        whole,
                        depth,
                    );
                }
            },
        }
    }
}

/// How many directories are read along a path, from the directory `dir` on.
pub open spec fn reads_ahead(
    world: spec_fn(Seq<u8>) -> Option<DirModel>,
    dir: DirModel,
    ahead: Seq<Seq<char>>,
    path: Seq<char>,
    depth: nat,
) -> nat
    decreases ahead.len(),
{
    if ahead.len() <= 1 {
        match file_named(dir, last_piece(path)) {
            Some(_) => 0,
            None => match dir_named(dir, last_piece(path)) {
                Some(hash) => reads_of_dir(world, hash, path, depth),
                None => 0,
            },
        }
    } else {
        match dir_named(dir, ahead[0]) {
            Some(hash) => match world(hash) {
                Some(next) => 1 + reads_ahead(world, next, ahead.drop_first(), path, depth),
                None => 1,
            },
            None => 0,
        }
    }
}

/// How many directories are read for all files below the directory with this hash.
pub open spec fn reads_of_dir(
    world: spec_fn(Seq<u8>) -> Option<DirModel>,
    hash: Seq<u8>,
    path: Seq<char>,
    depth: nat,
) -> nat {
    match world(hash) {
        Some(d) => 1 + searches_in(world, own_dirs(d, path), depth),
        None => 1,
    }
}

/// How many directories a selection has still to read.
pub open spec fn reads_left(
    world: spec_fn(Seq<u8>) -> Option<DirModel>,
    path: Option<Seq<char>>,
    m: SelectModel,
    depth: nat,
) -> nat {
    match m {
        SelectModel::Root { hash } => match path {
            None => reads_of_dir(world, hash, Seq::empty(), depth),
            Some(p) => match world(hash) {
                Some(d) => 1 + reads_ahead(world, d, pieces(p), p, depth),
                None => 1,
            },
        },
        SelectModel::OnTheWay { ahead, piece: _, hash } => match world(hash) {
            Some(d) => 1 + reads_ahead(world, d, ahead, path_text(path), depth),
            None => 1,
        },
        SelectModel::Target { hash } => reads_of_dir(world, hash, path_text(path), depth),
        SelectModel::Below { found: _, pending, next } => searches_in(
            world,
            pending.push(next).reverse(),
            depth,
        ),
        SelectModel::Done { files: _ } => 0,
        SelectModel::Failed { error: _ } => 0,
    }
}

/// What a search of some directories has still to read.
proof fn lemma_searching_reads(
    world: spec_fn(Seq<u8>) -> Option<DirModel>,
    path: Option<Seq<char>>,
    found: Seq<FoundModel>,
    pending: Seq<(Seq<char>, Seq<u8>)>,
    depth: nat,
)
    ensures
        reads_left(world, path, SelectModel::searching(found, pending), depth) == searches_in(
            world,
            pending.reverse(),
            depth,
        ),
{
    lemma_searches_some(world, pending, depth);
    if pending.len() > 0 {
        assert(pending.drop_last().push(pending.last()) =~= pending);
    }
}

/// What a search of all that is below a directory has still to read.
proof fn lemma_at_top_reads(
    world: spec_fn(Seq<u8>) -> Option<DirModel>,
    path: Option<Seq<char>>,
    d: DirModel,
    prefix: Seq<char>,
    depth: nat,
)
    ensures
        reads_left(world, path, SelectModel::at_top(d, prefix), depth) == searches_in(
            world,
            own_dirs(d, prefix),
            depth,
        ),
{
    let back = own_dirs(d, prefix).reverse();
    lemma_searching_reads(world, path, own_files(d, prefix), back, depth);
    assert(back.reverse() =~= own_dirs(d, prefix));
}

/// A step of a selection reads one directory of those that it has still to read.
proof fn lemma_selection_reads(
    world: spec_fn(Seq<u8>) -> Option<DirModel>,
    path: Option<Seq<char>>,
    m: SelectModel,
    depth: nat,
)
    requires
        select_nested(world, m, depth),
        m is OnTheWay || m is Target ==> path is Some,
    ensures
        match m.wanted() {
            Some(hash) => reads_left(world, path, m, depth) == 1 + reads_left(
                world,
                path,
                m.told(path, world(hash)),
                depth,
            ),
            None => reads_left(world, path, m, depth) == 0,
        },
{
    if let Some(hash) = m.wanted() {
        match m {
            SelectModel::Root { .. } => {
                if let Some(d) = world(hash) {
                    if path is None {
                        lemma_at_top_reads(world, path, d, Seq::empty(), depth);
                    }
                }
            },
            SelectModel::Target { .. } => {
                if let Some(d) = world(hash) {
                    lemma_at_top_reads(world, path, d, path->0, depth);
                }
            },
            SelectModel::Below { found, pending, next } => {
                let whole = pending.push(next);
                assert(whole.drop_last() =~= pending);
                lemma_searches_step(world, whole, depth);
                match world(hash) {
                    Some(d) => {
                        lemma_searching_reads(
                            world,
                            path,
                            found + own_files(d, next.0),
                            pending + own_dirs(d, next.0).reverse(),
                            depth,
                        );
                    },
                    None => {
                        lemma_searching_reads(world, path, found, pending, depth);
                    },
                }
            },
            _ => {},
        }
    }
}

/// A selection after `n` directories have been read.
pub open spec fn after_reading(
    world: spec_fn(Seq<u8>) -> Option<DirModel>,
    root: Seq<u8>,
    path: Option<Seq<char>>,
    n: nat,
) -> SelectModel
    decreases n,
{
    if n == 0 {
        SelectModel::Root { hash: root }
    } else {
        let m = after_reading(world, root, path, (n - 1) as nat);
        match m.wanted() {
            Some(hash) => m.told(path, world(hash)),
            None => m,
        }
    }
}

/// Which files a pin covers. Without a path these are all files of the tree. A path that
/// names a file stands for that file, and one that names a directory for all files below
/// it. A path that names neither is an error, as is a directory on the way that is not
/// there or cannot be read. The selection comes to its end.
pub proof fn law_files_selected(
    world: spec_fn(Seq<u8>) -> Option<DirModel>,
    root: Seq<u8>,
    path: Option<Seq<char>>,
    n: nat,
    depth: nat,
)
    requires
        nested_within(world, root, depth),
    ensures
        ({
            let m = after_reading(world, root, path, n);
            &&& select_nested(world, m, depth)
            &&& m is OnTheWay || m is Target ==> path is Some
            &&& will_select(world, path, m, depth) == files_to_pin(world, root, path, depth)
            &&& m matches SelectModel::Done { files } ==> files_to_pin(world, root, path, depth)
                == Ok::<Seq<FoundModel>, SelectFailure>(files)
            &&& m matches SelectModel::Failed { error } ==> files_to_pin(world, root, path, depth)
                == Err::<Seq<FoundModel>, SelectFailure>(error)
            &&& m.wanted() is Some ==> reads_left(world, path, m, depth) + n == reads_left(
                world,
                path,
                SelectModel::Root { hash: root },
                depth,
            )
            &&& n >= reads_left(world, path, SelectModel::Root { hash: root }, depth) ==> m is Done
                || m is Failed
        }),
        world(root) matches Some(dir) ==> ({
            let selected = files_to_pin(world, root, path, depth);
            match path {
                None => selected == Ok::<Seq<FoundModel>, SelectFailure>(
                    files_below(world, dir, Seq::empty(), depth),
                ),
                Some(p) => match parent_dir(world, dir, pieces(p)) {
                    Some(parent) => selected == files_named(world, parent, p, depth),
                    None => selected is Err,
                },
            }
        }),
    decreases n,
{
    if n > 0 {
        let before = after_reading(world, root, path, (n - 1) as nat);
        law_files_selected(world, root, path, (n - 1) as nat, depth);
        law_selection_step(world, path, before, depth);
        lemma_selection_reads(world, path, before, depth);
    }
    lemma_selection_reads(world, path, after_reading(world, root, path, n), depth);
    if let Some(dir) = world(root) {
        if let Some(p) = path {
            lemma_files_ahead(world, dir, pieces(p), p, depth);
        }
    }
}

/// The files that a path names are those that it names in the directory that holds it.
proof fn lemma_files_ahead(
    world: spec_fn(Seq<u8>) -> Option<DirModel>,
    dir: DirModel,
    ahead: Seq<Seq<char>>,
    path: Seq<char>,
    depth: nat,
)
    ensures
        match parent_dir(world, dir, ahead) {
            Some(parent) => files_ahead(world, dir, ahead, path, depth) == files_named(
                world,
                parent,
                path,
                depth,
            ),
            None => files_ahead(world, dir, ahead, path, depth) is Err,
        },
    decreases ahead.len(),
{
    if ahead.len() > 1 {
        if let Some(hash) = dir_named(dir, ahead[0]) {
            if let Some(next) = world(hash) {
                lemma_files_ahead(world, next, ahead.drop_first(), path, depth);
            }
        }
    }
}

} // verus!
