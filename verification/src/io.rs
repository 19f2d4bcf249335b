//! Files as the storage engine sees them.
use crate::error::{Error, Result};
use crate::format::bytes;
use vstd::prelude::*;
use vstd::string::*;

verus! {

/// The path of a name in a directory.
pub open spec fn join_spec(dir: Seq<char>, name: Seq<char>) -> Seq<char> {
    dir + seq!['/'] + name
}

/// The path of a name in a directory.
pub fn join(dir: &str, name: &str) -> (path: String)
    ensures
        path@ == join_spec(dir@, name@),
{
    let mut path = String::from_str(dir);
    path.push('/');
    path.append(name);
    proof {
        assert(path@ =~= join_spec(dir@, name@));
    }
    path
}

/// Paths of different names in a directory are different.
pub proof fn lemma_join_injective(dir: Seq<char>, a: Seq<char>, b: Seq<char>)
    requires
        join_spec(dir, a) == join_spec(dir, b),
    ensures
        a == b,
{
    let n = dir.len() + 1;
    let p = join_spec(dir, a);
    assert(p.subrange(n as int, p.len() as int) =~= a);
    assert(p.subrange(n as int, p.len() as int) =~= b);
}

/// The path of a name in a directory that may be the current one or end in a separator.
pub open spec fn joined(dir: Seq<char>, name: Seq<char>) -> Seq<char> {
    if dir.len() == 0 {
        name
    } else if dir.last() == '/' {
        dir + name
    } else {
        join_spec(dir, name)
    }
}

/// The path of a name in a directory that may be the current one or end in a separator.
pub fn join_path(dir: &str, name: &str) -> (path: String)
    ensures
        path@ == joined(dir@, name@),
{
    let n: usize = dir.unicode_len();
    if n == 0 {
        return String::from_str(name);
    }
    if dir.get_char(n - 1) == '/' {
        let mut path = String::from_str(dir);
        path.append(name);
        return path;
    }
    join(dir, name)
}

/// The contents of a file after bytes are written at an offset; a gap is filled with zeros.
pub open spec fn overwritten(content: Seq<u8>, offset: int, data: Seq<u8>) -> Seq<u8> {
    Seq::new(
        if offset + data.len() > content.len() {
            (offset + data.len()) as nat
        } else {
            content.len()
        },
        |i: int|
            if offset <= i < offset + data.len() {
                data[i - offset]
            } else if i < content.len() {
                content[i]
            } else {
                0u8
            },
    )
}

/// The contents of a file after its length is set; a longer one is filled with zeros.
pub open spec fn resized(content: Seq<u8>, len: int) -> Seq<u8> {
    Seq::new(
        len as nat,
        |i: int|
            if i < content.len() {
                content[i]
            } else {
                0u8
            },
    )
}

/// The names of the files right in a directory, each once.
pub open spec fn lists_names(files: Map<Seq<char>, Seq<u8>>, dir: Seq<char>, names: Seq<String>) -> bool {
    &&& forall|i: int| 0 <= i < names.len() ==> files.dom().contains(join_spec(dir, (#[trigger] names[i])@))
    &&& forall|name: Seq<char>|
        #![trigger join_spec(dir, name)]
        files.dom().contains(join_spec(dir, name)) && !name.contains('/') ==> exists|i: int|
            0 <= i < names.len() && (#[trigger] names[i])@ == name
    &&& forall|i: int, j: int| 0 <= i < j < names.len() ==> (#[trigger] names[i])@ != (#[trigger] names[j])@
}

/// The file operations that the engine needs. An operation that fails leaves all other files as
/// they are. What the files hold is said by implementations that are verified; others leave it out.
pub trait FileSystem: Sized {
    /// What the files hold.
    closed spec fn files(&self) -> Map<Seq<char>, Seq<u8>> {
        Map::empty()
    }

    /// What the files are known to hold after a crash.
    closed spec fn synced(&self) -> Map<Seq<char>, Seq<u8>> {
        Map::empty()
    }

    /// The directories that are there.
    closed spec fn dirs(&self) -> Set<Seq<char>> {
        Set::empty()
    }

    /// Whether an operation fails only where what the files hold, or the size of a file, is the
    /// reason. Where it does not hold, an operation may fail at any time.
    closed spec fn reliable(&self) -> bool {
        false
    }

    /// Makes a directory and those above it.
    fn create_dir_all(&mut self, dir: &str) -> (r: Result<()>)
        ensures
            final(self).files() == old(self).files(),
            final(self).synced() == old(self).synced(),
            old(self).reliable() ==> r is Ok && final(self).reliable(),
            old(self).dirs().subset_of(final(self).dirs()),
            r is Ok ==> final(self).dirs().contains(dir@),
    ;

    /// Whether a directory is there; if it is not, no file is in it.
    fn dir_exists(&self, dir: &str) -> (r: bool)
        ensures
            r == self.dirs().contains(dir@),
            !r ==> forall|name: Seq<char>| !self.files().dom().contains(#[trigger] join_spec(dir@, name)),
    ;

    /// The names of the files in a directory that is there, in any order.
    fn read_dir_names(&self, dir: &str) -> (r: Result<Vec<String>>)
        ensures
            r matches Ok(names) ==> self.dirs().contains(dir@) && lists_names(self.files(), dir@, names@),
            self.reliable() && self.dirs().contains(dir@) ==> r is Ok,
    ;

    /// Opens a file for reading and writing, making an empty one if there is none.
    fn open_rw_create(&mut self, path: &str) -> (r: Result<()>)
        ensures
            final(self).synced() == old(self).synced(),
            r is Ok ==> final(self).files() == (if old(self).files().dom().contains(path@) {
                old(self).files()
            } else {
                old(self).files().insert(path@, Seq::empty())
            }),
            r is Err ==> final(self).files().remove(path@) == old(self).files().remove(path@),
            old(self).reliable() ==> r is Ok && final(self).reliable(),
            old(self).dirs().subset_of(final(self).dirs()),
    ;

    /// The length of a file.
    fn file_len(&self, path: &str) -> (r: Result<u64>)
        ensures
            r matches Ok(len) ==> self.files().dom().contains(path@) && len == self.files()[path@].len(),
            self.reliable() && self.files().dom().contains(path@) ==> r is Ok,
    ;

    /// Cuts a file off or fills it up with zeros.
    fn set_len(&mut self, path: &str, len: u64) -> (r: Result<()>)
        ensures
            final(self).synced() == old(self).synced(),
            r is Ok ==> old(self).files().dom().contains(path@) && final(self).files() == old(self).files().insert(
                path@,
                resized(old(self).files()[path@], len as int),
            ),
            r is Err ==> final(self).files().remove(path@) == old(self).files().remove(path@),
            old(self).reliable() ==> final(self).reliable(),
            old(self).reliable() && old(self).files().dom().contains(path@) && len <= usize::MAX ==> r is Ok,
            old(self).dirs().subset_of(final(self).dirs()),
    ;

    /// Reads exactly `len` bytes.
    fn read_exact_at(&self, path: &str, offset: u64, len: usize) -> (r: Result<Vec<u8>>)
        ensures
            r matches Ok(data) ==> {
                &&& self.files().dom().contains(path@)
                &&& offset + len <= self.files()[path@].len()
                &&& data@ == self.files()[path@].subrange(offset as int, offset + len)
            },
            self.reliable() && self.files().dom().contains(path@) && offset + len <= self.files()[path@].len()
                ==> r is Ok,
    ;

    /// Writes all bytes at an offset.
    fn write_all_at(&mut self, path: &str, offset: u64, data: &[u8]) -> (r: Result<()>)
        ensures
            final(self).synced() == old(self).synced(),
            r is Ok ==> old(self).files().dom().contains(path@) && final(self).files() == old(self).files().insert(
                path@,
                overwritten(old(self).files()[path@], offset as int, data@),
            ),
            r is Err ==> final(self).files().remove(path@) == old(self).files().remove(path@),
            old(self).reliable() ==> final(self).reliable(),
            old(self).reliable() && old(self).files().dom().contains(path@) && offset + data@.len() <= usize::MAX
                ==> r is Ok,
            old(self).dirs().subset_of(final(self).dirs()),
    ;

    /// Makes the contents of a file survive a crash.
    fn sync_data(&mut self, path: &str) -> (r: Result<()>)
        ensures
            final(self).files() == old(self).files(),
            r is Ok ==> old(self).files().dom().contains(path@) && final(self).synced() == old(self).synced().insert(
                path@,
                old(self).files()[path@],
            ),
            r is Err ==> final(self).synced().remove(path@) == old(self).synced().remove(path@),
            old(self).reliable() ==> final(self).reliable(),
            old(self).reliable() && old(self).files().dom().contains(path@) ==> r is Ok,
            old(self).dirs().subset_of(final(self).dirs()),
    ;

    /// Removes a file.
    fn remove_file(&mut self, path: &str) -> (r: Result<()>)
        ensures
            r is Ok ==> final(self).files() == old(self).files().remove(path@) && final(self).synced() == old(self).synced().remove(path@),
            r is Err ==> final(self).files().remove(path@) == old(self).files().remove(path@) && final(self).synced().remove(path@) == old(self).synced().remove(path@),
            old(self).reliable() ==> r is Ok && final(self).reliable(),
    ;
}

/// Why something could not be made over a file system, and the file system.
#[derive(Debug)]
pub struct Refused<Fs> {
    pub error: Error,
    pub fs: Fs,
}

/// A file in memory.
#[derive(Debug)]
struct MemFile {
    path: String,
    data: Vec<u8>,
    synced: Option<Vec<u8>>,
}

/// Files in memory.
#[derive(Debug)]
pub struct MemFileSystem {
    list: Vec<MemFile>,
    made: Vec<String>,
}

/// Whether a path lies in a directory or below it.
spec fn lies_in(path: Seq<char>, dir: Seq<char>) -> bool {
    exists|name: Seq<char>| path == #[trigger] join_spec(dir, name)
}

/// Whether a directory was made, or a file lies in it or below it.
spec fn dir_in(list: Seq<MemFile>, made: Seq<String>, dir: Seq<char>) -> bool {
    ||| exists|i: int| 0 <= i < made.len() && (#[trigger] made[i])@ == dir
    ||| exists|i: int| 0 <= i < list.len() && lies_in((#[trigger] list[i]).path@, dir)
}

/// Files that keep their paths keep their directories.
proof fn lemma_dirs_stay(a: Seq<MemFile>, b: Seq<MemFile>, made: Seq<String>)
    requires
        a.len() <= b.len(),
        forall|i: int| 0 <= i < a.len() ==> (#[trigger] b[i]).path@ == a[i].path@,
    ensures
        Set::new(|dir: Seq<char>| dir_in(a, made, dir)).subset_of(Set::new(|dir: Seq<char>| dir_in(b, made, dir))),
{
    assert forall|dir: Seq<char>| dir_in(a, made, dir) implies dir_in(b, made, dir) by {
        if !(exists|i: int| 0 <= i < made.len() && (#[trigger] made[i])@ == dir) {
            let i = choose|i: int| 0 <= i < a.len() && lies_in((#[trigger] a[i]).path@, dir);
            assert(lies_in(b[i].path@, dir));
        }
    }
}

spec fn position_of(list: Seq<MemFile>, path: Seq<char>) -> int
    decreases list.len(),
{
    if list.len() == 0 {
        -1
    } else if list.last().path@ == path {
        list.len() - 1
    } else {
        position_of(list.drop_last(), path)
    }
}

proof fn lemma_position(list: Seq<MemFile>, path: Seq<char>)
    ensures
        -1 <= position_of(list, path) < list.len(),
        position_of(list, path) >= 0 ==> list[position_of(list, path)].path@ == path,
        position_of(list, path) < 0 ==> forall|i: int| 0 <= i < list.len() ==> (#[trigger] list[i]).path@ != path,
    decreases list.len(),
{
    if list.len() > 0 && list.last().path@ != path {
        lemma_position(list.drop_last(), path);
        if position_of(list, path) < 0 {
            assert forall|i: int| 0 <= i < list.len() implies (#[trigger] list[i]).path@ != path by {
                if i < list.len() - 1 {
                    assert(list.drop_last()[i] == list[i]);
                }
            }
        }
    }
}

/// The contents that a list of files gives every path.
spec fn files_of(list: Seq<MemFile>) -> Map<Seq<char>, Seq<u8>> {
    Map::new(|p: Seq<char>| position_of(list, p) >= 0, |p: Seq<char>| list[position_of(list, p)].data@)
}

spec fn synced_of(list: Seq<MemFile>) -> Map<Seq<char>, Seq<u8>> {
    Map::new(
        |p: Seq<char>| position_of(list, p) >= 0 && list[position_of(list, p)].synced is Some,
        |p: Seq<char>| list[position_of(list, p)].synced->0@,
    )
}

/// Changing one file changes its path's contents only.
proof fn lemma_file_updated(list: Seq<MemFile>, i: int, file: MemFile)
    requires
        0 <= i < list.len(),
        position_of(list, file.path@) == i,
    ensures
        files_of(list.update(i, file)) == files_of(list).insert(file.path@, file.data@),
        (file.synced is Some) == (list[i].synced is Some) && (file.synced is Some ==> file.synced->0@
            == list[i].synced->0@) ==> synced_of(list.update(i, file)) == synced_of(list),
        file.synced is Some ==> synced_of(list.update(i, file)) == synced_of(list).insert(
            file.path@,
            file.synced->0@,
        ),
        file.data@ == list[i].data@ ==> files_of(list.update(i, file)) == files_of(list),
{
    let next = list.update(i, file);
    let path = file.path@;
    lemma_position(list, path);
    assert forall|p: Seq<char>| position_of(next, p) == position_of(list, p) by {
        lemma_position_updated(list, i, file, p);
    }
    assert forall|p: Seq<char>| p != path && position_of(list, p) >= 0 implies next[position_of(list, p)]
        == list[position_of(list, p)] by {
        lemma_position(list, p);
    }
    assert(files_of(next) =~= files_of(list).insert(path, file.data@));
    if (file.synced is Some) == (list[i].synced is Some) && (file.synced is Some ==> file.synced->0@
        == list[i].synced->0@) {
        assert(synced_of(next) =~= synced_of(list));
    }
    if file.synced is Some {
        assert(synced_of(next) =~= synced_of(list).insert(path, file.synced->0@));
    }
    if file.data@ == list[i].data@ {
        assert(files_of(next) =~= files_of(list));
    }
}

proof fn lemma_position_updated(list: Seq<MemFile>, i: int, file: MemFile, p: Seq<char>)
    requires
        0 <= i < list.len(),
        list[i].path@ == file.path@,
    ensures
        position_of(list.update(i, file), p) == position_of(list, p),
    decreases list.len(),
{
    let next = list.update(i, file);
    if i < list.len() - 1 {
        assert(next.drop_last() =~= list.drop_last().update(i, file));
        lemma_position_updated(list.drop_last(), i, file, p);
    } else {
        assert(next.drop_last() =~= list.drop_last());
    }
}

impl MemFileSystem {
    /// A file system without files.
    pub fn new() -> (fs: MemFileSystem)
        ensures
            fs.files() == Map::<Seq<char>, Seq<u8>>::empty(),
            fs.synced() == Map::<Seq<char>, Seq<u8>>::empty(),
            fs.reliable(),
    {
        let fs = MemFileSystem { list: Vec::new(), made: Vec::new() };
        proof {
            assert(fs.files() =~= Map::empty());
            assert(fs.synced() =~= Map::empty());
        }
        fs
    }

    /// The names of the files right in a directory.
    fn names_in(&self, dir: &str) -> (names: Vec<String>)
        ensures
            lists_names(self.files(), dir@, names@),
    {
        let mut names: Vec<String> = Vec::new();
        let mut i: usize = 0;
        while i < self.list.len()
            invariant
                i <= self.list@.len(),
                forall|k: int|
                    0 <= k < names@.len() ==> 0 <= position_of(
                        self.list@,
                        #[trigger] join_spec(dir@, names@[k]@),
                    ) < i,
                forall|name: Seq<char>|
                    0 <= position_of(self.list@, #[trigger] join_spec(dir@, name)) < i && !name.contains('/') ==> exists|k: int| 0 <= k < names@.len() && (#[trigger] names@[k])@ == name,
                forall|a: int, b: int| 0 <= a < b < names@.len() ==> (#[trigger] names@[a])@ != (#[trigger] names@[b])@,
            decreases self.list@.len() - i,
        {
            let ghost before = names@;
            let ghost here = self.list@[i as int].path@;
            let newest = match self.find(self.list[i].path.as_str()) {
                Some(j) => j == i,
                None => false,
            };
            proof {
                lemma_position(self.list@, here);
            }
            if newest {
                if let Some(name) = name_in(dir, self.list[i].path.as_str()) {
                    names.push(name);
                    proof {
                        assert forall|k: int| 0 <= k < names@.len() implies 0 <= position_of(
                            self.list@,
                            #[trigger] join_spec(dir@, names@[k]@),
                        ) < i + 1 by {
                            if k < before.len() {
                                assert(names@[k] == before[k]);
                            }
                        }
                        assert forall|other: Seq<char>|
                            0 <= position_of(self.list@, #[trigger] join_spec(dir@, other)) < i + 1 && !other.contains(
                                '/',
                            ) implies exists|k: int| 0 <= k < names@.len() && (#[trigger] names@[k])@ == other by {
                            lemma_position(self.list@, join_spec(dir@, other));
                            if position_of(self.list@, join_spec(dir@, other)) < i {
                                let k = choose|k: int| 0 <= k < before.len() && (#[trigger] before[k])@ == other;
                                assert(names@[k]@ == other);
                            } else {
                                lemma_join_injective(dir@, other, name@);
                                assert(names@[before.len() as int]@ == other);
                            }
                        }
                        assert forall|a: int, b: int| 0 <= a < b < names@.len() implies (#[trigger] names@[a])@ != (
                        #[trigger] names@[b])@ by {
                            if b == before.len() {
                                assert(before[a] == names@[a]);
                                assert(position_of(self.list@, join_spec(dir@, before[a]@)) < i);
                            } else {
                                assert(before[a] == names@[a] && before[b] == names@[b]);
                            }
                        }
                    }
                } else {
                    proof {
                        assert forall|other: Seq<char>|
                            0 <= position_of(self.list@, #[trigger] join_spec(dir@, other)) < i + 1 && !other.contains(
                                '/',
                            ) implies exists|k: int| 0 <= k < names@.len() && (#[trigger] names@[k])@ == other by {
                            lemma_position(self.list@, join_spec(dir@, other));
                        }
                    }
                }
            } else {
                proof {
                    assert forall|other: Seq<char>|
                        0 <= position_of(self.list@, #[trigger] join_spec(dir@, other)) < i + 1 && !other.contains('/') implies exists|
                        k: int,
                    | 0 <= k < names@.len() && (#[trigger] names@[k])@ == other by {
                        lemma_position(self.list@, join_spec(dir@, other));
                    }
                }
            }
            i = i + 1;
        }
        proof {
            assert forall|k: int| 0 <= k < names@.len() implies self.files().dom().contains(
                join_spec(dir@, (#[trigger] names@[k])@),
            ) by {
                assert(position_of(self.list@, join_spec(dir@, names@[k]@)) >= 0);
            }
            assert forall|name: Seq<char>|
                #![trigger join_spec(dir@, name)]
                self.files().dom().contains(join_spec(dir@, name)) && !name.contains('/') implies exists|k: int|
                0 <= k < names@.len() && (#[trigger] names@[k])@ == name by {
                lemma_position(self.list@, join_spec(dir@, name));
            }
        }
        names
    }

    fn find(&self, path: &str) -> (r: Option<usize>)
        ensures
            match r {
                Some(i) => i < self.list@.len() && self.list@[i as int].path@ == path@ && position_of(self.list@, path@)
                    == i,
                None => position_of(self.list@, path@) < 0,
            },
    {
        let mut i: usize = self.list.len();
        proof {
            assert(self.list@.subrange(0, i as int) =~= self.list@);
        }
        while i > 0
            invariant
                i <= self.list@.len(),
                position_of(self.list@, path@) == position_of(self.list@.subrange(0, i as int), path@),
            decreases i,
        {
            proof {
                assert(self.list@.subrange(0, i as int).drop_last() =~= self.list@.subrange(0, i - 1));
            }
            i = i - 1;
            if same_text(self.list[i].path.as_str(), path) {
                return Some(i);
            }
        }
        None
    }
}

/// Adding a file under a new path.
proof fn lemma_file_added(list: Seq<MemFile>, file: MemFile)
    requires
        position_of(list, file.path@) < 0,
        file.synced is None,
    ensures
        files_of(list.push(file)) == files_of(list).insert(file.path@, file.data@),
        synced_of(list.push(file)) == synced_of(list),
{
    let next = list.push(file);
    assert(next.drop_last() =~= list);
    assert forall|p: Seq<char>| p != file.path@ && position_of(list, p) >= 0 implies next[position_of(list, p)]
        == list[position_of(list, p)] by {
        lemma_position(list, p);
    }
    assert(files_of(next) =~= files_of(list).insert(file.path@, file.data@));
    assert(synced_of(next) =~= synced_of(list));
}

/// The files of other paths.
spec fn others(list: Seq<MemFile>, path: Seq<char>) -> Seq<MemFile>
    decreases list.len(),
{
    if list.len() == 0 {
        Seq::empty()
    } else if list.last().path@ == path {
        others(list.drop_last(), path)
    } else {
        others(list.drop_last(), path).push(list.last())
    }
}

/// Taking the files of a path away leaves those of other paths.
proof fn lemma_others(list: Seq<MemFile>, path: Seq<char>, p: Seq<char>)
    ensures
        p == path ==> position_of(others(list, path), p) < 0,
        p != path ==> (position_of(others(list, path), p) >= 0) == (position_of(list, p) >= 0),
        p != path && position_of(list, p) >= 0 ==> others(list, path)[position_of(others(list, path), p)]
            == list[position_of(list, p)],
    decreases list.len(),
{
    if list.len() > 0 {
        let init = list.drop_last();
        lemma_others(init, path, p);
        lemma_position(init, p);
        lemma_position(others(init, path), p);
        if list.last().path@ != path {
            assert(others(list, path).drop_last() =~= others(init, path));
        }
    }
}

proof fn lemma_files_removed(list: Seq<MemFile>, path: Seq<char>)
    ensures
        files_of(others(list, path)) == files_of(list).remove(path),
        synced_of(others(list, path)) == synced_of(list).remove(path),
{
    assert forall|p: Seq<char>| true implies (p == path ==> #[trigger] position_of(others(list, path), p) < 0) && (p != path
        ==> (position_of(others(list, path), p) >= 0) == (position_of(list, p) >= 0)) && (p != path && position_of(
        list,
        p,
    ) >= 0 ==> others(list, path)[position_of(others(list, path), p)] == list[position_of(list, p)]) by {
        lemma_others(list, path, p);
    }
    assert(files_of(others(list, path)) =~= files_of(list).remove(path));
    assert(synced_of(others(list, path)) =~= synced_of(list).remove(path));
}

impl FileSystem for MemFileSystem {
    closed spec fn files(&self) -> Map<Seq<char>, Seq<u8>> {
        files_of(self.list@)
    }

    closed spec fn synced(&self) -> Map<Seq<char>, Seq<u8>> {
        synced_of(self.list@)
    }

    closed spec fn reliable(&self) -> bool {
        true
    }

    closed spec fn dirs(&self) -> Set<Seq<char>> {
        Set::new(|dir: Seq<char>| dir_in(self.list@, self.made@, dir))
    }

    fn create_dir_all(&mut self, dir: &str) -> (r: Result<()>)
        ensures
            r is Ok,
    {
        let ghost before = self.made@;
        self.made.push(String::from_str(dir));
        proof {
            assert(self.made@[before.len() as int]@ == dir@);
            assert(dir_in(self.list@, self.made@, dir@));
            assert forall|d: Seq<char>| old(self).dirs().contains(d) implies self.dirs().contains(d) by {
                if exists|i: int| 0 <= i < before.len() && (#[trigger] before[i])@ == d {
                    let i = choose|i: int| 0 <= i < before.len() && (#[trigger] before[i])@ == d;
                    assert(self.made@[i]@ == d);
                }
            }
        }
        Ok(())
    }

    fn dir_exists(&self, dir: &str) -> (r: bool) {
        for i in 0..self.made.len()
            invariant
                forall|j: int| 0 <= j < i ==> (#[trigger] self.made@[j])@ != dir@,
        {
            if same_text(self.made[i].as_str(), dir) {
                return true;
            }
        }
        for i in 0..self.list.len()
            invariant
                forall|j: int| 0 <= j < self.made@.len() ==> (#[trigger] self.made@[j])@ != dir@,
                forall|j: int| 0 <= j < i ==> !lies_in((#[trigger] self.list@[j]).path@, dir@),
        {
            if is_below(dir, self.list[i].path.as_str()) {
                return true;
            }
        }
        proof {
            assert forall|name: Seq<char>| !self.files().dom().contains(#[trigger] join_spec(dir@, name)) by {
                let path = join_spec(dir@, name);
                lemma_position(self.list@, path);
                if position_of(self.list@, path) >= 0 {
                    assert(lies_in(self.list@[position_of(self.list@, path)].path@, dir@));
                }
            }
        }
        false
    }

    fn read_dir_names(&self, dir: &str) -> (r: Result<Vec<String>>)
        ensures
            self.dirs().contains(dir@) ==> r is Ok,
    {
        if !self.dir_exists(dir) {
            return Err(Error::CorruptPage("directory not found"));
        }
        Ok(self.names_in(dir))
    }

    fn open_rw_create(&mut self, path: &str) -> (r: Result<()>)
        ensures
            r is Ok,
    {
        if self.find(path).is_none() {
            let file = MemFile { path: String::from_str(path), data: Vec::new(), synced: None };
            proof {
                lemma_file_added(self.list@, file);
                assert(file.data@ =~= Seq::empty());
                lemma_dirs_stay(self.list@, self.list@.push(file), self.made@);
            }
            self.list.push(file);
        }
        Ok(())
    }

    fn file_len(&self, path: &str) -> (r: Result<u64>)
        ensures
            self.files().dom().contains(path@) ==> r is Ok,
    {
        match self.find(path) {
            Some(i) => Ok(self.list[i].data.len() as u64),
            None => Err(Error::CorruptPage("file not found")),
        }
    }

    fn set_len(&mut self, path: &str, len: u64) -> (r: Result<()>)
        ensures
            old(self).files().dom().contains(path@) && len <= usize::MAX ==> r is Ok,
            r is Err ==> final(self).files() == old(self).files(),
    {
        if len > usize::MAX as u64 {
            return Err(Error::CorruptPage("file too large"));
        }
        match self.find(path) {
            Some(i) => {
                let keep: usize = if (len as usize) < self.list[i].data.len() {
                    len as usize
                } else {
                    self.list[i].data.len()
                };
                let mut data: Vec<u8> = bytes::copy_range(self.list[i].data.as_slice(), 0, keep);
                bytes::push_zeros(&mut data, len as usize);
                let file = self.list[i].with_data(data);
                proof {
                    assert(data@ =~= resized(self.list@[i as int].data@, len as int));
                    lemma_file_updated(self.list@, i as int, file);
                    lemma_dirs_stay(self.list@, self.list@.update(i as int, file), self.made@);
                }
                self.list.set(i, file);
                Ok(())
            },
            None => Err(Error::CorruptPage("file not found")),
        }
    }

    fn read_exact_at(&self, path: &str, offset: u64, len: usize) -> (r: Result<Vec<u8>>)
        ensures
            self.files().dom().contains(path@) && offset + len <= self.files()[path@].len() ==> r is Ok,
    {
        match self.find(path) {
            Some(i) => {
                let size: usize = self.list[i].data.len();
                if offset > size as u64 || len > size - offset as usize {
                    return Err(Error::CorruptPage("unexpected end of file"));
                }
                let start: usize = offset as usize;
                Ok(bytes::copy_range(self.list[i].data.as_slice(), start, start + len))
            },
            None => Err(Error::CorruptPage("file not found")),
        }
    }

    fn write_all_at(&mut self, path: &str, offset: u64, data: &[u8]) -> (r: Result<()>)
        ensures
            old(self).files().dom().contains(path@) && offset + data@.len() <= usize::MAX ==> r is Ok,
            r is Err ==> final(self).files() == old(self).files(),
    {
        if offset > usize::MAX as u64 || data.len() > usize::MAX - offset as usize {
            return Err(Error::CorruptPage("file too large"));
        }
        let start: usize = offset as usize;
        match self.find(path) {
            Some(i) => {
                let size: usize = self.list[i].data.len();
                let keep: usize = if start < size {
                    start
                } else {
                    size
                };
                let mut next: Vec<u8> = bytes::copy_range(self.list[i].data.as_slice(), 0, keep);
                bytes::push_zeros(&mut next, start);
                bytes::push_bytes(&mut next, data);
                if start + data.len() < size {
                    let tail: Vec<u8> = bytes::copy_range(self.list[i].data.as_slice(), start + data.len(), size);
                    bytes::push_bytes(&mut next, tail.as_slice());
                }
                let file = self.list[i].with_data(next);
                proof {
                    assert(next@ =~= overwritten(self.list@[i as int].data@, offset as int, data@));
                    lemma_file_updated(self.list@, i as int, file);
                    lemma_dirs_stay(self.list@, self.list@.update(i as int, file), self.made@);
                }
                self.list.set(i, file);
                Ok(())
            },
            None => Err(Error::CorruptPage("file not found")),
        }
    }

    fn sync_data(&mut self, path: &str) -> (r: Result<()>)
        ensures
            old(self).files().dom().contains(path@) ==> r is Ok,
            r is Err ==> final(self).synced() == old(self).synced(),
    {
        match self.find(path) {
            Some(i) => {
                let file = MemFile {
                    path: self.list[i].path.clone(),
                    data: bytes::copy_bytes(self.list[i].data.as_slice()),
                    synced: Some(bytes::copy_bytes(self.list[i].data.as_slice())),
                };
                proof {
                    lemma_file_updated(self.list@, i as int, file);
                    lemma_dirs_stay(self.list@, self.list@.update(i as int, file), self.made@);
                }
                self.list.set(i, file);
                Ok(())
            },
            None => Err(Error::CorruptPage("file not found")),
        }
    }

    fn remove_file(&mut self, path: &str) -> (r: Result<()>)
        ensures
            r is Ok,
    {
        let mut kept: Vec<MemFile> = Vec::new();
        let mut i: usize = 0;
        let ghost all = self.list@;
        proof {
            lemma_files_removed(all, path@);
            assert(all.subrange(0, 0) =~= Seq::empty());
        }
        while i < self.list.len()
            invariant
                i <= self.list@.len(),
                all == self.list@,
                same_files(kept@, others(all.subrange(0, i as int), path@)),
            decreases self.list@.len() - i,
        {
            proof {
                assert(all.subrange(0, i + 1).drop_last() =~= all.subrange(0, i as int));
            }
            if !same_text(self.list[i].path.as_str(), path) {
                kept.push(self.list[i].duplicate());
            }
            i = i + 1;
        }
        proof {
            assert(all.subrange(0, i as int) =~= all);
            lemma_same_files(kept@, others(all, path@));
        }
        self.list = kept;
        Ok(())
    }
}

/// Two lists hold the same files.
spec fn same_files(a: Seq<MemFile>, b: Seq<MemFile>) -> bool {
    &&& a.len() == b.len()
    &&& forall|i: int|
        0 <= i < a.len() ==> {
            &&& (#[trigger] a[i]).path@ == b[i].path@
            &&& a[i].data@ == b[i].data@
            &&& (a[i].synced is Some) == (b[i].synced is Some)
            &&& a[i].synced is Some ==> a[i].synced->0@ == b[i].synced->0@
        }
}

proof fn lemma_same_positions(a: Seq<MemFile>, b: Seq<MemFile>, p: Seq<char>)
    requires
        same_files(a, b),
    ensures
        position_of(a, p) == position_of(b, p),
    decreases a.len(),
{
    if a.len() > 0 {
        assert(a[a.len() - 1].path@ == b[a.len() - 1].path@);
        assert(same_files(a.drop_last(), b.drop_last())) by {
            assert forall|i: int| 0 <= i < a.len() - 1 implies {
                &&& (#[trigger] a.drop_last()[i]).path@ == b.drop_last()[i].path@
                &&& a.drop_last()[i].data@ == b.drop_last()[i].data@
                &&& (a.drop_last()[i].synced is Some) == (b.drop_last()[i].synced is Some)
                &&& a.drop_last()[i].synced is Some ==> a.drop_last()[i].synced->0@ == b.drop_last()[i].synced->0@
            } by {
                assert(a[i].path@ == b[i].path@);
            }
        }
        lemma_same_positions(a.drop_last(), b.drop_last(), p);
    }
}

proof fn lemma_same_files(a: Seq<MemFile>, b: Seq<MemFile>)
    requires
        same_files(a, b),
    ensures
        files_of(a) == files_of(b),
        synced_of(a) == synced_of(b),
{
    assert forall|p: Seq<char>| #[trigger] position_of(a, p) == position_of(b, p) by {
        lemma_same_positions(a, b, p);
    }
    assert forall|p: Seq<char>| position_of(a, p) >= 0 implies {
        &&& (#[trigger] a[position_of(a, p)]).data@ == b[position_of(a, p)].data@
        &&& (a[position_of(a, p)].synced is Some) == (b[position_of(a, p)].synced is Some)
        &&& a[position_of(a, p)].synced is Some ==> a[position_of(a, p)].synced->0@ == b[position_of(a, p)].synced->0@
    } by {
        lemma_position(a, p);
        assert(a[position_of(a, p)].path@ == b[position_of(a, p)].path@);
    }
    assert(files_of(a) =~= files_of(b));
    assert(synced_of(a) =~= synced_of(b));
}

impl MemFile {
    fn with_data(&self, data: Vec<u8>) -> (file: MemFile)
        ensures
            file.path@ == self.path@,
            file.data@ == data@,
            (file.synced is Some) == (self.synced is Some),
            self.synced is Some ==> file.synced->0@ == self.synced->0@,
    {
        let synced = match &self.synced {
            Some(old) => Some(bytes::copy_bytes(old.as_slice())),
            None => None,
        };
        MemFile { path: self.path.clone(), data, synced }
    }

    fn duplicate(&self) -> (file: MemFile)
        ensures
            file.path@ == self.path@,
            file.data@ == self.data@,
            (file.synced is Some) == (self.synced is Some),
            self.synced is Some ==> file.synced->0@ == self.synced->0@,
    {
        self.with_data(bytes::copy_bytes(self.data.as_slice()))
    }
}

/// Whether a path lies in a directory or below it.
fn is_below(dir: &str, path: &str) -> (r: bool)
    ensures
        r == lies_in(path@, dir@),
{
    let n: usize = dir.unicode_len();
    let m: usize = path.unicode_len();
    if m <= n {
        return false;
    }
    let mut i: usize = 0;
    while i < n
        invariant
            i <= n < m,
            n == dir@.len(),
            m == path@.len(),
            forall|j: int| 0 <= j < i ==> dir@[j] == path@[j],
        decreases n - i,
    {
        if dir.get_char(i) != path.get_char(i) {
            proof {
                assert forall|name: Seq<char>| path@ != #[trigger] join_spec(dir@, name) by {
                    assert(join_spec(dir@, name)[i as int] == dir@[i as int]);
                }
            }
            return false;
        }
        i = i + 1;
    }
    if path.get_char(n) != '/' {
        proof {
            assert forall|name: Seq<char>| path@ != #[trigger] join_spec(dir@, name) by {
                assert(join_spec(dir@, name)[n as int] == '/');
            }
        }
        return false;
    }
    proof {
        assert(path@ =~= join_spec(dir@, path@.skip(n + 1)));
    }
    true
}

/// The name of a path in a directory, if the path is one of a file right in it.
fn name_in(dir: &str, path: &str) -> (r: Option<String>)
    ensures
        match r {
            Some(name) => path@ == join_spec(dir@, name@) && !name@.contains('/'),
            None => forall|name: Seq<char>| path@ == #[trigger] join_spec(dir@, name) ==> name.contains('/'),
        },
{
    let n: usize = dir.unicode_len();
    let m: usize = path.unicode_len();
    if m <= n {
        return None;
    }
    let mut i: usize = 0;
    while i < n
        invariant
            i <= n < m,
            n == dir@.len(),
            m == path@.len(),
            forall|j: int| 0 <= j < i ==> dir@[j] == path@[j],
        decreases n - i,
    {
        if dir.get_char(i) != path.get_char(i) {
            proof {
                assert forall|name: Seq<char>| path@ == #[trigger] join_spec(dir@, name) implies name.contains('/') by {
                    assert(path@[i as int] == dir@[i as int]);
                }
            }
            return None;
        }
        i = i + 1;
    }
    if path.get_char(n) != '/' {
        proof {
            assert forall|name: Seq<char>| path@ == #[trigger] join_spec(dir@, name) implies name.contains('/') by {
                assert(join_spec(dir@, name)[n as int] == '/');
            }
        }
        return None;
    }
    let mut name = String::new();
    let mut i: usize = n + 1;
    proof {
        assert(name@ =~= path@.subrange(n + 1, n + 1));
    }
    while i < m
        invariant
            n < i <= m,
            m == path@.len(),
            n == dir@.len(),
            name@ == path@.subrange(n + 1, i as int),
            !name@.contains('/'),
        decreases m - i,
    {
        let c: char = path.get_char(i);
        if c == '/' {
            proof {
                assert forall|other: Seq<char>| path@ == #[trigger] join_spec(dir@, other) implies other.contains('/') by {
                    assert(other[i - n - 1] == path@[i as int]);
                }
            }
            return None;
        }
        let ghost before = name@;
        name.push(c);
        proof {
            assert(name@ =~= path@.subrange(n + 1, i + 1));
            assert forall|k: int| 0 <= k < name@.len() implies name@[k] != '/' by {
                if k < before.len() {
                    assert(before.contains(before[k]));
                }
            }
        }
        i = i + 1;
    }
    proof {
        assert(path@ =~= join_spec(dir@, name@));
    }
    Some(name)
}

/// Whether two strings are the same.
pub fn same_text(a: &str, b: &str) -> (r: bool)
    ensures
        r == (a@ == b@),
{
    let n: usize = a.unicode_len();
    if n != b.unicode_len() {
        return false;
    }
    let mut i: usize = 0;
    while i < n
        invariant
            i <= n,
            n == a@.len(),
            n == b@.len(),
            forall|j: int| 0 <= j < i ==> a@[j] == b@[j],
        decreases n - i,
    {
        if a.get_char(i) != b.get_char(i) {
            return false;
        }
        i = i + 1;
    }
    proof {
        assert(a@ =~= b@);
    }
    true
}

} // verus!
