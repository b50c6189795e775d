//! Walking a directory tree for the files in it.
//!
//! The walk keeps a stack of paths still to visit, starting with the root
//! directory. Files taken off the stack are recorded; directories taken off
//! it are listed by the caller, and their entries pushed in listing order.
use vstd::prelude::*;

use crate::error::FilesystemError;

verus! {

/// An entry of a directory listing: a file or a subdirectory, by name.
#[derive(Debug, Clone, PartialEq, Eq)]
pub enum DirEntry {
    File(Vec<u8>),
    Directory(Vec<u8>),
}

/// A failure of the filesystem while walking a directory tree.
#[derive(Debug, Clone, Copy, PartialEq, Eq)]
pub struct DirectoryError(pub FilesystemError);

/// A path still to visit: a file or a directory, as its components from the
/// root of the walk.
#[derive(Debug)]
pub enum SearchPath {
    File(Vec<Vec<u8>>),
    Directory(Vec<Vec<u8>>),
}

/// The components of a path as values.
pub open spec fn path_view(p: Seq<Vec<u8>>) -> Seq<Seq<u8>> {
    p.map_values(|c: Vec<u8>| c@)
}

/// The value of a path still to visit: whether it is a directory, and its
/// components.
pub open spec fn search_view(s: SearchPath) -> (bool, Seq<Seq<u8>>) {
    match s {
        SearchPath::File(p) => (false, path_view(p@)),
        SearchPath::Directory(p) => (true, path_view(p@)),
    }
}

/// A walk for the files under a directory in progress: the files found so
/// far and the paths still to visit, the next one last.
#[derive(Debug)]
pub struct FileSearch {
    out: Vec<Vec<Vec<u8>>>,
    stack: Vec<SearchPath>,
}

impl View for FileSearch {
    type V = (Seq<Seq<Seq<u8>>>, Seq<(bool, Seq<Seq<u8>>)>);

    closed spec fn view(&self) -> (Seq<Seq<Seq<u8>>>, Seq<(bool, Seq<Seq<u8>>)>) {
        (
            self.out@.map_values(|p: Vec<Vec<u8>>| path_view(p@)),
            self.stack@.map_values(|s: SearchPath| search_view(s)),
        )
    }
}

/// Taking paths off `stack` until a directory turns up: the files taken
/// off are added to `out`. Gives the files found, what is left of the stack
/// and the directory, if one turned up.
pub open spec fn take_files(
    out: Seq<Seq<Seq<u8>>>,
    stack: Seq<(bool, Seq<Seq<u8>>)>,
) -> (Seq<Seq<Seq<u8>>>, Seq<(bool, Seq<Seq<u8>>)>, Option<Seq<Seq<u8>>>)
    decreases stack.len(),
{
    if stack.len() == 0 {
        (out, stack, None)
    } else if stack.last().0 {
        (out, stack.drop_last(), Some(stack.last().1))
    } else {
        take_files(out.push(stack.last().1), stack.drop_last())
    }
}

/// The paths pushed for the entries of directory `dir`, in listing order.
pub open spec fn child_paths(dir: Seq<Seq<u8>>, entries: Seq<DirEntry>) -> Seq<(bool, Seq<Seq<u8>>)> {
    entries.map_values(
        |e: DirEntry|
            match e {
                DirEntry::File(n) => (false, dir.push(n@)),
                DirEntry::Directory(n) => (true, dir.push(n@)),
            },
    )
}

/// A copy of a path with one more component.
fn extend_path(dir: &Vec<Vec<u8>>, name: Vec<u8>) -> (r: Vec<Vec<u8>>)
    ensures
        path_view(r@) == path_view(dir@).push(name@),
{
    let mut r: Vec<Vec<u8>> = Vec::new();
    let mut k: usize = 0;
    while k < dir.len()
        invariant
            k <= dir@.len(),
            path_view(r@) == path_view(dir@).subrange(0, k as int),
        decreases dir@.len() - k,
    {
        let ghost before = path_view(r@);
        r.push(dir[k].clone());
        proof {
            assert(path_view(r@) =~= before.push(dir@[k as int]@));
            assert(path_view(dir@).subrange(0, k + 1) =~= path_view(dir@).subrange(0, k as int).push(
                dir@[k as int]@,
            ));
        }
        k = k + 1;
    }
    let ghost before = path_view(r@);
    let ghost nv = name@;
    r.push(name);
    proof {
        assert(path_view(r@) =~= before.push(nv));
        assert(path_view(dir@).subrange(0, k as int) =~= path_view(dir@));
    }
    r
}

impl FileSearch {
    /// A walk that starts at the root directory.
    pub fn new() -> (r: Self)
        ensures
            r@.0 == Seq::<Seq<Seq<u8>>>::empty(),
            r@.1 == seq![(true, Seq::<Seq<u8>>::empty())],
    {
        let mut stack: Vec<SearchPath> = Vec::new();
        let root: Vec<Vec<u8>> = Vec::new();
        assert(path_view(root@) =~= Seq::<Seq<u8>>::empty());
        stack.push(SearchPath::Directory(root));
        let r = FileSearch { out: Vec::new(), stack };
        assert(r@.0 =~= Seq::<Seq<Seq<u8>>>::empty());
        assert(r@.1 =~= seq![(true, Seq::<Seq<u8>>::empty())]);
        r
    }

    /// Takes paths off the stack, recording files, until a directory turns
    /// up; gives that directory for the caller to list, or nothing when
    /// every path has been visited.
    pub fn next_dir(&mut self) -> (r: Option<Vec<Vec<u8>>>)
        ensures
            ({
                let (o, s, d) = take_files(old(self)@.0, old(self)@.1);
                &&& final(self)@.0 == o
                &&& final(self)@.1 == s
                &&& match d {
                    None => r is None,
                    Some(p) => r matches Some(x) && path_view(x@) == p,
                }
            }),
    {
        loop
            invariant
                take_files(self@.0, self@.1) == take_files(old(self)@.0, old(self)@.1),
            decreases self@.1.len(),
        {
            let ghost o = self@.0;
            let ghost s = self@.1;
            match self.stack.pop() {
                None => {
                    return None;
                },
                Some(SearchPath::Directory(p)) => {
                    proof {
                        assert(self@.1 =~= s.drop_last());
                    }
                    return Some(p);
                },
                Some(SearchPath::File(p)) => {
                    let ghost pv = path_view(p@);
                    self.out.push(p);
                    proof {
                        assert(self@.1 =~= s.drop_last());
                        assert(self@.0 =~= o.push(pv));
                    }
                },
            }
        }
    }

    /// Pushes the entries of directory `dir`, in listing order.
    pub fn expand(&mut self, dir: &Vec<Vec<u8>>, entries: Vec<DirEntry>)
        ensures
            final(self)@.0 == old(self)@.0,
            final(self)@.1 == old(self)@.1.add(child_paths(path_view(dir@), entries@)),
    {
        let ghost start = self@.1;
        let ghost dv = path_view(dir@);
        let mut k: usize = 0;
        while k < entries.len()
            invariant
                k <= entries@.len(),
                dv == path_view(dir@),
                self@.0 == old(self)@.0,
                self@.1 == start.add(child_paths(dv, entries@.subrange(0, k as int))),
            decreases entries@.len() - k,
        {
            let ghost before = self@.1;
            let s = match &entries[k] {
                DirEntry::File(n) => SearchPath::File(extend_path(dir, n.clone())),
                DirEntry::Directory(n) => SearchPath::Directory(extend_path(dir, n.clone())),
            };
            self.stack.push(s);
            proof {
                assert(self@.1 =~= before.push(search_view(s)));
                assert(child_paths(dv, entries@.subrange(0, k + 1)) =~= child_paths(
                    dv,
                    entries@.subrange(0, k as int),
                ).push(search_view(s)));
                assert(start.add(child_paths(dv, entries@.subrange(0, k + 1))) =~= start.add(
                    child_paths(dv, entries@.subrange(0, k as int)),
                ).push(search_view(s)));
            }
            k = k + 1;
        }
        assert(entries@.subrange(0, k as int) =~= entries@);
    }

    /// The files found, each as its components from the root.
    pub fn finish(self) -> (r: Vec<Vec<Vec<u8>>>)
        ensures
            r@.map_values(|p: Vec<Vec<u8>>| path_view(p@)) == self@.0,
    {
        self.out
    }
}

} // verus!
