//! The state of a folder download: which directories below the
//! destination have been created.
//!
//! A file of a folder download lies below a chain of directories. Before
//! the file is written, the directories of the chain that do not exist yet
//! are created, the outermost first, and each directory is created once.

use vstd::prelude::*;
use crate::text::{lemma_views_push, views};

verus! {

/// A folder download in progress: the directory that it fills, and the
/// directories below it that have been created, each as the path that
/// leads to it.
pub struct LocalDownloadState {
    root: String,
    created: Vec<Vec<String>>,
}

/// The paths of the directories of a list.
pub open spec fn paths(list: Seq<Vec<String>>) -> Seq<Seq<Seq<char>>> {
    Seq::new(list.len(), |i: int| views(list[i]@))
}

/// The directories on the way to the last of `directories`, the outermost
/// first, each as the path that leads to it.
pub open spec fn directory_chain(directories: Seq<Seq<char>>) -> Seq<Seq<Seq<char>>> {
    Seq::new(directories.len(), |i: int| directories.take(i + 1))
}

/// Those of the `wanted` directories that are not among `created`.
pub open spec fn missing_directories(
    created: Seq<Seq<Seq<char>>>,
    wanted: Seq<Seq<Seq<char>>>,
) -> Seq<Seq<Seq<char>>>
    decreases wanted.len(),
{
    if wanted.len() == 0 {
        Seq::empty()
    } else if created.contains(wanted.last()) {
        missing_directories(created, wanted.drop_last())
    } else {
        missing_directories(created, wanted.drop_last()).push(wanted.last())
    }
}

/// Whether two paths name the same directory.
pub fn same_path(a: &Vec<String>, b: &Vec<String>) -> (r: bool)
    ensures
        r == (views(a@) == views(b@)),
{
    if a.len() != b.len() {
        assert(views(a@).len() != views(b@).len());
        return false;
    }
    let mut i: usize = 0;
    while i < a.len()
        invariant
            i <= a.len(),
            a.len() == b.len(),
            forall|k: int| 0 <= k < i ==> views(a@)[k] == views(b@)[k],
        decreases a.len() - i,
    {
        if a[i] != b[i] {
            assert(views(a@)[i as int] != views(b@)[i as int]);
            return false;
        }
        i += 1;
    }
    assert(views(a@) =~= views(b@));
    true
}

/// A copy of a path.
pub fn copy_path(path: &Vec<String>) -> (r: Vec<String>)
    ensures
        views(r@) == views(path@),
{
    let mut r: Vec<String> = Vec::new();
    let mut i: usize = 0;
    while i < path.len()
        invariant
            i <= path.len(),
            views(r@) == views(path@).take(i as int),
        decreases path.len() - i,
    {
        let name = path[i].clone();
        proof {
            lemma_views_push(r@, name);
            assert(views(path@).take(i + 1) == views(path@).take(i as int).push(name@));
        }
        r.push(name);
        i += 1;
    }
    assert(views(path@).take(path.len() as int) == views(path@));
    r
}

/// The missing directories of a chain are not created, differ from each
/// other, and together with the created ones they are the whole chain.
pub proof fn lemma_missing_directories(created: Seq<Seq<Seq<char>>>, directories: Seq<Seq<char>>)
    requires
        created.no_duplicates(),
    ensures
        (created + missing_directories(created, directory_chain(directories))).no_duplicates(),
        forall|i: int|
            0 <= i < directories.len() ==> (created + missing_directories(
                created,
                directory_chain(directories),
            )).contains(#[trigger] directories.take(i + 1)),
{
    lemma_missing_upto(created, directories, directories.len() as int);
    assert(directory_chain(directories).take(directories.len() as int) == directory_chain(
        directories,
    ));
}

/// The statement of `lemma_missing_directories` for the first `n`
/// directories of the chain.
proof fn lemma_missing_upto(created: Seq<Seq<Seq<char>>>, directories: Seq<Seq<char>>, n: int)
    requires
        created.no_duplicates(),
        0 <= n <= directories.len(),
    ensures
        (created + missing_directories(
            created,
            directory_chain(directories).take(n),
        )).no_duplicates(),
        forall|i: int|
            0 <= i < n ==> (created + missing_directories(
                created,
                directory_chain(directories).take(n),
            )).contains(#[trigger] directories.take(i + 1)),
        forall|i: int|
            0 <= i < missing_directories(created, directory_chain(directories).take(n)).len()
                ==> (#[trigger] missing_directories(
                created,
                directory_chain(directories).take(n),
            )[i]).len() <= n,
    decreases n,
{
    let chain = directory_chain(directories);
    if n == 0 {
        assert(created + missing_directories(created, chain.take(0)) == created);
    } else {
        lemma_missing_upto(created, directories, n - 1);
        let before = missing_directories(created, chain.take(n - 1));
        let after = missing_directories(created, chain.take(n));
        let path = directories.take(n);
        assert(chain.take(n).drop_last() == chain.take(n - 1));
        assert(chain.take(n).last() == path);
        let all_before = created + before;
        let all_after = created + after;
        if created.contains(path) {
            assert(after == before);
            let k = created.index_of(path);
            assert(all_after[k] == path);
        } else {
            assert(after == before.push(path));
            assert(all_after == all_before.push(path));
            assert forall|i: int| 0 <= i < all_before.len() implies all_before[i] != path by {
                if i < created.len() {
                    assert(created[i] == all_before[i]);
                    if created[i] == path {
                        assert(created.contains(path));
                    }
                } else {
                    assert(all_before[i] == before[i - created.len()]);
                    assert(before[i - created.len()].len() <= n - 1);
                }
            }
            assert(all_after[all_before.len() as int] == path);
        }
        assert forall|i: int| 0 <= i < n implies all_after.contains(
            #[trigger] directories.take(i + 1),
        ) by {
            if i < n - 1 {
                assert(all_before.contains(directories.take(i + 1)));
                let k = all_before.index_of(directories.take(i + 1));
                assert(all_after[k] == all_before[k]);
            }
        }
    }
}

impl LocalDownloadState {
    /// No directory is recorded twice.
    #[verifier::type_invariant]
    pub closed spec fn wf(self) -> bool {
        paths(self.created@).no_duplicates()
    }

    /// The name of the directory that the download fills.
    pub closed spec fn root(self) -> Seq<char> {
        self.root@
    }

    /// The directories that have been created, in the order of their
    /// creation.
    pub closed spec fn created(self) -> Seq<Seq<Seq<char>>> {
        paths(self.created@)
    }

    /// The state of a download that has created no directory yet.
    pub fn new(root: String) -> (state: Self)
        ensures
            state.root() == root@,
            state.created() == Seq::<Seq<Seq<char>>>::empty(),
    {
        let state = LocalDownloadState { root, created: Vec::new() };
        assert(state.created() == Seq::<Seq<Seq<char>>>::empty());
        state
    }

    /// The name of the directory that the download fills.
    pub fn root_name(&self) -> (r: &String)
        ensures
            r@ == self.root(),
    {
        &self.root
    }

    /// The number of directories that have been created.
    pub fn created_count(&self) -> (n: usize)
        ensures
            n == self.created().len(),
            self.created().no_duplicates(),
    {
        proof {
            use_type_invariant(self);
        }
        self.created.len()
    }

    /// Records that a file below `directories` is about to be written, and
    /// returns the directories that have to be created for it: those on
    /// the way that were not created before, the outermost first.
    pub fn enter(self, directories: &Vec<String>) -> (r: (Self, Vec<Vec<String>>))
        ensures
            r.0.root() == self.root(),
            paths(r.1@) == missing_directories(
                self.created(),
                directory_chain(views(directories@)),
            ),
            r.0.created() == self.created() + paths(r.1@),
            forall|i: int|
                0 <= i < directories.len() ==> r.0.created().contains(
                    #[trigger] views(directories@).take(i + 1),
                ),
    {
        proof {
            use_type_invariant(&self);
            lemma_missing_directories(self.created(), views(directories@));
        }
        let ghost before = self.created();
        let ghost chain = directory_chain(views(directories@));
        let LocalDownloadState { root, mut created } = self;
        let mut fresh: Vec<Vec<String>> = Vec::new();
        let mut path: Vec<String> = Vec::new();
        let known = created.len();
        let mut i: usize = 0;
        assert(paths(fresh@) == missing_directories(before, chain.take(0)));
        assert(paths(created@) == before + paths(fresh@));
        while i < directories.len()
            invariant
                i <= directories.len(),
                known <= created.len(),
                chain == directory_chain(views(directories@)),
                views(path@) == views(directories@).take(i as int),
                paths(created@).take(known as int) == before,
                paths(fresh@) == missing_directories(before, chain.take(i as int)),
                paths(created@) == before + paths(fresh@),
            decreases directories.len() - i,
        {
            let name = directories[i].clone();
            proof {
                lemma_views_push(path@, name);
                assert(views(directories@).take(i + 1) == views(directories@).take(i as int).push(
                    name@,
                ));
                assert(chain.take(i + 1).drop_last() == chain.take(i as int));
                assert(chain.take(i + 1).last() == views(directories@).take(i + 1));
            }
            path.push(name);
            let ghost so_far = paths(created@);
            let ghost fresh_so_far = paths(fresh@);
            if !holds_known(&created, known, &path) {
                let first = copy_path(&path);
                let second = copy_path(&path);
                fresh.push(first);
                created.push(second);
                proof {
                    assert(paths(fresh@) == fresh_so_far.push(views(path@)));
                    assert(paths(created@) == so_far.push(views(path@)));
                    assert(paths(created@).take(known as int) == so_far.take(known as int));
                }
            }
            i += 1;
        }
        assert(chain.take(directories.len() as int) == chain);
        (LocalDownloadState { root, created }, fresh)
    }
}

/// Whether `path` is one of the first `known` paths of `list`.
fn holds_known(list: &Vec<Vec<String>>, known: usize, path: &Vec<String>) -> (r: bool)
    requires
        known <= list.len(),
    ensures
        r == paths(list@).take(known as int).contains(views(path@)),
{
    let mut i: usize = 0;
    while i < known
        invariant
            i <= known <= list.len(),
            forall|k: int| 0 <= k < i ==> paths(list@)[k] != views(path@),
        decreases known - i,
    {
        if same_path(&list[i], path) {
            assert(paths(list@).take(known as int)[i as int] == views(path@));
            return true;
        }
        i += 1;
    }
    assert forall|k: int| 0 <= k < known implies paths(list@).take(known as int)[k] != views(
        path@,
    ) by {
        assert(paths(list@).take(known as int)[k] == paths(list@)[k]);
    }
    false
}

} // verus!
