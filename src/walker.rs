use vstd::prelude::*;
use crate::error::ApiError;
use crate::path::{clone_path, lemma_segs_push, segs};
use crate::resolve::Failure;

verus! {

/// A named child of a loaded directory node, by content identifier.
#[derive(Clone, Debug, PartialEq, Eq)]
pub struct LoadedLink {
    pub name: String,
    pub cid: String,
}

/// A node as the content loader delivered it for one identifier.
#[derive(Clone, Debug, PartialEq, Eq)]
pub enum Loaded {
    File,
    Directory { links: Vec<LoadedLink> },
}

/// What a pulled unit asks of its destination.
#[derive(Clone, Debug, PartialEq, Eq)]
pub enum Pulled {
    /// The destination directory must exist.
    Dir,
    /// The bytes of the file with this identifier are to be copied out.
    Reader(String),
}

/// A unit produced by the walker, with its path relative to the root.
#[derive(Clone, Debug, PartialEq, Eq)]
pub struct PulledUnit {
    pub path: Vec<String>,
    pub node: Pulled,
}

/// A node still to be loaded and walked, at a relative path.
#[derive(Clone, Debug, PartialEq, Eq)]
pub struct Task {
    pub cid: String,
    pub path: Vec<String>,
}

/// The mathematical form of a task: an identifier and a relative path.
pub type TaskView = (Seq<char>, Seq<Seq<char>>);

/// The mathematical form of a work list.
pub open spec fn tasks_view(v: Seq<Task>) -> Seq<TaskView> {
    v.map_values(|t: Task| (t.cid@, segs(t.path@)))
}

/// The tasks for the children of a directory at `path`, ready to be pushed
/// so that the first child ends on top: last child first.
pub open spec fn child_tasks(links: Seq<LoadedLink>, path: Seq<Seq<char>>) -> Seq<TaskView> {
    Seq::new(links.len(), |i: int| (links[links.len() - 1 - i].cid@, path.push(links[links.len() - 1 - i].name@)))
}

/// A resolution driven by the content loader, one round trip per pull:
/// the caller loads the identifier that `next_load` names and hands the
/// result to `feed`, which produces the next unit. Units come in pre-order,
/// children in the order their directory lists them; the walk ends after its
/// first failure.
pub struct Walker {
    stack: Vec<Task>,
}

impl Walker {
    /// The work list, its top (next to load) last.
    pub closed spec fn pending(&self) -> Seq<TaskView> {
        tasks_view(self.stack@)
    }

    /// Starts a walk at the node with identifier `cid`, at the empty path.
    pub fn new(cid: String) -> (r: Walker)
        ensures
            r.pending() == seq![(cid@, Seq::<Seq<char>>::empty())],
    {
        let mut stack: Vec<Task> = Vec::new();
        let path: Vec<String> = Vec::new();
        stack.push(Task { cid, path });
        proof {
            assert(segs(path@) =~= Seq::<Seq<char>>::empty());
            assert(tasks_view(stack@) =~= seq![(cid@, Seq::<Seq<char>>::empty())]);
        }
        Walker { stack }
    }

    /// The identifier to load next, or `None` once the walk is over.
    pub fn next_load(&self) -> (r: Option<String>)
        ensures
            self.pending().len() == 0 ==> r is None,
            self.pending().len() > 0 ==> r is Some && r->Some_0@ == self.pending().last().0,
    {
        if self.stack.len() == 0 {
            None
        } else {
            Some(self.stack[self.stack.len() - 1].cid.clone())
        }
    }

    /// Takes what the loader returned for the identifier that `next_load`
    /// named and produces the unit due at that task's path. A directory's
    /// children are queued in order; a loader failure is produced at the
    /// task's path and ends the walk.
    pub fn feed(&mut self, loaded: Result<Loaded, ApiError>) -> (r: Result<PulledUnit, Failure>)
        requires
            old(self).pending().len() > 0,
        ensures
            ({
                let (cid, path) = old(self).pending().last();
                let rest = old(self).pending().drop_last();
                match loaded {
                    Err(e) => r is Err && segs(r->Err_0.path@) == path && r->Err_0.error == e
                        && final(self).pending().len() == 0,
                    Ok(Loaded::File) => r is Ok && segs(r->Ok_0.path@) == path
                        && r->Ok_0.node is Reader && r->Ok_0.node->Reader_0@ == cid
                        && final(self).pending() == rest,
                    Ok(Loaded::Directory { links }) => r is Ok && segs(r->Ok_0.path@) == path
                        && r->Ok_0.node == Pulled::Dir
                        && final(self).pending() == rest + child_tasks(links@, path),
                }
            }),
    {
        let ghost st0 = self.stack@;
        let top = self.stack.pop().unwrap();
        proof {
            assert(tasks_view(self.stack@) =~= tasks_view(st0).drop_last());
        }
        match loaded {
            Err(e) => {
                self.stack.clear();
                proof {
                    assert(tasks_view(self.stack@) =~= Seq::<TaskView>::empty());
                }
                Err(Failure { path: top.path, error: e })
            },
            Ok(Loaded::File) => {
                Ok(PulledUnit { path: top.path, node: Pulled::Reader(top.cid) })
            },
            Ok(Loaded::Directory { links }) => {
                let ghost base = tasks_view(self.stack@);
                let ghost p = segs(top.path@);
                let ghost ls = links@;
                let mut j: usize = links.len();
                proof {
                    assert(child_tasks(ls, p).subrange(0, 0) =~= Seq::<TaskView>::empty());
                    assert(tasks_view(self.stack@) =~= base + child_tasks(ls, p).subrange(0, 0));
                }
                while j > 0
                    invariant
                        0 <= j <= ls.len(),
                        ls == links@,
                        p == segs(top.path@),
                        tasks_view(self.stack@) == base + child_tasks(ls, p).subrange(0, ls.len() - j),
                    decreases j,
                {
                    j = j - 1;
                    let l = &links[j];
                    let mut child = clone_path(&top.path);
                    let ghost cp = child@;
                    child.push(l.name.clone());
                    proof {
                        lemma_segs_push(cp, l.name);
                    }
                    let ghost before = self.stack@;
                    let t = Task { cid: l.cid.clone(), path: child };
                    self.stack.push(t);
                    proof {
                        let k = ls.len() - 1 - j;
                        assert(child_tasks(ls, p)[k] == (t.cid@, segs(t.path@)));
                        assert(child_tasks(ls, p).subrange(0, k + 1)
                            =~= child_tasks(ls, p).subrange(0, k).push(child_tasks(ls, p)[k]));
                        assert(tasks_view(self.stack@) =~= tasks_view(before).push((t.cid@, segs(t.path@))));
                    }
                }
                proof {
                    assert(child_tasks(ls, p).subrange(0, ls.len() as int) =~= child_tasks(ls, p));
                }
                Ok(PulledUnit { path: top.path, node: Pulled::Dir })
            },
        }
    }
}

/// Follows one segment of a request from a loaded node: the identifier of
/// its first child with that name, or a not-found error.
pub fn follow(loaded: &Loaded, name: &String) -> (r: Result<String, ApiError>)
    ensures
        *loaded is File ==> r == Err::<String, ApiError>(ApiError::NotFound),
        *loaded is Directory && r is Ok ==> exists|i: int| 0 <= i < loaded->Directory_links@.len()
            && (#[trigger] loaded->Directory_links@[i]).name@ == name@
            && loaded->Directory_links@[i].cid@ == r->Ok_0@
            && forall|j: int| 0 <= j < i ==> (#[trigger] loaded->Directory_links@[j]).name@ != name@,
        *loaded is Directory && r is Err ==> r->Err_0 == ApiError::NotFound
            && forall|i: int| 0 <= i < loaded->Directory_links@.len()
                ==> (#[trigger] loaded->Directory_links@[i]).name@ != name@,
{
    match loaded {
        Loaded::File => Err(ApiError::NotFound),
        Loaded::Directory { links } => {
            let mut i: usize = 0;
            while i < links.len()
                invariant
                    0 <= i <= links@.len(),
                    *loaded == (Loaded::Directory { links: *links }),
                    forall|j: int| 0 <= j < i ==> (#[trigger] links@[j]).name@ != name@,
                decreases links@.len() - i,
            {
                if links[i].name == *name {
                    let c = links[i].cid.clone();
                    proof {
                        assert(loaded->Directory_links@[i as int] == links@[i as int]);
                        assert(links@[i as int].name@ == name@ && links@[i as int].cid@ == c@);
                    }
                    return Ok(c);
                }
                i = i + 1;
            }
            Err(ApiError::NotFound)
        },
    }
}

} // verus!
