use vstd::prelude::*;
use crate::error::ApiError;
use crate::path::{clone_path, lemma_segs_push, segs, ContentPath};
use crate::resolve::{
    child_walk, event_view, Failure, FailureView, lemma_no_err_concat, lemma_until_err_concat, lemma_until_err_no_err,
    no_err, resolution, until_err, walk, walk_links, Block, BlockStore, Event, Node, OutType,
    ResolvedUnit,
};

verus! {

/// A part of a walk that is still to be produced.
enum Pending {
    /// The walk below node `id`, at relative path `path`.
    Walk { id: usize, path: Vec<String> },
    /// A failure due at this position.
    Fail(Failure),
}

spec fn pending_events(s: Seq<Block>, p: Pending) -> Seq<Event> {
    match p {
        Pending::Walk { id, path } => walk(s, id as int, segs(path@)),
        Pending::Fail(f) => seq![Err((segs(f.path@), f.error))],
    }
}

/// What a work list still holds, its top (last element) first.
spec fn flat(s: Seq<Block>, st: Seq<Pending>) -> Seq<Event>
    decreases st.len(),
{
    if st.len() == 0 {
        seq![]
    } else {
        pending_events(s, st.last()) + flat(s, st.drop_last())
    }
}

/// A resolution produced one element per pull, by an explicit work list
/// rather than by recursion. It ends after its first error and cannot be
/// restarted.
pub struct Resolver {
    stack: Vec<Pending>,
    emitted: Ghost<Seq<Event>>,
    target: Ghost<Seq<Event>>,
}

impl Resolver {
    /// The elements produced so far.
    pub closed spec fn emitted(&self) -> Seq<Event> {
        self.emitted@
    }

    /// Everything that the resolution produces.
    pub closed spec fn target(&self) -> Seq<Event> {
        self.target@
    }

    /// The resolver's state is consistent with store `s`: what was produced,
    /// followed by what the work list holds, ended at the first error, is the
    /// whole resolution; once an error is produced, nothing is left.
    pub closed spec fn wf(&self, s: Seq<Block>) -> bool {
        &&& self.target@ == until_err(self.emitted@ + flat(s, self.stack@))
        &&& no_err(self.emitted@) || (self.stack@.len() == 0 && self.emitted@.len() > 0
            && no_err(self.emitted@.drop_last()))
    }

    /// What was produced is a prefix of the whole resolution.
    pub proof fn lemma_emitted_prefix(&self, s: Seq<Block>)
        requires
            self.wf(s),
        ensures
            self.emitted().len() <= self.target().len(),
            self.target().subrange(0, self.emitted().len() as int) == self.emitted(),
    {
        let e = self.emitted@;
        if no_err(e) {
            lemma_until_err_concat(e, flat(s, self.stack@));
        } else {
            assert(flat(s, self.stack@) =~= Seq::<Event>::empty());
            assert(e + flat(s, self.stack@) =~= e);
            let d = e.drop_last();
            assert(d + seq![e.last()] =~= e);
            lemma_until_err_concat(d, seq![e.last()]);
            let i = choose|i: int| 0 <= i < e.len() && !(#[trigger] e[i] is Ok);
            if i < e.len() - 1 {
                assert(d[i] == e[i]);
            }
            assert(!(e.last() is Ok));
            assert(until_err(seq![e.last()]) =~= seq![e.last()]);
        }
        assert(self.target@.subrange(0, e.len() as int) =~= e);
    }

    /// Starts resolving a request against the store: finds the addressed
    /// node, or the failure on the way to it.
    pub fn new(store: &BlockStore, request: &ContentPath) -> (r: Resolver)
        ensures
            r.wf(store.blocks@),
            r.emitted() == Seq::<Event>::empty(),
            r.target() == resolution(store.blocks@, *request),
    {
        let s = Ghost(store.blocks@);
        let root = store.find_root(&request.root);
        let mut stack: Vec<Pending> = Vec::new();
        match store.descend_path(root, &request.segments) {
            Err(e) => {
                let f = Failure { path: Vec::new(), error: e };
                stack.push(Pending::Fail(f));
                proof {
                    assert(segs(f.path@) =~= Seq::<Seq<char>>::empty());
                    assert(stack@.drop_last() =~= Seq::<Pending>::empty());
                    assert(flat(s@, Seq::<Pending>::empty()) =~= Seq::<Event>::empty());
                    assert(stack@.last() == Pending::Fail(f));
                    assert(flat(s@, stack@) =~= seq![Err::<(Seq<Seq<char>>, OutType), FailureView>((Seq::<Seq<char>>::empty(), e))]);
                    assert(seq![] + flat(s@, stack@) =~= flat(s@, stack@));
                    assert(!(flat(s@, stack@)[0] is Ok));
                    assert(until_err(flat(s@, stack@)) =~= flat(s@, stack@));
                }
            },
            Ok(id) => {
                let path: Vec<String> = Vec::new();
                let ghost pv = path@;
                stack.push(Pending::Walk { id, path });
                proof {
                    assert(flat(s@, Seq::<Pending>::empty()) =~= Seq::<Event>::empty());
                    assert(stack@.last() == (Pending::Walk { id, path }));
                    assert(segs(path@) =~= Seq::<Seq<char>>::empty());
                    assert(stack@.drop_last() =~= Seq::<Pending>::empty());
                    assert(flat(s@, stack@) =~= walk(s@, id as int, seq![]));
                    assert(seq![] + flat(s@, stack@) =~= flat(s@, stack@));
                }
            },
        }
        Resolver { stack, emitted: Ghost(Seq::empty()), target: Ghost(resolution(store.blocks@, *request)) }
    }

    /// Produces the next element of the resolution, or `None` once the
    /// resolution is complete or has produced its error.
    pub fn next(&mut self, store: &BlockStore) -> (r: Option<Result<ResolvedUnit, Failure>>)
        requires
            old(self).wf(store.blocks@),
        ensures
            final(self).wf(store.blocks@),
            final(self).target() == old(self).target(),
            match r {
                None => final(self).emitted() == final(self).target()
                    && final(self).emitted() == old(self).emitted(),
                Some(e) => final(self).emitted() == old(self).emitted().push(event_view(e)),
            },
    {
        let ghost s = store.blocks@;
        let ghost e0 = self.emitted@;
        let ghost st0 = self.stack@;
        if self.stack.len() == 0 {
            proof {
                assert(e0 + flat(s, st0) =~= e0);
                if no_err(e0) {
                    lemma_until_err_no_err(e0);
                } else {
                    let d = e0.drop_last();
                    assert(d + seq![e0.last()] =~= e0);
                    lemma_until_err_concat(d, seq![e0.last()]);
                    let i = choose|i: int| 0 <= i < e0.len() && !(#[trigger] e0[i] is Ok);
                    if i < e0.len() - 1 {
                        assert(d[i] == e0[i]);
                    }
                    assert(until_err(seq![e0.last()]) =~= seq![e0.last()]);
                }
            }
            return None;
        }
        assert(no_err(e0));
        let top = self.stack.pop().unwrap();
        let ghost rest = self.stack@;
        assert(rest == st0.drop_last());
        assert(flat(s, st0) == pending_events(s, top) + flat(s, rest));
        proof {
            lemma_until_err_concat(e0, flat(s, st0));
        }
        match top {
            Pending::Fail(f) => {
                let ghost fv = (segs(f.path@), f.error);
                let ghost due = seq![Err::<(Seq<Seq<char>>, OutType), FailureView>(fv)];
                assert(pending_events(s, top) == due);
                assert(self.target@ == e0 + until_err(due + flat(s, rest)));
                self.fail(Ghost(fv), Ghost(s), Ghost(e0), Ghost(due), Ghost(rest));
                return Some(Err(f));
            },
            Pending::Walk { id, path } => {
                let ghost p = segs(path@);
                if id >= store.blocks.len() {
                    let ghost due = walk(s, id as int, p);
                    let f = Failure { path, error: ApiError::NotFound };
                    self.fail(Ghost((p, ApiError::NotFound)), Ghost(s), Ghost(e0), Ghost(due), Ghost(rest));
                    return Some(Err(f));
                }
                match &store.blocks[id].node {
                    Node::Unavailable => {
                        let ghost due = walk(s, id as int, p);
                        let f = Failure { path, error: ApiError::LoaderFailure };
                        self.fail(Ghost((p, ApiError::LoaderFailure)), Ghost(s), Ghost(e0), Ghost(due), Ghost(rest));
                        Some(Err(f))
                    },
                    Node::File { .. } => {
                        let u = ResolvedUnit { path, node: OutType::Reader(id) };
                        proof {
                            let ev = event_view(Ok(u));
                            assert(walk(s, id as int, p) == seq![ev]);
                            let e1 = e0.push(ev);
                            assert(e0 + flat(s, st0) =~= e1 + flat(s, rest));
                            assert(no_err(e1));
                        }
                        self.emitted = Ghost(e0.push(event_view(Ok(u))));
                        Some(Ok(u))
                    },
                    Node::Directory { links } => {
                        let ghost ls = links@;
                        let ghost t0 = self.target@;
                        assert(t0 == until_err(e0 + (walk(s, id as int, p) + flat(s, rest))));
                        let mut j: usize = links.len();
                        proof {
                            assert(walk_links(s, id as int, ls, j as int, p) =~= Seq::<Event>::empty());
                            assert(flat(s, self.stack@) =~= walk_links(s, id as int, ls, j as int, p) + flat(s, rest));
                        }
                        while j > 0
                            invariant
                                0 <= j <= ls.len(),
                                ls == links@,
                                p == segs(path@),
                                id < s.len(),
                                s == store.blocks@,
                                flat(s, self.stack@) == walk_links(s, id as int, ls, j as int, p) + flat(s, rest),
                                self.target@ == t0,
                                self.emitted@ == e0,
                                no_err(e0),
                                t0 == until_err(e0 + (walk(s, id as int, p) + flat(s, rest))),
                                s[id as int].node == (Node::Directory { links: *links }),
                            decreases j,
                        {
                            j = j - 1;
                            let l = &links[j];
                            let ghost before = self.stack@;
                            let mut child = clone_path(&path);
                            let ghost cp = child@;
                            child.push(l.name.clone());
                            proof {
                                lemma_segs_push(cp, l.name);
                            }
                            if l.target >= store.blocks.len() {
                                self.stack.push(Pending::Fail(Failure { path: child, error: ApiError::NotFound }));
                            } else if l.target < id {
                                self.stack.push(Pending::Walk { id: l.target, path: child });
                            } else {
                                self.stack.push(Pending::Fail(Failure { path: child, error: ApiError::LoaderFailure }));
                            }
                            proof {
                                assert(self.stack@.drop_last() =~= before);
                                assert(pending_events(s, self.stack@.last()) == child_walk(s, id as int, ls[j as int], p));
                                assert(walk_links(s, id as int, ls, j as int, p)
                                    == child_walk(s, id as int, ls[j as int], p) + walk_links(s, id as int, ls, j + 1, p));
                                assert(flat(s, self.stack@) =~= walk_links(s, id as int, ls, j as int, p) + flat(s, rest));
                            }
                        }
                        let u = ResolvedUnit { path, node: OutType::Dir };
                        proof {
                            let ev = event_view(Ok(u));
                            assert(walk(s, id as int, p) == seq![ev] + walk_links(s, id as int, ls, 0, p));
                            let e1 = e0.push(ev);
                            assert(e0 + flat(s, st0) =~= e1 + flat(s, self.stack@));
                            assert(no_err(e1));
                        }
                        self.emitted = Ghost(e0.push(event_view(Ok(u))));
                        Some(Ok(u))
                    },
                }
            },
        }
    }

    /// Produces failure `e`, which was due in place of `due`, and ends the
    /// resolution.
    fn fail(&mut self, e: Ghost<FailureView>, s: Ghost<Seq<Block>>, e0: Ghost<Seq<Event>>, due: Ghost<Seq<Event>>, rest: Ghost<Seq<Pending>>)
        requires
            no_err(e0@),
            old(self).emitted@ == e0@,
            old(self).stack@ == rest@,
            due@.len() > 0,
            due@[0] == Err::<(Seq<Seq<char>>, OutType), FailureView>(e@),
            old(self).target@ == e0@ + until_err(due@ + flat(s@, rest@)),
        ensures
            final(self).wf(s@),
            final(self).target@ == old(self).target@,
            final(self).emitted@ == e0@.push(Err(e@)),
    {
        let ghost f = due@ + flat(s@, rest@);
        assert(f[0] == due@[0]);
        assert(until_err(f) =~= seq![f[0]]);
        self.stack.clear();
        let ghost e1 = e0@.push(Err(e@));
        proof {
            assert(e1.drop_last() =~= e0@);
            assert(flat(s@, self.stack@) =~= Seq::<Event>::empty());
            assert(e1 + flat(s@, self.stack@) =~= e1);
            assert(e0@ + seq![Err::<(Seq<Seq<char>>, OutType), FailureView>(e@)] =~= e1);
            lemma_until_err_concat(e0@, seq![Err::<(Seq<Seq<char>>, OutType), FailureView>(e@)]);
            assert(until_err(seq![Err::<(Seq<Seq<char>>, OutType), FailureView>(e@)]) =~= seq![Err::<(Seq<Seq<char>>, OutType), FailureView>(e@)]);
        }
        self.emitted = Ghost(e1);
    }
}

} // verus!
