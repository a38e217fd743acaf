use vstd::prelude::*;
use crate::error::ApiError;
use crate::path::{clone_path, lemma_segs_push, segs, ContentPath};

verus! {

/// A named reference from a directory node to a child node, by its index in
/// the block store.
#[derive(Clone, Debug, PartialEq, Eq)]
pub struct Link {
    pub name: String,
    pub target: usize,
}

/// A node of a content-addressed tree, as the content loader delivered it.
#[derive(Clone, Debug, PartialEq, Eq)]
pub enum Node {
    /// A leaf whose bytes the loader streams on demand.
    File { size: u64 },
    /// An internal node listing its children in order.
    Directory { links: Vec<Link> },
    /// A node that the loader failed to fetch.
    Unavailable,
}

/// A node together with the textual form of its content identifier.
#[derive(Clone, Debug, PartialEq, Eq)]
pub struct Block {
    pub cid: String,
    pub node: Node,
}

/// The nodes of a content-addressed tree. A link that does not point to a
/// lower index is malformed; one past the end points to missing content.
pub struct BlockStore {
    pub blocks: Vec<Block>,
}

/// What a resolved unit asks of its destination.
#[derive(Clone, Copy, Debug, PartialEq, Eq, Structural)]
pub enum OutType {
    /// The destination directory must exist.
    Dir,
    /// The bytes of the file node at this index are to be copied out.
    Reader(usize),
}

/// A resolved node with its path relative to the resolution root.
#[derive(Clone, Debug, PartialEq, Eq)]
pub struct ResolvedUnit {
    pub path: Vec<String>,
    pub node: OutType,
}

/// A failure, at the relative path of the unit that was due there.
#[derive(Clone, Debug, PartialEq, Eq)]
pub struct Failure {
    pub path: Vec<String>,
    pub error: ApiError,
}

/// The mathematical form of a failure: a relative path and an error.
pub type FailureView = (Seq<Seq<char>>, ApiError);

/// The mathematical form of a resolution element.
pub type Event = Result<(Seq<Seq<char>>, OutType), FailureView>;

/// The mathematical form of one element of a resolution.
pub open spec fn event_view(e: Result<ResolvedUnit, Failure>) -> Event {
    match e {
        Ok(u) => Ok((segs(u.path@), u.node)),
        Err(f) => Err((segs(f.path@), f.error)),
    }
}

/// The mathematical form of a resolution.
pub open spec fn events(v: Seq<Result<ResolvedUnit, Failure>>) -> Seq<Event> {
    v.map_values(|e: Result<ResolvedUnit, Failure>| event_view(e))
}

/// Whether no element of the sequence is an error.
pub open spec fn no_err(s: Seq<Event>) -> bool {
    forall|i: int| 0 <= i < s.len() ==> (#[trigger] s[i]) is Ok
}

/// A sequence cut just after its first error: what a consumer sees of a
/// resolution that ends at its first failure.
pub open spec fn until_err(s: Seq<Event>) -> Seq<Event>
    decreases s.len(),
{
    if s.len() == 0 {
        s
    } else if s[0] is Err {
        seq![s[0]]
    } else {
        seq![s[0]] + until_err(s.drop_first())
    }
}

/// The pre-order walk of the tree below node `id`, at relative path `path`:
/// the node itself, then each child's walk in the order the directory lists
/// them, with the child's name appended to the path. A node that cannot be
/// loaded appears as an error in its place.
pub open spec fn walk(s: Seq<Block>, id: int, path: Seq<Seq<char>>) -> Seq<Event>
    decreases id, 2int, 0int,
{
    if id < 0 || id >= s.len() {
        seq![Err((path, ApiError::NotFound))]
    } else {
        match s[id].node {
            Node::Unavailable => seq![Err((path, ApiError::LoaderFailure))],
            Node::File { .. } => seq![Ok((path, OutType::Reader(id as usize)))],
            Node::Directory { links } => seq![Ok((path, OutType::Dir))]
                + walk_links(s, id, links@, 0, path),
        }
    }
}

/// The walks of the children `links[k..]` of directory `id`, one after the other.
pub open spec fn walk_links(
    s: Seq<Block>,
    id: int,
    links: Seq<Link>,
    k: int,
    path: Seq<Seq<char>>,
) -> Seq<Event>
    decreases id, 1int, links.len() - k,
{
    if k < 0 || k >= links.len() {
        seq![]
    } else {
        child_walk(s, id, links[k], path) + walk_links(s, id, links, k + 1, path)
    }
}

/// The walk of one child of directory `id`; a link past the end of the
/// store points to missing content, and one that does not point below `id`
/// is malformed.
pub open spec fn child_walk(s: Seq<Block>, id: int, l: Link, path: Seq<Seq<char>>) -> Seq<Event>
    decreases id, 0int, 0int,
{
    if l.target >= s.len() {
        seq![Err((path.push(l.name@), ApiError::NotFound))]
    } else if 0 <= l.target < id {
        walk(s, l.target as int, path.push(l.name@))
    } else {
        seq![Err((path.push(l.name@), ApiError::LoaderFailure))]
    }
}

/// A concatenation holds no error exactly when neither part does.
pub proof fn lemma_no_err_concat(a: Seq<Event>, b: Seq<Event>)
    ensures
        no_err(a + b) == (no_err(a) && no_err(b)),
{
    if no_err(a + b) {
        assert forall|i: int| 0 <= i < b.len() implies (#[trigger] b[i]) is Ok by {
            assert((a + b)[a.len() + i] == b[i]);
        }
        assert forall|i: int| 0 <= i < a.len() implies (#[trigger] a[i]) is Ok by {
            assert((a + b)[i] == a[i]);
        }
    }
}

/// A sequence without errors is not cut.
pub proof fn lemma_until_err_no_err(a: Seq<Event>)
    requires
        no_err(a),
    ensures
        until_err(a) == a,
    decreases a.len(),
{
    if a.len() > 0 {
        assert(a[0] is Ok);
        assert(no_err(a.drop_first()));
        lemma_until_err_no_err(a.drop_first());
        assert(seq![a[0]] + a.drop_first() =~= a);
    }
}

/// Cutting a concatenation: the first part passes whole when it holds no error.
pub proof fn lemma_until_err_concat(a: Seq<Event>, b: Seq<Event>)
    ensures
        until_err(a + b) == if no_err(a) {
            a + until_err(b)
        } else {
            until_err(a)
        },
    decreases a.len(),
{
    if a.len() == 0 {
        assert(a + b =~= b);
    } else {
        assert((a + b).drop_first() =~= a.drop_first() + b);
        lemma_until_err_concat(a.drop_first(), b);
        if a[0] is Err {
            assert(!no_err(a));
        } else {
            if no_err(a) {
                assert(no_err(a.drop_first()));
                assert(seq![a[0]] + (a.drop_first() + until_err(b)) =~= a + until_err(b));
            } else {
                let i = choose|i: int| 0 <= i < a.len() && !(#[trigger] a[i] is Ok);
                assert(a.drop_first()[i - 1] == a[i]);
                assert(!no_err(a.drop_first()));
            }
        }
    }
}

/// The mathematical form grows by one when an element is pushed.
/// A sequence whose middle part holds the first error is cut inside that part.
proof fn lemma_stopped_in_part(d: Seq<Event>, c: Seq<Event>, r: Seq<Event>)
    requires
        no_err(d),
        !no_err(c),
    ensures
        !no_err(d + c + r),
        until_err(d + c + r) == d + until_err(c),
{
    lemma_until_err_concat(d + c, r);
    lemma_no_err_concat(d, c);
    lemma_until_err_concat(d, c);
    lemma_no_err_concat(d + c, r);
}

pub proof fn lemma_events_push(v: Seq<Result<ResolvedUnit, Failure>>, e: Result<ResolvedUnit, Failure>)
    ensures
        events(v.push(e)) == events(v).push(event_view(e)),
{
    assert(events(v.push(e)) =~= events(v).push(event_view(e)));
}

impl BlockStore {
    /// Appends to `out` the walk below node `id` at relative path `path`, up
    /// to and including its first error; returns whether no error came.
    fn walk_into(
        &self,
        id: usize,
        path: Vec<String>,
        out: &mut Vec<Result<ResolvedUnit, Failure>>,
    ) -> (ok: bool)
        ensures
            ok == no_err(walk(self.blocks@, id as int, segs(path@))),
            events(final(out)@) == events(old(out)@) + until_err(walk(self.blocks@, id as int, segs(path@))),
        decreases id,
    {
        let ghost s = self.blocks@;
        let ghost p = segs(path@);
        let ghost w = walk(s, id as int, p);
        let ghost prev = out@;
        if id >= self.blocks.len() {
            let f = Failure { path, error: ApiError::NotFound };
            out.push(Err(f));
            proof {
                lemma_events_push(prev, Err(f));
                assert(!(w[0] is Ok));
                assert(until_err(w) =~= w);
            }
            return false;
        }
        match &self.blocks[id].node {
            Node::Unavailable => {
                let f = Failure { path, error: ApiError::LoaderFailure };
                out.push(Err(f));
                proof {
                    lemma_events_push(prev, Err(f));
                    assert(!(w[0] is Ok));
                    assert(until_err(w) =~= w);
                }
                false
            },
            Node::File { .. } => {
                let u = ResolvedUnit { path, node: OutType::Reader(id) };
                out.push(Ok(u));
                proof {
                    lemma_events_push(prev, Ok(u));
                    assert(no_err(w));
                    lemma_until_err_no_err(w);
                }
                true
            },
            Node::Directory { links } => {
                let here = clone_path(&path);
                let u = ResolvedUnit { path: here, node: OutType::Dir };
                out.push(Ok(u));
                let ghost head = seq![event_view(Ok(u))];
                proof {
                    lemma_events_push(prev, Ok(u));
                    assert(head == seq![Ok::<(Seq<Seq<char>>, OutType), FailureView>((p, OutType::Dir))]);
                    assert(no_err(head));
                }
                let ghost ls = links@;
                let mut done: Ghost<Seq<Event>> = Ghost(head);
                let mut k: usize = 0;
                while k < links.len()
                    invariant
                        0 <= k <= ls.len(),
                        ls == links@,
                        s == self.blocks@,
                        id < s.len(),
                        s[id as int].node == (Node::Directory { links: *links }),
                        p == segs(path@),
                        w == walk(s, id as int, p),
                        w == done@ + walk_links(s, id as int, ls, k as int, p),
                        no_err(done@),
                        events(out@) == events(prev) + done@,
                        prev == old(out)@,
                    decreases ls.len() - k,
                {
                    let l = &links[k];
                    let ghost cw = child_walk(s, id as int, *l, p);
                    let ghost rest = walk_links(s, id as int, ls, k + 1, p);
                    assert(walk_links(s, id as int, ls, k as int, p) == cw + rest);
                    let ghost before = out@;
                    let mut child = clone_path(&path);
                    let ghost cp = child@;
                    child.push(l.name.clone());
                    proof {
                        lemma_segs_push(cp, l.name);
                    }
                    if l.target >= self.blocks.len() || l.target >= id {
                        let error = if l.target >= self.blocks.len() {
                            ApiError::NotFound
                        } else {
                            ApiError::LoaderFailure
                        };
                        let f = Failure { path: child, error };
                        out.push(Err(f));
                        proof {
                            lemma_events_push(before, Err(f));
                            assert(cw == seq![event_view(Err(f))]);
                            assert(until_err(cw) =~= cw);
                            assert(!(cw[0] is Ok));
                            assert(w =~= done@ + cw + rest);
                            lemma_stopped_in_part(done@, cw, rest);
                            assert(events(out@) =~= events(prev) + (done@ + until_err(cw)));
                        }
                        return false;
                    }
                    let child_ok = self.walk_into(l.target, child, out);
                    if !child_ok {
                        proof {
                            assert(w =~= done@ + cw + rest);
                            lemma_stopped_in_part(done@, cw, rest);
                            assert(events(out@) =~= events(prev) + (done@ + until_err(cw)));
                        }
                        return false;
                    }
                    proof {
                        lemma_no_err_concat(done@, cw);
                        lemma_until_err_no_err(cw);
                        assert(done@ + cw + rest =~= (done@ + cw) + rest);
                    }
                    done = Ghost(done@ + cw);
                    k = k + 1;
                }
                proof {
                    assert(walk_links(s, id as int, ls, k as int, p) =~= Seq::<Event>::empty());
                    assert(w =~= done@);
                    lemma_until_err_no_err(w);
                }
                true
            },
        }
    }
}


/// The index of the first block at or after `from` whose identifier reads
/// `cid`, or the store's length when there is none.
pub open spec fn find_cid(s: Seq<Block>, cid: Seq<char>, from: int) -> int
    decreases s.len() - from,
{
    if from < 0 || from >= s.len() {
        s.len() as int
    } else if s[from].cid@ == cid {
        from
    } else {
        find_cid(s, cid, from + 1)
    }
}

/// The index of the first link at or after `k` named `name`, or the number of
/// links when there is none.
pub open spec fn find_link(links: Seq<Link>, name: Seq<char>, k: int) -> int
    decreases links.len() - k,
{
    if k < 0 || k >= links.len() {
        links.len() as int
    } else if links[k].name@ == name {
        k
    } else {
        find_link(links, name, k + 1)
    }
}

/// The node reached from node `id` by following the named segments.
pub open spec fn descend(s: Seq<Block>, id: int, names: Seq<Seq<char>>) -> Result<int, ApiError>
    decreases names.len(),
{
    if names.len() == 0 {
        Ok(id)
    } else if id < 0 || id >= s.len() {
        Err(ApiError::NotFound)
    } else {
        match s[id].node {
            Node::Unavailable => Err(ApiError::LoaderFailure),
            Node::File { .. } => Err(ApiError::NotFound),
            Node::Directory { links } => {
                let j = find_link(links@, names[0], 0);
                if j >= links@.len() {
                    Err(ApiError::NotFound)
                } else if links@[j].target >= s.len() {
                    Err(ApiError::NotFound)
                } else if links@[j].target >= id {
                    Err(ApiError::LoaderFailure)
                } else {
                    descend(s, links@[j].target as int, names.drop_first())
                }
            },
        }
    }
}

/// What resolving a request yields: the walk below the node that the
/// request addresses, ended at its first error; or the one error met on the
/// way to that node, at the empty relative path.
pub open spec fn resolution(s: Seq<Block>, request: ContentPath) -> Seq<Event> {
    match descend(s, find_cid(s, request.root@, 0), request.segments_view()) {
        Err(e) => seq![Err((Seq::<Seq<char>>::empty(), e))],
        Ok(id) => until_err(walk(s, id, seq![])),
    }
}

impl BlockStore {
    /// The index of the first block whose identifier reads `cid`, or the
    /// store's length when there is none.
    pub fn find_root(&self, cid: &String) -> (r: usize)
        ensures
            r as int == find_cid(self.blocks@, cid@, 0),
    {
        let mut i: usize = 0;
        while i < self.blocks.len()
            invariant
                0 <= i <= self.blocks@.len(),
                find_cid(self.blocks@, cid@, i as int) == find_cid(self.blocks@, cid@, 0),
            decreases self.blocks@.len() - i,
        {
            if self.blocks[i].cid == *cid {
                return i;
            }
            i = i + 1;
        }
        i
    }

    /// Follows the request's segments from node `start`.
    pub fn descend_path(&self, start: usize, names: &Vec<String>) -> (r: Result<usize, ApiError>)
        ensures
            match (r, descend(self.blocks@, start as int, segs(names@))) {
                (Ok(a), Ok(b)) => a as int == b,
                (Err(e), Err(f)) => e == f,
                _ => false,
            },
    {
        let ghost s = self.blocks@;
        let ghost all = segs(names@);
        let mut cur: usize = start;
        let mut i: usize = 0;
        proof {
            assert(all.subrange(0, all.len() as int) =~= all);
        }
        while i < names.len()
            invariant
                s == self.blocks@,
                all == segs(names@),
                0 <= i <= names@.len(),
                descend(s, cur as int, all.subrange(i as int, all.len() as int))
                    == descend(s, start as int, all),
            decreases names@.len() - i,
        {
            let ghost rest = all.subrange(i as int, all.len() as int);
            assert(rest[0] == names@[i as int]@);
            assert(rest.drop_first() =~= all.subrange(i + 1, all.len() as int));
            if cur >= self.blocks.len() {
                return Err(ApiError::NotFound);
            }
            match &self.blocks[cur].node {
                Node::Unavailable => {
                    return Err(ApiError::LoaderFailure);
                },
                Node::File { .. } => {
                    return Err(ApiError::NotFound);
                },
                Node::Directory { links } => {
                    let j = find_link_index(links, &names[i]);
                    if j >= links.len() {
                        return Err(ApiError::NotFound);
                    }
                    if links[j].target >= self.blocks.len() {
                        return Err(ApiError::NotFound);
                    }
                    if links[j].target >= cur {
                        return Err(ApiError::LoaderFailure);
                    }
                    cur = links[j].target;
                },
            }
            i = i + 1;
        }
        proof {
            assert(all.subrange(i as int, all.len() as int) =~= Seq::<Seq<char>>::empty());
        }
        Ok(cur)
    }
}

/// The index of the first link named `name`, or the number of links.
fn find_link_index(links: &Vec<Link>, name: &String) -> (r: usize)
    ensures
        r as int == find_link(links@, name@, 0),
{
    let mut j: usize = 0;
    while j < links.len()
        invariant
            0 <= j <= links@.len(),
            find_link(links@, name@, j as int) == find_link(links@, name@, 0),
        decreases links@.len() - j,
    {
        if links[j].name == *name {
            return j;
        }
        j = j + 1;
    }
    j
}

/// Resolves a request against the store: every unit below the addressed
/// node in pre-order, each tagged with its path relative to that node; the
/// sequence ends with the first error, if any.
pub fn resolve_recursive(store: &BlockStore, request: &ContentPath) -> (r: Vec<Result<ResolvedUnit, Failure>>)
    ensures
        events(r@) == resolution(store.blocks@, *request),
{
    let root = store.find_root(&request.root);
    let mut out: Vec<Result<ResolvedUnit, Failure>> = Vec::new();
    match store.descend_path(root, &request.segments) {
        Err(e) => {
            let f = Failure { path: Vec::new(), error: e };
            out.push(Err(f));
            proof {
                assert(segs(f.path@) =~= Seq::<Seq<char>>::empty());
                assert(events(out@) =~= seq![Err::<(Seq<Seq<char>>, OutType), FailureView>((Seq::<Seq<char>>::empty(), e))]);
            }
        },
        Ok(id) => {
            let _ = store.walk_into(id, Vec::new(), &mut out);
            proof {
                assert(segs(Seq::<String>::empty()) =~= Seq::<Seq<char>>::empty());
                assert(events(Seq::<Result<ResolvedUnit, Failure>>::empty()) =~= Seq::<Event>::empty());
                assert(events(out@) =~= until_err(walk(store.blocks@, id as int, seq![])));
            }
        },
    }
    out
}

/// Resolving a request whose addressed node is a single file yields exactly
/// one unit: a reader of that file, at the empty relative path.
pub proof fn lemma_single_file_resolves_to_one_reader(s: Seq<Block>, request: ContentPath, id: int)
    requires
        descend(s, find_cid(s, request.root@, 0), request.segments_view()) == Ok::<int, ApiError>(id),
        0 <= id < s.len(),
        s[id].node is File,
    ensures
        resolution(s, request) == seq![Ok::<(Seq<Seq<char>>, OutType), FailureView>((Seq::<Seq<char>>::empty(), OutType::Reader(id as usize)))],
{
    let w = walk(s, id, seq![]);
    assert(w.len() == 1 && w[0] is Ok);
    assert(no_err(w));
    lemma_until_err_no_err(w);
}

/// The relative path an element of a resolution concerns.
pub open spec fn event_path(e: Event) -> Seq<Seq<char>> {
    match e {
        Ok((q, _)) => q,
        Err((q, _)) => q,
    }
}

/// Path `q` is `p` or lies below it.
pub open spec fn at_or_below(p: Seq<Seq<char>>, q: Seq<Seq<char>>) -> bool {
    p.len() <= q.len() && q.subrange(0, p.len() as int) == p
}

/// The walk of a subtree starts with the element for its root, at the
/// root's path, and every later element lies strictly below that path: a
/// directory comes before everything beneath it.
pub proof fn lemma_walk_root_first(s: Seq<Block>, id: int, p: Seq<Seq<char>>)
    ensures
        walk(s, id, p).len() > 0,
        event_path(walk(s, id, p)[0]) == p,
        forall|i: int| 1 <= i < walk(s, id, p).len() ==> at_or_below(p, #[trigger] event_path(walk(s, id, p)[i]))
            && event_path(walk(s, id, p)[i]).len() > p.len(),
    decreases id, 2int, 0int,
{
    if 0 <= id < s.len() {
        if let Node::Directory { links } = s[id].node {
            lemma_links_below(s, id, links@, 0, p);
            let w = walk(s, id, p);
            let wl = walk_links(s, id, links@, 0, p);
            assert forall|i: int| 1 <= i < w.len() implies at_or_below(p, #[trigger] event_path(w[i]))
                && event_path(w[i]).len() > p.len() by {
                assert(w[i] == wl[i - 1]);
            }
        }
    }
}

proof fn lemma_links_below(s: Seq<Block>, id: int, links: Seq<Link>, k: int, p: Seq<Seq<char>>)
    ensures
        forall|i: int| 0 <= i < walk_links(s, id, links, k, p).len()
            ==> at_or_below(p, #[trigger] event_path(walk_links(s, id, links, k, p)[i]))
                && event_path(walk_links(s, id, links, k, p)[i]).len() > p.len(),
    decreases id, 1int, links.len() - k,
{
    if 0 <= k < links.len() {
        let l = links[k];
        let q = p.push(l.name@);
        let cw = child_walk(s, id, l, p);
        lemma_links_below(s, id, links, k + 1, p);
        let rest = walk_links(s, id, links, k + 1, p);
        let wl = walk_links(s, id, links, k, p);
        assert(wl == cw + rest);
        assert(q.subrange(0, p.len() as int) =~= p);
        if l.target < s.len() && 0 <= l.target < id {
            lemma_walk_root_first(s, l.target as int, q);
        }
        assert forall|i: int| 0 <= i < cw.len() implies at_or_below(p, #[trigger] event_path(cw[i]))
            && event_path(cw[i]).len() > p.len() by {
            let r = event_path(cw[i]);
            if l.target < s.len() && 0 <= l.target < id {
                if i == 0 {
                    assert(r == q);
                    assert(r.subrange(0, q.len() as int) =~= q);
                }
            } else {
                assert(cw.len() == 1);
                assert(r == q);
                assert(r.subrange(0, q.len() as int) =~= q);
            }
            assert(at_or_below(q, r));
            assert(r.subrange(0, p.len() as int) =~= r.subrange(0, q.len() as int).subrange(0, p.len() as int));
        }
        assert forall|i: int| 0 <= i < wl.len() implies at_or_below(p, #[trigger] event_path(wl[i]))
            && event_path(wl[i]).len() > p.len() by {
            if i < cw.len() {
                assert(wl[i] == cw[i]);
            } else {
                assert(wl[i] == rest[i - cw.len()]);
            }
        }
    }
}

/// In the walk of a subtree, every file below the subtree's root has a
/// directory unit at its parent path.
pub proof fn lemma_file_parent_is_dir(s: Seq<Block>, id: int, p: Seq<Seq<char>>)
    ensures
        forall|i: int| 0 <= i < walk(s, id, p).len() && (#[trigger] walk(s, id, p)[i]) is Ok
            && walk(s, id, p)[i]->Ok_0.1 is Reader && walk(s, id, p)[i]->Ok_0.0.len() > p.len()
            ==> exists|j: int| 0 <= j < walk(s, id, p).len()
                && #[trigger] walk(s, id, p)[j] == Ok::<(Seq<Seq<char>>, OutType), FailureView>((walk(s, id, p)[i]->Ok_0.0.drop_last(), OutType::Dir)),
    decreases id, 2int, 0int,
{
    if 0 <= id < s.len() {
        if let Node::Directory { links } = s[id].node {
            let w = walk(s, id, p);
            let wl = walk_links(s, id, links@, 0, p);
            lemma_links_file_parent(s, id, links@, 0, p);
            assert(w[0] == Ok::<(Seq<Seq<char>>, OutType), FailureView>((p, OutType::Dir)));
            assert forall|i: int| 0 <= i < w.len() && (#[trigger] w[i]) is Ok
                && w[i]->Ok_0.1 is Reader && w[i]->Ok_0.0.len() > p.len()
                implies exists|j: int| 0 <= j < w.len()
                    && #[trigger] w[j] == Ok::<(Seq<Seq<char>>, OutType), FailureView>((w[i]->Ok_0.0.drop_last(), OutType::Dir)) by {
                assert(w[i] == wl[i - 1]);
                let r = w[i]->Ok_0.0;
                if r.drop_last() == p {
                    assert(w[0] == Ok::<(Seq<Seq<char>>, OutType), FailureView>((r.drop_last(), OutType::Dir)));
                } else {
                    let j = choose|j: int| 0 <= j < wl.len()
                        && #[trigger] wl[j] == Ok::<(Seq<Seq<char>>, OutType), FailureView>((r.drop_last(), OutType::Dir));
                    assert(w[j + 1] == wl[j]);
                }
            }
        }
    }
}

proof fn lemma_links_file_parent(s: Seq<Block>, id: int, links: Seq<Link>, k: int, p: Seq<Seq<char>>)
    ensures
        forall|i: int| 0 <= i < walk_links(s, id, links, k, p).len()
            && (#[trigger] walk_links(s, id, links, k, p)[i]) is Ok
            && walk_links(s, id, links, k, p)[i]->Ok_0.1 is Reader
            ==> walk_links(s, id, links, k, p)[i]->Ok_0.0.len() > p.len()
                && (walk_links(s, id, links, k, p)[i]->Ok_0.0.drop_last() == p
                || exists|j: int| 0 <= j < walk_links(s, id, links, k, p).len()
                    && #[trigger] walk_links(s, id, links, k, p)[j] == Ok::<(Seq<Seq<char>>, OutType), FailureView>((walk_links(s, id, links, k, p)[i]->Ok_0.0.drop_last(), OutType::Dir))),
    decreases id, 1int, links.len() - k,
{
    if 0 <= k < links.len() {
        let l = links[k];
        let q = p.push(l.name@);
        let cw = child_walk(s, id, l, p);
        let rest = walk_links(s, id, links, k + 1, p);
        let wl = walk_links(s, id, links, k, p);
        lemma_links_file_parent(s, id, links, k + 1, p);
        assert(wl == cw + rest);
        let inner = l.target < s.len() && 0 <= l.target < id;
        if inner {
            lemma_file_parent_is_dir(s, l.target as int, q);
            lemma_walk_root_first(s, l.target as int, q);
        }
        assert forall|i: int| 0 <= i < wl.len() && (#[trigger] wl[i]) is Ok && wl[i]->Ok_0.1 is Reader
            implies wl[i]->Ok_0.0.len() > p.len()
                && (wl[i]->Ok_0.0.drop_last() == p
                || exists|j: int| 0 <= j < wl.len()
                    && #[trigger] wl[j] == Ok::<(Seq<Seq<char>>, OutType), FailureView>((wl[i]->Ok_0.0.drop_last(), OutType::Dir))) by {
            let r = wl[i]->Ok_0.0;
            if i < cw.len() {
                assert(wl[i] == cw[i]);
                assert(inner);
                if i == 0 {
                    assert(r == q);
                    assert(q.drop_last() =~= p);
                } else {
                    assert(cw == walk(s, l.target as int, q));
                    assert(event_path(cw[i]) == r);
                    assert(at_or_below(q, r) && r.len() > q.len());
                    if r.len() > q.len() {
                        let j = choose|j: int| 0 <= j < cw.len()
                            && #[trigger] cw[j] == Ok::<(Seq<Seq<char>>, OutType), FailureView>((r.drop_last(), OutType::Dir));
                        assert(wl[j] == cw[j]);
                    }
                }
            } else {
                assert(wl[i] == rest[i - cw.len()]);
                if rest[i - cw.len()]->Ok_0.0.drop_last() != p {
                    let j = choose|j: int| 0 <= j < rest.len()
                        && #[trigger] rest[j] == Ok::<(Seq<Seq<char>>, OutType), FailureView>((r.drop_last(), OutType::Dir));
                    assert(wl[j + cw.len()] == rest[j]);
                }
            }
        }
    }
}

} // verus!
