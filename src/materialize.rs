use vstd::prelude::*;
use crate::error::ApiError;
use crate::path::{clone_path, destination_root, root_is_safe, is_safe_path, is_unsafe_segment, make_output_path, opt_segs, output_path, segs, ContentPath};
use crate::resolve::{lemma_file_parent_is_dir, lemma_walk_root_first, event_path, Failure, FailureView, event_view, events, no_err, resolution, resolve_recursive, until_err, walk, lemma_until_err_no_err, Block, BlockStore, Event, OutType, ResolvedUnit};

verus! {

/// One filesystem step of writing a resolved tree out. Paths are segment
/// sequences below the working directory.
#[derive(Clone, Debug, PartialEq, Eq)]
pub enum FsAction {
    /// Create this directory and any missing ancestors.
    CreateDirAll(Vec<String>),
    /// Create or truncate this file.
    CreateFile(Vec<String>),
    /// Copy the whole byte source of the file node at `source` into `dest`.
    CopyContent { source: usize, dest: Vec<String> },
}

/// The mathematical form of a filesystem step.
pub enum ActionView {
    CreateDirAll(Seq<Seq<char>>),
    CreateFile(Seq<Seq<char>>),
    CopyContent(usize, Seq<Seq<char>>),
}

/// The mathematical form of a step.
pub open spec fn action_view(a: FsAction) -> ActionView {
    match a {
        FsAction::CreateDirAll(p) => ActionView::CreateDirAll(segs(p@)),
        FsAction::CreateFile(p) => ActionView::CreateFile(segs(p@)),
        FsAction::CopyContent { source, dest } => ActionView::CopyContent(source, segs(dest@)),
    }
}

/// The mathematical form of a sequence of steps.
pub open spec fn actions(v: Seq<FsAction>) -> Seq<ActionView> {
    v.map_values(|a: FsAction| action_view(a))
}

/// The steps that write one unit at destination `dest`: a directory is
/// created with its ancestors; a file gets its parent directories, is
/// created, then filled.
pub open spec fn unit_actions(dest: Seq<Seq<char>>, node: OutType) -> Seq<ActionView> {
    match node {
        OutType::Dir => seq![ActionView::CreateDirAll(dest)],
        OutType::Reader(i) => (if dest.len() > 1 {
            seq![ActionView::CreateDirAll(dest.drop_last())]
        } else {
            seq![]
        }) + seq![ActionView::CreateFile(dest), ActionView::CopyContent(i, dest)],
    }
}

/// The steps that write a resolution out, in order, and the failure that
/// stops them, with the relative path of the unit concerned: the first
/// failure of the sequence, or the first unit whose path would leave the
/// destination root. Nothing of that unit or after it is written.
pub open spec fn plan(
    evs: Seq<Event>,
    request: ContentPath,
    output: Option<Seq<Seq<char>>>,
) -> (Seq<ActionView>, Option<FailureView>)
    decreases evs.len(),
{
    if evs.len() == 0 {
        (seq![], None)
    } else {
        match evs[0] {
            Err(e) => (seq![], Some(e)),
            Ok((rel, node)) => match output_path(rel, request, output) {
                Err(e) => (seq![], Some((rel, e))),
                Ok(dest) => {
                    let rest = plan(evs.drop_first(), request, output);
                    (unit_actions(dest, node) + rest.0, rest.1)
                },
            },
        }
    }
}

/// The failure, if any, that stopped the writing.
pub open spec fn outcome(r: Result<(), Failure>) -> Option<FailureView> {
    match r {
        Err(f) => Some((segs(f.path@), f.error)),
        Ok(()) => None,
    }
}

proof fn lemma_actions_push(v: Seq<FsAction>, a: FsAction)
    ensures
        actions(v.push(a)) == actions(v).push(action_view(a)),
{
    assert(actions(v.push(a)) =~= actions(v).push(action_view(a)));
}

/// Appends the steps that write one unit at `dest`.
fn push_unit_actions(dest: Vec<String>, node: OutType, out: &mut Vec<FsAction>)
    ensures
        actions(final(out)@) == actions(old(out)@) + unit_actions(segs(dest@), node),
{
    let ghost d = segs(dest@);
    let ghost v0 = out@;
    match node {
        OutType::Dir => {
            out.push(FsAction::CreateDirAll(dest));
            proof {
                lemma_actions_push(v0, FsAction::CreateDirAll(dest));
                assert(actions(out@) =~= actions(v0) + unit_actions(d, node));
            }
        },
        OutType::Reader(i) => {
            let ghost v1 = out@;
            if dest.len() > 1 {
                let mut parent = clone_path(&dest);
                let _ = parent.pop();
                proof {
                    assert(segs(parent@) =~= d.drop_last());
                }
                out.push(FsAction::CreateDirAll(parent));
                proof {
                    lemma_actions_push(v0, FsAction::CreateDirAll(parent));
                }
            }
            let ghost v2 = out@;
            let file = clone_path(&dest);
            out.push(FsAction::CreateFile(file));
            let ghost v3 = out@;
            out.push(FsAction::CopyContent { source: i, dest });
            proof {
                lemma_actions_push(v2, FsAction::CreateFile(file));
                lemma_actions_push(v3, FsAction::CopyContent { source: i, dest });
                assert(actions(out@) =~= actions(v0) + unit_actions(d, node));
            }
        },
    }
}

/// Plans how a resolution is written out for a request and an optional
/// explicit output root: the steps of every unit in order, up to the first
/// error of the sequence or the first unsafe path, and that error.
pub fn plan_materialize(
    units: &Vec<Result<ResolvedUnit, Failure>>,
    request: &ContentPath,
    output: &Option<Vec<String>>,
) -> (r: (Vec<FsAction>, Result<(), Failure>))
    ensures
        actions(r.0@) == plan(events(units@), *request, opt_segs(*output)).0,
        outcome(r.1) == plan(events(units@), *request, opt_segs(*output)).1,
{
    let ghost evs = events(units@);
    let ghost o = opt_segs(*output);
    let mut out: Vec<FsAction> = Vec::new();
    let mut i: usize = 0;
    proof {
        assert(evs.subrange(0, evs.len() as int) =~= evs);
        assert(actions(out@) =~= Seq::<ActionView>::empty());
    }
    while i < units.len()
        invariant
            evs == events(units@),
            o == opt_segs(*output),
            0 <= i <= units@.len(),
            plan(evs, *request, o).0 == actions(out@) + plan(evs.subrange(i as int, evs.len() as int), *request, o).0,
            plan(evs, *request, o).1 == plan(evs.subrange(i as int, evs.len() as int), *request, o).1,
        decreases units@.len() - i,
    {
        let ghost rest = evs.subrange(i as int, evs.len() as int);
        assert(rest[0] == event_view(units@[i as int]));
        assert(rest.drop_first() =~= evs.subrange(i + 1, evs.len() as int));
        match &units[i] {
            Err(e) => {
                proof {
                    assert(actions(out@) + Seq::<ActionView>::empty() =~= actions(out@));
                }
                let f = Failure { path: clone_path(&e.path), error: e.error };
                return (out, Err(f));
            },
            Ok(u) => {
                match make_output_path(&u.path, request, output) {
                    Err(e) => {
                        proof {
                            assert(actions(out@) + Seq::<ActionView>::empty() =~= actions(out@));
                        }
                        let f = Failure { path: clone_path(&u.path), error: e };
                        return (out, Err(f));
                    },
                    Ok(dest) => {
                        let ghost before = actions(out@);
                        push_unit_actions(dest, u.node, &mut out);
                        proof {
                            let tail = plan(evs.subrange(i + 1, evs.len() as int), *request, o).0;
                            assert(before + (unit_actions(segs(dest@), u.node) + tail)
                                =~= actions(out@) + tail);
                        }
                    },
                }
            },
        }
        i = i + 1;
    }
    proof {
        assert(evs.subrange(i as int, evs.len() as int) =~= Seq::<Event>::empty());
        assert(actions(out@) + Seq::<ActionView>::empty() =~= actions(out@));
    }
    (out, Ok(()))
}

/// Resolves a request and plans how its output is written: the steps to
/// perform in order, and the error, if any, at which they stop.
pub fn get(
    store: &BlockStore,
    request: &ContentPath,
    output: &Option<Vec<String>>,
) -> (r: (Vec<FsAction>, Result<(), Failure>))
    ensures
        actions(r.0@) == plan(resolution(store.blocks@, *request), *request, opt_segs(*output)).0,
        outcome(r.1) == plan(resolution(store.blocks@, *request), *request, opt_segs(*output)).1,
{
    let units = resolve_recursive(store, request);
    plan_materialize(&units, request, output)
}

/// The mathematical form of one element of an output stream.
pub open spec fn output_view(e: Result<(Vec<String>, OutType), Failure>) -> Result<(Seq<Seq<char>>, OutType), FailureView> {
    match e {
        Ok((p, n)) => Ok((segs(p@), n)),
        Err(f) => Err((segs(f.path@), f.error)),
    }
}

/// The mathematical form of an output stream.
pub open spec fn outputs(v: Seq<Result<(Vec<String>, OutType), Failure>>) -> Seq<Result<(Seq<Seq<char>>, OutType), FailureView>> {
    v.map_values(|e: Result<(Vec<String>, OutType), Failure>| output_view(e))
}

/// A resolution with every unit placed at its destination path; it ends
/// with the first failure, or with an unsafe-path failure at the relative
/// path of the first unit that would leave the destination root.
pub open spec fn mapped(
    evs: Seq<Event>,
    request: ContentPath,
    output: Option<Seq<Seq<char>>>,
) -> Seq<Result<(Seq<Seq<char>>, OutType), FailureView>>
    decreases evs.len(),
{
    if evs.len() == 0 {
        seq![]
    } else {
        match evs[0] {
            Err(e) => seq![Err(e)],
            Ok((rel, node)) => match output_path(rel, request, output) {
                Err(e) => seq![Err((rel, e))],
                Ok(dest) => seq![Ok((dest, node))] + mapped(evs.drop_first(), request, output),
            },
        }
    }
}

/// Resolves a request and places each unit at its destination path, without
/// writing anything, for callers that write the output themselves.
pub fn get_stream(
    store: &BlockStore,
    request: &ContentPath,
    output: &Option<Vec<String>>,
) -> (r: Vec<Result<(Vec<String>, OutType), Failure>>)
    ensures
        outputs(r@) == mapped(resolution(store.blocks@, *request), *request, opt_segs(*output)),
{
    let units = resolve_recursive(store, request);
    let ghost evs = events(units@);
    let ghost o = opt_segs(*output);
    let mut out: Vec<Result<(Vec<String>, OutType), Failure>> = Vec::new();
    let mut i: usize = 0;
    proof {
        assert(evs.subrange(0, evs.len() as int) =~= evs);
        assert(outputs(out@) =~= seq![]);
    }
    while i < units.len()
        invariant
            evs == events(units@),
            o == opt_segs(*output),
            evs == resolution(store.blocks@, *request),
            0 <= i <= units@.len(),
            mapped(evs, *request, o) == outputs(out@) + mapped(evs.subrange(i as int, evs.len() as int), *request, o),
        decreases units@.len() - i,
    {
        let ghost rest = evs.subrange(i as int, evs.len() as int);
        assert(rest[0] == event_view(units@[i as int]));
        assert(rest.drop_first() =~= evs.subrange(i + 1, evs.len() as int));
        let ghost prev = out@;
        match &units[i] {
            Err(e) => {
                out.push(Err(Failure { path: clone_path(&e.path), error: e.error }));
                proof {
                    assert(outputs(out@) =~= outputs(prev) + mapped(rest, *request, o));
                }
                return out;
            },
            Ok(u) => {
                match make_output_path(&u.path, request, output) {
                    Err(e) => {
                        out.push(Err(Failure { path: clone_path(&u.path), error: e }));
                        proof {
                            assert(outputs(out@) =~= outputs(prev) + mapped(rest, *request, o));
                        }
                        return out;
                    },
                    Ok(dest) => {
                        out.push(Ok((dest, u.node)));
                        proof {
                            let tail = mapped(evs.subrange(i + 1, evs.len() as int), *request, o);
                            assert(outputs(out@) =~= outputs(prev).push(output_view(Ok((dest, u.node)))));
                            assert(outputs(prev) + (seq![output_view(Ok((dest, u.node)))] + tail)
                                =~= outputs(out@) + tail);
                        }
                    },
                }
            },
        }
        i = i + 1;
    }
    proof {
        assert(evs.subrange(i as int, evs.len() as int) =~= Seq::<Event>::empty());
        assert(outputs(out@) + Seq::<Result<(Seq<Seq<char>>, OutType), FailureView>>::empty() =~= outputs(out@));
    }
    out
}

/// A unit that resolution yielded without error and whose path is safe.
pub open spec fn writable(e: Event) -> bool {
    e is Ok && is_safe_path(e->Ok_0.0)
}

/// The steps that write each unit of an error-free resolution at its path
/// below `dest`, one unit after the other.
pub open spec fn shape_actions(evs: Seq<Event>, dest: Seq<Seq<char>>) -> Seq<ActionView>
    decreases evs.len(),
{
    if evs.len() == 0 {
        seq![]
    } else {
        unit_actions(dest + evs[0]->Ok_0.0, evs[0]->Ok_0.1) + shape_actions(evs.drop_first(), dest)
    }
}

/// Writing a resolution splits at any point before which every unit is
/// writable: the first part is written whole and without error, then the rest.
pub proof fn lemma_plan_split(evs: Seq<Event>, k: int, request: ContentPath, output: Option<Seq<Seq<char>>>)
    requires
        root_is_safe(request, output),
        0 <= k <= evs.len(),
        forall|i: int| 0 <= i < k ==> writable(#[trigger] evs[i]),
    ensures
        plan(evs.take(k), request, output).1 is None,
        plan(evs, request, output).0 == plan(evs.take(k), request, output).0 + plan(evs.skip(k), request, output).0,
        plan(evs, request, output).1 == plan(evs.skip(k), request, output).1,
    decreases k,
{
    if k == 0 {
        assert(evs.skip(0) =~= evs);
        assert(plan(evs.take(0), request, output).0 =~= seq![]);
        assert(seq![] + plan(evs, request, output).0 =~= plan(evs, request, output).0);
    } else {
        let t = evs.drop_first();
        assert forall|i: int| 0 <= i < k - 1 implies writable(#[trigger] t[i]) by {
            assert(t[i] == evs[i + 1]);
        }
        lemma_plan_split(t, k - 1, request, output);
        assert(writable(evs[0]));
        assert(evs.take(k)[0] == evs[0]);
        assert(evs.take(k).drop_first() =~= t.take(k - 1));
        assert(t.skip(k - 1) =~= evs.skip(k));
        let dest = destination_root(request, output) + evs[0]->Ok_0.0;
        assert(output_path(evs[0]->Ok_0.0, request, output) == Ok::<Seq<Seq<char>>, ApiError>(dest));
        assert(unit_actions(dest, evs[0]->Ok_0.1) + (plan(t.take(k - 1), request, output).0 + plan(t.skip(k - 1), request, output).0)
            =~= (unit_actions(dest, evs[0]->Ok_0.1) + plan(t.take(k - 1), request, output).0) + plan(t.skip(k - 1), request, output).0);
    }
}

/// A failure in the resolution stops the writing there: the units before it
/// are written whole, nothing of it or after it is, and that failure, with
/// the relative path of the unit that was due, is the outcome.
pub proof fn lemma_failure_stops_writing(evs: Seq<Event>, k: int, e: FailureView, request: ContentPath, output: Option<Seq<Seq<char>>>)
    requires
        root_is_safe(request, output),
        0 <= k < evs.len(),
        forall|i: int| 0 <= i < k ==> writable(#[trigger] evs[i]),
        evs[k] == Err::<(Seq<Seq<char>>, OutType), FailureView>(e),
    ensures
        plan(evs.take(k), request, output).1 is None,
        plan(evs, request, output).0 == plan(evs.take(k), request, output).0,
        plan(evs, request, output).1 == Some(e),
{
    lemma_plan_split(evs, k, request, output);
    assert(evs.skip(k)[0] == evs[k]);
    assert(plan(evs.take(k), request, output).0 + seq![] =~= plan(evs.take(k), request, output).0);
}

/// A relative path with a parent-directory segment is refused as unsafe.
pub proof fn lemma_parent_segment_is_unsafe(rel: Seq<Seq<char>>, i: int, request: ContentPath, output: Option<Seq<Seq<char>>>)
    requires
        0 <= i < rel.len(),
        rel[i] == seq!['.', '.'],
    ensures
        output_path(rel, request, output) == Err::<Seq<Seq<char>>, ApiError>(ApiError::UnsafePath),
{
    assert(is_unsafe_segment(rel[i]));
}

/// A unit whose path would leave the destination root stops the writing
/// there: nothing of it or after it is written, and the outcome is an
/// unsafe-path error at that unit's relative path.
pub proof fn lemma_unsafe_unit_writes_nothing(evs: Seq<Event>, k: int, request: ContentPath, output: Option<Seq<Seq<char>>>)
    requires
        root_is_safe(request, output),
        0 <= k < evs.len(),
        forall|i: int| 0 <= i < k ==> writable(#[trigger] evs[i]),
        evs[k] is Ok,
        !is_safe_path(evs[k]->Ok_0.0),
    ensures
        plan(evs, request, output).0 == plan(evs.take(k), request, output).0,
        plan(evs, request, output).1 == Some((evs[k]->Ok_0.0, ApiError::UnsafePath)),
{
    lemma_plan_split(evs, k, request, output);
    assert(evs.skip(k)[0] == evs[k]);
    assert(plan(evs.take(k), request, output).0 + seq![] =~= plan(evs.take(k), request, output).0);
}

proof fn lemma_plan_all_writable(evs: Seq<Event>, request: ContentPath, output: Option<Seq<Seq<char>>>)
    requires
        root_is_safe(request, output),
        forall|i: int| 0 <= i < evs.len() ==> writable(#[trigger] evs[i]),
    ensures
        plan(evs, request, output).1 is None,
        plan(evs, request, output).0 == shape_actions(evs, destination_root(request, output)),
    decreases evs.len(),
{
    if evs.len() > 0 {
        let t = evs.drop_first();
        assert forall|i: int| 0 <= i < t.len() implies writable(#[trigger] t[i]) by {
            assert(t[i] == evs[i + 1]);
        }
        assert(writable(evs[0]));
        lemma_plan_all_writable(t, request, output);
    }
}

/// Writing out a tree that resolves without error, and whose names are all
/// safe, reproduces its shape below the destination root: for each unit of
/// the tree in order, its directory, or its file with its content, at the
/// unit's path; and no error.
pub proof fn lemma_tree_round_trip(s: Seq<Block>, request: ContentPath, output: Option<Seq<Seq<char>>>, id: int)
    requires
        root_is_safe(request, output),
        crate::resolve::descend(s, crate::resolve::find_cid(s, request.root@, 0), request.segments_view())
            == Ok::<int, ApiError>(id),
        no_err(walk(s, id, seq![])),
        forall|i: int| 0 <= i < walk(s, id, seq![]).len()
            ==> is_safe_path((#[trigger] walk(s, id, seq![])[i])->Ok_0.0),
    ensures
        resolution(s, request) == walk(s, id, seq![]),
        plan(resolution(s, request), request, output).1 is None,
        plan(resolution(s, request), request, output).0
            == shape_actions(walk(s, id, seq![]), destination_root(request, output)),
{
    let w = walk(s, id, seq![]);
    lemma_until_err_no_err(w);
    assert forall|i: int| 0 <= i < w.len() implies writable(#[trigger] w[i]) by {
        assert(w[i] is Ok);
    }
    lemma_plan_all_writable(w, request, output);
}

/// An action is among the steps for a sequence of units exactly when it is
/// among the steps for one of them.
proof fn lemma_shape_members(evs: Seq<Event>, dest: Seq<Seq<char>>, a: ActionView)
    ensures
        shape_actions(evs, dest).contains(a) <==> exists|i: int| 0 <= i < evs.len()
            && (#[trigger] unit_actions(dest + evs[i]->Ok_0.0, evs[i]->Ok_0.1)).contains(a),
    decreases evs.len(),
{
    if evs.len() > 0 {
        let t = evs.drop_first();
        let u = unit_actions(dest + evs[0]->Ok_0.0, evs[0]->Ok_0.1);
        let r = shape_actions(t, dest);
        lemma_shape_members(t, dest, a);
        assert(shape_actions(evs, dest) == u + r);
        if (u + r).contains(a) {
            let k = choose|k: int| 0 <= k < (u + r).len() && (u + r)[k] == a;
            if k < u.len() {
                assert(u[k] == a);
                assert(u.contains(a));
            } else {
                assert(r[k - u.len()] == a);
                assert(r.contains(a));
                let j = choose|j: int| 0 <= j < t.len()
                    && (#[trigger] unit_actions(dest + t[j]->Ok_0.0, t[j]->Ok_0.1)).contains(a);
                assert(t[j] == evs[j + 1]);
            }
        }
        if exists|i: int| 0 <= i < evs.len()
            && (#[trigger] unit_actions(dest + evs[i]->Ok_0.0, evs[i]->Ok_0.1)).contains(a) {
            let i = choose|i: int| 0 <= i < evs.len()
                && (#[trigger] unit_actions(dest + evs[i]->Ok_0.0, evs[i]->Ok_0.1)).contains(a);
            if i == 0 {
                let k = choose|k: int| 0 <= k < u.len() && u[k] == a;
                assert((u + r)[k] == a);
            } else {
                assert(t[i - 1] == evs[i]);
                assert(unit_actions(dest + t[i - 1]->Ok_0.0, t[i - 1]->Ok_0.1).contains(a));
                let k = choose|k: int| 0 <= k < r.len() && r[k] == a;
                assert((u + r)[u.len() + k] == a);
            }
        }
    }
}

/// What one unit's steps create, action by action.
proof fn lemma_unit_members(dest: Seq<Seq<char>>, node: OutType, a: ActionView)
    ensures
        unit_actions(dest, node).contains(a) <==> match a {
            ActionView::CreateDirAll(q) => (node == OutType::Dir && q == dest)
                || (node is Reader && dest.len() > 1 && q == dest.drop_last()),
            ActionView::CreateFile(q) => node is Reader && q == dest,
            ActionView::CopyContent(b, q) => node == OutType::Reader(b) && q == dest,
        },
{
    let u = unit_actions(dest, node);
    match node {
        OutType::Dir => {
            if u.contains(a) {
                assert(u[0] == a);
            }
            if a == ActionView::CreateDirAll(dest) {
                assert(u[0] == a);
            }
        },
        OutType::Reader(b) => {
            let pre: Seq<ActionView> = if dest.len() > 1 {
                seq![ActionView::CreateDirAll(dest.drop_last())]
            } else {
                seq![]
            };
            assert(u == pre + seq![ActionView::CreateFile(dest), ActionView::CopyContent(b, dest)]);
            if u.contains(a) {
                let k = choose|k: int| 0 <= k < u.len() && u[k] == a;
                if k < pre.len() {
                    assert(u[k] == pre[k]);
                } else {
                    assert(u[k] == seq![ActionView::CreateFile(dest), ActionView::CopyContent(b, dest)][k - pre.len()]);
                }
            }
            match a {
                ActionView::CreateDirAll(q) => {
                    if dest.len() > 1 && q == dest.drop_last() {
                        assert(u[0] == a);
                    }
                },
                ActionView::CreateFile(q) => {
                    if q == dest {
                        assert(u[pre.len() as int] == a);
                    }
                },
                ActionView::CopyContent(c, q) => {
                    if c == b && q == dest {
                        assert(u[pre.len() as int + 1] == a);
                    }
                },
            }
        },
    }
}

/// Writing out a tree that resolves without error, and whose names are all
/// safe, creates exactly the tree's files and fills each with the content
/// of its own file node: a file is created at a path, and content copied
/// there, exactly when the tree has a file node at that path below the
/// destination root. A directory is created exactly at each directory
/// node's path, and at each file's parent path.
pub proof fn lemma_tree_files_exact(s: Seq<Block>, request: ContentPath, output: Option<Seq<Seq<char>>>, id: int)
    requires
        root_is_safe(request, output),
        crate::resolve::descend(s, crate::resolve::find_cid(s, request.root@, 0), request.segments_view())
            == Ok::<int, ApiError>(id),
        no_err(walk(s, id, seq![])),
        forall|i: int| 0 <= i < walk(s, id, seq![]).len()
            ==> is_safe_path((#[trigger] walk(s, id, seq![])[i])->Ok_0.0),
    ensures
        forall|q: Seq<Seq<char>>| plan(resolution(s, request), request, output).0.contains(ActionView::CreateFile(q))
            <==> exists|i: int| 0 <= i < walk(s, id, seq![]).len()
                && (#[trigger] walk(s, id, seq![])[i])->Ok_0.1 is Reader
                && q == destination_root(request, output) + walk(s, id, seq![])[i]->Ok_0.0,
        forall|b: usize, q: Seq<Seq<char>>| plan(resolution(s, request), request, output).0.contains(ActionView::CopyContent(b, q))
            <==> exists|i: int| 0 <= i < walk(s, id, seq![]).len()
                && (#[trigger] walk(s, id, seq![])[i])->Ok_0.1 == OutType::Reader(b)
                && q == destination_root(request, output) + walk(s, id, seq![])[i]->Ok_0.0,
        forall|q: Seq<Seq<char>>| plan(resolution(s, request), request, output).0.contains(ActionView::CreateDirAll(q))
            <==> exists|i: int| 0 <= i < walk(s, id, seq![]).len()
                && ((#[trigger] walk(s, id, seq![])[i])->Ok_0.1 == OutType::Dir
                    && q == destination_root(request, output) + walk(s, id, seq![])[i]->Ok_0.0
                || walk(s, id, seq![])[i]->Ok_0.1 is Reader
                    && (destination_root(request, output) + walk(s, id, seq![])[i]->Ok_0.0).len() > 1
                    && q == (destination_root(request, output) + walk(s, id, seq![])[i]->Ok_0.0).drop_last()),
{
    let w = walk(s, id, seq![]);
    let d = destination_root(request, output);
    lemma_tree_round_trip(s, request, output, id);
    assert forall|q: Seq<Seq<char>>| plan(resolution(s, request), request, output).0.contains(ActionView::CreateFile(q))
        <==> exists|i: int| 0 <= i < w.len() && (#[trigger] w[i])->Ok_0.1 is Reader && q == d + w[i]->Ok_0.0 by {
        let a = ActionView::CreateFile(q);
        lemma_shape_members(w, d, a);
        assert forall|i: int| 0 <= i < w.len() implies
            (#[trigger] unit_actions(d + w[i]->Ok_0.0, w[i]->Ok_0.1)).contains(a)
                == (w[i]->Ok_0.1 is Reader && q == d + w[i]->Ok_0.0) by {
            lemma_unit_members(d + w[i]->Ok_0.0, w[i]->Ok_0.1, a);
        }
        if exists|i: int| 0 <= i < w.len() && (#[trigger] w[i])->Ok_0.1 is Reader && q == d + w[i]->Ok_0.0 {
            let i = choose|i: int| 0 <= i < w.len() && (#[trigger] w[i])->Ok_0.1 is Reader && q == d + w[i]->Ok_0.0;
            assert(unit_actions(d + w[i]->Ok_0.0, w[i]->Ok_0.1).contains(a));
        }
    }
    assert forall|b: usize, q: Seq<Seq<char>>| plan(resolution(s, request), request, output).0.contains(ActionView::CopyContent(b, q))
        <==> exists|i: int| 0 <= i < w.len() && (#[trigger] w[i])->Ok_0.1 == OutType::Reader(b) && q == d + w[i]->Ok_0.0 by {
        let a = ActionView::CopyContent(b, q);
        lemma_shape_members(w, d, a);
        assert forall|i: int| 0 <= i < w.len() implies
            (#[trigger] unit_actions(d + w[i]->Ok_0.0, w[i]->Ok_0.1)).contains(a)
                == (w[i]->Ok_0.1 == OutType::Reader(b) && q == d + w[i]->Ok_0.0) by {
            lemma_unit_members(d + w[i]->Ok_0.0, w[i]->Ok_0.1, a);
        }
        if exists|i: int| 0 <= i < w.len() && (#[trigger] w[i])->Ok_0.1 == OutType::Reader(b) && q == d + w[i]->Ok_0.0 {
            let i = choose|i: int| 0 <= i < w.len() && (#[trigger] w[i])->Ok_0.1 == OutType::Reader(b) && q == d + w[i]->Ok_0.0;
            assert(unit_actions(d + w[i]->Ok_0.0, w[i]->Ok_0.1).contains(a));
        }
    }
    assert forall|q: Seq<Seq<char>>| plan(resolution(s, request), request, output).0.contains(ActionView::CreateDirAll(q))
        <==> exists|i: int| 0 <= i < w.len()
            && ((#[trigger] w[i])->Ok_0.1 == OutType::Dir && q == d + w[i]->Ok_0.0
                || w[i]->Ok_0.1 is Reader && (d + w[i]->Ok_0.0).len() > 1 && q == (d + w[i]->Ok_0.0).drop_last()) by {
        let a = ActionView::CreateDirAll(q);
        lemma_shape_members(w, d, a);
        assert forall|i: int| 0 <= i < w.len() implies
            (#[trigger] unit_actions(d + w[i]->Ok_0.0, w[i]->Ok_0.1)).contains(a)
                == (w[i]->Ok_0.1 == OutType::Dir && q == d + w[i]->Ok_0.0
                    || w[i]->Ok_0.1 is Reader && (d + w[i]->Ok_0.0).len() > 1 && q == (d + w[i]->Ok_0.0).drop_last()) by {
            lemma_unit_members(d + w[i]->Ok_0.0, w[i]->Ok_0.1, a);
        }
        if exists|i: int| 0 <= i < w.len()
            && ((#[trigger] w[i])->Ok_0.1 == OutType::Dir && q == d + w[i]->Ok_0.0
                || w[i]->Ok_0.1 is Reader && (d + w[i]->Ok_0.0).len() > 1 && q == (d + w[i]->Ok_0.0).drop_last()) {
            let i = choose|i: int| 0 <= i < w.len()
                && ((#[trigger] w[i])->Ok_0.1 == OutType::Dir && q == d + w[i]->Ok_0.0
                    || w[i]->Ok_0.1 is Reader && (d + w[i]->Ok_0.0).len() > 1 && q == (d + w[i]->Ok_0.0).drop_last());
            assert(unit_actions(d + w[i]->Ok_0.0, w[i]->Ok_0.1).contains(a));
        }
    }
}

/// Writing out a tree that resolves without error, and whose names are all
/// safe, creates directories exactly at the tree's directory nodes below the
/// destination root; the one other directory is the destination's parent,
/// created when the request addresses a single file.
pub proof fn lemma_tree_dirs_exact(s: Seq<Block>, request: ContentPath, output: Option<Seq<Seq<char>>>, id: int)
    requires
        root_is_safe(request, output),
        crate::resolve::descend(s, crate::resolve::find_cid(s, request.root@, 0), request.segments_view())
            == Ok::<int, ApiError>(id),
        no_err(walk(s, id, seq![])),
        forall|i: int| 0 <= i < walk(s, id, seq![]).len()
            ==> is_safe_path((#[trigger] walk(s, id, seq![])[i])->Ok_0.0),
    ensures
        forall|q: Seq<Seq<char>>| plan(resolution(s, request), request, output).0.contains(ActionView::CreateDirAll(q))
            <==> (exists|i: int| 0 <= i < walk(s, id, seq![]).len()
                && (#[trigger] walk(s, id, seq![])[i])->Ok_0.1 == OutType::Dir
                && q == destination_root(request, output) + walk(s, id, seq![])[i]->Ok_0.0)
            || (walk(s, id, seq![])[0]->Ok_0.1 is Reader && destination_root(request, output).len() > 1
                && q == destination_root(request, output).drop_last()),
{
    let w = walk(s, id, seq![]);
    let d = destination_root(request, output);
    let e = Seq::<Seq<char>>::empty();
    lemma_tree_files_exact(s, request, output, id);
    lemma_file_parent_is_dir(s, id, e);
    lemma_walk_root_first(s, id, e);
    assert(d + e =~= d);
    assert forall|q: Seq<Seq<char>>| plan(resolution(s, request), request, output).0.contains(ActionView::CreateDirAll(q))
        <==> (exists|i: int| 0 <= i < w.len() && (#[trigger] w[i])->Ok_0.1 == OutType::Dir && q == d + w[i]->Ok_0.0)
            || (w[0]->Ok_0.1 is Reader && d.len() > 1 && q == d.drop_last()) by {
        if plan(resolution(s, request), request, output).0.contains(ActionView::CreateDirAll(q)) {
            let i = choose|i: int| 0 <= i < w.len()
                && ((#[trigger] w[i])->Ok_0.1 == OutType::Dir && q == d + w[i]->Ok_0.0
                    || w[i]->Ok_0.1 is Reader && (d + w[i]->Ok_0.0).len() > 1 && q == (d + w[i]->Ok_0.0).drop_last());
            if !(w[i]->Ok_0.1 == OutType::Dir && q == d + w[i]->Ok_0.0) {
                let r = w[i]->Ok_0.0;
                assert(w[i] is Ok);
                if r.len() > 0 {
                    let j = choose|j: int| 0 <= j < w.len()
                        && #[trigger] w[j] == Ok::<(Seq<Seq<char>>, OutType), crate::resolve::FailureView>((r.drop_last(), OutType::Dir));
                    assert((d + r).drop_last() =~= d + r.drop_last());
                    assert(w[j]->Ok_0.1 == OutType::Dir && q == d + w[j]->Ok_0.0);
                } else {
                    if i != 0 {
                        assert(event_path(w[i]) == r);
                    }
                    assert(i == 0);
                    assert(d + r =~= d);
                }
            }
        }
        if w[0]->Ok_0.1 is Reader && d.len() > 1 && q == d.drop_last() {
            assert(w[0] is Ok);
            assert(event_path(w[0]) == e);
            assert(d + w[0]->Ok_0.0 =~= d);
        }
    }
}

proof fn lemma_mapped_split(evs: Seq<Event>, k: int, request: ContentPath, output: Option<Seq<Seq<char>>>)
    requires
        root_is_safe(request, output),
        0 <= k <= evs.len(),
        forall|i: int| 0 <= i < k ==> writable(#[trigger] evs[i]),
    ensures
        mapped(evs, request, output) == mapped(evs.take(k), request, output) + mapped(evs.skip(k), request, output),
    decreases k,
{
    if k == 0 {
        assert(evs.skip(0) =~= evs);
        assert(mapped(evs.take(0), request, output) =~= seq![]);
        assert(seq![] + mapped(evs, request, output) =~= mapped(evs, request, output));
    } else {
        let t = evs.drop_first();
        assert forall|i: int| 0 <= i < k - 1 implies writable(#[trigger] t[i]) by {
            assert(t[i] == evs[i + 1]);
        }
        lemma_mapped_split(t, k - 1, request, output);
        assert(writable(evs[0]));
        assert(evs.take(k)[0] == evs[0]);
        assert(evs.take(k).drop_first() =~= t.take(k - 1));
        assert(t.skip(k - 1) =~= evs.skip(k));
        assert(mapped(evs, request, output) == seq![mapped(evs, request, output)[0]] + mapped(t, request, output));
        assert(mapped(evs.take(k), request, output) == seq![mapped(evs, request, output)[0]] + mapped(t.take(k - 1), request, output));
        assert(seq![mapped(evs, request, output)[0]] + (mapped(t.take(k - 1), request, output) + mapped(t.skip(k - 1), request, output))
            =~= (seq![mapped(evs, request, output)[0]] + mapped(t.take(k - 1), request, output)) + mapped(t.skip(k - 1), request, output));
    }
}

/// The output stream passes every unit before one whose path would leave the
/// destination root, then yields an unsafe-path failure at that unit's
/// relative path, and nothing after it.
pub proof fn lemma_stream_stops_at_unsafe_unit(evs: Seq<Event>, k: int, request: ContentPath, output: Option<Seq<Seq<char>>>)
    requires
        root_is_safe(request, output),
        0 <= k < evs.len(),
        forall|i: int| 0 <= i < k ==> writable(#[trigger] evs[i]),
        evs[k] is Ok,
        !is_safe_path(evs[k]->Ok_0.0),
    ensures
        mapped(evs, request, output) == mapped(evs.take(k), request, output)
            + seq![Err::<(Seq<Seq<char>>, OutType), FailureView>((evs[k]->Ok_0.0, ApiError::UnsafePath))],
        mapped(evs.take(k), request, output).len() == k,
{
    lemma_mapped_split(evs, k, request, output);
    assert(evs.skip(k)[0] == evs[k]);
    lemma_mapped_len(evs.take(k), request, output);
}

proof fn lemma_mapped_len(evs: Seq<Event>, request: ContentPath, output: Option<Seq<Seq<char>>>)
    requires
        root_is_safe(request, output),
        forall|i: int| 0 <= i < evs.len() ==> writable(#[trigger] evs[i]),
    ensures
        mapped(evs, request, output).len() == evs.len(),
    decreases evs.len(),
{
    if evs.len() > 0 {
        let t = evs.drop_first();
        assert forall|i: int| 0 <= i < t.len() implies writable(#[trigger] t[i]) by {
            assert(t[i] == evs[i + 1]);
        }
        assert(writable(evs[0]));
        lemma_mapped_len(t, request, output);
    }
}

} // verus!
