use iroh_api::error::ApiError;
use iroh_api::materialize::{get, get_stream, plan_materialize, FsAction};
use iroh_api::path::{make_output_path, ContentPath};
use iroh_api::resolve::{resolve_recursive, Block, BlockStore, Failure, Link, Node, OutType, ResolvedUnit};

fn p(segs: &[&str]) -> Vec<String> {
    segs.iter().map(|s| s.to_string()).collect()
}

fn link(name: &str, target: usize) -> Link {
    Link { name: name.to_string(), target }
}

fn block(cid: &str, node: Node) -> Block {
    Block { cid: cid.to_string(), node }
}

/// A root directory holding `a.txt` ("hello") and `sub/b.txt` ("world").
fn sample_store() -> BlockStore {
    BlockStore {
        blocks: vec![
            block("bafya", Node::File { size: 5 }),
            block("bafyb", Node::File { size: 5 }),
            block("bafysub", Node::Directory { links: vec![link("b.txt", 1)] }),
            block("bafyroot", Node::Directory { links: vec![link("a.txt", 0), link("sub", 2)] }),
        ],
    }
}

fn unit(path: &[&str], node: OutType) -> Result<ResolvedUnit, Failure> {
    Ok(ResolvedUnit { path: p(path), node })
}

fn failure(path: &[&str], error: ApiError) -> Failure {
    Failure { path: p(path), error }
}

#[test]
fn resolves_directory_tree_in_pre_order() {
    let store = sample_store();
    let req = ContentPath::from_root("bafyroot".to_string());
    let units = resolve_recursive(&store, &req);
    assert_eq!(
        units,
        vec![
            unit(&[], OutType::Dir),
            unit(&["a.txt"], OutType::Reader(0)),
            unit(&["sub"], OutType::Dir),
            unit(&["sub", "b.txt"], OutType::Reader(1)),
        ]
    );
}

#[test]
fn get_writes_tree_under_derived_root() {
    let store = sample_store();
    let req = ContentPath::from_root("bafyroot".to_string());
    let (actions, result) = get(&store, &req, &None);
    assert_eq!(result, Ok(()));
    assert_eq!(
        actions,
        vec![
            FsAction::CreateDirAll(p(&["bafyroot"])),
            FsAction::CreateDirAll(p(&["bafyroot"])),
            FsAction::CreateFile(p(&["bafyroot", "a.txt"])),
            FsAction::CopyContent { source: 0, dest: p(&["bafyroot", "a.txt"]) },
            FsAction::CreateDirAll(p(&["bafyroot", "sub"])),
            FsAction::CreateDirAll(p(&["bafyroot", "sub"])),
            FsAction::CreateFile(p(&["bafyroot", "sub", "b.txt"])),
            FsAction::CopyContent { source: 1, dest: p(&["bafyroot", "sub", "b.txt"]) },
        ]
    );
    let sub_dir = actions.iter().position(|a| *a == FsAction::CreateDirAll(p(&["bafyroot", "sub"]))).unwrap();
    let b_file = actions.iter().position(|a| *a == FsAction::CreateFile(p(&["bafyroot", "sub", "b.txt"]))).unwrap();
    assert!(sub_dir < b_file);
}

#[test]
fn get_with_explicit_output_root() {
    let store = sample_store();
    let req = ContentPath::from_root("bafyroot".to_string());
    let (actions, result) = get(&store, &req, &Some(p(&["out", "here"])));
    assert_eq!(result, Ok(()));
    assert_eq!(actions[0], FsAction::CreateDirAll(p(&["out", "here"])));
    assert_eq!(actions[1], FsAction::CreateDirAll(p(&["out", "here"])));
    assert_eq!(actions[3], FsAction::CopyContent { source: 0, dest: p(&["out", "here", "a.txt"]) });
}

#[test]
fn get_below_a_segment_derives_root_from_last_segment() {
    let store = sample_store();
    let req = ContentPath { root: "bafyroot".to_string(), segments: p(&["sub"]) };
    let (actions, result) = get(&store, &req, &None);
    assert_eq!(result, Ok(()));
    assert_eq!(
        actions,
        vec![
            FsAction::CreateDirAll(p(&["sub"])),
            FsAction::CreateDirAll(p(&["sub"])),
            FsAction::CreateFile(p(&["sub", "b.txt"])),
            FsAction::CopyContent { source: 1, dest: p(&["sub", "b.txt"]) },
        ]
    );
}

#[test]
fn single_file_resolves_to_one_reader() {
    let store = sample_store();
    let req = ContentPath { root: "bafyroot".to_string(), segments: p(&["a.txt"]) };
    let units = resolve_recursive(&store, &req);
    assert_eq!(units, vec![unit(&[], OutType::Reader(0))]);
    let (actions, result) = get(&store, &req, &None);
    assert_eq!(result, Ok(()));
    assert_eq!(
        actions,
        vec![
            FsAction::CreateFile(p(&["a.txt"])),
            FsAction::CopyContent { source: 0, dest: p(&["a.txt"]) },
        ]
    );
}

#[test]
fn unknown_root_is_not_found() {
    let store = sample_store();
    let req = ContentPath::from_root("bafynothing".to_string());
    assert_eq!(resolve_recursive(&store, &req), vec![Err(failure(&[], ApiError::NotFound))]);
    let (actions, result) = get(&store, &req, &None);
    assert!(actions.is_empty());
    assert_eq!(result, Err(failure(&[], ApiError::NotFound)));
}

#[test]
fn missing_segment_is_not_found() {
    let store = sample_store();
    let req = ContentPath { root: "bafyroot".to_string(), segments: p(&["nope"]) };
    assert_eq!(resolve_recursive(&store, &req), vec![Err(failure(&[], ApiError::NotFound))]);
    let req = ContentPath { root: "bafyroot".to_string(), segments: p(&["a.txt", "deeper"]) };
    assert_eq!(resolve_recursive(&store, &req), vec![Err(failure(&[], ApiError::NotFound))]);
}

#[test]
fn loader_failure_mid_stream_leaves_two_units() {
    // A directory of five files, the third of which cannot be loaded.
    let store = BlockStore {
        blocks: vec![
            block("f1", Node::File { size: 1 }),
            block("f2", Node::File { size: 1 }),
            block("f3", Node::Unavailable),
            block("f4", Node::File { size: 1 }),
            block("f5", Node::File { size: 1 }),
            block("dir", Node::Directory {
                links: vec![link("1", 0), link("2", 1), link("3", 2), link("4", 3), link("5", 4)],
            }),
        ],
    };
    let req = ContentPath { root: "dir".to_string(), segments: Vec::new() };
    let units = resolve_recursive(&store, &req);
    assert_eq!(units.len(), 4);
    assert_eq!(units[3], Err(failure(&["3"], ApiError::LoaderFailure)));
    // The five units handed to the writer, the third one failing.
    let five = vec![
        unit(&["1"], OutType::Reader(0)),
        unit(&["2"], OutType::Reader(1)),
        Err(failure(&["3"], ApiError::LoaderFailure)),
        unit(&["4"], OutType::Reader(3)),
        unit(&["5"], OutType::Reader(4)),
    ];
    let (actions, result) = plan_materialize(&five, &req, &Some(p(&["out"])));
    assert_eq!(result, Err(failure(&["3"], ApiError::LoaderFailure)));
    assert_eq!(
        actions,
        vec![
            FsAction::CreateDirAll(p(&["out"])),
            FsAction::CreateFile(p(&["out", "1"])),
            FsAction::CopyContent { source: 0, dest: p(&["out", "1"]) },
            FsAction::CreateDirAll(p(&["out"])),
            FsAction::CreateFile(p(&["out", "2"])),
            FsAction::CopyContent { source: 1, dest: p(&["out", "2"]) },
        ]
    );
}

#[test]
fn malformed_link_is_a_loader_failure() {
    let store = BlockStore {
        blocks: vec![block("loop", Node::Directory { links: vec![link("self", 0)] })],
    };
    let req = ContentPath::from_root("loop".to_string());
    assert_eq!(
        resolve_recursive(&store, &req),
        vec![unit(&[], OutType::Dir), Err(failure(&["self"], ApiError::LoaderFailure))]
    );
}

#[test]
fn dangling_link_is_not_found() {
    let store = BlockStore {
        blocks: vec![block("d", Node::Directory { links: vec![link("x", 7)] })],
    };
    let req = ContentPath::from_root("d".to_string());
    let units = resolve_recursive(&store, &req);
    assert_eq!(units, vec![unit(&[], OutType::Dir), Err(failure(&["x"], ApiError::NotFound))]);
}

#[test]
fn parent_segment_is_unsafe() {
    let req = ContentPath::from_root("bafyroot".to_string());
    assert_eq!(make_output_path(&p(&["a", "..", "b"]), &req, &None), Err(ApiError::UnsafePath));
    assert_eq!(make_output_path(&p(&[".."]), &req, &Some(p(&["out"]))), Err(ApiError::UnsafePath));
    assert_eq!(make_output_path(&p(&["a/../../etc"]), &req, &None), Err(ApiError::UnsafePath));
    assert_eq!(make_output_path(&p(&["a\\..\\..\\etc"]), &req, &None), Err(ApiError::UnsafePath));
    assert_eq!(make_output_path(&p(&["C:", "Windows"]), &req, &None), Err(ApiError::UnsafePath));
    assert_eq!(make_output_path(&p(&["d:evil"]), &req, &None), Err(ApiError::UnsafePath));
    assert_eq!(make_output_path(&p(&["..."]), &req, &None), Ok(p(&["bafyroot", "..."])));
    assert_eq!(make_output_path(&p(&["ab:c", "x.y"]), &req, &None), Ok(p(&["bafyroot", "ab:c", "x.y"])));
}

#[test]
fn unsafe_unit_writes_nothing() {
    let req = ContentPath::from_root("r".to_string());
    let units = vec![
        unit(&["ok"], OutType::Dir),
        unit(&["..", "evil"], OutType::Reader(3)),
        unit(&["later"], OutType::Dir),
    ];
    let (actions, result) = plan_materialize(&units, &req, &None);
    assert_eq!(result, Err(failure(&["..", "evil"], ApiError::UnsafePath)));
    assert_eq!(actions, vec![FsAction::CreateDirAll(p(&["r", "ok"]))]);
}

#[test]
fn output_path_joins_root_and_relative_path() {
    let req = ContentPath { root: "bafyroot".to_string(), segments: p(&["docs", "guide"]) };
    assert_eq!(make_output_path(&p(&["a", "b.txt"]), &req, &None), Ok(p(&["guide", "a", "b.txt"])));
    assert_eq!(make_output_path(&p(&[]), &req, &Some(p(&["x"]))), Ok(p(&["x"])));
    let bare = ContentPath::from_root("bafyroot".to_string());
    assert_eq!(make_output_path(&p(&["c"]), &bare, &None), Ok(p(&["bafyroot", "c"])));
}

#[test]
fn content_paths_compare_by_root_and_segments() {
    let a = ContentPath { root: "r".to_string(), segments: p(&["x", "y"]) };
    let b = ContentPath { root: "r".to_string(), segments: p(&["x", "y"]) };
    let c = ContentPath { root: "r".to_string(), segments: p(&["x"]) };
    let d = ContentPath { root: "s".to_string(), segments: p(&["x", "y"]) };
    assert!(a.same_as(&b));
    assert!(!a.same_as(&c));
    assert!(!a.same_as(&d));
}

#[test]
fn stream_places_units_at_destination_paths() {
    let store = sample_store();
    let req = ContentPath::from_root("bafyroot".to_string());
    assert_eq!(
        get_stream(&store, &req, &None),
        vec![
            Ok((p(&["bafyroot"]), OutType::Dir)),
            Ok((p(&["bafyroot", "a.txt"]), OutType::Reader(0))),
            Ok((p(&["bafyroot", "sub"]), OutType::Dir)),
            Ok((p(&["bafyroot", "sub", "b.txt"]), OutType::Reader(1))),
        ]
    );
}

#[test]
fn hostile_name_in_tree_stops_stream_and_writing() {
    let store = BlockStore {
        blocks: vec![
            block("f", Node::File { size: 1 }),
            block("evil", Node::Directory { links: vec![link("..", 0), link("fine", 0)] }),
        ],
    };
    let req = ContentPath::from_root("evil".to_string());
    assert_eq!(
        get_stream(&store, &req, &Some(p(&["out"]))),
        vec![Ok((p(&["out"]), OutType::Dir)), Err(failure(&[".."], ApiError::UnsafePath))]
    );
    let (actions, result) = get(&store, &req, &Some(p(&["out"])));
    assert_eq!(result, Err(failure(&[".."], ApiError::UnsafePath)));
    assert_eq!(actions, vec![FsAction::CreateDirAll(p(&["out"]))]);
}

#[test]
fn unsafe_derived_root_is_refused() {
    let up = ContentPath { root: "bafyroot".to_string(), segments: p(&[".."]) };
    assert_eq!(make_output_path(&p(&["a"]), &up, &None), Err(ApiError::UnsafePath));
    assert_eq!(make_output_path(&p(&["a"]), &up, &Some(p(&["out"]))), Ok(p(&["out", "a"])));
    let slashed = ContentPath::from_root("x/../../y".to_string());
    assert_eq!(make_output_path(&p(&[]), &slashed, &None), Err(ApiError::UnsafePath));
}

#[test]
fn hostile_link_name_as_last_segment_writes_nothing() {
    let store = BlockStore {
        blocks: vec![
            block("f", Node::File { size: 1 }),
            block("top", Node::Directory { links: vec![link("..", 0)] }),
        ],
    };
    let req = ContentPath { root: "top".to_string(), segments: p(&[".."]) };
    let (actions, result) = get(&store, &req, &None);
    assert!(actions.is_empty());
    assert_eq!(result, Err(failure(&[], ApiError::UnsafePath)));
}
