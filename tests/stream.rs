use iroh_api::error::ApiError;
use iroh_api::path::ContentPath;
use iroh_api::resolve::{resolve_recursive, Block, BlockStore, Failure, Link, Node, OutType, ResolvedUnit};
use iroh_api::stream::Resolver;

fn block(cid: &str, node: Node) -> Block {
    Block { cid: cid.to_string(), node }
}

fn link(name: &str, target: usize) -> Link {
    Link { name: name.to_string(), target }
}

fn drain(store: &BlockStore, req: &ContentPath) -> Vec<Result<ResolvedUnit, Failure>> {
    let mut r = Resolver::new(store, req);
    let mut out = Vec::new();
    while let Some(e) = r.next(store) {
        out.push(e);
    }
    assert_eq!(r.next(store), None);
    out
}

fn nested_store() -> BlockStore {
    BlockStore {
        blocks: vec![
            block("f0", Node::File { size: 1 }),
            block("f1", Node::File { size: 2 }),
            block("d2", Node::Directory { links: vec![link("x", 0), link("y", 1)] }),
            block("d3", Node::Directory { links: vec![link("inner", 2), link("z", 0)] }),
            block("top", Node::Directory { links: vec![link("a", 3), link("b", 1)] }),
        ],
    }
}

#[test]
fn pulled_resolution_matches_recursive_resolution() {
    let store = nested_store();
    let req = ContentPath::from_root("top".to_string());
    let pulled = drain(&store, &req);
    assert_eq!(pulled, resolve_recursive(&store, &req));
    assert_eq!(pulled.len(), 7);
    assert_eq!(pulled[0], Ok(ResolvedUnit { path: Vec::new(), node: OutType::Dir }));
    assert_eq!(
        pulled[3],
        Ok(ResolvedUnit { path: vec!["a".to_string(), "inner".to_string(), "x".to_string()], node: OutType::Reader(0) })
    );
    assert_eq!(pulled[6], Ok(ResolvedUnit { path: vec!["b".to_string()], node: OutType::Reader(1) }));
}

#[test]
fn pulled_resolution_ends_after_first_error() {
    let store = BlockStore {
        blocks: vec![
            block("ok", Node::File { size: 1 }),
            block("bad", Node::Unavailable),
            block("dir", Node::Directory { links: vec![link("1", 0), link("2", 1), link("3", 0)] }),
        ],
    };
    let req = ContentPath::from_root("dir".to_string());
    let pulled = drain(&store, &req);
    assert_eq!(pulled.len(), 3);
    assert_eq!(pulled[2], Err(Failure { path: vec!["2".to_string()], error: ApiError::LoaderFailure }));
    assert_eq!(pulled, resolve_recursive(&store, &req));
}

#[test]
fn pulled_resolution_of_unknown_root() {
    let store = nested_store();
    let req = ContentPath::from_root("nothing".to_string());
    assert_eq!(drain(&store, &req), vec![Err(Failure { path: Vec::new(), error: ApiError::NotFound })]);
}
