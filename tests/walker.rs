use std::collections::HashMap;

use iroh_api::error::ApiError;
use iroh_api::resolve::Failure;
use iroh_api::walker::{follow, Loaded, LoadedLink, Pulled, PulledUnit, Walker};

fn p(segs: &[&str]) -> Vec<String> {
    segs.iter().map(|s| s.to_string()).collect()
}

fn dir(links: &[(&str, &str)]) -> Loaded {
    Loaded::Directory {
        links: links.iter().map(|(n, c)| LoadedLink { name: n.to_string(), cid: c.to_string() }).collect(),
    }
}

/// The root directory `root` holds `a.txt` and `sub/b.txt`; the loader's
/// table is in no particular order.
fn loader() -> HashMap<String, Loaded> {
    let mut m = HashMap::new();
    m.insert("root".to_string(), dir(&[("a.txt", "fa"), ("sub", "ds")]));
    m.insert("fb".to_string(), Loaded::File);
    m.insert("ds".to_string(), dir(&[("b.txt", "fb")]));
    m.insert("fa".to_string(), Loaded::File);
    m
}

fn run(m: &HashMap<String, Loaded>, root: &str) -> (Vec<Result<PulledUnit, Failure>>, Vec<String>) {
    let mut w = Walker::new(root.to_string());
    let mut out = Vec::new();
    let mut loads = Vec::new();
    while let Some(c) = w.next_load() {
        loads.push(c.clone());
        let loaded = m.get(&c).cloned().ok_or(ApiError::NotFound);
        out.push(w.feed(loaded));
    }
    (out, loads)
}

fn unit(path: &[&str], node: Pulled) -> Result<PulledUnit, Failure> {
    Ok(PulledUnit { path: p(path), node })
}

#[test]
fn walker_loads_one_node_per_pull_in_pre_order() {
    let (units, loads) = run(&loader(), "root");
    assert_eq!(
        units,
        vec![
            unit(&[], Pulled::Dir),
            unit(&["a.txt"], Pulled::Reader("fa".to_string())),
            unit(&["sub"], Pulled::Dir),
            unit(&["sub", "b.txt"], Pulled::Reader("fb".to_string())),
        ]
    );
    assert_eq!(loads, p(&["root", "fa", "ds", "fb"]));
}

#[test]
fn walker_ends_at_first_loader_failure() {
    let mut m = loader();
    m.remove("fa");
    let (units, loads) = run(&m, "root");
    assert_eq!(
        units,
        vec![
            unit(&[], Pulled::Dir),
            Err(Failure { path: p(&["a.txt"]), error: ApiError::NotFound }),
        ]
    );
    assert_eq!(loads, p(&["root", "fa"]));
}

#[test]
fn walker_on_a_single_file() {
    let (units, _) = run(&loader(), "fb");
    assert_eq!(units, vec![unit(&[], Pulled::Reader("fb".to_string()))]);
}

#[test]
fn follow_picks_the_named_child() {
    let m = loader();
    assert_eq!(follow(&m["root"], &"sub".to_string()), Ok("ds".to_string()));
    assert_eq!(follow(&m["root"], &"nope".to_string()), Err(ApiError::NotFound));
    assert_eq!(follow(&Loaded::File, &"x".to_string()), Err(ApiError::NotFound));
    let twice = dir(&[("x", "first"), ("x", "second")]);
    assert_eq!(follow(&twice, &"x".to_string()), Ok("first".to_string()));
}
