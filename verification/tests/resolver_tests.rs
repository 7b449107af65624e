use bloaty_metafile::packages::{DepGraph, DepNode, Packages, normalize_crate_name};
use bloaty_metafile::tree::SectionRecord;

fn rec(symbols: &str) -> SectionRecord {
    SectionRecord {
        sections: ".text".to_string(),
        symbols: symbols.to_string(),
        vmsize: 1,
        filesize: 1,
    }
}

fn node(name: &str, deps: Vec<usize>) -> DepNode {
    DepNode {
        name: name.to_string(),
        deps,
    }
}

#[test]
fn normalizes_hyphens() {
    assert_eq!(normalize_crate_name("cargo-lock"), "cargo_lock");
    assert_eq!(normalize_crate_name("serde"), "serde");
}

#[test]
fn shortest_chain_wins() {
    // root -> a -> b and root -> b: the two-edge chain to b loses.
    let graph = DepGraph {
        nodes: vec![
            node("root", vec![1, 2]),
            node("a", vec![2]),
            node("b", vec![]),
        ],
    };
    let records = vec![rec("root::main"), rec("a::x"), rec("b::y")];
    let packages = Packages::new(&graph, &records);
    assert_eq!(packages.get_path("b"), vec!["root", "b"]);
    assert_eq!(packages.get_path("a"), vec!["root", "a"]);
    assert_eq!(packages.get_path("root"), vec!["root"]);
}

#[test]
fn root_canonicalization_merges_disconnected_roots() {
    // Two disconnected subgraphs: a -> b and c -> d.  Only "a" is observed
    // among the owners, so "c" is merged into "a" and everything reachable
    // only through "c" is attributed to "a"'s chain.
    let graph = DepGraph {
        nodes: vec![
            node("a", vec![1]),
            node("b", vec![]),
            node("c", vec![3]),
            node("d", vec![]),
        ],
    };
    let records = vec![rec("a::main"), rec("b::x"), rec("d::y")];
    let packages = Packages::new(&graph, &records);
    assert_eq!(packages.get_path("b"), vec!["a", "b"]);
    assert_eq!(packages.get_path("d"), vec!["a", "d"]);
    assert_eq!(packages.get_path("a"), vec!["a"]);
}

#[test]
fn scaffolding_roots_are_dropped() {
    // "ws" is a root nobody observes; dropping it makes "a" the candidate.
    let graph = DepGraph {
        nodes: vec![node("ws", vec![1]), node("a", vec![2]), node("b", vec![])],
    };
    let records = vec![rec("a::main"), rec("b::x")];
    let packages = Packages::new(&graph, &records);
    assert_eq!(packages.get_path("a"), vec!["a"]);
    assert_eq!(packages.get_path("b"), vec!["a", "b"]);
}

#[test]
fn tolerates_self_referential_edge() {
    // "x" lists itself as its own dependency; the walk must still finish.
    let graph = DepGraph {
        nodes: vec![node("r", vec![1]), node("x", vec![1])],
    };
    let records = vec![rec("r::main"), rec("x::f")];
    let packages = Packages::new(&graph, &records);
    assert_eq!(packages.get_path("r"), vec!["r"]);
    assert_eq!(packages.get_path("x"), vec!["r", "x"]);
}

#[test]
fn unknown_owner_gets_trivial_chain() {
    // "std" never appears in the graph: it resolves to itself.
    let graph = DepGraph {
        nodes: vec![node("r", vec![])],
    };
    let records = vec![rec("r::main"), rec("std::mem::drop")];
    let packages = Packages::new(&graph, &records);
    assert_eq!(packages.get_path("std"), vec!["std"]);
    // An owner never observed at all yields an empty chain.
    assert_eq!(packages.get_path("nowhere"), Vec::<String>::new());
}

#[test]
fn empty_graph_gives_trivial_chains() {
    let graph = DepGraph { nodes: vec![] };
    let records = vec![rec("serde::de::parse")];
    let packages = Packages::new(&graph, &records);
    assert_eq!(packages.get_path("serde"), vec!["serde"]);
}
