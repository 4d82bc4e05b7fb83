use depbundle::closure::{compute_closure, ClosureResolver, DepGraph, DepNode};
use depbundle::elf::direct_dependencies;

fn s(x: &str) -> String {
    x.to_string()
}

fn node(name: &str, deps: &[&str]) -> DepNode {
    DepNode { name: s(name), deps: deps.iter().map(|d| s(d)).collect() }
}

fn sorted(mut v: Vec<String>) -> Vec<String> {
    v.sort();
    v
}

#[test]
fn acyclic_graph_visits_each_reachable_once() {
    // A diamond: root needs a and b, both need c; c is reached on two paths
    // but appears exactly once.
    let g = DepGraph {
        nodes: vec![node("a", &["c"]), node("b", &["c"]), node("c", &[])],
    };
    let roots = vec![s("a"), s("b")];
    let out = compute_closure(&g, &roots);
    assert_eq!(sorted(out), vec![s("a"), s("b"), s("c")]);
}

#[test]
fn cyclic_graph_terminates_with_each_member_once() {
    // a -> b -> a: the traversal terminates and returns both, once each.
    let g = DepGraph { nodes: vec![node("a", &["b"]), node("b", &["a"])] };
    let roots = vec![s("a")];
    let out = compute_closure(&g, &roots);
    assert_eq!(sorted(out), vec![s("a"), s("b")]);
}

#[test]
fn round_trip_closure_with_cycle() {
    // Root depends on {a, b}; a needs c, b needs nothing, c needs a (cycle).
    // The unfiltered closure is exactly {a, b, c}.
    let g = DepGraph {
        nodes: vec![node("a", &["c"]), node("b", &[]), node("c", &["a"])],
    };
    let roots = vec![s("a"), s("b")];
    let out = compute_closure(&g, &roots);
    assert_eq!(sorted(out), vec![s("a"), s("b"), s("c")]);
}

#[test]
fn self_cycle_is_safe() {
    let g = DepGraph { nodes: vec![node("a", &["a"])] };
    let roots = vec![s("a")];
    let out = compute_closure(&g, &roots);
    assert_eq!(out, vec![s("a")]);
}

#[test]
fn unknown_name_is_kept_as_leaf() {
    // b carries no node: it stays in the set, with nothing to recurse into.
    let g = DepGraph { nodes: vec![node("a", &["b"])] };
    let roots = vec![s("a")];
    let out = compute_closure(&g, &roots);
    assert_eq!(sorted(out), vec![s("a"), s("b")]);
}

#[test]
fn duplicate_declarations_recorded_once() {
    let mut r = ClosureResolver::new();
    r.record_dependencies(&vec![s("x"), s("y"), s("x")]);
    r.record_dependencies(&vec![s("y"), s("z")]);
    let names = r.into_names();
    assert_eq!(sorted(names), vec![s("x"), s("y"), s("z")]);
}

#[test]
fn worklist_hands_out_each_discovered_name() {
    let mut r = ClosureResolver::new();
    r.record_dependencies(&vec![s("x"), s("y")]);
    let mut taken = Vec::new();
    while let Some(n) = r.take_pending() {
        taken.push(n);
    }
    assert_eq!(sorted(taken), vec![s("x"), s("y")]);
    assert!(r.take_pending().is_none());
}

#[test]
fn no_roots_give_an_empty_closure() {
    let g = DepGraph { nodes: vec![node("a", &["b"])] };
    let roots: Vec<String> = Vec::new();
    let out = compute_closure(&g, &roots);
    assert!(out.is_empty());
}

#[test]
fn garbage_bytes_fail_to_parse() {
    let data = vec![0u8, 1, 2, 3, 4, 5, 6, 7];
    assert!(direct_dependencies(&data).is_err());
}

#[test]
fn empty_input_fails_to_parse() {
    let data: Vec<u8> = Vec::new();
    assert!(direct_dependencies(&data).is_err());
}

#[test]
fn minimal_binary_declares_no_dependencies() {
    // A minimal 64-bit little-endian ELF header with no program or section
    // headers: parses, and declares no needed libraries.
    let mut data = vec![0u8; 64];
    data[0] = 0x7f;
    data[1] = b'E';
    data[2] = b'L';
    data[3] = b'F';
    data[4] = 2; // 64-bit
    data[5] = 1; // little-endian
    data[6] = 1; // version
    data[16] = 2; // ET_EXEC
    data[18] = 0x3e; // x86-64
    data[20] = 1; // EV_CURRENT
    let deps = direct_dependencies(&data).expect("header alone should parse");
    assert!(deps.is_empty());
}
