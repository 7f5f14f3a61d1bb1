use deptree::expand::{expand, ExpandError, Expansion};
use deptree::graph::{build_graph, Graph};

fn v(s: &str) -> Vec<u8> {
    s.as_bytes().to_vec()
}

fn lines(ls: &[&str]) -> Vec<Vec<u8>> {
    ls.iter().map(|l| v(l)).collect()
}

fn graph_of(ls: &[&str]) -> Graph {
    build_graph(&lines(ls), &None).unwrap()
}

/// Arena index of the unique node standing for `name`, if any.
fn node_of(g: &Graph, e: &Expansion, name: &str) -> Option<usize> {
    let ni = g.find_name(&v(name))?;
    (0..e.nodes.len()).find(|&j| e.nodes[j].name_idx == ni)
}

fn node_names(g: &Graph, e: &Expansion, idxs: &[usize]) -> Vec<Vec<u8>> {
    idxs.iter().map(|&j| g.name_of(e.nodes[j].name_idx).clone()).collect()
}

#[test]
fn end_to_end_example() {
    let g = graph_of(&["com.a -> com.b", "com.b -> com.a", "com.a -> com.c", "com.c -> com.d"]);
    let e = expand(&g, &v("com.a")).unwrap();
    let root = &e.nodes[e.root];
    assert_eq!(g.name_of(root.name_idx), &v("com.a"));
    // com.a is circular with com.b, and com.b never appears as a child
    let circ: Vec<Vec<u8>> =
        root.circular_with.iter().map(|&t| g.name_of(t).clone()).collect();
    assert_eq!(circ, vec![v("com.b")]);
    assert_eq!(node_names(&g, &e, &root.deps), vec![v("com.c")]);
    assert!(node_of(&g, &e, "com.b").is_none());
    // com.c has no circular partners and depends on com.d alone
    let c = &e.nodes[node_of(&g, &e, "com.c").unwrap()];
    assert!(c.circular_with.is_empty());
    assert_eq!(node_names(&g, &e, &c.deps), vec![v("com.d")]);
    // com.d is a leaf
    let d = &e.nodes[node_of(&g, &e, "com.d").unwrap()];
    assert!(d.circular_with.is_empty());
    assert!(d.deps.is_empty());
}

#[test]
fn diamond_shares_one_node() {
    let g = graph_of(&["r -> x", "r -> y", "x -> z", "y -> z"]);
    let e = expand(&g, &v("r")).unwrap();
    let zi = g.find_name(&v("z")).unwrap();
    // exactly one finalized representation of z
    let z_nodes: Vec<usize> =
        (0..e.nodes.len()).filter(|&j| e.nodes[j].name_idx == zi).collect();
    assert_eq!(z_nodes.len(), 1);
    let z = z_nodes[0];
    // x and y reference that same physical node
    let x = &e.nodes[node_of(&g, &e, "x").unwrap()];
    let y = &e.nodes[node_of(&g, &e, "y").unwrap()];
    assert_eq!(x.deps, vec![z]);
    assert_eq!(y.deps, vec![z]);
}

#[test]
fn unknown_root_is_an_error() {
    let g = graph_of(&["a -> b"]);
    match expand(&g, &v("nope")) {
        Err(e) => assert_eq!(e, ExpandError::UnknownComponent),
        Ok(_) => panic!("expansion of an unknown root must fail"),
    }
}

#[test]
fn three_cycle_terminates_and_drops_the_back_edge() {
    // regression pin: a cycle longer than a direct pair is broken
    // opportunistically, so exactly one edge of the cycle is omitted
    let g = graph_of(&["a -> b", "b -> c", "c -> a"]);
    let e = expand(&g, &v("a")).unwrap();
    let a = &e.nodes[e.root];
    assert!(a.circular_with.is_empty());
    assert_eq!(node_names(&g, &e, &a.deps), vec![v("b")]);
    let b = &e.nodes[node_of(&g, &e, "b").unwrap()];
    assert_eq!(node_names(&g, &e, &b.deps), vec![v("c")]);
    // c's back edge to a is silently omitted: a was mid-expansion
    let c = &e.nodes[node_of(&g, &e, "c").unwrap()];
    assert!(c.deps.is_empty());
}

#[test]
fn tangle_of_cycles_terminates() {
    let g = graph_of(&[
        "a -> b", "b -> a", "b -> c", "c -> d", "d -> b", "d -> e", "e -> e", "e -> a",
    ]);
    let e = expand(&g, &v("a")).unwrap();
    assert!(e.nodes.len() <= 5);
    assert_eq!(g.name_of(e.nodes[e.root].name_idx), &v("a"));
}

#[test]
fn long_chain_expands_without_recursion() {
    let n = 2000usize;
    let mut ls: Vec<Vec<u8>> = Vec::new();
    for i in 0..n {
        ls.push(v(&format!("c{} -> c{}", i, i + 1)));
    }
    let g = build_graph(&ls, &None).unwrap();
    let e = expand(&g, &v("c0")).unwrap();
    assert_eq!(e.nodes.len(), n + 1);
}

#[test]
fn self_loop_root_has_itself_as_partner_and_no_children() {
    let g = graph_of(&["a -> a"]);
    let e = expand(&g, &v("a")).unwrap();
    let a = &e.nodes[e.root];
    assert_eq!(node_names(&g, &e, &[e.root]), vec![v("a")]);
    let circ: Vec<Vec<u8>> =
        a.circular_with.iter().map(|&t| g.name_of(t).clone()).collect();
    assert_eq!(circ, vec![v("a")]);
    assert!(a.deps.is_empty());
}

#[test]
fn circular_partner_reached_elsewhere_is_still_shared() {
    // r depends on both halves of a mutual pair; whichever half is
    // finalized first becomes a memoized dependency of the other
    let g = graph_of(&["r -> a", "r -> b", "a -> b", "b -> a"]);
    let e = expand(&g, &v("r")).unwrap();
    let root = &e.nodes[e.root];
    assert_eq!(root.deps.len(), 2);
    let a = &e.nodes[node_of(&g, &e, "a").unwrap()];
    let b = &e.nodes[node_of(&g, &e, "b").unwrap()];
    // each is the other's circular partner
    assert_eq!(node_names(&g, &e, &[e.root]), vec![v("r")]);
    assert_eq!(a.circular_with.len(), 1);
    assert_eq!(b.circular_with.len(), 1);
    // exactly one of the two lists the other as a dependency
    assert_eq!(a.deps.len() + b.deps.len(), 1);
}

#[test]
fn root_circular_partner_can_reappear_via_an_indirect_path() {
    // x is pruned from r's pending children as a circular partner, but the
    // branch through y expands and memoizes x first, so finalizing r still
    // attaches the shared x node
    let g = graph_of(&["r -> x", "x -> r", "r -> y", "y -> x"]);
    let e = expand(&g, &v("r")).unwrap();
    let root = &e.nodes[e.root];
    let mut circ: Vec<Vec<u8>> = Vec::new();
    for &t in &root.circular_with {
        circ.push(g.name_of(t).clone());
    }
    assert_eq!(circ, vec![v("x")]);
    let mut dep_names = node_names(&g, &e, &root.deps);
    dep_names.sort();
    assert_eq!(dep_names, vec![v("x"), v("y")]);
    // x itself never nests r back: r was mid-expansion when x finalized
    let x = &e.nodes[node_of(&g, &e, "x").unwrap()];
    assert!(x.deps.is_empty());
}
