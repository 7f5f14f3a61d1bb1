use deptree::graph::{build_graph, Graph};
use deptree::parse::ParseError;

fn v(s: &str) -> Vec<u8> {
    s.as_bytes().to_vec()
}

fn lines(ls: &[&str]) -> Vec<Vec<u8>> {
    ls.iter().map(|l| v(l)).collect()
}

fn idx(g: &Graph, name: &str) -> usize {
    g.find_name(&v(name)).expect("component should be registered")
}

#[test]
fn edges_are_recorded_symmetrically() {
    let g = build_graph(&lines(&["com.a -> com.b"]), &None).unwrap();
    let a = idx(&g, "com.a");
    let b = idx(&g, "com.b");
    // forward edge recorded once, in one direction only
    assert!(g.contains_edge_idx(a, b));
    assert!(!g.contains_edge_idx(b, a));
    // the forward list of a and the reverse view agree
    assert_eq!(g.fwd_list(a), vec![b]);
    assert_eq!(g.fwd_list(b), Vec::<usize>::new());
}

#[test]
fn duplicate_edges_collapse() {
    let g = build_graph(&lines(&["a -> b", "a -> b", "a -> b"]), &None).unwrap();
    let a = idx(&g, "a");
    assert_eq!(g.fwd_list(a).len(), 1);
    assert_eq!(g.component_count(), 2);
}

#[test]
fn mutual_edges_are_circular_partners() {
    let g = build_graph(&lines(&["a -> b", "b -> a"]), &None).unwrap();
    let a = idx(&g, "a");
    let b = idx(&g, "b");
    assert_eq!(g.circular_partners(a), vec![b]);
    assert_eq!(g.circular_partners(b), vec![a]);
}

#[test]
fn one_way_edge_is_not_circular() {
    let g = build_graph(&lines(&["a -> b"]), &None).unwrap();
    let a = idx(&g, "a");
    let b = idx(&g, "b");
    assert!(g.circular_partners(a).is_empty());
    assert!(g.circular_partners(b).is_empty());
}

#[test]
fn self_loop_is_its_own_circular_partner() {
    let g = build_graph(&lines(&["a -> a"]), &None).unwrap();
    let a = idx(&g, "a");
    assert_eq!(g.circular_partners(a), vec![a]);
}

#[test]
fn filtered_edge_is_dropped_entirely_from_graph() {
    let g = build_graph(
        &lines(&["a.b.C -> io.other.D", "io.acme.E -> io.acme.F"]),
        &Some(v("io.acme")),
    )
    .unwrap();
    assert!(g.find_name(&v("a.b.C")).is_none());
    assert!(g.find_name(&v("io.other.D")).is_none());
    assert!(g.find_name(&v("io.acme.E")).is_some());
    assert!(g.find_name(&v("io.acme.F")).is_some());
}

#[test]
fn archive_source_contributes_nothing() {
    let g = build_graph(&lines(&["library.jar -> com.b", "com.a -> com.b"]), &None).unwrap();
    assert!(g.find_name(&v("library.jar")).is_none());
    let a = idx(&g, "com.a");
    let b = idx(&g, "com.b");
    assert!(g.contains_edge_idx(a, b));
    assert_eq!(g.component_count(), 2);
}

#[test]
fn first_malformed_line_aborts_the_build() {
    let r = build_graph(&lines(&["a -> b", "broken line", "c -> "]), &None);
    assert_eq!(r.unwrap_err(), ParseError::MissingArrow);
    let r2 = build_graph(&lines(&["a -> b", "c -> ", "broken line"]), &None);
    assert_eq!(r2.unwrap_err(), ParseError::EmptyTarget);
}

#[test]
fn components_are_created_on_first_mention_either_side() {
    let g = build_graph(&lines(&["a -> b", "c -> b"]), &None).unwrap();
    assert_eq!(g.component_count(), 3);
    assert!(g.find_name(&v("a")).is_some());
    assert!(g.find_name(&v("b")).is_some());
    assert!(g.find_name(&v("c")).is_some());
}

#[test]
fn forward_and_reverse_views_agree() {
    let g = build_graph(&lines(&["a -> b", "c -> b", "b -> a"]), &None).unwrap();
    let a = idx(&g, "a");
    let b = idx(&g, "b");
    let c = idx(&g, "c");
    // B is in A's depends_on exactly when A is in B's depended_on_by
    assert!(g.fwd_list(a).contains(&b));
    assert!(g.rev_list(b).contains(&a));
    assert!(g.rev_list(b).contains(&c));
    assert!(g.fwd_list(b).contains(&a));
    assert!(g.rev_list(a).contains(&b));
    assert!(!g.rev_list(c).contains(&b));
    assert_eq!(g.rev_list(b).len(), 2);
}
