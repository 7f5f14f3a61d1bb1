//! Tree expander: iterative, cycle-aware depth-first expansion of a rooted
//! dependency subtree, memoizing fully expanded subtrees by component so a
//! dependency shared by several branches is computed once and reused.
//!
//! The result is an arena of immutable nodes addressed by index: a node's
//! dependency list holds arena indices, so a shared subtree is one physical
//! node referenced from every branch that reaches it. Direct mutual pairs
//! are pruned from a node's pending children up front; a component of a
//! longer cycle is still mid-expansion (not yet memoized) when its
//! discoverer finalizes, and is then silently omitted from that node's
//! dependency list — the documented cycle-breaking strategy.

use vstd::prelude::*;
use vstd::pervasive::VecAdditionalExecFns;
use crate::graph::{distinct_seq, Graph};
use crate::stack::Stack;

verus! {

/// Expansion failure: the requested root names no known component.
#[derive(Debug, Clone, Copy, PartialEq, Eq, Structural)]
pub enum ExpandError {
    UnknownComponent,
}

/// One expanded component: its graph index, its circular partners, and the
/// arena indices of its expanded dependencies.
#[derive(Debug)]
pub struct ExpandedNode {
    pub name_idx: usize,
    pub circular_with: Vec<usize>,
    pub deps: Vec<usize>,
}

/// The result of an expansion: an arena of nodes in finalization order and
/// the index of the root node.
#[derive(Debug)]
pub struct Expansion {
    pub nodes: Vec<ExpandedNode>,
    pub root: usize,
}

/// A work-stack frame: a component mid-expansion, with its circular
/// partners and the forward edges not yet visited.
pub struct Frame {
    pub name_idx: usize,
    pub circ: Vec<usize>,
    pub pending: Vec<usize>,
}

/// `j` is an expandable child of `i`: a forward edge that is not part of a
/// direct mutual pair.
pub open spec fn is_child(g: Graph, i: usize, j: usize) -> bool {
    g.has_fwd(i, j) && !g.is_circ(i, j)
}

/// `circ` lists exactly the circular partners of `i`, without duplicates.
pub open spec fn circ_list_ok(g: Graph, i: usize, circ: Seq<usize>) -> bool {
    &&& distinct_seq(circ)
    &&& forall|j: usize| #[trigger] circ.contains(j) <==> g.is_circ(i, j)
}

/// Some node among the first `upto` arena entries stands for component `t`.
pub open spec fn prefix_has(nodes: Seq<ExpandedNode>, upto: int, t: usize) -> bool {
    exists|j: int| 0 <= j < upto && nodes[j].name_idx == t
}

/// Arena node `i` is sound: its circular partners are exact; its dependency
/// references point strictly backwards in the arena (so the structure is
/// acyclic and finite), each to a forward-edge target of the node; and it
/// references every forward-edge target that was finalized before it — a
/// target missing from `deps` is exactly one with no earlier node (it was
/// mid-expansion, i.e. on a longer cycle, or pruned as a circular partner
/// and reached no other way).
pub open spec fn node_ok(g: Graph, nodes: Seq<ExpandedNode>, i: int) -> bool {
    let nd = nodes[i];
    &&& (nd.name_idx as int) < g.names@.len()
    &&& circ_list_ok(g, nd.name_idx, nd.circular_with@)
    &&& distinct_seq(nd.deps@)
    &&& forall|k: int| 0 <= k < nd.deps@.len() ==> (#[trigger] nd.deps@[k] as int) < i
    &&& forall|k: int|
        0 <= k < nd.deps@.len() ==> g.has_fwd(
            nd.name_idx,
            nodes[#[trigger] nd.deps@[k] as int].name_idx,
        )
    &&& forall|t: usize|
        g.has_fwd(nd.name_idx, t) && #[trigger] prefix_has(nodes, i, t) ==> exists|k: int|
            0 <= k < nd.deps@.len() && nodes[#[trigger] nd.deps@[k] as int].name_idx == t
}

/// No component is expanded twice: arena nodes have distinct components.
pub open spec fn unique_names(nodes: Seq<ExpandedNode>) -> bool {
    forall|i: int, j: int|
        0 <= i < j < nodes.len() ==> nodes[i].name_idx != nodes[j].name_idx
}

/// Node `a` is referenced from some other node's dependency list.
pub open spec fn has_parent(nodes: Seq<ExpandedNode>, a: int) -> bool {
    exists|j: int, k: int|
        0 <= j < nodes.len() && 0 <= k < nodes[j].deps@.len() && (nodes[j].deps@[k] as int) == a
}

/// Every expandable child of an arena node has an arena node of its own.
pub open spec fn closed_under_children(g: Graph, nodes: Seq<ExpandedNode>) -> bool {
    forall|i: int, t: usize|
        0 <= i < nodes.len() && #[trigger] is_child(g, nodes[i].name_idx, t) ==> prefix_has(
            nodes,
            nodes.len() as int,
            t,
        )
}

impl Expansion {
    /// The expansion is a well-formed shared-subtree arena over `g`.
    pub open spec fn wf(self, g: Graph) -> bool {
        &&& (self.root as int) < self.nodes@.len()
        &&& forall|i: int| 0 <= i < self.nodes@.len() ==> node_ok(g, self.nodes@, i)
        &&& unique_names(self.nodes@)
        &&& closed_under_children(g, self.nodes@)
        &&& forall|a: int|
            0 <= a < self.nodes@.len() ==> has_parent(self.nodes@, a) || a == self.root as int
    }

    /// The graph index of the component the root node stands for.
    pub open spec fn root_name_idx(self) -> usize {
        self.nodes@[self.root as int].name_idx
    }
}

/// Component `t` is accounted for: mid-expansion (`ip`) or memoized.
pub open spec fn framed(ip: Seq<bool>, memo: Seq<Option<usize>>, t: int) -> bool {
    ip[t] || memo[t] is Some
}

/// How many components are not yet accounted for.
pub open spec fn unframed_count(ip: Seq<bool>, memo: Seq<Option<usize>>) -> nat
    recommends
        ip.len() == memo.len(),
    decreases ip.len(),
{
    if ip.len() == 0 {
        0
    } else {
        unframed_count(ip.drop_last(), memo.drop_last()) + (if framed(
            ip,
            memo,
            ip.len() - 1,
        ) {
            0nat
        } else {
            1nat
        })
    }
}

proof fn lemma_unframed_same(
    ip1: Seq<bool>,
    memo1: Seq<Option<usize>>,
    ip2: Seq<bool>,
    memo2: Seq<Option<usize>>,
)
    requires
        ip1.len() == memo1.len(),
        ip2.len() == memo2.len(),
        ip1.len() == ip2.len(),
        forall|t: int|
            0 <= t < ip1.len() ==> (framed(ip1, memo1, t) <==> framed(ip2, memo2, t)),
    ensures
        unframed_count(ip1, memo1) == unframed_count(ip2, memo2),
    decreases ip1.len(),
{
    if ip1.len() > 0 {
        assert forall|t: int|
            0 <= t < ip1.drop_last().len() implies (framed(ip1.drop_last(), memo1.drop_last(), t)
            <==> framed(ip2.drop_last(), memo2.drop_last(), t)) by {
            assert(framed(ip1, memo1, t) <==> framed(ip2, memo2, t));
        }
        lemma_unframed_same(ip1.drop_last(), memo1.drop_last(), ip2.drop_last(), memo2.drop_last());
        assert(framed(ip1, memo1, ip1.len() - 1) <==> framed(ip2, memo2, ip2.len() - 1));
    }
}

proof fn lemma_unframed_frame_one(
    ip1: Seq<bool>,
    memo1: Seq<Option<usize>>,
    ip2: Seq<bool>,
    memo2: Seq<Option<usize>>,
    u: int,
)
    requires
        ip1.len() == memo1.len(),
        ip2.len() == memo2.len(),
        ip1.len() == ip2.len(),
        0 <= u < ip1.len(),
        !framed(ip1, memo1, u),
        framed(ip2, memo2, u),
        forall|t: int|
            0 <= t < ip1.len() && t != u ==> (framed(ip1, memo1, t) <==> framed(ip2, memo2, t)),
    ensures
        unframed_count(ip1, memo1) == unframed_count(ip2, memo2) + 1,
    decreases ip1.len(),
{
    if u == ip1.len() - 1 {
        assert forall|t: int|
            0 <= t < ip1.drop_last().len() implies (framed(ip1.drop_last(), memo1.drop_last(), t)
            <==> framed(ip2.drop_last(), memo2.drop_last(), t)) by {
            assert(framed(ip1, memo1, t) <==> framed(ip2, memo2, t));
        }
        lemma_unframed_same(ip1.drop_last(), memo1.drop_last(), ip2.drop_last(), memo2.drop_last());
    } else {
        assert forall|t: int|
            0 <= t < ip1.drop_last().len() && t != u implies (framed(
            ip1.drop_last(),
            memo1.drop_last(),
            t,
        ) <==> framed(ip2.drop_last(), memo2.drop_last(), t)) by {
            assert(framed(ip1, memo1, t) <==> framed(ip2, memo2, t));
        }
        assert(!framed(ip1.drop_last(), memo1.drop_last(), u));
        assert(framed(ip2.drop_last(), memo2.drop_last(), u));
        lemma_unframed_frame_one(
            ip1.drop_last(),
            memo1.drop_last(),
            ip2.drop_last(),
            memo2.drop_last(),
            u,
        );
        assert(framed(ip1, memo1, ip1.len() - 1) <==> framed(ip2, memo2, ip2.len() - 1));
    }
}

/// The memo table mirrors the arena exactly: an entry points at the unique
/// node for its component, and every node is registered.
pub open spec fn memo_ok(g: Graph, memo: Seq<Option<usize>>, nodes: Seq<ExpandedNode>) -> bool {
    &&& memo.len() == g.names@.len()
    &&& forall|t: int|
        0 <= t < memo.len() && (#[trigger] memo[t]) is Some ==> (memo[t].unwrap() as int)
            < nodes.len() && nodes[memo[t].unwrap() as int].name_idx == t
    &&& forall|j: int|
        0 <= j < nodes.len() ==> ((#[trigger] nodes[j].name_idx) as int) < memo.len()
            && memo[nodes[j].name_idx as int] == Some(j as usize)
}

/// A frame is sound: its circular partners are exact and every pending
/// entry is an expandable child of its component.
pub open spec fn frame_ok(g: Graph, fr: Frame) -> bool {
    &&& (fr.name_idx as int) < g.names@.len()
    &&& circ_list_ok(g, fr.name_idx, fr.circ@)
    &&& forall|k: int|
        0 <= k < fr.pending@.len() ==> is_child(g, fr.name_idx, #[trigger] fr.pending@[k])
}

/// Every expandable child of the frame's component is either still pending
/// or already accounted for.
pub open spec fn frame_covered(
    g: Graph,
    fr: Frame,
    ip: Seq<bool>,
    memo: Seq<Option<usize>>,
) -> bool {
    forall|t: usize|
        #[trigger] is_child(g, fr.name_idx, t) ==> fr.pending@.contains(t) || framed(
            ip,
            memo,
            t as int,
        )
}

/// Length of the pending list of the top frame; zero for an empty stack.
pub open spec fn top_pending(st: Seq<Frame>) -> nat {
    if st.len() > 0 {
        st.last().pending@.len()
    } else {
        0
    }
}

/// Whether `v` holds `x`.
fn contains_usize(v: &Vec<usize>, x: usize) -> (r: bool)
    ensures
        r == v@.contains(x),
{
    let mut k: usize = 0;
    let len = v.len();
    while k < len
        invariant
            k <= len,
            len == v@.len(),
            forall|m: int| 0 <= m < k ==> v@[m] != x,
        decreases len - k,
    {
        if v[k] == x {
            return true;
        }
        k = k + 1;
    }
    proof {
        if v@.contains(x) {
            let m = choose|m: int| 0 <= m < v@.len() && v@[m] == x;
            assert(v@[m] != x);
        }
    }
    false
}

/// The pending-children list of component `i`: its forward-edge targets
/// with the circular partners excluded.
fn frame_children(g: &Graph, i: usize, circ: &Vec<usize>) -> (r: Vec<usize>)
    requires
        g.wf(),
        circ_list_ok(*g, i, circ@),
    ensures
        distinct_seq(r@),
        forall|t: usize| #[trigger] r@.contains(t) <==> is_child(*g, i, t),
        forall|k: int| 0 <= k < r@.len() ==> is_child(*g, i, #[trigger] r@[k]),
{
    let fwd = g.fwd_list(i);
    let mut r: Vec<usize> = Vec::new();
    let mut k: usize = 0;
    while k < fwd.len()
        invariant
            k <= fwd@.len(),
            g.wf(),
            circ_list_ok(*g, i, circ@),
            distinct_seq(fwd@),
            forall|t: usize| #[trigger] fwd@.contains(t) <==> g.has_fwd(i, t),
            forall|m: int| 0 <= m < fwd@.len() ==> g.has_fwd(i, #[trigger] fwd@[m]),
            distinct_seq(r@),
            forall|t: usize| #[trigger] r@.contains(t) <==> exists|m: int|
                0 <= m < k && fwd@[m] == t && !g.is_circ(i, t),
        decreases fwd@.len() - k,
    {
        let t = fwd[k];
        if !contains_usize(circ, t) {
            let ghost rold = r@;
            proof {
                if rold.contains(t) {
                    let m = choose|m: int| 0 <= m < k && fwd@[m] == t && !g.is_circ(i, t);
                    assert(fwd@[m] != fwd@[k as int]);
                }
            }
            r.push(t);
            proof {
                assert forall|t2: usize|
                    #[trigger] r@.contains(t2) <==> exists|m: int|
                        0 <= m < k + 1 && fwd@[m] == t2 && !g.is_circ(i, t2) by {
                    if r@.contains(t2) {
                        let p = choose|p: int| 0 <= p < r@.len() && r@[p] == t2;
                        if p < rold.len() {
                            assert(rold.contains(t2));
                            let m = choose|m: int|
                                0 <= m < k && fwd@[m] == t2 && !g.is_circ(i, t2);
                            assert(0 <= m < k + 1 && fwd@[m] == t2 && !g.is_circ(i, t2));
                        } else {
                            assert(fwd@[k as int] == t2 && !g.is_circ(i, t2));
                        }
                    }
                    if exists|m: int| 0 <= m < k + 1 && fwd@[m] == t2 && !g.is_circ(i, t2) {
                        let m = choose|m: int|
                            0 <= m < k + 1 && fwd@[m] == t2 && !g.is_circ(i, t2);
                        if m < k {
                            assert(rold.contains(t2));
                            let p = choose|p: int| 0 <= p < rold.len() && rold[p] == t2;
                            assert(r@[p] == t2);
                        } else {
                            assert(r@[r@.len() - 1] == t2);
                        }
                    }
                }
            }
        } else {
            proof {
                assert(g.is_circ(i, t));
                assert forall|t2: usize|
                    #[trigger] r@.contains(t2) <==> exists|m: int|
                        0 <= m < k + 1 && fwd@[m] == t2 && !g.is_circ(i, t2) by {
                    if exists|m: int| 0 <= m < k + 1 && fwd@[m] == t2 && !g.is_circ(i, t2) {
                        let m = choose|m: int|
                            0 <= m < k + 1 && fwd@[m] == t2 && !g.is_circ(i, t2);
                        if m == k {
                            assert(fwd@[k as int] == t2);
                            assert(false);
                        }
                    }
                }
            }
        }
        k = k + 1;
    }
    proof {
        assert forall|t: usize| #[trigger] r@.contains(t) <==> is_child(*g, i, t) by {
            if is_child(*g, i, t) {
                assert(fwd@.contains(t));
                let m = choose|m: int| 0 <= m < fwd@.len() && fwd@[m] == t;
                assert(exists|m2: int| 0 <= m2 < k && fwd@[m2] == t && !g.is_circ(i, t));
            }
            if r@.contains(t) {
                let m = choose|m: int| 0 <= m < k && fwd@[m] == t && !g.is_circ(i, t);
                assert(fwd@.contains(t));
            }
        }
        assert forall|k2: int| 0 <= k2 < r@.len() implies is_child(*g, i, #[trigger] r@[k2]) by {
            assert(r@.contains(r@[k2]));
        }
    }
    r
}

/// Builds the dependency list of component `ni` at finalization time: the
/// memo entry of every forward-edge target already memoized, in recorded
/// edge order; targets not yet memoized are omitted.
#[verifier::rlimit(100)]
fn collect_deps(
    g: &Graph,
    ni: usize,
    memo: &Vec<Option<usize>>,
    arena: &Vec<ExpandedNode>,
) -> (deps: Vec<usize>)
    requires
        g.wf(),
        (ni as int) < g.names@.len(),
        memo_ok(*g, memo@, arena@),
    ensures
        distinct_seq(deps@),
        forall|m: int|
            0 <= m < deps@.len() ==> ((#[trigger] deps@[m]) as int) < arena@.len() && g.has_fwd(
                ni,
                arena@[deps@[m] as int].name_idx,
            ),
        forall|t: usize|
            g.has_fwd(ni, t) && (#[trigger] memo@[t as int]) is Some ==> exists|m: int|
                0 <= m < deps@.len() && arena@[#[trigger] deps@[m] as int].name_idx == t,
{
    let fwd = g.fwd_list(ni);
    let mut deps: Vec<usize> = Vec::new();
    let mut k: usize = 0;
    while k < fwd.len()
        invariant
            k <= fwd@.len(),
            g.wf(),
            (ni as int) < g.names@.len(),
            memo_ok(*g, memo@, arena@),
            distinct_seq(fwd@),
            forall|t: usize| #[trigger] fwd@.contains(t) <==> g.has_fwd(ni, t),
            forall|m: int|
                0 <= m < fwd@.len() ==> g.has_fwd(ni, #[trigger] fwd@[m]) && (fwd@[m] as int)
                    < g.names@.len(),
            distinct_seq(deps@),
            forall|m: int|
                0 <= m < deps@.len() ==> exists|w: int|
                    0 <= w < k && memo@[fwd@[w] as int] == Some(#[trigger] deps@[m])
                        && ((deps@[m] as int) < arena@.len()) && arena@[deps@[m] as int].name_idx
                        == fwd@[w],
            forall|w: int|
                0 <= w < k && (#[trigger] memo@[fwd@[w] as int]) is Some ==> deps@.contains(
                    memo@[fwd@[w] as int].unwrap(),
                ),
        decreases fwd@.len() - k,
    {
        let t = fwd[k];
        proof {
            assert(g.has_fwd(ni, fwd@[k as int]));
            assert((t as int) < g.names@.len());
        }
        match memo[t] {
            Some(a) => {
                let ghost dold = deps@;
                proof {
                    assert((a as int) < arena@.len() && arena@[a as int].name_idx == t as int);
                    if dold.contains(a) {
                        let m = choose|m: int| 0 <= m < dold.len() && dold[m] == a;
                        let w = choose|w: int|
                            0 <= w < k && memo@[fwd@[w] as int] == Some(dold[m]) && ((dold[m]
                                as int) < arena@.len()) && arena@[dold[m] as int].name_idx
                                == fwd@[w];
                        assert(arena@[a as int].name_idx == fwd@[w]);
                        assert(fwd@[w] == fwd@[k as int]);
                        assert(false);
                    }
                }
                deps.push(a);
                proof {
                    assert forall|m: int|
                        0 <= m < deps@.len() implies exists|w: int|
                            0 <= w < k + 1 && memo@[fwd@[w] as int] == Some(#[trigger] deps@[m])
                                && ((deps@[m] as int) < arena@.len())
                                && arena@[deps@[m] as int].name_idx == fwd@[w] by {
                        if m < dold.len() {
                            assert(deps@[m] == dold[m]);
                            let w = choose|w: int|
                                0 <= w < k && memo@[fwd@[w] as int] == Some(dold[m]) && ((dold[m]
                                    as int) < arena@.len()) && arena@[dold[m] as int].name_idx
                                    == fwd@[w];
                            assert(0 <= w < k + 1 && memo@[fwd@[w] as int] == Some(deps@[m]));
                        } else {
                            assert(deps@[m] == a);
                            assert(memo@[fwd@[k as int] as int] == Some(a));
                        }
                    }
                    assert forall|w: int|
                        0 <= w < k + 1 && (#[trigger] memo@[fwd@[w] as int]) is Some implies
                        deps@.contains(memo@[fwd@[w] as int].unwrap()) by {
                        if w < k {
                            assert(dold.contains(memo@[fwd@[w] as int].unwrap()));
                            let p = choose|p: int|
                                0 <= p < dold.len() && dold[p] == memo@[fwd@[w] as int].unwrap();
                            assert(deps@[p] == memo@[fwd@[w] as int].unwrap());
                        } else {
                            assert(deps@[deps@.len() - 1] == a);
                        }
                    }
                }
            },
            None => {
                proof {
                    assert forall|w: int|
                        0 <= w < k + 1 && (#[trigger] memo@[fwd@[w] as int]) is Some implies
                        deps@.contains(memo@[fwd@[w] as int].unwrap()) by {
                        if w == k {
                            assert(memo@[fwd@[k as int] as int] is None);
                        }
                    }
                }
            },
        }
        k = k + 1;
    }
    proof {
        assert forall|t: usize|
            g.has_fwd(ni, t) && (#[trigger] memo@[t as int]) is Some implies exists|m: int|
                0 <= m < deps@.len() && arena@[#[trigger] deps@[m] as int].name_idx == t by {
            assert(fwd@.contains(t));
            let w = choose|w: int| 0 <= w < fwd@.len() && fwd@[w] == t;
            assert(memo@[fwd@[w] as int] is Some);
            assert(deps@.contains(memo@[fwd@[w] as int].unwrap()));
            let a = memo@[t as int].unwrap();
            let p = choose|p: int| 0 <= p < deps@.len() && deps@[p] == a;
            assert((a as int) < arena@.len() && arena@[a as int].name_idx == t as int);
            assert(arena@[deps@[p] as int].name_idx == t);
        }
        assert forall|m: int|
            0 <= m < deps@.len() implies ((#[trigger] deps@[m]) as int) < arena@.len()
                && g.has_fwd(ni, arena@[deps@[m] as int].name_idx) by {
            let w = choose|w: int|
                0 <= w < k && memo@[fwd@[w] as int] == Some(deps@[m]) && ((deps@[m] as int)
                    < arena@.len()) && arena@[deps@[m] as int].name_idx == fwd@[w];
            assert(g.has_fwd(ni, fwd@[w]));
        }
    }
    deps
}

/// A node already finalized keeps its soundness when the arena grows.
proof fn lemma_node_ok_push(g: Graph, nodes: Seq<ExpandedNode>, nd: ExpandedNode, i: int)
    requires
        0 <= i < nodes.len(),
        node_ok(g, nodes, i),
    ensures
        node_ok(g, nodes.push(nd), i),
{
    let nodes2 = nodes.push(nd);
    assert(nodes2[i] == nodes[i]);
    let me = nodes[i];
    assert forall|k: int|
        0 <= k < me.deps@.len() implies g.has_fwd(
            me.name_idx,
            nodes2[#[trigger] me.deps@[k] as int].name_idx,
        ) by {
        assert((me.deps@[k] as int) < i);
        assert(nodes2[me.deps@[k] as int] == nodes[me.deps@[k] as int]);
    }
    assert forall|t: usize|
        g.has_fwd(me.name_idx, t) && #[trigger] prefix_has(nodes2, i, t) implies exists|k: int|
            0 <= k < me.deps@.len() && nodes2[#[trigger] me.deps@[k] as int].name_idx == t by {
        let j = choose|j: int| 0 <= j < i && nodes2[j].name_idx == t;
        assert(nodes[j].name_idx == t);
        assert(prefix_has(nodes, i, t));
        let k = choose|k: int|
            0 <= k < me.deps@.len() && nodes[#[trigger] me.deps@[k] as int].name_idx == t;
        assert(nodes2[me.deps@[k] as int] == nodes[me.deps@[k] as int]);
    }
}

/// Expands the dependency tree rooted at `root_name`. Returns the unknown-
/// component error exactly when the graph holds no component of that name;
/// otherwise the result is a well-formed memoized arena whose root stands
/// for `root_name`.
#[verifier::rlimit(100)]
pub fn expand(g: &Graph, root_name: &Vec<u8>) -> (r: Result<Expansion, ExpandError>)
    requires
        g.wf(),
    ensures
        match r {
            Ok(e) => e.wf(*g) && (e.root_name_idx() as int) < g.names@.len()
                && g.names@[e.root_name_idx() as int]@ == root_name@ && g.has_name(root_name@),
            Err(_) => !g.has_name(root_name@),
        },
{
    let root_i = match g.find_name(root_name) {
        None => {
            return Err(ExpandError::UnknownComponent);
        },
        Some(i) => i,
    };
    let n = g.component_count();
    let mut ip: Vec<bool> = Vec::new();
    let mut memo: Vec<Option<usize>> = Vec::new();
    let mut k: usize = 0;
    while k < n
        invariant
            k <= n,
            ip@.len() == k,
            memo@.len() == k,
            forall|t: int| 0 <= t < k ==> !ip@[t],
            forall|t: int| 0 <= t < k ==> (#[trigger] memo@[t]) is None,
        decreases n - k,
    {
        ip.push(false);
        memo.push(None);
        k = k + 1;
    }
    let root_circ = g.circular_partners(root_i);
    let root_pending = frame_children(g, root_i, &root_circ);
    let mut stack: Stack<Frame> = Stack::new();
    stack.push(Frame { name_idx: root_i, circ: root_circ, pending: root_pending });
    ip.set(root_i, true);
    let mut arena: Vec<ExpandedNode> = Vec::new();
    proof {
        assert(stack@.len() == 1);
        assert(stack@[0].name_idx == root_i);
        assert forall|t: int|
            0 <= t < n && ip@[t] implies exists|q: int|
                0 <= q < stack@.len() && ((#[trigger] stack@[q]).name_idx as int) == t by {
            assert(t == root_i);
            assert((stack@[0].name_idx as int) == t);
        }
    }
    while !stack.is_empty()
        invariant
            g.wf(),
            n == g.names@.len(),
            ip@.len() == n,
            memo@.len() == n,
            (root_i as int) < n,
            g.names@[root_i as int]@ == root_name@,
            memo_ok(*g, memo@, arena@),
            forall|q: int| 0 <= q < stack@.len() ==> frame_ok(*g, #[trigger] stack@[q]),
            forall|q: int|
                0 <= q < stack@.len() ==> frame_covered(*g, #[trigger] stack@[q], ip@, memo@),
            forall|q: int, q2: int|
                0 <= q < q2 < stack@.len() ==> stack@[q].name_idx != stack@[q2].name_idx,
            forall|q: int|
                0 <= q < stack@.len() ==> ip@[(#[trigger] stack@[q]).name_idx as int],
            forall|t: int|
                0 <= t < n && ip@[t] ==> exists|q: int|
                    0 <= q < stack@.len() && ((#[trigger] stack@[q]).name_idx as int) == t,
            forall|t: int| 0 <= t < n ==> !(ip@[t] && (#[trigger] memo@[t]) is Some),
            stack@.len() > 0 ==> stack@[0].name_idx == root_i,
            forall|q: int|
                1 <= q < stack@.len() ==> g.has_fwd(
                    stack@[q - 1].name_idx,
                    (#[trigger] stack@[q]).name_idx,
                ),
            forall|a: int|
                0 <= a < arena@.len() ==> has_parent(arena@, a) || (exists|q: int|
                    0 <= q < stack@.len() && g.has_fwd(
                        (#[trigger] stack@[q]).name_idx,
                        arena@[a].name_idx,
                    )) || arena@[a].name_idx == root_i,
            forall|i: int| 0 <= i < arena@.len() ==> node_ok(*g, arena@, i),
            forall|i: int, t: usize|
                0 <= i < arena@.len() && #[trigger] is_child(*g, arena@[i].name_idx, t) ==> framed(
                    ip@,
                    memo@,
                    t as int,
                ),
            framed(ip@, memo@, root_i as int),
        decreases unframed_count(ip@, memo@), stack@.len(), top_pending(stack@),
    {
        let ghost ip0 = ip@;
        let ghost memo0 = memo@;
        let ghost st0 = stack@;
        let ghost ar0 = arena@;
        let mut fr = stack.pop().unwrap();
        proof {
            assert(st0[st0.len() - 1] == fr);
            assert(frame_ok(*g, fr));
            assert(frame_covered(*g, fr, ip0, memo0));
            assert(ip0[fr.name_idx as int]);
        }
        let ni = fr.name_idx;
        if fr.pending.len() == 0 {
            let deps = collect_deps(g, ni, &memo, &arena);
            let new_idx = arena.len();
            proof {
                assert(memo0[ni as int] is None);
            }
            let nd = ExpandedNode { name_idx: ni, circular_with: fr.circ, deps };
            arena.push(nd);
            memo.set(ni, Some(new_idx));
            ip.set(ni, false);
            proof {
                // the accounted-for set is unchanged pointwise
                assert forall|t: int|
                    0 <= t < n implies (framed(ip@, memo@, t) <==> framed(ip0, memo0, t)) by {
                }
                lemma_unframed_same(ip@, memo@, ip0, memo0);
                // the memo table still mirrors the arena
                assert(memo_ok(*g, memo@, arena@)) by {
                    assert forall|j: int|
                        0 <= j < arena@.len() implies (((#[trigger] arena@[j].name_idx) as int)
                        < memo@.len() && memo@[arena@[j].name_idx as int] == Some(j as usize)) by {
                        if j < ar0.len() {
                            assert(arena@[j] == ar0[j]);
                            assert(memo0[ar0[j].name_idx as int] == Some(j as usize));
                            assert(ar0[j].name_idx != ni);
                        } else {
                            assert(arena@[j].name_idx == ni);
                        }
                    }
                    assert forall|t: int|
                        0 <= t < memo@.len() && (#[trigger] memo@[t]) is Some implies ((
                        memo@[t].unwrap() as int) < arena@.len()
                            && arena@[memo@[t].unwrap() as int].name_idx == t) by {
                        if t != ni {
                            assert(memo@[t] == memo0[t]);
                            assert(arena@[memo0[t].unwrap() as int] == ar0[memo0[t].unwrap() as int]);
                        }
                    }
                }
                // every node, old and new, is sound
                assert forall|i: int| 0 <= i < arena@.len() implies node_ok(*g, arena@, i) by {
                    if i < ar0.len() {
                        lemma_node_ok_push(*g, ar0, nd, i);
                    } else {
                        assert(arena@[i] == nd);
                        assert(circ_list_ok(*g, ni, nd.circular_with@));
                        assert forall|k2: int|
                            0 <= k2 < nd.deps@.len() implies g.has_fwd(
                            nd.name_idx,
                            arena@[#[trigger] nd.deps@[k2] as int].name_idx,
                        ) && ((nd.deps@[k2] as int) < i) by {
                            assert((nd.deps@[k2] as int) < ar0.len());
                            assert(arena@[nd.deps@[k2] as int] == ar0[nd.deps@[k2] as int]);
                        }
                        assert forall|t: usize|
                            g.has_fwd(nd.name_idx, t) && #[trigger] prefix_has(arena@, i, t)
                            implies exists|k2: int|
                                0 <= k2 < nd.deps@.len()
                                    && arena@[#[trigger] nd.deps@[k2] as int].name_idx == t by {
                            let j = choose|j: int| 0 <= j < i && arena@[j].name_idx == t;
                            assert(arena@[j] == ar0[j]);
                            assert(memo0[t as int] == Some(j as usize));
                            let m = choose|m: int|
                                0 <= m < nd.deps@.len()
                                    && ar0[#[trigger] nd.deps@[m] as int].name_idx == t;
                            assert(arena@[nd.deps@[m] as int] == ar0[nd.deps@[m] as int]);
                        }
                    }
                }
                // stack invariants survive the pop
                assert forall|q: int|
                    0 <= q < stack@.len() implies frame_covered(
                    *g,
                    #[trigger] stack@[q],
                    ip@,
                    memo@,
                ) by {
                    assert(stack@[q] == st0[q]);
                    assert(frame_covered(*g, st0[q], ip0, memo0));
                    assert forall|t: usize|
                        #[trigger] is_child(*g, stack@[q].name_idx, t) implies
                        stack@[q].pending@.contains(t) || framed(ip@, memo@, t as int) by {
                        assert((t as int) < n) by {
                            let e = choose|e: int|
                                0 <= e < g.edges@.len() && g.edges@[e] == (
                                    stack@[q].name_idx,
                                    t,
                                );
                        }
                    }
                }
                assert forall|q: int|
                    0 <= q < stack@.len() implies ip@[(#[trigger] stack@[q]).name_idx as int] by {
                    assert(stack@[q] == st0[q]);
                    assert(st0[q].name_idx != ni);
                }
                assert forall|t: int|
                    0 <= t < n && ip@[t] implies exists|q: int|
                        0 <= q < stack@.len() && ((#[trigger] stack@[q]).name_idx as int) == t by {
                    assert(t != ni);
                    assert(ip0[t]);
                    let q = choose|q: int|
                        0 <= q < st0.len() && ((#[trigger] st0[q]).name_idx as int) == t;
                    assert(q < st0.len() - 1);
                    assert(stack@[q] == st0[q]);
                }
                // children of the new node are accounted for
                assert forall|i: int, t: usize|
                    0 <= i < arena@.len() && #[trigger] is_child(*g, arena@[i].name_idx, t)
                    implies framed(ip@, memo@, t as int) by {
                    assert((t as int) < n) by {
                        let e = choose|e: int|
                            0 <= e < g.edges@.len() && g.edges@[e] == (arena@[i].name_idx, t);
                    }
                    if i < ar0.len() {
                        assert(arena@[i] == ar0[i]);
                        assert(framed(ip0, memo0, t as int));
                    } else {
                        assert(arena@[i].name_idx == ni);
                        assert(is_child(*g, fr.name_idx, t));
                        assert(fr.pending@.contains(t) || framed(ip0, memo0, t as int));
                        assert(fr.pending@.len() == 0);
                        if fr.pending@.contains(t) {
                            let p = choose|p: int|
                                0 <= p < fr.pending@.len() && fr.pending@[p] == t;
                        }
                        assert(framed(ip0, memo0, t as int));
                    }
                }
                // each earlier node keeps a parent, a pending attacher, or is
                // the root; the new node is attached by the frame below it
                assert forall|a: int|
                    0 <= a < arena@.len() implies has_parent(arena@, a) || (exists|q: int|
                        0 <= q < stack@.len() && g.has_fwd(
                            (#[trigger] stack@[q]).name_idx,
                            arena@[a].name_idx,
                        )) || arena@[a].name_idx == root_i by {
                    if a < ar0.len() {
                        assert(arena@[a] == ar0[a]);
                        if has_parent(ar0, a) {
                            let (j, k2) = choose|j: int, k2: int|
                                0 <= j < ar0.len() && 0 <= k2 < ar0[j].deps@.len() && (
                                ar0[j].deps@[k2] as int) == a;
                            assert(arena@[j] == ar0[j]);
                            assert(has_parent(arena@, a));
                        } else if exists|q: int|
                            0 <= q < st0.len() && g.has_fwd(
                                (#[trigger] st0[q]).name_idx,
                                ar0[a].name_idx,
                            ) {
                            let q = choose|q: int|
                                0 <= q < st0.len() && g.has_fwd(
                                    (#[trigger] st0[q]).name_idx,
                                    ar0[a].name_idx,
                                );
                            if q < st0.len() - 1 {
                                assert(stack@[q] == st0[q]);
                            } else {
                                // the popped frame attaches it right now
                                let ta = ar0[a].name_idx;
                                assert(g.has_fwd(ni, ta));
                                assert(memo0[ta as int] == Some(a as usize));
                                assert(prefix_has(arena@, new_idx as int, ta)) by {
                                    assert(arena@[a].name_idx == ta);
                                }
                                assert(node_ok(*g, arena@, new_idx as int));
                                let k2 = choose|k2: int|
                                    0 <= k2 < arena@[new_idx as int].deps@.len()
                                        && arena@[#[trigger] arena@[new_idx as int].deps@[k2]
                                        as int].name_idx == ta;
                                let d = arena@[new_idx as int].deps@[k2];
                                assert((d as int) < arena@.len());
                                assert(memo@[arena@[d as int].name_idx as int] == Some(d));
                                assert(memo@[ta as int] == Some(a as usize));
                                assert((d as int) == a);
                                assert(has_parent(arena@, a));
                            }
                        }
                    } else {
                        assert(arena@[a] == nd);
                        if st0.len() == 1 {
                            assert(fr == st0[0]);
                            assert(ni == root_i);
                        } else {
                            assert(g.has_fwd(st0[st0.len() - 2].name_idx, ni));
                            assert(stack@[stack@.len() - 1] == st0[st0.len() - 2]);
                        }
                    }
                }
            }
        } else {
            let ghost pend0 = fr.pending@;
            let c = fr.pending.pop().unwrap();
            proof {
                assert(pend0[pend0.len() - 1] == c);
                assert(is_child(*g, ni, c));
                assert((c as int) < n) by {
                    let e = choose|e: int|
                        0 <= e < g.edges@.len() && g.edges@[e] == (ni, c);
                }
            }
            let c_framed = ip[c] || memo[c].is_some();
            if c_framed {
                stack.push(fr);
                proof {
                    assert(stack@ == st0.drop_last().push(fr));
                    assert(frame_ok(*g, fr)) by {
                        assert forall|k2: int|
                            0 <= k2 < fr.pending@.len() implies is_child(
                            *g,
                            fr.name_idx,
                            #[trigger] fr.pending@[k2],
                        ) by {
                            assert(fr.pending@[k2] == pend0[k2]);
                        }
                    }
                    assert forall|q: int|
                        0 <= q < stack@.len() implies frame_covered(
                        *g,
                        #[trigger] stack@[q],
                        ip@,
                        memo@,
                    ) by {
                        if q < stack@.len() - 1 {
                            assert(stack@[q] == st0[q]);
                        } else {
                            assert(stack@[q] == fr);
                            assert forall|t: usize|
                                #[trigger] is_child(*g, fr.name_idx, t) implies
                                fr.pending@.contains(t) || framed(ip@, memo@, t as int) by {
                                assert(is_child(*g, st0[st0.len() - 1].name_idx, t));
                                assert(pend0.contains(t) || framed(ip0, memo0, t as int));
                                if pend0.contains(t) {
                                    let p = choose|p: int|
                                        0 <= p < pend0.len() && pend0[p] == t;
                                    if p < pend0.len() - 1 {
                                        assert(fr.pending@[p] == t);
                                        assert(fr.pending@.contains(t));
                                    } else {
                                        assert(t == c);
                                        assert(framed(ip@, memo@, c as int));
                                    }
                                }
                            }
                        }
                    }
                    assert forall|q: int|
                        0 <= q < stack@.len() implies ip@[(#[trigger] stack@[q]).name_idx
                        as int] by {
                        if q < stack@.len() - 1 {
                            assert(stack@[q] == st0[q]);
                        } else {
                            assert(stack@[q].name_idx == st0[st0.len() - 1].name_idx);
                        }
                    }
                    assert forall|t: int|
                        0 <= t < n && ip@[t] implies exists|q: int|
                            0 <= q < stack@.len() && ((#[trigger] stack@[q]).name_idx as int)
                                == t by {
                        let q = choose|q: int|
                            0 <= q < st0.len() && ((#[trigger] st0[q]).name_idx as int) == t;
                        if q < st0.len() - 1 {
                            assert(stack@[q] == st0[q]);
                        } else {
                            assert((stack@[stack@.len() - 1].name_idx as int) == t);
                        }
                    }
                    assert forall|q: int, q2: int|
                        0 <= q < q2 < stack@.len() implies stack@[q].name_idx
                        != stack@[q2].name_idx by {
                        if q2 < stack@.len() - 1 {
                            assert(stack@[q] == st0[q] && stack@[q2] == st0[q2]);
                        } else {
                            assert(stack@[q] == st0[q]);
                            assert(stack@[q2].name_idx == st0[st0.len() - 1].name_idx);
                        }
                    }
                    assert forall|q: int|
                        1 <= q < stack@.len() implies g.has_fwd(
                        stack@[q - 1].name_idx,
                        (#[trigger] stack@[q]).name_idx,
                    ) by {
                        assert(stack@[q].name_idx == st0[q].name_idx);
                        assert(stack@[q - 1].name_idx == st0[q - 1].name_idx);
                    }
                    assert forall|a: int|
                        0 <= a < arena@.len() implies has_parent(arena@, a) || (exists|q: int|
                            0 <= q < stack@.len() && g.has_fwd(
                                (#[trigger] stack@[q]).name_idx,
                                arena@[a].name_idx,
                            )) || arena@[a].name_idx == root_i by {
                        if exists|q: int|
                            0 <= q < st0.len() && g.has_fwd(
                                (#[trigger] st0[q]).name_idx,
                                arena@[a].name_idx,
                            ) {
                            let q = choose|q: int|
                                0 <= q < st0.len() && g.has_fwd(
                                    (#[trigger] st0[q]).name_idx,
                                    arena@[a].name_idx,
                                );
                            assert(stack@[q].name_idx == st0[q].name_idx);
                        }
                    }
                }
            } else {
                let ghost ippre = ip@;
                ip.set(c, true);
                let c_circ = g.circular_partners(c);
                let c_pending = frame_children(g, c, &c_circ);
                let newf = Frame { name_idx: c, circ: c_circ, pending: c_pending };
                let ghost newfg = newf;
                stack.push(fr);
                stack.push(newf);
                proof {
                    assert(stack@ == st0.drop_last().push(fr).push(newfg));
                    assert(!framed(ippre, memo0, c as int));
                    assert(framed(ip@, memo@, c as int));
                    lemma_unframed_frame_one(ippre, memo0, ip@, memo@, c as int);
                    assert(frame_ok(*g, fr)) by {
                        assert forall|k2: int|
                            0 <= k2 < fr.pending@.len() implies is_child(
                            *g,
                            fr.name_idx,
                            #[trigger] fr.pending@[k2],
                        ) by {
                            assert(fr.pending@[k2] == pend0[k2]);
                        }
                    }
                    assert(frame_ok(*g, newfg));
                    // no frame on the stack was already expanding `c`
                    assert forall|q: int|
                        0 <= q < st0.len() implies st0[q].name_idx != c by {
                        assert(ippre[(st0[q].name_idx) as int]);
                    }
                    assert forall|q: int, q2: int|
                        0 <= q < q2 < stack@.len() implies stack@[q].name_idx
                        != stack@[q2].name_idx by {
                        if q2 == stack@.len() - 1 {
                            assert(stack@[q2].name_idx == c);
                            if q < stack@.len() - 2 {
                                assert(stack@[q] == st0[q]);
                            } else {
                                assert(stack@[q].name_idx == st0[st0.len() - 1].name_idx);
                            }
                        } else if q2 == stack@.len() - 2 {
                            assert(stack@[q] == st0[q]);
                            assert(stack@[q2].name_idx == st0[st0.len() - 1].name_idx);
                        } else {
                            assert(stack@[q] == st0[q] && stack@[q2] == st0[q2]);
                        }
                    }
                    assert forall|q: int|
                        0 <= q < stack@.len() implies ip@[(#[trigger] stack@[q]).name_idx
                        as int] by {
                        if q == stack@.len() - 1 {
                            assert(stack@[q].name_idx == c);
                        } else if q == stack@.len() - 2 {
                            assert(stack@[q].name_idx == st0[st0.len() - 1].name_idx);
                            assert(ippre[stack@[q].name_idx as int]);
                        } else {
                            assert(stack@[q] == st0[q]);
                            assert(ippre[stack@[q].name_idx as int]);
                        }
                    }
                    assert forall|t: int|
                        0 <= t < n && ip@[t] implies exists|q: int|
                            0 <= q < stack@.len() && ((#[trigger] stack@[q]).name_idx as int)
                                == t by {
                        if t == c {
                            assert((stack@[stack@.len() - 1].name_idx as int) == t);
                        } else {
                            assert(ippre[t]);
                            let q = choose|q: int|
                                0 <= q < st0.len() && ((#[trigger] st0[q]).name_idx as int) == t;
                            if q < st0.len() - 1 {
                                assert(stack@[q] == st0[q]);
                            } else {
                                assert((stack@[stack@.len() - 2].name_idx as int) == t);
                            }
                        }
                    }
                    assert forall|q: int|
                        0 <= q < stack@.len() implies frame_covered(
                        *g,
                        #[trigger] stack@[q],
                        ip@,
                        memo@,
                    ) by {
                        if q == stack@.len() - 1 {
                            assert forall|t: usize|
                                #[trigger] is_child(*g, c, t) implies newfg.pending@.contains(t)
                                    || framed(ip@, memo@, t as int) by {
                                assert(newfg.pending@.contains(t));
                            }
                        } else if q == stack@.len() - 2 {
                            assert forall|t: usize|
                                #[trigger] is_child(*g, fr.name_idx, t) implies
                                fr.pending@.contains(t) || framed(ip@, memo@, t as int) by {
                                assert(is_child(*g, st0[st0.len() - 1].name_idx, t));
                                assert(pend0.contains(t) || framed(ip0, memo0, t as int));
                                assert((t as int) < n) by {
                                    let e = choose|e: int|
                                        0 <= e < g.edges@.len() && g.edges@[e] == (
                                            fr.name_idx,
                                            t,
                                        );
                                }
                                if pend0.contains(t) {
                                    let p = choose|p: int|
                                        0 <= p < pend0.len() && pend0[p] == t;
                                    if p < pend0.len() - 1 {
                                        assert(fr.pending@[p] == t);
                                        assert(fr.pending@.contains(t));
                                    } else {
                                        assert(t == c);
                                    }
                                } else {
                                    assert(framed(ip@, memo@, t as int));
                                }
                            }
                        } else {
                            assert(stack@[q] == st0[q]);
                            assert(frame_covered(*g, st0[q], ip0, memo0));
                            assert forall|t: usize|
                                #[trigger] is_child(*g, stack@[q].name_idx, t) implies
                                stack@[q].pending@.contains(t) || framed(ip@, memo@, t as int) by {
                                assert((t as int) < n) by {
                                    let e = choose|e: int|
                                        0 <= e < g.edges@.len() && g.edges@[e] == (
                                            stack@[q].name_idx,
                                            t,
                                        );
                                }
                            }
                        }
                    }
                    assert forall|i: int, t: usize|
                        0 <= i < arena@.len() && #[trigger] is_child(*g, arena@[i].name_idx, t)
                        implies framed(ip@, memo@, t as int) by {
                        assert((t as int) < n) by {
                            let e = choose|e: int|
                                0 <= e < g.edges@.len() && g.edges@[e] == (arena@[i].name_idx, t);
                        }
                        assert(framed(ip0, memo0, t as int));
                    }
                    assert forall|q: int|
                        1 <= q < stack@.len() implies g.has_fwd(
                        stack@[q - 1].name_idx,
                        (#[trigger] stack@[q]).name_idx,
                    ) by {
                        if q == stack@.len() - 1 {
                            assert(stack@[q].name_idx == c);
                            assert(stack@[q - 1].name_idx == st0[st0.len() - 1].name_idx);
                            assert(g.has_fwd(ni, c));
                        } else if q == stack@.len() - 2 {
                            assert(stack@[q].name_idx == st0[st0.len() - 1].name_idx);
                            assert(stack@[q - 1].name_idx == st0[q - 1].name_idx);
                        } else {
                            assert(stack@[q].name_idx == st0[q].name_idx);
                            assert(stack@[q - 1].name_idx == st0[q - 1].name_idx);
                        }
                    }
                    assert forall|a: int|
                        0 <= a < arena@.len() implies has_parent(arena@, a) || (exists|q: int|
                            0 <= q < stack@.len() && g.has_fwd(
                                (#[trigger] stack@[q]).name_idx,
                                arena@[a].name_idx,
                            )) || arena@[a].name_idx == root_i by {
                        if exists|q: int|
                            0 <= q < st0.len() && g.has_fwd(
                                (#[trigger] st0[q]).name_idx,
                                arena@[a].name_idx,
                            ) {
                            let q = choose|q: int|
                                0 <= q < st0.len() && g.has_fwd(
                                    (#[trigger] st0[q]).name_idx,
                                    arena@[a].name_idx,
                                );
                            if q < st0.len() - 1 {
                                assert(stack@[q].name_idx == st0[q].name_idx);
                            } else {
                                assert(stack@[stack@.len() - 2].name_idx == st0[st0.len()
                                    - 1].name_idx);
                            }
                        }
                    }
                }
            }
        }
    }
    proof {
        assert forall|t: int| 0 <= t < n implies !ip@[t] by {
            if ip@[t] {
                let q = choose|q: int|
                    0 <= q < stack@.len() && ((#[trigger] stack@[q]).name_idx as int) == t;
            }
        }
        assert(memo@[root_i as int] is Some);
    }
    let root_entry = memo[root_i];
    let root_a = root_entry.unwrap();
    let _n_nodes = arena.len();
    proof {
        assert(arena@.len() <= usize::MAX);
    }
    let e = Expansion { nodes: arena, root: root_a };
    proof {
        assert(unique_names(e.nodes@)) by {
            assert forall|i: int, j: int|
                0 <= i < j < e.nodes@.len() implies e.nodes@[i].name_idx
                != e.nodes@[j].name_idx by {
                if e.nodes@[i].name_idx == e.nodes@[j].name_idx {
                    assert(memo@[e.nodes@[i].name_idx as int] == Some(i as usize));
                    assert(memo@[e.nodes@[j].name_idx as int] == Some(j as usize));
                }
            }
        }
        assert(closed_under_children(*g, e.nodes@)) by {
            assert forall|i: int, t: usize|
                0 <= i < e.nodes@.len() && #[trigger] is_child(*g, e.nodes@[i].name_idx, t)
                implies prefix_has(e.nodes@, e.nodes@.len() as int, t) by {
                assert((t as int) < n) by {
                    let e2 = choose|e2: int|
                        0 <= e2 < g.edges@.len() && g.edges@[e2] == (e.nodes@[i].name_idx, t);
                }
                assert(framed(ip@, memo@, t as int));
                assert(memo@[t as int] is Some);
                let a = memo@[t as int].unwrap();
                assert((a as int) < e.nodes@.len() && e.nodes@[a as int].name_idx == t);
            }
        }
        assert forall|a: int|
            0 <= a < e.nodes@.len() implies has_parent(e.nodes@, a) || a == e.root as int by {
            if !has_parent(e.nodes@, a) {
                assert(e.nodes@[a].name_idx == root_i);
                assert(memo@[e.nodes@[a].name_idx as int] == Some(a as usize));
                assert(memo@[root_i as int] == Some(root_a));
            }
        }
        assert(e.root_name_idx() == root_i);
        assert(g.has_name(root_name@)) by {
            assert(g.names@[root_i as int]@ == root_name@);
        }
    }
    Ok(e)
}

/// Law: memoized sharing — a well-formed expansion holds at most one node
/// per component, so every branch that reaches a shared dependency
/// references the same physical node instead of recomputing it.
pub proof fn lemma_memoized_sharing(g: Graph, e: Expansion, i: int, j: int)
    requires
        e.wf(g),
        0 <= i < e.nodes@.len(),
        0 <= j < e.nodes@.len(),
        e.nodes@[i].name_idx == e.nodes@[j].name_idx,
    ensures
        i == j,
{
    if i < j {
        assert(e.nodes@[i].name_idx != e.nodes@[j].name_idx);
    }
    if j < i {
        assert(e.nodes@[j].name_idx != e.nodes@[i].name_idx);
    }
}

/// Law: direct-cycle pruning — a neighbor with no node earlier in the
/// arena (in particular a circular partner that no other branch reached and
/// memoized first) never appears among a node's dependency references.
pub proof fn lemma_circular_child_pruned(g: Graph, e: Expansion, i: int, t: usize, k: int)
    requires
        e.wf(g),
        0 <= i < e.nodes@.len(),
        g.is_circ(e.nodes@[i].name_idx, t),
        !prefix_has(e.nodes@, i, t),
        0 <= k < e.nodes@[i].deps@.len(),
    ensures
        e.nodes@[e.nodes@[i].deps@[k] as int].name_idx != t,
{
    assert(node_ok(g, e.nodes@, i));
    if e.nodes@[e.nodes@[i].deps@[k] as int].name_idx == t {
        assert((e.nodes@[i].deps@[k] as int) < i);
        assert(prefix_has(e.nodes@, i, t));
    }
}

/// Law: acyclic termination — dependency references descend strictly in
/// the arena, so every dependency chain is finite however many cycles the
/// input graph holds.
pub proof fn lemma_deps_descend(g: Graph, e: Expansion, i: int, k: int)
    requires
        e.wf(g),
        0 <= i < e.nodes@.len(),
        0 <= k < e.nodes@[i].deps@.len(),
    ensures
        0 <= (e.nodes@[i].deps@[k] as int) < i,
{
    assert(node_ok(g, e.nodes@, i));
}

} // verus!
