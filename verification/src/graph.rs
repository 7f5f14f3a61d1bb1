//! Graph builder and circular-pair detector: accumulates parsed edges into a
//! component graph, keyed by component index, with forward and reverse
//! adjacency derivable from one duplicate-free edge list.

use vstd::prelude::*;
use crate::bytes::bytes_eq;
use crate::parse::{line_edge, filter_view, parse_line, ParseError};

verus! {

/// No two positions of `s` hold the same element.
pub open spec fn distinct_seq<A>(s: Seq<A>) -> bool {
    forall|i: int, j: int| 0 <= i < j < s.len() ==> s[i] != s[j]
}

/// The dependency graph: component `i` is named `names[i]`; an entry
/// `(i, j)` of `edges` records that component `i` depends on component `j`.
#[derive(Debug)]
pub struct Graph {
    pub names: Vec<Vec<u8>>,
    pub edges: Vec<(usize, usize)>,
}

impl Graph {
    /// Well-formed: names are distinct, edge endpoints are in range, and no
    /// edge is recorded twice.
    pub open spec fn wf(self) -> bool {
        &&& forall|i: int, j: int|
            0 <= i < j < self.names@.len() ==> self.names@[i]@ != self.names@[j]@
        &&& forall|k: int|
            0 <= k < self.edges@.len() ==> (#[trigger] self.edges@[k]).0 < self.names@.len()
                && self.edges@[k].1 < self.names@.len()
        &&& distinct_seq(self.edges@)
    }

    /// Component `i` depends on component `j` (a forward edge).
    pub open spec fn has_fwd(self, i: usize, j: usize) -> bool {
        self.edges@.contains((i, j))
    }

    /// The forward-edge set of component `i`: who it depends on.
    pub open spec fn depends_on(self, i: usize) -> Set<usize> {
        Set::new(|j: usize| self.has_fwd(i, j))
    }

    /// The reverse-edge set of component `j`: who depends on it.
    pub open spec fn depended_on_by(self, j: usize) -> Set<usize> {
        Set::new(|i: usize| self.has_fwd(i, j))
    }

    /// Components `i` and `j` form a direct mutual pair (`j` is a circular
    /// partner of `i`); a self-loop makes `i` its own partner.
    pub open spec fn is_circ(self, i: usize, j: usize) -> bool {
        self.has_fwd(i, j) && self.has_fwd(j, i)
    }

    /// Some component is named `n`.
    pub open spec fn has_name(self, n: Seq<u8>) -> bool {
        exists|i: int| 0 <= i < self.names@.len() && self.names@[i]@ == n
    }

    /// An edge from a component named `a` to one named `b` is recorded.
    pub open spec fn has_edge(self, a: Seq<u8>, b: Seq<u8>) -> bool {
        exists|k: int|
            0 <= k < self.edges@.len() && self.names@[(#[trigger] self.edges@[k]).0 as int]@ == a
                && self.names@[self.edges@[k].1 as int]@ == b
    }

    /// An empty graph.
    pub fn new() -> (g: Graph)
        ensures
            g.wf(),
            g.names@.len() == 0,
            g.edges@.len() == 0,
    {
        Graph { names: Vec::new(), edges: Vec::new() }
    }

    /// How many components the graph holds.
    pub fn component_count(&self) -> (r: usize)
        ensures
            r == self.names@.len(),
    {
        self.names.len()
    }

    /// The name of component `i`.
    pub fn name_of(&self, i: usize) -> (r: &Vec<u8>)
        requires
            i < self.names@.len(),
        ensures
            r@ == self.names@[i as int]@,
    {
        &self.names[i]
    }

    /// Looks a component up by name.
    pub fn find_name(&self, n: &Vec<u8>) -> (r: Option<usize>)
        ensures
            match r {
                Some(i) => i < self.names@.len() && self.names@[i as int]@ == n@,
                None => !self.has_name(n@),
            },
    {
        let mut i: usize = 0;
        let len = self.names.len();
        while i < len
            invariant
                i <= len,
                len == self.names@.len(),
                forall|k: int| 0 <= k < i ==> self.names@[k]@ != n@,
            decreases len - i,
        {
            if bytes_eq(&self.names[i], n) {
                return Some(i);
            }
            i = i + 1;
        }
        None
    }

    /// Whether the forward edge from `i` to `j` is recorded.
    pub fn contains_edge_idx(&self, i: usize, j: usize) -> (r: bool)
        ensures
            r == self.has_fwd(i, j),
    {
        let mut k: usize = 0;
        let len = self.edges.len();
        while k < len
            invariant
                k <= len,
                len == self.edges@.len(),
                forall|m: int| 0 <= m < k ==> self.edges@[m] != (i, j),
            decreases len - k,
        {
            let e = self.edges[k];
            if e.0 == i && e.1 == j {
                proof {
                    assert(self.edges@.contains((i, j)));
                }
                return true;
            }
            k = k + 1;
        }
        proof {
            if self.has_fwd(i, j) {
                let m = choose|m: int| 0 <= m < self.edges@.len() && self.edges@[m] == (i, j);
                assert(self.edges@[m] != (i, j));
            }
        }
        false
    }

    /// Finds the component named `n`, registering it when it is new.
    fn get_or_insert(&mut self, n: &Vec<u8>) -> (i: usize)
        requires
            old(self).wf(),
        ensures
            final(self).wf(),
            i < final(self).names@.len(),
            final(self).names@[i as int]@ == n@,
            final(self).edges@ == old(self).edges@,
            old(self).names@.len() <= final(self).names@.len(),
            forall|k: int|
                0 <= k < old(self).names@.len() ==> final(self).names@[k]@ == old(
                    self,
                ).names@[k]@,
            forall|m: Seq<u8>|
                final(self).has_name(m) <==> old(self).has_name(m) || m == n@,
    {
        match self.find_name(n) {
            Some(i) => {
                proof {
                    assert forall|m: Seq<u8>|
                        self.has_name(m) <==> self.has_name(m) || m == n@ by {
                        if m == n@ {
                            assert(self.names@[i as int]@ == m);
                        }
                    }
                }
                i
            },
            None => {
                let owned = crate::bytes::copy_range(n, 0, n.len());
                proof {
                    assert(owned@ =~= n@);
                }
                let ghost prev = *self;
                self.names.push(owned);
                let i = self.names.len() - 1;
                proof {
                    assert(self.names@[i as int]@ == n@);
                    assert forall|m: Seq<u8>|
                        self.has_name(m) <==> prev.has_name(m) || m == n@ by {
                        if self.has_name(m) {
                            let k = choose|k: int|
                                0 <= k < self.names@.len() && self.names@[k]@ == m;
                            if k < prev.names@.len() {
                                assert(prev.names@[k]@ == m);
                            }
                        }
                        if prev.has_name(m) {
                            let k = choose|k: int|
                                0 <= k < prev.names@.len() && prev.names@[k]@ == m;
                            assert(self.names@[k]@ == m);
                        }
                        if m == n@ {
                            assert(self.names@[i as int]@ == m);
                        }
                    }
                }
                i
            },
        }
    }

    /// Records that the component named `src` depends on the one named
    /// `tgt`, creating either component on first mention. Pure accumulation:
    /// every previously recorded edge and name survives, and exactly the one
    /// edge (and its two endpoints) is added.
    pub fn add_edge(&mut self, src: &Vec<u8>, tgt: &Vec<u8>)
        requires
            old(self).wf(),
        ensures
            final(self).wf(),
            forall|a: Seq<u8>, b: Seq<u8>|
                final(self).has_edge(a, b) <==> old(self).has_edge(a, b) || (a == src@ && b
                    == tgt@),
            forall|m: Seq<u8>|
                final(self).has_name(m) <==> old(self).has_name(m) || m == src@ || m == tgt@,
    {
        let ghost g0 = *self;
        let i = self.get_or_insert(src);
        let ghost g1 = *self;
        let j = self.get_or_insert(tgt);
        let ghost g2 = *self;
        proof {
            assert(self.names@[i as int]@ == src@);
            assert(self.names@[j as int]@ == tgt@);
        }
        let present = self.contains_edge_idx(i, j);
        if !present {
            self.edges.push((i, j));
        }
        proof {
            let gf = *self;
            if !present {
                assert(gf.edges@[gf.edges@.len() - 1] == (i, j));
            }
            assert(gf.edges@.contains((i, j)));
            assert(gf.wf()) by {
                assert(forall|k: int|
                    0 <= k < g2.edges@.len() ==> gf.edges@[k] == g2.edges@[k]);
            }
            assert forall|a: Seq<u8>, b: Seq<u8>|
                gf.has_edge(a, b) <==> g0.has_edge(a, b) || (a == src@ && b == tgt@) by {
                if gf.has_edge(a, b) {
                    let k = choose|k: int|
                        0 <= k < gf.edges@.len() && gf.names@[(#[trigger] gf.edges@[k]).0 as int]@
                            == a && gf.names@[gf.edges@[k].1 as int]@ == b;
                    if k < g0.edges@.len() {
                        assert(g0.edges@[k] == gf.edges@[k]);
                        assert(g0.names@[gf.edges@[k].0 as int]@ == a);
                        assert(g0.names@[gf.edges@[k].1 as int]@ == b);
                        assert(g0.has_edge(a, b));
                    } else {
                        assert(gf.edges@[k] == (i, j));
                        assert(a == src@ && b == tgt@);
                    }
                }
                if g0.has_edge(a, b) {
                    let k = choose|k: int|
                        0 <= k < g0.edges@.len() && g0.names@[(#[trigger] g0.edges@[k]).0 as int]@
                            == a && g0.names@[g0.edges@[k].1 as int]@ == b;
                    assert(gf.edges@[k] == g0.edges@[k]);
                    assert(gf.names@[g0.edges@[k].0 as int]@ == a);
                    assert(gf.names@[g0.edges@[k].1 as int]@ == b);
                    assert(gf.has_edge(a, b));
                }
                if a == src@ && b == tgt@ {
                    let k = choose|k: int|
                        0 <= k < gf.edges@.len() && gf.edges@[k] == (i, j);
                    assert(gf.names@[(gf.edges@[k]).0 as int]@ == a);
                    assert(gf.names@[(gf.edges@[k]).1 as int]@ == b);
                    assert(gf.has_edge(a, b));
                }
            }
        }
    }

    /// The ordered list of forward-edge targets of component `i`, in the
    /// order the edges were recorded.
    pub fn fwd_list(&self, i: usize) -> (r: Vec<usize>)
        requires
            self.wf(),
        ensures
            distinct_seq(r@),
            forall|j: usize| #[trigger] r@.contains(j) <==> self.has_fwd(i, j),
            forall|k: int| 0 <= k < r@.len() ==> self.has_fwd(i, #[trigger] r@[k]),
    {
        let mut r: Vec<usize> = Vec::new();
        let mut k: usize = 0;
        let len = self.edges.len();
        while k < len
            invariant
                k <= len,
                len == self.edges@.len(),
                self.wf(),
                forall|j: usize| #[trigger] r@.contains(j) <==> exists|m: int|
                    0 <= m < k && self.edges@[m] == (i, j),
                forall|m: int, l: int|
                    0 <= m < l < r@.len() ==> r@[m] != r@[l],
            decreases len - k,
        {
            let e = self.edges[k];
            if e.0 == i {
                let ghost rold = r@;
                proof {
                    if rold.contains(e.1) {
                        let m = choose|m: int| 0 <= m < k && self.edges@[m] == (i, e.1);
                        assert(self.edges@[m] != self.edges@[k as int]);
                    }
                }
                r.push(e.1);
                proof {
                    assert forall|j: usize|
                        #[trigger] r@.contains(j) <==> exists|m: int|
                            0 <= m < k + 1 && self.edges@[m] == (i, j) by {
                        if r@.contains(j) {
                            let p = choose|p: int| 0 <= p < r@.len() && r@[p] == j;
                            if p < rold.len() {
                                assert(rold[p] == j);
                                assert(rold.contains(j));
                                let m = choose|m: int| 0 <= m < k && self.edges@[m] == (i, j);
                                assert(0 <= m < k + 1 && self.edges@[m] == (i, j));
                            } else {
                                assert(j == e.1);
                                assert(self.edges@[k as int] == (i, j));
                            }
                        }
                        if exists|m: int| 0 <= m < k + 1 && self.edges@[m] == (i, j) {
                            let m = choose|m: int| 0 <= m < k + 1 && self.edges@[m] == (i, j);
                            if m < k {
                                assert(rold.contains(j));
                                let p = choose|p: int| 0 <= p < rold.len() && rold[p] == j;
                                assert(r@[p] == j);
                            } else {
                                assert(r@[r@.len() - 1] == j);
                            }
                        }
                    }
                }
            } else {
                proof {
                    assert forall|j: usize|
                        #[trigger] r@.contains(j) <==> exists|m: int|
                            0 <= m < k + 1 && self.edges@[m] == (i, j) by {
                        if exists|m: int| 0 <= m < k + 1 && self.edges@[m] == (i, j) {
                            let m = choose|m: int| 0 <= m < k + 1 && self.edges@[m] == (i, j);
                            assert(m < k);
                        }
                    }
                }
            }
            k = k + 1;
        }
        proof {
            assert forall|j: usize| #[trigger] r@.contains(j) <==> self.has_fwd(i, j) by {
                if self.has_fwd(i, j) {
                    let m = choose|m: int|
                        0 <= m < self.edges@.len() && self.edges@[m] == (i, j);
                    assert(exists|m: int| 0 <= m < k && self.edges@[m] == (i, j));
                }
            }
            assert forall|k2: int| 0 <= k2 < r@.len() implies self.has_fwd(
                i,
                #[trigger] r@[k2],
            ) by {
                assert(r@.contains(r@[k2]));
            }
        }
        r
    }

    /// The ordered list of reverse-edge sources of component `i`: who
    /// depends on it, in the order the edges were recorded.
    pub fn rev_list(&self, i: usize) -> (r: Vec<usize>)
        requires
            self.wf(),
        ensures
            distinct_seq(r@),
            forall|j: usize| #[trigger] r@.contains(j) <==> self.has_fwd(j, i),
    {
        let mut r: Vec<usize> = Vec::new();
        let mut k: usize = 0;
        let len = self.edges.len();
        while k < len
            invariant
                k <= len,
                len == self.edges@.len(),
                self.wf(),
                forall|j: usize| #[trigger] r@.contains(j) <==> exists|m: int|
                    0 <= m < k && self.edges@[m] == (j, i),
                forall|m: int, l: int|
                    0 <= m < l < r@.len() ==> r@[m] != r@[l],
            decreases len - k,
        {
            let e = self.edges[k];
            if e.1 == i {
                let ghost rold = r@;
                proof {
                    if rold.contains(e.0) {
                        let m = choose|m: int| 0 <= m < k && self.edges@[m] == (e.0, i);
                        assert(self.edges@[m] != self.edges@[k as int]);
                    }
                }
                r.push(e.0);
                proof {
                    assert forall|j: usize|
                        #[trigger] r@.contains(j) <==> exists|m: int|
                            0 <= m < k + 1 && self.edges@[m] == (j, i) by {
                        if r@.contains(j) {
                            let p = choose|p: int| 0 <= p < r@.len() && r@[p] == j;
                            if p < rold.len() {
                                assert(rold[p] == j);
                                assert(rold.contains(j));
                                let m = choose|m: int| 0 <= m < k && self.edges@[m] == (j, i);
                                assert(0 <= m < k + 1 && self.edges@[m] == (j, i));
                            } else {
                                assert(j == e.0);
                                assert(self.edges@[k as int] == (j, i));
                            }
                        }
                        if exists|m: int| 0 <= m < k + 1 && self.edges@[m] == (j, i) {
                            let m = choose|m: int| 0 <= m < k + 1 && self.edges@[m] == (j, i);
                            if m < k {
                                assert(rold.contains(j));
                                let p = choose|p: int| 0 <= p < rold.len() && rold[p] == j;
                                assert(r@[p] == j);
                            } else {
                                assert(r@[r@.len() - 1] == j);
                            }
                        }
                    }
                }
            } else {
                proof {
                    assert forall|j: usize|
                        #[trigger] r@.contains(j) <==> exists|m: int|
                            0 <= m < k + 1 && self.edges@[m] == (j, i) by {
                        if exists|m: int| 0 <= m < k + 1 && self.edges@[m] == (j, i) {
                            let m = choose|m: int| 0 <= m < k + 1 && self.edges@[m] == (j, i);
                            assert(m < k);
                        }
                    }
                }
            }
            k = k + 1;
        }
        proof {
            assert forall|j: usize| #[trigger] r@.contains(j) <==> self.has_fwd(j, i) by {
                if self.has_fwd(j, i) {
                    let m = choose|m: int|
                        0 <= m < self.edges@.len() && self.edges@[m] == (j, i);
                    assert(exists|m: int| 0 <= m < k && self.edges@[m] == (j, i));
                }
            }
        }
        r
    }

    /// The circular partners of component `i`: every neighbor that appears
    /// in both its forward-edge set and its reverse-edge set. The order of
    /// the result follows the order edges were recorded.
    pub fn circular_partners(&self, i: usize) -> (r: Vec<usize>)
        requires
            self.wf(),
        ensures
            distinct_seq(r@),
            forall|j: usize| #[trigger] r@.contains(j) <==> self.is_circ(i, j),
    {
        let fwd = self.fwd_list(i);
        let mut r: Vec<usize> = Vec::new();
        let mut k: usize = 0;
        while k < fwd.len()
            invariant
                k <= fwd@.len(),
                self.wf(),
                distinct_seq(fwd@),
                forall|j: usize| #[trigger] fwd@.contains(j) <==> self.has_fwd(i, j),
                forall|m: int| 0 <= m < fwd@.len() ==> self.has_fwd(i, #[trigger] fwd@[m]),
                forall|j: usize| #[trigger] r@.contains(j) <==> exists|m: int|
                    0 <= m < k && fwd@[m] == j && self.has_fwd(j, i),
                forall|m: int, l: int| 0 <= m < l < r@.len() ==> r@[m] != r@[l],
            decreases fwd@.len() - k,
        {
            let j = fwd[k];
            if self.contains_edge_idx(j, i) {
                let ghost rold = r@;
                proof {
                    if rold.contains(j) {
                        let m = choose|m: int|
                            0 <= m < k && fwd@[m] == j && self.has_fwd(j, i);
                        assert(fwd@[m] != fwd@[k as int]);
                    }
                }
                r.push(j);
                proof {
                    assert forall|j2: usize|
                        #[trigger] r@.contains(j2) <==> exists|m: int|
                            0 <= m < k + 1 && fwd@[m] == j2 && self.has_fwd(j2, i) by {
                        if r@.contains(j2) {
                            let p = choose|p: int| 0 <= p < r@.len() && r@[p] == j2;
                            if p < rold.len() {
                                assert(rold.contains(j2));
                                let m = choose|m: int|
                                    0 <= m < k && fwd@[m] == j2 && self.has_fwd(j2, i);
                                assert(0 <= m < k + 1 && fwd@[m] == j2 && self.has_fwd(j2, i));
                            } else {
                                assert(fwd@[k as int] == j2 && self.has_fwd(j2, i));
                            }
                        }
                        if exists|m: int| 0 <= m < k + 1 && fwd@[m] == j2 && self.has_fwd(j2, i) {
                            let m = choose|m: int|
                                0 <= m < k + 1 && fwd@[m] == j2 && self.has_fwd(j2, i);
                            if m < k {
                                assert(rold.contains(j2));
                                let p = choose|p: int| 0 <= p < rold.len() && rold[p] == j2;
                                assert(r@[p] == j2);
                            } else {
                                assert(r@[r@.len() - 1] == j2);
                            }
                        }
                    }
                }
            } else {
                proof {
                    assert forall|j2: usize|
                        #[trigger] r@.contains(j2) <==> exists|m: int|
                            0 <= m < k + 1 && fwd@[m] == j2 && self.has_fwd(j2, i) by {
                        if exists|m: int| 0 <= m < k + 1 && fwd@[m] == j2 && self.has_fwd(j2, i) {
                            let m = choose|m: int|
                                0 <= m < k + 1 && fwd@[m] == j2 && self.has_fwd(j2, i);
                            if m == k {
                                assert(fwd@[k as int] == j2);
                                assert(!self.has_fwd(j2, i));
                            }
                        }
                    }
                }
            }
            k = k + 1;
        }
        proof {
            assert forall|j: usize| #[trigger] r@.contains(j) <==> self.is_circ(i, j) by {
                if self.is_circ(i, j) {
                    assert(fwd@.contains(j));
                    let m = choose|m: int| 0 <= m < fwd@.len() && fwd@[m] == j;
                    assert(exists|m2: int|
                        0 <= m2 < k && fwd@[m2] == j && self.has_fwd(j, i));
                }
                if r@.contains(j) {
                    let m = choose|m: int| 0 <= m < k && fwd@[m] == j && self.has_fwd(j, i);
                    assert(fwd@.contains(j));
                }
            }
        }
        r
    }
}

/// Line `l` parses, under filter `f`, to the accepted edge `(a, b)`.
pub open spec fn yields_edge(l: Seq<u8>, f: Option<Seq<u8>>, a: Seq<u8>, b: Seq<u8>) -> bool {
    match line_edge(l, f) {
        Ok(Some(p)) => p.0 == a && p.1 == b,
        _ => false,
    }
}

/// Line `l` parses, under filter `f`, to an accepted edge with `m` as an
/// endpoint.
pub open spec fn yields_name(l: Seq<u8>, f: Option<Seq<u8>>, m: Seq<u8>) -> bool {
    match line_edge(l, f) {
        Ok(Some(p)) => p.0 == m || p.1 == m,
        _ => false,
    }
}

/// One of the first `n` lines parses to the accepted edge `(a, b)`.
pub open spec fn edge_in_prefix(
    lines: Seq<Vec<u8>>,
    f: Option<Seq<u8>>,
    n: int,
    a: Seq<u8>,
    b: Seq<u8>,
) -> bool {
    exists|k: int| 0 <= k < n && #[trigger] yields_edge(lines[k]@, f, a, b)
}

/// One of the first `n` lines parses to an accepted edge with endpoint `m`.
pub open spec fn name_in_prefix(
    lines: Seq<Vec<u8>>,
    f: Option<Seq<u8>>,
    n: int,
    m: Seq<u8>,
) -> bool {
    exists|k: int| 0 <= k < n && #[trigger] yields_name(lines[k]@, f, m)
}

/// Parses every raw line and accumulates the accepted edges into a graph.
/// On success the graph records exactly the edges (and exactly the endpoint
/// names) that the lines yield; parsing aborts on the first malformed line,
/// returning its error.
#[verifier::rlimit(100)]
pub fn build_graph(lines: &Vec<Vec<u8>>, filter: &Option<Vec<u8>>) -> (r: Result<
    Graph,
    ParseError,
>)
    ensures
        ({
            let f = filter_view(*filter);
            let n = lines@.len() as int;
            match r {
                Ok(g) => {
                    &&& g.wf()
                    &&& forall|a: Seq<u8>, b: Seq<u8>|
                        g.has_edge(a, b) <==> edge_in_prefix(lines@, f, n, a, b)
                    &&& forall|m: Seq<u8>| g.has_name(m) <==> name_in_prefix(lines@, f, n, m)
                    &&& forall|k: int| 0 <= k < n ==> !(#[trigger] line_edge(lines@[k]@, f) is Err)
                },
                Err(e) => exists|k: int|
                    0 <= k < n && #[trigger] line_edge(lines@[k]@, f) == Err::<
                        Option<(Seq<u8>, Seq<u8>)>,
                        ParseError,
                    >(e) && (forall|l: int| 0 <= l < k ==> !(line_edge(lines@[l]@, f) is Err)),
            }
        }),
{
    let ghost f = filter_view(*filter);
    let mut g = Graph::new();
    proof {
        assert forall|a: Seq<u8>, b: Seq<u8>|
            g.has_edge(a, b) <==> edge_in_prefix(lines@, f, 0, a, b) by {
            if g.has_edge(a, b) {
                let k = choose|k: int|
                    0 <= k < g.edges@.len() && g.names@[(#[trigger] g.edges@[k]).0 as int]@ == a
                        && g.names@[g.edges@[k].1 as int]@ == b;
            }
        }
    }
    let mut idx: usize = 0;
    let n = lines.len();
    while idx < n
        invariant
            idx <= n,
            n == lines@.len(),
            f == filter_view(*filter),
            g.wf(),
            forall|a: Seq<u8>, b: Seq<u8>|
                g.has_edge(a, b) <==> edge_in_prefix(lines@, f, idx as int, a, b),
            forall|m: Seq<u8>| g.has_name(m) <==> name_in_prefix(lines@, f, idx as int, m),
            forall|k: int| 0 <= k < idx ==> !(#[trigger] line_edge(lines@[k]@, f) is Err),
        decreases n - idx,
    {
        let ghost gpre = g;
        match parse_line(&lines[idx], filter) {
            Err(e) => {
                proof {
                    assert(line_edge(lines@[idx as int]@, f) == Err::<
                        Option<(Seq<u8>, Seq<u8>)>,
                        ParseError,
                    >(e));
                }
                return Err(e);
            },
            Ok(None) => {
                proof {
                    assert(!yields_edge(lines@[idx as int]@, f, Seq::empty(), Seq::empty()));
                    assert forall|a: Seq<u8>, b: Seq<u8>|
                        g.has_edge(a, b) <==> edge_in_prefix(lines@, f, idx + 1, a, b) by {
                        if edge_in_prefix(lines@, f, idx + 1, a, b) {
                            let k = choose|k: int|
                                0 <= k < idx + 1 && #[trigger] yields_edge(lines@[k]@, f, a, b);
                            assert(k < idx);
                            assert(edge_in_prefix(lines@, f, idx as int, a, b));
                        }
                        if edge_in_prefix(lines@, f, idx as int, a, b) {
                            let k = choose|k: int|
                                0 <= k < idx && #[trigger] yields_edge(lines@[k]@, f, a, b);
                            assert(0 <= k < idx + 1 && yields_edge(lines@[k]@, f, a, b));
                        }
                    }
                    assert forall|m: Seq<u8>|
                        g.has_name(m) <==> name_in_prefix(lines@, f, idx + 1, m) by {
                        if name_in_prefix(lines@, f, idx + 1, m) {
                            let k = choose|k: int|
                                0 <= k < idx + 1 && #[trigger] yields_name(lines@[k]@, f, m);
                            assert(k < idx);
                            assert(name_in_prefix(lines@, f, idx as int, m));
                        }
                        if name_in_prefix(lines@, f, idx as int, m) {
                            let k = choose|k: int|
                                0 <= k < idx && #[trigger] yields_name(lines@[k]@, f, m);
                            assert(0 <= k < idx + 1 && yields_name(lines@[k]@, f, m));
                        }
                    }
                }
            },
            Ok(Some(p)) => {
                g.add_edge(&p.0, &p.1);
                proof {
                    assert(yields_edge(lines@[idx as int]@, f, p.0@, p.1@));
                    assert forall|a: Seq<u8>, b: Seq<u8>|
                        g.has_edge(a, b) <==> edge_in_prefix(lines@, f, idx + 1, a, b) by {
                        if edge_in_prefix(lines@, f, idx + 1, a, b) {
                            let k = choose|k: int|
                                0 <= k < idx + 1 && #[trigger] yields_edge(lines@[k]@, f, a, b);
                            if k < idx {
                                assert(edge_in_prefix(lines@, f, idx as int, a, b));
                                assert(gpre.has_edge(a, b));
                            } else {
                                assert(a == p.0@ && b == p.1@);
                            }
                            assert(g.has_edge(a, b));
                        }
                        if g.has_edge(a, b) {
                            if gpre.has_edge(a, b) {
                                let k = choose|k: int|
                                    0 <= k < idx && #[trigger] yields_edge(lines@[k]@, f, a, b);
                                assert(0 <= k < idx + 1 && yields_edge(lines@[k]@, f, a, b));
                            } else {
                                assert(a == p.0@ && b == p.1@);
                                assert(yields_edge(lines@[idx as int]@, f, a, b));
                                assert(0 <= idx < idx + 1);
                            }
                        }
                    }
                    assert forall|m: Seq<u8>|
                        g.has_name(m) <==> name_in_prefix(lines@, f, idx + 1, m) by {
                        if name_in_prefix(lines@, f, idx + 1, m) {
                            let k = choose|k: int|
                                0 <= k < idx + 1 && #[trigger] yields_name(lines@[k]@, f, m);
                            if k < idx {
                                assert(name_in_prefix(lines@, f, idx as int, m));
                                assert(gpre.has_name(m));
                            } else {
                                assert(m == p.0@ || m == p.1@);
                            }
                            assert(g.has_name(m));
                        }
                        if g.has_name(m) {
                            if gpre.has_name(m) {
                                let k = choose|k: int|
                                    0 <= k < idx && #[trigger] yields_name(lines@[k]@, f, m);
                                assert(0 <= k < idx + 1 && yields_name(lines@[k]@, f, m));
                            } else {
                                assert(m == p.0@ || m == p.1@);
                                assert(yields_name(lines@[idx as int]@, f, m));
                                assert(0 <= idx < idx + 1);
                            }
                        }
                    }
                }
            },
        }
        idx = idx + 1;
    }
    Ok(g)
}

/// Law: the two adjacency views are symmetric — `j` is in the forward-edge
/// set of `i` exactly when `i` is in the reverse-edge set of `j`.
pub proof fn lemma_edge_symmetry(g: Graph, i: usize, j: usize)
    ensures
        g.depends_on(i).contains(j) <==> g.depended_on_by(j).contains(i),
{
}

/// Law: a mutual edge pair makes each endpoint a circular partner of the
/// other.
pub proof fn lemma_direct_pair_is_circular(g: Graph, i: usize, j: usize)
    requires
        g.has_fwd(i, j),
        g.has_fwd(j, i),
    ensures
        g.is_circ(i, j),
        g.is_circ(j, i),
{
}

/// Law: no recorded edge has a source name that carries the reserved
/// archive suffix; such lines are dropped entirely.
pub proof fn lemma_archive_source_excluded(
    g: Graph,
    lines: Seq<Vec<u8>>,
    f: Option<Seq<u8>>,
    a: Seq<u8>,
    b: Seq<u8>,
)
    requires
        forall|x: Seq<u8>, y: Seq<u8>|
            g.has_edge(x, y) <==> edge_in_prefix(lines, f, lines.len() as int, x, y),
        g.has_edge(a, b),
    ensures
        !crate::bytes::ends_with_seq(a, crate::parse::jar_suffix()),
{
    let k = choose|k: int|
        0 <= k < lines.len() && #[trigger] yields_edge(lines[k]@, f, a, b);
    assert(yields_edge(lines[k]@, f, a, b));
    reveal(line_edge);
}

/// Law: under an include-filter, both endpoints of every recorded edge
/// contain the filter as a substring; a line that fails the filter on either
/// side contributes nothing.
pub proof fn lemma_filter_excludes(
    g: Graph,
    lines: Seq<Vec<u8>>,
    ff: Seq<u8>,
    a: Seq<u8>,
    b: Seq<u8>,
)
    requires
        forall|x: Seq<u8>, y: Seq<u8>|
            g.has_edge(x, y) <==> edge_in_prefix(lines, Some(ff), lines.len() as int, x, y),
        g.has_edge(a, b),
    ensures
        crate::bytes::contains_seq(a, ff),
        crate::bytes::contains_seq(b, ff),
{
    let k = choose|k: int|
        0 <= k < lines.len() && #[trigger] yields_edge(lines[k]@, Some(ff), a, b);
    assert(yields_edge(lines[k]@, Some(ff), a, b));
    reveal(line_edge);
}

} // verus!
