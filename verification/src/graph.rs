//! File dependency graphs and the detection of dependency cycles.
use vstd::prelude::*;
use crate::merkle::texts;

verus! {

/// A directed graph of files. `nodes` holds each file once, in the order of its
/// first mention; `edges[i]` holds, each once, the positions in `nodes` of the
/// files that `nodes[i]` depends on.
#[derive(Debug, Clone)]
pub struct DependencyGraph {
    pub nodes: Vec<String>,
    pub edges: Vec<Vec<usize>>,
}

/// The number of `true` entries.
pub open spec fn count_true(s: Seq<bool>) -> nat
    decreases s.len(),
{
    if s.len() == 0 {
        0
    } else {
        count_true(s.drop_last()) + if s.last() {
            1nat
        } else {
            0nat
        }
    }
}

proof fn lemma_count_true_bound(s: Seq<bool>)
    ensures
        count_true(s) <= s.len(),
    decreases s.len(),
{
    if s.len() > 0 {
        lemma_count_true_bound(s.drop_last());
    }
}

proof fn lemma_count_true_set(s: Seq<bool>, x: int)
    requires
        0 <= x < s.len(),
        !s[x],
    ensures
        count_true(s.update(x, true)) == count_true(s) + 1,
    decreases s.len(),
{
    let t = s.update(x, true);
    if x == s.len() - 1 {
        assert(t.drop_last() =~= s.drop_last());
    } else {
        assert(t.drop_last() =~= s.drop_last().update(x, true));
        lemma_count_true_set(s.drop_last(), x);
    }
}

proof fn lemma_count_true_all(s: Seq<bool>)
    requires
        forall|i: int| 0 <= i < s.len() ==> s[i],
    ensures
        count_true(s) == s.len(),
    decreases s.len(),
{
    if s.len() > 0 {
        lemma_count_true_all(s.drop_last());
    }
}

/// The cycle `c`, which closes on its first entry, entered at its entry `r`
/// instead: the same files in the same circular order, closing on `c[r]`.
pub open spec fn rotated<A>(c: Seq<A>, r: int) -> Seq<A> {
    Seq::new(
        c.len(),
        |k: int|
            if k + r < c.len() - 1 {
                c[k + r]
            } else {
                c[k + r - (c.len() - 1)]
            },
    )
}

/// Whether the last dependency of the cycle `c` (the one that closes it) is
/// the dependency from `p[k - 1]` to `p[k]`.
pub open spec fn closes_at(c: Seq<Seq<char>>, p: Seq<Seq<char>>, k: int) -> bool {
    &&& c.len() >= 2
    &&& 1 <= k < p.len()
    &&& c[c.len() - 2] == p[k - 1]
    &&& c[c.len() - 1] == p[k]
}

/// Whether `d` is the cycle `c` listed from one of its entries.
pub open spec fn is_rotation<A>(d: Seq<A>, c: Seq<A>) -> bool {
    &&& c.len() >= 2
    &&& exists|r: int| 0 <= r < c.len() - 1 && #[trigger] rotated(c, r) == d
}

impl DependencyGraph {
    /// Each file once; every edge target a position in `nodes`; each target once per source.
    pub open spec fn wf(&self) -> bool {
        &&& self.edges@.len() == self.nodes@.len()
        &&& forall|i: int, j: int|
            0 <= i < j < self.nodes@.len() ==> #[trigger] self.nodes@[i]@ != #[trigger] self.nodes@[j]@
        &&& forall|i: int, k: int|
            0 <= i < self.edges@.len() && 0 <= k < self.edges@[i]@.len() ==> #[trigger] self.edges@[i]@[k]
                < self.nodes@.len()
        &&& forall|i: int, k: int, l: int|
            0 <= i < self.edges@.len() && 0 <= k < l < self.edges@[i]@.len() ==> #[trigger] self.edges@[i]@[k]
                != #[trigger] self.edges@[i]@[l]
    }

    /// The files of the graph, in order.
    pub open spec fn node_names(&self) -> Seq<Seq<char>> {
        texts(self.nodes@)
    }

    /// Whether the file at position `i` depends on the file at position `j`.
    pub open spec fn edge_at(&self, i: int, j: int) -> bool {
        &&& 0 <= i < self.edges@.len()
        &&& 0 <= j
        &&& self.edges@[i]@.contains(j as usize)
    }

    /// Whether file `a` depends on file `b`.
    pub open spec fn has_edge(&self, a: Seq<char>, b: Seq<char>) -> bool {
        exists|i: int, j: int|
            0 <= i < self.nodes@.len() && 0 <= j < self.nodes@.len() && self.nodes@[i]@ == a
                && self.nodes@[j]@ == b && #[trigger] self.edge_at(i, j)
    }

    /// `path` is a dependency cycle: at least two entries, it ends where it
    /// starts, and each file depends on the next.
    pub open spec fn is_cycle(&self, path: Seq<Seq<char>>) -> bool {
        &&& path.len() >= 2
        &&& path[0] == path.last()
        &&& forall|k: int| #![trigger path[k]] 1 <= k < path.len() ==> self.has_edge(path[k - 1], path[k])
    }

    /// A cycle that visits no file twice, but for its closing entry.
    pub open spec fn is_simple_cycle(&self, path: Seq<Seq<char>>) -> bool {
        &&& self.is_cycle(path)
        &&& forall|a: int, b: int| 0 <= a < b < path.len() - 1 ==> #[trigger] path[a] != #[trigger] path[b]
    }

    /// Whether some files depend on each other in a circle.
    pub open spec fn has_cycle(&self) -> bool {
        exists|path: Seq<Seq<char>>| #[trigger] self.is_cycle(path)
    }

    /// An empty graph.
    pub fn new() -> (g: DependencyGraph)
        ensures
            g.wf(),
            g.nodes@.len() == 0,
    {
        DependencyGraph { nodes: Vec::new(), edges: Vec::new() }
    }

    fn find_node(&self, name: &String) -> (res: Option<usize>)
        requires
            self.wf(),
        ensures
            match res {
                Some(i) => i < self.nodes@.len() && self.nodes@[i as int]@ == name@,
                None => forall|i: int| 0 <= i < self.nodes@.len() ==> self.nodes@[i]@ != name@,
            },
    {
        let mut i: usize = 0;
        while i < self.nodes.len()
            invariant
                i <= self.nodes@.len(),
                forall|j: int| 0 <= j < i ==> self.nodes@[j]@ != name@,
            decreases self.nodes@.len() - i,
        {
            if self.nodes[i] == *name {
                return Some(i);
            }
            i = i + 1;
        }
        None
    }

    /// The position of `name`, added as a file without dependencies where it is new.
    fn intern(&mut self, name: String) -> (res: usize)
        requires
            old(self).wf(),
        ensures
            final(self).wf(),
            res < final(self).nodes@.len(),
            final(self).nodes@[res as int]@ == name@,
            final(self).nodes@.len() <= old(self).nodes@.len() + 1,
            final(self).nodes@.len() >= old(self).nodes@.len(),
            forall|i: int| 0 <= i < old(self).nodes@.len() ==> #[trigger] final(self).nodes@[i] == old(self).nodes@[i],
            forall|i: int| 0 <= i < old(self).edges@.len() ==> #[trigger] final(self).edges@[i] == old(self).edges@[i],
            final(self).nodes@.len() > old(self).nodes@.len() ==> {
                &&& final(self).edges@[res as int]@.len() == 0
                &&& res == old(self).nodes@.len()
                &&& forall|i: int| 0 <= i < old(self).nodes@.len() ==> old(self).nodes@[i]@ != name@
            },
    {
        match self.find_node(&name) {
            Some(i) => i,
            None => {
                let i = self.nodes.len();
                self.nodes.push(name);
                self.edges.push(Vec::new());
                proof {
                    let g = *self;
                    assert forall|a: int, b: int| 0 <= a < b < g.nodes@.len() implies #[trigger] g.nodes@[a]@
                        != #[trigger] g.nodes@[b]@ by {
                        if b == i as int {
                            assert(old(self).nodes@[a]@ != name@);
                        } else {
                            assert(g.nodes@[a] == old(self).nodes@[a]);
                            assert(g.nodes@[b] == old(self).nodes@[b]);
                        }
                    }
                    assert forall|x: int, k: int|
                        0 <= x < g.edges@.len() && 0 <= k < g.edges@[x]@.len() implies #[trigger] g.edges@[x]@[k]
                        < g.nodes@.len() by {
                        assert(x < old(self).edges@.len());
                        assert(g.edges@[x] == old(self).edges@[x]);
                    }
                    assert forall|x: int, k: int, l: int|
                        0 <= x < g.edges@.len() && 0 <= k < l < g.edges@[x]@.len() implies #[trigger] g.edges@[x]@[k]
                        != #[trigger] g.edges@[x]@[l] by {
                        assert(x < old(self).edges@.len());
                        assert(g.edges@[x] == old(self).edges@[x]);
                    }
                }
                i
            },
        }
    }

    /// Records that file `from` depends on file `to`, adding either file where it is new.
    pub fn add_dependency(&mut self, from: String, to: String)
        requires
            old(self).wf(),
        ensures
            final(self).wf(),
            final(self).node_names().to_set() == old(self).node_names().to_set().insert(from@).insert(
                to@,
            ),
            forall|a: Seq<char>, b: Seq<char>|
                #[trigger] final(self).has_edge(a, b) <==> (old(self).has_edge(a, b) || (a == from@ && b
                    == to@)),
    {
        let ghost g0 = *self;
        let fi = self.intern(from);
        let ghost g1 = *self;
        let ti = self.intern(to);
        let ghost g2 = *self;
        proof {
            assert(g2.nodes@[fi as int] == g1.nodes@[fi as int]);
        }
        let mut found = false;
        let mut k: usize = 0;
        while k < self.edges[fi].len()
            invariant
                *self == g2,
                fi < self.edges@.len(),
                self.wf(),
                k <= self.edges@[fi as int]@.len(),
                found ==> self.edges@[fi as int]@.contains(ti),
                !found ==> forall|l: int| 0 <= l < k ==> self.edges@[fi as int]@[l] != ti,
            decreases self.edges@[fi as int]@.len() - k,
        {
            if self.edges[fi][k] == ti {
                found = true;
                proof {
                    assert(self.edges@[fi as int]@[k as int] == ti);
                }
            }
            k = k + 1;
        }
        if !found {
            let mut targets = self.edges[fi].clone();
            proof {
                assert(targets@ == self.edges@[fi as int]@);
            }
            targets.push(ti);
            self.edges.set(fi, targets);
        }
        proof {
            let g3 = *self;
            // edges of the final graph
            assert(forall|x: int| 0 <= x < g3.edges@.len() && x != fi ==> #[trigger] g3.edges@[x]
                == g2.edges@[x]);
            if !found {
                assert(g3.edges@[fi as int]@[g2.edges@[fi as int]@.len() as int] == ti);
            }
            assert(g3.edges@[fi as int]@.contains(ti));
            assert(forall|y: usize| #[trigger] g3.edges@[fi as int]@.contains(y) <==> (g2.edges@[fi as int]@.contains(y) || y == ti)) by {
                if !found {
                    assert forall|y: usize| #[trigger] g3.edges@[fi as int]@.contains(y) implies (g2.edges@[fi as int]@.contains(y) || y == ti) by {
                        let l = choose|l: int| 0 <= l < g3.edges@[fi as int]@.len() && g3.edges@[fi as int]@[l] == y;
                        if l < g2.edges@[fi as int]@.len() {
                            assert(g2.edges@[fi as int]@[l] == y);
                        }
                    }
                    assert forall|y: usize| g2.edges@[fi as int]@.contains(y) implies #[trigger] g3.edges@[fi as int]@.contains(y) by {
                        let l = choose|l: int| 0 <= l < g2.edges@[fi as int]@.len() && g2.edges@[fi as int]@[l] == y;
                        assert(g3.edges@[fi as int]@[l] == y);
                    }
                }
            }
            // well-formedness
            assert forall|x: int, a: int| 0 <= x < g3.edges@.len() && 0 <= a < g3.edges@[x]@.len() implies #[trigger] g3.edges@[x]@[a]
                < g3.nodes@.len() by {
                if x == fi && a == g2.edges@[fi as int]@.len() && !found {
                } else if x == fi {
                    assert(g3.edges@[x]@[a] == g2.edges@[x]@[a]);
                }
            }
            assert forall|x: int, a: int, b: int|
                0 <= x < g3.edges@.len() && 0 <= a < b < g3.edges@[x]@.len() implies #[trigger] g3.edges@[x]@[a]
                != #[trigger] g3.edges@[x]@[b] by {
                if x == fi && !found {
                    if b == g2.edges@[fi as int]@.len() {
                        assert(g3.edges@[x]@[a] == g2.edges@[x]@[a]);
                    } else {
                        assert(g3.edges@[x]@[a] == g2.edges@[x]@[a]);
                        assert(g3.edges@[x]@[b] == g2.edges@[x]@[b]);
                    }
                }
            }
            assert(g3.wf());
            // the nodes
            assert(g3.nodes@ == g2.nodes@);
            assert(g3.node_names().to_set() =~= g0.node_names().to_set().insert(g1.nodes@[fi as int]@).insert(
                g2.nodes@[ti as int]@,
            )) by {
                assert forall|s: Seq<char>| #[trigger] g3.node_names().to_set().contains(s) implies g0.node_names().to_set().insert(
                    g1.nodes@[fi as int]@,
                ).insert(g2.nodes@[ti as int]@).contains(s) by {
                    let i = choose|i: int| 0 <= i < g3.node_names().len() && g3.node_names()[i] == s;
                    if i < g0.nodes@.len() {
                        assert(g0.node_names()[i] == s);
                    } else if i < g1.nodes@.len() {
                        assert(g1.nodes@[fi as int]@ == s);
                    } else {
                        assert(g2.nodes@[ti as int]@ == s);
                    }
                }
                assert forall|s: Seq<char>| g0.node_names().to_set().insert(g1.nodes@[fi as int]@).insert(
                    g2.nodes@[ti as int]@,
                ).contains(s) implies #[trigger] g3.node_names().to_set().contains(s) by {
                    if s == g1.nodes@[fi as int]@ {
                        assert(g3.node_names()[fi as int] == s);
                    } else if s == g2.nodes@[ti as int]@ {
                        assert(g3.node_names()[ti as int] == s);
                    } else {
                        assert(g0.node_names().contains(s));
                        let i = choose|i: int| 0 <= i < g0.node_names().len() && g0.node_names()[i] == s;
                        assert(g1.nodes@[i] == g0.nodes@[i]);
                        assert(g2.nodes@[i] == g1.nodes@[i]);
                        assert(g3.node_names()[i] == s);
                    }
                }
            }
            // the dependencies
            assert forall|a: Seq<char>, b: Seq<char>| #[trigger] g3.has_edge(a, b) implies (g0.has_edge(a, b) || (
            a == g1.nodes@[fi as int]@ && b == g2.nodes@[ti as int]@)) by {
                let (i, j) = choose|i: int, j: int|
                    0 <= i < g3.nodes@.len() && 0 <= j < g3.nodes@.len() && g3.nodes@[i]@ == a
                        && g3.nodes@[j]@ == b && #[trigger] g3.edge_at(i, j);
                if i == fi && j == ti {
                } else {
                    if i == fi {
                        assert(g3.edges@[fi as int]@.contains(j as usize));
                        assert(0 <= j < g3.nodes@.len());
                        assert(g3.nodes@.len() == g3.nodes.len());
                        assert(j as usize != ti);
                        assert(g2.edges@[fi as int]@.contains(j as usize));
                    } else {
                        assert(g3.edges@[i] == g2.edges@[i]);
                    }
                    assert(g2.edge_at(i, j));
                    assert(i < g0.nodes@.len()) by {
                        if i >= g0.nodes@.len() {
                            assert(g2.edges@[i]@.len() == 0) by {
                                if i < g1.nodes@.len() {
                                    assert(g2.edges@[i] == g1.edges@[i]);
                                }
                            }
                        }
                    }
                    assert(g0.edges@[i] == g2.edges@[i]) by {
                        assert(g1.edges@[i] == g0.edges@[i]);
                        assert(g2.edges@[i] == g1.edges@[i]);
                    }
                    assert(j < g0.nodes@.len());
                    assert(g0.nodes@[i] == g3.nodes@[i]) by {
                        assert(g1.nodes@[i] == g0.nodes@[i]);
                    }
                    assert(g0.nodes@[j] == g3.nodes@[j]) by {
                        assert(g1.nodes@[j] == g0.nodes@[j]);
                    }
                    assert(g0.edge_at(i, j));
                }
            }
            assert forall|a: Seq<char>, b: Seq<char>|
                (g0.has_edge(a, b) || (a == g1.nodes@[fi as int]@ && b == g2.nodes@[ti as int]@)) implies #[trigger] g3.has_edge(
                a,
                b,
            ) by {
                if g0.has_edge(a, b) {
                    let (i, j) = choose|i: int, j: int|
                        0 <= i < g0.nodes@.len() && 0 <= j < g0.nodes@.len() && g0.nodes@[i]@ == a
                            && g0.nodes@[j]@ == b && #[trigger] g0.edge_at(i, j);
                    assert(g1.nodes@[i] == g0.nodes@[i]);
                    assert(g1.nodes@[j] == g0.nodes@[j]);
                    assert(g1.edges@[i] == g0.edges@[i]);
                    assert(g2.edges@[i] == g1.edges@[i]);
                    assert(g3.edge_at(i, j));
                } else {
                    assert(g3.edge_at(fi as int, ti as int));
                }
            }
        }
    }
}


/// The bookkeeping of a depth-first search: which files were reached, which
/// lie on the current search path, (in ghost state) when each search was finished, and the
/// cycles found so far, all by position in `nodes`. In ghost state: the
/// dependencies along which the search went deeper (`tree`), and for each
/// cycle the dependency that led back to the search path and closed it.
struct DfsState {
    visited: Vec<bool>,
    on_stack: Vec<bool>,
    path: Vec<usize>,
    finish: Ghost<Seq<int>>,
    clock: Ghost<int>,
    cycles: Vec<Vec<usize>>,
    tree: Ghost<Set<(int, int)>>,
    closers: Ghost<Seq<(int, int)>>,
}

/// Each cycle is closed by a dependency of its own back to the search path,
/// one that the search never went deeper along; the cycle's other
/// dependencies are ones it went deeper along, and so are those of the path.
#[verifier::opaque]
spec fn book(g: DependencyGraph, st: DfsState) -> bool {
    let n = g.nodes@.len();
    &&& st.closers@.len() == st.cycles@.len()
    &&& forall|i: int|
        0 <= i < st.cycles@.len() ==> #[trigger] st.closers@[i] == (
            st.cycles@[i]@[st.cycles@[i]@.len() - 2] as int,
            st.cycles@[i]@[st.cycles@[i]@.len() - 1] as int,
        )
    &&& forall|i: int, k: int|
        #![trigger st.cycles@[i]@[k]]
        0 <= i < st.cycles@.len() && 1 <= k < st.cycles@[i]@.len() - 1 ==> st.tree@.contains(
            (st.cycles@[i]@[k - 1] as int, st.cycles@[i]@[k] as int),
        )
    &&& forall|i: int| 0 <= i < st.closers@.len() ==> !st.tree@.contains(#[trigger] st.closers@[i])
    &&& forall|i: int, j: int|
        0 <= i < j < st.closers@.len() ==> #[trigger] st.closers@[i] != #[trigger] st.closers@[j]
    &&& forall|i: int|
        0 <= i < st.closers@.len() ==> {
            &&& 0 <= (#[trigger] st.closers@[i]).0 < n
            &&& st.visited@[st.closers@[i].0]
            &&& 0 <= st.closers@[i].1 < n
            &&& st.visited@[st.closers@[i].1]
        }
    &&& forall|k: int|
        #![trigger st.path@[k]]
        1 <= k < st.path@.len() ==> st.tree@.contains((st.path@[k - 1] as int, st.path@[k] as int))
    &&& forall|e: (int, int)| #[trigger] st.tree@.contains(e) ==> 0 <= e.0 < n && st.visited@[e.0]
}

/// `st` follows from `st0` by search: cycles and closers are only appended,
/// the tree only grows, and what is new starts at files not reached in `st0`.
#[verifier::opaque]
spec fn grows_from(st0: DfsState, st: DfsState) -> bool {
    &&& st0.cycles@.len() <= st.cycles@.len()
    &&& st.cycles@.subrange(0, st0.cycles@.len() as int) == st0.cycles@
    &&& st0.closers@.len() <= st.closers@.len()
    &&& st.closers@.subrange(0, st0.closers@.len() as int) == st0.closers@
    &&& st0.tree@.subset_of(st.tree@)
    &&& forall|e: (int, int)| #[trigger] st.tree@.contains(e) ==> st0.tree@.contains(e) || !st0.visited@[e.0]
    &&& forall|i: int|
        st0.closers@.len() <= i < st.closers@.len() ==> !st0.visited@[(#[trigger] st.closers@[i]).0]
}

/// Every dependency of `u` in the tree or among the closers is one of its first `t`.
#[verifier::opaque]
spec fn scanned_from(g: DependencyGraph, st: DfsState, u: int, t: int) -> bool {
    &&& forall|e: (int, int)|
        #[trigger] st.tree@.contains(e) && e.0 == u ==> exists|s: int|
            0 <= s < t && #[trigger] g.edges@[u]@[s] as int == e.1
    &&& forall|i: int|
        0 <= i < st.closers@.len() && (#[trigger] st.closers@[i]).0 == u ==> exists|s: int|
            0 <= s < t && #[trigger] g.edges@[u]@[s] as int == st.closers@[i].1
}

proof fn lemma_rotated_tail<A>(c: Seq<A>, r: int)
    requires
        c.len() >= 2,
        0 <= r < c.len() - 1,
    ensures
        rotated(c, r).len() == c.len(),
        rotated(c, r)[c.len() - 1] == c[r],
        rotated(c, r)[c.len() - 2] == if r == 0 {
            c[c.len() - 2]
        } else {
            c[r - 1]
        },
{
}

/// The closers match the cycles one for one.
proof fn lemma_book_closers(g: DependencyGraph, st: DfsState)
    requires
        book(g, st),
    ensures
        st.closers@.len() == st.cycles@.len(),
{
    reveal(book);
}

/// The closer of cycle `j` is its last dependency.
proof fn lemma_book_closer(g: DependencyGraph, st: DfsState, j: int)
    requires
        book(g, st),
        0 <= j < st.cycles@.len(),
    ensures
        st.closers@[j] == (
            st.cycles@[j]@[st.cycles@[j]@.len() - 2] as int,
            st.cycles@[j]@[st.cycles@[j]@.len() - 1] as int,
        ),
{
    reveal(book);
}

/// What the bookkeeping says of two recorded cycles `i` and `j`.
proof fn lemma_book_cycles(g: DependencyGraph, st: DfsState, i: int, j: int)
    requires
        book(g, st),
        0 <= i < st.cycles@.len(),
        0 <= j < st.cycles@.len(),
        i != j,
    ensures
        st.closers@[i] == (
            st.cycles@[i]@[st.cycles@[i]@.len() - 2] as int,
            st.cycles@[i]@[st.cycles@[i]@.len() - 1] as int,
        ),
        st.closers@[j] == (
            st.cycles@[j]@[st.cycles@[j]@.len() - 2] as int,
            st.cycles@[j]@[st.cycles@[j]@.len() - 1] as int,
        ),
        st.closers@[i] != st.closers@[j],
        !st.tree@.contains(st.closers@[j]),
        forall|k: int|
            #![trigger st.cycles@[i]@[k]]
            1 <= k < st.cycles@[i]@.len() - 1 ==> st.tree@.contains(
                (st.cycles@[i]@[k - 1] as int, st.cycles@[i]@[k] as int),
            ),
{
    reveal(book);
    if i > j {
        assert(st.closers@[j] != st.closers@[i]);
    }
}

proof fn lemma_closers_grow(st0: DfsState, st: DfsState)
    requires
        grows_from(st0, st),
    ensures
        forall|e: (int, int)| st0.closers@.contains(e) ==> #[trigger] st.closers@.contains(e),
{
    reveal(grows_from);
    assert forall|e: (int, int)| st0.closers@.contains(e) implies #[trigger] st.closers@.contains(e) by {
        let j = choose|j: int| 0 <= j < st0.closers@.len() && st0.closers@[j] == e;
        assert(st.closers@.subrange(0, st0.closers@.len() as int)[j] == e);
        assert(st.closers@[j] == e);
    }
}

proof fn lemma_book_start(g: DependencyGraph, st: DfsState)
    requires
        st.cycles@.len() == 0,
        st.closers@.len() == 0,
        st.tree@ == Set::<(int, int)>::empty(),
        st.path@.len() == 0,
    ensures
        book(g, st),
{
    reveal(book);
}

proof fn lemma_book_enter(g: DependencyGraph, st0: DfsState, st1: DfsState, u: usize)
    requires
        book(g, st0),
        0 <= u < g.nodes@.len(),
        st0.visited@.len() == g.nodes@.len(),
        !st0.visited@[u as int],
        st1.visited@ == st0.visited@.update(u as int, true),
        st1.path@ == st0.path@.push(u),
        st1.tree@ == st0.tree@,
        st1.closers@ == st0.closers@,
        st1.cycles@ == st0.cycles@,
        st0.path@.len() > 0 ==> st0.tree@.contains((st0.path@.last() as int, u as int)),
    ensures
        book(g, st1),
        grows_from(st0, st1),
        scanned_from(g, st1, u as int, 0),
{
    reveal(book);
    reveal(grows_from);
    reveal(scanned_from);
    assert forall|k: int| #![trigger st1.path@[k]] 1 <= k < st1.path@.len() implies st1.tree@.contains(
        (st1.path@[k - 1] as int, st1.path@[k] as int),
    ) by {
        if k < st0.path@.len() {
            assert(st1.path@[k] == st0.path@[k]);
            assert(st1.path@[k - 1] == st0.path@[k - 1]);
        } else {
            assert(st1.path@[k] == u);
            assert(st1.path@[k - 1] == st0.path@.last());
        }
    }
    assert(st1.cycles@.subrange(0, st0.cycles@.len() as int) =~= st0.cycles@);
    assert(st1.closers@.subrange(0, st0.closers@.len() as int) =~= st0.closers@);
}

#[verifier::rlimit(60)]
proof fn lemma_book_deeper(
    g: DependencyGraph,
    st0: DfsState,
    st: DfsState,
    st2: DfsState,
    u: int,
    w: int,
    t: int,
)
    requires
        book(g, st),
        grows_from(st0, st),
        scanned_from(g, st, u, t),
        0 <= u < g.nodes@.len(),
        0 <= w < g.nodes@.len(),
        st.visited@[u],
        !st.visited@[w],
        !st0.visited@[u],
        0 <= t < g.edges@[u]@.len(),
        g.edges@[u]@[t] as int == w,
        st2.visited@ == st.visited@,
        st2.path@ == st.path@,
        st2.cycles@ == st.cycles@,
        st2.closers@ == st.closers@,
        st2.tree@ == st.tree@.insert((u, w)),
    ensures
        book(g, st2),
        grows_from(st0, st2),
        scanned_from(g, st2, u, t + 1),
{
    reveal(book);
    reveal(grows_from);
    reveal(scanned_from);
    assert forall|i: int| 0 <= i < st2.closers@.len() implies !st2.tree@.contains(#[trigger] st2.closers@[i]) by {
        assert(st.visited@[st.closers@[i].1]);
    }
    assert forall|e: (int, int)| #[trigger] st2.tree@.contains(e) && e.0 == u implies exists|s: int|
        0 <= s < t + 1 && #[trigger] g.edges@[u]@[s] as int == e.1 by {
        if e == (u, w) {
            assert(g.edges@[u]@[t] as int == e.1);
        } else {
            assert(st.tree@.contains(e));
        }
    }
    assert forall|i: int| 0 <= i < st2.closers@.len() && (#[trigger] st2.closers@[i]).0 == u implies exists|s: int|
        0 <= s < t + 1 && #[trigger] g.edges@[u]@[s] as int == st2.closers@[i].1 by {
        assert(st.closers@[i] == st2.closers@[i]);
    }
}

proof fn lemma_book_returned(g: DependencyGraph, st0: DfsState, stb: DfsState, st3: DfsState, u: int, t: int)
    requires
        grows_from(st0, stb),
        grows_from(stb, st3),
        scanned_from(g, stb, u, t),
        0 <= u < g.nodes@.len(),
        stb.visited@.len() == g.nodes@.len(),
        stb.visited@[u],
        forall|x: int| 0 <= x < g.nodes@.len() && #[trigger] st0.visited@[x] ==> stb.visited@[x],
        book(g, st3),
    ensures
        grows_from(st0, st3),
        scanned_from(g, st3, u, t),
{
    reveal(book);
    reveal(grows_from);
    reveal(scanned_from);
    assert(st3.cycles@.subrange(0, st0.cycles@.len() as int) =~= st0.cycles@) by {
        assert(st3.cycles@.subrange(0, stb.cycles@.len() as int).subrange(0, st0.cycles@.len() as int)
            =~= st3.cycles@.subrange(0, st0.cycles@.len() as int));
    }
    assert(st3.closers@.subrange(0, st0.closers@.len() as int) =~= st0.closers@) by {
        assert(st3.closers@.subrange(0, stb.closers@.len() as int).subrange(0, st0.closers@.len() as int)
            =~= st3.closers@.subrange(0, st0.closers@.len() as int));
    }
    assert forall|e: (int, int)| #[trigger] st3.tree@.contains(e) implies st0.tree@.contains(e) || !st0.visited@[e.0] by {
        if !stb.tree@.contains(e) {
            assert(!stb.visited@[e.0]);
        }
    }
    assert forall|i: int| st0.closers@.len() <= i < st3.closers@.len() implies !st0.visited@[(#[trigger] st3.closers@[i]).0] by {
        if i < stb.closers@.len() {
            assert(st3.closers@[i] == st3.closers@.subrange(0, stb.closers@.len() as int)[i]);
            assert(stb.closers@[i] == st3.closers@[i]);
        } else {
            assert(!stb.visited@[st3.closers@[i].0]);
        }
    }
    assert forall|e: (int, int)| #[trigger] st3.tree@.contains(e) && e.0 == u implies exists|s: int|
        0 <= s < t && #[trigger] g.edges@[u]@[s] as int == e.1 by {
        assert(stb.tree@.contains(e));
    }
    assert forall|i: int| 0 <= i < st3.closers@.len() && (#[trigger] st3.closers@[i]).0 == u implies exists|s: int|
        0 <= s < t && #[trigger] g.edges@[u]@[s] as int == st3.closers@[i].1 by {
        assert(i < stb.closers@.len());
        assert(st3.closers@[i] == st3.closers@.subrange(0, stb.closers@.len() as int)[i]);
        assert(stb.closers@[i] == st3.closers@[i]);
    }
}

/// The dependency at position `t` of `u` is in neither the tree nor the
/// closers while only the first `t` have been looked at.
proof fn lemma_unseen_edge(g: DependencyGraph, st: DfsState, u: int, w: int, t: int)
    requires
        g.wf(),
        scanned_from(g, st, u, t),
        0 <= u < g.nodes@.len(),
        0 <= t < g.edges@[u]@.len(),
        g.edges@[u]@[t] as int == w,
    ensures
        !st.tree@.contains((u, w)),
        forall|i: int| 0 <= i < st.closers@.len() ==> #[trigger] st.closers@[i] != (u, w),
{
    reveal(scanned_from);
    assert forall|s: int| 0 <= s < t implies #[trigger] g.edges@[u]@[s] as int != w by {
        assert(g.edges@[u]@[s] != g.edges@[u]@[t]);
    }
    if st.tree@.contains((u, w)) {
        let s = choose|s: int| 0 <= s < t && #[trigger] g.edges@[u]@[s] as int == w;
    }
    assert forall|i: int| 0 <= i < st.closers@.len() implies #[trigger] st.closers@[i] != (u, w) by {
        if st.closers@[i] == (u, w) {
            let s = choose|s: int| 0 <= s < t && #[trigger] g.edges@[u]@[s] as int == st.closers@[i].1;
        }
    }
}

#[verifier::rlimit(60)]
proof fn lemma_book_closed(
    g: DependencyGraph,
    st: DfsState,
    st4: DfsState,
    c: Seq<usize>,
    pos: int,
    u: usize,
    w: usize,
)
    requires
        book(g, st),
        !st.tree@.contains((u as int, w as int)),
        forall|i: int| 0 <= i < st.closers@.len() ==> #[trigger] st.closers@[i] != (u as int, w as int),
        u < g.nodes@.len(),
        w < g.nodes@.len(),
        st.visited@[u as int],
        st.visited@[w as int],
        st.path@.len() > 0,
        st.path@.last() == u,
        0 <= pos < st.path@.len(),
        c == st.path@.subrange(pos, st.path@.len() as int).push(w),
        st4.visited@ == st.visited@,
        st4.path@ == st.path@,
        st4.tree@ == st.tree@,
        st4.cycles@.len() == st.cycles@.len() + 1,
        st4.cycles@.drop_last() == st.cycles@,
        st4.cycles@.last()@ == c,
        st4.closers@ == st.closers@.push((u as int, w as int)),
    ensures
        book(g, st4),
{
    reveal(book);
    let m = st.cycles@.len() as int;
    let plen = st.path@.len() as int;
    assert(c.len() == plen - pos + 1);
    assert(c[c.len() - 2] == st.path@[plen - 1]);
    assert(c[c.len() - 1] == w);
    assert forall|i: int| 0 <= i < m implies #[trigger] st4.cycles@[i] == st.cycles@[i] by {
        assert(st4.cycles@.drop_last()[i] == st4.cycles@[i]);
    }
    assert(st4.closers@[m] == (c[c.len() - 2] as int, c[c.len() - 1] as int));
    assert forall|i: int, k: int|
        #![trigger st4.cycles@[i]@[k]]
        0 <= i < st4.cycles@.len() && 1 <= k < st4.cycles@[i]@.len() - 1 implies st4.tree@.contains(
            (st4.cycles@[i]@[k - 1] as int, st4.cycles@[i]@[k] as int),
        ) by {
        if i == m {
            assert(c[k] == st.path@[pos + k]);
            assert(c[k - 1] == st.path@[pos + k - 1]);
            assert(st.path@[pos + k] == st.path@[pos + k]);
        } else {
            assert(st.cycles@[i]@[k] == st4.cycles@[i]@[k]);
        }
    }
    assert forall|i: int| 0 <= i < st4.closers@.len() implies !st4.tree@.contains(#[trigger] st4.closers@[i]) by {
        if i < m {
            assert(st4.closers@[i] == st.closers@[i]);
        }
    }
    assert forall|i: int, j: int| 0 <= i < j < st4.closers@.len() implies #[trigger] st4.closers@[i]
        != #[trigger] st4.closers@[j] by {
        assert(st4.closers@[i] == st.closers@[i]);
        if j < m {
            assert(st4.closers@[j] == st.closers@[j]);
        }
    }
    assert forall|i: int| 0 <= i < st4.closers@.len() implies {
        &&& 0 <= (#[trigger] st4.closers@[i]).0 < g.nodes@.len()
        &&& st4.visited@[st4.closers@[i].0]
        &&& 0 <= st4.closers@[i].1 < g.nodes@.len()
        &&& st4.visited@[st4.closers@[i].1]
    } by {
        if i < m {
            assert(st4.closers@[i] == st.closers@[i]);
        }
    }
}

#[verifier::rlimit(60)]
proof fn lemma_closed_frame(
    g: DependencyGraph,
    st0: DfsState,
    st: DfsState,
    st4: DfsState,
    u: usize,
    w: usize,
    t: int,
)
    requires
        grows_from(st0, st),
        scanned_from(g, st, u as int, t),
        !st0.visited@[u as int],
        0 <= t < g.edges@[u as int]@.len(),
        g.edges@[u as int]@[t] == w,
        st4.tree@ == st.tree@,
        st4.cycles@.len() == st.cycles@.len() + 1,
        st4.cycles@.drop_last() == st.cycles@,
        st4.closers@ == st.closers@.push((u as int, w as int)),
    ensures
        grows_from(st0, st4),
        scanned_from(g, st4, u as int, t + 1),
{
    reveal(grows_from);
    reveal(scanned_from);
    let m = st.closers@.len() as int;
    let u = u as int;
    let w = w as int;
    assert(st4.cycles@.subrange(0, st0.cycles@.len() as int) =~= st0.cycles@) by {
        assert forall|k: int| 0 <= k < st0.cycles@.len() implies st4.cycles@[k] == st0.cycles@[k] by {
            assert(st4.cycles@.drop_last()[k] == st4.cycles@[k]);
            assert(st.cycles@.subrange(0, st0.cycles@.len() as int)[k] == st0.cycles@[k]);
        }
    }
    assert(st4.closers@.subrange(0, st0.closers@.len() as int) =~= st0.closers@) by {
        assert forall|k: int| 0 <= k < st0.closers@.len() implies st4.closers@[k] == st0.closers@[k] by {
            assert(st.closers@.subrange(0, st0.closers@.len() as int)[k] == st0.closers@[k]);
        }
    }
    assert forall|i: int| st0.closers@.len() <= i < st4.closers@.len() implies !st0.visited@[(
    #[trigger] st4.closers@[i]).0] by {
        if i < m {
            assert(st4.closers@[i] == st.closers@[i]);
        }
    }
    assert forall|e: (int, int)| #[trigger] st4.tree@.contains(e) && e.0 == u implies exists|s: int|
        0 <= s < t + 1 && #[trigger] g.edges@[u]@[s] as int == e.1 by {
        let s = choose|s: int| 0 <= s < t && #[trigger] g.edges@[u]@[s] as int == e.1;
        assert(g.edges@[u]@[s] as int == e.1);
    }
    assert forall|i: int| 0 <= i < st4.closers@.len() && (#[trigger] st4.closers@[i]).0 == u implies exists|s: int|
        0 <= s < t + 1 && #[trigger] g.edges@[u]@[s] as int == st4.closers@[i].1 by {
        if i == m {
            assert(g.edges@[u]@[t] as int == st4.closers@[i].1);
        } else {
            assert(st4.closers@[i] == st.closers@[i]);
            let s = choose|s: int| 0 <= s < t && #[trigger] g.edges@[u]@[s] as int == st.closers@[i].1;
            assert(g.edges@[u]@[s] as int == st4.closers@[i].1);
        }
    }
}

proof fn lemma_scanned_more(g: DependencyGraph, st: DfsState, u: int, t: int)
    requires
        scanned_from(g, st, u, t),
    ensures
        scanned_from(g, st, u, t + 1),
{
    reveal(scanned_from);
    assert forall|e: (int, int)| #[trigger] st.tree@.contains(e) && e.0 == u implies exists|s: int|
        0 <= s < t + 1 && #[trigger] g.edges@[u]@[s] as int == e.1 by {
        let s = choose|s: int| 0 <= s < t && #[trigger] g.edges@[u]@[s] as int == e.1;
        assert(g.edges@[u]@[s] as int == e.1);
    }
    assert forall|i: int| 0 <= i < st.closers@.len() && (#[trigger] st.closers@[i]).0 == u implies exists|s: int|
        0 <= s < t + 1 && #[trigger] g.edges@[u]@[s] as int == st.closers@[i].1 by {
        let s = choose|s: int| 0 <= s < t && #[trigger] g.edges@[u]@[s] as int == st.closers@[i].1;
        assert(g.edges@[u]@[s] as int == st.closers@[i].1);
    }
}

proof fn lemma_book_leave(g: DependencyGraph, st0: DfsState, st3: DfsState, st5: DfsState)
    requires
        book(g, st3),
        grows_from(st0, st3),
        st3.path@.len() > 0,
        st5.path@ == st3.path@.drop_last(),
        st5.visited@ == st3.visited@,
        st5.tree@ == st3.tree@,
        st5.closers@ == st3.closers@,
        st5.cycles@ == st3.cycles@,
    ensures
        book(g, st5),
        grows_from(st0, st5),
{
    reveal(book);
    reveal(grows_from);
    assert forall|k: int| #![trigger st5.path@[k]] 1 <= k < st5.path@.len() implies st5.tree@.contains(
        (st5.path@[k - 1] as int, st5.path@[k] as int),
    ) by {
        assert(st5.path@[k] == st3.path@[k]);
        assert(st5.path@[k - 1] == st3.path@[k - 1]);
    }
}

impl DfsState {
    spec fn finished(&self, x: int) -> bool {
        self.visited@[x] && !self.on_stack@[x]
    }
}

impl DependencyGraph {
    /// `c` is a simple cycle of positions: it closes, each position depends on
    /// the next, and no position occurs twice before the closing one.
    spec fn index_cycle(&self, c: Seq<usize>) -> bool {
        &&& c.len() >= 2
        &&& c[0] == c.last()
        &&& forall|k: int| 0 <= k < c.len() ==> #[trigger] c[k] < self.nodes@.len()
        &&& forall|k: int| #![trigger c[k]] 1 <= k < c.len() ==> self.edge_at(c[k - 1] as int, c[k] as int)
        &&& forall|a: int, b: int| 0 <= a < b < c.len() - 1 ==> #[trigger] c[a] != #[trigger] c[b]
    }

    #[verifier::opaque]
    spec fn dfs_inv(&self, st: DfsState) -> bool {
        let n = self.nodes@.len();
        &&& st.visited@.len() == n
        &&& st.on_stack@.len() == n
        &&& st.finish@.len() == n
        &&& forall|k: int| 0 <= k < st.path@.len() ==> #[trigger] st.path@[k] < n
        &&& forall|a: int, b: int| 0 <= a < b < st.path@.len() ==> #[trigger] st.path@[a] != #[trigger] st.path@[b]
        &&& forall|x: int| 0 <= x < n ==> (#[trigger] st.on_stack@[x] <==> st.path@.contains(x as usize))
        &&& forall|x: int| 0 <= x < n && #[trigger] st.on_stack@[x] ==> st.visited@[x]
        &&& forall|k: int| #![trigger st.path@[k]] 1 <= k < st.path@.len() ==> self.edge_at(st.path@[k - 1] as int, st.path@[k] as int)
        &&& forall|i: int| 0 <= i < st.cycles@.len() ==> self.index_cycle(#[trigger] st.cycles@[i]@)
        &&& st.clock@ + st.path@.len() == count_true(st.visited@)
        &&& forall|x: int| 0 <= x < n && #[trigger] st.finished(x) ==> st.finish@[x] < st.clock@
        &&& forall|x: int, k: int|
            0 <= x < n && st.finished(x) && 0 <= k < self.edges@[x]@.len() && !st.closers@.contains(
                (x, self.edges@[x]@[k] as int),
            ) ==> {
                &&& st.finished(#[trigger] self.edges@[x]@[k] as int)
                &&& st.finish@[self.edges@[x]@[k] as int] < st.finish@[x]
            }
    }

    /// `dfs_inv`, kept folded where only its parts are needed.
    #[verifier::opaque]
    spec fn search_inv(&self, st: DfsState) -> bool {
        self.dfs_inv(st)
    }

    proof fn lemma_search_inv_cycle(&self, st: DfsState, c: int)
        requires
            self.search_inv(st),
            0 <= c < st.cycles@.len(),
        ensures
            self.index_cycle(st.cycles@[c]@),
    {
        reveal(DependencyGraph::search_inv);
        reveal(DependencyGraph::dfs_inv);
    }

    /// The search bookkeeping that every call needs: one flag per file, and
    /// the files on the search path are exactly those marked on it, all reached.
    spec fn search_frame(&self, st: DfsState) -> bool {
        let n = self.nodes@.len();
        &&& st.visited@.len() == n
        &&& st.on_stack@.len() == n
        &&& forall|x: int| 0 <= x < n && #[trigger] st.on_stack@[x] ==> st.visited@[x]
        &&& forall|x: int| 0 <= x < n ==> (#[trigger] st.on_stack@[x] <==> st.path@.contains(x as usize))
    }

    /// What the proofs about the whole search carry from call to call.
    spec fn search_facts(&self, st: DfsState, u: usize) -> bool {
        &&& self.dfs_inv(st)
        &&& book(*self, st)
        &&& st.path@.len() > 0 ==> self.edge_at(st.path@.last() as int, u as int)
        &&& st.path@.len() > 0 ==> st.tree@.contains((st.path@.last() as int, u as int))
    }

    /// Searches depth-first from `u`, recording a cycle each time an edge leads
    /// back to a file on the search path. It gives back the path and its marks
    /// as they were, with `u` and all it reaches marked as reached, and only
    /// appends to the cycles.
    fn dfs_cycle(&self, u: usize, st: &mut DfsState, Ghost(measure): Ghost<int>)
        requires
            measure == self.nodes@.len() - count_true(old(st).visited@),
            self.wf(),
            self.search_frame(*old(st)),
            u < self.nodes@.len(),
            !old(st).visited@[u as int],
        ensures
            self.search_frame(*final(st)),
            final(st).path@ == old(st).path@,
            final(st).on_stack@ == old(st).on_stack@,
            final(st).visited@[u as int],
            final(st).finished(u as int),
            forall|x: int| 0 <= x < self.nodes@.len() && #[trigger] old(st).visited@[x] ==> final(st).visited@[x],
            old(st).cycles@.len() <= final(st).cycles@.len(),
            final(st).cycles@.subrange(0, old(st).cycles@.len() as int) == old(st).cycles@,
            count_true(old(st).visited@) < count_true(final(st).visited@),
            self.search_facts(*old(st), u) ==> {
                &&& self.dfs_inv(*final(st))
                &&& forall|x: int|
                    0 <= x < self.nodes@.len() && #[trigger] old(st).finished(x) ==> final(st).finish@[x]
                        == old(st).finish@[x]
                &&& old(st).clock@ <= final(st).clock@
                &&& book(*self, *final(st))
                &&& grows_from(*old(st), *final(st))
            },
        decreases measure,
    {
        let ghost st0 = *st;
        let ghost n = self.nodes@.len();
        let ghost full = self.search_facts(st0, u);
        proof {
            reveal(DependencyGraph::dfs_inv);
            lemma_count_true_set(st.visited@, u as int);
            assert(!st.on_stack@[u as int]);
        }
        st.visited.set(u, true);
        st.on_stack.set(u, true);
        st.path.push(u);
        let ghost st1 = *st;
        proof {
            assert(self.nodes@.len() == self.nodes.len());
            assert forall|x: int| 0 <= x < n implies (#[trigger] st.on_stack@[x] <==> st.path@.contains(x as usize)) by {
                if x == u as int {
                    assert(st.path@[st.path@.len() - 1] == u);
                } else {
                    if st0.path@.contains(x as usize) {
                        let k = choose|k: int| 0 <= k < st0.path@.len() && st0.path@[k] == x as usize;
                        assert(st.path@[k] == x as usize);
                    }
                    if st.path@.contains(x as usize) {
                        let k = choose|k: int| 0 <= k < st.path@.len() && st.path@[k] == x as usize;
                        if k == st0.path@.len() {
                            assert(st.path@[k] == u);
                        }
                        assert(k < st0.path@.len());
                        assert(st0.path@[k] == x as usize);
                    }
                }
            }
            assert(self.search_frame(*st));
            if full {
                lemma_book_enter(*self, st0, st1, u);
                assert forall|a: int, b: int| 0 <= a < b < st.path@.len() implies #[trigger] st.path@[a] != #[trigger] st.path@[b] by {
                    if b == st.path@.len() - 1 {
                        assert(st0.on_stack@[st0.path@[a] as int]) by {
                            assert(st0.path@.contains(st0.path@[a]));
                        }
                    }
                }
                assert forall|k: int| #![trigger st.path@[k]] 1 <= k < st.path@.len() implies self.edge_at(st.path@[k - 1] as int, st.path@[k] as int) by {
                    if k < st.path@.len() - 1 {
                        assert(st.path@[k] == st0.path@[k]);
                        assert(st.path@[k - 1] == st0.path@[k - 1]);
                    }
                }
                assert forall|x: int| 0 <= x < n && #[trigger] st.finished(x) implies st0.finished(x) by {}
                assert(self.dfs_inv(*st));
            }
        }
        let deg = self.edges[u].len();
        let mut t: usize = 0;
        while t < deg
            invariant
                self.wf(),
                n == self.nodes@.len(),
                u < n,
                deg == self.edges@[u as int]@.len(),
                t <= deg,
                self.search_frame(*st),
                st.visited@[u as int],
                st.on_stack@[u as int],
                st.path@ == st0.path@.push(u),
                st.on_stack@ == st0.on_stack@.update(u as int, true),
                forall|x: int| 0 <= x < n && #[trigger] st0.visited@[x] ==> st.visited@[x],
                st0.cycles@.len() <= st.cycles@.len(),
                st.cycles@.subrange(0, st0.cycles@.len() as int) == st0.cycles@,
                count_true(st0.visited@) < count_true(st.visited@),
                measure == n - count_true(st0.visited@),
                !st0.visited@[u as int],
                st0.visited@.len() == n,
                st0.on_stack@.len() == n,
                full == self.search_facts(st0, u),
                full ==> {
                    &&& self.dfs_inv(*st)
                    &&& forall|x: int| 0 <= x < n && #[trigger] st0.finished(x) ==> st.finish@[x] == st0.finish@[x]
                    &&& st0.clock@ <= st.clock@
                    &&& book(*self, *st)
                    &&& grows_from(st0, *st)
                    &&& scanned_from(*self, *st, u as int, t as int)
                    &&& forall|s: int|
                        0 <= s < t && !st.closers@.contains((u as int, self.edges@[u as int]@[s] as int)) ==> {
                            &&& st.finished(#[trigger] self.edges@[u as int]@[s] as int)
                            &&& st.finish@[self.edges@[u as int]@[s] as int] < st.clock@
                        }
                },
            decreases deg - t,
        {
            let w = self.edges[u][t];
            proof {
                reveal(DependencyGraph::dfs_inv);
                assert(self.edges@[u as int]@[t as int] == w);
                assert(self.edge_at(u as int, w as int));
                lemma_count_true_bound(st.visited@);
            }
            let ghost st2 = *st;
            if !st.visited[w] {
                assert(n - count_true(st.visited@) < n - count_true(st0.visited@));
                st.tree = Ghost(st.tree@.insert((u as int, w as int)));
                let ghost stb = *st;
                proof {
                    assert(stb.visited@ == st2.visited@ && stb.on_stack@ == st2.on_stack@);
                    assert(stb.finish@ == st2.finish@ && stb.path@ == st2.path@);
                    assert(stb.cycles@ == st2.cycles@ && stb.clock@ == st2.clock@);
                    assert(self.search_frame(stb));
                    if full {
                        lemma_book_deeper(*self, st0, st2, stb, u as int, w as int, t as int);
                        assert(forall|x: int| 0 <= x < n ==> #[trigger] stb.finished(x) == st2.finished(x));
                        assert(self.dfs_inv(stb));
                        assert(stb.path@.last() == u);
                        assert(self.search_facts(stb, w));
                    }
                }
                self.dfs_cycle(w, st, Ghost(n - count_true(st.visited@)));
                proof {
                    assert(st.cycles@.subrange(0, st0.cycles@.len() as int) =~= st.cycles@.subrange(
                        0,
                        stb.cycles@.len() as int,
                    ).subrange(0, st0.cycles@.len() as int));
                    if full {
                        lemma_book_returned(*self, st0, stb, *st, u as int, t + 1);
                        lemma_closers_grow(stb, *st);
                        assert forall|s: int| 0 <= s < t && !st.closers@.contains((u as int, self.edges@[u as int]@[s] as int)) implies {
                            &&& st.finished(#[trigger] self.edges@[u as int]@[s] as int)
                            &&& st.finish@[self.edges@[u as int]@[s] as int] < st.clock@
                        } by {
                            let y = self.edges@[u as int]@[s] as int;
                            assert(!stb.closers@.contains((u as int, y)));
                            assert(st2.finished(y));
                            assert(stb.finished(y));
                        }
                        assert forall|x: int| 0 <= x < n && #[trigger] st0.finished(x) implies st.finish@[x] == st0.finish@[x] by {
                            assert(x != u as int);
                            assert(st2.visited@[x]);
                            assert(st2.on_stack@[x] == st0.on_stack@[x]);
                            assert(st2.finished(x));
                            assert(stb.finished(x));
                        }
                    }
                }
            } else if st.on_stack[w] {
                let mut pos: usize = 0;
                let plen0 = st.path.len();
                while st.path[pos] != w
                    invariant
                        *st == st2,
                        plen0 == st.path@.len(),
                        pos < st.path@.len(),
                        st.path@.contains(w),
                        forall|k: int| 0 <= k < pos ==> st.path@[k] != w,
                    decreases st.path@.len() - pos,
                {
                    pos = pos + 1;
                    proof {
                        if pos == st.path@.len() {
                            let k = choose|k: int| 0 <= k < st.path@.len() && st.path@[k] == w;
                            assert(false);
                        }
                    }
                }
                let plen = st.path.len();
                let mut cycle: Vec<usize> = Vec::new();
                let mut q = pos;
                while q < plen
                    invariant
                        *st == st2,
                        plen == st.path@.len(),
                        pos <= q <= plen,
                        cycle@ == st.path@.subrange(pos as int, q as int),
                    decreases plen - q,
                {
                    cycle.push(st.path[q]);
                    proof {
                        assert(cycle@ =~= st.path@.subrange(pos as int, q + 1));
                    }
                    q = q + 1;
                }
                cycle.push(w);
                let ghost cv = cycle@;
                proof {
                    if full {
                        let c = cycle@;
                        let pth = st.path@;
                        assert(c.len() == plen - pos + 1);
                        assert(c[0] == pth[pos as int]);
                        assert(pth[plen - 1] == u);
                        assert forall|k: int| #![trigger c[k]] 1 <= k < c.len() implies self.edge_at(c[k - 1] as int, c[k] as int) by {
                            if k < c.len() - 1 {
                                assert(c[k] == pth[pos + k]);
                                assert(c[k - 1] == pth[pos + k - 1]);
                            } else {
                                assert(c[k - 1] == pth[plen - 1]);
                            }
                        }
                        assert forall|a: int, b: int| 0 <= a < b < c.len() - 1 implies #[trigger] c[a] != #[trigger] c[b] by {
                            assert(c[a] == pth[pos + a]);
                            assert(c[b] == pth[pos + b]);
                        }
                        assert forall|k: int| 0 <= k < c.len() implies #[trigger] c[k] < n by {
                            if k < c.len() - 1 {
                                assert(c[k] == pth[pos + k]);
                            }
                        }
                        assert(self.index_cycle(c));
                    }
                }
                st.cycles.push(cycle);
                st.closers = Ghost(st.closers@.push((u as int, w as int)));
                proof {
                    assert(st.cycles@.subrange(0, st0.cycles@.len() as int) =~= st0.cycles@) by {
                        assert forall|k: int| 0 <= k < st0.cycles@.len() implies st.cycles@[k] == st0.cycles@[k] by {
                            assert(st2.cycles@.subrange(0, st0.cycles@.len() as int)[k] == st0.cycles@[k]);
                        }
                    }
                    assert(self.search_frame(*st)) by {
                        assert(st.visited@ == st2.visited@ && st.on_stack@ == st2.on_stack@ && st.path@ == st2.path@);
                    }
                    if full {
                        assert(cv =~= st2.path@.subrange(pos as int, st2.path@.len() as int).push(w));
                        assert(st.cycles@.drop_last() =~= st2.cycles@);
                        lemma_unseen_edge(*self, st2, u as int, w as int, t as int);
                        lemma_book_closed(*self, st2, *st, cv, pos as int, u, w);
                        lemma_closed_frame(*self, st0, st2, *st, u, w, t as int);
                        assert forall|i: int| 0 <= i < st.cycles@.len() implies self.index_cycle(#[trigger] st.cycles@[i]@) by {
                            if i < st2.cycles@.len() {
                                assert(st.cycles@[i] == st2.cycles@[i]);
                            }
                        }
                        assert(forall|x: int| 0 <= x < n ==> #[trigger] st.finished(x) == st2.finished(x));
                        assert forall|e: (int, int)| st2.closers@.contains(e) implies #[trigger] st.closers@.contains(e) by {
                            let j = choose|j: int| 0 <= j < st2.closers@.len() && st2.closers@[j] == e;
                            assert(st.closers@[j] == e);
                        }
                        assert(st.closers@[st.closers@.len() - 1] == (u as int, w as int));
                        assert(st.closers@.contains((u as int, w as int)));
                        assert(self.dfs_inv(*st));
                    }
                }
            } else {
                proof {
                    if full {
                        assert(st.finished(w as int));
                        lemma_scanned_more(*self, *st, u as int, t as int);
                    }
                }
            }
            proof {
                if full {
                    assert(st.closers@.contains((u as int, w as int)) || st.finished(w as int) && st.finish@[w as int]
                        < st.clock@);
                }
            }
            t = t + 1;
        }
        let ghost st3 = *st;
        let _ = st.path.pop();
        st.on_stack.set(u, false);
        st.finish = Ghost(st.finish@.update(u as int, st.clock@));
        st.clock = Ghost(st.clock@ + 1);
        proof {
            reveal(DependencyGraph::dfs_inv);
            assert(st.path@ =~= st0.path@);
            assert(st.on_stack@ =~= st0.on_stack@);
            assert forall|x: int| 0 <= x < n implies (#[trigger] st.on_stack@[x] <==> st.path@.contains(x as usize)) by {
                assert(st.on_stack@[x] == st0.on_stack@[x]);
            }
            assert(self.search_frame(*st));
            if full {
                lemma_book_leave(*self, st0, st3, *st);
                reveal(grows_from);
                assert forall|x: int| 0 <= x < n && #[trigger] st.finished(x) implies st.finish@[x] < st.clock@ by {
                    if x != u as int {
                        assert(st3.finished(x));
                    }
                }
                assert forall|x: int| 0 <= x < n && #[trigger] st0.finished(x) implies st.finish@[x] == st0.finish@[x] by {
                    assert(x != u as int);
                }
                assert forall|x: int, k: int|
                    0 <= x < n && st.finished(x) && 0 <= k < self.edges@[x]@.len() && !st.closers@.contains(
                        (x, self.edges@[x]@[k] as int),
                    ) implies {
                        &&& st.finished(#[trigger] self.edges@[x]@[k] as int)
                        &&& st.finish@[self.edges@[x]@[k] as int] < st.finish@[x]
                    } by {
                    let y = self.edges@[x]@[k] as int;
                    if x == u as int {
                        assert(st3.finished(y));
                        assert(y != u as int);
                    } else {
                        assert(st3.finished(x));
                        assert(st3.finished(y));
                        assert(y != u as int);
                    }
                }
                assert(self.dfs_inv(*st));
            }
        }
    }
}


proof fn lemma_count_true_none(s: Seq<bool>)
    requires
        forall|i: int| 0 <= i < s.len() ==> !s[i],
    ensures
        count_true(s) == 0,
    decreases s.len(),
{
    if s.len() > 0 {
        lemma_count_true_none(s.drop_last());
    }
}

impl DependencyGraph {
    /// The position of file `a` (meaningful where `a` is a file of the graph).
    spec fn index_of(&self, a: Seq<char>) -> int {
        choose|i: int| 0 <= i < self.nodes@.len() && self.nodes@[i]@ == a
    }

    proof fn lemma_edge_positions(&self, a: Seq<char>, b: Seq<char>)
        requires
            self.wf(),
            self.has_edge(a, b),
        ensures
            0 <= self.index_of(a) < self.nodes@.len(),
            0 <= self.index_of(b) < self.nodes@.len(),
            self.nodes@[self.index_of(a)]@ == a,
            self.nodes@[self.index_of(b)]@ == b,
            self.edge_at(self.index_of(a), self.index_of(b)),
    {
        let (i, j) = choose|i: int, j: int|
            0 <= i < self.nodes@.len() && 0 <= j < self.nodes@.len() && self.nodes@[i]@ == a
                && self.nodes@[j]@ == b && #[trigger] self.edge_at(i, j);
        let ia = self.index_of(a);
        let ib = self.index_of(b);
        assert(ia == i) by {
            if ia != i {
                if ia < i {
                    assert(self.nodes@[ia]@ != self.nodes@[i]@);
                } else {
                    assert(self.nodes@[i]@ != self.nodes@[ia]@);
                }
            }
        }
        assert(ib == j) by {
            if ib != j {
                if ib < j {
                    assert(self.nodes@[ib]@ != self.nodes@[j]@);
                } else {
                    assert(self.nodes@[j]@ != self.nodes@[ib]@);
                }
            }
        }
    }

    proof fn lemma_finish_decreases_along(
        &self,
        finish: Seq<int>,
        closers: Seq<(int, int)>,
        path: Seq<Seq<char>>,
        k: int,
    )
        requires
            self.wf(),
            finish.len() == self.nodes@.len(),
            forall|x: int, m: int|
                0 <= x < self.nodes@.len() && 0 <= m < self.edges@[x]@.len() && !closers.contains(
                    (x, self.edges@[x]@[m] as int),
                ) ==> #[trigger] finish[self.edges@[x]@[m] as int] < finish[x],
            self.is_cycle(path),
            1 <= k < path.len(),
            forall|j: int|
                #![trigger path[j]]
                1 <= j <= k ==> !closers.contains((self.index_of(path[j - 1]), self.index_of(path[j]))),
        ensures
            finish[self.index_of(path[k])] < finish[self.index_of(path[0])],
        decreases k,
    {
        assert(self.has_edge(path[k - 1], path[k]));
        self.lemma_edge_positions(path[k - 1], path[k]);
        let i = self.index_of(path[k - 1]);
        let j = self.index_of(path[k]);
        assert(self.nodes@.len() == self.nodes.len());
        assert(self.edges@[i]@.contains(j as usize));
        let m = choose|m: int| 0 <= m < self.edges@[i]@.len() && self.edges@[i]@[m] == j as usize;
        assert(self.edges@[i]@[m] as int == j);
        assert(!closers.contains((i, j)));
        assert(finish[self.edges@[i]@[m] as int] < finish[i]);
        if k > 1 {
            self.lemma_finish_decreases_along(finish, closers, path, k - 1);
        }
    }

    /// Where finishing times fall along every dependency but the closers,
    /// every cycle runs through a closer.
    proof fn lemma_cycle_has_closer(&self, finish: Seq<int>, closers: Seq<(int, int)>, path: Seq<Seq<char>>)
        requires
            self.wf(),
            finish.len() == self.nodes@.len(),
            forall|x: int, m: int|
                0 <= x < self.nodes@.len() && 0 <= m < self.edges@[x]@.len() && !closers.contains(
                    (x, self.edges@[x]@[m] as int),
                ) ==> #[trigger] finish[self.edges@[x]@[m] as int] < finish[x],
            self.is_cycle(path),
        ensures
            exists|k: int|
                #![trigger path[k]]
                1 <= k < path.len() && closers.contains((self.index_of(path[k - 1]), self.index_of(path[k]))),
    {
        if !exists|k: int|
            #![trigger path[k]]
            1 <= k < path.len() && closers.contains((self.index_of(path[k - 1]), self.index_of(path[k]))) {
            self.lemma_finish_decreases_along(finish, closers, path, path.len() - 1);
        }
    }

    /// The file names of a cycle of positions.
    spec fn cycle_names(&self, c: Seq<usize>) -> Seq<Seq<char>> {
        c.map_values(|i: usize| self.nodes@[i as int]@)
    }

    proof fn lemma_cycle_names(&self, c: Seq<usize>)
        requires
            self.wf(),
            self.index_cycle(c),
        ensures
            self.is_simple_cycle(self.cycle_names(c)),
    {
        let p = self.cycle_names(c);
        assert forall|k: int| #![trigger p[k]] 1 <= k < p.len() implies self.has_edge(p[k - 1], p[k]) by {
            assert(c[k] < self.nodes@.len());
            assert(c[k - 1] < self.nodes@.len());
            assert(self.edge_at(c[k - 1] as int, c[k] as int));
        }
        assert forall|a: int, b: int| 0 <= a < b < p.len() - 1 implies #[trigger] p[a] != #[trigger] p[b] by {
            assert(c[a] != c[b]);
            assert(c[a] < self.nodes@.len());
            assert(c[b] < self.nodes@.len());
            if c[a] < c[b] {
                assert(self.nodes@[c[a] as int]@ != self.nodes@[c[b] as int]@);
            } else {
                assert(self.nodes@[c[b] as int]@ != self.nodes@[c[a] as int]@);
            }
        }
    }

    /// No cycle that the search recorded is another one entered elsewhere:
    /// each is closed by its own dependency, one that lies on no other.
    proof fn lemma_names_injective(&self, a: int, b: int)
        requires
            self.wf(),
            0 <= a < self.nodes@.len(),
            0 <= b < self.nodes@.len(),
            self.nodes@[a]@ == self.nodes@[b]@,
        ensures
            a == b,
    {
        if a < b {
            assert(self.nodes@[a]@ != self.nodes@[b]@);
        } else if b < a {
            assert(self.nodes@[b]@ != self.nodes@[a]@);
        }
    }

    #[verifier::spinoff_prover]
    proof fn lemma_no_rotation_twice(&self, st: DfsState, i: int, j: int)
        requires
            self.wf(),
            st.cycles@[i]@.len() >= 2,
            st.cycles@[i]@[0] == st.cycles@[i]@[st.cycles@[i]@.len() - 1],
            forall|k: int| 0 <= k < st.cycles@[i]@.len() ==> #[trigger] st.cycles@[i]@[k] < self.nodes@.len(),
            forall|k: int| 0 <= k < st.cycles@[j]@.len() ==> #[trigger] st.cycles@[j]@[k] < self.nodes@.len(),
            book(*self, st),
            0 <= i < st.cycles@.len(),
            0 <= j < st.cycles@.len(),
            i != j,
        ensures
            !is_rotation(self.cycle_names(st.cycles@[j]@), self.cycle_names(st.cycles@[i]@)),
    {
        let ci = st.cycles@[i]@;
        let cj = st.cycles@[j]@;
        let ni = self.cycle_names(ci);
        let nj = self.cycle_names(cj);
        if is_rotation(nj, ni) {
            let r = choose|r: int| 0 <= r < ni.len() - 1 && #[trigger] rotated(ni, r) == nj;
            let l = ci.len() - 1;
            lemma_rotated_tail(ni, r);
            lemma_book_cycles(*self, st, i, j);
            let a = if r == 0 {
                l - 1
            } else {
                r - 1
            };
            assert(nj[l - 1] == ni[a]);
            assert(nj[l] == ni[r]);
            assert(ci[a] < self.nodes@.len() && ci[r] < self.nodes@.len());
            assert(cj[l - 1] < self.nodes@.len() && cj[l] < self.nodes@.len());
            self.lemma_names_injective(cj[l - 1] as int, ci[a] as int);
            self.lemma_names_injective(cj[l] as int, ci[r] as int);
            if r == 0 {
                assert(ci[0] == ci[l]);
                assert(st.closers@[j] == st.closers@[i]);
            } else {
                assert(st.tree@.contains((ci[r - 1] as int, ci[r] as int)));
            }
        }
    }

    /// The dependency from `p[k - 1]` to `p[k]` is the closer of the
    /// recorded cycle `j`.
    spec fn closes_index(&self, st: DfsState, j: int, p: Seq<Seq<char>>, k: int) -> bool {
        &&& 0 <= j < st.closers@.len()
        &&& 1 <= k < p.len()
        &&& st.closers@[j] == (self.index_of(p[k - 1]), self.index_of(p[k]))
    }

    /// The cycle `p` runs through the closer of a recorded cycle.
    spec fn closed_by(&self, st: DfsState, p: Seq<Seq<char>>) -> bool {
        exists|j: int, k: int| #[trigger] self.closes_index(st, j, p, k)
    }

    /// Every cycle of the graph runs through the closer of a recorded cycle.
    #[verifier::opaque]
    spec fn all_closed(&self, st: DfsState) -> bool {
        forall|p: Seq<Seq<char>>| #[trigger] self.is_cycle(p) ==> self.closed_by(st, p)
    }

    proof fn lemma_all_cycles_closed(&self, st: DfsState)
        requires
            self.wf(),
            self.search_inv(st),
            book(*self, st),
            forall|x: int| 0 <= x < self.nodes@.len() ==> #[trigger] st.finished(x),
        ensures
            self.all_closed(st),
    {
        reveal(DependencyGraph::all_closed);
        reveal(DependencyGraph::search_inv);
        reveal(DependencyGraph::dfs_inv);
        assert forall|x: int, m: int|
            0 <= x < self.nodes@.len() && 0 <= m < self.edges@[x]@.len() && !st.closers@.contains(
                (x, self.edges@[x]@[m] as int),
            ) implies #[trigger] st.finish@[self.edges@[x]@[m] as int] < st.finish@[x] by {
            assert(st.finished(x));
        }
        lemma_book_closers(*self, st);
        assert forall|p: Seq<Seq<char>>| #[trigger] self.is_cycle(p) implies self.closed_by(st, p) by {
            self.lemma_cycle_has_closer(st.finish@, st.closers@, p);
            let k = choose|k: int|
                #![trigger p[k]]
                1 <= k < p.len() && st.closers@.contains((self.index_of(p[k - 1]), self.index_of(p[k])));
            let j = choose|j: int| 0 <= j < st.closers@.len() && st.closers@[j] == (
                self.index_of(p[k - 1]),
                self.index_of(p[k]),
            );
            assert(self.closes_index(st, j, p, k));
        }
    }

    /// Every cycle of the graph runs through the closing dependency of a
    /// reported cycle; with none reported, there is no cycle.
    proof fn lemma_reported_closers(&self, st: DfsState, res: Seq<Vec<String>>)
        requires
            self.wf(),
            self.search_inv(st),
            book(*self, st),
            self.all_closed(st),
            res.len() == st.cycles@.len(),
            forall|k: int| 0 <= k < res.len() ==> texts(#[trigger] res[k]@) == self.cycle_names(st.cycles@[k]@),
        ensures
            res.len() == 0 ==> !self.has_cycle(),
            forall|p: Seq<Seq<char>>| #[trigger] self.is_cycle(p) ==> exists|i: int, k: int|
                0 <= i < res.len() && 1 <= k < p.len() && #[trigger] closes_at(texts(res[i]@), p, k),
    {
        reveal(DependencyGraph::all_closed);
        lemma_book_closers(*self, st);
        if res.len() == 0 && self.has_cycle() {
            let p = choose|p: Seq<Seq<char>>| #[trigger] self.is_cycle(p);
            assert(self.closed_by(st, p));
        }
        assert forall|p: Seq<Seq<char>>| #[trigger] self.is_cycle(p) implies exists|i: int, k: int|
            0 <= i < res.len() && 1 <= k < p.len() && #[trigger] closes_at(texts(res[i]@), p, k) by {
            assert(self.closed_by(st, p));
            let (j, k) = choose|j: int, k: int| #[trigger] self.closes_index(st, j, p, k);
            self.lemma_search_inv_cycle(st, j);
            self.lemma_closer_names(st, j, p, k);
            assert(texts(res[j]@) == self.cycle_names(st.cycles@[j]@));
            assert(closes_at(texts(res[j]@), p, k));
        }
    }

    proof fn lemma_closer_names(&self, st: DfsState, j: int, p: Seq<Seq<char>>, k: int)
        requires
            self.wf(),
            self.is_cycle(p),
            self.closes_index(st, j, p, k),
            self.index_cycle(st.cycles@[j]@),
            book(*self, st),
            st.closers@.len() == st.cycles@.len(),
        ensures
            closes_at(self.cycle_names(st.cycles@[j]@), p, k),
    {
        lemma_book_closer(*self, st, j);
        assert(self.has_edge(p[k - 1], p[k]));
        self.lemma_edge_positions(p[k - 1], p[k]);
        let c = st.cycles@[j]@;
        assert(c[c.len() - 2] < self.nodes@.len());
        assert(c[c.len() - 1] < self.nodes@.len());
    }

    /// The files that `file` depends on, each once; none where `file` is not in the graph.
    pub fn get_dependencies(&self, file: &str) -> (res: Vec<String>)
        requires
            self.wf(),
        ensures
            forall|a: int, b: int| 0 <= a < b < res@.len() ==> #[trigger] res@[a]@ != #[trigger] res@[b]@,
            forall|b: Seq<char>| #[trigger] texts(res@).contains(b) <==> self.has_edge(file@, b),
    {
        let key = file.to_owned();
        let mut out: Vec<String> = Vec::new();
        match self.find_node(&key) {
            None => {
                proof {
                    assert forall|b: Seq<char>| !self.has_edge(file@, b) by {
                        if self.has_edge(file@, b) {
                            self.lemma_edge_positions(file@, b);
                            assert(self.nodes@[self.index_of(file@)]@ != key@);
                        }
                    }
                    assert forall|b: Seq<char>| !texts(out@).contains(b) by {}
                }
                out
            },
            Some(i) => {
                let deg = self.edges[i].len();
                let mut k: usize = 0;
                while k < deg
                    invariant
                        self.wf(),
                        i < self.nodes@.len(),
                        self.nodes@[i as int]@ == file@,
                        deg == self.edges@[i as int]@.len(),
                        k <= deg,
                        out@.len() == k,
                        forall|m: int| 0 <= m < k ==> #[trigger] out@[m]@ == self.nodes@[self.edges@[i as int]@[m] as int]@,
                    decreases deg - k,
                {
                    let j = self.edges[i][k];
                    out.push(self.nodes[j].clone());
                    k = k + 1;
                }
                proof {
                    let targets = self.edges@[i as int]@;
                    assert forall|a: int, b: int| 0 <= a < b < out@.len() implies #[trigger] out@[a]@ != #[trigger] out@[b]@ by {
                        assert(targets[a] != targets[b]);
                        if targets[a] < targets[b] {
                            assert(self.nodes@[targets[a] as int]@ != self.nodes@[targets[b] as int]@);
                        } else {
                            assert(self.nodes@[targets[b] as int]@ != self.nodes@[targets[a] as int]@);
                        }
                    }
                    assert forall|b: Seq<char>| #[trigger] texts(out@).contains(b) implies self.has_edge(file@, b) by {
                        let m = choose|m: int| 0 <= m < texts(out@).len() && texts(out@)[m] == b;
                        assert(self.edge_at(i as int, targets[m] as int));
                    }
                    assert forall|b: Seq<char>| self.has_edge(file@, b) implies #[trigger] texts(out@).contains(b) by {
                        self.lemma_edge_positions(file@, b);
                        let fi = self.index_of(file@);
                        assert(fi == i) by {
                            if fi != i {
                                if fi < i {
                                    assert(self.nodes@[fi]@ != self.nodes@[i as int]@);
                                } else {
                                    assert(self.nodes@[i as int]@ != self.nodes@[fi]@);
                                }
                            }
                        }
                        let j = self.index_of(b);
                        assert(self.nodes@.len() == self.nodes.len());
                        assert(targets.contains(j as usize));
                        let m = choose|m: int| 0 <= m < targets.len() && targets[m] == j as usize;
                        assert(targets[m] as int == j);
                        assert(out@[m]@ == self.nodes@[j]@);
                        assert(texts(out@)[m] == b);
                    }
                }
                out
            },
        }
    }

    /// The dependency cycles found by a depth-first search over the files in
    /// order. Each cycle lists its files from where the search re-entered it,
    /// and repeats that file at the end. There is at least one exactly when the
    /// graph has a cycle.
    #[verifier::rlimit(80)]
    pub fn detect_cycles(&self) -> (res: Vec<Vec<String>>)
        requires
            self.wf(),
        ensures
            forall|i: int| 0 <= i < res@.len() ==> self.is_simple_cycle(texts(#[trigger] res@[i]@)),
            res@.len() > 0 <==> self.has_cycle(),
            forall|p: Seq<Seq<char>>| #[trigger] self.is_cycle(p) ==> exists|i: int, k: int|
                0 <= i < res@.len() && 1 <= k < p.len() && #[trigger] closes_at(texts(res@[i]@), p, k),
            forall|i: int, j: int|
                0 <= i < res@.len() && 0 <= j < res@.len() && i != j ==> !is_rotation(
                    texts(#[trigger] res@[j]@),
                    texts(#[trigger] res@[i]@),
                ),
    {
        let n = self.nodes.len();
        let mut st = DfsState {
            visited: Vec::new(),
            on_stack: Vec::new(),
            path: Vec::new(),
            finish: Ghost(Seq::new(self.nodes@.len(), |x: int| 0int)),
            clock: Ghost(0int),
            cycles: Vec::new(),
            tree: Ghost(Set::empty()),
            closers: Ghost(Seq::empty()),
        };
        let mut i: usize = 0;
        while i < n
            invariant
                n == self.nodes@.len(),
                i <= n,
                st.visited@.len() == i,
                st.on_stack@.len() == i,
                st.finish@.len() == n,
                st.path@.len() == 0,
                st.clock@ == 0,
                st.cycles@.len() == 0,
                st.tree@ == Set::<(int, int)>::empty(),
                st.closers@ == Seq::<(int, int)>::empty(),
                forall|x: int| 0 <= x < i ==> !#[trigger] st.visited@[x],
                forall|x: int| 0 <= x < i ==> !#[trigger] st.on_stack@[x],
            decreases n - i,
        {
            st.visited.push(false);
            st.on_stack.push(false);
            i = i + 1;
        }
        proof {
            lemma_count_true_none(st.visited@);
            assert forall|x: int| 0 <= x < n implies (#[trigger] st.on_stack@[x] <==> st.path@.contains(x as usize)) by {
                assert(!st.on_stack@[x]);
                assert(!st.path@.contains(x as usize));
            }
            assert(forall|x: int| 0 <= x < n ==> !#[trigger] st.finished(x));
            reveal(DependencyGraph::dfs_inv);
            assert(self.dfs_inv(st));
            reveal(DependencyGraph::search_inv);
            lemma_book_start(*self, st);
        }
        let mut r: usize = 0;
        while r < n
            invariant
                self.wf(),
                n == self.nodes@.len(),
                r <= n,
                st.visited@.len() == n,
                st.on_stack@.len() == n,
                self.search_inv(st),
                book(*self, st),
                st.path@.len() == 0,
                forall|x: int| 0 <= x < n ==> !#[trigger] st.on_stack@[x],
                forall|x: int| 0 <= x < r ==> #[trigger] st.visited@[x],
            decreases n - r,
        {
            if !st.visited[r] {
                let ghost before = st;
                proof {
                    lemma_count_true_bound(st.visited@);
                }
                let ghost m = n - count_true(st.visited@);
                proof {
                    reveal(DependencyGraph::search_inv);
                    reveal(DependencyGraph::dfs_inv);
                    assert(self.search_frame(st));
                    assert(self.search_facts(st, r));
                }
                self.dfs_cycle(r, &mut st, Ghost(m));
                proof {
                    reveal(DependencyGraph::search_inv);
                    assert forall|x: int| 0 <= x < n implies !#[trigger] st.on_stack@[x] by {
                        assert(st.on_stack@[x] == before.on_stack@[x]);
                    }
                    assert forall|x: int| 0 <= x <= r implies #[trigger] st.visited@[x] by {
                        if x < r {
                            assert(before.visited@[x]);
                        }
                    }
                }
            }
            r = r + 1;
        }
        proof {
            assert forall|x: int| 0 <= x < n implies #[trigger] st.finished(x) by {
                assert(st.visited@[x]);
            }
            self.lemma_all_cycles_closed(st);
        }
        let mut res: Vec<Vec<String>> = Vec::new();
        let mut c: usize = 0;
        while c < st.cycles.len()
            invariant
                self.wf(),
                self.search_inv(st),
                book(*self, st),
                self.all_closed(st),
                c <= st.cycles@.len(),
                res@.len() == c,
                forall|k: int| 0 <= k < c ==> texts(#[trigger] res@[k]@) == self.cycle_names(st.cycles@[k]@),
            decreases st.cycles@.len() - c,
        {
            let cyc = &st.cycles[c];
            proof {
                self.lemma_search_inv_cycle(st, c as int);
            }
            let mut names: Vec<String> = Vec::new();
            let mut q: usize = 0;
            while q < cyc.len()
                invariant
                    self.wf(),
                    self.index_cycle(cyc@),
                    q <= cyc@.len(),
                    names@.len() == q,
                    forall|k: int| 0 <= k < q ==> #[trigger] names@[k]@ == self.nodes@[cyc@[k] as int]@,
                decreases cyc@.len() - q,
            {
                let j = cyc[q];
                proof {
                    assert(cyc@[q as int] < self.nodes@.len());
                }
                names.push(self.nodes[j].clone());
                q = q + 1;
            }
            proof {
                assert(texts(names@) =~= self.cycle_names(cyc@));
            }
            res.push(names);
            c = c + 1;
        }
        proof {
            self.lemma_search_result(st, res@);
            self.lemma_reported_closers(st, res@);
        }
        res
    }

    /// What the finished search gives, once its cycles are named.
    proof fn lemma_search_result(&self, st: DfsState, res: Seq<Vec<String>>)
        requires
            self.wf(),
            self.search_inv(st),
            book(*self, st),
            res.len() == st.cycles@.len(),
            forall|k: int| 0 <= k < res.len() ==> texts(#[trigger] res[k]@) == self.cycle_names(st.cycles@[k]@),
        ensures
            forall|i: int| 0 <= i < res.len() ==> self.is_simple_cycle(texts(#[trigger] res[i]@)),
            res.len() > 0 ==> self.has_cycle(),
            forall|i: int, j: int|
                0 <= i < res.len() && 0 <= j < res.len() && i != j ==> !is_rotation(
                    texts(#[trigger] res[j]@),
                    texts(#[trigger] res[i]@),
                ),
    {
        assert forall|k: int| 0 <= k < res.len() implies self.is_simple_cycle(texts(#[trigger] res[k]@)) by {
            self.lemma_search_inv_cycle(st, k);
            self.lemma_cycle_names(st.cycles@[k]@);
        }
        if res.len() > 0 {
            assert(self.is_simple_cycle(texts(res[0]@)));
            assert(self.is_cycle(texts(res[0]@)));
        }
        assert forall|i: int, j: int|
            0 <= i < res.len() && 0 <= j < res.len() && i != j implies !is_rotation(
                texts(#[trigger] res[j]@),
                texts(#[trigger] res[i]@),
            ) by {
            self.lemma_search_inv_cycle(st, i);
            self.lemma_search_inv_cycle(st, j);
            assert(st.cycles@[i]@[0] == st.cycles@[i]@.last());
            self.lemma_no_rotation_twice(st, i, j);
        }
    }
}

} // verus!
