//! Spanning tree of the face-adjacency (dual) graph of a mesh, rooted at a
//! caller-chosen seed face.
//!
//! Traversal is breadth-first, expanding each face's three half-edges in
//! index order, so the tree is a deterministic function of mesh and seed.

use vstd::prelude::*;
use vstd::seq_lib::*;
use vstd::set_lib::*;
use crate::mesh::HalfEdgeMesh;
use crate::UnfoldError;

verus! {

/// The tree edge through which a face was first reached.
#[derive(Clone, Copy, PartialEq, Eq, Structural, Debug)]
pub struct TreeLink {
    /// The already-visited face the traversal came from.
    pub parent: usize,
    /// The parent's half-edge whose twin lies in this face.
    pub via: usize,
}

/// The face on the other side of face `f`'s `k`-th half-edge, if any.
pub open spec fn face_neighbor(m: HalfEdgeMesh, f: int, k: int) -> Option<int> {
    match m.twin@[3 * f + k] {
        Some(t) => Some(t as int / 3),
        None => None,
    }
}

/// Sequence `s` holds the face index `c`.
pub open spec fn order_contains(s: Seq<usize>, c: usize) -> bool {
    exists|i: int| 0 <= i < s.len() && s[i] == c
}

/// All parent links empty, one slot per face.
pub open spec fn bfs_init_parent(n: nat) -> Seq<Option<TreeLink>> {
    Seq::new(n, |i: int| None)
}

/// One expansion step of the traversal: follow face `f`'s `k`-th
/// half-edge and, if the face beyond it exists and is unvisited, append
/// it with its link.
pub open spec fn bfs_push(
    m: HalfEdgeMesh,
    order: Seq<usize>,
    parent: Seq<Option<TreeLink>>,
    f: usize,
    k: int,
) -> (Seq<usize>, Seq<Option<TreeLink>>) {
    match m.twin@[3 * (f as int) + k] {
        Some(t) => {
            let c = ((t as int) / 3) as usize;
            if order_contains(order, c) {
                (order, parent)
            } else {
                (
                    order.push(c),
                    parent.update(
                        c as int,
                        Some(TreeLink { parent: f, via: (3 * (f as int) + k) as usize }),
                    ),
                )
            }
        },
        None => (order, parent),
    }
}

/// The first `n` expansion steps of one face's visit.
pub open spec fn bfs_expand(
    m: HalfEdgeMesh,
    order: Seq<usize>,
    parent: Seq<Option<TreeLink>>,
    f: usize,
    n: int,
) -> (Seq<usize>, Seq<Option<TreeLink>>)
    decreases n,
{
    if n <= 0 {
        (order, parent)
    } else {
        let prev = bfs_expand(m, order, parent, f, n - 1);
        bfs_push(m, prev.0, prev.1, f, n - 1)
    }
}

/// The rest of the breadth-first traversal from an intermediate state:
/// expand the face at `head`, then continue. `fuel` only bounds the
/// recursion; `m.faces@.len()` of it is always enough.
pub open spec fn bfs_from(
    m: HalfEdgeMesh,
    order: Seq<usize>,
    parent: Seq<Option<TreeLink>>,
    head: int,
    fuel: nat,
) -> (Seq<usize>, Seq<Option<TreeLink>>)
    decreases fuel,
{
    if fuel == 0 || head < 0 || head >= order.len() {
        (order, parent)
    } else {
        let f = order[head];
        let st1 = bfs_push(m, order, parent, f, 0);
        let st2 = bfs_push(m, st1.0, st1.1, f, 1);
        let st3 = bfs_push(m, st2.0, st2.1, f, 2);
        bfs_from(m, st3.0, st3.1, head + 1, (fuel - 1) as nat)
    }
}

/// The breadth-first traversal of `m`'s dual graph from `seed`: the
/// visitation order and parent links are a function of mesh and seed
/// alone, which is what makes unfolding reproducible.
pub open spec fn bfs_result(m: HalfEdgeMesh, seed: usize) -> (Seq<usize>, Seq<Option<TreeLink>>) {
    bfs_from(m, seq![seed], bfs_init_parent(m.faces@.len()), 0, m.faces@.len())
}

/// Faces `f` and `g` share a mesh edge.
pub open spec fn adjacent_faces(m: HalfEdgeMesh, f: int, g: int) -> bool {
    exists|k: int| 0 <= k < 3 && #[trigger] face_neighbor(m, f, k) == Some(g)
}

/// `p` walks from `p[0]` to `p.last()` over face adjacencies.
pub open spec fn is_face_path(m: HalfEdgeMesh, p: Seq<int>) -> bool {
    &&& p.len() >= 1
    &&& forall|i: int| 0 <= i < p.len() ==> 0 <= #[trigger] p[i] < m.faces@.len()
    &&& forall|i: int| 0 <= i < p.len() - 1 ==> adjacent_faces(m, #[trigger] p[i], p[i + 1])
}

/// Face `f` lies in the connected component of face `s` in the dual graph.
pub open spec fn reachable(m: HalfEdgeMesh, s: int, f: int) -> bool {
    exists|p: Seq<int>| #[trigger] is_face_path(m, p) && p[0] == s && p.last() == f
}

/// A spanning tree over the faces reachable from a seed face.
pub struct SpanningTree {
    /// The seed face; the only tree member without a parent.
    pub root: usize,
    /// For each face, the edge that first reached it; `None` for the root
    /// and for faces outside the root's component.
    pub parent: Vec<Option<TreeLink>>,
    /// Visitation order of the traversal; parents precede children.
    pub order: Vec<usize>,
}

impl SpanningTree {
    /// Face `f` is covered by the tree.
    pub open spec fn in_tree(self, f: int) -> bool {
        exists|i: int| 0 <= i < self.order@.len() && self.order@[i] == f
    }

    /// The link of face `c` names a real shared edge from an in-tree
    /// parent into `c`.
    pub open spec fn link_ok(self, m: HalfEdgeMesh, c: int, l: TreeLink) -> bool {
        &&& c != self.root
        &&& l.parent < m.faces@.len()
        &&& (l.via as int) / 3 == l.parent
        &&& l.via < m.twin@.len()
        &&& m.twin@[l.via as int] matches Some(t) && t as int / 3 == c
        &&& self.in_tree(l.parent as int)
    }

    /// Structural invariant of a tree over mesh `m`: the root opens the
    /// order, every face appears at most once, non-root members have
    /// exactly one parent reached over a real shared edge and placed
    /// earlier in the order, and the covered set is closed under
    /// adjacency (so it is the root's whole component).
    pub open spec fn valid_for(self, m: HalfEdgeMesh) -> bool {
        &&& self.parent@.len() == m.faces@.len()
        &&& (self.root as int) < m.faces@.len()
        &&& self.order@.len() >= 1
        &&& self.order@[0] == self.root
        &&& self.order@.no_duplicates()
        &&& forall|i: int|
            0 <= i < self.order@.len() ==> (#[trigger] self.order@[i]) < m.faces@.len()
        &&& self.parent@[self.root as int] is None
        &&& forall|c: int|
            0 <= c < self.parent@.len() ==> ((#[trigger] self.parent@[c]) matches Some(l)
                ==> self.link_ok(m, c, l))
        &&& forall|c: int|
            0 <= c < self.parent@.len() && c != self.root ==> (self.in_tree(c) <==> (
            #[trigger] self.parent@[c]) is Some)
        &&& forall|i: int|
            1 <= i < self.order@.len() ==> ((#[trigger] self.parent@[self.order@[i] as int])
                matches Some(l) && exists|j: int| 0 <= j < i && self.order@[j] == l.parent)
        &&& forall|f: int, k: int|
            self.in_tree(f) && 0 <= k < 3 ==> ((#[trigger] face_neighbor(m, f, k)) matches Some(g)
                ==> self.in_tree(g))
    }

    /// Number of faces covered by the tree.
    pub fn size(&self) -> (n: usize)
        ensures
            n == self.order@.len(),
    {
        self.order.len()
    }

    /// Every non-root tree member has exactly one parent, and the link
    /// names a real shared edge of the mesh: the recorded half-edge
    /// belongs to the parent face and its twin belongs to the child.
    pub proof fn lemma_parent_is_shared_edge(self, m: HalfEdgeMesh, c: int)
        requires
            self.valid_for(m),
            self.in_tree(c),
            c != self.root,
            0 <= c < m.faces@.len(),
        ensures
            self.parent@[c] is Some,
            self.link_ok(m, c, self.parent@[c]->Some_0),
            adjacent_faces(m, self.parent@[c]->Some_0.parent as int, c),
    {
        let l = self.parent@[c]->Some_0;
        assert(self.link_ok(m, c, l));
        let k = l.via as int % 3;
        assert(3 * (l.via as int / 3) + l.via as int % 3 == l.via as int) by (nonlinear_arith);
        assert(face_neighbor(m, l.parent as int, k) == Some(c));
    }

    /// The tree is acyclic: walking in visitation order, every non-root
    /// member's parent stands strictly earlier, and no face appears twice.
    pub proof fn lemma_parent_precedes(self, m: HalfEdgeMesh, i: int)
        requires
            self.valid_for(m),
            1 <= i < self.order@.len(),
        ensures
            self.parent@[self.order@[i] as int] is Some,
            exists|j: int|
                0 <= j < i && self.order@[j] == self.parent@[self.order@[i] as int]->Some_0.parent,
    {
    }

    /// Every tree member is reachable from the root in the dual graph.
    proof fn lemma_in_tree_reachable(self, m: HalfEdgeMesh, i: int)
        requires
            self.valid_for(m),
            0 <= i < self.order@.len(),
        ensures
            reachable(m, self.root as int, self.order@[i] as int),
        decreases i,
    {
        let f = self.order@[i] as int;
        if i == 0 {
            let p = seq![self.root as int];
            assert(is_face_path(m, p));
            assert(p[0] == self.root as int && p.last() == f);
        } else {
            let l = self.parent@[f]->Some_0;
            let j = choose|j: int| 0 <= j < i && self.order@[j] == l.parent;
            self.lemma_in_tree_reachable(m, j);
            let p0 = choose|p0: Seq<int>| #[trigger]
                is_face_path(m, p0) && p0[0] == self.root as int && p0.last() == l.parent as int;
            assert(self.in_tree(f));
            self.lemma_parent_is_shared_edge(m, f);
            let p = p0.push(f);
            assert(p.last() == f);
            assert forall|x: int| 0 <= x < p.len() - 1 implies adjacent_faces(
                m,
                #[trigger] p[x],
                p[x + 1],
            ) by {
                if x < p0.len() - 1 {
                    assert(p[x] == p0[x] && p[x + 1] == p0[x + 1]);
                } else {
                    assert(p[x] == p0.last() && p[x + 1] == f);
                }
            }
            assert(is_face_path(m, p));
        }
    }

    /// Every face reachable from the root along a path is in the tree.
    proof fn lemma_reachable_in_tree_path(self, m: HalfEdgeMesh, p: Seq<int>)
        requires
            self.valid_for(m),
            is_face_path(m, p),
            p[0] == self.root as int,
        ensures
            self.in_tree(p.last()),
        decreases p.len(),
    {
        if p.len() == 1 {
            assert(self.order@[0] == self.root);
            assert(self.in_tree(self.root as int));
        } else {
            let q = p.drop_last();
            assert(is_face_path(m, q));
            self.lemma_reachable_in_tree_path(m, q);
            let a = q.last();
            let b = p.last();
            assert(adjacent_faces(m, p[p.len() - 2], p[p.len() - 1]));
            assert(q.last() == p[p.len() - 2]);
            let k = choose|k: int| 0 <= k < 3 && #[trigger] face_neighbor(m, a, k) == Some(b);
            assert(self.in_tree(b));
        }
    }

    /// The tree's size equals the number of faces in the root's
    /// connected component: each reachable face is visited exactly once.
    pub proof fn lemma_size_is_component_size(self, m: HalfEdgeMesh)
        requires
            self.valid_for(m),
        ensures
            component_of(m, self.root as int).finite(),
            self.order@.len() == component_of(m, self.root as int).len(),
    {
        let comp = component_of(m, self.root as int);
        let si = self.order@.map_values(|x: usize| x as int);
        self.order@.lemma_no_duplicates_injective(|x: usize| x as int);
        si.unique_seq_to_set();
        assert forall|y: int| si.to_set().contains(y) implies comp.contains(y) by {
            let i = choose|i: int| 0 <= i < si.len() && si[i] == y;
            assert(self.order@[i] == y);
            assert(self.in_tree(y));
            assert(0 <= y < m.faces@.len());
            self.lemma_covers_component(m, y);
        }
        assert forall|y: int| comp.contains(y) implies si.to_set().contains(y) by {
            self.lemma_covers_component(m, y);
            assert(self.in_tree(y));
            let i = choose|i: int| 0 <= i < self.order@.len() && self.order@[i] == y;
            assert(si[i] == y);
            assert(si.contains(y));
        }
        assert(si.to_set() =~= comp);
    }

    /// The tree covers exactly the root's connected component: a face is
    /// in the tree if and only if it is reachable from the root, and (by
    /// `no_duplicates` on the order) each such face is visited once.
    pub proof fn lemma_covers_component(self, m: HalfEdgeMesh, f: int)
        requires
            self.valid_for(m),
            0 <= f < m.faces@.len(),
        ensures
            self.in_tree(f) <==> reachable(m, self.root as int, f),
    {
        if self.in_tree(f) {
            let i = choose|i: int| 0 <= i < self.order@.len() && self.order@[i] == f;
            self.lemma_in_tree_reachable(m, i);
        }
        if reachable(m, self.root as int, f) {
            let p = choose|p: Seq<int>| #[trigger]
                is_face_path(m, p) && p[0] == self.root as int && p.last() == f;
            self.lemma_reachable_in_tree_path(m, p);
        }
    }
}

/// The set of faces in the root's connected component of the dual graph.
pub open spec fn component_of(m: HalfEdgeMesh, s: int) -> Set<int> {
    Set::new(|f: int| 0 <= f < m.faces@.len() && reachable(m, s, f))
}

/// A duplicate-free sequence of values below `n` has at most `n` entries.
pub proof fn lemma_distinct_bounded_len(s: Seq<usize>, n: int)
    requires
        s.no_duplicates(),
        0 <= n,
        forall|i: int| 0 <= i < s.len() ==> (#[trigger] s[i]) < n,
    ensures
        s.len() <= n,
{
    let si = s.map_values(|x: usize| x as int);
    s.lemma_no_duplicates_injective(|x: usize| x as int);
    si.unique_seq_to_set();
    assert forall|y: int| si.to_set().contains(y) implies set_int_range(0, n).contains(y) by {
        let i = choose|i: int| 0 <= i < si.len() && si[i] == y;
        assert(s[i] < n);
    }
    lemma_int_range(0, n);
    lemma_len_subset(si.to_set(), set_int_range(0, n));
}

/// Derive the breadth-first spanning tree of `m`'s dual graph rooted at
/// `seed`; fails exactly when `seed` is not a face index. Faces outside
/// the seed's component are absent from the tree.
pub fn build_spanning_tree(m: &HalfEdgeMesh, seed: usize) -> (r: Result<SpanningTree, UnfoldError>)
    requires
        m.wf(),
    ensures
        match r {
            Ok(t) => {
                &&& (seed as int) < m.faces@.len()
                &&& t.root == seed
                &&& t.valid_for(*m)
                &&& (t.order@, t.parent@) == bfs_result(*m, seed)
            },
            Err(e) => {
                &&& e == (UnfoldError::SeedFaceOutOfRange { seed })
                &&& seed >= m.faces@.len()
            },
        },
{
    let nf = m.face_count();
    if seed >= nf {
        return Err(UnfoldError::SeedFaceOutOfRange { seed });
    }
    let mut visited: Vec<bool> = vec![false; nf];
    let mut parent: Vec<Option<TreeLink>> = vec![None; nf];
    let mut order: Vec<usize> = Vec::new();
    visited[seed] = true;
    order.push(seed);
    proof {
        assert(order@[0] == seed);
        assert forall|f: int| 0 <= f < nf && visited@[f] implies exists|i: int|
            0 <= i < order@.len() && #[trigger] order@[i] == f by {
            assert(f == seed);
            assert(order@[0] == f);
        }
    }
    proof {
        assert(parent@ =~= bfs_init_parent(nf as nat));
        assert(order@ =~= seq![seed]);
    }
    let mut head: usize = 0;
    while head < order.len()
        invariant
            m.wf(),
            nf == m.faces@.len(),
            seed < nf,
            visited@.len() == nf,
            parent@.len() == nf,
            head <= order@.len(),
            order@.len() >= 1,
            order@.len() <= nf,
            order@[0] == seed,
            order@.no_duplicates(),
            bfs_from(*m, order@, parent@, head as int, (nf - head) as nat) == bfs_result(*m, seed),
            forall|i: int| 0 <= i < order@.len() ==> (#[trigger] order@[i]) < nf,
            forall|f: int| 0 <= f < nf ==> (visited@[f] <==> exists|i: int|
                0 <= i < order@.len() && #[trigger] order@[i] == f),
            parent@[seed as int] is None,
            forall|c: int|
                0 <= c < nf && c != seed ==> (visited@[c] <==> (#[trigger] parent@[c]) is Some),
            forall|c: int|
                0 <= c < nf ==> ((#[trigger] parent@[c]) matches Some(l) ==> (c != seed && l.parent
                    < nf && (l.via as int) / 3 == l.parent && l.via < m.twin@.len()
                    && (m.twin@[l.via as int] matches Some(t) && t as int / 3 == c)
                    && visited@[l.parent as int])),
            forall|i: int|
                1 <= i < order@.len() ==> ((#[trigger] parent@[order@[i] as int]) matches Some(l)
                    && exists|j: int| 0 <= j < i && order@[j] == l.parent),
            forall|i: int, k: int|
                0 <= i < head && 0 <= k < 3 ==> ((#[trigger] face_neighbor(
                    *m,
                    order@[i] as int,
                    k,
                )) matches Some(g) ==> visited@[g]),
        decreases nf - head,
    {
        proof {
            lemma_distinct_bounded_len(order@, nf as int);
        }
        let f = order[head];
        let ghost base_order = order@;
        let ghost base_parent = parent@;
        let mut k: usize = 0;
        while k < 3
            invariant
                m.wf(),
                nf == m.faces@.len(),
                seed < nf,
                f < nf,
                k <= 3,
                visited@.len() == nf,
                parent@.len() == nf,
                head < base_order.len(),
                base_order[head as int] == f,
                order@[head as int] == f,
                order@.len() >= 1,
                order@.len() <= nf,
                order@[0] == seed,
                order@.no_duplicates(),
                head < order@.len(),
                (order@, parent@) == bfs_expand(*m, base_order, base_parent, f, k as int),
                forall|i: int| 0 <= i < order@.len() ==> (#[trigger] order@[i]) < nf,
                forall|ff: int| 0 <= ff < nf ==> (visited@[ff] <==> exists|i: int|
                    0 <= i < order@.len() && #[trigger] order@[i] == ff),
                parent@[seed as int] is None,
                forall|c: int|
                    0 <= c < nf && c != seed ==> (visited@[c] <==> (#[trigger] parent@[c]) is Some),
                forall|c: int|
                    0 <= c < nf ==> ((#[trigger] parent@[c]) matches Some(l) ==> (c != seed
                        && l.parent < nf && (l.via as int) / 3 == l.parent && l.via < m.twin@.len()
                        && (m.twin@[l.via as int] matches Some(t) && t as int / 3 == c)
                        && visited@[l.parent as int])),
                forall|i: int|
                    1 <= i < order@.len() ==> ((#[trigger] parent@[order@[i] as int]) matches Some(
                    l) && exists|j: int| 0 <= j < i && order@[j] == l.parent),
                forall|i: int, kk: int|
                    0 <= i < head && 0 <= kk < 3 ==> ((#[trigger] face_neighbor(
                        *m,
                        order@[i] as int,
                        kk,
                    )) matches Some(g) ==> visited@[g]),
                forall|kk: int|
                    0 <= kk < k ==> ((#[trigger] face_neighbor(*m, f as int, kk)) matches Some(g)
                        ==> visited@[g]),
            decreases 3 - k,
        {
            let h = 3 * f + k;
            assert(h < m.twin@.len());
            match m.twin[h] {
                Some(t) => {
                    let c = t / 3;
                    assert(c as int == t as int / 3);
                    assert(face_neighbor(*m, f as int, k as int) == Some(c as int));
                    assert(c < nf) by {
                        assert(m.twin@[h as int] matches Some(tt) && tt < m.twin@.len());
                    }
                    if visited[c] {
                        proof {
                            let i = choose|i: int|
                                0 <= i < order@.len() && #[trigger] order@[i] == c;
                            assert(order_contains(order@, c));
                            assert((order@, parent@) == bfs_expand(
                                *m,
                                base_order,
                                base_parent,
                                f,
                                k as int + 1,
                            ));
                        }
                    } else {
                        let ghost old_visited = visited@;
                        let ghost old_parent = parent@;
                        let ghost old_order = order@;
                        visited[c] = true;
                        parent[c] = Some(TreeLink { parent: f, via: h });
                        order.push(c);
                        proof {
                            assert(order@[order@.len() - 1] == c);
                            assert(!old_visited[c as int]);
                            assert forall|i: int| 0 <= i < old_order.len() implies old_order[i]
                                != c by {
                                if old_order[i] == c {
                                    assert(old_visited[c as int]);
                                }
                            }
                            assert(!order_contains(old_order, c));
                            assert((order@, parent@) == bfs_push(
                                *m,
                                old_order,
                                old_parent,
                                f,
                                k as int,
                            ));
                            assert((order@, parent@) == bfs_expand(
                                *m,
                                base_order,
                                base_parent,
                                f,
                                k as int + 1,
                            ));
                            assert(order@.no_duplicates());
                            lemma_distinct_bounded_len(order@, nf as int);
                            assert forall|ff: int| 0 <= ff < nf && visited@[ff] implies exists|
                                i: int,
                            |
                                0 <= i < order@.len() && #[trigger] order@[i] == ff by {
                                if ff == c {
                                    assert(order@[order@.len() - 1] == ff);
                                } else {
                                    assert(old_visited[ff]);
                                    let i = choose|i: int|
                                        0 <= i < old_order.len() && #[trigger] old_order[i] == ff;
                                    assert(order@[i] == ff);
                                }
                            }
                            assert forall|i: int| 1 <= i < order@.len() implies ((
                            #[trigger] parent@[order@[i] as int]) matches Some(l) && exists|j: int|
                                0 <= j < i && order@[j] == l.parent) by {
                                if i < order@.len() - 1 {
                                    let x = order@[i] as int;
                                    assert(order@[i] == old_order[i]);
                                    assert(old_order[i] != c);
                                    assert(parent@[x] == old_parent[x]);
                                    assert(old_parent[old_order[i] as int] matches Some(l)
                                        && exists|j: int| 0 <= j < i && old_order[j] == l.parent);
                                    let l = old_parent[x]->Some_0;
                                    let j = choose|j: int|
                                        0 <= j < i && #[trigger] old_order[j] == l.parent;
                                    assert(order@[j] == l.parent);
                                } else {
                                    assert(order@[i] == c);
                                    assert(order@[head as int] == f);
                                }
                            }
                        }
                    }
                },
                None => {
                    proof {
                        assert((order@, parent@) == bfs_expand(
                            *m,
                            base_order,
                            base_parent,
                            f,
                            k as int + 1,
                        ));
                    }
                },
            }
            k = k + 1;
        }
        proof {
            let fu = (nf - head) as nat;
            assert(fu >= 1);
            assert((order@, parent@) == bfs_expand(*m, base_order, base_parent, f, 3));
            let e0 = bfs_expand(*m, base_order, base_parent, f, 0);
            let e1 = bfs_expand(*m, base_order, base_parent, f, 1);
            let e2 = bfs_expand(*m, base_order, base_parent, f, 2);
            let e3 = bfs_expand(*m, base_order, base_parent, f, 3);
            assert(e0 == (base_order, base_parent));
            assert(e1 == bfs_push(*m, e0.0, e0.1, f, 0));
            assert(e2 == bfs_push(*m, e1.0, e1.1, f, 1));
            assert(e3 == bfs_push(*m, e2.0, e2.1, f, 2));
            assert(bfs_from(*m, base_order, base_parent, head as int, fu) == bfs_from(
                *m,
                e3.0,
                e3.1,
                head as int + 1,
                (fu - 1) as nat,
            ));
            assert(bfs_from(*m, base_order, base_parent, head as int, fu) == bfs_from(
                *m,
                order@,
                parent@,
                head as int + 1,
                (fu - 1) as nat,
            ));
        }
        head = head + 1;
    }
    let t = SpanningTree { root: seed, parent, order };
    proof {
        assert forall|f: int, k: int| t.in_tree(f) && 0 <= k < 3 implies ((#[trigger] face_neighbor(
            *m,
            f,
            k,
        )) matches Some(g) ==> t.in_tree(g)) by {
            let i = choose|i: int| 0 <= i < t.order@.len() && t.order@[i] == f;
            assert(0 <= i < head);
            match face_neighbor(*m, f, k) {
                Some(g) => {
                    assert(face_neighbor(*m, t.order@[i] as int, k) == Some(g));
                    assert(visited@[g]);
                },
                None => {},
            }
        }
        assert forall|c: int| 0 <= c < t.parent@.len() implies ((#[trigger] t.parent@[c]) matches
            Some(l) ==> t.link_ok(*m, c, l)) by {
            match t.parent@[c] {
                Some(l) => {
                    assert(visited@[l.parent as int]);
                },
                None => {},
            }
        }
    }
    Ok(t)
}

} // verus!
