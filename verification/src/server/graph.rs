use crate::text::str_eq;
use vstd::prelude::*;

verus! {

/// An edge `(a, b)` of the predecessor relation says that resource `a` must
/// be applied after resource `b`.
pub type Edge = (Seq<char>, Seq<char>);

/// Whether `p` is a walk of at least one edge through `g`.
pub open spec fn is_walk(g: Seq<Edge>, p: Seq<Seq<char>>) -> bool {
    &&& p.len() >= 2
    &&& forall|i: int| 0 <= i < p.len() - 1 ==> #[trigger] g.contains((p[i], p[i + 1]))
}

/// Whether `b` can be reached from `a` by following at least one edge.
pub open spec fn reaches(g: Seq<Edge>, a: Seq<char>, b: Seq<char>) -> bool {
    exists|p: Seq<Seq<char>>| #[trigger] is_walk(g, p) && p[0] == a && p.last() == b
}

/// Whether the relation holds no cycle.
pub open spec fn acyclic(g: Seq<Edge>) -> bool {
    forall|x: Seq<char>| !#[trigger] reaches(g, x, x)
}

/// Whether `b` is `a` or can be reached from it.
pub open spec fn reaches_or_is(g: Seq<Edge>, a: Seq<char>, b: Seq<char>) -> bool {
    a == b || reaches(g, a, b)
}

/// An edge is a walk.
pub proof fn lemma_edge_reaches(g: Seq<Edge>, a: Seq<char>, b: Seq<char>)
    requires
        g.contains((a, b)),
    ensures
        reaches(g, a, b),
{
    let p = seq![a, b];
    assert(is_walk(g, p)) by {
        assert forall|i: int| 0 <= i < p.len() - 1 implies #[trigger] g.contains((p[i], p[i + 1])) by {
            assert(i == 0);
        }
    }
    assert(p.last() == b);
}

/// Walks can be joined end to start.
pub proof fn lemma_reaches_trans(g: Seq<Edge>, a: Seq<char>, b: Seq<char>, c: Seq<char>)
    requires
        reaches(g, a, b),
        reaches(g, b, c),
    ensures
        reaches(g, a, c),
{
    let p = choose|p: Seq<Seq<char>>| #[trigger] is_walk(g, p) && p[0] == a && p.last() == b;
    let q = choose|q: Seq<Seq<char>>| #[trigger] is_walk(g, q) && q[0] == b && q.last() == c;
    let r = p + q.skip(1);
    assert(is_walk(g, r)) by {
        assert forall|i: int| 0 <= i < r.len() - 1 implies #[trigger] g.contains((r[i], r[i + 1])) by {
            if i < p.len() - 1 {
                assert(r[i] == p[i] && r[i + 1] == p[i + 1]);
            } else if i == p.len() - 1 {
                assert(r[i] == q[0] && r[i + 1] == q[1]);
                assert(g.contains((q[0], q[1])));
            } else {
                let k = i - p.len() + 1;
                assert(r[i] == q[k] && r[i + 1] == q[k + 1]);
                assert(g.contains((q[k], q[k + 1])));
            }
        }
    }
    assert(r[0] == a);
    assert(r.last() == q.last());
}

/// A walk through a relation with one more edge `(a, b)` either is a walk of
/// the relation, or reaches `a` and goes on from `b`.
proof fn lemma_walk_split(g: Seq<Edge>, a: Seq<char>, b: Seq<char>, p: Seq<Seq<char>>)
    requires
        is_walk(g.push((a, b)), p),
    ensures
        reaches(g, p[0], p.last()) || (reaches_or_is(g, p[0], a) && reaches_or_is(g, b, p.last())),
    decreases p.len(),
{
    let h = g.push((a, b));
    let u = p[0];
    let v = p.last();
    let w = p[p.len() - 2];
    let last = p.len() - 2;
    assert(h.contains((p[last], p[last + 1])));
    assert(h.contains((w, v)));
    let j = choose|j: int| 0 <= j < h.len() && h[j] == (w, v);
    let in_g = j < g.len();
    if in_g {
        assert(g[j] == (w, v));
        assert(g.contains((w, v)));
        lemma_edge_reaches(g, w, v);
    } else {
        assert(w == a && v == b);
    }
    if p.len() == 2 {
        assert(w == u);
    } else {
        let q = p.drop_last();
        assert(is_walk(h, q)) by {
            assert forall|i: int| 0 <= i < q.len() - 1 implies #[trigger] h.contains((q[i], q[i + 1])) by {
                assert(q[i] == p[i] && q[i + 1] == p[i + 1]);
            }
        }
        lemma_walk_split(g, a, b, q);
        assert(q[0] == u && q.last() == w);
        if in_g {
            if reaches(g, u, w) {
                lemma_reaches_trans(g, u, w, v);
            } else if b != w {
                lemma_reaches_trans(g, b, w, v);
            }
        } else {
            if reaches(g, u, w) {
            } else {
            }
        }
    }
}

/// Adding an edge `(a, b)` to a relation without cycles keeps it without
/// cycles when `a` cannot be reached from `b` and the two differ: the check
/// that the catalog validation makes before it records a predecessor.
pub proof fn lemma_add_edge_keeps_acyclic(g: Seq<Edge>, a: Seq<char>, b: Seq<char>)
    requires
        acyclic(g),
        !reaches(g, b, a),
        a != b,
    ensures
        acyclic(g.push((a, b))),
{
    let h = g.push((a, b));
    assert forall|x: Seq<char>| !#[trigger] reaches(h, x, x) by {
        if reaches(h, x, x) {
            let p = choose|p: Seq<Seq<char>>| #[trigger] is_walk(h, p) && p[0] == x && p.last() == x;
            lemma_walk_split(g, a, b, p);
            if reaches(g, x, x) {
                assert(!reaches(g, x, x));
            } else {
                if b != x && x != a {
                    lemma_reaches_trans(g, b, x, a);
                }
            }
        }
    }
}

/// Whether every edge of `g` is an edge of `h`.
pub open spec fn subgraph(g: Seq<Edge>, h: Seq<Edge>) -> bool {
    forall|e: Edge| #[trigger] g.contains(e) ==> h.contains(e)
}

/// A walk through a relation is a walk through any relation that holds it.
pub proof fn lemma_reaches_subgraph(g: Seq<Edge>, h: Seq<Edge>, a: Seq<char>, b: Seq<char>)
    requires
        subgraph(g, h),
        reaches(g, a, b),
    ensures
        reaches(h, a, b),
{
    let p = choose|p: Seq<Seq<char>>| #[trigger] is_walk(g, p) && p[0] == a && p.last() == b;
    assert(is_walk(h, p)) by {
        assert forall|i: int| 0 <= i < p.len() - 1 implies #[trigger] h.contains((p[i], p[i + 1])) by {
            assert(g.contains((p[i], p[i + 1])));
        }
    }
}

/// An edge of a relation without cycles closes no loop in any part of it.
pub proof fn lemma_edge_of_acyclic(g: Seq<Edge>, h: Seq<Edge>, a: Seq<char>, b: Seq<char>)
    requires
        subgraph(g, h),
        acyclic(h),
        h.contains((a, b)),
    ensures
        !reaches(g, b, a),
{
    if reaches(g, b, a) {
        lemma_reaches_subgraph(g, h, b, a);
        lemma_edge_reaches(h, a, b);
        lemma_reaches_trans(h, a, b, a);
        assert(reaches(h, a, a));
    }
}

/// Adding an edge of `h` to a part of `h` keeps it a part of `h`.
pub proof fn lemma_subgraph_push(g: Seq<Edge>, h: Seq<Edge>, e: Edge)
    requires
        subgraph(g, h),
        h.contains(e),
    ensures
        subgraph(g.push(e), h),
{
    assert forall|x: Edge| #[trigger] g.push(e).contains(x) implies h.contains(x) by {
        let i = choose|i: int| 0 <= i < g.push(e).len() && g.push(e)[i] == x;
        if i < g.len() {
            assert(g[i] == x);
            assert(g.contains(x));
        }
    }
}

/// The ids that the predecessor relation stores, each after the id of a
/// resource that must be applied before it.
pub open spec fn edge_views(e: Seq<(String, String)>) -> Seq<Edge> {
    e.map_values(|x: (String, String)| (x.0@, x.1@))
}

/// The predecessor relation between the resources of a catalog, held while
/// the catalog is validated.
pub struct Predecessors {
    pub edges: Vec<(String, String)>,
}

impl View for Predecessors {
    type V = Seq<Edge>;

    open spec fn view(&self) -> Seq<Edge> {
        edge_views(self.edges@)
    }
}

impl Predecessors {
    pub fn new() -> (r: Predecessors)
        ensures
            r@ == Seq::<Edge>::empty(),
    {
        let r = Predecessors { edges: Vec::new() };
        assert(r@ =~= Seq::<Edge>::empty());
        r
    }

    /// Whether `(a, b)` is recorded.
    pub fn contains(&self, a: &str, b: &str) -> (r: bool)
        ensures
            r == self@.contains((a@, b@)),
    {
        let mut i: usize = 0;
        while i < self.edges.len()
            invariant
                i <= self.edges.len(),
                forall|j: int| 0 <= j < i ==> self@[j] != (a@, b@),
            decreases self.edges.len() - i,
        {
            let e = &self.edges[i];
            if str_eq(e.0.as_str(), a) && str_eq(e.1.as_str(), b) {
                assert(self@[i as int] == (a@, b@));
                return true;
            }
            i = i + 1;
        }
        assert(!self@.contains((a@, b@))) by {
            if self@.contains((a@, b@)) {
                let k = choose|k: int| 0 <= k < self@.len() && self@[k] == (a@, b@);
                assert(self@[k] != (a@, b@));
            }
        }
        false
    }

    /// Records that `a` comes after `b`; returns whether the pair is new.
    pub fn insert(&mut self, a: &str, b: &str) -> (r: bool)
        ensures
            r == !old(self)@.contains((a@, b@)),
            r ==> final(self)@ == old(self)@.push((a@, b@)),
            !r ==> final(self)@ == old(self)@,
    {
        if self.contains(a, b) {
            false
        } else {
            let ghost before = self.edges@;
            self.edges.push((a.to_owned(), b.to_owned()));
            assert(edge_views(self.edges@) =~= edge_views(before).push((a@, b@)));
            true
        }
    }

    /// Whether recording that `node` is applied after something that comes
    /// after `target` would close a loop: whether `target` can be reached
    /// from `node`.
    pub fn relationship_introduces_loop(&self, node: &str, target: &str) -> (r: bool)
        ensures
            r == reaches(self@, node@, target@),
    {
        let g = Ghost(self@);
        let mut work: Vec<(String, String)> = Vec::new();
        let mut i: usize = 0;
        while i < self.edges.len()
            invariant
                i <= self.edges.len(),
                g@ == self@,
                edge_views(work@) == self@.take(i as int),
            decreases self.edges.len() - i,
        {
            let e = &self.edges[i];
            let ghost before = work@;
            work.push((e.0.clone(), e.1.clone()));
            assert(edge_views(work@) =~= edge_views(before).push(self@[i as int]));
            assert(self@.take(i + 1) =~= self@.take(i as int).push(self@[i as int]));
            i = i + 1;
        }
        assert(self@.take(self.edges.len() as int) =~= self@);
        let mut reached: Vec<String> = Vec::new();
        let mut done = false;
        while !done
            invariant
                g@ == self@,
                done ==> forall|k: int| 0 <= k < edge_views(work@).len() ==> {
                    &&& edge_views(work@)[k].0 != node@
                    &&& forall|m: int| 0 <= m < reached@.len() ==> reached@[m]@ != #[trigger] edge_views(work@)[k].0
                },
                forall|k: int| 0 <= k < edge_views(work@).len() ==> g@.contains(#[trigger] edge_views(work@)[k]),
                forall|k: int| 0 <= k < reached@.len() ==> reaches(g@, node@, #[trigger] reached@[k]@),
                forall|e: Edge| #[trigger] g@.contains(e) ==> edge_views(work@).contains(e) || (exists|k: int|
                    0 <= k < reached@.len() && reached@[k]@ == e.1),
            decreases work.len() + if done { 0int } else { 1int },
        {
            let ghost wold = edge_views(work@);
            match Self::take_edge_from(&mut work, node, &reached) {
                Some(y) => {
                    let ghost k = choose|k: int| 0 <= k < wold.len()
                        && wold[k].1 == y@
                        && (wold[k].0 == node@ || exists|m: int| 0 <= m < reached@.len() && reached@[m]@ == wold[k].0)
                        && edge_views(work@) == wold.remove(k);
                    proof {
                        assert(g@.contains(wold[k]));
                        lemma_edge_reaches(g@, wold[k].0, y@);
                        if wold[k].0 != node@ {
                            let m = choose|m: int| 0 <= m < reached@.len() && reached@[m]@ == wold[k].0;
                            assert(reaches(g@, node@, reached@[m]@));
                            lemma_reaches_trans(g@, node@, wold[k].0, y@);
                        }
                    }
                    let ghost before = reached@;
                    reached.push(y);
                    proof {
                        assert forall|e: Edge| #[trigger] g@.contains(e) implies edge_views(work@).contains(e) || (exists|j: int|
                            0 <= j < reached@.len() && reached@[j]@ == e.1) by {
                            if !edge_views(work@).contains(e) {
                                if exists|j: int| 0 <= j < before.len() && before[j]@ == e.1 {
                                    let j = choose|j: int| 0 <= j < before.len() && before[j]@ == e.1;
                                    assert(reached@[j]@ == e.1);
                                } else {
                                    assert(wold.contains(e));
                                    let j = choose|j: int| 0 <= j < wold.len() && wold[j] == e;
                                    if j < k {
                                        assert(wold.remove(k)[j] == e);
                                    } else if j > k {
                                        assert(wold.remove(k)[j - 1] == e);
                                    }
                                    assert(reached@[before.len() as int]@ == e.1);
                                }
                            }
                        }
                        assert forall|j: int| 0 <= j < edge_views(work@).len() implies g@.contains(#[trigger] edge_views(work@)[j]) by {
                            if j < k {
                                assert(edge_views(work@)[j] == wold[j]);
                            } else {
                                assert(edge_views(work@)[j] == wold[j + 1]);
                            }
                        }
                    }
                },
                None => {
                    done = true;
                },
            }
        }
        let found = Self::holds(&reached, target);
        proof {
            if reaches(g@, node@, target@) && !found {
                lemma_closed_walk(g@, edge_views(work@), reached@, node@, target@);
            }
        }
        found
    }

    /// Removes from `work` an edge that leaves `node` or a reached id, and
    /// returns where it leads; `None` when no edge of `work` does.
    fn take_edge_from(work: &mut Vec<(String, String)>, node: &str, reached: &Vec<String>) -> (r: Option<String>)
        ensures
            match r {
                Some(y) => exists|k: int| 0 <= k < edge_views(old(work)@).len()
                    && edge_views(old(work)@)[k].1 == y@
                    && (edge_views(old(work)@)[k].0 == node@ || exists|m: int| 0 <= m < reached@.len() && reached@[m]@ == edge_views(old(work)@)[k].0)
                    && edge_views(final(work)@) == edge_views(old(work)@).remove(k),
                None => final(work)@ == old(work)@ && forall|k: int| 0 <= k < edge_views(old(work)@).len() ==> {
                    &&& edge_views(old(work)@)[k].0 != node@
                    &&& forall|m: int| 0 <= m < reached@.len() ==> reached@[m]@ != #[trigger] edge_views(old(work)@)[k].0
                },
            },
    {
        let mut i: usize = 0;
        while i < work.len()
            invariant
                i <= work.len(),
                work@ == old(work)@,
                forall|k: int| 0 <= k < i ==> {
                    &&& edge_views(work@)[k].0 != node@
                    &&& forall|m: int| 0 <= m < reached@.len() ==> reached@[m]@ != #[trigger] edge_views(work@)[k].0
                },
            decreases work.len() - i,
        {
            let from_node = str_eq(work[i].0.as_str(), node);
            let from_reached = Self::holds(reached, work[i].0.as_str());
            if from_node || from_reached {
                let ghost before = work@;
                let e = work.remove(i);
                assert(edge_views(work@) =~= edge_views(before).remove(i as int));
                assert(edge_views(before)[i as int] == (e.0@, e.1@));
                assert(edge_views(before)[i as int].0 == node@ || exists|m: int| 0 <= m < reached@.len() && reached@[m]@ == edge_views(before)[i as int].0);
                return Some(e.1);
            }
            i = i + 1;
        }
        None
    }

    /// Whether `ids` holds `id`.
    fn holds(ids: &Vec<String>, id: &str) -> (r: bool)
        ensures
            r == exists|m: int| 0 <= m < ids@.len() && ids@[m]@ == id@,
    {
        let mut i: usize = 0;
        while i < ids.len()
            invariant
                i <= ids.len(),
                forall|m: int| 0 <= m < i ==> ids@[m]@ != id@,
            decreases ids.len() - i,
        {
            if str_eq(ids[i].as_str(), id) {
                return true;
            }
            i = i + 1;
        }
        false
    }
}

/// When no remaining edge leaves `node` or a reached id, every id that
/// `node` reaches has been reached.
proof fn lemma_closed_walk(
    g: Seq<Edge>,
    work: Seq<Edge>,
    reached: Seq<String>,
    node: Seq<char>,
    target: Seq<char>,
)
    requires
        reaches(g, node, target),
        forall|e: Edge| #[trigger] g.contains(e) ==> work.contains(e) || (exists|k: int|
            0 <= k < reached.len() && reached[k]@ == e.1),
        forall|k: int| 0 <= k < work.len() ==> {
            &&& work[k].0 != node
            &&& forall|m: int| 0 <= m < reached.len() ==> reached[m]@ != #[trigger] work[k].0
        },
    ensures
        exists|m: int| 0 <= m < reached.len() && reached[m]@ == target,
{
    let p = choose|p: Seq<Seq<char>>| #[trigger] is_walk(g, p) && p[0] == node && p.last() == target;
    assert forall|i: int| 1 <= i < p.len() implies exists|m: int| 0 <= m < reached.len() && reached[m]@ == #[trigger] p[i] by {
        lemma_walk_prefix_reached(g, work, reached, node, p, i);
    }
    assert(p[p.len() - 1] == target);
}

proof fn lemma_walk_prefix_reached(
    g: Seq<Edge>,
    work: Seq<Edge>,
    reached: Seq<String>,
    node: Seq<char>,
    p: Seq<Seq<char>>,
    i: int,
)
    requires
        is_walk(g, p),
        p[0] == node,
        1 <= i < p.len(),
        forall|e: Edge| #[trigger] g.contains(e) ==> work.contains(e) || (exists|k: int|
            0 <= k < reached.len() && reached[k]@ == e.1),
        forall|k: int| 0 <= k < work.len() ==> {
            &&& work[k].0 != node
            &&& forall|m: int| 0 <= m < reached.len() ==> reached[m]@ != #[trigger] work[k].0
        },
    ensures
        exists|m: int| 0 <= m < reached.len() && reached[m]@ == p[i],
    decreases i,
{
    let e = (p[i - 1], p[i]);
    let prev = i - 1;
    assert(g.contains((p[prev], p[prev + 1])));
    assert(g.contains(e));
    if i > 1 {
        lemma_walk_prefix_reached(g, work, reached, node, p, i - 1);
    }
    if work.contains(e) {
        let k = choose|k: int| 0 <= k < work.len() && work[k] == e;
        if i == 1 {
            assert(work[k].0 == node);
        } else {
            let m = choose|m: int| 0 <= m < reached.len() && reached[m]@ == p[i - 1];
            assert(reached[m]@ == work[k].0);
        }
    }
}

} // verus!
