//! Edges from each member of a revision set to its nearest members among
//! its ancestors.

use vstd::prelude::*;

use crate::repo::RepoView;
use crate::revset::{
    inter_set, is_parent, mark_all, members_of, ordered_members, single_set, members_from,
};

verus! {

#[derive(Clone, Copy, Debug, PartialEq, Eq, Structural)]
pub enum EdgeType {
    /// The target is a parent and a member.
    Direct,
    /// The target is a member reached through parents that are not members.
    Indirect,
    /// No member is reached from this parent.
    Missing,
}

#[derive(Clone, Copy, Debug, PartialEq, Eq, Structural)]
pub struct GraphEdge {
    pub target: usize,
    pub edge_type: EdgeType,
}

pub open spec fn has_target(es: Seq<GraphEdge>, t: usize) -> bool {
    exists|k: int| 0 <= k < es.len() && #[trigger] es[k].target == t
}

/// Direct edges to the parents that are members, in parent order, each
/// target once.
pub open spec fn direct_edges(m: Seq<bool>, ps: Seq<usize>) -> Seq<GraphEdge>
    decreases ps.len(),
{
    if ps.len() == 0 {
        Seq::empty()
    } else {
        let d = direct_edges(m, ps.drop_last());
        let p = ps.last();
        if m[p as int] && !has_target(d, p) {
            d.push(GraphEdge { target: p, edge_type: EdgeType::Direct })
        } else {
            d
        }
    }
}

/// Marks after walking down from the marked positions at `k` and above,
/// through positions that are not members, to their parents.
pub open spec fn walk_sweep(v: RepoView, m: Seq<bool>, s: Seq<bool>, k: int) -> Seq<bool>
    decreases v.len() - k,
{
    if k >= v.len() || k < 0 {
        s
    } else {
        let a = walk_sweep(v, m, s, k + 1);
        if a[k] && !m[k] {
            mark_all(a, v.parents_of(k))
        } else {
            a
        }
    }
}

/// The members that a walk from parent `p` through non-members reaches
/// first, newest first.
pub open spec fn walk_targets(v: RepoView, m: Seq<bool>, p: usize) -> Seq<usize> {
    ordered_members(inter_set(walk_sweep(v, m, single_set(v.len() as nat, p as int), 0), m))
}

pub open spec fn walk_edges(v: RepoView, m: Seq<bool>, p: usize) -> Seq<GraphEdge> {
    let t = walk_targets(v, m, p);
    if t.len() == 0 {
        seq![GraphEdge { target: p, edge_type: EdgeType::Missing }]
    } else {
        t.map_values(|x: usize| GraphEdge { target: x, edge_type: EdgeType::Indirect })
    }
}

/// `es` followed by those of `new` whose target is not yet there.
pub open spec fn add_new(es: Seq<GraphEdge>, new: Seq<GraphEdge>) -> Seq<GraphEdge>
    decreases new.len(),
{
    if new.len() == 0 {
        es
    } else {
        let e = add_new(es, new.drop_last());
        if has_target(e, new.last().target) {
            e
        } else {
            e.push(new.last())
        }
    }
}

/// `acc` extended with the walk edges of the parents that are not members.
pub open spec fn walk_all(v: RepoView, m: Seq<bool>, ps: Seq<usize>, acc: Seq<GraphEdge>) -> Seq<GraphEdge>
    decreases ps.len(),
{
    if ps.len() == 0 {
        acc
    } else {
        let e = walk_all(v, m, ps.drop_last(), acc);
        if m[ps.last() as int] {
            e
        } else {
            add_new(e, walk_edges(v, m, ps.last()))
        }
    }
}

/// The edges of position `i` in the set `m`: direct edges first, then
/// indirect and missing ones, each target once.
pub open spec fn edges_of(v: RepoView, m: Seq<bool>, i: int) -> Seq<GraphEdge> {
    let ps = v.parents_of(i);
    walk_all(v, m, ps, direct_edges(m, ps))
}

fn contains_target(es: &Vec<GraphEdge>, t: usize) -> (r: bool)
    ensures
        r == has_target(es@, t),
{
    let mut k: usize = 0;
    while k < es.len()
        invariant
            k <= es@.len(),
            forall|j: int| 0 <= j < k ==> #[trigger] es@[j].target != t,
        decreases es@.len() - k,
    {
        if es[k].target == t {
            return true;
        }
        k = k + 1;
    }
    false
}

fn push_new(es: &mut Vec<GraphEdge>, new: &Vec<GraphEdge>, bound: usize)
    requires
        forall|q: int| 0 <= q < old(es)@.len() ==> #[trigger] old(es)@[q].target < bound,
        forall|q: int| 0 <= q < new@.len() ==> #[trigger] new@[q].target < bound,
    ensures
        final(es)@ == add_new(old(es)@, new@),
        forall|q: int| 0 <= q < final(es)@.len() ==> #[trigger] final(es)@[q].target < bound,
{
    let mut k: usize = 0;
    while k < new.len()
        invariant
            k <= new@.len(),
            es@ == add_new(old(es)@, new@.take(k as int)),
            forall|q: int| 0 <= q < es@.len() ==> #[trigger] es@[q].target < bound,
            forall|q: int| 0 <= q < new@.len() ==> #[trigger] new@[q].target < bound,
        decreases new@.len() - k,
    {
        proof {
            assert(new@.take(k + 1).drop_last() =~= new@.take(k as int));
        }
        let e = new[k];
        if !contains_target(es, e.target) {
            es.push(e);
        }
        k = k + 1;
    }
    proof {
        assert(new@.take(k as int) =~= new@);
    }
}

proof fn lemma_walk_sweep_len(v: RepoView, m: Seq<bool>, s: Seq<bool>, k: int)
    ensures
        walk_sweep(v, m, s, k).len() == s.len(),
    decreases v.len() - k,
{
    if !(k >= v.len() || k < 0) {
        lemma_walk_sweep_len(v, m, s, k + 1);
    }
}

fn walk_from(v: &RepoView, m: &Vec<bool>, p: usize) -> (r: Vec<GraphEdge>)
    requires
        v.wf(),
        m@.len() == v.len(),
        p < v.len(),
    ensures
        r@ == walk_edges(*v, m@, p),
        forall|q: int| 0 <= q < r@.len() ==> #[trigger] r@[q].target < v.len(),
{
    let n = v.commits.len();
    let mut a: Vec<bool> = Vec::new();
    let mut i: usize = 0;
    while i < n
        invariant
            i <= n == v.len(),
            a@ == single_set(n as nat, p as int).take(i as int),
        decreases n - i,
    {
        a.push(i == p);
        proof {
            assert(a@ =~= single_set(n as nat, p as int).take(i + 1));
        }
        i = i + 1;
    }
    proof {
        assert(a@ =~= single_set(n as nat, p as int));
    }
    let ghost s = a@;
    let mut k: usize = n;
    while k > 0
        invariant
            v.wf(),
            k <= v.len(),
            n == v.len(),
            m@.len() == v.len(),
            s.len() == v.len(),
            a@ == walk_sweep(*v, m@, s, k as int),
        decreases k,
    {
        k = k - 1;
        proof {
            lemma_walk_sweep_len(*v, m@, s, k + 1);
        }
        if a[k] && !m[k] {
            let ps = &v.commits[k].parents;
            let mut q: usize = 0;
            let ghost a0 = a@;
            while q < ps.len()
                invariant
                    v.wf(),
                    k < v.len(),
                    ps@ == v.parents_of(k as int),
                    q <= ps@.len(),
                    a0.len() == v.len(),
                    a@ == mark_all(a0, ps@.take(q as int)),
                decreases ps@.len() - q,
            {
                assert(ps@[q as int] < k) by {
                    assert(v.parents_of(k as int)[q as int] < k);
                }
                let pq = ps[q];
                a.set(pq, true);
                proof {
                    let t = ps@.take(q + 1);
                    assert forall|x: int| 0 <= x < a@.len() implies #[trigger] a@[x] == mark_all(a0, t)[x] by {
                        if x != pq {
                            if crate::revset::listed(t, x) {
                                let j = choose|j: int| 0 <= j < t.len() && t[j] == x;
                                assert(ps@.take(q as int)[j] == x);
                            }
                        } else {
                            assert(t[q as int] == pq);
                        }
                    }
                    assert(a@ =~= mark_all(a0, t));
                }
                q = q + 1;
            }
            proof {
                assert(ps@.take(q as int) =~= ps@);
            }
        }
    }
    proof {
        lemma_walk_sweep_len(*v, m@, s, 0);
    }
    let mut reached: Vec<bool> = Vec::new();
    let mut j: usize = 0;
    while j < n
        invariant
            j <= n == v.len(),
            a@.len() == n,
            m@.len() == n,
            reached@ == inter_set(a@, m@).take(j as int),
        decreases n - j,
    {
        reached.push(a[j] && m[j]);
        proof {
            assert(reached@ =~= inter_set(a@, m@).take(j + 1));
        }
        j = j + 1;
    }
    proof {
        assert(reached@ =~= inter_set(a@, m@));
    }
    let targets = members_of(&reached);
    let mut out: Vec<GraphEdge> = Vec::new();
    if targets.len() == 0 {
        out.push(GraphEdge { target: p, edge_type: EdgeType::Missing });
        proof {
            assert(out@ =~= walk_edges(*v, m@, p));
        }
        return out;
    }
    let mut t: usize = 0;
    while t < targets.len()
        invariant
            t <= targets@.len(),
            out@ == targets@.take(t as int).map_values(|x: usize| GraphEdge { target: x, edge_type: EdgeType::Indirect }),
            forall|q: int| 0 <= q < targets@.len() ==> #[trigger] targets@[q] < v.len(),
            reached@.len() == v.len(),
            forall|q: int| 0 <= q < out@.len() ==> #[trigger] out@[q].target < v.len(),
        decreases targets@.len() - t,
    {
        out.push(GraphEdge { target: targets[t], edge_type: EdgeType::Indirect });
        proof {
            assert(out@ =~= targets@.take(t + 1).map_values(|x: usize| GraphEdge { target: x, edge_type: EdgeType::Indirect }));
        }
        t = t + 1;
    }
    proof {
        assert(targets@.take(t as int) =~= targets@);
    }
    out
}

impl RepoView {
    /// The edges of the member at position `i` of the set `m`.
    pub fn graph_edges(&self, m: &Vec<bool>, i: usize) -> (r: Vec<GraphEdge>)
        requires
            self.wf(),
            m@.len() == self.len(),
            i < self.len(),
        ensures
            r@ == edges_of(*self, m@, i as int),
            forall|q: int| 0 <= q < r@.len() ==> #[trigger] r@[q].target < self.len(),
    {
        let ps = &self.commits[i].parents;
        let mut es: Vec<GraphEdge> = Vec::new();
        let mut k: usize = 0;
        while k < ps.len()
            invariant
                self.wf(),
                i < self.len(),
                m@.len() == self.len(),
                ps@ == self.parents_of(i as int),
                k <= ps@.len(),
                es@ == direct_edges(m@, ps@.take(k as int)),
                forall|q: int| 0 <= q < es@.len() ==> #[trigger] es@[q].target < self.len(),
            decreases ps@.len() - k,
        {
            proof {
                assert(ps@.take(k + 1).drop_last() =~= ps@.take(k as int));
                assert(self.parents_of(i as int)[k as int] < i);
            }
            let p = ps[k];
            if m[p] && !contains_target(&es, p) {
                es.push(GraphEdge { target: p, edge_type: EdgeType::Direct });
            }
            k = k + 1;
        }
        proof {
            assert(ps@.take(k as int) =~= ps@);
        }
        let ghost d = es@;
        let mut k: usize = 0;
        while k < ps.len()
            invariant
                self.wf(),
                i < self.len(),
                m@.len() == self.len(),
                ps@ == self.parents_of(i as int),
                k <= ps@.len(),
                es@ == walk_all(*self, m@, ps@.take(k as int), d),
                forall|q: int| 0 <= q < es@.len() ==> #[trigger] es@[q].target < self.len(),
            decreases ps@.len() - k,
        {
            proof {
                assert(ps@.take(k + 1).drop_last() =~= ps@.take(k as int));
                assert(self.parents_of(i as int)[k as int] < i);
            }
            let p = ps[k];
            if !m[p] {
                let w = walk_from(self, m, p);
                push_new(&mut es, &w, self.commits.len());
            }
            k = k + 1;
        }
        proof {
            assert(ps@.take(k as int) =~= ps@);
        }
        es
    }
}


proof fn lemma_add_new_prefix(es: Seq<GraphEdge>, new: Seq<GraphEdge>)
    ensures
        add_new(es, new).len() >= es.len(),
        forall|j: int| 0 <= j < es.len() ==> #[trigger] add_new(es, new)[j] == es[j],
    decreases new.len(),
{
    if new.len() > 0 {
        lemma_add_new_prefix(es, new.drop_last());
    }
}

proof fn lemma_walk_all_prefix(v: RepoView, m: Seq<bool>, ps: Seq<usize>, acc: Seq<GraphEdge>)
    ensures
        walk_all(v, m, ps, acc).len() >= acc.len(),
        forall|j: int| 0 <= j < acc.len() ==> #[trigger] walk_all(v, m, ps, acc)[j] == acc[j],
    decreases ps.len(),
{
    if ps.len() > 0 {
        lemma_walk_all_prefix(v, m, ps.drop_last(), acc);
        let e = walk_all(v, m, ps.drop_last(), acc);
        if !m[ps.last() as int] {
            lemma_add_new_prefix(e, walk_edges(v, m, ps.last()));
        }
    }
}

proof fn lemma_direct_all(m: Seq<bool>, ps: Seq<usize>)
    ensures
        forall|j: int| 0 <= j < direct_edges(m, ps).len() ==> #[trigger] direct_edges(m, ps)[j].edge_type
            == EdgeType::Direct,
    decreases ps.len(),
{
    if ps.len() > 0 {
        lemma_direct_all(m, ps.drop_last());
    }
}

proof fn lemma_direct_edges(m: Seq<bool>, ps: Seq<usize>, k: int)
    requires
        0 <= k < ps.len(),
        m[ps[k] as int],
    ensures
        exists|j: int|
            0 <= j < direct_edges(m, ps).len() && #[trigger] direct_edges(m, ps)[j] == (GraphEdge {
                target: ps[k],
                edge_type: EdgeType::Direct,
            }),
    decreases ps.len(),
{
    let d = direct_edges(m, ps.drop_last());
    let full = direct_edges(m, ps);
    let want = GraphEdge { target: ps[k], edge_type: EdgeType::Direct };
    let p = ps.last();
    assert(full == d || full == d.push(GraphEdge { target: p, edge_type: EdgeType::Direct }));
    if k < ps.len() - 1 {
        lemma_direct_edges(m, ps.drop_last(), k);
        assert(ps.drop_last()[k] == ps[k]);
        let j = choose|j: int| 0 <= j < d.len() && #[trigger] d[j] == want;
        assert(full[j] == d[j]);
    } else {
        lemma_direct_all(m, ps.drop_last());
        if has_target(d, p) {
            let j = choose|j: int| 0 <= j < d.len() && #[trigger] d[j].target == p;
            assert(d[j].edge_type == EdgeType::Direct);
            assert(d[j] == want);
            assert(full[j] == d[j]);
        } else {
            assert(full == d.push(want));
            assert(full[d.len() as int] == want);
        }
    }
}

/// A parent that belongs to the set is joined to its child by a direct edge.
pub proof fn lemma_member_parent_is_direct(v: RepoView, m: Seq<bool>, i: int, k: int)
    requires
        0 <= i < v.len(),
        0 <= k < v.parents_of(i).len(),
        m[v.parents_of(i)[k] as int],
    ensures
        exists|j: int|
            0 <= j < edges_of(v, m, i).len() && #[trigger] edges_of(v, m, i)[j] == (GraphEdge {
                target: v.parents_of(i)[k],
                edge_type: EdgeType::Direct,
            }),
{
    let ps = v.parents_of(i);
    lemma_direct_edges(m, ps, k);
    let d = direct_edges(m, ps);
    let j = choose|j: int|
        0 <= j < d.len() && #[trigger] d[j] == (GraphEdge { target: ps[k], edge_type: EdgeType::Direct });
    lemma_walk_all_prefix(v, m, ps, d);
    assert(edges_of(v, m, i)[j] == d[j]);
}


proof fn lemma_walk_grows(v: RepoView, m: Seq<bool>, s: Seq<bool>, k1: int, k2: int, x: int)
    requires
        0 <= k1 <= k2,
        s.len() == v.len(),
        0 <= x < v.len(),
        walk_sweep(v, m, s, k2)[x],
    ensures
        walk_sweep(v, m, s, k1)[x],
    decreases k2 - k1,
{
    if k1 < k2 {
        lemma_walk_grows(v, m, s, k1 + 1, k2, x);
        lemma_walk_sweep_len(v, m, s, k1 + 1);
    }
}

proof fn lemma_walk_settled(v: RepoView, m: Seq<bool>, s: Seq<bool>, k: int, x: int)
    requires
        v.wf(),
        s.len() == v.len(),
        0 <= k <= x < v.len(),
    ensures
        walk_sweep(v, m, s, k)[x] == walk_sweep(v, m, s, x + 1)[x],
    decreases x - k,
{
    if k < x {
        lemma_walk_settled(v, m, s, k + 1, x);
    }
    lemma_walk_sweep_len(v, m, s, k + 1);
    if crate::revset::listed(v.parents_of(k), x) {
        let q = choose|q: int| 0 <= q < v.parents_of(k).len() && v.parents_of(k)[q] == x;
        assert(v.parents_of(k)[q] < k);
    }
}

/// The positions reached by walking from `p` through non-members.
pub open spec fn walk_marks(v: RepoView, m: Seq<bool>, p: usize) -> Seq<bool> {
    walk_sweep(v, m, single_set(v.len() as nat, p as int), 0)
}

proof fn lemma_walk_step(v: RepoView, m: Seq<bool>, p: usize, x: int, q: int)
    requires
        v.wf(),
        m.len() == v.len(),
        0 <= x < v.len(),
        walk_marks(v, m, p)[x],
        !m[x],
        0 <= q < v.parents_of(x).len(),
    ensures
        walk_marks(v, m, p)[v.parents_of(x)[q] as int],
{
    let s = single_set(v.len() as nat, p as int);
    lemma_walk_settled(v, m, s, 0, x);
    lemma_walk_sweep_len(v, m, s, x + 1);
    let y = v.parents_of(x)[q] as int;
    assert(y < x);
    assert(walk_sweep(v, m, s, x)[y]);
    lemma_walk_grows(v, m, s, 0, x, y);
}

/// A path from `path[0]` down through parents, every step but the last at
/// a position outside the set `m`.
pub open spec fn is_walk(v: RepoView, m: Seq<bool>, path: Seq<int>) -> bool {
    &&& path.len() >= 1
    &&& forall|j: int| 0 <= j < path.len() ==> 0 <= #[trigger] path[j] < v.len()
    &&& forall|j: int|
        0 <= j < path.len() - 1 ==> !m[#[trigger] path[j]] && is_parent(v, path[j], path[j + 1])
}

proof fn lemma_walk_reaches(v: RepoView, m: Seq<bool>, p: usize, path: Seq<int>)
    requires
        v.wf(),
        m.len() == v.len(),
        is_walk(v, m, path),
        path[0] == p,
    ensures
        walk_marks(v, m, p)[path.last()],
    decreases path.len(),
{
    let s = single_set(v.len() as nat, p as int);
    if path.len() == 1 {
        lemma_walk_sweep_len(v, m, s, 0);
        assert(walk_sweep(v, m, s, v.len())[p as int]);
        lemma_walk_grows(v, m, s, 0, v.len(), p as int);
    } else {
        let prev = path.drop_last();
        assert(is_walk(v, m, prev)) by {
            assert forall|j: int| 0 <= j < prev.len() - 1 implies !m[#[trigger] prev[j]] && is_parent(v, prev[j], prev[j + 1]) by {
                assert(prev[j] == path[j]);
                assert(prev[j + 1] == path[j + 1]);
            }
        }
        lemma_walk_reaches(v, m, p, prev);
        let x = prev.last();
        let j = path.len() - 2;
        assert(path[j] == x);
        assert(!m[x] && is_parent(v, x, path[j + 1]));
        let q = choose|q: int| 0 <= q < v.parents_of(x).len() && v.parents_of(x)[q] == path[j + 1];
        lemma_walk_step(v, m, p, x, q);
    }
}

proof fn lemma_members_from_has(mm: Seq<bool>, k: int, x: int)
    requires
        0 <= k <= x < mm.len(),
        mm[x],
        mm.len() <= usize::MAX,
    ensures
        exists|j: int| 0 <= j < members_from(mm, k).len() && members_from(mm, k)[j] == x,
    decreases x - k,
{
    let a = members_from(mm, k + 1);
    let b: Seq<usize> = if mm[k] {
        seq![k as usize]
    } else {
        Seq::empty()
    };
    assert(members_from(mm, k) == a + b);
    if k < x {
        lemma_members_from_has(mm, k + 1, x);
        let j = choose|j: int| 0 <= j < a.len() && a[j] == x;
        assert(members_from(mm, k)[j] == a[j]);
    } else {
        assert(members_from(mm, k)[a.len() as int] == x);
    }
}

proof fn lemma_add_new_has(es: Seq<GraphEdge>, new: Seq<GraphEdge>, j: int)
    requires
        0 <= j < new.len(),
    ensures
        has_target(add_new(es, new), new[j].target),
    decreases new.len(),
{
    let e = add_new(es, new.drop_last());
    if j < new.len() - 1 {
        lemma_add_new_has(es, new.drop_last(), j);
        let k = choose|k: int| 0 <= k < e.len() && #[trigger] e[k].target == new.drop_last()[j].target;
        lemma_add_new_prefix(e, seq![]);
        if !has_target(e, new.last().target) {
            assert(add_new(es, new) == e.push(new.last()));
            assert(add_new(es, new)[k] == e[k]);
        }
    } else {
        if !has_target(e, new.last().target) {
            assert(add_new(es, new)[e.len() as int] == new.last());
        }
    }
}

pub open spec fn in_edges(es: Seq<GraphEdge>, e: GraphEdge) -> bool {
    exists|a: int| 0 <= a < es.len() && es[a] == e
}

/// Every edge of `add_new(es, new)` is one of `es` or one of `new`.
proof fn lemma_add_new_from(es: Seq<GraphEdge>, new: Seq<GraphEdge>)
    ensures
        forall|k: int|
            0 <= k < add_new(es, new).len() ==> in_edges(es, #[trigger] add_new(es, new)[k]) || in_edges(
                new,
                add_new(es, new)[k],
            ),
    decreases new.len(),
{
    if new.len() > 0 {
        let rest = new.drop_last();
        lemma_add_new_from(es, rest);
        let e = add_new(es, rest);
        assert(add_new(es, new) == e || add_new(es, new) == e.push(new.last()));
        assert forall|k: int| 0 <= k < add_new(es, new).len() implies in_edges(es, #[trigger] add_new(es, new)[k])
            || in_edges(new, add_new(es, new)[k]) by {
            if k < e.len() {
                assert(add_new(es, new)[k] == e[k]);
                assert(in_edges(es, e[k]) || in_edges(rest, e[k]));
                if in_edges(rest, e[k]) {
                    let b = choose|b: int| 0 <= b < rest.len() && rest[b] == e[k];
                    assert(new[b] == rest[b]);
                }
            } else {
                assert(add_new(es, new)[k] == new.last());
                assert(new[new.len() - 1] == new.last());
            }
        }
    } else {
        assert forall|k: int| 0 <= k < add_new(es, new).len() implies in_edges(es, #[trigger] add_new(es, new)[k])
            || in_edges(new, add_new(es, new)[k]) by {
            assert(es[k] == add_new(es, new)[k]);
        }
    }
}

/// An edge that a walk gives: indirect to a member, or missing to a
/// non-member parent.
pub open spec fn walk_edge_ok(m: Seq<bool>, e: GraphEdge) -> bool {
    (e.edge_type == EdgeType::Indirect && m[e.target as int]) || (e.edge_type == EdgeType::Missing
        && !m[e.target as int])
}

proof fn lemma_walk_edges_ok(v: RepoView, m: Seq<bool>, p: usize)
    requires
        m.len() == v.len(),
        !m[p as int],
        v.len() <= usize::MAX,
    ensures
        forall|j: int| 0 <= j < walk_edges(v, m, p).len() ==> walk_edge_ok(m, #[trigger] walk_edges(v, m, p)[j]),
{
    let t = walk_targets(v, m, p);
    let inter = inter_set(walk_sweep(v, m, single_set(v.len() as nat, p as int), 0), m);
    lemma_walk_sweep_len(v, m, single_set(v.len() as nat, p as int), 0);
    if t.len() > 0 {
        assert forall|j: int| 0 <= j < walk_edges(v, m, p).len() implies walk_edge_ok(m, #[trigger] walk_edges(v, m, p)[j]) by {
            crate::revset::lemma_members_in_range(inter);
            lemma_members_true(inter, 0);
            assert(inter[t[j] as int]);
        }
    }
}

proof fn lemma_members_true(mm: Seq<bool>, k: int)
    requires
        0 <= k,
        mm.len() <= usize::MAX,
    ensures
        forall|j: int| 0 <= j < members_from(mm, k).len() ==> mm[#[trigger] members_from(mm, k)[j] as int],
    decreases mm.len() - k,
{
    if k < mm.len() {
        lemma_members_true(mm, k + 1);
        let a = members_from(mm, k + 1);
        let b: Seq<usize> = if mm[k] {
            seq![k as usize]
        } else {
            Seq::empty()
        };
        assert(members_from(mm, k) == a + b);
        assert forall|j: int| 0 <= j < members_from(mm, k).len() implies mm[#[trigger] members_from(mm, k)[j] as int] by {
            if j < a.len() {
                assert(members_from(mm, k)[j] == a[j]);
            } else {
                assert(members_from(mm, k)[j] == b[j - a.len()]);
            }
        }
    }
}


proof fn lemma_walk_all_from(v: RepoView, m: Seq<bool>, ps: Seq<usize>, acc: Seq<GraphEdge>)
    requires
        m.len() == v.len(),
        v.len() <= usize::MAX,
    ensures
        forall|k: int|
            0 <= k < walk_all(v, m, ps, acc).len() ==> in_edges(acc, #[trigger] walk_all(v, m, ps, acc)[k])
                || walk_edge_ok(m, walk_all(v, m, ps, acc)[k]),
    decreases ps.len(),
{
    if ps.len() > 0 {
        let rest = ps.drop_last();
        lemma_walk_all_from(v, m, rest, acc);
        let e = walk_all(v, m, rest, acc);
        let p = ps.last();
        if !m[p as int] {
            let w = walk_edges(v, m, p);
            lemma_add_new_from(e, w);
            lemma_walk_edges_ok(v, m, p);
            assert forall|k: int| 0 <= k < walk_all(v, m, ps, acc).len() implies in_edges(acc, #[trigger] walk_all(v, m, ps, acc)[k])
                || walk_edge_ok(m, walk_all(v, m, ps, acc)[k]) by {
                let x = walk_all(v, m, ps, acc)[k];
                assert(x == add_new(e, w)[k]);
                if in_edges(e, x) {
                    let a = choose|a: int| 0 <= a < e.len() && e[a] == x;
                    assert(in_edges(acc, e[a]) || walk_edge_ok(m, e[a]));
                } else {
                    let b = choose|b: int| 0 <= b < w.len() && w[b] == x;
                    assert(walk_edge_ok(m, w[b]));
                }
            }
        }
    }
}

proof fn lemma_walk_all_has(v: RepoView, m: Seq<bool>, ps: Seq<usize>, acc: Seq<GraphEdge>, k: int, j: int)
    requires
        0 <= k < ps.len(),
        !m[ps[k] as int],
        0 <= j < walk_edges(v, m, ps[k]).len(),
    ensures
        has_target(walk_all(v, m, ps, acc), walk_edges(v, m, ps[k])[j].target),
    decreases ps.len(),
{
    let rest = ps.drop_last();
    let e = walk_all(v, m, rest, acc);
    let t = walk_edges(v, m, ps[k])[j].target;
    if k < ps.len() - 1 {
        assert(rest[k] == ps[k]);
        lemma_walk_all_has(v, m, rest, acc, k, j);
        if !m[ps.last() as int] {
            let w = walk_edges(v, m, ps.last());
            lemma_add_new_prefix(e, w);
            let a = choose|a: int| 0 <= a < e.len() && #[trigger] e[a].target == t;
            assert(walk_all(v, m, ps, acc)[a] == e[a]);
        }
    } else {
        lemma_add_new_has(e, walk_edges(v, m, ps[k]), j);
    }
}

proof fn lemma_direct_members(m: Seq<bool>, ps: Seq<usize>)
    ensures
        forall|j: int|
            0 <= j < direct_edges(m, ps).len() ==> m[#[trigger] direct_edges(m, ps)[j].target as int]
                && crate::revset::listed(ps, direct_edges(m, ps)[j].target as int),
    decreases ps.len(),
{
    if ps.len() > 0 {
        let rest = ps.drop_last();
        lemma_direct_members(m, rest);
        let d = direct_edges(m, rest);
        assert forall|j: int| 0 <= j < direct_edges(m, ps).len() implies m[#[trigger] direct_edges(m, ps)[j].target as int]
            && crate::revset::listed(ps, direct_edges(m, ps)[j].target as int) by {
            if j < d.len() {
                assert(direct_edges(m, ps)[j] == d[j]);
                let q = choose|q: int| 0 <= q < rest.len() && rest[q] == d[j].target as int;
                assert(ps[q] == rest[q]);
            } else {
                assert(ps[ps.len() - 1] == ps.last());
            }
        }
    }
}

/// A member that a walk reaches from a parent of `i` outside the set,
/// through positions outside the set, has an edge from `i`; that edge is
/// indirect unless the member is itself a parent of `i`.
pub proof fn lemma_reached_member_has_edge(v: RepoView, m: Seq<bool>, i: int, k: int, path: Seq<int>)
    requires
        v.wf(),
        m.len() == v.len(),
        v.len() <= usize::MAX,
        0 <= i < v.len(),
        0 <= k < v.parents_of(i).len(),
        !m[v.parents_of(i)[k] as int],
        is_walk(v, m, path),
        path[0] == v.parents_of(i)[k],
        m[path.last()],
    ensures
        has_target(edges_of(v, m, i), path.last() as usize),
        !is_parent(v, i, path.last()) ==> forall|j: int|
            0 <= j < edges_of(v, m, i).len() && edges_of(v, m, i)[j].target == path.last() ==> #[trigger] edges_of(
                v,
                m,
                i,
            )[j].edge_type == EdgeType::Indirect,
{
    let ps = v.parents_of(i);
    let p = ps[k];
    let a = path.last();
    assert(p < i);
    lemma_walk_reaches(v, m, p, path);
    let s = single_set(v.len() as nat, p as int);
    lemma_walk_sweep_len(v, m, s, 0);
    let inter = inter_set(walk_sweep(v, m, s, 0), m);
    assert(0 <= a < v.len());
    assert(inter[a]);
    lemma_members_from_has(inter, 0, a);
    let t = walk_targets(v, m, p);
    let jt = choose|jt: int| 0 <= jt < t.len() && t[jt] == a;
    let w = walk_edges(v, m, p);
    assert(w[jt] == (GraphEdge { target: a as usize, edge_type: EdgeType::Indirect }));
    let d = direct_edges(m, ps);
    lemma_walk_all_has(v, m, ps, d, k, jt);
    lemma_walk_all_from(v, m, ps, d);
    lemma_direct_members(m, ps);
    lemma_direct_all(m, ps);
    if !is_parent(v, i, a) {
        assert forall|j: int|
            0 <= j < edges_of(v, m, i).len() && edges_of(v, m, i)[j].target == a implies #[trigger] edges_of(
                v,
                m,
                i,
            )[j].edge_type == EdgeType::Indirect by {
            let x = edges_of(v, m, i)[j];
            if in_edges(d, x) {
                let b = choose|b: int| 0 <= b < d.len() && d[b] == x;
                assert(crate::revset::listed(ps, d[b].target as int));
                let q = choose|q: int| 0 <= q < ps.len() && ps[q] == d[b].target as int;
                assert(is_parent(v, i, a));
            } else {
                assert(walk_edge_ok(m, x));
            }
        }
    }
}

} // verus!
