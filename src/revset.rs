//! Revision sets: an expression tree over the commit graph and its
//! evaluation against a repository view. A set is a membership mark per
//! commit position; results list members from the newest position down.

use vstd::prelude::*;

use crate::repo::{resolve_symbol, EngineError, RepoView, chars_eq};
use crate::text::chars_of;

verus! {

/// A revision set expression with its symbols not yet resolved.
#[derive(Debug)]
pub enum Expr {
    All,
    Root,
    WorkingCopy,
    VisibleHeads,
    Bookmarks,
    Tags,
    /// Remote bookmarks, optionally only those of one name and of one remote.
    RemoteBookmarks(Option<Vec<char>>, Option<Vec<char>>),
    /// Remote bookmarks that no local bookmark tracks.
    UntrackedRemoteBookmarks,
    /// Commits whose author email contains the text.
    AuthorEmail(Vec<char>),
    /// A bookmark, tag or id prefix.
    Symbol(Vec<char>),
    Union(Box<Expr>, Box<Expr>),
    Intersection(Box<Expr>, Box<Expr>),
    Difference(Box<Expr>, Box<Expr>),
    /// Ancestors, the operand included; with a depth, only that many generations.
    Ancestors(Box<Expr>, Option<usize>),
    /// Descendants, the operand included.
    Descendants(Box<Expr>),
    /// `x..y`: ancestors of `y` that are not ancestors of `x`.
    Range(Box<Expr>, Box<Expr>),
    /// `x::y`: descendants of `x` that are ancestors of `y`.
    DagRange(Box<Expr>, Box<Expr>),
    /// The member with the latest committer time.
    Latest(Box<Expr>),
    /// The operand, or nothing where it names what does not exist.
    Present(Box<Expr>),
}

/// An expression as a value: `Expr` with its texts as character sequences.
pub enum ExprV {
    All,
    Root,
    WorkingCopy,
    VisibleHeads,
    Bookmarks,
    Tags,
    RemoteBookmarks(Option<Seq<char>>, Option<Seq<char>>),
    UntrackedRemoteBookmarks,
    AuthorEmail(Seq<char>),
    Symbol(Seq<char>),
    Union(Box<ExprV>, Box<ExprV>),
    Intersection(Box<ExprV>, Box<ExprV>),
    Difference(Box<ExprV>, Box<ExprV>),
    Ancestors(Box<ExprV>, Option<nat>),
    Descendants(Box<ExprV>),
    Range(Box<ExprV>, Box<ExprV>),
    DagRange(Box<ExprV>, Box<ExprV>),
    Latest(Box<ExprV>),
    Present(Box<ExprV>),
}

pub open spec fn view_of(e: Expr) -> ExprV
    decreases e,
{
    match e {
        Expr::All => ExprV::All,
        Expr::Root => ExprV::Root,
        Expr::WorkingCopy => ExprV::WorkingCopy,
        Expr::VisibleHeads => ExprV::VisibleHeads,
        Expr::Bookmarks => ExprV::Bookmarks,
        Expr::Tags => ExprV::Tags,
        Expr::RemoteBookmarks(a, b) => ExprV::RemoteBookmarks(opt_view(a), opt_view(b)),
        Expr::UntrackedRemoteBookmarks => ExprV::UntrackedRemoteBookmarks,
        Expr::AuthorEmail(p) => ExprV::AuthorEmail(p@),
        Expr::Symbol(s) => ExprV::Symbol(s@),
        Expr::Union(a, b) => ExprV::Union(Box::new(view_of(*a)), Box::new(view_of(*b))),
        Expr::Intersection(a, b) => ExprV::Intersection(Box::new(view_of(*a)), Box::new(view_of(*b))),
        Expr::Difference(a, b) => ExprV::Difference(Box::new(view_of(*a)), Box::new(view_of(*b))),
        Expr::Ancestors(a, d) => ExprV::Ancestors(
            Box::new(view_of(*a)),
            match d {
                Some(x) => Some(x as nat),
                None => None,
            },
        ),
        Expr::Descendants(a) => ExprV::Descendants(Box::new(view_of(*a))),
        Expr::Range(a, b) => ExprV::Range(Box::new(view_of(*a)), Box::new(view_of(*b))),
        Expr::DagRange(a, b) => ExprV::DagRange(Box::new(view_of(*a)), Box::new(view_of(*b))),
        Expr::Latest(a) => ExprV::Latest(Box::new(view_of(*a))),
        Expr::Present(a) => ExprV::Present(Box::new(view_of(*a))),
    }
}

pub open spec fn empty_set(n: nat) -> Seq<bool> {
    Seq::new(n, |i: int| false)
}

pub open spec fn single_set(n: nat, k: int) -> Seq<bool> {
    Seq::new(n, |i: int| i == k)
}

pub open spec fn visible_set(v: RepoView) -> Seq<bool> {
    Seq::new(v.len() as nat, |i: int| v.visible(i))
}

pub open spec fn union_set(a: Seq<bool>, b: Seq<bool>) -> Seq<bool> {
    Seq::new(a.len(), |i: int| a[i] || b[i])
}

pub open spec fn inter_set(a: Seq<bool>, b: Seq<bool>) -> Seq<bool> {
    Seq::new(a.len(), |i: int| a[i] && b[i])
}

pub open spec fn minus_set(a: Seq<bool>, b: Seq<bool>) -> Seq<bool> {
    Seq::new(a.len(), |i: int| a[i] && !b[i])
}

/// `a` with every listed position marked too.
pub open spec fn mark_all(a: Seq<bool>, ps: Seq<usize>) -> Seq<bool> {
    Seq::new(a.len(), |i: int| a[i] || listed(ps, i))
}

/// `i` occurs in the list.
pub open spec fn listed(ps: Seq<usize>, i: int) -> bool {
    exists|k: int| 0 <= k < ps.len() && ps[k] == i
}

pub open spec fn parent_of_member_below(v: RepoView, a: Seq<bool>, j: int, i: int) -> bool {
    exists|jj: int| 0 <= jj < j && a[jj] && #[trigger] is_parent(v, jj, i)
}

pub open spec fn remote_listed_below(
    v: RepoView,
    name: Option<Seq<char>>,
    remote: Option<Seq<char>>,
    k: int,
    i: int,
) -> bool {
    exists|t: int|
        0 <= t < k && #[trigger] v.remote_bookmarks@[t].target == i && remote_matches(
            v.remote_bookmarks@[t],
            name,
            remote,
        )
}

pub open spec fn targets_set(n: nat, ts: Seq<usize>) -> Seq<bool> {
    mark_all(empty_set(n), ts)
}

/// `i` is a parent of `j`.
pub open spec fn is_parent(v: RepoView, j: int, i: int) -> bool {
    exists|k: int| 0 <= k < v.parents_of(j).len() && v.parents_of(j)[k] == i
}

/// Visible commits without a visible child.
pub open spec fn heads_set(v: RepoView) -> Seq<bool> {
    Seq::new(
        v.len() as nat,
        |i: int| v.visible(i) && forall|j: int| #[trigger] v.visible(j) ==> !is_parent(v, j, i),
    )
}

pub open spec fn ref_targets(refs: Seq<crate::repo::NamedRef>) -> Seq<usize> {
    refs.map_values(|r: crate::repo::NamedRef| r.target)
}

pub open spec fn remote_matches(r: crate::repo::RemoteRef, name: Option<Seq<char>>, remote: Option<Seq<char>>) -> bool {
    &&& (name is Some ==> r.name@ == name.unwrap())
    &&& (remote is Some ==> r.remote@ == remote.unwrap())
}

pub open spec fn remote_set(v: RepoView, name: Option<Seq<char>>, remote: Option<Seq<char>>) -> Seq<bool> {
    Seq::new(
        v.len() as nat,
        |i: int|
            exists|k: int|
                0 <= k < v.remote_bookmarks@.len() && #[trigger] v.remote_bookmarks@[k].target == i
                    && remote_matches(v.remote_bookmarks@[k], name, remote),
    )
}

/// Targets of the remote bookmarks that are not tracked.
pub open spec fn untracked_set(v: RepoView) -> Seq<bool> {
    Seq::new(
        v.len() as nat,
        |i: int|
            exists|k: int|
                0 <= k < v.remote_bookmarks@.len() && #[trigger] v.remote_bookmarks@[k].target == i
                    && !v.remote_bookmarks@[k].is_tracked,
    )
}

pub open spec fn contains_text(s: Seq<char>, p: Seq<char>) -> bool {
    exists|k: int| 0 <= k && k + p.len() <= s.len() && #[trigger] s.subrange(k, k + p.len()) == p
}

pub open spec fn author_set(v: RepoView, p: Seq<char>) -> Seq<bool> {
    Seq::new(
        v.len() as nat,
        |i: int| v.visible(i) && contains_text(v.commits@[i].author.email@, p),
    )
}

/// Marks after propagating membership from positions `k` and above to their
/// parents, the highest position first.
pub open spec fn anc_sweep(v: RepoView, m: Seq<bool>, k: int) -> Seq<bool>
    decreases v.len() - k,
{
    if k >= v.len() || k < 0 {
        m
    } else {
        let a = anc_sweep(v, m, k + 1);
        if a[k] {
            mark_all(a, v.parents_of(k))
        } else {
            a
        }
    }
}

/// Members and all their ancestors.
pub open spec fn ancestors_set(v: RepoView, m: Seq<bool>) -> Seq<bool> {
    anc_sweep(v, m, 0)
}

pub open spec fn any_marked(a: Seq<bool>, ps: Seq<usize>) -> bool {
    exists|q: int| 0 <= q < ps.len() && a[ps[q] as int]
}

/// Marks after propagating membership from parents to children over the
/// positions below `k`, the lowest first.
pub open spec fn desc_sweep(v: RepoView, m: Seq<bool>, k: int) -> Seq<bool>
    decreases k,
{
    if k <= 0 || k > m.len() {
        m
    } else {
        let a = desc_sweep(v, m, k - 1);
        a.update(k - 1, a[k - 1] || any_marked(a, v.parents_of(k - 1)))
    }
}

/// Members and all their visible descendants.
pub open spec fn descendants_set(v: RepoView, m: Seq<bool>) -> Seq<bool> {
    inter_set(desc_sweep(v, m, v.len()), visible_set(v))
}

/// Positions that are a parent of some member.
pub open spec fn parents_set(v: RepoView, a: Seq<bool>) -> Seq<bool> {
    Seq::new(
        v.len() as nat,
        |i: int| exists|j: int| 0 <= j < v.len() && a[j] && #[trigger] is_parent(v, j, i),
    )
}

/// Members and their ancestors up to `d - 1` generations back.
pub open spec fn ancestors_depth_set(v: RepoView, m: Seq<bool>, d: nat) -> Seq<bool>
    decreases d,
{
    if d == 0 {
        empty_set(v.len() as nat)
    } else if d == 1 {
        m
    } else {
        let a = ancestors_depth_set(v, m, (d - 1) as nat);
        union_set(a, parents_set(v, a))
    }
}

/// The member below position `k` with the latest committer time; the
/// higher position wins a tie.
pub open spec fn latest_below(v: RepoView, m: Seq<bool>, k: int) -> Option<int>
    decreases k,
{
    if k <= 0 {
        None
    } else {
        let b = latest_below(v, m, k - 1);
        if m[k - 1] && (b is None || v.commits@[b.unwrap()].committer.timestamp_ms
            <= v.commits@[k - 1].committer.timestamp_ms) {
            Some(k - 1)
        } else {
            b
        }
    }
}

pub open spec fn latest_set(v: RepoView, m: Seq<bool>) -> Seq<bool> {
    match latest_below(v, m, v.len()) {
        Some(k) => single_set(v.len() as nat, k),
        None => empty_set(v.len() as nat),
    }
}

/// The set an expression denotes in a view, or the first failure to
/// resolve one of its symbols (left operand first).
pub open spec fn eval(v: RepoView, e: Expr) -> Result<Seq<bool>, EngineError>
    decreases e,
{
    let n = v.len() as nat;
    match e {
        Expr::All => Ok(visible_set(v)),
        Expr::Root => Ok(single_set(n, 0)),
        Expr::WorkingCopy => Ok(single_set(n, v.wc as int)),
        Expr::VisibleHeads => Ok(heads_set(v)),
        Expr::Bookmarks => Ok(targets_set(n, ref_targets(v.bookmarks@))),
        Expr::Tags => Ok(targets_set(n, ref_targets(v.tags@))),
        Expr::RemoteBookmarks(name, remote) => Ok(remote_set(v, opt_view(name), opt_view(remote))),
        Expr::UntrackedRemoteBookmarks => Ok(untracked_set(v)),
        Expr::AuthorEmail(p) => Ok(author_set(v, p@)),
        Expr::Symbol(s) => match resolve_symbol(v, s@) {
            Ok(i) => Ok(single_set(n, i)),
            Err(x) => Err(x),
        },
        Expr::Union(a, b) => match eval(v, *a) {
            Err(x) => Err(x),
            Ok(x) => match eval(v, *b) {
                Err(y) => Err(y),
                Ok(y) => Ok(union_set(x, y)),
            },
        },
        Expr::Intersection(a, b) => match eval(v, *a) {
            Err(x) => Err(x),
            Ok(x) => match eval(v, *b) {
                Err(y) => Err(y),
                Ok(y) => Ok(inter_set(x, y)),
            },
        },
        Expr::Difference(a, b) => match eval(v, *a) {
            Err(x) => Err(x),
            Ok(x) => match eval(v, *b) {
                Err(y) => Err(y),
                Ok(y) => Ok(minus_set(x, y)),
            },
        },
        Expr::Ancestors(a, depth) => match eval(v, *a) {
            Err(x) => Err(x),
            Ok(x) => match depth {
                None => Ok(ancestors_set(v, x)),
                Some(d) => Ok(ancestors_depth_set(v, x, d as nat)),
            },
        },
        Expr::Descendants(a) => match eval(v, *a) {
            Err(x) => Err(x),
            Ok(x) => Ok(descendants_set(v, x)),
        },
        Expr::Range(a, b) => match eval(v, *a) {
            Err(x) => Err(x),
            Ok(x) => match eval(v, *b) {
                Err(y) => Err(y),
                Ok(y) => Ok(minus_set(ancestors_set(v, y), ancestors_set(v, x))),
            },
        },
        Expr::DagRange(a, b) => match eval(v, *a) {
            Err(x) => Err(x),
            Ok(x) => match eval(v, *b) {
                Err(y) => Err(y),
                Ok(y) => Ok(inter_set(descendants_set(v, x), ancestors_set(v, y))),
            },
        },
        Expr::Latest(a) => match eval(v, *a) {
            Err(x) => Err(x),
            Ok(x) => Ok(latest_set(v, x)),
        },
        Expr::Present(a) => match eval(v, *a) {
            Ok(x) => Ok(x),
            Err(_) => Ok(empty_set(n)),
        },
    }
}

/// Two expressions with the same value denote the same set.
pub proof fn lemma_eval_by_view(v: RepoView, e1: Expr, e2: Expr)
    requires
        view_of(e1) == view_of(e2),
    ensures
        eval(v, e1) == eval(v, e2),
    decreases e1,
{
    match e1 {
        Expr::Union(a, b) => match e2 {
            Expr::Union(c, d) => {
                lemma_eval_by_view(v, *a, *c);
                lemma_eval_by_view(v, *b, *d);
            },
            _ => {},
        },
        Expr::Intersection(a, b) => match e2 {
            Expr::Intersection(c, d) => {
                lemma_eval_by_view(v, *a, *c);
                lemma_eval_by_view(v, *b, *d);
            },
            _ => {},
        },
        Expr::Difference(a, b) => match e2 {
            Expr::Difference(c, d) => {
                lemma_eval_by_view(v, *a, *c);
                lemma_eval_by_view(v, *b, *d);
            },
            _ => {},
        },
        Expr::Range(a, b) => match e2 {
            Expr::Range(c, d) => {
                lemma_eval_by_view(v, *a, *c);
                lemma_eval_by_view(v, *b, *d);
            },
            _ => {},
        },
        Expr::DagRange(a, b) => match e2 {
            Expr::DagRange(c, d) => {
                lemma_eval_by_view(v, *a, *c);
                lemma_eval_by_view(v, *b, *d);
            },
            _ => {},
        },
        Expr::Ancestors(a, x) => match e2 {
            Expr::Ancestors(c, y) => {
                lemma_eval_by_view(v, *a, *c);
                assert(x == y);
            },
            _ => {},
        },
        Expr::Descendants(a) => match e2 {
            Expr::Descendants(c) => {
                lemma_eval_by_view(v, *a, *c);
            },
            _ => {},
        },
        Expr::Latest(a) => match e2 {
            Expr::Latest(c) => {
                lemma_eval_by_view(v, *a, *c);
            },
            _ => {},
        },
        Expr::Present(a) => match e2 {
            Expr::Present(c) => {
                lemma_eval_by_view(v, *a, *c);
            },
            _ => {},
        },
        _ => {},
    }
}

/// The members at position `k` and above, highest first.
pub open spec fn members_from(m: Seq<bool>, k: int) -> Seq<usize>
    decreases m.len() - k,
{
    if k >= m.len() || k < 0 {
        Seq::empty()
    } else {
        members_from(m, k + 1) + if m[k] {
            seq![k as usize]
        } else {
            Seq::empty()
        }
    }
}

/// The members of a set, highest position (newest) first.
pub open spec fn ordered_members(m: Seq<bool>) -> Seq<usize> {
    members_from(m, 0)
}


proof fn lemma_anc_sweep_len(v: RepoView, m: Seq<bool>, k: int)
    ensures
        anc_sweep(v, m, k).len() == m.len(),
    decreases v.len() - k,
{
    if !(k >= v.len() || k < 0) {
        lemma_anc_sweep_len(v, m, k + 1);
    }
}

proof fn lemma_desc_sweep_len(v: RepoView, m: Seq<bool>, k: int)
    ensures
        desc_sweep(v, m, k).len() == m.len(),
    decreases k,
{
    if k > 0 && k <= m.len() {
        lemma_desc_sweep_len(v, m, k - 1);
    }
}

fn mark_positions(a: &mut Vec<bool>, ps: &Vec<usize>)
    requires
        forall|k: int| 0 <= k < ps@.len() ==> #[trigger] ps@[k] < old(a)@.len(),
    ensures
        final(a)@ == mark_all(old(a)@, ps@),
{
    let mut j: usize = 0;
    while j < ps.len()
        invariant
            j <= ps@.len(),
            a@.len() == old(a)@.len(),
            forall|k: int| 0 <= k < ps@.len() ==> #[trigger] ps@[k] < old(a)@.len(),
            a@ == mark_all(old(a)@, ps@.take(j as int)),
        decreases ps@.len() - j,
    {
        let p = ps[j];
        a.set(p, true);
        proof {
            let t = ps@.take(j + 1);
            assert(t[j as int] == p);
            assert forall|i: int| 0 <= i < a@.len() implies #[trigger] a@[i] == mark_all(old(a)@, t)[i] by {
                if i != p {
                    if exists|k: int| 0 <= k < t.len() && t[k] == i {
                        let k = choose|k: int| 0 <= k < t.len() && t[k] == i;
                        assert(ps@.take(j as int)[k] == i);
                    }
                }
            }
            assert(a@ =~= mark_all(old(a)@, t));
        }
        j = j + 1;
    }
    proof {
        assert(ps@.take(j as int) =~= ps@);
    }
}

pub(crate) fn new_marks(n: usize) -> (r: Vec<bool>)
    ensures
        r@ == empty_set(n as nat),
{
    let mut r: Vec<bool> = Vec::new();
    let mut i: usize = 0;
    while i < n
        invariant
            i <= n,
            r@ == empty_set(i as nat),
        decreases n - i,
    {
        r.push(false);
        proof {
            assert(r@ =~= empty_set((i + 1) as nat));
        }
        i = i + 1;
    }
    r
}

pub(crate) fn union_marks(a: &Vec<bool>, b: &Vec<bool>) -> (r: Vec<bool>)
    requires
        a@.len() == b@.len(),
    ensures
        r@ == union_set(a@, b@),
{
    let mut r: Vec<bool> = Vec::new();
    let mut i: usize = 0;
    while i < a.len()
        invariant
            i <= a@.len() == b@.len(),
            r@ == union_set(a@, b@).take(i as int),
        decreases a@.len() - i,
    {
        r.push(a[i] || b[i]);
        proof {
            assert(r@ =~= union_set(a@, b@).take(i + 1));
        }
        i = i + 1;
    }
    proof {
        assert(union_set(a@, b@).take(i as int) =~= union_set(a@, b@));
    }
    r
}

fn inter_marks(a: &Vec<bool>, b: &Vec<bool>) -> (r: Vec<bool>)
    requires
        a@.len() == b@.len(),
    ensures
        r@ == inter_set(a@, b@),
{
    let mut r: Vec<bool> = Vec::new();
    let mut i: usize = 0;
    while i < a.len()
        invariant
            i <= a@.len() == b@.len(),
            r@ == inter_set(a@, b@).take(i as int),
        decreases a@.len() - i,
    {
        r.push(a[i] && b[i]);
        proof {
            assert(r@ =~= inter_set(a@, b@).take(i + 1));
        }
        i = i + 1;
    }
    proof {
        assert(inter_set(a@, b@).take(i as int) =~= inter_set(a@, b@));
    }
    r
}

fn minus_marks(a: &Vec<bool>, b: &Vec<bool>) -> (r: Vec<bool>)
    requires
        a@.len() == b@.len(),
    ensures
        r@ == minus_set(a@, b@),
{
    let mut r: Vec<bool> = Vec::new();
    let mut i: usize = 0;
    while i < a.len()
        invariant
            i <= a@.len() == b@.len(),
            r@ == minus_set(a@, b@).take(i as int),
        decreases a@.len() - i,
    {
        r.push(a[i] && !b[i]);
        proof {
            assert(r@ =~= minus_set(a@, b@).take(i + 1));
        }
        i = i + 1;
    }
    proof {
        assert(minus_set(a@, b@).take(i as int) =~= minus_set(a@, b@));
    }
    r
}

pub(crate) fn ancestors_marks(v: &RepoView, m: &Vec<bool>) -> (r: Vec<bool>)
    requires
        v.wf(),
        m@.len() == v.len(),
    ensures
        r@ == ancestors_set(*v, m@),
        r@.len() == v.len(),
{
    let mut a = m.clone();
    proof {
        assert(a@ =~= m@);
    }
    let mut k: usize = v.commits.len();
    while k > 0
        invariant
            v.wf(),
            k <= v.len(),
            m@.len() == v.len(),
            a@ == anc_sweep(*v, m@, k as int),
        decreases k,
    {
        k = k - 1;
        proof {
            lemma_anc_sweep_len(*v, m@, k + 1);
        }
        if a[k] {
            let ps = &v.commits[k].parents;
            proof {
                assert forall|q: int| 0 <= q < ps@.len() implies #[trigger] ps@[q] < a@.len() by {
                    assert(v.parents_of(k as int)[q] < k);
                }
            }
            mark_positions(&mut a, ps);
        }
    }
    proof {
        lemma_anc_sweep_len(*v, m@, k as int);
    }
    a
}

fn descendants_marks(v: &RepoView, m: &Vec<bool>) -> (r: Vec<bool>)
    requires
        v.wf(),
        m@.len() == v.len(),
    ensures
        r@ == descendants_set(*v, m@),
        r@.len() == v.len(),
{
    let mut a = m.clone();
    proof {
        assert(a@ =~= m@);
    }
    let mut k: usize = 0;
    while k < v.commits.len()
        invariant
            v.wf(),
            k <= v.len(),
            m@.len() == v.len(),
            a@ == desc_sweep(*v, m@, k as int),
        decreases v.len() - k,
    {
        proof {
            lemma_desc_sweep_len(*v, m@, k as int);
        }
        let ps = &v.commits[k].parents;
        let mut hit = a[k];
        let mut q: usize = 0;
        while q < ps.len() && !hit
            invariant
                v.wf(),
                k < v.len(),
                a@.len() == v.len(),
                ps@ == v.parents_of(k as int),
                q <= ps@.len(),
                hit == (a@[k as int] || exists|t: int| 0 <= t < q && a@[ps@[t] as int]),
            decreases ps@.len() - q,
        {
            assert(ps@[q as int] < k) by {
                assert(v.parents_of(k as int)[q as int] < k);
            }
            if a[ps[q]] {
                hit = true;
            }
            q = q + 1;
        }
        proof {
            assert(hit == (a@[k as int] || any_marked(a@, v.parents_of(k as int))));
        }
        a.set(k, hit);
        k = k + 1;
    }
    proof {
        lemma_desc_sweep_len(*v, m@, k as int);
        lemma_anc_sweep_len(*v, m@, 0);
    }
    let vis = visible_marks(v);
    inter_marks(&a, &vis)
}

fn visible_marks(v: &RepoView) -> (r: Vec<bool>)
    ensures
        r@ == visible_set(*v),
        r@.len() == v.len(),
{
    let mut r: Vec<bool> = Vec::new();
    let mut i: usize = 0;
    while i < v.commits.len()
        invariant
            i <= v.len(),
            r@ == visible_set(*v).take(i as int),
        decreases v.len() - i,
    {
        r.push(!v.commits[i].hidden);
        proof {
            assert(r@ =~= visible_set(*v).take(i + 1));
        }
        i = i + 1;
    }
    proof {
        assert(visible_set(*v).take(i as int) =~= visible_set(*v));
    }
    r
}


fn parents_marks(v: &RepoView, a: &Vec<bool>) -> (r: Vec<bool>)
    requires
        v.wf(),
        a@.len() == v.len(),
    ensures
        r@ == parents_set(*v, a@),
        r@.len() == v.len(),
{
    let mut ps: Vec<usize> = Vec::new();
    let mut j: usize = 0;
    while j < v.commits.len()
        invariant
            v.wf(),
            j <= v.len(),
            a@.len() == v.len(),
            forall|q: int| 0 <= q < ps@.len() ==> #[trigger] ps@[q] < v.len(),
            forall|i: int|
                0 <= i < v.len() ==> (#[trigger] listed(ps@, i) <==> parent_of_member_below(*v, a@, j as int, i)),
        decreases v.len() - j,
    {
        if a[j] {
            let pj = &v.commits[j].parents;
            let ghost before = ps@;
            let mut q: usize = 0;
            while q < pj.len()
                invariant
                    v.wf(),
                    j < v.len(),
                    pj@ == v.parents_of(j as int),
                    q <= pj@.len(),
                    ps@ == before + pj@.take(q as int),
                    forall|t: int| 0 <= t < ps@.len() ==> #[trigger] ps@[t] < v.len(),
                decreases pj@.len() - q,
            {
                assert(pj@[q as int] < j) by {
                    assert(v.parents_of(j as int)[q as int] < j);
                }
                ps.push(pj[q]);
                proof {
                    assert(pj@.take(q + 1) =~= pj@.take(q as int).push(pj@[q as int]));
                }
                q = q + 1;
            }
            proof {
                assert(pj@.take(q as int) =~= pj@);
                assert forall|i: int| 0 <= i < v.len() implies (#[trigger] listed(ps@, i) <==> parent_of_member_below(*v, a@, j + 1, i)) by {
                    assert(listed(before, i) <==> parent_of_member_below(*v, a@, j as int, i));
                    if listed(ps@, i) {
                        let t = choose|t: int| 0 <= t < ps@.len() && ps@[t] == i;
                        if t < before.len() {
                            assert(before[t] == i);
                            assert(listed(before, i));
                        } else {
                            assert(pj@[t - before.len()] == i);
                            assert(is_parent(*v, j as int, i));
                        }
                    }
                    if parent_of_member_below(*v, a@, j + 1, i) {
                        let jj = choose|jj: int| 0 <= jj < j + 1 && a@[jj] && #[trigger] is_parent(*v, jj, i);
                        if jj == j {
                            let k = choose|k: int| 0 <= k < v.parents_of(j as int).len() && v.parents_of(j as int)[k] == i;
                            assert(ps@[before.len() + k] == i);
                        } else {
                            assert(parent_of_member_below(*v, a@, j as int, i));
                            let t = choose|t: int| 0 <= t < before.len() && before[t] == i;
                            assert(ps@[t] == i);
                        }
                    }
                }
            }
        } else {
            proof {
                assert forall|i: int| 0 <= i < v.len() implies (#[trigger] listed(ps@, i) <==> parent_of_member_below(*v, a@, j + 1, i)) by {
                    assert(listed(ps@, i) <==> parent_of_member_below(*v, a@, j as int, i));
                    if parent_of_member_below(*v, a@, j + 1, i) {
                        let jj = choose|jj: int| 0 <= jj < j + 1 && a@[jj] && #[trigger] is_parent(*v, jj, i);
                        assert(jj < j);
                    }
                }
            }
        }
        j = j + 1;
    }
    let mut r = new_marks(v.commits.len());
    mark_positions(&mut r, &ps);
    proof {
        assert forall|i: int| 0 <= i < v.len() implies r@[i] == parents_set(*v, a@)[i] by {
            assert(listed(ps@, i) <==> parent_of_member_below(*v, a@, j as int, i));
        }
        assert(r@ =~= parents_set(*v, a@));
    }
    r
}

fn heads_marks(v: &RepoView) -> (r: Vec<bool>)
    requires
        v.wf(),
    ensures
        r@ == heads_set(*v),
        r@.len() == v.len(),
{
    let vis = visible_marks(v);
    let ps = parents_marks(v, &vis);
    let r = minus_marks(&vis, &ps);
    proof {
        assert forall|i: int| 0 <= i < v.len() implies r@[i] == heads_set(*v)[i] by {
            if r@[i] {
                assert forall|j: int| #[trigger] v.visible(j) implies !is_parent(*v, j, i) by {
                    if is_parent(*v, j, i) {
                        assert(vis@[j]);
                        assert(ps@[i]);
                    }
                }
            }
        }
        assert(r@ =~= heads_set(*v));
    }
    r
}

fn ref_marks(v: &RepoView, refs: &Vec<crate::repo::NamedRef>) -> (r: Vec<bool>)
    requires
        forall|k: int| 0 <= k < refs@.len() ==> v.visible(#[trigger] refs@[k].target as int),
    ensures
        r@ == targets_set(v.len() as nat, ref_targets(refs@)),
        r@.len() == v.len(),
{
    let mut ts: Vec<usize> = Vec::new();
    let mut k: usize = 0;
    while k < refs.len()
        invariant
            k <= refs@.len(),
            forall|t: int| 0 <= t < refs@.len() ==> v.visible(#[trigger] refs@[t].target as int),
            ts@ == ref_targets(refs@).take(k as int),
        decreases refs@.len() - k,
    {
        ts.push(refs[k].target);
        proof {
            assert(ts@ =~= ref_targets(refs@).take(k + 1));
        }
        k = k + 1;
    }
    proof {
        assert(ts@ =~= ref_targets(refs@));
        assert forall|t: int| 0 <= t < ts@.len() implies #[trigger] ts@[t] < v.len() by {
            assert(v.visible(refs@[t].target as int));
        }
    }
    let mut r = new_marks(v.commits.len());
    mark_positions(&mut r, &ts);
    r
}

fn opt_chars_eq(want: &Option<Vec<char>>, have: &String) -> (r: bool)
    ensures
        r == (want is Some ==> have@ == want.unwrap()@),
{
    match want {
        None => true,
        Some(w) => {
            let hc = chars_of(have.as_str());
            chars_eq(&hc, w)
        },
    }
}

pub open spec fn opt_view(o: Option<Vec<char>>) -> Option<Seq<char>> {
    match o {
        Some(x) => Some(x@),
        None => None,
    }
}

fn remote_marks(v: &RepoView, name: &Option<Vec<char>>, remote: &Option<Vec<char>>) -> (r: Vec<bool>)
    requires
        v.wf(),
    ensures
        r@ == remote_set(*v, opt_view(*name), opt_view(*remote)),
        r@.len() == v.len(),
{
    let ghost nv = opt_view(*name);
    let ghost rv = opt_view(*remote);
    let mut ts: Vec<usize> = Vec::new();
    let mut k: usize = 0;
    while k < v.remote_bookmarks.len()
        invariant
            v.wf(),
            k <= v.remote_bookmarks@.len(),
            nv == opt_view(*name),
            rv == opt_view(*remote),
            forall|q: int| 0 <= q < ts@.len() ==> #[trigger] ts@[q] < v.len(),
            forall|i: int| (#[trigger] listed(ts@, i) <==> remote_listed_below(*v, nv, rv, k as int, i)),
        decreases v.remote_bookmarks@.len() - k,
    {
        let rb = &v.remote_bookmarks[k];
        let hit = opt_chars_eq(name, &rb.name) && opt_chars_eq(remote, &rb.remote);
        let ghost before = ts@;
        if hit {
            assert(v.visible(v.remote_bookmarks@[k as int].target as int));
            ts.push(rb.target);
        }
        proof {
            assert forall|i: int| (#[trigger] listed(ts@, i) <==> remote_listed_below(*v, nv, rv, k + 1, i)) by {
                assert(listed(before, i) <==> remote_listed_below(*v, nv, rv, k as int, i));
                if listed(ts@, i) {
                    let q = choose|q: int| 0 <= q < ts@.len() && ts@[q] == i;
                    if q < before.len() {
                        assert(before[q] == i);
                        assert(listed(before, i));
                    } else {
                        assert(v.remote_bookmarks@[k as int].target == i);
                    }
                }
                if remote_listed_below(*v, nv, rv, k + 1, i) {
                    let t = choose|t: int|
                        0 <= t < k + 1 && #[trigger] v.remote_bookmarks@[t].target == i && remote_matches(
                            v.remote_bookmarks@[t],
                            nv,
                            rv,
                        );
                    if t == k {
                        assert(ts@[before.len() as int] == i);
                    } else {
                        assert(remote_listed_below(*v, nv, rv, k as int, i));
                        let q = choose|q: int| 0 <= q < before.len() && before[q] == i;
                        assert(ts@[q] == i);
                    }
                }
            }
        }
        k = k + 1;
    }
    let mut r = new_marks(v.commits.len());
    mark_positions(&mut r, &ts);
    proof {
        assert forall|i: int| 0 <= i < v.len() implies r@[i] == remote_set(*v, nv, rv)[i] by {
            assert(listed(ts@, i) <==> remote_listed_below(*v, nv, rv, k as int, i));
        }
        assert(r@ =~= remote_set(*v, nv, rv));
    }
    r
}

pub open spec fn untracked_listed_below(v: RepoView, k: int, i: int) -> bool {
    exists|t: int|
        0 <= t < k && #[trigger] v.remote_bookmarks@[t].target == i && !v.remote_bookmarks@[t].is_tracked
}

fn untracked_marks(v: &RepoView) -> (r: Vec<bool>)
    requires
        v.wf(),
    ensures
        r@ == untracked_set(*v),
        r@.len() == v.len(),
{
    let mut ts: Vec<usize> = Vec::new();
    let mut k: usize = 0;
    while k < v.remote_bookmarks.len()
        invariant
            v.wf(),
            k <= v.remote_bookmarks@.len(),
            forall|q: int| 0 <= q < ts@.len() ==> #[trigger] ts@[q] < v.len(),
            forall|i: int| (#[trigger] listed(ts@, i) <==> untracked_listed_below(*v, k as int, i)),
        decreases v.remote_bookmarks@.len() - k,
    {
        let rb = &v.remote_bookmarks[k];
        let ghost before = ts@;
        if !rb.is_tracked {
            assert(v.visible(v.remote_bookmarks@[k as int].target as int));
            ts.push(rb.target);
        }
        proof {
            assert forall|i: int| (#[trigger] listed(ts@, i) <==> untracked_listed_below(*v, k + 1, i)) by {
                assert(listed(before, i) <==> untracked_listed_below(*v, k as int, i));
                if listed(ts@, i) {
                    let q = choose|q: int| 0 <= q < ts@.len() && ts@[q] == i;
                    if q < before.len() {
                        assert(before[q] == i);
                        assert(listed(before, i));
                    } else {
                        assert(v.remote_bookmarks@[k as int].target == i);
                    }
                }
                if untracked_listed_below(*v, k + 1, i) {
                    let t = choose|t: int|
                        0 <= t < k + 1 && #[trigger] v.remote_bookmarks@[t].target == i
                            && !v.remote_bookmarks@[t].is_tracked;
                    if t == k {
                        assert(ts@[before.len() as int] == i);
                    } else {
                        assert(untracked_listed_below(*v, k as int, i));
                        let q = choose|q: int| 0 <= q < before.len() && before[q] == i;
                        assert(ts@[q] == i);
                    }
                }
            }
        }
        k = k + 1;
    }
    let mut r = new_marks(v.commits.len());
    mark_positions(&mut r, &ts);
    proof {
        assert forall|i: int| 0 <= i < v.len() implies r@[i] == untracked_set(*v)[i] by {
            assert(listed(ts@, i) <==> untracked_listed_below(*v, k as int, i));
        }
        assert(r@ =~= untracked_set(*v));
    }
    r
}

fn contains_chars(s: &Vec<char>, p: &Vec<char>) -> (r: bool)
    ensures
        r == contains_text(s@, p@),
{
    if p.len() > s.len() {
        return false;
    }
    let mut k: usize = 0;
    while k <= s.len() - p.len()
        invariant
            p@.len() <= s@.len(),
            k <= s@.len() - p@.len() + 1,
            forall|t: int| 0 <= t < k ==> #[trigger] s@.subrange(t, t + p@.len()) != p@,
        decreases s@.len() - k,
    {
        let mut j: usize = 0;
        let mut same = true;
        while j < p.len() && same
            invariant
                k + p@.len() <= s@.len() <= usize::MAX,
                j <= p@.len(),
                s@.subrange(k as int, k + j) == p@.take(j as int),
                !same ==> j < p@.len() && s@[k + j] != p@[j as int],
            decreases p@.len() - j + (if same { 1int } else { 0int }),
        {
            let x: usize = k + j;
            if s[x] == p[j] {
                proof {
                    assert(s@.subrange(k as int, k + j + 1) =~= s@.subrange(k as int, k + j).push(s@[k + j]));
                    assert(p@.take(j + 1) =~= p@.take(j as int).push(p@[j as int]));
                }
                j = j + 1;
            } else {
                same = false;
            }
        }
        if j == p.len() {
            proof {
                assert(p@.take(j as int) =~= p@);
            }
            return true;
        }
        proof {
            assert(s@.subrange(k as int, k + p@.len())[j as int] == s@[k + j]);
        }
        k = k + 1;
    }
    false
}

fn author_marks(v: &RepoView, p: &Vec<char>) -> (r: Vec<bool>)
    ensures
        r@ == author_set(*v, p@),
        r@.len() == v.len(),
{
    let mut r: Vec<bool> = Vec::new();
    let mut i: usize = 0;
    while i < v.commits.len()
        invariant
            i <= v.len(),
            r@ == author_set(*v, p@).take(i as int),
        decreases v.len() - i,
    {
        let c = &v.commits[i];
        let email = chars_of(c.author.email.as_str());
        let hit = !c.hidden && contains_chars(&email, p);
        r.push(hit);
        proof {
            assert(r@ =~= author_set(*v, p@).take(i + 1));
        }
        i = i + 1;
    }
    proof {
        assert(author_set(*v, p@).take(i as int) =~= author_set(*v, p@));
    }
    r
}

proof fn lemma_latest_below_range(v: RepoView, m: Seq<bool>, k: int)
    ensures
        latest_below(v, m, k) is Some ==> 0 <= latest_below(v, m, k).unwrap() < k,
    decreases k,
{
    if k > 0 {
        lemma_latest_below_range(v, m, k - 1);
    }
}

fn latest_marks(v: &RepoView, m: &Vec<bool>) -> (r: Vec<bool>)
    requires
        m@.len() == v.len(),
    ensures
        r@ == latest_set(*v, m@),
        r@.len() == v.len(),
{
    let mut best: Option<usize> = None;
    let mut k: usize = 0;
    while k < v.commits.len()
        invariant
            k <= v.len(),
            m@.len() == v.len(),
            match latest_below(*v, m@, k as int) {
                Some(b) => best == Some(b as usize),
                None => best is None,
            },
        decreases v.len() - k,
    {
        proof {
            lemma_latest_below_range(*v, m@, k as int);
        }
        if m[k] {
            match best {
                None => {
                    best = Some(k);
                },
                Some(b) => {
                    if v.commits[b].committer.timestamp_ms <= v.commits[k].committer.timestamp_ms {
                        best = Some(k);
                    }
                },
            }
        }
        k = k + 1;
    }
    proof {
        lemma_latest_below_range(*v, m@, k as int);
    }
    let mut r = new_marks(v.commits.len());
    match best {
        Some(b) => {
            r.set(b, true);
            proof {
                assert(r@ =~= single_set(v.len() as nat, b as int));
            }
        },
        None => {},
    }
    r
}

proof fn lemma_members_from_range(m: Seq<bool>, k: int)
    ensures
        forall|q: int| 0 <= q < members_from(m, k).len() ==> #[trigger] members_from(m, k)[q] < m.len(),
    decreases m.len() - k,
{
    if !(k >= m.len() || k < 0) {
        lemma_members_from_range(m, k + 1);
        let a = members_from(m, k + 1);
        let b: Seq<usize> = if m[k] {
            seq![k as usize]
        } else {
            Seq::empty()
        };
        assert(members_from(m, k) == a + b);
        assert forall|q: int| 0 <= q < members_from(m, k).len() implies #[trigger] members_from(m, k)[q] < m.len() by {
            if q < a.len() {
                assert(members_from(m, k)[q] == a[q]);
            } else {
                assert(members_from(m, k)[q] == b[q - a.len()]);
            }
        }
    }
}

proof fn lemma_members_from_desc(m: Seq<bool>, k: int)
    requires
        0 <= k,
        m.len() <= usize::MAX,
    ensures
        forall|q: int| 0 <= q < members_from(m, k).len() ==> #[trigger] members_from(m, k)[q] >= k,
        forall|p: int, q: int|
            0 <= p < q < members_from(m, k).len() ==> #[trigger] members_from(m, k)[p] > #[trigger] members_from(
                m,
                k,
            )[q],
    decreases m.len() - k,
{
    if k < m.len() {
        lemma_members_from_desc(m, k + 1);
        let a = members_from(m, k + 1);
        let b: Seq<usize> = if m[k] {
            seq![k as usize]
        } else {
            Seq::empty()
        };
        let full = members_from(m, k);
        assert(full == a + b);
        assert forall|q: int| 0 <= q < full.len() implies #[trigger] full[q] >= k by {
            if q < a.len() {
                assert(full[q] == a[q]);
            } else {
                assert(full[q] == b[q - a.len()]);
            }
        }
        assert forall|p: int, q: int| 0 <= p < q < full.len() implies #[trigger] full[p] > #[trigger] full[q] by {
            if q < a.len() {
                assert(full[p] == a[p]);
                assert(full[q] == a[q]);
            } else if p < a.len() {
                assert(full[p] == a[p]);
                assert(full[q] == b[q - a.len()]);
            } else {
                assert(b.len() <= 1);
            }
        }
    }
}

/// Evaluation is deterministic: the members of a set are listed in
/// strictly decreasing position order, so two evaluations of one
/// expression against one view list the same members in the same order.
pub proof fn lemma_evaluation_deterministic(v: RepoView, e: Expr, r1: Seq<usize>, r2: Seq<usize>)
    requires
        eval(v, e) is Ok,
        eval(v, e).unwrap().len() <= usize::MAX,
        r1 == ordered_members(eval(v, e).unwrap()),
        r2 == ordered_members(eval(v, e).unwrap()),
    ensures
        r1 == r2,
        forall|p: int, q: int| 0 <= p < q < r1.len() ==> #[trigger] r1[p] > #[trigger] r1[q],
{
    lemma_members_from_desc(eval(v, e).unwrap(), 0);
}

/// Every listed member is a position of the set.
pub proof fn lemma_members_in_range(m: Seq<bool>)
    ensures
        forall|q: int| 0 <= q < ordered_members(m).len() ==> #[trigger] ordered_members(m)[q] < m.len(),
{
    lemma_members_from_range(m, 0);
}

/// The members of a set, highest position first.
pub fn members_of(m: &Vec<bool>) -> (r: Vec<usize>)
    ensures
        r@ == ordered_members(m@),
        forall|q: int| 0 <= q < r@.len() ==> #[trigger] r@[q] < m@.len(),
{
    let mut r: Vec<usize> = Vec::new();
    let mut k: usize = m.len();
    while k > 0
        invariant
            k <= m@.len(),
            r@ == members_from(m@, k as int),
            forall|q: int| 0 <= q < r@.len() ==> #[trigger] r@[q] < m@.len(),
        decreases k,
    {
        k = k - 1;
        if m[k] {
            r.push(k);
        }
        proof {
            if m@[k as int] {
                assert(r@ =~= members_from(m@, k as int));
            } else {
                assert(r@ =~= members_from(m@, k as int));
            }
        }
    }
    r
}


fn ancestors_depth_marks(v: &RepoView, m: &Vec<bool>, d: usize) -> (r: Vec<bool>)
    requires
        v.wf(),
        m@.len() == v.len(),
    ensures
        r@ == ancestors_depth_set(*v, m@, d as nat),
        r@.len() == v.len(),
{
    if d == 0 {
        return new_marks(v.commits.len());
    }
    let mut a = m.clone();
    proof {
        assert(a@ =~= m@);
    }
    let mut t: usize = 1;
    while t < d
        invariant
            v.wf(),
            1 <= t <= d,
            m@.len() == v.len(),
            a@.len() == v.len(),
            a@ == ancestors_depth_set(*v, m@, t as nat),
        decreases d - t,
    {
        let ps = parents_marks(v, &a);
        a = union_marks(&a, &ps);
        t = t + 1;
    }
    a
}

impl RepoView {
    /// The membership marks of the set an expression denotes, or the first
    /// failure to resolve one of its symbols.
    pub fn eval_marks(&self, e: &Expr) -> (r: Result<Vec<bool>, EngineError>)
        requires
            self.wf(),
        ensures
            eval(*self, *e) is Ok ==> r is Ok,
            eval(*self, *e) is Ok ==> r.unwrap()@ == eval(*self, *e).unwrap(),
            eval(*self, *e) is Ok ==> eval(*self, *e).unwrap().len() == self.len(),
            eval(*self, *e) is Err ==> r == Err::<Vec<bool>, EngineError>(eval(*self, *e)->Err_0),
        decreases e, 1int,
    {
        let n = self.commits.len();
        match e {
            Expr::All => {
                let r = visible_marks(self);
                assert(eval(*self, *e) == Ok::<Seq<bool>, EngineError>(visible_set(*self)));
                Ok(r)
            },
            Expr::Root => {
                let mut r = new_marks(n);
                r.set(0, true);
                proof {
                    assert(r@ =~= single_set(n as nat, 0));
                }
                Ok(r)
            },
            Expr::WorkingCopy => {
                let mut r = new_marks(n);
                r.set(self.wc, true);
                proof {
                    assert(r@ =~= single_set(n as nat, self.wc as int));
                }
                Ok(r)
            },
            Expr::VisibleHeads => {
                let r = heads_marks(self);
                assert(r@ == eval(*self, *e).unwrap());
                Ok(r)
            },
            Expr::Bookmarks => {
                let r = ref_marks(self, &self.bookmarks);
                assert(r@ == eval(*self, *e).unwrap());
                Ok(r)
            },
            Expr::Tags => {
                let r = ref_marks(self, &self.tags);
                assert(r@ == eval(*self, *e).unwrap());
                Ok(r)
            },
            Expr::RemoteBookmarks(name, remote) => {
                let r = remote_marks(self, name, remote);
                assert(r@ == eval(*self, *e).unwrap());
                Ok(r)
            },
            Expr::UntrackedRemoteBookmarks => {
                let r = untracked_marks(self);
                assert(r@ == eval(*self, *e).unwrap());
                Ok(r)
            },
            Expr::AuthorEmail(p) => {
                let r = author_marks(self, p);
                assert(r@ == eval(*self, *e).unwrap());
                Ok(r)
            },
            Expr::Symbol(sym) => match self.resolve(sym) {
                Ok(i) => {
                    let mut r = new_marks(n);
                    r.set(i, true);
                    proof {
                        assert(r@ =~= single_set(n as nat, i as int));
                    }
                    Ok(r)
                },
                Err(x) => Err(x),
            },
            Expr::Ancestors(..) | Expr::Descendants(_) | Expr::Latest(_) | Expr::Present(_) => self.eval_unary(e),
            _ => self.eval_binary(e),
        }
    }

    fn eval_unary(&self, e: &Expr) -> (r: Result<Vec<bool>, EngineError>)
        requires
            self.wf(),
            e is Ancestors || e is Descendants || e is Latest || e is Present,
        ensures
            eval(*self, *e) is Ok ==> r is Ok,
            eval(*self, *e) is Ok ==> r.unwrap()@ == eval(*self, *e).unwrap(),
            eval(*self, *e) is Ok ==> eval(*self, *e).unwrap().len() == self.len(),
            eval(*self, *e) is Err ==> r == Err::<Vec<bool>, EngineError>(eval(*self, *e)->Err_0),
        decreases e, 0int,
    {
        let n = self.commits.len();
        match e {
            Expr::Ancestors(a, depth) => match self.eval_marks(a) {
                Err(x) => Err(x),
                Ok(x) => match depth {
                    None => Ok(ancestors_marks(self, &x)),
                    Some(d) => Ok(ancestors_depth_marks(self, &x, *d)),
                },
            },
            Expr::Descendants(a) => match self.eval_marks(a) {
                Err(x) => Err(x),
                Ok(x) => Ok(descendants_marks(self, &x)),
            },
            Expr::Latest(a) => match self.eval_marks(a) {
                Err(x) => Err(x),
                Ok(x) => Ok(latest_marks(self, &x)),
            },
            Expr::Present(a) => match self.eval_marks(a) {
                Err(_) => Ok(new_marks(n)),
                Ok(x) => Ok(x),
            },
            _ => Err(EngineError::Parse),
        }
    }

    fn eval_binary(&self, e: &Expr) -> (r: Result<Vec<bool>, EngineError>)
        requires
            self.wf(),
            e is Union || e is Intersection || e is Difference || e is Range || e is DagRange,
        ensures
            eval(*self, *e) is Ok ==> r is Ok,
            eval(*self, *e) is Ok ==> r.unwrap()@ == eval(*self, *e).unwrap(),
            eval(*self, *e) is Ok ==> eval(*self, *e).unwrap().len() == self.len(),
            eval(*self, *e) is Err ==> r == Err::<Vec<bool>, EngineError>(eval(*self, *e)->Err_0),
        decreases e, 0int,
    {
        let (a, b) = match e {
            Expr::Union(a, b) => (a, b),
            Expr::Intersection(a, b) => (a, b),
            Expr::Difference(a, b) => (a, b),
            Expr::Range(a, b) => (a, b),
            Expr::DagRange(a, b) => (a, b),
            _ => {
                return Err(EngineError::Parse);
            },
        };
        let x = match self.eval_marks(a) {
            Err(x) => {
                return Err(x);
            },
            Ok(x) => x,
        };
        let y = match self.eval_marks(b) {
            Err(y) => {
                return Err(y);
            },
            Ok(y) => y,
        };
        match e {
            Expr::Union(..) => Ok(union_marks(&x, &y)),
            Expr::Intersection(..) => Ok(inter_marks(&x, &y)),
            Expr::Difference(..) => Ok(minus_marks(&x, &y)),
            Expr::Range(..) => {
                let ay = ancestors_marks(self, &y);
                let ax = ancestors_marks(self, &x);
                Ok(minus_marks(&ay, &ax))
            },
            _ => {
                let dx = descendants_marks(self, &x);
                let ay = ancestors_marks(self, &y);
                Ok(inter_marks(&dx, &ay))
            },
        }
    }

    /// Evaluates an expression to the positions of its members, newest
    /// first.
    pub fn evaluate(&self, e: &Expr) -> (r: Result<Vec<usize>, EngineError>)
        requires
            self.wf(),
        ensures
            match eval(*self, *e) {
                Ok(x) => r is Ok && r.unwrap()@ == ordered_members(x) && x.len() == self.len(),
                Err(x) => r == Err::<Vec<usize>, EngineError>(x),
            },
    {
        match self.eval_marks(e) {
            Ok(m) => Ok(members_of(&m)),
            Err(x) => Err(x),
        }
    }
}

} // verus!
