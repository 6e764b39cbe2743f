//! Changes to a view: a new working-copy revision, editing an existing one,
//! and abandoning one. Each returns the checkout that must follow once the
//! store has recorded the change: from the previous working copy's tree to
//! the new working-copy commit.

use vstd::prelude::*;

use crate::repo::{resolve_symbol, Commit, EngineError, RepoView, Signature};
use crate::text::chars_of;

verus! {

/// The working-directory update that follows a committed change.
#[derive(Clone, Debug)]
pub struct CheckoutPlan {
    /// The tree of the working copy before the change.
    pub from_tree: Vec<u8>,
    /// The position of the commit to check out.
    pub to_commit: usize,
}

pub open spec fn refs_view(refs: Seq<String>) -> Seq<Seq<char>> {
    refs.map_values(|s: String| s@)
}

/// Every reference resolves, to the positions `ps`.
pub open spec fn all_resolve(v: RepoView, refs: Seq<Seq<char>>, ps: Seq<usize>) -> bool {
    &&& ps.len() == refs.len()
    &&& forall|k: int|
        0 <= k < refs.len() ==> #[trigger] resolve_symbol(v, refs[k]) == Ok::<int, EngineError>(
            ps[k] as int,
        )
}

/// The first reference that does not resolve, and why.
pub open spec fn first_failure(v: RepoView, refs: Seq<Seq<char>>) -> Option<EngineError>
    decreases refs.len(),
{
    if refs.len() == 0 {
        None
    } else {
        match first_failure(v, refs.drop_last()) {
            Some(e) => Some(e),
            None => match resolve_symbol(v, refs.last()) {
                Err(e) => Some(e),
                Ok(_) => None,
            },
        }
    }
}

fn resolve_all(v: &RepoView, refs: &Vec<String>) -> (r: Result<Vec<usize>, EngineError>)
    requires
        v.wf(),
    ensures
        first_failure(*v, refs_view(refs@)) is Some ==> r == Err::<Vec<usize>, EngineError>(
            first_failure(*v, refs_view(refs@)).unwrap(),
        ),
        first_failure(*v, refs_view(refs@)) is None ==> r is Ok && all_resolve(*v, refs_view(refs@), r.unwrap()@),
        r is Ok ==> forall|k: int| 0 <= k < r.unwrap()@.len() ==> v.visible(#[trigger] r.unwrap()@[k] as int),
{
    let ghost rv = refs_view(refs@);
    let mut ps: Vec<usize> = Vec::new();
    let mut k: usize = 0;
    while k < refs.len()
        invariant
            v.wf(),
            k <= refs@.len(),
            rv == refs_view(refs@),
            first_failure(*v, rv.take(k as int)) is None,
            all_resolve(*v, rv.take(k as int), ps@),
            forall|t: int| 0 <= t < ps@.len() ==> v.visible(#[trigger] ps@[t] as int),
        decreases refs@.len() - k,
    {
        let cs = chars_of(refs[k].as_str());
        proof {
            assert(rv.take(k + 1).drop_last() =~= rv.take(k as int));
            assert(rv.take(k + 1).last() == rv[k as int]);
        }
        match v.resolve(&cs) {
            Err(e) => {
                proof {
                    assert(rv[k as int] == cs@);
                    lemma_first_failure_prefix(*v, rv, k + 1);
                }
                return Err(e);
            },
            Ok(i) => {
                proof {
                    assert(rv[k as int] == cs@);
                    assert(resolve_symbol(*v, rv[k as int]) == Ok::<int, EngineError>(i as int));
                }
                ps.push(i);
                proof {
                    assert forall|t: int| 0 <= t < k + 1 implies #[trigger] resolve_symbol(*v, rv.take(k + 1)[t])
                        == Ok::<int, EngineError>(ps@[t] as int) by {
                        if t < k {
                            assert(rv.take(k + 1)[t] == rv.take(k as int)[t]);
                        }
                    }
                }
            },
        }
        k = k + 1;
    }
    proof {
        assert(rv.take(k as int) =~= rv);
    }
    Ok(ps)
}

proof fn lemma_first_failure_prefix(v: RepoView, refs: Seq<Seq<char>>, j: int)
    requires
        0 <= j <= refs.len(),
        first_failure(v, refs.take(j)) is Some,
    ensures
        first_failure(v, refs) == first_failure(v, refs.take(j)),
    decreases refs.len() - j,
{
    if j < refs.len() {
        assert(refs.take(j + 1).drop_last() =~= refs.take(j));
        lemma_first_failure_prefix(v, refs, j + 1);
    } else {
        assert(refs.take(j) =~= refs);
    }
}

fn copy_positions(ps: &Vec<usize>) -> (r: Vec<usize>)
    ensures
        r@ == ps@,
{
    let mut r: Vec<usize> = Vec::new();
    let mut i: usize = 0;
    while i < ps.len()
        invariant
            i <= ps@.len(),
            r@ == ps@.take(i as int),
        decreases ps@.len() - i,
    {
        r.push(ps[i]);
        proof {
            assert(ps@.take(i + 1) =~= ps@.take(i as int).push(ps@[i as int]));
        }
        i = i + 1;
    }
    proof {
        assert(ps@.take(i as int) =~= ps@);
    }
    r
}

proof fn lemma_wf_other_wc(v: RepoView, w: RepoView)
    requires
        v.wf(),
        w.commits == v.commits,
        w.bookmarks == v.bookmarks,
        w.tags == v.tags,
        w.remote_bookmarks == v.remote_bookmarks,
        v.visible(w.wc as int),
    ensures
        w.wf(),
{
    assert forall|i: int, k: int|
        0 <= i < w.len() && 0 <= k < w.parents_of(i).len() implies #[trigger] w.parents_of(i)[k] < i by {
        assert(v.parents_of(i)[k] < i);
    }
    assert forall|i: int, k: int|
        w.visible(i) && 0 <= k < w.parents_of(i).len() implies w.visible(#[trigger] w.parents_of(i)[k] as int) by {
        assert(v.visible(v.parents_of(i)[k] as int));
    }
    assert forall|k: int| 0 <= k < w.bookmarks@.len() implies w.visible(#[trigger] w.bookmarks@[k].target as int) by {
        assert(v.visible(v.bookmarks@[k].target as int));
    }
    assert forall|k: int| 0 <= k < w.tags@.len() implies w.visible(#[trigger] w.tags@[k].target as int) by {
        assert(v.visible(v.tags@[k].target as int));
    }
    assert forall|k: int| 0 <= k < w.remote_bookmarks@.len() implies w.visible(
        #[trigger] w.remote_bookmarks@[k].target as int,
    ) by {
        assert(v.visible(v.remote_bookmarks@[k].target as int));
    }
}

/// `ps` with `t` replaced, wherever it stands, by `tp`.
pub open spec fn splice(ps: Seq<usize>, t: usize, tp: Seq<usize>) -> Seq<usize>
    decreases ps.len(),
{
    if ps.len() == 0 {
        Seq::empty()
    } else {
        splice(ps.drop_last(), t, tp) + if ps.last() == t {
            tp
        } else {
            seq![ps.last()]
        }
    }
}

proof fn lemma_splice_elems(ps: Seq<usize>, t: usize, tp: Seq<usize>)
    ensures
        forall|q: int|
            0 <= q < splice(ps, t, tp).len() ==> {
                ||| (exists|a: int| 0 <= a < ps.len() && ps[a] == #[trigger] splice(ps, t, tp)[q] && ps[a] != t)
                ||| ((exists|b: int| 0 <= b < tp.len() && tp[b] == splice(ps, t, tp)[q]) && (exists|c: int| 0 <= c < ps.len() && ps[c] == t))
            },
    decreases ps.len(),
{
    if ps.len() > 0 {
        let rest = ps.drop_last();
        lemma_splice_elems(rest, t, tp);
        let a = splice(rest, t, tp);
        let b: Seq<usize> = if ps.last() == t {
            tp
        } else {
            seq![ps.last()]
        };
        assert(splice(ps, t, tp) == a + b);
        assert forall|q: int| 0 <= q < splice(ps, t, tp).len() implies {
            ||| (exists|x: int| 0 <= x < ps.len() && ps[x] == #[trigger] splice(ps, t, tp)[q] && ps[x] != t)
            ||| ((exists|y: int| 0 <= y < tp.len() && tp[y] == splice(ps, t, tp)[q]) && (exists|c: int| 0 <= c < ps.len() && ps[c] == t))
        } by {
            if q < a.len() {
                assert(splice(ps, t, tp)[q] == a[q]);
                if exists|x: int| 0 <= x < rest.len() && rest[x] == #[trigger] a[q] && rest[x] != t {
                    let x = choose|x: int| 0 <= x < rest.len() && rest[x] == #[trigger] a[q] && rest[x] != t;
                    assert(ps[x] == rest[x]);
                } else {
                    let c = choose|c: int| 0 <= c < rest.len() && rest[c] == t;
                    assert(ps[c] == rest[c]);
                }
            } else {
                assert(splice(ps, t, tp)[q] == b[q - a.len()]);
                if ps.last() != t {
                    assert(ps[ps.len() - 1] == splice(ps, t, tp)[q]);
                } else {
                    assert(ps[ps.len() - 1] == t);
                }
            }
        }
    }
}

fn splice_exec(ps: &Vec<usize>, t: usize, tp: &Vec<usize>) -> (r: Vec<usize>)
    ensures
        r@ == splice(ps@, t, tp@),
{
    let mut r: Vec<usize> = Vec::new();
    let mut k: usize = 0;
    while k < ps.len()
        invariant
            k <= ps@.len(),
            r@ == splice(ps@.take(k as int), t, tp@),
        decreases ps@.len() - k,
    {
        proof {
            assert(ps@.take(k + 1).drop_last() =~= ps@.take(k as int));
        }
        if ps[k] == t {
            let mut q: usize = 0;
            let ghost start = r@;
            while q < tp.len()
                invariant
                    q <= tp@.len(),
                    r@ == start + tp@.take(q as int),
                decreases tp@.len() - q,
            {
                r.push(tp[q]);
                proof {
                    assert(tp@.take(q + 1) =~= tp@.take(q as int).push(tp@[q as int]));
                }
                q = q + 1;
            }
            proof {
                assert(tp@.take(q as int) =~= tp@);
            }
        } else {
            r.push(ps[k]);
        }
        k = k + 1;
    }
    proof {
        assert(ps@.take(k as int) =~= ps@);
    }
    r
}

/// `b` is `a`, moved from `t` to `p` where `q < k` and `a` points to `t`.
pub open spec fn moved_ref(a: crate::repo::NamedRef, b: crate::repo::NamedRef, t: usize, p: usize, q: int, k: int) -> bool {
    &&& b.name == a.name
    &&& b.target == if q < k && a.target == t {
        p
    } else {
        a.target
    }
}

/// A tag or remote bookmark names the commit: it is immutable.
pub open spec fn pinned(v: RepoView, t: int) -> bool {
    ||| (exists|k: int| 0 <= k < v.tags@.len() && #[trigger] v.tags@[k].target == t)
    ||| (exists|k: int| 0 <= k < v.remote_bookmarks@.len() && #[trigger] v.remote_bookmarks@[k].target == t)
}

fn is_pinned(v: &RepoView, t: usize) -> (r: bool)
    ensures
        r == pinned(*v, t as int),
{
    let mut k: usize = 0;
    while k < v.tags.len()
        invariant
            k <= v.tags@.len(),
            forall|q: int| 0 <= q < k ==> #[trigger] v.tags@[q].target != t,
        decreases v.tags@.len() - k,
    {
        if v.tags[k].target == t {
            return true;
        }
        k = k + 1;
    }
    let mut k: usize = 0;
    while k < v.remote_bookmarks.len()
        invariant
            k <= v.remote_bookmarks@.len(),
            forall|q: int| 0 <= q < v.tags@.len() ==> #[trigger] v.tags@[q].target != t,
            forall|q: int| 0 <= q < k ==> #[trigger] v.remote_bookmarks@[q].target != t,
        decreases v.remote_bookmarks@.len() - k,
    {
        if v.remote_bookmarks[k].target == t {
            return true;
        }
        k = k + 1;
    }
    false
}

/// Why abandoning the commit at `t` is refused, if it is: the root, a
/// commit without parents, and a commit that a tag or remote bookmark names
/// cannot be abandoned.
pub open spec fn abandon_refused(v: RepoView, t: int) -> bool {
    t == 0 || v.parents_of(t).len() == 0 || pinned(v, t)
}

/// The view after abandoning the commit at `t`: it is hidden, every other
/// commit that had it as a parent has its parents in its place, bookmarks on
/// it move to its first parent, and so does the working copy.
pub open spec fn abandoned_view(v: RepoView, t: int, w: RepoView) -> bool {
    let tp = v.parents_of(t);
    &&& w.commits@.len() == v.commits@.len()
    &&& forall|j: int|
        0 <= j < v.len() ==> {
            let a = #[trigger] w.commits@[j];
            let b = v.commits@[j];
            &&& a.commit_id == b.commit_id
            &&& a.change_id == b.change_id
            &&& a.tree_id == b.tree_id
            &&& a.description == b.description
            &&& a.author == b.author
            &&& a.committer == b.committer
            &&& a.hidden == (b.hidden || j == t)
            &&& a.parents@ == if j == t {
                b.parents@
            } else {
                splice(b.parents@, t as usize, tp)
            }
        }
    &&& w.bookmarks@.len() == v.bookmarks@.len()
    &&& forall|k: int|
        0 <= k < v.bookmarks@.len() ==> {
            &&& #[trigger] w.bookmarks@[k].name == v.bookmarks@[k].name
            &&& w.bookmarks@[k].target == if v.bookmarks@[k].target == t {
                tp[0]
            } else {
                v.bookmarks@[k].target
            }
        }
    &&& w.tags == v.tags
    &&& w.remote_bookmarks == v.remote_bookmarks
    &&& w.wc == if v.wc == t {
        tp[0]
    } else {
        v.wc
    }
}

impl RepoView {
    /// Creates an empty revision on top of the commits that `parent_refs`
    /// name, with the tree of the first of them, and makes it the working
    /// copy. The store supplies the new commit's ids. Nothing changes where
    /// a reference does not resolve or none is given.
    pub fn new_revision(
        &mut self,
        parent_refs: &Vec<String>,
        commit_id: Vec<u8>,
        change_id: Vec<u8>,
        signature: Signature,
    ) -> (r: Result<CheckoutPlan, EngineError>)
        requires
            old(self).wf(),
            old(self).len() < usize::MAX,
        ensures
            final(self).wf(),
            first_failure(*old(self), refs_view(parent_refs@)) is Some ==> r == Err::<CheckoutPlan, EngineError>(
                first_failure(*old(self), refs_view(parent_refs@)).unwrap(),
            ) && *final(self) == *old(self),
            first_failure(*old(self), refs_view(parent_refs@)) is None && parent_refs@.len() == 0 ==> r
                == Err::<CheckoutPlan, EngineError>(EngineError::NotFound) && *final(self) == *old(self),
            r is Ok ==> {
                let n = old(self).len();
                let c = final(self).commits@[n];
                &&& first_failure(*old(self), refs_view(parent_refs@)) is None
                &&& parent_refs@.len() > 0
                &&& final(self).commits@ == old(self).commits@.push(c)
                &&& all_resolve(*old(self), refs_view(parent_refs@), c.parents@)
                &&& c.tree_id@ == old(self).commits@[c.parents@[0] as int].tree_id@
                &&& c.commit_id@ == commit_id@
                &&& c.change_id@ == change_id@
                &&& !c.hidden
                &&& final(self).wc == n
                &&& final(self).bookmarks == old(self).bookmarks
                &&& final(self).tags == old(self).tags
                &&& final(self).remote_bookmarks == old(self).remote_bookmarks
                &&& r.unwrap().from_tree@ == old(self).commits@[old(self).wc as int].tree_id@
                &&& r.unwrap().to_commit == n
            },
            first_failure(*old(self), refs_view(parent_refs@)) is None && parent_refs@.len() > 0 ==> r is Ok,
    {
        let parents = match resolve_all(self, parent_refs) {
            Ok(ps) => ps,
            Err(e) => {
                return Err(e);
            },
        };
        if parents.len() == 0 {
            return Err(EngineError::NotFound);
        }
        let n = self.commits.len();
        let tree_id = crate::annotate::copy_bytes(&self.commits[parents[0]].tree_id);
        let from_tree = crate::annotate::copy_bytes(&self.commits[self.wc].tree_id);
        let ghost ps = parents@;
        let c = Commit {
            commit_id,
            change_id,
            parents,
            tree_id,
            description: String::new(),
            author: signature.clone(),
            committer: signature,
            hidden: false,
        };
        let ghost before = *self;
        self.commits.push(c);
        self.wc = n;
        proof {
            assert(self.commits@[n as int] == c);
            assert forall|i: int, k: int|
                0 <= i < self.len() && 0 <= k < self.parents_of(i).len() implies #[trigger] self.parents_of(i)[k] < i by {
                if i < n {
                    assert(self.parents_of(i) == before.parents_of(i));
                } else {
                    assert(before.visible(ps[k] as int));
                }
            }
            assert forall|i: int, k: int|
                self.visible(i) && 0 <= k < self.parents_of(i).len() implies self.visible(
                    #[trigger] self.parents_of(i)[k] as int,
                ) by {
                if i < n {
                    assert(self.parents_of(i) == before.parents_of(i));
                    assert(before.visible(before.parents_of(i)[k] as int));
                } else {
                    assert(before.visible(ps[k] as int));
                }
            }
            assert forall|k: int| 0 <= k < self.bookmarks@.len() implies self.visible(#[trigger] self.bookmarks@[k].target as int) by {
                assert(before.visible(before.bookmarks@[k].target as int));
            }
            assert forall|k: int| 0 <= k < self.tags@.len() implies self.visible(#[trigger] self.tags@[k].target as int) by {
                assert(before.visible(before.tags@[k].target as int));
            }
            assert forall|k: int| 0 <= k < self.remote_bookmarks@.len() implies self.visible(
                #[trigger] self.remote_bookmarks@[k].target as int,
            ) by {
                assert(before.visible(before.remote_bookmarks@[k].target as int));
            }
        }
        Ok(CheckoutPlan { from_tree, to_commit: n })
    }

    /// Makes the commit that `change_ref` names the working copy. Nothing
    /// changes where the reference does not resolve.
    pub fn edit_revision(&mut self, change_ref: &str) -> (r: Result<CheckoutPlan, EngineError>)
        requires
            old(self).wf(),
        ensures
            final(self).wf(),
            resolve_symbol(*old(self), change_ref@) is Err ==> r == Err::<CheckoutPlan, EngineError>(
                resolve_symbol(*old(self), change_ref@)->Err_0,
            ) && *final(self) == *old(self),
            resolve_symbol(*old(self), change_ref@) is Ok ==> {
                let t = resolve_symbol(*old(self), change_ref@).unwrap();
                &&& r is Ok
                &&& *final(self) == (RepoView { wc: t as usize, ..*old(self) })
                &&& r.unwrap().from_tree@ == old(self).commits@[old(self).wc as int].tree_id@
                &&& r.unwrap().to_commit == t
            },
    {
        let cs = chars_of(change_ref);
        match self.resolve(&cs) {
            Err(e) => Err(e),
            Ok(t) => {
                assert(resolve_symbol(*old(self), change_ref@) == Ok::<int, EngineError>(t as int));
                let from_tree = crate::annotate::copy_bytes(&self.commits[self.wc].tree_id);
                self.wc = t;
                assert(*self == (RepoView { wc: t, ..*old(self) }));
                proof {
                    lemma_wf_other_wc(*old(self), *self);
                }
                Ok(CheckoutPlan { from_tree, to_commit: t })
            },
        }
    }
}

impl RepoView {
    /// Abandons the commit that `change_ref` names. Where the working copy
    /// moves, the checkout to follow is returned. Nothing changes where the
    /// reference does not resolve or the commit may not be abandoned.
    pub fn abandon_revision(&mut self, change_ref: &str) -> (r: Result<Option<CheckoutPlan>, EngineError>)
        requires
            old(self).wf(),
        ensures
            final(self).wf(),
            resolve_symbol(*old(self), change_ref@) is Err ==> r == Err::<Option<CheckoutPlan>, EngineError>(
                resolve_symbol(*old(self), change_ref@)->Err_0,
            ) && *final(self) == *old(self),
            resolve_symbol(*old(self), change_ref@) is Ok ==> {
                let t = resolve_symbol(*old(self), change_ref@).unwrap();
                &&& abandon_refused(*old(self), t) ==> r == Err::<Option<CheckoutPlan>, EngineError>(
                    EngineError::Transaction,
                ) && *final(self) == *old(self)
                &&& !abandon_refused(*old(self), t) ==> {
                    &&& r is Ok
                    &&& abandoned_view(*old(self), t, *final(self))
                    &&& (old(self).wc == t) == (r.unwrap() is Some)
                    &&& r.unwrap() is Some ==> r.unwrap().unwrap().to_commit == final(self).wc
                        && r.unwrap().unwrap().from_tree@ == old(self).commits@[t].tree_id@
                }
            },
    {
        let cs = chars_of(change_ref);
        let t = match self.resolve(&cs) {
            Err(e) => {
                return Err(e);
            },
            Ok(t) => t,
        };
        if t == 0 || self.commits[t].parents.len() == 0 || is_pinned(self, t) {
            return Err(EngineError::Transaction);
        }
        let ghost v0 = *self;
        let tp = copy_positions(&self.commits[t].parents);
        let n = self.commits.len();
        let mut j: usize = 0;
        while j < n
            invariant
                v0.wf(),
                0 < t < n == v0.len(),
                !v0.commits@[t as int].hidden,
                tp@ == v0.parents_of(t as int),
                tp@.len() > 0,
                j <= n,
                self.commits@.len() == n,
                self.bookmarks == v0.bookmarks,
                self.tags == v0.tags,
                self.remote_bookmarks == v0.remote_bookmarks,
                self.wc == v0.wc,
                forall|x: int|
                    0 <= x < n ==> {
                        let a = #[trigger] self.commits@[x];
                        let b = v0.commits@[x];
                        &&& a.commit_id == b.commit_id
                        &&& a.change_id == b.change_id
                        &&& a.tree_id == b.tree_id
                        &&& a.description == b.description
                        &&& a.author == b.author
                        &&& a.committer == b.committer
                        &&& a.hidden == b.hidden
                        &&& a.parents@ == if x < j && x != t {
                            splice(b.parents@, t, tp@)
                        } else {
                            b.parents@
                        }
                    },
            decreases n - j,
        {
            if j != t {
                let np = splice_exec(&self.commits[j].parents, t, &tp);
                self.commits[j].parents = np;
            }
            j = j + 1;
        }
        let ghost c0 = self.commits@;
        self.commits[t].hidden = true;
        proof {
            assert(self.commits@ == c0.update(t as int, Commit { hidden: true, ..c0[t as int] }));
        }
        let first_parent = tp[0];
        let ghost c1 = self.commits;
        let mut k: usize = 0;
        while k < self.bookmarks.len()
            invariant
                self.commits == c1,
                c1@.len() == n,
                t < n,
                self.tags == v0.tags,
                self.remote_bookmarks == v0.remote_bookmarks,
                self.wc == v0.wc,
                k <= self.bookmarks@.len() == v0.bookmarks@.len(),
                forall|q: int| 0 <= q < v0.bookmarks@.len() ==> #[trigger] moved_ref(v0.bookmarks@[q], self.bookmarks@[q], t, first_parent, q, k as int),
            decreases self.bookmarks@.len() - k,
        {
            let ghost before = self.bookmarks@;
            if self.bookmarks[k].target == t {
                self.bookmarks[k].target = first_parent;
            }
            proof {
                assert forall|q: int| 0 <= q < v0.bookmarks@.len() implies #[trigger] moved_ref(v0.bookmarks@[q], self.bookmarks@[q], t, first_parent, q, k + 1) by {
                    assert(moved_ref(v0.bookmarks@[q], before[q], t, first_parent, q, k as int));
                }
            }
            k = k + 1;
        }
        proof {
            assert forall|q: int| 0 <= q < v0.bookmarks@.len() implies {
                &&& #[trigger] self.bookmarks@[q].name == v0.bookmarks@[q].name
                &&& self.bookmarks@[q].target == if v0.bookmarks@[q].target == t {
                    first_parent
                } else {
                    v0.bookmarks@[q].target
                }
            } by {
                assert(moved_ref(v0.bookmarks@[q], self.bookmarks@[q], t, first_parent, q, k as int));
            }
        }
        let plan = if self.wc == t {
            self.wc = first_parent;
            Some(CheckoutPlan { from_tree: crate::annotate::copy_bytes(&self.commits[t].tree_id), to_commit: first_parent })
        } else {
            None
        };
        proof {
            assert(resolve_symbol(v0, change_ref@) == Ok::<int, EngineError>(t as int));
            assert(v0.parents_of(t as int)[0] < t);
            assert(v0.visible(first_parent as int));
            lemma_abandon_wf(v0, t, *self);
        }
        Ok(plan)
    }
}

proof fn lemma_abandon_wf(v: RepoView, t: usize, w: RepoView)
    requires
        v.wf(),
        0 < t < v.len(),
        v.parents_of(t as int).len() > 0,
        !pinned(v, t as int),
        abandoned_view(v, t as int, w),
        v.visible(t as int),
    ensures
        w.wf(),
{
    let tp = v.parents_of(t as int);
    assert(tp[0] < t);
    assert(v.visible(tp[0] as int));
    assert forall|i: int, k: int|
        0 <= i < w.len() && 0 <= k < w.parents_of(i).len() implies #[trigger] w.parents_of(i)[k] < i && (w.visible(i)
            ==> w.visible(w.parents_of(i)[k] as int)) by {
        let b = v.commits@[i];
        if i == t {
            assert(v.parents_of(i)[k] < i);
            assert(v.visible(v.parents_of(i)[k] as int));
        } else {
            lemma_splice_elems(b.parents@, t, tp);
            let x = w.parents_of(i)[k];
            assert(w.parents_of(i) == splice(b.parents@, t, tp));
            if exists|a: int| 0 <= a < b.parents@.len() && b.parents@[a] == x && b.parents@[a] != t {
                let a = choose|a: int| 0 <= a < b.parents@.len() && b.parents@[a] == x && b.parents@[a] != t;
                assert(v.parents_of(i)[a] < i);
                if w.visible(i) {
                    assert(v.visible(v.parents_of(i)[a] as int));
                }
            } else {
                let y = choose|y: int| 0 <= y < tp.len() && tp[y] == x;
                assert(v.parents_of(t as int)[y] < t);
                assert(v.visible(v.parents_of(t as int)[y] as int));
                let z = choose|z: int| 0 <= z < b.parents@.len() && b.parents@[z] == t;
                assert(v.parents_of(i)[z] < i);
                if w.visible(i) {
                    assert(v.visible(v.parents_of(i)[z] as int));
                }
            }
        }
    }
    assert forall|k: int| 0 <= k < w.bookmarks@.len() implies w.visible(#[trigger] w.bookmarks@[k].target as int) by {
        let x = v.bookmarks@[k].target;
        assert(v.visible(x as int));
        assert(w.bookmarks@[k].name == v.bookmarks@[k].name);
        let y = w.bookmarks@[k].target;
        assert(w.commits@[y as int].hidden == (v.commits@[y as int].hidden || y == t));
    }
    assert forall|k: int| 0 <= k < w.tags@.len() implies w.visible(#[trigger] w.tags@[k].target as int) by {
        assert(v.visible(v.tags@[k].target as int));
        assert(v.tags@[k].target != t);
    }
    assert forall|k: int| 0 <= k < w.remote_bookmarks@.len() implies w.visible(
        #[trigger] w.remote_bookmarks@[k].target as int,
    ) by {
        assert(v.visible(v.remote_bookmarks@[k].target as int));
        assert(v.remote_bookmarks@[k].target != t);
    }
}

} // verus!
