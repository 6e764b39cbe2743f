//! The repository as plain values: commits in topological order (every
//! parent stands before its children, the root first), the working-copy
//! pointer, and named references.

use vstd::prelude::*;

use crate::codec::{hex, is_reverse_hex_char, reverse_hex};
use crate::text::chars_of;

verus! {

#[derive(Clone, Debug)]
pub struct Signature {
    pub name: String,
    pub email: String,
    /// Milliseconds since the Unix epoch.
    pub timestamp_ms: i64,
}

/// An immutable snapshot. `parents` are positions in the repository's
/// commit list; a hidden commit has been abandoned and is no longer visible.
#[derive(Clone, Debug)]
pub struct Commit {
    pub commit_id: Vec<u8>,
    pub change_id: Vec<u8>,
    pub parents: Vec<usize>,
    pub tree_id: Vec<u8>,
    pub description: String,
    pub author: Signature,
    pub committer: Signature,
    pub hidden: bool,
}

/// A bookmark or tag: a name and the position of the commit it points to.
#[derive(Clone, Debug)]
pub struct NamedRef {
    pub name: String,
    pub target: usize,
}

#[derive(Clone, Debug)]
pub struct RemoteRef {
    pub name: String,
    pub remote: String,
    pub target: usize,
    pub is_tracked: bool,
}

/// One view of a repository.
#[derive(Clone, Debug)]
pub struct RepoView {
    pub commits: Vec<Commit>,
    pub wc: usize,
    pub bookmarks: Vec<NamedRef>,
    pub tags: Vec<NamedRef>,
    pub remote_bookmarks: Vec<RemoteRef>,
}

/// The failures that the engine reports as values.
#[derive(Clone, Copy, Debug, PartialEq, Eq, Structural)]
pub enum EngineError {
    Parse,
    Resolution,
    AmbiguousReference,
    NotFound,
    Transaction,
    Checkout,
    Io,
}

impl RepoView {
    pub open spec fn len(&self) -> int {
        self.commits@.len() as int
    }

    pub open spec fn parents_of(&self, i: int) -> Seq<usize> {
        self.commits@[i].parents@
    }

    pub open spec fn visible(&self, i: int) -> bool {
        0 <= i < self.len() && !self.commits@[i].hidden
    }

    /// The repository's invariant: a root without parents at position 0,
    /// parents before children, visible commits with visible parents, and a
    /// visible working copy and reference targets.
    pub open spec fn wf(&self) -> bool {
        &&& self.len() >= 1
        &&& self.parents_of(0).len() == 0
        &&& self.visible(0)
        &&& self.visible(self.wc as int)
        &&& forall|i: int, k: int|
            0 <= i < self.len() && 0 <= k < self.parents_of(i).len() ==> #[trigger] self.parents_of(
                i,
            )[k] < i
        &&& forall|i: int, k: int|
            self.visible(i) && 0 <= k < self.parents_of(i).len() ==> self.visible(
                #[trigger] self.parents_of(i)[k] as int,
            )
        &&& forall|k: int| 0 <= k < self.bookmarks@.len() ==> self.visible(#[trigger] self.bookmarks@[k].target as int)
        &&& forall|k: int| 0 <= k < self.tags@.len() ==> self.visible(#[trigger] self.tags@[k].target as int)
        &&& forall|k: int|
            0 <= k < self.remote_bookmarks@.len() ==> self.visible(
                #[trigger] self.remote_bookmarks@[k].target as int,
            )
    }
}

/// Position of the first reference with this name.
pub open spec fn find_ref(refs: Seq<NamedRef>, name: Seq<char>) -> Option<int>
    decreases refs.len(),
{
    if refs.len() == 0 {
        None
    } else {
        match find_ref(refs.drop_last(), name) {
            Some(k) => Some(k),
            None => if refs.last().name@ == name {
                Some(refs.len() - 1)
            } else {
                None
            },
        }
    }
}

/// A found reference is a position of the list, with that name.
pub proof fn lemma_find_ref_bounds(refs: Seq<NamedRef>, name: Seq<char>)
    ensures
        find_ref(refs, name) is Some ==> 0 <= find_ref(refs, name).unwrap() < refs.len()
            && refs[find_ref(refs, name).unwrap()].name@ == name,
    decreases refs.len(),
{
    if refs.len() > 0 {
        lemma_find_ref_bounds(refs.drop_last(), name);
    }
}

pub open spec fn count_true(m: Seq<bool>) -> nat
    decreases m.len(),
{
    if m.len() == 0 {
        0
    } else {
        count_true(m.drop_last()) + if m.last() {
            1nat
        } else {
            0nat
        }
    }
}

pub open spec fn first_true(m: Seq<bool>) -> int
    decreases m.len(),
{
    if m.len() == 0 {
        -1
    } else if count_true(m.drop_last()) > 0 {
        first_true(m.drop_last())
    } else {
        m.len() - 1
    }
}

/// Where a mark is set, the first set mark is a position of the marks.
pub proof fn lemma_first_true(m: Seq<bool>)
    ensures
        count_true(m) > 0 ==> 0 <= first_true(m) < m.len() && m[first_true(m)],
    decreases m.len(),
{
    if m.len() > 0 {
        lemma_first_true(m.drop_last());
    }
}

pub open spec fn is_prefix_of(p: Seq<char>, s: Seq<char>) -> bool {
    p.len() <= s.len() && s.take(p.len() as int) == p
}

pub open spec fn is_hex_char(c: char) -> bool {
    ('0' <= c && c <= '9') || ('a' <= c && c <= 'f')
}

/// Visible commits whose change id, in the reversed alphabet, starts with `p`.
pub open spec fn change_prefix_marks(v: RepoView, p: Seq<char>) -> Seq<bool> {
    Seq::new(
        v.len() as nat,
        |i: int| v.visible(i) && is_prefix_of(p, reverse_hex(v.commits@[i].change_id@)),
    )
}

/// Visible commits whose commit id, in hexadecimal, starts with `p`.
pub open spec fn commit_prefix_marks(v: RepoView, p: Seq<char>) -> Seq<bool> {
    Seq::new(v.len() as nat, |i: int| v.visible(i) && is_prefix_of(p, hex(v.commits@[i].commit_id@)))
}

/// The one marked commit, or why there is not exactly one.
pub open spec fn single_match(m: Seq<bool>) -> Result<int, EngineError> {
    if count_true(m) == 0 {
        Err(EngineError::NotFound)
    } else if count_true(m) == 1 {
        Ok(first_true(m))
    } else {
        Err(EngineError::AmbiguousReference)
    }
}

/// What a textual reference names: a bookmark, else a tag, else a change-id
/// prefix (reversed alphabet), else a commit-id prefix (hexadecimal).
pub open spec fn resolve_symbol(v: RepoView, s: Seq<char>) -> Result<int, EngineError> {
    if find_ref(v.bookmarks@, s) is Some {
        Ok(v.bookmarks@[find_ref(v.bookmarks@, s).unwrap()].target as int)
    } else if find_ref(v.tags@, s) is Some {
        Ok(v.tags@[find_ref(v.tags@, s).unwrap()].target as int)
    } else if s.len() > 0 && forall|k: int| 0 <= k < s.len() ==> #[trigger] is_reverse_hex_char(s[k]) {
        single_match(change_prefix_marks(v, s))
    } else if s.len() > 0 && forall|k: int| 0 <= k < s.len() ==> #[trigger] is_hex_char(s[k]) {
        single_match(commit_prefix_marks(v, s))
    } else {
        Err(EngineError::Resolution)
    }
}

/// Whether two character vectors are equal.
pub fn chars_eq(a: &Vec<char>, b: &Vec<char>) -> (r: bool)
    ensures
        r == (a@ == b@),
{
    if a.len() != b.len() {
        return false;
    }
    let mut i: usize = 0;
    while i < a.len()
        invariant
            i <= a@.len(),
            a@.len() == b@.len(),
            a@.take(i as int) == b@.take(i as int),
        decreases a@.len() - i,
    {
        if a[i] != b[i] {
            return false;
        }
        proof {
            assert(a@.take(i + 1) =~= a@.take(i as int).push(a@[i as int]));
            assert(b@.take(i + 1) =~= b@.take(i as int).push(b@[i as int]));
        }
        i = i + 1;
    }
    proof {
        assert(a@.take(i as int) =~= a@);
        assert(b@.take(i as int) =~= b@);
    }
    true
}

fn starts_with(s: &Vec<char>, p: &Vec<char>) -> (r: bool)
    ensures
        r == is_prefix_of(p@, s@),
{
    if p.len() > s.len() {
        return false;
    }
    let mut i: usize = 0;
    while i < p.len()
        invariant
            i <= p@.len() <= s@.len(),
            s@.take(i as int) == p@.take(i as int),
        decreases p@.len() - i,
    {
        if s[i] != p[i] {
            proof {
                assert(s@.take(p@.len() as int)[i as int] == s@[i as int]);
            }
            return false;
        }
        proof {
            assert(s@.take(i + 1) =~= s@.take(i as int).push(s@[i as int]));
            assert(p@.take(i + 1) =~= p@.take(i as int).push(p@[i as int]));
        }
        i = i + 1;
    }
    proof {
        assert(p@.take(i as int) =~= p@);
    }
    true
}

fn find_ref_exec(refs: &Vec<NamedRef>, name: &Vec<char>) -> (r: Option<usize>)
    ensures
        r is Some ==> r.unwrap() < refs@.len(),
        r is Some ==> find_ref(refs@, name@) == Some(r.unwrap() as int),
        r is None ==> find_ref(refs@, name@) is None,
{
    let mut i: usize = 0;
    while i < refs.len()
        invariant
            i <= refs@.len(),
            find_ref(refs@.take(i as int), name@) is None,
        decreases refs@.len() - i,
    {
        let cs = chars_of(refs[i].name.as_str());
        proof {
            assert(refs@.take(i + 1).drop_last() =~= refs@.take(i as int));
        }
        if chars_eq(&cs, name) {
            proof {
                lemma_find_ref_prefix(refs@, name@, i + 1);
                lemma_find_ref_bounds(refs@, name@);
            }
            return Some(i);
        }
        i = i + 1;
    }
    proof {
        assert(refs@.take(i as int) =~= refs@);
    }
    None
}

proof fn lemma_find_ref_prefix(refs: Seq<NamedRef>, name: Seq<char>, j: int)
    requires
        0 <= j <= refs.len(),
        find_ref(refs.take(j), name) is Some,
    ensures
        find_ref(refs, name) == find_ref(refs.take(j), name),
    decreases refs.len() - j,
{
    if j < refs.len() {
        assert(refs.take(j + 1).drop_last() =~= refs.take(j));
        lemma_find_ref_prefix(refs, name, j + 1);
    } else {
        assert(refs.take(j) =~= refs);
    }
}

/// The one marked position, or why there is not exactly one.
fn single_match_exec(m: &Vec<bool>) -> (r: Result<usize, EngineError>)
    ensures
        match single_match(m@) {
            Ok(i) => r == Ok::<usize, EngineError>(i as usize),
            Err(e) => r == Err::<usize, EngineError>(e),
        },
{
    let mut count: usize = 0;
    let mut first: usize = 0;
    let mut i: usize = 0;
    while i < m.len()
        invariant
            i <= m@.len(),
            count == count_true(m@.take(i as int)) || (count == 2 && count_true(m@.take(i as int)) >= 2),
            count <= 2,
            count > 0 ==> first as int == first_true(m@.take(i as int)),
        decreases m@.len() - i,
    {
        proof {
            assert(m@.take(i + 1).drop_last() =~= m@.take(i as int));
        }
        if m[i] {
            if count == 0 {
                first = i;
            }
            if count < 2 {
                count = count + 1;
            }
        }
        i = i + 1;
    }
    proof {
        assert(m@.take(i as int) =~= m@);
    }
    if count == 0 {
        Err(EngineError::NotFound)
    } else if count == 1 {
        Ok(first)
    } else {
        Err(EngineError::AmbiguousReference)
    }
}

fn all_reverse_hex(s: &Vec<char>) -> (r: bool)
    ensures
        r == (forall|k: int| 0 <= k < s@.len() ==> #[trigger] is_reverse_hex_char(s@[k])),
{
    let mut i: usize = 0;
    while i < s.len()
        invariant
            i <= s@.len(),
            forall|k: int| 0 <= k < i ==> #[trigger] is_reverse_hex_char(s@[k]),
        decreases s@.len() - i,
    {
        if !('k' <= s[i] && s[i] <= 'z') {
            assert(!is_reverse_hex_char(s@[i as int]));
            return false;
        }
        i = i + 1;
    }
    true
}

fn all_hex(s: &Vec<char>) -> (r: bool)
    ensures
        r == (forall|k: int| 0 <= k < s@.len() ==> #[trigger] is_hex_char(s@[k])),
{
    let mut i: usize = 0;
    while i < s.len()
        invariant
            i <= s@.len(),
            forall|k: int| 0 <= k < i ==> #[trigger] is_hex_char(s@[k]),
        decreases s@.len() - i,
    {
        let c = s[i];
        if !(('0' <= c && c <= '9') || ('a' <= c && c <= 'f')) {
            assert(!is_hex_char(s@[i as int]));
            return false;
        }
        i = i + 1;
    }
    true
}

impl RepoView {
    /// Resolves a textual reference to the position of a visible commit.
    pub fn resolve(&self, s: &Vec<char>) -> (r: Result<usize, EngineError>)
        requires
            self.wf(),
        ensures
            match resolve_symbol(*self, s@) {
                Ok(i) => r == Ok::<usize, EngineError>(i as usize),
                Err(e) => r == Err::<usize, EngineError>(e),
            },
            r is Ok ==> self.visible(r.unwrap() as int),
            resolve_symbol(*self, s@) is Ok ==> self.visible(resolve_symbol(*self, s@).unwrap()),
            r is Ok ==> resolve_symbol(*self, s@) == Ok::<int, EngineError>(r.unwrap() as int),
            r is Err ==> resolve_symbol(*self, s@) == Err::<int, EngineError>(r->Err_0),
    {
        proof {
            lemma_first_true(change_prefix_marks(*self, s@));
            lemma_first_true(commit_prefix_marks(*self, s@));
            lemma_find_ref_bounds(self.bookmarks@, s@);
            lemma_find_ref_bounds(self.tags@, s@);
        }
        match find_ref_exec(&self.bookmarks, s) {
            Some(k) => {
                return Ok(self.bookmarks[k].target);
            },
            None => {},
        }
        match find_ref_exec(&self.tags, s) {
            Some(k) => {
                return Ok(self.tags[k].target);
            },
            None => {},
        }
        if s.len() > 0 && all_reverse_hex(s) {
            let mut m: Vec<bool> = Vec::new();
            let mut i: usize = 0;
            while i < self.commits.len()
                invariant
                    i <= self.commits@.len(),
                    m@ == change_prefix_marks(*self, s@).take(i as int),
                decreases self.commits@.len() - i,
            {
                let c = &self.commits[i];
                let enc = crate::codec::encode_reverse_hex(c.change_id.as_slice());
                let ec = chars_of(enc.as_str());
                let hit = !c.hidden && starts_with(&ec, s);
                m.push(hit);
                proof {
                    assert(m@ =~= change_prefix_marks(*self, s@).take(i + 1));
                }
                i = i + 1;
            }
            proof {
                assert(m@ =~= change_prefix_marks(*self, s@));
            }
            return match single_match_exec(&m) {
                Ok(i) => Ok(i),
                Err(e) => Err(e),
            };
        }
        if s.len() > 0 && all_hex(s) {
            let mut m: Vec<bool> = Vec::new();
            let mut i: usize = 0;
            while i < self.commits.len()
                invariant
                    i <= self.commits@.len(),
                    m@ == commit_prefix_marks(*self, s@).take(i as int),
                decreases self.commits@.len() - i,
            {
                let c = &self.commits[i];
                let enc = crate::codec::encode_hex(c.commit_id.as_slice());
                let ec = chars_of(enc.as_str());
                let hit = !c.hidden && starts_with(&ec, s);
                m.push(hit);
                proof {
                    assert(m@ =~= commit_prefix_marks(*self, s@).take(i + 1));
                }
                i = i + 1;
            }
            proof {
                assert(m@ =~= commit_prefix_marks(*self, s@));
            }
            return match single_match_exec(&m) {
                Ok(i) => Ok(i),
                Err(e) => Err(e),
            };
        }
        Err(EngineError::Resolution)
    }
}


fn refs_visible(v: &RepoView, refs: &Vec<NamedRef>) -> (r: bool)
    ensures
        r == forall|k: int| 0 <= k < refs@.len() ==> v.visible(#[trigger] refs@[k].target as int),
{
    let mut k: usize = 0;
    while k < refs.len()
        invariant
            k <= refs@.len(),
            forall|j: int| 0 <= j < k ==> v.visible(#[trigger] refs@[j].target as int),
        decreases refs@.len() - k,
    {
        let t = refs[k].target;
        if t >= v.commits.len() || v.commits[t].hidden {
            assert(!v.visible(refs@[k as int].target as int));
            return false;
        }
        k = k + 1;
    }
    true
}

impl RepoView {
    /// Whether the view holds its invariant, for views built outside the
    /// library.
    pub fn check_wf(&self) -> (r: bool)
        ensures
            r == self.wf(),
    {
        let n = self.commits.len();
        if n == 0 {
            return false;
        }
        if self.commits[0].parents.len() != 0 || self.commits[0].hidden {
            return false;
        }
        if self.wc >= n || self.commits[self.wc].hidden {
            return false;
        }
        let mut i: usize = 0;
        while i < n
            invariant
                n == self.len(),
                i <= n,
                forall|ii: int, k: int|
                    0 <= ii < i && 0 <= k < self.parents_of(ii).len() ==> #[trigger] self.parents_of(ii)[k] < ii,
                forall|ii: int, k: int|
                    0 <= ii < i && self.visible(ii) && 0 <= k < self.parents_of(ii).len() ==> self.visible(
                        #[trigger] self.parents_of(ii)[k] as int,
                    ),
            decreases n - i,
        {
            let ps = &self.commits[i].parents;
            let hid = self.commits[i].hidden;
            let mut k: usize = 0;
            while k < ps.len()
                invariant
                    n == self.len(),
                    i < n,
                    ps@ == self.parents_of(i as int),
                    hid == self.commits@[i as int].hidden,
                    k <= ps@.len(),
                    forall|ii: int, kk: int|
                        0 <= ii < i && 0 <= kk < self.parents_of(ii).len() ==> #[trigger] self.parents_of(ii)[kk] < ii,
                    forall|ii: int, kk: int|
                        0 <= ii < i && self.visible(ii) && 0 <= kk < self.parents_of(ii).len() ==> self.visible(
                            #[trigger] self.parents_of(ii)[kk] as int,
                        ),
                    forall|kk: int| 0 <= kk < k ==> #[trigger] ps@[kk] < i,
                    forall|kk: int| 0 <= kk < k && !hid ==> self.visible(#[trigger] ps@[kk] as int),
                decreases ps@.len() - k,
            {
                let p = ps[k];
                if p >= i {
                    assert(!(self.parents_of(i as int)[k as int] < i));
                    return false;
                }
                if !hid && self.commits[p].hidden {
                    assert(self.visible(i as int));
                    assert(!self.visible(self.parents_of(i as int)[k as int] as int));
                    return false;
                }
                k = k + 1;
            }
            proof {
                assert forall|ii: int, kk: int|
                    0 <= ii < i + 1 && 0 <= kk < self.parents_of(ii).len() implies #[trigger] self.parents_of(ii)[kk] < ii by {
                    if ii == i {
                        assert(ps@[kk] < i);
                    }
                }
                assert forall|ii: int, kk: int|
                    0 <= ii < i + 1 && self.visible(ii) && 0 <= kk < self.parents_of(ii).len() implies self.visible(
                        #[trigger] self.parents_of(ii)[kk] as int,
                    ) by {
                    if ii == i {
                        assert(self.visible(ps@[kk] as int));
                    }
                }
            }
            i = i + 1;
        }
        let bv = refs_visible(self, &self.bookmarks);
        let tv = refs_visible(self, &self.tags);
        let mut k: usize = 0;
        while k < self.remote_bookmarks.len()
            invariant
                k <= self.remote_bookmarks@.len(),
                forall|j: int| 0 <= j < k ==> self.visible(#[trigger] self.remote_bookmarks@[j].target as int),
            decreases self.remote_bookmarks@.len() - k,
        {
            let t = self.remote_bookmarks[k].target;
            if t >= self.commits.len() || self.commits[t].hidden {
                assert(!self.visible(self.remote_bookmarks@[k as int].target as int));
                return false;
            }
            k = k + 1;
        }
        bv && tv
    }
}

} // verus!
