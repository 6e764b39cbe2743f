//! The revision log: a query's members, newest first, each annotated for
//! display.

use vstd::prelude::*;

use crate::annotate::{
    byte_views, divergence, divergent_index_at, first_line, format_timestamp, is_divergent_at,
    summary_line, timestamp_text,
};
use crate::codec::{
    encode_reverse_hex, format_change_id, format_commit_id, hex, reverse_hex, short_bytes,
    shortest_unique_prefix_len,
};
use crate::graph::{edges_of, EdgeType, GraphEdge};
use crate::parse::{parse_revset, Alias};
use crate::repo::{EngineError, RepoView};
use crate::revset::{eval, ordered_members, Expr};
use crate::text::{chars_of, string_of};

verus! {

/// An edge of the log graph, with its target's short commit id.
#[derive(Clone, Debug)]
pub struct ParentEdge {
    pub parent_id: String,
    pub edge_type: EdgeType,
}

/// One entry of the log.
#[derive(Clone, Debug)]
pub struct Revision {
    pub commit_id: String,
    pub change_id: String,
    /// The shortest unique prefix of the change id, followed by `/` and the
    /// divergence index where the change is divergent.
    pub change_id_short: String,
    pub parent_ids: Vec<String>,
    pub parent_edges: Vec<ParentEdge>,
    pub description: String,
    pub author: String,
    pub timestamp: String,
    pub is_working_copy: bool,
    pub is_immutable: bool,
    pub is_mine: bool,
    pub is_trunk: bool,
    pub is_divergent: bool,
    pub divergent_index: usize,
    pub bookmarks: Vec<String>,
}

/// What a log query needs besides the repository: who the user is, the
/// current time, and the registered aliases.
#[derive(Clone, Debug)]
pub struct LogConfig {
    pub user_email: String,
    pub now_ms: i64,
    pub aliases: Vec<Alias>,
}

pub open spec fn change_ids(v: RepoView, nodes: Seq<usize>) -> Seq<Seq<u8>> {
    nodes.map_values(|i: usize| v.commits@[i as int].change_id@)
}

/// What the log says of the commit at position `i`, the `k`th member of
/// the result `nodes`, apart from its short id, edges and the sets that
/// aliases define.
pub open spec fn describes(
    v: RepoView,
    m: Seq<bool>,
    nodes: Seq<usize>,
    k: int,
    rev: Revision,
    user_email: Seq<char>,
    now_ms: int,
) -> bool {
    let i = nodes[k] as int;
    let c = v.commits@[i];
    &&& rev.commit_id@ == hex(short_bytes(c.commit_id@))
    &&& rev.change_id@ == reverse_hex(short_bytes(c.change_id@))
    &&& rev.description@ == summary_line(c.description@)
    &&& rev.author@ == c.author.name@
    &&& rev.timestamp@ == timestamp_text(c.committer.timestamp_ms as int, now_ms, i == 0)
    &&& rev.is_working_copy == (i == v.wc)
    &&& rev.is_mine == (c.author.email@ == user_email)
    &&& rev.is_divergent == is_divergent_at(change_ids(v, nodes), k)
    &&& rev.divergent_index == divergent_index_at(change_ids(v, nodes), k)
    &&& rev.parent_ids@.len() == c.parents@.len()
    &&& forall|q: int|
        0 <= q < c.parents@.len() ==> #[trigger] rev.parent_ids@[q]@ == hex(
            short_bytes(v.commits@[c.parents@[q] as int].commit_id@),
        )
    &&& rev.parent_edges@.len() == edges_of(v, m, i).len()
    &&& forall|q: int|
        0 <= q < rev.parent_edges@.len() ==> {
            let e = edges_of(v, m, i)[q];
            &&& #[trigger] rev.parent_edges@[q].edge_type == e.edge_type
            &&& rev.parent_edges@[q].parent_id@ == hex(short_bytes(v.commits@[e.target as int].commit_id@))
        }
    &&& rev.bookmarks@.len() == bookmark_names(v.bookmarks@, i).len()
    &&& forall|q: int| 0 <= q < rev.bookmarks@.len() ==> #[trigger] rev.bookmarks@[q]@ == bookmark_names(v.bookmarks@, i)[q]
}


/// Names of the references that point to position `i`, in order.
pub open spec fn bookmark_names(refs: Seq<crate::repo::NamedRef>, i: int) -> Seq<Seq<char>>
    decreases refs.len(),
{
    if refs.len() == 0 {
        Seq::empty()
    } else {
        let r = bookmark_names(refs.drop_last(), i);
        if refs.last().target == i {
            r.push(refs.last().name@)
        } else {
            r
        }
    }
}

/// The members of a set that an expression denotes, or the root alone
/// where it names what does not exist.
pub open spec fn marks_or_root(v: RepoView, e: Expr) -> Seq<bool> {
    match eval(v, e) {
        Ok(s) => s,
        Err(_) => crate::revset::single_set(v.len() as nat, 0),
    }
}

/// Commits on trunk: ancestors of what `trunk` denotes.
pub open spec fn trunk_set(v: RepoView, trunk: Expr) -> Seq<bool> {
    crate::revset::ancestors_set(v, marks_or_root(v, trunk))
}

/// Immutable commits: ancestors of the root and of the immutable heads.
pub open spec fn immutable_set(v: RepoView, heads: Expr) -> Seq<bool> {
    crate::revset::ancestors_set(
        v,
        crate::revset::union_set(crate::revset::single_set(v.len() as nat, 0), marks_or_root(v, heads)),
    )
}

/// Every visible commit's change id in the reversed alphabet, by position.
pub open spec fn change_universe(v: RepoView, k: int) -> Seq<Seq<char>>
    decreases k,
{
    if k <= 0 {
        Seq::empty()
    } else {
        let u = change_universe(v, k - 1);
        if v.visible(k - 1) {
            u.push(reverse_hex(v.commits@[k - 1].change_id@))
        } else {
            u
        }
    }
}


/// The short display id: the first `n` characters of the display form, and
/// for a divergent change a slash and its divergence index.
pub open spec fn short_id_text(display: Seq<char>, n: int, divergent: bool, index: nat) -> Seq<char> {
    let head = if n < display.len() {
        display.take(n)
    } else {
        display
    };
    if divergent {
        head + seq!['/'] + crate::annotate::decimal(index)
    } else {
        head
    }
}

/// The short id of the `k`th member is its shortest unique prefix among all
/// visible change ids, cut to the display form.
pub open spec fn short_id_ok(v: RepoView, nodes: Seq<usize>, k: int, rev: Revision) -> bool {
    let c = v.commits@[nodes[k] as int];
    exists|n: int|
        crate::codec::is_shortest_unique_prefix(
            reverse_hex(c.change_id@),
            change_universe(v, v.len()),
            n,
        ) && rev.change_id_short@ == #[trigger] short_id_text(
            reverse_hex(short_bytes(c.change_id@)),
            n,
            is_divergent_at(change_ids(v, nodes), k),
            divergent_index_at(change_ids(v, nodes), k),
        )
}

fn push_chars(out: &mut Vec<char>, s: &Vec<char>)
    ensures
        final(out)@ == old(out)@ + s@,
{
    let mut i: usize = 0;
    while i < s.len()
        invariant
            i <= s@.len(),
            out@ == old(out)@ + s@.take(i as int),
        decreases s@.len() - i,
    {
        out.push(s[i]);
        proof {
            assert(s@.take(i + 1) =~= s@.take(i as int).push(s@[i as int]));
        }
        i = i + 1;
    }
    proof {
        assert(s@.take(i as int) =~= s@);
    }
}

fn short_change_id(display: &String, n: usize, divergent: bool, index: usize) -> (r: String)
    ensures
        r@ == short_id_text(display@, n as int, divergent, index as nat),
{
    let cs = chars_of(display.as_str());
    let end = if n < cs.len() {
        n
    } else {
        cs.len()
    };
    let mut out: Vec<char> = Vec::new();
    let mut i: usize = 0;
    while i < end
        invariant
            i <= end <= cs@.len(),
            out@ == cs@.take(i as int),
        decreases end - i,
    {
        out.push(cs[i]);
        proof {
            assert(cs@.take(i + 1) =~= cs@.take(i as int).push(cs@[i as int]));
        }
        i = i + 1;
    }
    proof {
        if n >= cs@.len() {
            assert(cs@.take(i as int) =~= cs@);
        }
    }
    if divergent {
        out.push('/');
        let digits = crate::annotate::decimal_chars(index as u64);
        push_chars(&mut out, &digits);
        proof {
            assert(out@ =~= short_id_text(display@, n as int, divergent, index as nat));
        }
    }
    string_of(&out)
}

fn universe_of(v: &RepoView) -> (r: Vec<String>)
    ensures
        crate::codec::views_of(r@) == change_universe(*v, v.len()),
{
    let mut r: Vec<String> = Vec::new();
    let mut k: usize = 0;
    while k < v.commits.len()
        invariant
            k <= v.len(),
            crate::codec::views_of(r@) == change_universe(*v, k as int),
        decreases v.len() - k,
    {
        let c = &v.commits[k];
        if !c.hidden {
            let s = encode_reverse_hex(c.change_id.as_slice());
            let ghost before = r@;
            r.push(s);
            proof {
                assert(crate::codec::views_of(r@) =~= crate::codec::views_of(before).push(s@));
            }
        }
        k = k + 1;
    }
    r
}

fn bookmarks_at(v: &RepoView, i: usize) -> (r: Vec<String>)
    ensures
        r@.len() == bookmark_names(v.bookmarks@, i as int).len(),
        forall|q: int| 0 <= q < r@.len() ==> #[trigger] r@[q]@ == bookmark_names(v.bookmarks@, i as int)[q],
{
    let mut r: Vec<String> = Vec::new();
    let mut k: usize = 0;
    while k < v.bookmarks.len()
        invariant
            k <= v.bookmarks@.len(),
            r@.len() == bookmark_names(v.bookmarks@.take(k as int), i as int).len(),
            forall|q: int|
                0 <= q < r@.len() ==> #[trigger] r@[q]@ == bookmark_names(v.bookmarks@.take(k as int), i as int)[q],
        decreases v.bookmarks@.len() - k,
    {
        proof {
            assert(v.bookmarks@.take(k + 1).drop_last() =~= v.bookmarks@.take(k as int));
        }
        if v.bookmarks[k].target == i {
            r.push(v.bookmarks[k].name.clone());
        }
        k = k + 1;
    }
    proof {
        assert(v.bookmarks@.take(k as int) =~= v.bookmarks@);
    }
    r
}


fn edge_records(v: &RepoView, es: &Vec<GraphEdge>) -> (r: Vec<ParentEdge>)
    requires
        forall|q: int| 0 <= q < es@.len() ==> #[trigger] es@[q].target < v.len(),
    ensures
        r@.len() == es@.len(),
        forall|q: int|
            0 <= q < r@.len() ==> {
                &&& #[trigger] r@[q].edge_type == es@[q].edge_type
                &&& r@[q].parent_id@ == hex(short_bytes(v.commits@[es@[q].target as int].commit_id@))
            },
{
    let mut r: Vec<ParentEdge> = Vec::new();
    let mut q: usize = 0;
    while q < es.len()
        invariant
            q <= es@.len(),
            forall|t: int| 0 <= t < es@.len() ==> #[trigger] es@[t].target < v.len(),
            r@.len() == q,
            forall|t: int|
                0 <= t < q ==> {
                    &&& #[trigger] r@[t].edge_type == es@[t].edge_type
                    &&& r@[t].parent_id@ == hex(short_bytes(v.commits@[es@[t].target as int].commit_id@))
                },
        decreases es@.len() - q,
    {
        let e = es[q];
        let id = format_commit_id(v.commits[e.target].commit_id.as_slice());
        r.push(ParentEdge { parent_id: id, edge_type: e.edge_type });
        q = q + 1;
    }
    r
}

fn parent_ids_of(v: &RepoView, i: usize) -> (r: Vec<String>)
    requires
        v.wf(),
        i < v.len(),
    ensures
        r@.len() == v.parents_of(i as int).len(),
        forall|q: int|
            0 <= q < r@.len() ==> #[trigger] r@[q]@ == hex(
                short_bytes(v.commits@[v.parents_of(i as int)[q] as int].commit_id@),
            ),
{
    let ps = &v.commits[i].parents;
    let mut r: Vec<String> = Vec::new();
    let mut q: usize = 0;
    while q < ps.len()
        invariant
            v.wf(),
            i < v.len(),
            ps@ == v.parents_of(i as int),
            q <= ps@.len(),
            r@.len() == q,
            forall|t: int|
                0 <= t < q ==> #[trigger] r@[t]@ == hex(short_bytes(v.commits@[ps@[t] as int].commit_id@)),
        decreases ps@.len() - q,
    {
        assert(ps@[q as int] < i) by {
            assert(v.parents_of(i as int)[q as int] < i);
        }
        let id = format_commit_id(v.commits[ps[q]].commit_id.as_slice());
        r.push(id);
        q = q + 1;
    }
    r
}


/// What the log states of its `k`th entry apart from the alias-defined
/// flags.
pub open spec fn entry_core_ok(v: RepoView, m: Seq<bool>, k: int, rev: Revision, config: LogConfig) -> bool {
    &&& describes(v, m, ordered_members(m), k, rev, config.user_email@, config.now_ms as int)
    &&& short_id_ok(v, ordered_members(m), k, rev)
}

/// What the log states of its `k`th entry.
pub open spec fn entry_ok(
    v: RepoView,
    m: Seq<bool>,
    k: int,
    rev: Revision,
    config: LogConfig,
    trunk: Expr,
    immutable_heads: Expr,
) -> bool {
    let nodes = ordered_members(m);
    let i = nodes[k] as int;
    &&& describes(v, m, nodes, k, rev, config.user_email@, config.now_ms as int)
    &&& short_id_ok(v, nodes, k, rev)
    &&& rev.is_immutable == immutable_set(v, immutable_heads)[i]
    &&& rev.is_trunk == trunk_set(v, trunk)[i]
}

fn build_revision(
    v: &RepoView,
    m: &Vec<bool>,
    nodes: &Vec<usize>,
    k: usize,
    div: &Vec<(bool, usize)>,
    imm: &Vec<bool>,
    trunk: &Vec<bool>,
    universe: &Vec<String>,
    config: &LogConfig,
) -> (r: Revision)
    requires
        v.wf(),
        m@.len() == v.len(),
        nodes@ == ordered_members(m@),
        forall|q: int| 0 <= q < nodes@.len() ==> #[trigger] nodes@[q] < v.len(),
        k < nodes@.len(),
        div@.len() == nodes@.len(),
        forall|q: int| 0 <= q < nodes@.len() ==> #[trigger] divergent_index_at(change_ids(*v, nodes@), q) <= q,
        forall|q: int|
            0 <= q < nodes@.len() ==> #[trigger] div@[q] == (
                is_divergent_at(change_ids(*v, nodes@), q),
                divergent_index_at(change_ids(*v, nodes@), q) as usize,
            ),
        imm@.len() == v.len(),
        trunk@.len() == v.len(),
        crate::codec::views_of(universe@) == change_universe(*v, v.len()),
    ensures
        describes(*v, m@, nodes@, k as int, r, config.user_email@, config.now_ms as int),
        short_id_ok(*v, nodes@, k as int, r),
        r.is_immutable == imm@[nodes@[k as int] as int],
        r.is_trunk == trunk@[nodes@[k as int] as int],
{
    let i = nodes[k];
    let c = &v.commits[i];
    let commit_id = format_commit_id(c.commit_id.as_slice());
    let change_id = format_change_id(c.change_id.as_slice());
    let full = encode_reverse_hex(c.change_id.as_slice());
    let n = shortest_unique_prefix_len(full.as_str(), universe);
    let (is_divergent, divergent_index) = div[k];
    let change_id_short = short_change_id(&change_id, n, is_divergent, divergent_index);
    let es = v.graph_edges(m, i);
    let parent_edges = edge_records(v, &es);
    let parent_ids = parent_ids_of(v, i);
    let description = first_line(c.description.as_str());
    let timestamp = format_timestamp(c.committer.timestamp_ms, config.now_ms, i == 0);
    let email = chars_of(c.author.email.as_str());
    let user = chars_of(config.user_email.as_str());
    let is_mine = crate::repo::chars_eq(&email, &user);
    let bookmarks = bookmarks_at(v, i);
    let r = Revision {
        commit_id,
        change_id,
        change_id_short,
        parent_ids,
        parent_edges,
        description,
        author: c.author.name.clone(),
        timestamp,
        is_working_copy: i == v.wc,
        is_immutable: imm[i],
        is_mine,
        is_trunk: trunk[i],
        is_divergent,
        divergent_index,
        bookmarks,
    };
    proof {
        let ghost nn = n as int;
        assert(short_id_text(
            reverse_hex(short_bytes(c.change_id@)),
            nn,
            is_divergent_at(change_ids(*v, nodes@), k as int),
            divergent_index_at(change_ids(*v, nodes@), k as int),
        ) == r.change_id_short@);
    }
    r
}

fn marks_or_root_exec(v: &RepoView, e: &Expr) -> (r: Vec<bool>)
    requires
        v.wf(),
    ensures
        r@ == marks_or_root(*v, *e),
        r@.len() == v.len(),
{
    match v.eval_marks(e) {
        Ok(x) => x,
        Err(_) => {
            let mut r = crate::revset::new_marks(v.commits.len());
            r.set(0, true);
            proof {
                assert(r@ =~= crate::revset::single_set(v.len() as nat, 0));
            }
            r
        },
    }
}

impl RepoView {
    /// The log of a query: its members, newest first, at most `limit` of
    /// them, each described for display; or why the query failed.
    pub fn log_of(
        &self,
        e: &Expr,
        limit: usize,
        config: &LogConfig,
        trunk: &Expr,
        immutable_heads: &Expr,
    ) -> (r: Result<Vec<Revision>, EngineError>)
        requires
            self.wf(),
        ensures
            eval(*self, *e) is Err ==> r == Err::<Vec<Revision>, EngineError>(eval(*self, *e)->Err_0),
            eval(*self, *e) is Ok ==> {
                let m = eval(*self, *e).unwrap();
                &&& r is Ok
                &&& r.unwrap()@.len() == if limit < ordered_members(m).len() {
                    limit as int
                } else {
                    ordered_members(m).len() as int
                }
                &&& forall|k: int|
                    0 <= k < r.unwrap()@.len() ==> entry_ok(
                        *self,
                        m,
                        k,
                        #[trigger] r.unwrap()@[k],
                        *config,
                        *trunk,
                        *immutable_heads,
                    )
            },
    {
        let m = match self.eval_marks(e) {
            Ok(m) => m,
            Err(x) => {
                return Err(x);
            },
        };
        let nodes = crate::revset::members_of(&m);
        let mut ids: Vec<Vec<u8>> = Vec::new();
        let mut q: usize = 0;
        while q < nodes.len()
            invariant
                q <= nodes@.len(),
                forall|t: int| 0 <= t < nodes@.len() ==> #[trigger] nodes@[t] < self.len(),
                byte_views(ids@) == change_ids(*self, nodes@).take(q as int),
            decreases nodes@.len() - q,
        {
            let ghost before = ids@;
            let cid = crate::annotate::copy_bytes(&self.commits[nodes[q]].change_id);
            ids.push(cid);
            proof {
                assert(byte_views(ids@) =~= byte_views(before).push(cid@));
                assert(change_ids(*self, nodes@).take(q + 1) =~= change_ids(*self, nodes@).take(q as int).push(
                    change_ids(*self, nodes@)[q as int],
                ));
                assert(byte_views(ids@) =~= change_ids(*self, nodes@).take(q + 1));
            }
            q = q + 1;
        }
        proof {
            assert(byte_views(ids@) =~= change_ids(*self, nodes@));
        }
        let div = divergence(&ids);
        let root = {
            let mut r = crate::revset::new_marks(self.commits.len());
            r.set(0, true);
            proof {
                assert(r@ =~= crate::revset::single_set(self.len() as nat, 0));
            }
            r
        };
        let heads = marks_or_root_exec(self, immutable_heads);
        let imm_base = crate::revset::union_marks(&root, &heads);
        let imm = crate::revset::ancestors_marks(self, &imm_base);
        let trunk_base = marks_or_root_exec(self, trunk);
        let trunk_marks = crate::revset::ancestors_marks(self, &trunk_base);
        let universe = universe_of(self);
        let count = if limit < nodes.len() {
            limit
        } else {
            nodes.len()
        };
        let mut out: Vec<Revision> = Vec::new();
        let mut k: usize = 0;
        while k < count
            invariant
                self.wf(),
                k <= count <= nodes@.len(),
                m@ == eval(*self, *e).unwrap(),
                eval(*self, *e) is Ok,
                m@.len() == self.len(),
                nodes@ == ordered_members(m@),
                forall|t: int| 0 <= t < nodes@.len() ==> #[trigger] nodes@[t] < self.len(),
                div@.len() == nodes@.len(),
                forall|t: int| 0 <= t < nodes@.len() ==> #[trigger] divergent_index_at(change_ids(*self, nodes@), t) <= t,
                forall|t: int|
                    0 <= t < nodes@.len() ==> #[trigger] div@[t] == (
                        is_divergent_at(change_ids(*self, nodes@), t),
                        divergent_index_at(change_ids(*self, nodes@), t) as usize,
                    ),
                imm@ == immutable_set(*self, *immutable_heads),
                imm@.len() == self.len(),
                trunk_marks@ == trunk_set(*self, *trunk),
                trunk_marks@.len() == self.len(),
                crate::codec::views_of(universe@) == change_universe(*self, self.len()),
                out@.len() == k,
                forall|t: int|
                    0 <= t < k ==> entry_ok(*self, m@, t, #[trigger] out@[t], *config, *trunk, *immutable_heads),
            decreases count - k,
        {
            let rev = build_revision(self, &m, &nodes, k, &div, &imm, &trunk_marks, &universe, config);
            out.push(rev);
            k = k + 1;
        }
        Ok(out)
    }
}


/// The set that the log shows when no query is given: every visible commit,
/// as the ancestors of the visible heads.
pub open spec fn default_log_set(v: RepoView) -> Seq<bool> {
    crate::revset::ancestors_set(v, crate::revset::heads_set(v))
}

/// The aliases that queries may use unless the configuration replaces
/// them: `trunk()` is the newest of the main, master or trunk remote
/// bookmarks (the root where there is none), and `immutable_heads()` is
/// trunk together with the tags and the untracked remote bookmarks.
pub fn default_aliases() -> (r: Vec<Alias>)
    ensures
        crate::parse::alias_views(r@) == seq![
            ("trunk"@, "latest(present(remote_bookmarks(main)) | present(remote_bookmarks(master)) | present(remote_bookmarks(trunk)) | root())"@),
            ("immutable_heads"@, "trunk() | tags() | untracked_remote_bookmarks()"@),
        ],
{
    let mut r: Vec<Alias> = Vec::new();
    r.push(Alias {
        name: crate::text::owned("trunk"),
        text: crate::text::owned(
            "latest(present(remote_bookmarks(main)) | present(remote_bookmarks(master)) | present(remote_bookmarks(trunk)) | root())",
        ),
    });
    r.push(Alias {
        name: crate::text::owned("immutable_heads"),
        text: crate::text::owned("trunk() | tags() | untracked_remote_bookmarks()"),
    });
    proof {
        assert(crate::parse::alias_views(r@) =~= seq![
            ("trunk"@, "latest(present(remote_bookmarks(main)) | present(remote_bookmarks(master)) | present(remote_bookmarks(trunk)) | root())"@),
            ("immutable_heads"@, "trunk() | tags() | untracked_remote_bookmarks()"@),
        ]);
    }
    r
}

/// What an alias call denotes: its parse, or the root where it does not
/// parse (the alias is missing or malformed).
pub open spec fn alias_or_root(al: crate::parse::Aliases, call: Seq<char>) -> crate::revset::ExprV {
    match crate::parse::p_whole(call, al, crate::parse::ALIAS_DEPTH as nat) {
        Some(x) => x,
        None => crate::revset::ExprV::Root,
    }
}

fn alias_expr(call: &str, aliases: &Vec<Alias>) -> (r: Expr)
    ensures
        crate::revset::view_of(r) == alias_or_root(crate::parse::alias_views(aliases@), call@),
{
    match parse_revset(call, aliases) {
        Ok(e) => e,
        Err(_) => {
            assert(crate::revset::view_of(Expr::Root) == crate::revset::ExprV::Root);
            Expr::Root
        },
    }
}

/// The flags that the aliases define, for every entry of a log of `m`.
pub open spec fn flags_ok(v: RepoView, m: Seq<bool>, rs: Seq<Revision>, al: crate::parse::Aliases) -> bool {
    forall|te: Expr, ie: Expr|
        crate::revset::view_of(te) == alias_or_root(al, "trunk()"@) && crate::revset::view_of(ie)
            == alias_or_root(al, "immutable_heads()"@) ==> forall|k: int|
            0 <= k < rs.len() ==> {
                &&& #[trigger] rs[k].is_trunk == trunk_set(v, te)[ordered_members(m)[k] as int]
                &&& rs[k].is_immutable == immutable_set(v, ie)[ordered_members(m)[k] as int]
            }
}

/// The log for a query text, or for every visible commit where there is
/// none: at most `limit` entries, newest first. `trunk()` and
/// `immutable_heads()` come from the configured aliases, the root standing
/// in for either where it is missing.
pub fn fetch_log(view: &RepoView, limit: usize, revset: Option<&str>, config: &LogConfig) -> (r: Result<
    Vec<Revision>,
    EngineError,
>)
    requires
        view.wf(),
    ensures
        revset is None ==> {
            let m = default_log_set(*view);
            &&& r is Ok
            &&& r.unwrap()@.len() == if limit < ordered_members(m).len() {
                limit as int
            } else {
                ordered_members(m).len() as int
            }
            &&& forall|k: int|
                0 <= k < r.unwrap()@.len() ==> entry_core_ok(*view, m, k, #[trigger] r.unwrap()@[k], *config)
            &&& flags_ok(*view, m, r.unwrap()@, crate::parse::alias_views(config.aliases@))
        },
        r is Err ==> r->Err_0 == EngineError::Parse || r->Err_0 == EngineError::Resolution
            || r->Err_0 == EngineError::NotFound || r->Err_0 == EngineError::AmbiguousReference,
        revset is Some ==> (crate::parse::p_whole(
            revset.unwrap()@,
            crate::parse::alias_views(config.aliases@),
            crate::parse::ALIAS_DEPTH as nat,
        ) is None <==> r == Err::<Vec<Revision>, EngineError>(EngineError::Parse)),
        revset is Some && crate::parse::p_whole(
            revset.unwrap()@,
            crate::parse::alias_views(config.aliases@),
            crate::parse::ALIAS_DEPTH as nat,
        ) is Some ==> forall|e: Expr|
            crate::revset::view_of(e) == crate::parse::p_whole(
                revset.unwrap()@,
                crate::parse::alias_views(config.aliases@),
                crate::parse::ALIAS_DEPTH as nat,
            ).unwrap() && #[trigger] eval(*view, e) is Err ==> r == Err::<Vec<Revision>, EngineError>(
                eval(*view, e)->Err_0,
            ),
        revset is Some && crate::parse::p_whole(
            revset.unwrap()@,
            crate::parse::alias_views(config.aliases@),
            crate::parse::ALIAS_DEPTH as nat,
        ) is Some ==> forall|e: Expr|
            crate::revset::view_of(e) == crate::parse::p_whole(
                revset.unwrap()@,
                crate::parse::alias_views(config.aliases@),
                crate::parse::ALIAS_DEPTH as nat,
            ).unwrap() && eval(*view, e) is Ok ==> {
                let m = #[trigger] eval(*view, e).unwrap();
                &&& r is Ok
                &&& r.unwrap()@.len() == if limit < ordered_members(m).len() {
                    limit as int
                } else {
                    ordered_members(m).len() as int
                }
                &&& forall|k: int|
                    0 <= k < r.unwrap()@.len() ==> entry_core_ok(*view, m, k, #[trigger] r.unwrap()@[k], *config)
                &&& flags_ok(*view, m, r.unwrap()@, crate::parse::alias_views(config.aliases@))
            },
{
    let trunk = alias_expr("trunk()", &config.aliases);
    let immutable_heads = alias_expr("immutable_heads()", &config.aliases);
    proof {
        assert forall|te: Expr, ie: Expr|
            crate::revset::view_of(te) == crate::revset::view_of(trunk) && crate::revset::view_of(ie)
                == crate::revset::view_of(immutable_heads) implies #[trigger] trunk_set(*view, te) == trunk_set(*view, trunk)
            && #[trigger] immutable_set(*view, ie) == immutable_set(*view, immutable_heads) by {
            crate::revset::lemma_eval_by_view(*view, te, trunk);
            crate::revset::lemma_eval_by_view(*view, ie, immutable_heads);
        }
    }
    match revset {
        Some(text) => {
            let e = match parse_revset(text, &config.aliases) {
                Ok(e) => e,
                Err(x) => {
                    return Err(x);
                },
            };
            proof {
                lemma_eval_errors(*view, e);
                assert forall|e2: Expr| crate::revset::view_of(e2) == crate::revset::view_of(e) implies #[trigger] eval(*view, e2) == eval(*view, e) by {
                    crate::revset::lemma_eval_by_view(*view, e2, e);
                }
            }
            view.log_of(&e, limit, config, &trunk, &immutable_heads)
        },
        None => {
            let e = Expr::Ancestors(Box::new(Expr::VisibleHeads), None);
            assert(eval(*view, Expr::VisibleHeads) == Ok::<Seq<bool>, EngineError>(crate::revset::heads_set(*view)));
            assert(eval(*view, e) == Ok::<Seq<bool>, EngineError>(default_log_set(*view)));
            view.log_of(&e, limit, config, &trunk, &immutable_heads)
        },
    }
}

/// Evaluation fails only to resolve a symbol.
pub proof fn lemma_eval_errors(v: RepoView, e: Expr)
    ensures
        eval(v, e) is Err ==> eval(v, e)->Err_0 == EngineError::Resolution || eval(v, e)->Err_0
            == EngineError::NotFound || eval(v, e)->Err_0 == EngineError::AmbiguousReference,
    decreases e,
{
    match e {
        Expr::Union(a, b) | Expr::Intersection(a, b) | Expr::Difference(a, b) | Expr::Range(a, b)
        | Expr::DagRange(a, b) => {
            lemma_eval_errors(v, *a);
            lemma_eval_errors(v, *b);
        },
        Expr::Ancestors(a, _) | Expr::Descendants(a) | Expr::Latest(a) | Expr::Present(a) => {
            lemma_eval_errors(v, *a);
        },
        _ => {},
    }
}

/// The outcome of resolving a query: the short change ids of its members,
/// newest first, or the failure, as data.
#[derive(Clone, Debug)]
pub struct QueryResolution {
    pub change_ids: Vec<String>,
    pub error: Option<EngineError>,
}

/// Resolves a query text to the short change ids of its members without
/// failing: a malformed or unresolvable query yields no ids and its error.
pub fn resolve_query(view: &RepoView, text: &str, aliases: &Vec<Alias>) -> (r: QueryResolution)
    requires
        view.wf(),
    ensures
        r.error is Some ==> r.change_ids@.len() == 0,
        crate::parse::p_whole(text@, crate::parse::alias_views(aliases@), crate::parse::ALIAS_DEPTH as nat)
            is None <==> r.error == Some(EngineError::Parse),
        forall|e: Expr|
            #![trigger eval(*view, e)]
            Some(crate::revset::view_of(e)) == crate::parse::p_whole(
                text@,
                crate::parse::alias_views(aliases@),
                crate::parse::ALIAS_DEPTH as nat,
            ) ==> {
                &&& eval(*view, e) is Err ==> r.error == Some(eval(*view, e)->Err_0)
                &&& eval(*view, e) is Ok ==> {
                    let m = eval(*view, e).unwrap();
                    &&& r.error is None
                    &&& r.change_ids@.len() == ordered_members(m).len()
                    &&& forall|k: int|
                        0 <= k < r.change_ids@.len() ==> #[trigger] r.change_ids@[k]@ == reverse_hex(
                            short_bytes(view.commits@[ordered_members(m)[k] as int].change_id@),
                        )
                }
            },
{
    let e = match parse_revset(text, aliases) {
        Ok(e) => e,
        Err(x) => {
            return QueryResolution { change_ids: Vec::new(), error: Some(x) };
        },
    };
    proof {
        lemma_eval_errors(*view, e);
        assert forall|e2: Expr| crate::revset::view_of(e2) == crate::revset::view_of(e) implies #[trigger] eval(*view, e2) == eval(*view, e) by {
            crate::revset::lemma_eval_by_view(*view, e2, e);
        }
    }
    match view.evaluate(&e) {
        Err(x) => QueryResolution { change_ids: Vec::new(), error: Some(x) },
        Ok(nodes) => {
            let ghost m = eval(*view, e).unwrap();
            proof {
                crate::revset::lemma_members_in_range(m);
            }
            let mut ids: Vec<String> = Vec::new();
            let mut k: usize = 0;
            while k < nodes.len()
                invariant
                    view.wf(),
                    eval(*view, e) is Ok,
                    m == eval(*view, e).unwrap(),
                    m.len() == view.len(),
                    nodes@ == ordered_members(m),
                    forall|t: int| 0 <= t < nodes@.len() ==> #[trigger] nodes@[t] < m.len(),
                    k <= nodes@.len(),
                    ids@.len() == k,
                    forall|t: int|
                        0 <= t < k ==> #[trigger] ids@[t]@ == reverse_hex(
                            short_bytes(view.commits@[nodes@[t] as int].change_id@),
                        ),
                decreases nodes@.len() - k,
            {
                ids.push(format_change_id(view.commits[nodes[k]].change_id.as_slice()));
                k = k + 1;
            }
            QueryResolution { change_ids: ids, error: None }
        },
    }
}


/// In a log, three entries whose commits share one change id that no other
/// entry of the result has are all divergent, numbered 0, 1 and 2 in log
/// order, and their short ids are a unique prefix followed by `/0`, `/1`
/// and `/2`.
pub proof fn lemma_log_three_divergent(
    v: RepoView,
    m: Seq<bool>,
    rs: Seq<Revision>,
    config: LogConfig,
    k1: int,
    k2: int,
    k3: int,
)
    requires
        rs.len() <= ordered_members(m).len(),
        forall|k: int| 0 <= k < rs.len() ==> entry_core_ok(v, m, k, #[trigger] rs[k], config),
        0 <= k1 < k2 < k3 < rs.len(),
        change_ids(v, ordered_members(m))[k1] == change_ids(v, ordered_members(m))[k2],
        change_ids(v, ordered_members(m))[k2] == change_ids(v, ordered_members(m))[k3],
        forall|j: int|
            0 <= j < ordered_members(m).len() && #[trigger] change_ids(v, ordered_members(m))[j]
                == change_ids(v, ordered_members(m))[k1] ==> j == k1 || j == k2 || j == k3,
    ensures
        rs[k1].is_divergent && rs[k2].is_divergent && rs[k3].is_divergent,
        rs[k1].divergent_index == 0 && rs[k2].divergent_index == 1 && rs[k3].divergent_index == 2,
        exists|n: int| #[trigger] rs[k1].change_id_short@ == short_id_text(rs[k1].change_id@, n, false, 0) + seq!['/', '0'],
        exists|n: int| #[trigger] rs[k2].change_id_short@ == short_id_text(rs[k2].change_id@, n, false, 0) + seq!['/', '1'],
        exists|n: int| #[trigger] rs[k3].change_id_short@ == short_id_text(rs[k3].change_id@, n, false, 0) + seq!['/', '2'],
{
    let ids = change_ids(v, ordered_members(m));
    crate::annotate::lemma_three_divergent(ids, k1, k2, k3);
    assert(entry_core_ok(v, m, k1, rs[k1], config));
    assert(entry_core_ok(v, m, k2, rs[k2], config));
    assert(entry_core_ok(v, m, k3, rs[k3], config));
    assert(crate::annotate::decimal(0) == seq!['0']);
    assert(crate::annotate::decimal(1) == seq!['1']);
    assert(crate::annotate::decimal(2) == seq!['2']);
    let n1 = choose|n: int|
        crate::codec::is_shortest_unique_prefix(
            reverse_hex(v.commits@[ordered_members(m)[k1] as int].change_id@),
            change_universe(v, v.len()),
            n,
        ) && rs[k1].change_id_short@ == #[trigger] short_id_text(
            reverse_hex(short_bytes(v.commits@[ordered_members(m)[k1] as int].change_id@)),
            n,
            is_divergent_at(ids, k1),
            divergent_index_at(ids, k1),
        );
    assert(rs[k1].change_id_short@ == short_id_text(rs[k1].change_id@, n1, false, 0) + seq!['/', '0']);
    let n2 = choose|n: int|
        crate::codec::is_shortest_unique_prefix(
            reverse_hex(v.commits@[ordered_members(m)[k2] as int].change_id@),
            change_universe(v, v.len()),
            n,
        ) && rs[k2].change_id_short@ == #[trigger] short_id_text(
            reverse_hex(short_bytes(v.commits@[ordered_members(m)[k2] as int].change_id@)),
            n,
            is_divergent_at(ids, k2),
            divergent_index_at(ids, k2),
        );
    assert(rs[k2].change_id_short@ == short_id_text(rs[k2].change_id@, n2, false, 0) + seq!['/', '1']);
    let n3 = choose|n: int|
        crate::codec::is_shortest_unique_prefix(
            reverse_hex(v.commits@[ordered_members(m)[k3] as int].change_id@),
            change_universe(v, v.len()),
            n,
        ) && rs[k3].change_id_short@ == #[trigger] short_id_text(
            reverse_hex(short_bytes(v.commits@[ordered_members(m)[k3] as int].change_id@)),
            n,
            is_divergent_at(ids, k3),
            divergent_index_at(ids, k3),
        );
    assert(rs[k3].change_id_short@ == short_id_text(rs[k3].change_id@, n3, false, 0) + seq!['/', '2']);
}


/// In a log, an entry whose change id no other entry of the result has is
/// not divergent, and its short id is the bare unique prefix.
pub proof fn lemma_log_single_not_divergent(v: RepoView, m: Seq<bool>, rs: Seq<Revision>, config: LogConfig, k: int)
    requires
        rs.len() <= ordered_members(m).len(),
        0 <= k < rs.len(),
        entry_core_ok(v, m, k, rs[k], config),
        forall|j: int|
            0 <= j < ordered_members(m).len() && #[trigger] change_ids(v, ordered_members(m))[j]
                == change_ids(v, ordered_members(m))[k] ==> j == k,
    ensures
        !rs[k].is_divergent,
        rs[k].divergent_index == 0,
        exists|n: int| #[trigger] rs[k].change_id_short@ == short_id_text(rs[k].change_id@, n, false, 0),
{
    let ids = change_ids(v, ordered_members(m));
    crate::annotate::lemma_unique_not_divergent(ids, k);
}

/// In a log, an entry whose commit has a parent in the queried set shows a
/// direct edge to that parent's short commit id.
pub proof fn lemma_log_direct_edge(v: RepoView, m: Seq<bool>, rs: Seq<Revision>, config: LogConfig, k: int, q: int)
    requires
        v.wf(),
        m.len() == v.len(),
        rs.len() <= ordered_members(m).len(),
        0 <= k < rs.len(),
        entry_core_ok(v, m, k, rs[k], config),
        0 <= q < v.parents_of(ordered_members(m)[k] as int).len(),
        m[v.parents_of(ordered_members(m)[k] as int)[q] as int],
    ensures
        exists|j: int|
            0 <= j < rs[k].parent_edges@.len() && #[trigger] rs[k].parent_edges@[j].edge_type == EdgeType::Direct
                && rs[k].parent_edges@[j].parent_id@ == hex(
                short_bytes(v.commits@[v.parents_of(ordered_members(m)[k] as int)[q] as int].commit_id@),
            ),
{
    let i = ordered_members(m)[k] as int;
    crate::revset::lemma_members_in_range(m);
    crate::graph::lemma_member_parent_is_direct(v, m, i, q);
    let es = edges_of(v, m, i);
    let j = choose|j: int|
        0 <= j < es.len() && #[trigger] es[j] == (GraphEdge {
            target: v.parents_of(i)[q],
            edge_type: EdgeType::Direct,
        });
    assert(rs[k].parent_edges@[j].edge_type == es[j].edge_type);
}

/// In a log, a member that a walk reaches from a parent outside the set,
/// through commits outside the set, is shown as an edge of the entry; the
/// edge is indirect unless that member is itself a parent.
pub proof fn lemma_log_reached_edge(
    v: RepoView,
    m: Seq<bool>,
    rs: Seq<Revision>,
    config: LogConfig,
    k: int,
    q: int,
    path: Seq<int>,
)
    requires
        v.wf(),
        m.len() == v.len(),
        v.len() <= usize::MAX,
        rs.len() <= ordered_members(m).len(),
        0 <= k < rs.len(),
        entry_core_ok(v, m, k, rs[k], config),
        0 <= q < v.parents_of(ordered_members(m)[k] as int).len(),
        !m[v.parents_of(ordered_members(m)[k] as int)[q] as int],
        crate::graph::is_walk(v, m, path),
        path[0] == v.parents_of(ordered_members(m)[k] as int)[q],
        m[path.last()],
    ensures
        exists|j: int|
            0 <= j < rs[k].parent_edges@.len() && #[trigger] rs[k].parent_edges@[j].parent_id@ == hex(
                short_bytes(v.commits@[path.last()].commit_id@),
            ) && (crate::revset::is_parent(v, ordered_members(m)[k] as int, path.last())
                || rs[k].parent_edges@[j].edge_type == EdgeType::Indirect),
{
    let i = ordered_members(m)[k] as int;
    crate::revset::lemma_members_in_range(m);
    crate::graph::lemma_reached_member_has_edge(v, m, i, q, path);
    let es = edges_of(v, m, i);
    let j = choose|j: int| 0 <= j < es.len() && #[trigger] es[j].target == path.last() as usize;
    assert(rs[k].parent_edges@[j].parent_id@ == hex(short_bytes(v.commits@[es[j].target as int].commit_id@)));
    assert(rs[k].parent_edges@[j].edge_type == es[j].edge_type);
}

} // verus!
