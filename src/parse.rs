//! The text form of revision sets.
//!
//! ```text
//! expr    := term ('|' term)*
//! term    := range (('&' | '~') range)*
//! range   := '::' [primary] | '..' [primary]
//!          | primary ['::' [primary] | '..' [primary]]
//! primary := '(' expr ')' | '@' | name ['(' args ')']
//! ```
//!
//! A name followed by `()` that is no built-in function is an alias: its
//! registered text is parsed in its place. The spec functions below state
//! the grammar; each parsing function returns exactly what they give.

use vstd::prelude::*;

use crate::repo::{chars_eq, EngineError};
use crate::revset::{view_of, Expr, ExprV};
use crate::text::chars_of;

verus! {

/// How deeply aliases may refer to other aliases.
pub const ALIAS_DEPTH: usize = 8;

/// A zero-argument alias and the text it stands for.
#[derive(Clone, Debug)]
pub struct Alias {
    pub name: String,
    pub text: String,
}

pub type Aliases = Seq<(Seq<char>, Seq<char>)>;

pub open spec fn alias_views(a: Seq<Alias>) -> Aliases {
    a.map_values(|x: Alias| (x.name@, x.text@))
}

pub open spec fn is_name_char(c: char) -> bool {
    ('a' <= c && c <= 'z') || ('A' <= c && c <= 'Z') || ('0' <= c && c <= '9') || c == '_' || c == '/'
        || c == '-'
}

/// The first position at or after `p` that is not a space.
pub open spec fn skip(t: Seq<char>, p: int) -> int
    decreases t.len() - p,
{
    if 0 <= p < t.len() && t[p] == ' ' {
        skip(t, p + 1)
    } else {
        p
    }
}

pub open spec fn at(t: Seq<char>, p: int, c: char) -> bool {
    0 <= p < t.len() && t[p] == c
}

pub open spec fn at2(t: Seq<char>, p: int, c: char) -> bool {
    at(t, p, c) && at(t, p + 1, c)
}

/// The first position at or after `p` that does not hold a name character.
pub open spec fn name_end(t: Seq<char>, p: int) -> int
    decreases t.len() - p,
{
    if 0 <= p < t.len() && is_name_char(t[p]) {
        name_end(t, p + 1)
    } else {
        p
    }
}

/// The first position at or after `p` that holds a double quote, or the end.
pub open spec fn quote_end(t: Seq<char>, p: int) -> int
    decreases t.len() - p,
{
    if 0 <= p < t.len() && t[p] != '"' {
        quote_end(t, p + 1)
    } else {
        p
    }
}

/// A name, or the text between double quotes, and the position after it.
pub open spec fn read_name(t: Seq<char>, p: int) -> Option<(Seq<char>, int)> {
    if at(t, p, '"') {
        let e = quote_end(t, p + 1);
        if e < t.len() {
            Some((t.subrange(p + 1, e), e + 1))
        } else {
            None
        }
    } else {
        let e = name_end(t, p);
        if e > p {
            Some((t.subrange(p, e), e))
        } else {
            None
        }
    }
}

pub open spec fn digits_end(t: Seq<char>, p: int) -> int
    decreases t.len() - p,
{
    if 0 <= p < t.len() && '0' <= t[p] && t[p] <= '9' {
        digits_end(t, p + 1)
    } else {
        p
    }
}

/// The value of a sequence of decimal digits.
pub open spec fn digits_value(s: Seq<char>) -> nat
    decreases s.len(),
{
    if s.len() == 0 {
        0
    } else {
        digits_value(s.drop_last()) * 10 + ((s.last() as u32 - '0' as u32) as nat)
    }
}

/// A decimal number that fits a `usize`, and the position after it.
pub open spec fn read_number(t: Seq<char>, p: int) -> Option<(nat, int)> {
    let e = digits_end(t, p);
    if e > p && digits_value(t.subrange(p, e)) <= usize::MAX {
        Some((digits_value(t.subrange(p, e)), e))
    } else {
        None
    }
}

/// The text of the first alias with this name.
pub open spec fn find_alias(al: Aliases, name: Seq<char>) -> Option<Seq<char>>
    decreases al.len(),
{
    if al.len() == 0 {
        None
    } else {
        match find_alias(al.drop_last(), name) {
            Some(x) => Some(x),
            None => if al.last().0 == name {
                Some(al.last().1)
            } else {
                None
            },
        }
    }
}

pub type PResult = Option<(ExprV, int)>;

pub open spec fn p_expr(t: Seq<char>, pos: int, al: Aliases, d: nat) -> PResult
    decreases d, t.len() - pos, 6int,
{
    if !(0 <= pos <= t.len()) {
        None
    } else {
        match p_term(t, pos, al, d) {
            None => None,
            Some((e, p)) => if pos <= p <= t.len() {
                expr_tail(t, p, e, al, d)
            } else {
                None
            },
        }
    }
}

pub open spec fn expr_tail(t: Seq<char>, p: int, acc: ExprV, al: Aliases, d: nat) -> PResult
    decreases d, t.len() - p, 5int,
{
    let q = skip(t, p);
    if !(0 <= p <= q <= t.len()) {
        None
    } else if !at(t, q, '|') {
        Some((acc, p))
    } else {
        match p_term(t, q + 1, al, d) {
            None => None,
            Some((f, p2)) => if q + 1 <= p2 <= t.len() {
                expr_tail(t, p2, ExprV::Union(Box::new(acc), Box::new(f)), al, d)
            } else {
                None
            },
        }
    }
}

pub open spec fn p_term(t: Seq<char>, pos: int, al: Aliases, d: nat) -> PResult
    decreases d, t.len() - pos, 4int,
{
    if !(0 <= pos <= t.len()) {
        None
    } else {
        match p_range(t, pos, al, d) {
            None => None,
            Some((e, p)) => if pos <= p <= t.len() {
                term_tail(t, p, e, al, d)
            } else {
                None
            },
        }
    }
}

pub open spec fn term_tail(t: Seq<char>, p: int, acc: ExprV, al: Aliases, d: nat) -> PResult
    decreases d, t.len() - p, 3int,
{
    let q = skip(t, p);
    if !(0 <= p <= q <= t.len()) {
        None
    } else if !at(t, q, '&') && !at(t, q, '~') {
        Some((acc, p))
    } else {
        match p_range(t, q + 1, al, d) {
            None => None,
            Some((f, p2)) => if q + 1 <= p2 <= t.len() {
                term_tail(
                    t,
                    p2,
                    if at(t, q, '&') {
                        ExprV::Intersection(Box::new(acc), Box::new(f))
                    } else {
                        ExprV::Difference(Box::new(acc), Box::new(f))
                    },
                    al,
                    d,
                )
            } else {
                None
            },
        }
    }
}

/// An optional operand after a range operator at `pos`.
pub open spec fn p_operand(t: Seq<char>, pos: int, al: Aliases, d: nat) -> Option<(Option<ExprV>, int)>
    decreases d, t.len() - pos, 1int,
{
    let q = skip(t, pos);
    if !(0 <= pos <= q <= t.len()) {
        None
    } else if q < t.len() && (t[q] == '(' || t[q] == '@' || t[q] == '"' || is_name_char(t[q])) {
        match p_primary(t, q, al, d) {
            Some((e, p)) => Some((Some(e), p)),
            None => None,
        }
    } else {
        Some((None, pos))
    }
}

pub open spec fn p_range(t: Seq<char>, pos: int, al: Aliases, d: nat) -> PResult
    decreases d, t.len() - pos, 2int,
{
    let q = skip(t, pos);
    if !(0 <= pos <= q <= t.len()) {
        None
    } else if at2(t, q, ':') {
        match p_operand(t, q + 2, al, d) {
            Some((Some(x), p)) => Some((ExprV::Ancestors(Box::new(x), None), p)),
            Some((None, p)) => Some((ExprV::All, p)),
            None => None,
        }
    } else if at2(t, q, '.') {
        match p_operand(t, q + 2, al, d) {
            Some((Some(x), p)) => Some((ExprV::Range(Box::new(ExprV::Root), Box::new(x)), p)),
            Some((None, p)) => Some((ExprV::All, p)),
            None => None,
        }
    } else {
        match p_primary(t, q, al, d) {
            None => None,
            Some((e, p)) => {
                let q2 = skip(t, p);
                if !(q <= p <= q2 <= t.len()) {
                    None
                } else if at2(t, q2, ':') {
                    match p_operand(t, q2 + 2, al, d) {
                        Some((Some(y), p2)) => Some((ExprV::DagRange(Box::new(e), Box::new(y)), p2)),
                        Some((None, p2)) => Some((ExprV::Descendants(Box::new(e)), p2)),
                        None => None,
                    }
                } else if at2(t, q2, '.') {
                    match p_operand(t, q2 + 2, al, d) {
                        Some((Some(y), p2)) => Some((ExprV::Range(Box::new(e), Box::new(y)), p2)),
                        Some((None, p2)) => Some(
                            (
                                ExprV::Difference(
                                    Box::new(ExprV::All),
                                    Box::new(ExprV::Ancestors(Box::new(e), None)),
                                ),
                                p2,
                            ),
                        ),
                        None => None,
                    }
                } else {
                    Some((e, p))
                }
            },
        }
    }
}

/// The position after an expected character, spaces before it skipped.
pub open spec fn expect(t: Seq<char>, pos: int, c: char) -> Option<int> {
    let q = skip(t, pos);
    if at(t, q, c) {
        Some(q + 1)
    } else {
        None
    }
}

pub open spec fn p_primary(t: Seq<char>, pos: int, al: Aliases, d: nat) -> PResult
    decreases d, t.len() - pos, 0int,
{
    let q = skip(t, pos);
    if !(0 <= pos <= q <= t.len()) {
        None
    } else if at(t, q, '(') {
        match p_expr(t, q + 1, al, d) {
            None => None,
            Some((e, p)) => match expect(t, p, ')') {
                Some(p2) => Some((e, p2)),
                None => None,
            },
        }
    } else if at(t, q, '@') {
        Some((ExprV::WorkingCopy, q + 1))
    } else {
        match read_name(t, q) {
            None => None,
            Some((name, p)) => {
                let q2 = skip(t, p);
                if !(q < p <= q2 <= t.len()) {
                    None
                } else if !at(t, q2, '(') {
                    Some((ExprV::Symbol(name), p))
                } else {
                    p_call(t, name, q2 + 1, al, d)
                }
            },
        }
    }
}

/// The name of a built-in function without arguments, as an expression.
pub open spec fn builtin(name: Seq<char>) -> Option<ExprV> {
    if name == "root"@ {
        Some(ExprV::Root)
    } else if name == "all"@ {
        Some(ExprV::All)
    } else if name == "visible_heads"@ {
        Some(ExprV::VisibleHeads)
    } else if name == "bookmarks"@ {
        Some(ExprV::Bookmarks)
    } else if name == "tags"@ {
        Some(ExprV::Tags)
    } else if name == "remote_bookmarks"@ {
        Some(ExprV::RemoteBookmarks(None, None))
    } else if name == "untracked_remote_bookmarks"@ {
        Some(ExprV::UntrackedRemoteBookmarks)
    } else {
        None
    }
}

/// The whole of a text, as an expression.
pub open spec fn p_whole(t: Seq<char>, al: Aliases, d: nat) -> Option<ExprV> {
    match p_expr(t, 0, al, d) {
        Some((e, p)) => if skip(t, p) == t.len() {
            Some(e)
        } else {
            None
        },
        None => None,
    }
}

/// A call of `name`, its arguments starting at `pos`.
pub open spec fn p_call(t: Seq<char>, name: Seq<char>, pos: int, al: Aliases, d: nat) -> PResult
    decreases d, t.len() - pos + 1, 0int,
{
    let q = skip(t, pos);
    if !(0 < pos <= q <= t.len()) {
        None
    } else if at(t, q, ')') {
        match builtin(name) {
            Some(e) => Some((e, q + 1)),
            None => match find_alias(al, name) {
                None => None,
                Some(body) => if d == 0 {
                    None
                } else {
                    match p_expr(body, 0, al, (d - 1) as nat) {
                        Some((e, p)) => if skip(body, p) == body.len() {
                            Some((e, q + 1))
                        } else {
                            None
                        },
                        None => None,
                    }
                },
            },
        }
    } else if name == "remote_bookmarks"@ {
        match read_name(t, q) {
            None => None,
            Some((n1, p1)) => {
                let q2 = skip(t, p1);
                if at(t, q2, ',') {
                    match read_name(t, skip(t, q2 + 1)) {
                        None => None,
                        Some((n2, p2)) => match expect(t, p2, ')') {
                            Some(e) => Some((ExprV::RemoteBookmarks(Some(n1), Some(n2)), e)),
                            None => None,
                        },
                    }
                } else {
                    match expect(t, p1, ')') {
                        Some(e) => Some((ExprV::RemoteBookmarks(Some(n1), None), e)),
                        None => None,
                    }
                }
            },
        }
    } else if name == "author_email"@ {
        match read_name(t, q) {
            None => None,
            Some((n1, p1)) => match expect(t, p1, ')') {
                Some(e) => Some((ExprV::AuthorEmail(n1), e)),
                None => None,
            },
        }
    } else {
        match p_expr(t, pos, al, d) {
            None => None,
            Some((arg, p)) => {
                let q1 = skip(t, p);
                if name == "ancestors"@ && at(t, q1, ',') {
                    match read_number(t, skip(t, q1 + 1)) {
                        None => None,
                        Some((n, p2)) => match expect(t, p2, ')') {
                            Some(e) => Some((ExprV::Ancestors(Box::new(arg), Some(n)), e)),
                            None => None,
                        },
                    }
                } else {
                    match expect(t, p, ')') {
                        None => None,
                        Some(end) => if name == "ancestors"@ {
                            Some((ExprV::Ancestors(Box::new(arg), None), end))
                        } else if name == "descendants"@ {
                            Some((ExprV::Descendants(Box::new(arg)), end))
                        } else if name == "latest"@ {
                            Some((ExprV::Latest(Box::new(arg)), end))
                        } else if name == "present"@ {
                            Some((ExprV::Present(Box::new(arg)), end))
                        } else {
                            None
                        },
                    }
                }
            },
        }
    }
}


pub open spec fn res_view(r: Result<(Expr, usize), EngineError>) -> PResult {
    match r {
        Ok((e, p)) => Some((view_of(e), p as int)),
        Err(_) => None,
    }
}

pub open spec fn parsed_ok(r: Result<(Expr, usize), EngineError>, pos: int, len: nat) -> bool {
    &&& (r is Ok ==> pos <= r.unwrap().1 <= len)
    &&& (r is Err ==> r->Err_0 == EngineError::Parse)
}

fn name_char(c: char) -> (r: bool)
    ensures
        r == is_name_char(c),
{
    ('a' <= c && c <= 'z') || ('A' <= c && c <= 'Z') || ('0' <= c && c <= '9') || c == '_' || c == '/'
        || c == '-'
}

fn skip_spaces(t: &Vec<char>, pos: usize) -> (r: usize)
    requires
        pos <= t@.len(),
    ensures
        pos <= r <= t@.len(),
        r as int == skip(t@, pos as int),
{
    let mut p = pos;
    while p < t.len() && t[p] == ' '
        invariant
            pos <= p <= t@.len(),
            skip(t@, pos as int) == skip(t@, p as int),
        decreases t@.len() - p,
    {
        p = p + 1;
    }
    p
}

fn at_exec(t: &Vec<char>, pos: usize, c: char) -> (r: bool)
    ensures
        r == at(t@, pos as int, c),
{
    pos < t.len() && t[pos] == c
}

fn at2_exec(t: &Vec<char>, pos: usize, c: char) -> (r: bool)
    requires
        t@.len() <= usize::MAX,
    ensures
        r == at2(t@, pos as int, c),
{
    pos < t.len() && t[pos] == c && pos + 1 < t.len() && t[pos + 1] == c
}

fn read_name_exec(t: &Vec<char>, pos: usize) -> (r: Option<(Vec<char>, usize)>)
    requires
        pos <= t@.len() <= usize::MAX,
    ensures
        r is Some ==> pos < r.unwrap().1 <= t@.len(),
        match r {
            Some((v, p)) => read_name(t@, pos as int) == Some((v@, p as int)),
            None => read_name(t@, pos as int) is None,
        },
{
    if at_exec(t, pos, '"') {
        let mut p = pos + 1;
        let mut out: Vec<char> = Vec::new();
        while p < t.len() && t[p] != '"'
            invariant
                pos < p <= t@.len(),
                quote_end(t@, pos + 1) == quote_end(t@, p as int),
                out@ == t@.subrange(pos + 1, p as int),
            decreases t@.len() - p,
        {
            out.push(t[p]);
            proof {
                assert(t@.subrange(pos + 1, p + 1) =~= t@.subrange(pos + 1, p as int).push(t@[p as int]));
            }
            p = p + 1;
        }
        if p < t.len() {
            Some((out, p + 1))
        } else {
            None
        }
    } else {
        let mut p = pos;
        let mut out: Vec<char> = Vec::new();
        while p < t.len() && name_char(t[p])
            invariant
                pos <= p <= t@.len(),
                name_end(t@, pos as int) == name_end(t@, p as int),
                out@ == t@.subrange(pos as int, p as int),
            decreases t@.len() - p,
        {
            out.push(t[p]);
            proof {
                assert(t@.subrange(pos as int, p + 1) =~= t@.subrange(pos as int, p as int).push(t@[p as int]));
            }
            p = p + 1;
        }
        if p > pos {
            Some((out, p))
        } else {
            None
        }
    }
}

proof fn lemma_digits_prefix(s: Seq<char>, k: int)
    requires
        0 <= k <= s.len(),
    ensures
        digits_value(s.take(k)) <= digits_value(s),
    decreases s.len(),
{
    if k < s.len() {
        assert(s.drop_last().take(k) =~= s.take(k));
        lemma_digits_prefix(s.drop_last(), k);
    } else {
        assert(s.take(k) =~= s);
    }
}

fn read_number_exec(t: &Vec<char>, pos: usize) -> (r: Option<(usize, usize)>)
    requires
        pos <= t@.len() <= usize::MAX,
    ensures
        r is Some ==> pos < r.unwrap().1 <= t@.len(),
        match r {
            Some((n, p)) => read_number(t@, pos as int) == Some((n as nat, p as int)),
            None => read_number(t@, pos as int) is None,
        },
{
    let mut p = pos;
    let mut n: usize = 0;
    while p < t.len() && '0' <= t[p] && t[p] <= '9'
        invariant
            pos <= p <= t@.len(),
            digits_end(t@, pos as int) == digits_end(t@, p as int),
            n as nat == digits_value(t@.subrange(pos as int, p as int)),
        decreases t@.len() - p,
    {
        let d = (t[p] as u32 - '0' as u32) as usize;
        proof {
            assert(t@.subrange(pos as int, p + 1).drop_last() =~= t@.subrange(pos as int, p as int));
        }
        if n > (usize::MAX - d) / 10 {
            proof {
                assert(n * 10 + d > usize::MAX) by (nonlinear_arith)
                    requires
                        n > (usize::MAX - d) / 10,
                        d <= 9,
                ;
                let e = digits_end(t@, pos as int);
                lemma_digits_end_range(t@, p as int);
                lemma_digits_prefix(t@.subrange(pos as int, e), p + 1 - pos);
                assert(t@.subrange(pos as int, e).take(p + 1 - pos) =~= t@.subrange(pos as int, p + 1));
            }
            return None;
        }
        n = n * 10 + d;
        p = p + 1;
    }
    if p > pos {
        Some((n, p))
    } else {
        None
    }
}

proof fn lemma_digits_end_range(t: Seq<char>, p: int)
    requires
        0 <= p < t.len(),
        '0' <= t[p] && t[p] <= '9',
    ensures
        p < digits_end(t, p) <= t.len(),
    decreases t.len() - p,
{
    if p + 1 < t.len() && '0' <= t[p + 1] && t[p + 1] <= '9' {
        lemma_digits_end_range(t, p + 1);
    } else {
        assert(digits_end(t, p + 1) == p + 1);
    }
}

fn word(s: &str) -> (r: Vec<char>)
    ensures
        r@ == s@,
{
    chars_of(s)
}

fn find_alias_exec(aliases: &Vec<Alias>, name: &Vec<char>) -> (r: Option<usize>)
    ensures
        r is Some ==> r.unwrap() < aliases@.len() && find_alias(alias_views(aliases@), name@) == Some(
            aliases@[r.unwrap() as int].text@,
        ),
        r is None ==> find_alias(alias_views(aliases@), name@) is None,
{
    let ghost av = alias_views(aliases@);
    let mut i: usize = 0;
    while i < aliases.len()
        invariant
            i <= aliases@.len(),
            av == alias_views(aliases@),
            find_alias(av.take(i as int), name@) is None,
        decreases aliases@.len() - i,
    {
        let cs = chars_of(aliases[i].name.as_str());
        proof {
            assert(av.take(i + 1).drop_last() =~= av.take(i as int));
        }
        if chars_eq(&cs, name) {
            proof {
                lemma_find_alias_prefix(av, name@, i + 1);
            }
            return Some(i);
        }
        i = i + 1;
    }
    proof {
        assert(av.take(i as int) =~= av);
    }
    None
}

proof fn lemma_find_alias_prefix(al: Aliases, name: Seq<char>, j: int)
    requires
        0 <= j <= al.len(),
        find_alias(al.take(j), name) is Some,
    ensures
        find_alias(al, name) == find_alias(al.take(j), name),
    decreases al.len() - j,
{
    if j < al.len() {
        assert(al.take(j + 1).drop_last() =~= al.take(j));
        lemma_find_alias_prefix(al, name, j + 1);
    } else {
        assert(al.take(j) =~= al);
    }
}

fn expect_exec(t: &Vec<char>, pos: usize, c: char) -> (r: Result<usize, EngineError>)
    requires
        pos <= t@.len() <= usize::MAX,
    ensures
        r is Ok ==> pos < r.unwrap() <= t@.len() && expect(t@, pos as int, c) == Some(r.unwrap() as int),
        r is Err ==> r->Err_0 == EngineError::Parse && expect(t@, pos as int, c) is None,
{
    let q = skip_spaces(t, pos);
    if at_exec(t, q, c) {
        Ok(q + 1)
    } else {
        Err(EngineError::Parse)
    }
}

fn parse_expr(t: &Vec<char>, pos: usize, aliases: &Vec<Alias>, depth: usize) -> (r: Result<(Expr, usize), EngineError>)
    requires
        pos <= t@.len() <= usize::MAX,
    ensures
        parsed_ok(r, pos as int, t@.len()),
        res_view(r) == p_expr(t@, pos as int, alias_views(aliases@), depth as nat),
    decreases depth, t@.len() - pos, 4int,
{
    let ghost al = alias_views(aliases@);
    let (mut e, mut p) = match parse_term(t, pos, aliases, depth) {
        Ok(x) => x,
        Err(x) => {
            return Err(x);
        },
    };
    loop
        invariant
            pos <= p <= t@.len() <= usize::MAX,
            al == alias_views(aliases@),
            p_expr(t@, pos as int, al, depth as nat) == expr_tail(t@, p as int, view_of(e), al, depth as nat),
        decreases t@.len() - p,
    {
        let q = skip_spaces(t, p);
        if !at_exec(t, q, '|') {
            return Ok((e, p));
        }
        match parse_term(t, q + 1, aliases, depth) {
            Ok((f, p2)) => {
                let ghost ve = view_of(e);
                e = Expr::Union(Box::new(e), Box::new(f));
                proof {
                    assert(view_of(e) == ExprV::Union(Box::new(ve), Box::new(view_of(f))));
                }
                p = p2;
            },
            Err(x) => {
                return Err(x);
            },
        }
    }
}

fn parse_term(t: &Vec<char>, pos: usize, aliases: &Vec<Alias>, depth: usize) -> (r: Result<(Expr, usize), EngineError>)
    requires
        pos <= t@.len() <= usize::MAX,
    ensures
        parsed_ok(r, pos as int, t@.len()),
        res_view(r) == p_term(t@, pos as int, alias_views(aliases@), depth as nat),
    decreases depth, t@.len() - pos, 3int,
{
    let ghost al = alias_views(aliases@);
    let (mut e, mut p) = match parse_range(t, pos, aliases, depth) {
        Ok(x) => x,
        Err(x) => {
            return Err(x);
        },
    };
    loop
        invariant
            pos <= p <= t@.len() <= usize::MAX,
            al == alias_views(aliases@),
            p_term(t@, pos as int, al, depth as nat) == term_tail(t@, p as int, view_of(e), al, depth as nat),
        decreases t@.len() - p,
    {
        let q = skip_spaces(t, p);
        let is_and = at_exec(t, q, '&');
        let is_minus = at_exec(t, q, '~');
        if !is_and && !is_minus {
            return Ok((e, p));
        }
        match parse_range(t, q + 1, aliases, depth) {
            Ok((f, p2)) => {
                let ghost ve = view_of(e);
                e = if is_and {
                    Expr::Intersection(Box::new(e), Box::new(f))
                } else {
                    Expr::Difference(Box::new(e), Box::new(f))
                };
                proof {
                    if is_and {
                        assert(view_of(e) == ExprV::Intersection(Box::new(ve), Box::new(view_of(f))));
                    } else {
                        assert(view_of(e) == ExprV::Difference(Box::new(ve), Box::new(view_of(f))));
                    }
                }
                p = p2;
            },
            Err(x) => {
                return Err(x);
            },
        }
    }
}

pub open spec fn operand_view(r: Result<(Option<Expr>, usize), EngineError>) -> Option<(Option<ExprV>, int)> {
    match r {
        Ok((Some(e), p)) => Some((Some(view_of(e)), p as int)),
        Ok((None, p)) => Some((None, p as int)),
        Err(_) => None,
    }
}

fn parse_operand(t: &Vec<char>, pos: usize, aliases: &Vec<Alias>, depth: usize) -> (r: Result<
    (Option<Expr>, usize),
    EngineError,
>)
    requires
        pos <= t@.len() <= usize::MAX,
    ensures
        r is Ok ==> pos <= r.unwrap().1 <= t@.len(),
        r is Err ==> r->Err_0 == EngineError::Parse,
        operand_view(r) == p_operand(t@, pos as int, alias_views(aliases@), depth as nat),
    decreases depth, t@.len() - pos, 1int,
{
    let q = skip_spaces(t, pos);
    if q < t.len() && (t[q] == '(' || t[q] == '@' || t[q] == '"' || name_char(t[q])) {
        match parse_primary(t, q, aliases, depth) {
            Ok((e, p)) => Ok((Some(e), p)),
            Err(x) => Err(x),
        }
    } else {
        Ok((None, pos))
    }
}

fn parse_range(t: &Vec<char>, pos: usize, aliases: &Vec<Alias>, depth: usize) -> (r: Result<(Expr, usize), EngineError>)
    requires
        pos <= t@.len() <= usize::MAX,
    ensures
        parsed_ok(r, pos as int, t@.len()),
        res_view(r) == p_range(t@, pos as int, alias_views(aliases@), depth as nat),
    decreases depth, t@.len() - pos, 2int,
{
    assert(view_of(Expr::Root) == ExprV::Root);
    assert(view_of(Expr::All) == ExprV::All);
    let q = skip_spaces(t, pos);
    if at2_exec(t, q, ':') {
        return match parse_operand(t, q + 2, aliases, depth) {
            Ok((Some(x), p)) => Ok((Expr::Ancestors(Box::new(x), None), p)),
            Ok((None, p)) => Ok((Expr::All, p)),
            Err(x) => Err(x),
        };
    }
    if at2_exec(t, q, '.') {
        return match parse_operand(t, q + 2, aliases, depth) {
            Ok((Some(x), p)) => Ok((Expr::Range(Box::new(Expr::Root), Box::new(x)), p)),
            Ok((None, p)) => Ok((Expr::All, p)),
            Err(x) => Err(x),
        };
    }
    let (e, p) = match parse_primary(t, q, aliases, depth) {
        Ok(x) => x,
        Err(x) => {
            return Err(x);
        },
    };
    let q2 = skip_spaces(t, p);
    if at2_exec(t, q2, ':') {
        match parse_operand(t, q2 + 2, aliases, depth) {
            Ok((Some(y), p2)) => Ok((Expr::DagRange(Box::new(e), Box::new(y)), p2)),
            Ok((None, p2)) => Ok((Expr::Descendants(Box::new(e)), p2)),
            Err(x) => Err(x),
        }
    } else if at2_exec(t, q2, '.') {
        match parse_operand(t, q2 + 2, aliases, depth) {
            Ok((Some(y), p2)) => Ok((Expr::Range(Box::new(e), Box::new(y)), p2)),
            Ok((None, p2)) => {
                let ghost ve = view_of(e);
                let a = Expr::Ancestors(Box::new(e), None);
                assert(view_of(a) == ExprV::Ancestors(Box::new(ve), None));
                let r = Expr::Difference(Box::new(Expr::All), Box::new(a));
                assert(view_of(r) == ExprV::Difference(
                    Box::new(ExprV::All),
                    Box::new(ExprV::Ancestors(Box::new(ve), None)),
                ));
                Ok((r, p2))
            },
            Err(x) => Err(x),
        }
    } else {
        Ok((e, p))
    }
}

fn parse_primary(t: &Vec<char>, pos: usize, aliases: &Vec<Alias>, depth: usize) -> (r: Result<(Expr, usize), EngineError>)
    requires
        pos <= t@.len() <= usize::MAX,
    ensures
        parsed_ok(r, pos as int, t@.len()),
        res_view(r) == p_primary(t@, pos as int, alias_views(aliases@), depth as nat),
    decreases depth, t@.len() - pos, 0int,
{
    let q = skip_spaces(t, pos);
    if at_exec(t, q, '(') {
        let (e, p) = match parse_expr(t, q + 1, aliases, depth) {
            Ok(x) => x,
            Err(x) => {
                return Err(x);
            },
        };
        return match expect_exec(t, p, ')') {
            Ok(p2) => Ok((e, p2)),
            Err(x) => Err(x),
        };
    }
    if at_exec(t, q, '@') {
        return Ok((Expr::WorkingCopy, q + 1));
    }
    let (name, p) = match read_name_exec(t, q) {
        Some(x) => x,
        None => {
            return Err(EngineError::Parse);
        },
    };
    let q2 = skip_spaces(t, p);
    if !at_exec(t, q2, '(') {
        return Ok((Expr::Symbol(name), p));
    }
    parse_call(t, &name, q2 + 1, aliases, depth)
}

fn builtin_exec(name: &Vec<char>) -> (r: Option<Expr>)
    ensures
        match r {
            Some(e) => builtin(name@) == Some(view_of(e)),
            None => builtin(name@) is None,
        },
{
    if chars_eq(name, &word("root")) {
        Some(Expr::Root)
    } else if chars_eq(name, &word("all")) {
        Some(Expr::All)
    } else if chars_eq(name, &word("visible_heads")) {
        Some(Expr::VisibleHeads)
    } else if chars_eq(name, &word("bookmarks")) {
        Some(Expr::Bookmarks)
    } else if chars_eq(name, &word("tags")) {
        Some(Expr::Tags)
    } else if chars_eq(name, &word("remote_bookmarks")) {
        Some(Expr::RemoteBookmarks(None, None))
    } else if chars_eq(name, &word("untracked_remote_bookmarks")) {
        Some(Expr::UntrackedRemoteBookmarks)
    } else {
        None
    }
}

/// Parses the arguments of a call, after its opening parenthesis.
fn parse_call(t: &Vec<char>, name: &Vec<char>, pos: usize, aliases: &Vec<Alias>, depth: usize) -> (r: Result<(Expr, usize), EngineError>)
    requires
        0 < pos <= t@.len() <= usize::MAX,
    ensures
        parsed_ok(r, pos - 1, t@.len()),
        res_view(r) == p_call(t@, name@, pos as int, alias_views(aliases@), depth as nat),
    decreases depth, t@.len() - pos + 1, 0int,
{
    let ghost al = alias_views(aliases@);
    let q = skip_spaces(t, pos);
    if at_exec(t, q, ')') {
        let end = q + 1;
        match builtin_exec(name) {
            Some(e) => {
                return Ok((e, end));
            },
            None => {},
        }
        return match find_alias_exec(aliases, name) {
            Some(k) => {
                if depth == 0 {
                    return Err(EngineError::Parse);
                }
                let body = chars_of(aliases[k].text.as_str());
                let bl = body.len();
                assert(body@.len() == bl);
                match parse_expr(&body, 0, aliases, depth - 1) {
                    Ok((e, p)) => {
                        let p2 = skip_spaces(&body, p);
                        if p2 == body.len() {
                            Ok((e, end))
                        } else {
                            Err(EngineError::Parse)
                        }
                    },
                    Err(x) => Err(x),
                }
            },
            None => Err(EngineError::Parse),
        };
    }
    if chars_eq(name, &word("remote_bookmarks")) {
        let (n1, p1) = match read_name_exec(t, q) {
            Some(x) => x,
            None => {
                return Err(EngineError::Parse);
            },
        };
        let q2 = skip_spaces(t, p1);
        if at_exec(t, q2, ',') {
            let q3 = skip_spaces(t, q2 + 1);
            let (n2, p2) = match read_name_exec(t, q3) {
                Some(x) => x,
                None => {
                    return Err(EngineError::Parse);
                },
            };
            return match expect_exec(t, p2, ')') {
                Ok(e) => Ok((Expr::RemoteBookmarks(Some(n1), Some(n2)), e)),
                Err(x) => Err(x),
            };
        }
        return match expect_exec(t, p1, ')') {
            Ok(e) => Ok((Expr::RemoteBookmarks(Some(n1), None), e)),
            Err(x) => Err(x),
        };
    }
    if chars_eq(name, &word("author_email")) {
        let (n1, p1) = match read_name_exec(t, q) {
            Some(x) => x,
            None => {
                return Err(EngineError::Parse);
            },
        };
        return match expect_exec(t, p1, ')') {
            Ok(e) => Ok((Expr::AuthorEmail(n1), e)),
            Err(x) => Err(x),
        };
    }
    let (arg, p) = match parse_expr(t, pos, aliases, depth) {
        Ok(x) => x,
        Err(x) => {
            return Err(x);
        },
    };
    let is_ancestors = chars_eq(name, &word("ancestors"));
    let q1 = skip_spaces(t, p);
    if is_ancestors && at_exec(t, q1, ',') {
        let q2 = skip_spaces(t, q1 + 1);
        let (d, p2) = match read_number_exec(t, q2) {
            Some(x) => x,
            None => {
                return Err(EngineError::Parse);
            },
        };
        return match expect_exec(t, p2, ')') {
            Ok(e) => Ok((Expr::Ancestors(Box::new(arg), Some(d)), e)),
            Err(x) => Err(x),
        };
    }
    let end = match expect_exec(t, p, ')') {
        Ok(e) => e,
        Err(x) => {
            return Err(x);
        },
    };
    if is_ancestors {
        Ok((Expr::Ancestors(Box::new(arg), None), end))
    } else if chars_eq(name, &word("descendants")) {
        Ok((Expr::Descendants(Box::new(arg)), end))
    } else if chars_eq(name, &word("latest")) {
        Ok((Expr::Latest(Box::new(arg)), end))
    } else if chars_eq(name, &word("present")) {
        Ok((Expr::Present(Box::new(arg)), end))
    } else {
        Err(EngineError::Parse)
    }
}

/// Parses a whole revision set text, expanding the given aliases: the
/// expression that the grammar gives, or a parse error where it gives none.
pub fn parse_revset(text: &str, aliases: &Vec<Alias>) -> (r: Result<Expr, EngineError>)
    ensures
        r is Err ==> r->Err_0 == EngineError::Parse && p_whole(text@, alias_views(aliases@), ALIAS_DEPTH as nat) is None,
        r is Ok ==> p_whole(text@, alias_views(aliases@), ALIAS_DEPTH as nat) == Some(view_of(r.unwrap())),
{
    let t = chars_of(text);
    let tl = t.len();
    assert(t@.len() == tl);
    match parse_expr(&t, 0, aliases, ALIAS_DEPTH) {
        Ok((e, p)) => {
            let q = skip_spaces(&t, p);
            if q == t.len() {
                Ok(e)
            } else {
                Err(EngineError::Parse)
            }
        },
        Err(x) => Err(x),
    }
}

} // verus!
