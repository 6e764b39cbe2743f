//! Per-revision display facts: first description line, relative time,
//! and divergence among commits that share a change id.

use vstd::prelude::*;

use crate::text::{chars_of, string_of};

verus! {

/// The first line of a text: up to its first newline, without a carriage
/// return before it.
pub open spec fn line_head(s: Seq<char>) -> Seq<char>
    decreases s.len(),
{
    if s.len() == 0 || s[0] == '\n' {
        Seq::empty()
    } else {
        seq![s[0]] + line_head(s.drop_first())
    }
}

pub open spec fn without_cr(s: Seq<char>) -> Seq<char> {
    if s.len() > 0 && s.last() == '\r' {
        s.drop_last()
    } else {
        s
    }
}

/// What a revision shows of its description: the first line (a carriage
/// return is dropped only before a newline), or a placeholder where there
/// is no description.
pub open spec fn summary_line(s: Seq<char>) -> Seq<char> {
    if s.len() == 0 {
        "(no description)"@
    } else if line_head(s).len() < s.len() {
        without_cr(line_head(s))
    } else {
        line_head(s)
    }
}

proof fn lemma_line_head_take(s: Seq<char>, k: int)
    requires
        0 <= k <= s.len(),
        forall|j: int| 0 <= j < k ==> #[trigger] s[j] != '\n',
        k == s.len() || s[k] == '\n',
    ensures
        line_head(s) == s.take(k),
    decreases k,
{
    if k > 0 {
        let t = s.drop_first();
        assert forall|j: int| 0 <= j < k - 1 implies #[trigger] t[j] != '\n' by {
            assert(t[j] == s[j + 1]);
        }
        lemma_line_head_take(t, k - 1);
        assert(s.take(k) =~= seq![s[0]] + t.take(k - 1));
    } else {
        assert(s.take(0) =~= Seq::<char>::empty());
    }
}

/// The first line of a description, or `(no description)` for an empty one.
pub fn first_line(desc: &str) -> (r: String)
    ensures
        r@ == summary_line(desc@),
{
    let cs = chars_of(desc);
    if cs.len() == 0 {
        return no_description_text();
    }
    let mut k: usize = 0;
    while k < cs.len() && cs[k] != '\n'
        invariant
            k <= cs@.len(),
            forall|j: int| 0 <= j < k ==> #[trigger] cs@[j] != '\n',
        decreases cs@.len() - k,
    {
        k = k + 1;
    }
    proof {
        lemma_line_head_take(cs@, k as int);
    }
    let mut end = k;
    if k < cs.len() && end > 0 && cs[end - 1] == '\r' {
        end = end - 1;
    }
    let mut out: Vec<char> = Vec::new();
    let mut i: usize = 0;
    while i < end
        invariant
            i <= end <= cs@.len(),
            out@ == cs@.take(i as int),
        decreases end - i,
    {
        out.push(cs[i]);
        proof {
            assert(cs@.take(i + 1) =~= cs@.take(i as int).push(cs@[i as int]));
        }
        i = i + 1;
    }
    proof {
        assert(cs@.take(k as int).len() == k);
        if k < cs@.len() {
            assert(out@ =~= without_cr(cs@.take(k as int)));
        } else {
            assert(out@ =~= cs@.take(k as int));
        }
    }
    string_of(&out)
}

fn no_description_text() -> (r: String)
    ensures
        r@ == "(no description)"@,
{
    let v = chars_of("(no description)");
    string_of(&v)
}

pub open spec fn digit_char(d: nat) -> char {
    seq!['0', '1', '2', '3', '4', '5', '6', '7', '8', '9'][d as int]
}

/// Decimal digits of a number, most significant first.
pub open spec fn decimal(n: nat) -> Seq<char>
    decreases n,
{
    if n < 10 {
        seq![digit_char(n)]
    } else {
        decimal(n / 10) + seq![digit_char(n % 10)]
    }
}

pub(crate) fn decimal_chars(n: u64) -> (r: Vec<char>)
    ensures
        r@ == decimal(n as nat),
    decreases n,
{
    let table = ['0', '1', '2', '3', '4', '5', '6', '7', '8', '9'];
    proof {
        assert(table@ =~= seq!['0', '1', '2', '3', '4', '5', '6', '7', '8', '9']);
    }
    if n < 10 {
        let mut r: Vec<char> = Vec::new();
        r.push(table[n as usize]);
        proof {
            assert(r@ =~= decimal(n as nat));
        }
        r
    } else {
        let mut r = decimal_chars(n / 10);
        r.push(table[(n % 10) as usize]);
        proof {
            assert(r@ =~= decimal(n as nat));
        }
        r
    }
}

pub const MINUTE: u64 = 60;
pub const HOUR: u64 = 3600;
pub const DAY: u64 = 86400;
pub const WEEK: u64 = 604800;
pub const MONTH: u64 = 2592000;
pub const YEAR: u64 = 31536000;

/// How long ago, in words, for an age in whole seconds.
pub open spec fn age_text(s: nat) -> Seq<char> {
    if s < MINUTE {
        decimal(s) + " seconds ago"@
    } else if s < HOUR {
        decimal(s / MINUTE as nat) + " minutes ago"@
    } else if s < DAY {
        decimal(s / HOUR as nat) + " hours ago"@
    } else if s < WEEK {
        decimal(s / DAY as nat) + " days ago"@
    } else if s < MONTH {
        decimal(s / WEEK as nat) + " weeks ago"@
    } else if s < YEAR {
        decimal(s / MONTH as nat) + " months ago"@
    } else {
        decimal(s / YEAR as nat) + " years ago"@
    }
}

pub open spec fn abs_diff(a: int, b: int) -> nat {
    if a >= b {
        (a - b) as nat
    } else {
        (b - a) as nat
    }
}

/// The relative time of a commit: `root` for the root commit, else its age
/// from `now_ms` (both in milliseconds since the epoch) in words.
pub open spec fn timestamp_text(timestamp_ms: int, now_ms: int, is_root: bool) -> Seq<char> {
    if is_root {
        "root"@
    } else {
        age_text(abs_diff(now_ms, timestamp_ms) / 1000)
    }
}

fn append_str(out: &mut Vec<char>, s: &str)
    ensures
        final(out)@ == old(out)@ + s@,
{
    let cs = chars_of(s);
    let mut i: usize = 0;
    while i < cs.len()
        invariant
            i <= cs@.len(),
            out@ == old(out)@ + cs@.take(i as int),
        decreases cs@.len() - i,
    {
        out.push(cs[i]);
        proof {
            assert(cs@.take(i + 1) =~= cs@.take(i as int).push(cs@[i as int]));
        }
        i = i + 1;
    }
    proof {
        assert(cs@.take(i as int) =~= cs@);
    }
}

/// The relative time shown for a commit.
pub fn format_timestamp(timestamp_ms: i64, now_ms: i64, is_root: bool) -> (r: String)
    ensures
        r@ == timestamp_text(timestamp_ms as int, now_ms as int, is_root),
{
    if is_root {
        let v = chars_of("root");
        return string_of(&v);
    }
    let d: u64 = if now_ms >= timestamp_ms {
        (now_ms as i128 - timestamp_ms as i128) as u64
    } else {
        (timestamp_ms as i128 - now_ms as i128) as u64
    };
    let s = d / 1000;
    let (q, unit) = if s < MINUTE {
        (s, " seconds ago")
    } else if s < HOUR {
        (s / MINUTE, " minutes ago")
    } else if s < DAY {
        (s / HOUR, " hours ago")
    } else if s < WEEK {
        (s / DAY, " days ago")
    } else if s < MONTH {
        (s / WEEK, " weeks ago")
    } else if s < YEAR {
        (s / MONTH, " months ago")
    } else {
        (s / YEAR, " years ago")
    };
    let mut out = decimal_chars(q);
    append_str(&mut out, unit);
    string_of(&out)
}


/// How many of the first `k` ids equal `x`.
pub open spec fn count_same(ids: Seq<Seq<u8>>, x: Seq<u8>, k: int) -> nat
    decreases k,
{
    if k <= 0 {
        0
    } else {
        count_same(ids, x, k - 1) + if ids[k - 1] == x {
            1nat
        } else {
            0nat
        }
    }
}

proof fn lemma_count_same_le(ids: Seq<Seq<u8>>, x: Seq<u8>, k: int)
    requires
        k >= 0,
    ensures
        count_same(ids, x, k) <= k,
    decreases k,
{
    if k > 0 {
        lemma_count_same_le(ids, x, k - 1);
    }
}

/// The id at `k` occurs more than once.
pub open spec fn is_divergent_at(ids: Seq<Seq<u8>>, k: int) -> bool {
    count_same(ids, ids[k], ids.len() as int) > 1
}

/// How many earlier ids equal the id at `k`.
pub open spec fn divergent_index_at(ids: Seq<Seq<u8>>, k: int) -> nat {
    count_same(ids, ids[k], k)
}

pub open spec fn byte_views(ids: Seq<Vec<u8>>) -> Seq<Seq<u8>> {
    ids.map_values(|b: Vec<u8>| b@)
}

/// A copy of a byte vector.
pub fn copy_bytes(b: &Vec<u8>) -> (r: Vec<u8>)
    ensures
        r@ == b@,
{
    let mut r: Vec<u8> = Vec::new();
    let mut i: usize = 0;
    while i < b.len()
        invariant
            i <= b@.len(),
            r@ == b@.take(i as int),
        decreases b@.len() - i,
    {
        r.push(b[i]);
        proof {
            assert(b@.take(i + 1) =~= b@.take(i as int).push(b@[i as int]));
        }
        i = i + 1;
    }
    proof {
        assert(b@.take(i as int) =~= b@);
    }
    r
}

/// Whether two byte vectors are equal.
pub fn bytes_eq(a: &Vec<u8>, b: &Vec<u8>) -> (r: bool)
    ensures
        r == (a@ == b@),
{
    if a.len() != b.len() {
        return false;
    }
    let mut i: usize = 0;
    while i < a.len()
        invariant
            i <= a@.len(),
            a@.len() == b@.len(),
            a@.take(i as int) == b@.take(i as int),
        decreases a@.len() - i,
    {
        if a[i] != b[i] {
            return false;
        }
        proof {
            assert(a@.take(i + 1) =~= a@.take(i as int).push(a@[i as int]));
            assert(b@.take(i + 1) =~= b@.take(i as int).push(b@[i as int]));
        }
        i = i + 1;
    }
    proof {
        assert(a@ =~= a@.take(i as int));
        assert(b@ =~= b@.take(i as int));
    }
    true
}

fn count_same_exec(ids: &Vec<Vec<u8>>, x: &Vec<u8>, k: usize) -> (r: usize)
    requires
        k <= ids@.len(),
    ensures
        r == count_same(byte_views(ids@), x@, k as int),
{
    let ghost bv = byte_views(ids@);
    let mut c: usize = 0;
    let mut j: usize = 0;
    while j < k
        invariant
            j <= k <= ids@.len(),
            bv == byte_views(ids@),
            c == count_same(bv, x@, j as int),
            c <= j,
        decreases k - j,
    {
        if bytes_eq(&ids[j], x) {
            c = c + 1;
        }
        j = j + 1;
    }
    c
}

/// For each id: whether it occurs more than once, and how many equal ids
/// come before it.
pub fn divergence(ids: &Vec<Vec<u8>>) -> (r: Vec<(bool, usize)>)
    ensures
        r@.len() == ids@.len(),
        forall|k: int| 0 <= k < ids@.len() ==> #[trigger] divergent_index_at(byte_views(ids@), k) <= k,
        forall|k: int|
            0 <= k < ids@.len() ==> #[trigger] r@[k] == (
                is_divergent_at(byte_views(ids@), k),
                divergent_index_at(byte_views(ids@), k) as usize,
            ),
{
    let mut r: Vec<(bool, usize)> = Vec::new();
    let mut k: usize = 0;
    while k < ids.len()
        invariant
            k <= ids@.len(),
            r@.len() == k,
            forall|t: int| 0 <= t < k ==> #[trigger] divergent_index_at(byte_views(ids@), t) <= t,
            forall|t: int|
                0 <= t < k ==> #[trigger] r@[t] == (
                    is_divergent_at(byte_views(ids@), t),
                    divergent_index_at(byte_views(ids@), t) as usize,
                ),
        decreases ids@.len() - k,
    {
        proof {
            lemma_count_same_le(byte_views(ids@), byte_views(ids@)[k as int], k as int);
        }
        let total = count_same_exec(ids, &ids[k], ids.len());
        let before = count_same_exec(ids, &ids[k], k);
        r.push((total > 1, before));
        k = k + 1;
    }
    r
}

proof fn lemma_count_three(ids: Seq<Seq<u8>>, x: Seq<u8>, k1: int, k2: int, k3: int, k: int)
    requires
        0 <= k1 < k2 < k3 < ids.len(),
        0 <= k <= ids.len(),
        ids[k1] == x && ids[k2] == x && ids[k3] == x,
        forall|j: int| 0 <= j < ids.len() && #[trigger] ids[j] == x ==> j == k1 || j == k2 || j == k3,
    ensures
        count_same(ids, x, k) == (if k1 < k { 1nat } else { 0nat }) + (if k2 < k { 1nat } else { 0nat }) + (
        if k3 < k {
            1nat
        } else {
            0nat
        }),
    decreases k,
{
    if k > 0 {
        lemma_count_three(ids, x, k1, k2, k3, k - 1);
    }
}

/// Three commits that share one change id, and no other commit with it,
/// are all divergent and numbered 0, 1 and 2 in the order they come.
pub proof fn lemma_three_divergent(ids: Seq<Seq<u8>>, k1: int, k2: int, k3: int)
    requires
        0 <= k1 < k2 < k3 < ids.len(),
        ids[k1] == ids[k2] && ids[k2] == ids[k3],
        forall|j: int| 0 <= j < ids.len() && #[trigger] ids[j] == ids[k1] ==> j == k1 || j == k2 || j == k3,
    ensures
        is_divergent_at(ids, k1) && is_divergent_at(ids, k2) && is_divergent_at(ids, k3),
        divergent_index_at(ids, k1) == 0,
        divergent_index_at(ids, k2) == 1,
        divergent_index_at(ids, k3) == 2,
{
    let x = ids[k1];
    lemma_count_three(ids, x, k1, k2, k3, ids.len() as int);
    lemma_count_three(ids, x, k1, k2, k3, k1);
    lemma_count_three(ids, x, k1, k2, k3, k2);
    lemma_count_three(ids, x, k1, k2, k3, k3);
}


proof fn lemma_count_one(ids: Seq<Seq<u8>>, x: Seq<u8>, k0: int, k: int)
    requires
        0 <= k0 < ids.len(),
        0 <= k <= ids.len(),
        ids[k0] == x,
        forall|j: int| 0 <= j < ids.len() && #[trigger] ids[j] == x ==> j == k0,
    ensures
        count_same(ids, x, k) == if k0 < k {
            1nat
        } else {
            0nat
        },
    decreases k,
{
    if k > 0 {
        lemma_count_one(ids, x, k0, k - 1);
    }
}

/// An id that occurs once is not divergent, and has index 0.
pub proof fn lemma_unique_not_divergent(ids: Seq<Seq<u8>>, k: int)
    requires
        0 <= k < ids.len(),
        forall|j: int| 0 <= j < ids.len() && #[trigger] ids[j] == ids[k] ==> j == k,
    ensures
        !is_divergent_at(ids, k),
        divergent_index_at(ids, k) == 0,
{
    lemma_count_one(ids, ids[k], k, ids.len() as int);
    lemma_count_one(ids, ids[k], k, k);
}

} // verus!
