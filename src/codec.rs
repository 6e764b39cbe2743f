//! Display forms of identifiers: hexadecimal commit ids, change ids in a
//! reversed alphabet (`z` for 0 up to `k` for 15), and shortest unique
//! prefixes.

use vstd::prelude::*;

use crate::text::{chars_of, string_of};

verus! {

/// How many leading bytes of an identifier its short display form shows.
pub const SHORT_ID_BYTES: usize = 6;

/// The reversed-alphabet digit of a nibble: 0 is `z`, 15 is `k`.
pub open spec fn reverse_hex_digit(d: int) -> char {
    seq!['z', 'y', 'x', 'w', 'v', 'u', 't', 's', 'r', 'q', 'p', 'o', 'n', 'm', 'l', 'k'][d]
}

/// The lowercase hexadecimal digit of a nibble.
pub open spec fn hex_digit(d: int) -> char {
    seq!['0', '1', '2', '3', '4', '5', '6', '7', '8', '9', 'a', 'b', 'c', 'd', 'e', 'f'][d]
}

/// Two reversed-alphabet digits per byte, high nibble first.
pub open spec fn reverse_hex(b: Seq<u8>) -> Seq<char>
    decreases b.len(),
{
    if b.len() == 0 {
        Seq::empty()
    } else {
        reverse_hex(b.drop_last()) + seq![
            reverse_hex_digit(b.last() as int / 16),
            reverse_hex_digit(b.last() as int % 16),
        ]
    }
}

/// Two lowercase hexadecimal digits per byte, high nibble first.
pub open spec fn hex(b: Seq<u8>) -> Seq<char>
    decreases b.len(),
{
    if b.len() == 0 {
        Seq::empty()
    } else {
        hex(b.drop_last()) + seq![hex_digit(b.last() as int / 16), hex_digit(b.last() as int % 16)]
    }
}

/// The leading bytes that a short display form shows.
pub open spec fn short_bytes(b: Seq<u8>) -> Seq<u8> {
    if b.len() <= SHORT_ID_BYTES {
        b
    } else {
        b.take(SHORT_ID_BYTES as int)
    }
}

/// Whether a character is a digit of the reversed alphabet.
pub open spec fn is_reverse_hex_char(c: char) -> bool {
    'k' <= c && c <= 'z'
}

fn reverse_hex_digit_of(d: u8) -> (c: char)
    requires
        d < 16,
    ensures
        c == reverse_hex_digit(d as int),
{
    let table = ['z', 'y', 'x', 'w', 'v', 'u', 't', 's', 'r', 'q', 'p', 'o', 'n', 'm', 'l', 'k'];
    proof {
        assert(table@ =~= seq!['z', 'y', 'x', 'w', 'v', 'u', 't', 's', 'r', 'q', 'p', 'o', 'n', 'm', 'l', 'k']);
    }
    table[d as usize]
}

/// Encodes bytes in the reversed alphabet, two characters per byte.
pub fn encode_reverse_hex(bytes: &[u8]) -> (r: String)
    ensures
        r@ == reverse_hex(bytes@),
{
    let mut out: Vec<char> = Vec::new();
    let mut i: usize = 0;
    while i < bytes.len()
        invariant
            i <= bytes@.len(),
            out@ == reverse_hex(bytes@.take(i as int)),
        decreases bytes@.len() - i,
    {
        let b = bytes[i];
        out.push(reverse_hex_digit_of(b / 16));
        out.push(reverse_hex_digit_of(b % 16));
        proof {
            assert(bytes@.take(i + 1).drop_last() =~= bytes@.take(i as int));
        }
        i = i + 1;
    }
    proof {
        assert(bytes@.take(i as int) =~= bytes@);
    }
    string_of(&out)
}

/// The short display form of a change id: its leading bytes in the
/// reversed alphabet.
pub fn format_change_id(change_id: &[u8]) -> (r: String)
    ensures
        r@ == reverse_hex(short_bytes(change_id@)),
{
    if change_id.len() <= SHORT_ID_BYTES {
        encode_reverse_hex(change_id)
    } else {
        let (head, _) = change_id.split_at(SHORT_ID_BYTES);
        proof {
            assert(head@ =~= change_id@.take(SHORT_ID_BYTES as int));
        }
        encode_reverse_hex(head)
    }
}

/// Relies on `hex::encode`: lowercase digits, two per byte, high nibble first.
#[verifier::external_body]
fn hex_encode(bytes: &[u8]) -> (r: String)
    ensures
        r@ == hex(bytes@),
{
    hex::encode(bytes)
}

/// Encodes bytes in hexadecimal, two lowercase digits per byte.
pub fn encode_hex(bytes: &[u8]) -> (r: String)
    ensures
        r@ == hex(bytes@),
{
    hex_encode(bytes)
}

/// The short display form of a commit id: its leading bytes in hexadecimal.
pub fn format_commit_id(commit_id: &[u8]) -> (r: String)
    ensures
        r@ == hex(short_bytes(commit_id@)),
{
    if commit_id.len() <= SHORT_ID_BYTES {
        hex_encode(commit_id)
    } else {
        let (head, _) = commit_id.split_at(SHORT_ID_BYTES);
        proof {
            assert(head@ =~= commit_id@.take(SHORT_ID_BYTES as int));
        }
        hex_encode(head)
    }
}

/// Whether every character of a text is a digit of the reversed alphabet.
pub fn is_reverse_hex(text: &str) -> (r: bool)
    ensures
        r == forall|k: int| 0 <= k < text@.len() ==> #[trigger] is_reverse_hex_char(text@[k]),
{
    let cs = chars_of(text);
    let mut i: usize = 0;
    while i < cs.len()
        invariant
            i <= cs@.len(),
            cs@ == text@,
            forall|k: int| 0 <= k < i ==> #[trigger] is_reverse_hex_char(cs@[k]),
        decreases cs@.len() - i,
    {
        if !('k' <= cs[i] && cs[i] <= 'z') {
            assert(!is_reverse_hex_char(text@[i as int]));
            return false;
        }
        i = i + 1;
    }
    true
}

/// `a` and `b` agree on their first `n` characters (both have that many).
pub open spec fn shares_prefix(a: Seq<char>, b: Seq<char>, n: int) -> bool {
    &&& n <= a.len()
    &&& n <= b.len()
    &&& a.take(n) == b.take(n)
}

/// No id of the universe other than `id` itself starts with the first `n`
/// characters of `id`.
pub open spec fn unique_at(id: Seq<char>, universe: Seq<Seq<char>>, n: int) -> bool {
    forall|u: int|
        0 <= u < universe.len() && universe[u] != id ==> !shares_prefix(
            #[trigger] universe[u],
            id,
            n,
        )
}

/// `n` is the least positive length at which `id`'s prefix is unique in the
/// universe, or the length of `id` where no such length exists.
pub open spec fn is_shortest_unique_prefix(id: Seq<char>, universe: Seq<Seq<char>>, n: int) -> bool {
    if exists|m: int| 1 <= m <= id.len() && #[trigger] unique_at(id, universe, m) {
        &&& 1 <= n <= id.len()
        &&& unique_at(id, universe, n)
        &&& forall|m: int| 1 <= m < n ==> !#[trigger] unique_at(id, universe, m)
    } else {
        n == id.len()
    }
}

/// `unique_at`, over the first `i` ids of the universe.
pub open spec fn unique_among(id: Seq<char>, universe: Seq<Seq<char>>, i: int, n: int) -> bool {
    forall|u: int| 0 <= u < i && universe[u] != id ==> !shares_prefix(#[trigger] universe[u], id, n)
}

pub open spec fn views_of(v: Seq<String>) -> Seq<Seq<char>> {
    v.map_values(|s: String| s@)
}

/// Length of the common prefix of two character sequences.
fn common_prefix_len(a: &Vec<char>, b: &Vec<char>) -> (c: usize)
    ensures
        c <= a@.len(),
        c <= b@.len(),
        a@.take(c as int) == b@.take(c as int),
        c < a@.len() && c < b@.len() ==> a@[c as int] != b@[c as int],
{
    let mut c: usize = 0;
    while c < a.len() && c < b.len() && a[c] == b[c]
        invariant
            c <= a@.len(),
            c <= b@.len(),
            a@.take(c as int) == b@.take(c as int),
        decreases a@.len() - c,
    {
        proof {
            assert(a@.take(c + 1) =~= a@.take(c as int).push(a@[c as int]));
            assert(b@.take(c + 1) =~= b@.take(c as int).push(b@[c as int]));
        }
        c = c + 1;
    }
    c
}

proof fn lemma_shares_iff(a: Seq<char>, b: Seq<char>, c: int, n: int)
    requires
        0 <= c <= a.len(),
        c <= b.len(),
        a.take(c) == b.take(c),
        c < a.len() && c < b.len() ==> a[c] != b[c],
        0 <= n,
    ensures
        shares_prefix(a, b, n) <==> n <= c,
{
    if n <= c {
        assert(a.take(n) =~= a.take(c).take(n));
        assert(b.take(n) =~= b.take(c).take(n));
    } else if n <= a.len() && n <= b.len() {
        assert(a.take(n)[c] == a[c]);
        assert(b.take(n)[c] == b[c]);
    }
}

/// The shortest prefix length of `id` that no other id of the universe
/// shares, or the length of `id` where none is that short.
pub fn shortest_unique_prefix_len(id: &str, universe: &Vec<String>) -> (n: usize)
    ensures
        is_shortest_unique_prefix(id@, views_of(universe@), n as int),
{
    let ghost uv = views_of(universe@);
    let ic = chars_of(id);
    // the least length that is longer than every other id's common prefix
    let mut need: usize = 1;
    let mut blocked = false;
    let mut i: usize = 0;
    while i < universe.len()
        invariant
            i <= universe@.len(),
            uv == views_of(universe@),
            ic@ == id@,
            1 <= need <= ic@.len() + 1,
            blocked ==> need == ic@.len() + 1,
            forall|n: int| 1 <= n <= ic@.len() ==> (#[trigger] unique_among(id@, uv, i as int, n) <==> need <= n),
        decreases universe@.len() - i,
    {
        let uc = chars_of(universe[i].as_str());
        let c = common_prefix_len(&uc, &ic);
        let same = c == uc.len() && c == ic.len();
        proof {
            assert(uv[i as int] == uc@);
            if same {
                assert(uc@ =~= uc@.take(c as int));
                assert(ic@ =~= ic@.take(c as int));
            }
            assert forall|n: int| 0 <= n implies shares_prefix(uc@, id@, n) <==> n <= c by {
                lemma_shares_iff(uc@, ic@, c as int, n);
            }
        }
        let ghost old_need = need;
        if !same && c + 1 > need {
            need = c + 1;
        }
        proof {
            assert forall|n: int| 1 <= n <= ic@.len() implies (#[trigger] unique_among(id@, uv, i + 1, n) <==> need <= n) by {
                assert(unique_among(id@, uv, i as int, n) <==> old_need <= n);
                if need <= n {
                    assert forall|u: int| 0 <= u < i + 1 && uv[u] != id@ implies !shares_prefix(#[trigger] uv[u], id@, n) by {
                        if u == i {
                            assert(!same);
                        }
                    }
                }
            }
        }
        i = i + 1;
    }
    proof {
        assert forall|n: int| 1 <= n <= ic@.len() implies (#[trigger] unique_at(id@, uv, n) <==> need <= n) by {
            assert(unique_among(id@, uv, i as int, n) <==> need <= n);
        }
    }
    if need <= ic.len() {
        proof {
            assert(unique_at(id@, uv, need as int));
        }
        need
    } else {
        ic.len()
    }
}

/// Where another id of the universe shares the first `k` characters of
/// `id`, the shortest unique prefix of `id` is longer than `k`, unless it
/// is all of `id`.
pub proof fn lemma_shared_prefix_is_not_unique(
    id: Seq<char>,
    universe: Seq<Seq<char>>,
    other: int,
    k: int,
    n: int,
)
    requires
        0 <= other < universe.len(),
        universe[other] != id,
        shares_prefix(universe[other], id, k),
        is_shortest_unique_prefix(id, universe, n),
    ensures
        n > k || n == id.len(),
{
    if n <= k && n != id.len() {
        assert(shares_prefix(universe[other], id, n)) by {
            assert(universe[other].take(n) =~= universe[other].take(k).take(n));
            assert(id.take(n) =~= id.take(k).take(n));
        }
    }
}

} // verus!
