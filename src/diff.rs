//! Line-level diff between two byte buffers, with per-line numbering.

use vstd::prelude::*;

use crate::text::{chars_of, string_of};

verus! {

/// What a diff line does to the old text.
#[derive(Clone, Copy, Debug, PartialEq, Eq, Structural)]
pub enum LineKind {
    Context,
    Added,
    Removed,
}

/// One line of a hunk. `content` keeps the line's terminator, if it had one.
#[derive(Clone, Debug)]
pub struct DiffLine {
    pub line_type: LineKind,
    pub content: String,
    pub old_line_number: Option<usize>,
    pub new_line_number: Option<usize>,
}

#[derive(Clone, Debug)]
pub struct DiffHunk {
    pub old_start: usize,
    pub old_count: usize,
    pub new_start: usize,
    pub new_count: usize,
    pub lines: Vec<DiffLine>,
}

#[derive(Clone, Debug)]
pub struct FileDiff {
    pub path: String,
    pub hunks: Vec<DiffHunk>,
}

/// Whether a line of this kind belongs to the old (`false`) or new (`true`) side.
pub open spec fn on_side(kind: LineKind, new_side: bool) -> bool {
    if new_side {
        kind != LineKind::Removed
    } else {
        kind != LineKind::Added
    }
}

/// The text of one side, read off a sequence of (kind, text) entries.
pub open spec fn side_text(ls: Seq<(LineKind, Seq<char>)>, new_side: bool) -> Seq<char>
    decreases ls.len(),
{
    if ls.len() == 0 {
        Seq::empty()
    } else {
        let last = ls.last();
        side_text(ls.drop_last(), new_side) + if on_side(last.0, new_side) {
            last.1
        } else {
            Seq::empty()
        }
    }
}

/// Number of entries that belong to one side.
pub open spec fn side_count(ls: Seq<(LineKind, Seq<char>)>, new_side: bool) -> nat
    decreases ls.len(),
{
    if ls.len() == 0 {
        0
    } else {
        side_count(ls.drop_last(), new_side) + if on_side(ls.last().0, new_side) {
            1nat
        } else {
            0nat
        }
    }
}

/// The end of the line that starts at position 0, scanning from `i`: just
/// after the first `\n`, `\r\n` or lone `\r`, or the end of the text.
pub open spec fn line_end(s: Seq<char>, i: int) -> int
    decreases s.len() - i,
{
    if i < 0 || i >= s.len() {
        s.len() as int
    } else if s[i] == '\r' {
        if i + 1 < s.len() && s[i + 1] == '\n' {
            i + 2
        } else {
            i + 1
        }
    } else if s[i] == '\n' {
        i + 1
    } else {
        line_end(s, i + 1)
    }
}

/// A text split into lines, each keeping its terminator (`\n`, `\r\n` or a
/// lone `\r`); a last line without terminator is kept too.
pub open spec fn line_tokens(s: Seq<char>) -> Seq<Seq<char>>
    decreases s.len(),
{
    if s.len() == 0 {
        Seq::empty()
    } else {
        let e = line_end(s, 0);
        if 0 < e <= s.len() {
            seq![s.take(e)] + line_tokens(s.skip(e))
        } else {
            Seq::empty()
        }
    }
}

/// The lines of one side, read off a sequence of (kind, text) entries.
pub open spec fn side_lines(ls: Seq<(LineKind, Seq<char>)>, new_side: bool) -> Seq<Seq<char>>
    decreases ls.len(),
{
    if ls.len() == 0 {
        Seq::empty()
    } else {
        side_lines(ls.drop_last(), new_side) + if on_side(ls.last().0, new_side) {
            seq![ls.last().1]
        } else {
            Seq::<Seq<char>>::empty()
        }
    }
}

/// The length of a longest common subsequence of two line lists.
pub open spec fn lcs_len(a: Seq<Seq<char>>, b: Seq<Seq<char>>) -> nat
    decreases a.len() + b.len(),
{
    if a.len() == 0 || b.len() == 0 {
        0
    } else if a.last() == b.last() {
        lcs_len(a.drop_last(), b.drop_last()) + 1
    } else {
        let x = lcs_len(a.drop_last(), b);
        let y = lcs_len(a, b.drop_last());
        if x >= y {
            x
        } else {
            y
        }
    }
}

/// Number of context entries.
pub open spec fn context_count(ls: Seq<(LineKind, Seq<char>)>) -> nat
    decreases ls.len(),
{
    if ls.len() == 0 {
        0
    } else {
        context_count(ls.drop_last()) + if ls.last().0 == LineKind::Context {
            1nat
        } else {
            0nat
        }
    }
}

pub open spec fn entry_of(l: DiffLine) -> (LineKind, Seq<char>) {
    (l.line_type, l.content@)
}

pub open spec fn entries(ls: Seq<DiffLine>) -> Seq<(LineKind, Seq<char>)> {
    ls.map_values(|l: DiffLine| entry_of(l))
}

pub open spec fn pair_entries(ls: Seq<(LineKind, String)>) -> Seq<(LineKind, Seq<char>)> {
    ls.map_values(|p: (LineKind, String)| (p.0, p.1@))
}

/// The number a line carries on one side: the count of that side's lines
/// before it, plus one, where the line exists on that side.
pub open spec fn expected_number(ls: Seq<DiffLine>, k: int, new_side: bool) -> Option<int> {
    if on_side(ls[k].line_type, new_side) {
        Some(side_count(entries(ls.take(k)), new_side) + 1int)
    } else {
        None
    }
}

/// Every line is numbered on each side as its position there dictates.
pub open spec fn numbered(ls: Seq<DiffLine>) -> bool {
    forall|k: int|
        0 <= k < ls.len() ==> {
            &&& number_of(#[trigger] ls[k].old_line_number) == expected_number(ls, k, false)
            &&& number_of(ls[k].new_line_number) == expected_number(ls, k, true)
        }
}

pub open spec fn number_of(n: Option<usize>) -> Option<int> {
    match n {
        Some(x) => Some(x as int),
        None => None,
    }
}

/// A hunk that covers both texts whole, starting at line one on each side.
pub open spec fn whole_file_hunk(h: DiffHunk, old: Seq<char>, new: Seq<char>) -> bool {
    &&& h.old_start == 1
    &&& h.new_start == 1
    &&& side_text(entries(h.lines@), false) == old
    &&& side_text(entries(h.lines@), true) == new
    &&& side_lines(entries(h.lines@), false) == line_tokens(old)
    &&& side_lines(entries(h.lines@), true) == line_tokens(new)
    &&& h.old_count == side_count(entries(h.lines@), false)
    &&& h.new_count == side_count(entries(h.lines@), true)
    &&& h.old_count == line_tokens(old).len()
    &&& h.new_count == line_tokens(new).len()
    &&& context_count(entries(h.lines@)) == lcs_len(line_tokens(old), line_tokens(new))
    &&& numbered(h.lines@)
    &&& forall|k: int| 0 <= k < h.lines@.len() ==> #[trigger] h.lines@[k].content@.len() > 0
}

/// What `String::from_utf8_lossy` makes of a byte sequence.
pub uninterp spec fn utf8_lossy(b: Seq<u8>) -> Seq<char>;

/// Relies on `String::from_utf8_lossy`: decoding depends on the bytes alone,
/// and no bytes decode to no text.
#[verifier::external_body]
fn decode_lossy(b: &[u8]) -> (r: String)
    ensures
        r@ == utf8_lossy(b@),
        b@.len() == 0 ==> r@.len() == 0,
{
    String::from_utf8_lossy(b).into_owned()
}

/// Relies on `similar::TextDiff::from_lines` and `iter_all_changes`: both
/// texts are split into lines by `tokenize_lines` (after each `\n`, `\r\n`
/// or lone `\r`), and the changes cover those lines in order (equal and
/// deleted lines are the old text's lines, equal and inserted lines the new
/// one's); with no deadline, Myers' algorithm keeps a longest common
/// subsequence of the two line lists as equal lines; two equal texts share
/// a common prefix that is all of them.
#[verifier::external_body]
fn line_changes(old: &str, new: &str) -> (r: Vec<(LineKind, String)>)
    ensures
        side_text(pair_entries(r@), false) == old@,
        side_text(pair_entries(r@), true) == new@,
        side_lines(pair_entries(r@), false) == line_tokens(old@),
        side_lines(pair_entries(r@), true) == line_tokens(new@),
        context_count(pair_entries(r@)) == lcs_len(line_tokens(old@), line_tokens(new@)),
        forall|k: int| 0 <= k < r@.len() ==> #[trigger] r@[k].1@.len() > 0,
        old@ == new@ ==> forall|k: int| 0 <= k < r@.len() ==> #[trigger] r@[k].0 == LineKind::Context,
{
    similar::TextDiff::from_lines(old, new).iter_all_changes().map(|c| {
        let kind = match c.tag() {
            similar::ChangeTag::Equal => LineKind::Context,
            similar::ChangeTag::Delete => LineKind::Removed,
            similar::ChangeTag::Insert => LineKind::Added,
        };
        (kind, c.value().to_string())
    }).collect()
}


proof fn lemma_side_push(ls: Seq<(LineKind, Seq<char>)>, e: (LineKind, Seq<char>), new_side: bool)
    ensures
        side_text(ls.push(e), new_side) == side_text(ls, new_side) + if on_side(e.0, new_side) {
            e.1
        } else {
            Seq::empty()
        },
        side_count(ls.push(e), new_side) == side_count(ls, new_side) + if on_side(e.0, new_side) {
            1nat
        } else {
            0nat
        },
{
    assert(ls.push(e).drop_last() =~= ls);
}

proof fn lemma_side_lines_count(ls: Seq<(LineKind, Seq<char>)>, new_side: bool)
    ensures
        side_lines(ls, new_side).len() == side_count(ls, new_side),
    decreases ls.len(),
{
    if ls.len() > 0 {
        lemma_side_lines_count(ls.drop_last(), new_side);
    }
}

proof fn lemma_side_count_le(ls: Seq<(LineKind, Seq<char>)>, new_side: bool)
    ensures
        side_count(ls, new_side) <= ls.len(),
    decreases ls.len(),
{
    if ls.len() > 0 {
        lemma_side_count_le(ls.drop_last(), new_side);
    }
}

/// Diffs two texts line by line into one hunk that spans both of them.
pub fn diff_texts(old_text: &str, new_text: &str) -> (h: DiffHunk)
    ensures
        whole_file_hunk(h, old_text@, new_text@),
        old_text@ == new_text@ ==> forall|k: int|
            0 <= k < h.lines@.len() ==> #[trigger] h.lines@[k].line_type == LineKind::Context,
{
    let changes = line_changes(old_text, new_text);
    let mut lines: Vec<DiffLine> = Vec::new();
    let mut old_n: usize = 0;
    let mut new_n: usize = 0;
    let mut i: usize = 0;
    while i < changes.len()
        invariant
            i <= changes@.len(),
            lines@.len() == i,
            entries(lines@) == pair_entries(changes@).take(i as int),
            old_n == side_count(entries(lines@), false),
            new_n == side_count(entries(lines@), true),
            numbered(lines@),
            forall|k: int| 0 <= k < lines@.len() ==> #[trigger] lines@[k].content@.len() > 0,
            forall|k: int| 0 <= k < lines@.len() ==> #[trigger] lines@[k].line_type == changes@[k].0,
            forall|k: int| 0 <= k < changes@.len() ==> #[trigger] changes@[k].1@.len() > 0,
        decreases changes@.len() - i,
    {
        let kind = changes[i].0;
        let content = changes[i].1.clone();
        proof {
            lemma_side_count_le(entries(lines@), false);
            lemma_side_count_le(entries(lines@), true);
        }
        let line = match kind {
            LineKind::Context => DiffLine {
                line_type: kind,
                content,
                old_line_number: Some(old_n + 1),
                new_line_number: Some(new_n + 1),
            },
            LineKind::Removed => DiffLine {
                line_type: kind,
                content,
                old_line_number: Some(old_n + 1),
                new_line_number: None,
            },
            LineKind::Added => DiffLine {
                line_type: kind,
                content,
                old_line_number: None,
                new_line_number: Some(new_n + 1),
            },
        };
        let ghost prev = lines@;
        lines.push(line);
        proof {
            assert(lines@.take(i as int) =~= prev);
            assert(entries(lines@) =~= entries(prev).push(entry_of(line)));
            assert(pair_entries(changes@).take(i + 1) =~= pair_entries(changes@).take(i as int).push(
                pair_entries(changes@)[i as int],
            ));
            lemma_side_push(entries(prev), entry_of(line), false);
            lemma_side_push(entries(prev), entry_of(line), true);
            assert forall|k: int| 0 <= k < lines@.len() implies {
                &&& number_of(#[trigger] lines@[k].old_line_number) == expected_number(lines@, k, false)
                &&& number_of(lines@[k].new_line_number) == expected_number(lines@, k, true)
            } by {
                if k < i {
                    assert(lines@.take(k) =~= prev.take(k));
                    assert(lines@[k] == prev[k]);
                } else {
                    assert(lines@.take(k) =~= prev);
                }
            }
        }
        if kind != LineKind::Added {
            old_n = old_n + 1;
        }
        if kind != LineKind::Removed {
            new_n = new_n + 1;
        }
        i = i + 1;
    }
    proof {
        assert(pair_entries(changes@).take(i as int) =~= pair_entries(changes@));
        lemma_side_lines_count(entries(lines@), false);
        lemma_side_lines_count(entries(lines@), true);
    }
    DiffHunk { old_start: 1, old_count: old_n, new_start: 1, new_count: new_n, lines }
}

/// Diffs the text of two byte buffers, decoded as UTF-8 with invalid
/// sequences replaced, into one hunk that spans the whole file.
pub fn compute_file_diff(old_content: &[u8], new_content: &[u8], path: String) -> (d: FileDiff)
    ensures
        d.path@ == path@,
        d.hunks@.len() == 1,
        whole_file_hunk(d.hunks@[0], utf8_lossy(old_content@), utf8_lossy(new_content@)),
        old_content@.len() == 0 ==> utf8_lossy(old_content@) =~= Seq::<char>::empty(),
        new_content@.len() == 0 ==> utf8_lossy(new_content@) =~= Seq::<char>::empty(),
        utf8_lossy(old_content@) == utf8_lossy(new_content@) ==> forall|k: int|
            0 <= k < d.hunks@[0].lines@.len() ==> #[trigger] d.hunks@[0].lines@[k].line_type
                == LineKind::Context,
{
    let old_text = decode_lossy(old_content);
    let new_text = decode_lossy(new_content);
    let hunk = diff_texts(old_text.as_str(), new_text.as_str());
    let mut hunks: Vec<DiffHunk> = Vec::new();
    hunks.push(hunk);
    FileDiff { path, hunks }
}


/// Applies a diff's lines to an old text: context lines must match and are
/// kept, removed lines must match and are dropped, added lines are inserted.
/// `None` where the old text does not fit the lines.
pub open spec fn apply_lines(old: Seq<char>, ls: Seq<(LineKind, Seq<char>)>) -> Option<Seq<char>>
    decreases ls.len(),
{
    if ls.len() == 0 {
        if old.len() == 0 {
            Some(Seq::empty())
        } else {
            None
        }
    } else {
        let e = ls.last();
        let rest = ls.drop_last();
        if e.0 == LineKind::Added {
            match apply_lines(old, rest) {
                Some(t) => Some(t + e.1),
                None => None,
            }
        } else if e.1.len() <= old.len() && old.subrange(old.len() - e.1.len(), old.len() as int)
            == e.1 {
            let before = old.subrange(0, old.len() - e.1.len());
            match apply_lines(before, rest) {
                Some(t) => Some(
                    if e.0 == LineKind::Context {
                        t + e.1
                    } else {
                        t
                    },
                ),
                None => None,
            }
        } else {
            None
        }
    }
}

proof fn lemma_apply_side(ls: Seq<(LineKind, Seq<char>)>)
    ensures
        apply_lines(side_text(ls, false), ls) == Some(side_text(ls, true)),
    decreases ls.len(),
{
    if ls.len() > 0 {
        let e = ls.last();
        let rest = ls.drop_last();
        lemma_apply_side(rest);
        let old = side_text(ls, false);
        if e.0 != LineKind::Added {
            assert(old.subrange(old.len() - e.1.len(), old.len() as int) =~= e.1);
            assert(old.subrange(0, old.len() - e.1.len()) =~= side_text(rest, false));
        } else {
            assert(old =~= side_text(rest, false));
        }
    }
}

/// Applying the lines of a diff of `old` against `new` to `old` gives `new`:
/// the context and removed lines are the lines of `old`, the context and
/// added lines those of `new`.
pub proof fn lemma_diff_round_trip(h: DiffHunk, old: Seq<char>, new: Seq<char>)
    requires
        whole_file_hunk(h, old, new),
    ensures
        apply_lines(old, entries(h.lines@)) == Some(new),
        side_lines(entries(h.lines@), false) == line_tokens(old),
        side_lines(entries(h.lines@), true) == line_tokens(new),
{
    lemma_apply_side(entries(h.lines@));
}

proof fn lemma_all_on_side(ls: Seq<(LineKind, Seq<char>)>, new_side: bool)
    requires
        forall|k: int| 0 <= k < ls.len() ==> on_side(#[trigger] ls[k].0, new_side),
    ensures
        side_count(ls, new_side) == ls.len(),
        side_lines(ls, new_side) == ls.map_values(|e: (LineKind, Seq<char>)| e.1),
    decreases ls.len(),
{
    if ls.len() > 0 {
        let rest = ls.drop_last();
        assert forall|k: int| 0 <= k < rest.len() implies on_side(#[trigger] rest[k].0, new_side) by {
            assert(rest[k] == ls[k]);
        }
        lemma_all_on_side(rest, new_side);
        assert(ls.map_values(|e: (LineKind, Seq<char>)| e.1) =~= rest.map_values(
            |e: (LineKind, Seq<char>)| e.1,
        ).push(ls.last().1));
    }
}

proof fn lemma_none_on_side(ls: Seq<(LineKind, Seq<char>)>, new_side: bool)
    requires
        side_count(ls, new_side) == 0,
    ensures
        forall|k: int| 0 <= k < ls.len() ==> !on_side(#[trigger] ls[k].0, new_side),
    decreases ls.len(),
{
    if ls.len() > 0 {
        let rest = ls.drop_last();
        lemma_none_on_side(rest, new_side);
        assert forall|k: int| 0 <= k < ls.len() implies !on_side(#[trigger] ls[k].0, new_side) by {
            if k < rest.len() {
                assert(rest[k] == ls[k]);
            }
        }
    }
}

/// Where every line of a hunk is on one side, the `k`th line carries number
/// `k + 1` on that side.
proof fn lemma_numbers_in_order(h: DiffHunk, new_side: bool)
    requires
        numbered(h.lines@),
        forall|k: int| 0 <= k < h.lines@.len() ==> on_side(#[trigger] h.lines@[k].line_type, new_side),
    ensures
        forall|k: int|
            0 <= k < h.lines@.len() ==> expected_number(h.lines@, k, new_side) == Some(k + 1),
{
    assert forall|k: int| 0 <= k < h.lines@.len() implies expected_number(h.lines@, k, new_side) == Some(k + 1) by {
        let t = entries(h.lines@.take(k));
        assert forall|j: int| 0 <= j < t.len() implies on_side(#[trigger] t[j].0, new_side) by {
            assert(t[j].0 == h.lines@[j].line_type);
        }
        lemma_all_on_side(t, new_side);
    }
}

/// A diff of a text against itself holds context lines only: one per line
/// of the text, holding that line, numbered from one on both sides.
pub proof fn lemma_diff_of_same_text(h: DiffHunk, text: Seq<char>)
    requires
        whole_file_hunk(h, text, text),
        forall|k: int| 0 <= k < h.lines@.len() ==> #[trigger] h.lines@[k].line_type == LineKind::Context,
    ensures
        h.old_count == h.lines@.len(),
        h.new_count == h.lines@.len(),
        h.lines@.len() == line_tokens(text).len(),
        forall|k: int|
            0 <= k < h.lines@.len() ==> {
                &&& #[trigger] h.lines@[k].content@ == line_tokens(text)[k]
                &&& h.lines@[k].old_line_number == Some((k + 1) as usize)
                &&& h.lines@[k].new_line_number == Some((k + 1) as usize)
            },
{
    let es = entries(h.lines@);
    assert forall|k: int| 0 <= k < es.len() implies on_side(#[trigger] es[k].0, false) by {
        assert(h.lines@[k].line_type == LineKind::Context);
    }
    assert forall|k: int| 0 <= k < es.len() implies on_side(#[trigger] es[k].0, true) by {
        assert(h.lines@[k].line_type == LineKind::Context);
    }
    lemma_all_on_side(es, false);
    lemma_all_on_side(es, true);
    lemma_numbers_in_order(h, false);
    lemma_numbers_in_order(h, true);
    assert forall|k: int| 0 <= k < h.lines@.len() implies {
        &&& #[trigger] h.lines@[k].content@ == line_tokens(text)[k]
        &&& h.lines@[k].old_line_number == Some((k + 1) as usize)
        &&& h.lines@[k].new_line_number == Some((k + 1) as usize)
    } by {
        assert(es[k].1 == h.lines@[k].content@);
        assert(number_of(h.lines@[k].old_line_number) == Some(k + 1));
        assert(number_of(h.lines@[k].new_line_number) == Some(k + 1));
    }
}

/// A diff from an empty text adds every line of the new text, in order,
/// numbered from one, and removes nothing.
pub proof fn lemma_pure_addition(h: DiffHunk, new: Seq<char>)
    requires
        whole_file_hunk(h, Seq::empty(), new),
    ensures
        h.old_count == 0,
        h.new_count == line_tokens(new).len(),
        h.lines@.len() == line_tokens(new).len(),
        forall|k: int|
            0 <= k < h.lines@.len() ==> {
                &&& #[trigger] h.lines@[k].line_type == LineKind::Added
                &&& h.lines@[k].content@ == line_tokens(new)[k]
                &&& h.lines@[k].old_line_number is None
                &&& h.lines@[k].new_line_number == Some((k + 1) as usize)
            },
{
    let es = entries(h.lines@);
    assert(line_tokens(Seq::<char>::empty()).len() == 0);
    lemma_side_lines_count(es, false);
    lemma_none_on_side(es, false);
    assert forall|k: int| 0 <= k < es.len() implies on_side(#[trigger] es[k].0, true) by {
        assert(!on_side(es[k].0, false));
    }
    lemma_all_on_side(es, true);
    assert forall|k: int| 0 <= k < h.lines@.len() implies on_side(#[trigger] h.lines@[k].line_type, true) by {
        assert(es[k].0 == h.lines@[k].line_type);
    }
    lemma_numbers_in_order(h, true);
    assert forall|k: int| 0 <= k < h.lines@.len() implies {
        &&& #[trigger] h.lines@[k].line_type == LineKind::Added
        &&& h.lines@[k].content@ == line_tokens(new)[k]
        &&& h.lines@[k].old_line_number is None
        &&& h.lines@[k].new_line_number == Some((k + 1) as usize)
    } by {
        assert(!on_side(es[k].0, false));
        assert(es[k].1 == h.lines@[k].content@);
        assert(number_of(h.lines@[k].old_line_number) == expected_number(h.lines@, k, false));
        assert(number_of(h.lines@[k].new_line_number) == Some(k + 1));
    }
}

/// A diff to an empty text removes every line of the old text, in order,
/// numbered from one, and adds nothing.
pub proof fn lemma_pure_deletion(h: DiffHunk, old: Seq<char>)
    requires
        whole_file_hunk(h, old, Seq::empty()),
    ensures
        h.new_count == 0,
        h.old_count == line_tokens(old).len(),
        h.lines@.len() == line_tokens(old).len(),
        forall|k: int|
            0 <= k < h.lines@.len() ==> {
                &&& #[trigger] h.lines@[k].line_type == LineKind::Removed
                &&& h.lines@[k].content@ == line_tokens(old)[k]
                &&& h.lines@[k].new_line_number is None
                &&& h.lines@[k].old_line_number == Some((k + 1) as usize)
            },
{
    let es = entries(h.lines@);
    assert(line_tokens(Seq::<char>::empty()).len() == 0);
    lemma_side_lines_count(es, true);
    lemma_none_on_side(es, true);
    assert forall|k: int| 0 <= k < es.len() implies on_side(#[trigger] es[k].0, false) by {
        assert(!on_side(es[k].0, true));
    }
    lemma_all_on_side(es, false);
    assert forall|k: int| 0 <= k < h.lines@.len() implies on_side(#[trigger] h.lines@[k].line_type, false) by {
        assert(es[k].0 == h.lines@[k].line_type);
    }
    lemma_numbers_in_order(h, false);
    assert forall|k: int| 0 <= k < h.lines@.len() implies {
        &&& #[trigger] h.lines@[k].line_type == LineKind::Removed
        &&& h.lines@[k].content@ == line_tokens(old)[k]
        &&& h.lines@[k].new_line_number is None
        &&& h.lines@[k].old_line_number == Some((k + 1) as usize)
    } by {
        assert(!on_side(es[k].0, true));
        assert(es[k].1 == h.lines@[k].content@);
        assert(number_of(h.lines@[k].new_line_number) == expected_number(h.lines@, k, true));
        assert(number_of(h.lines@[k].old_line_number) == Some(k + 1));
    }
}

proof fn lemma_count_take_mono(ls: Seq<(LineKind, Seq<char>)>, k: int, l: int, new_side: bool)
    requires
        0 <= k <= l <= ls.len(),
    ensures
        side_count(ls.take(k), new_side) + (if k < l && on_side(ls[k].0, new_side) {
            1int
        } else {
            0int
        }) <= side_count(ls.take(l), new_side),
    decreases l - k,
{
    if k < l {
        lemma_count_take_mono(ls, k, l - 1, new_side);
        assert(ls.take(l).drop_last() =~= ls.take(l - 1));
        if k == l - 1 {
            assert(ls.take(l).last() == ls[k]);
        }
    }
}

/// Within a hunk, line numbers grow strictly on each side, in line order.
pub proof fn lemma_numbers_increase(h: DiffHunk, k: int, l: int)
    requires
        numbered(h.lines@),
        0 <= k < l < h.lines@.len(),
    ensures
        h.lines@[k].old_line_number is Some && h.lines@[l].old_line_number is Some
            ==> h.lines@[k].old_line_number.unwrap() < h.lines@[l].old_line_number.unwrap(),
        h.lines@[k].new_line_number is Some && h.lines@[l].new_line_number is Some
            ==> h.lines@[k].new_line_number.unwrap() < h.lines@[l].new_line_number.unwrap(),
{
    let ls = h.lines@;
    let es = entries(ls);
    assert(es.take(k) =~= entries(ls.take(k)));
    assert(es.take(l) =~= entries(ls.take(l)));
    lemma_count_take_mono(es, k, l, false);
    lemma_count_take_mono(es, k, l, true);
    lemma_side_count_le(es.take(l), false);
    lemma_side_count_le(es.take(l), true);
    assert(number_of(ls[k].old_line_number) == expected_number(ls, k, false));
    assert(number_of(ls[l].old_line_number) == expected_number(ls, l, false));
    assert(number_of(ls[k].new_line_number) == expected_number(ls, k, true));
    assert(number_of(ls[l].new_line_number) == expected_number(ls, l, true));
}


/// A text with its trailing newlines removed.
pub open spec fn trim_newlines(s: Seq<char>) -> Seq<char>
    decreases s.len(),
{
    if s.len() > 0 && s.last() == '\n' {
        trim_newlines(s.drop_last())
    } else {
        s
    }
}

pub open spec fn prefix_char(kind: LineKind) -> char {
    match kind {
        LineKind::Context => ' ',
        LineKind::Added => '+',
        LineKind::Removed => '-',
    }
}

/// A line as the plain diff text shows it: its marker, then its content
/// without trailing newlines.
pub open spec fn rendered_line(l: DiffLine) -> Seq<char> {
    seq![prefix_char(l.line_type)] + trim_newlines(l.content@)
}

/// The rendered lines, one after another, separated by newlines.
pub open spec fn rendered_text(ls: Seq<DiffLine>) -> Seq<char>
    decreases ls.len(),
{
    if ls.len() == 0 {
        Seq::empty()
    } else if ls.len() == 1 {
        rendered_line(ls[0])
    } else {
        rendered_text(ls.drop_last()) + seq!['\n'] + rendered_line(ls.last())
    }
}

/// All lines of the hunks, in order.
pub open spec fn hunk_lines(hs: Seq<DiffHunk>) -> Seq<DiffLine>
    decreases hs.len(),
{
    if hs.len() == 0 {
        Seq::empty()
    } else {
        hunk_lines(hs.drop_last()) + hs.last().lines@
    }
}

fn push_rendered_line(out: &mut Vec<char>, l: &DiffLine)
    ensures
        final(out)@ == old(out)@ + rendered_line(*l),
{
    let marker = match l.line_type {
        LineKind::Context => ' ',
        LineKind::Added => '+',
        LineKind::Removed => '-',
    };
    out.push(marker);
    let cs = chars_of(l.content.as_str());
    let mut end: usize = cs.len();
    assert(cs@.take(end as int) =~= cs@);
    while end > 0 && cs[end - 1] == '\n'
        invariant
            end <= cs@.len(),
            trim_newlines(cs@) == trim_newlines(cs@.take(end as int)),
        decreases end,
    {
        proof {
            assert(cs@.take(end as int).drop_last() =~= cs@.take(end - 1));
        }
        end = end - 1;
    }
    let ghost start = out@;
    let mut i: usize = 0;
    while i < end
        invariant
            i <= end <= cs@.len(),
            out@ == start + cs@.take(i as int),
        decreases end - i,
    {
        out.push(cs[i]);
        proof {
            assert(cs@.take(i + 1) =~= cs@.take(i as int).push(cs@[i as int]));
        }
        i = i + 1;
    }
    proof {
        assert(trim_newlines(cs@.take(end as int)) == cs@.take(end as int));
        assert(out@ =~= old(out)@ + rendered_line(*l));
    }
}

/// The diff as plain text: every line of every hunk with its marker
/// (space, `+` or `-`), without trailing newlines, joined by newlines.
pub fn get_diff_text(diff: &FileDiff) -> (r: String)
    ensures
        r@ == rendered_text(hunk_lines(diff.hunks@)),
{
    let mut out: Vec<char> = Vec::new();
    let ghost mut done: Seq<DiffLine> = Seq::empty();
    let mut first = true;
    let mut h: usize = 0;
    while h < diff.hunks.len()
        invariant
            h <= diff.hunks@.len(),
            done == hunk_lines(diff.hunks@.take(h as int)),
            out@ == rendered_text(done),
            first == (done.len() == 0),
        decreases diff.hunks@.len() - h,
    {
        let hunk = &diff.hunks[h];
        let ghost before = done;
        let mut i: usize = 0;
        while i < hunk.lines.len()
            invariant
                i <= hunk.lines@.len(),
                done == before + hunk.lines@.take(i as int),
                out@ == rendered_text(done),
                first == (done.len() == 0),
            decreases hunk.lines@.len() - i,
        {
            let ghost prev = done;
            if !first {
                out.push('\n');
            }
            first = false;
            push_rendered_line(&mut out, &hunk.lines[i]);
            proof {
                done = prev.push(hunk.lines@[i as int]);
                assert(done.drop_last() =~= prev);
                assert(hunk.lines@.take(i + 1) =~= hunk.lines@.take(i as int).push(hunk.lines@[i as int]));
                assert(done =~= before + hunk.lines@.take(i + 1));
                if prev.len() == 0 {
                    assert(out@ =~= rendered_text(done));
                } else {
                    assert(out@ =~= rendered_text(done));
                }
            }
            i = i + 1;
        }
        proof {
            assert(diff.hunks@.take(h + 1).drop_last() =~= diff.hunks@.take(h as int));
            assert(hunk.lines@.take(i as int) =~= hunk.lines@);
        }
        h = h + 1;
    }
    proof {
        assert(diff.hunks@.take(h as int) =~= diff.hunks@);
    }
    string_of(&out)
}


/// One changed path of a revision, with its content before and after.
#[derive(Clone, Debug)]
pub struct FileContents {
    pub path: String,
    pub old: Vec<u8>,
    pub new: Vec<u8>,
}

/// The positions of the files whose decoded texts differ, in order.
pub open spec fn changed_positions(fs: Seq<FileContents>) -> Seq<int>
    decreases fs.len(),
{
    if fs.len() == 0 {
        Seq::empty()
    } else {
        let r = changed_positions(fs.drop_last());
        if utf8_lossy(fs.last().old@) != utf8_lossy(fs.last().new@) {
            r.push(fs.len() - 1)
        } else {
            r
        }
    }
}

proof fn lemma_context_only_same(ls: Seq<(LineKind, Seq<char>)>)
    requires
        forall|k: int| 0 <= k < ls.len() ==> #[trigger] ls[k].0 == LineKind::Context,
    ensures
        side_text(ls, false) == side_text(ls, true),
    decreases ls.len(),
{
    if ls.len() > 0 {
        let rest = ls.drop_last();
        assert forall|k: int| 0 <= k < rest.len() implies #[trigger] rest[k].0 == LineKind::Context by {
            assert(rest[k] == ls[k]);
        }
        lemma_context_only_same(rest);
    }
}

fn has_change(h: &DiffHunk) -> (r: bool)
    ensures
        r == exists|k: int| 0 <= k < h.lines@.len() && #[trigger] h.lines@[k].line_type != LineKind::Context,
{
    let mut k: usize = 0;
    while k < h.lines.len()
        invariant
            k <= h.lines@.len(),
            forall|j: int| 0 <= j < k ==> #[trigger] h.lines@[j].line_type == LineKind::Context,
        decreases h.lines@.len() - k,
    {
        if h.lines[k].line_type != LineKind::Context {
            return true;
        }
        k = k + 1;
    }
    false
}

/// `d` is the diff of `f`: same path, one hunk over both decoded texts.
pub open spec fn diff_of_file(d: FileDiff, f: FileContents) -> bool {
    &&& d.path@ == f.path@
    &&& d.hunks@.len() == 1
    &&& whole_file_hunk(d.hunks@[0], utf8_lossy(f.old@), utf8_lossy(f.new@))
}

/// The diffs of a revision's changed paths, in order, without those whose
/// texts are the same on both sides.
pub fn revision_diff(files: &Vec<FileContents>) -> (r: Vec<FileDiff>)
    ensures
        r@.len() == changed_positions(files@).len(),
        forall|j: int|
            0 <= j < r@.len() ==> diff_of_file(#[trigger] r@[j], files@[changed_positions(files@)[j]]),
{
    let mut r: Vec<FileDiff> = Vec::new();
    let mut i: usize = 0;
    while i < files.len()
        invariant
            i <= files@.len(),
            r@.len() == changed_positions(files@.take(i as int)).len(),
            forall|j: int|
                0 <= j < r@.len() ==> diff_of_file(#[trigger] r@[j], files@[changed_positions(files@.take(i as int))[j]]),
            forall|j: int| 0 <= j < changed_positions(files@.take(i as int)).len() ==> 0 <= #[trigger] changed_positions(files@.take(i as int))[j] < i,
        decreases files@.len() - i,
    {
        let f = &files[i];
        let path = crate::text::owned(f.path.as_str());
        let d = compute_file_diff(f.old.as_slice(), f.new.as_slice(), path);
        let changed = has_change(&d.hunks[0]);
        let ghost before = r@;
        let ghost prev = changed_positions(files@.take(i as int));
        proof {
            assert(files@.take(i + 1).drop_last() =~= files@.take(i as int));
            assert(files@.take(i + 1).last() == files@[i as int]);
            let es = entries(d.hunks@[0].lines@);
            if !changed {
                assert forall|k: int| 0 <= k < es.len() implies #[trigger] es[k].0 == LineKind::Context by {
                    assert(es[k].0 == d.hunks@[0].lines@[k].line_type);
                }
                lemma_context_only_same(es);
            }
            assert(changed == (utf8_lossy(files@[i as int].old@) != utf8_lossy(files@[i as int].new@)));
            if changed {
                assert(changed_positions(files@.take(i + 1)) == prev.push(i as int));
            } else {
                assert(changed_positions(files@.take(i + 1)) == prev);
            }
        }
        if changed {
            r.push(d);
        }
        proof {
            let now = changed_positions(files@.take(i + 1));
            assert forall|j: int| 0 <= j < r@.len() implies diff_of_file(#[trigger] r@[j], files@[now[j]]) by {
                if j < before.len() {
                    assert(now[j] == prev[j]);
                    assert(r@[j] == before[j]);
                }
            }
        }
        i = i + 1;
    }
    proof {
        assert(files@.take(i as int) =~= files@);
    }
    r
}

} // verus!
