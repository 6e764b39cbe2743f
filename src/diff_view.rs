//! Text selection over the lines of a displayed diff.

use vstd::prelude::*;
use vstd::utf8::encode_utf8;

verus! {

#[derive(Clone, Copy, Debug, PartialEq, Eq, Structural)]
pub struct TextPosition {
    pub line: usize,
    pub column: usize,
}

/// The lines of a diff as shown, and the selection's two ends in the order
/// they were made.
#[derive(Clone, Debug)]
pub struct DiffView {
    pub lines: Vec<String>,
    pub selection_start: Option<TextPosition>,
    pub selection_end: Option<TextPosition>,
}

/// The length of a text in UTF-8 bytes, as `str::len` gives it.
pub open spec fn byte_len(s: Seq<char>) -> int {
    encode_utf8(s).len() as usize as int
}

pub open spec fn before_or_at(a: TextPosition, b: TextPosition) -> bool {
    a.line < b.line || (a.line == b.line && a.column <= b.column)
}

pub open spec fn min_nat(a: int, b: int) -> int {
    if a <= b {
        a
    } else {
        b
    }
}

/// The selected column range of line `idx`, whose length is `len`, for a
/// selection from `s` to `e` in either order.
pub open spec fn selection_on(s: TextPosition, e: TextPosition, idx: int, len: int) -> Option<(int, int)> {
    let (a, b) = if before_or_at(s, e) {
        (s, e)
    } else {
        (e, s)
    };
    if idx < a.line || idx > b.line {
        None
    } else {
        let from = if idx == a.line {
            min_nat(a.column as int, len)
        } else {
            0
        };
        let to = if idx == b.line {
            min_nat(b.column as int, len)
        } else {
            len
        };
        if from >= to {
            None
        } else {
            Some((from, to))
        }
    }
}

impl DiffView {
    /// The columns of line `line_idx` that the selection covers, if any;
    /// columns are byte offsets into the line's text.
    pub fn get_selection_for_line(&self, line_idx: usize) -> (r: Option<(usize, usize)>)
        ensures
            (self.selection_start is None || self.selection_end is None || line_idx >= self.lines@.len()) ==> r is None,
            (self.selection_start is Some && self.selection_end is Some && line_idx < self.lines@.len()) ==> {
                let sel = selection_on(
                    self.selection_start.unwrap(),
                    self.selection_end.unwrap(),
                    line_idx as int,
                    byte_len(self.lines@[line_idx as int]@),
                );
                &&& (r is Some <==> sel is Some)
                &&& r is Some ==> r.unwrap().0 as int == sel.unwrap().0 && r.unwrap().1 as int == sel.unwrap().1
            },
    {
        let s = match self.selection_start {
            Some(p) => p,
            None => {
                return None;
            },
        };
        let e = match self.selection_end {
            Some(p) => p,
            None => {
                return None;
            },
        };
        if line_idx >= self.lines.len() {
            return None;
        }
        let (a, b) = if s.line < e.line || (s.line == e.line && s.column <= e.column) {
            (s, e)
        } else {
            (e, s)
        };
        if line_idx < a.line || line_idx > b.line {
            return None;
        }
        let len = self.lines[line_idx].as_str().len();
        let from = if line_idx == a.line {
            if a.column < len {
                a.column
            } else {
                len
            }
        } else {
            0
        };
        let to = if line_idx == b.line {
            if b.column < len {
                b.column
            } else {
                len
            }
        } else {
            len
        };
        if from >= to {
            None
        } else {
            Some((from, to))
        }
    }
}

} // verus!
