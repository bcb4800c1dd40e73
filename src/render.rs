//! The text form of a board: one line per row, each cell a glyph followed by
//! two spaces.

use vstd::prelude::*;
use crate::board::Board;

verus! {

/// The text of one cell: a filled square for a live cell, a dot for a dead
/// one, each followed by two spaces.
pub open spec fn cell_text(alive: bool) -> Seq<char> {
    if alive {
        seq!['\u{25a3}', ' ', ' ']
    } else {
        seq!['.', ' ', ' ']
    }
}

/// The text of a row: its cells' texts, left to right.
pub open spec fn row_text(row: Seq<bool>) -> Seq<char>
    decreases row.len(),
{
    if row.len() == 0 {
        Seq::empty()
    } else {
        row_text(row.drop_last()) + cell_text(row.last())
    }
}

/// The text of a board: each row's text followed by a line break, top to
/// bottom.
pub open spec fn board_text(g: Seq<Seq<bool>>) -> Seq<char>
    decreases g.len(),
{
    if g.len() == 0 {
        Seq::empty()
    } else {
        board_text(g.drop_last()) + row_text(g.last()) + seq!['\n']
    }
}

/// Relies on String::push: appends one character.
#[verifier::external_body]
fn push_char(s: &mut String, c: char)
    ensures
        final(s)@ == old(s)@.push(c),
{
    s.push(c);
}

/// Appends the text of one cell.
fn push_cell(s: &mut String, alive: bool)
    ensures
        final(s)@ == old(s)@ + cell_text(alive),
{
    push_char(s, if alive { '\u{25a3}' } else { '.' });
    push_char(s, ' ');
    push_char(s, ' ');
    assert(s@ =~= old(s)@ + cell_text(alive));
}

impl Board {
    /// The board as text, one line per row; reading it changes nothing.
    pub fn render(&self) -> (r: String)
        requires
            self.wf(),
        ensures
            r@ == board_text(self@),
    {
        let n = self.side();
        let ghost g = self@;
        let mut s = String::new();
        let mut i: usize = 0;
        while i < n
            invariant
                self.wf(),
                g == self@,
                n == g.len(),
                i <= n,
                s@ == board_text(g.subrange(0, i as int)),
            decreases n - i,
        {
            let ghost before = s@;
            let mut j: usize = 0;
            while j < n
                invariant
                    self.wf(),
                    g == self@,
                    n == g.len(),
                    i < n,
                    j <= n,
                    s@ == before + row_text(g[i as int].subrange(0, j as int)),
                decreases n - j,
            {
                let alive = self.get(i, j);
                push_cell(&mut s, alive);
                proof {
                    let row = g[i as int].subrange(0, j + 1);
                    assert(row.drop_last() =~= g[i as int].subrange(0, j as int));
                }
                j = j + 1;
            }
            push_char(&mut s, '\n');
            proof {
                let rows = g.subrange(0, i + 1);
                assert(rows.drop_last() =~= g.subrange(0, i as int));
                assert(g[i as int].subrange(0, n as int) =~= g[i as int]);
            }
            i = i + 1;
        }
        assert(g.subrange(0, n as int) =~= g);
        s
    }
}

} // verus!
