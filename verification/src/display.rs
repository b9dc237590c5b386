//! The grid as text, and the colours of the fields.

use crate::matrix::Matrix;
use std::collections::HashMap;
use vstd::prelude::*;
use vstd::string::StringExecFns;

verus! {

broadcast use vstd::std_specs::hash::group_hash_axioms;

/// A grid with more cells than this is not written out as text.
pub const DISPLAY_LIMIT: usize = 10_000;

/// The character of the decimal digit `d`.
pub open spec fn digit(d: int) -> char {
    if d == 0 {
        '0'
    } else if d == 1 {
        '1'
    } else if d == 2 {
        '2'
    } else if d == 3 {
        '3'
    } else if d == 4 {
        '4'
    } else if d == 5 {
        '5'
    } else if d == 6 {
        '6'
    } else if d == 7 {
        '7'
    } else if d == 8 {
        '8'
    } else {
        '9'
    }
}

/// The decimal digits of `n`, without leading zeros.
pub open spec fn decimal(n: nat) -> Seq<char>
    decreases n,
{
    if n < 10 {
        seq![digit(n as int)]
    } else {
        decimal(n / 10).push(digit((n % 10) as int))
    }
}

/// The text of one cell: its value in decimal, with a minus sign if it is
/// negative, followed by a space.
pub open spec fn cell_text(value: i8) -> Seq<char> {
    if value < 0 {
        seq!['-'] + decimal((-value) as nat) + seq![' ']
    } else {
        decimal(value as nat) + seq![' ']
    }
}

/// The texts of the cells of a row, one after the other.
pub open spec fn row_text(row: Seq<i8>) -> Seq<char>
    decreases row.len(),
{
    if row.len() == 0 {
        Seq::empty()
    } else {
        row_text(row.drop_last()) + cell_text(row.last())
    }
}

/// The text of a grid: each row's text, ended by a line feed.
pub open spec fn grid_text(grid: Seq<Seq<i8>>) -> Seq<char>
    decreases grid.len(),
{
    if grid.len() == 0 {
        Seq::empty()
    } else {
        grid_text(grid.drop_last()) + row_text(grid.last()) + seq!['\n']
    }
}

/// The digit `d` as text.
fn digit_str(d: u8) -> (s: &'static str)
    requires
        d < 10,
    ensures
        s@ == seq![digit(d as int)],
{
    proof {
        reveal_strlit("0");
        reveal_strlit("1");
        reveal_strlit("2");
        reveal_strlit("3");
        reveal_strlit("4");
        reveal_strlit("5");
        reveal_strlit("6");
        reveal_strlit("7");
        reveal_strlit("8");
        reveal_strlit("9");
    }
    let s = if d == 0 {
        "0"
    } else if d == 1 {
        "1"
    } else if d == 2 {
        "2"
    } else if d == 3 {
        "3"
    } else if d == 4 {
        "4"
    } else if d == 5 {
        "5"
    } else if d == 6 {
        "6"
    } else if d == 7 {
        "7"
    } else if d == 8 {
        "8"
    } else {
        "9"
    };
    assert(s@ =~= seq![digit(d as int)]);
    s
}

/// Appends the text of one cell to `out`.
fn append_cell(out: &mut String, value: i8)
    ensures
        final(out)@ == old(out)@ + cell_text(value),
{
    proof {
        reveal_strlit("-");
        reveal_strlit(" ");
        reveal_with_fuel(decimal, 3);
    }
    let magnitude: u8 = if value < 0 {
        out.append("-");
        (-(value as i16)) as u8
    } else {
        value as u8
    };
    if magnitude >= 100 {
        out.append(digit_str(magnitude / 100));
    }
    if magnitude >= 10 {
        out.append(digit_str((magnitude / 10) % 10));
    }
    out.append(digit_str(magnitude % 10));
    out.append(" ");
    assert(out@ =~= old(out)@ + cell_text(value));
}

/// The number of colours that fields are painted with in turn.
pub const PALETTE_SIZE: usize = 12;

/// The colour of each field as a position in the palette: the fields take
/// the colours in turn, in the order given, starting over after the last
/// colour; a field given more than once keeps the colour of its last place.
pub open spec fn palette_of(fields: Seq<i8>) -> Map<i8, usize>
    decreases fields.len(),
{
    if fields.len() == 0 {
        Map::empty()
    } else {
        palette_of(fields.drop_last()).insert(
            fields.last(),
            ((fields.len() - 1) % (PALETTE_SIZE as int)) as usize,
        )
    }
}

/// The colour of each of `fields`, as a position in a palette of
/// `PALETTE_SIZE` colours.
pub fn palette_slots(fields: &Vec<i8>) -> (slots: HashMap<i8, usize>)
    ensures
        slots@ == palette_of(fields@),
{
    let mut slots: HashMap<i8, usize> = HashMap::new();
    let mut i: usize = 0;
    while i < fields.len()
        invariant
            i <= fields@.len(),
            slots@ == palette_of(fields@.take(i as int)),
        decreases fields@.len() - i,
    {
        proof {
            assert(fields@.take(i + 1).drop_last() =~= fields@.take(i as int));
        }
        slots.insert(fields[i], i % PALETTE_SIZE);
        i += 1;
    }
    assert(fields@.take(fields@.len() as int) =~= fields@);
    slots
}

impl Matrix {
    /// The grid as text: every row on a line of its own, every cell in
    /// decimal followed by a space; or, for a grid of more than
    /// `DISPLAY_LIMIT` cells, a sentence that says so.
    pub open spec fn text(&self) -> Seq<char> {
        if self.cols * self.rows > DISPLAY_LIMIT {
            "Matrix is too large to display."@
        } else {
            grid_text(self@)
        }
    }

    /// Whether the grid has more than `DISPLAY_LIMIT` cells.
    pub fn too_large_to_display(&self) -> (too_large: bool)
        ensures
            too_large == (self.cols * self.rows > DISPLAY_LIMIT),
    {
        match self.cols.checked_mul(self.rows) {
            Some(cells) => cells > DISPLAY_LIMIT,
            None => true,
        }
    }

    /// The grid as text.
    pub fn to_text(&self) -> (out: String)
        requires
            self.well_formed(),
        ensures
            out@ == self.text(),
    {
        if self.too_large_to_display() {
            return "Matrix is too large to display.".to_string();
        }
        let mut out = String::new();
        let mut y: usize = 0;
        while y < self.rows
            invariant
                self.well_formed(),
                y <= self.rows,
                out@ == grid_text(self@.take(y as int)),
            decreases self.rows - y,
        {
            let ghost before = out@;
            let mut x: usize = 0;
            while x < self.cols
                invariant
                    self.well_formed(),
                    y < self.rows,
                    x <= self.cols,
                    out@ == before + row_text(self@[y as int].take(x as int)),
                decreases self.cols - x,
            {
                proof {
                    let row = self@[y as int];
                    assert(row.take(x + 1).drop_last() =~= row.take(x as int));
                }
                append_cell(&mut out, self.data[y][x]);
                x += 1;
                assert(out@ =~= before + row_text(self@[y as int].take(x as int)));
            }
            out.append("\n");
            proof {
                reveal_strlit("\n");
                let row = self@[y as int];
                assert(row == self.data@[y as int]@);
                assert(row.take(self.cols as int) =~= row);
                assert(self@.take(y + 1).drop_last() =~= self@.take(y as int));
                assert(self@.take(y + 1).last() == row);
                assert(out@ == before + row_text(row) + seq!['\n']);
            }
            y += 1;
        }
        assert(self@.take(self.rows as int) =~= self@);
        out
    }
}

} // verus!
