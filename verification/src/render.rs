//! The board as text: digits in rows, with rules between the regions.

use crate::board::Board;
use crate::cell::Cell;
use crate::point::Point;
use vstd::prelude::*;
use vstd::string::StringExecFns;

verus! {

/// The character that stands for a cell: its digit, or a blank while it
/// is open.
pub open spec fn glyph(c: Cell) -> char {
    match c {
        Cell::Collapsed(v) => if v == 1 {
            '1'
        } else if v == 2 {
            '2'
        } else if v == 3 {
            '3'
        } else if v == 4 {
            '4'
        } else if v == 5 {
            '5'
        } else if v == 6 {
            '6'
        } else if v == 7 {
            '7'
        } else if v == 8 {
            '8'
        } else {
            '9'
        },
        Cell::Uncollapsed(_) => ' ',
    }
}

/// Row `y` as text: each cell and a blank after it, and a bar with a blank
/// after every third cell but the last.
pub open spec fn row_text(board: Board, y: usize) -> Seq<char> {
    Seq::new(
        22,
        |i: int|
            if i % 8 == 6 {
                '|'
            } else if i % 2 == 1 {
                ' '
            } else {
                glyph(board.at(Point { x: (3 * (i / 8) + (i % 8) / 2) as usize, y }))
            },
    )
}

/// The rule between two bands of regions: dashes, with a cross under each
/// bar.
pub open spec fn rule_text() -> Seq<char> {
    Seq::new(21, |i: int| if i == 6 || i == 14 { '+' } else { '-' })
}

/// The line of row `y`, followed by a rule after every third row but the
/// last.
pub open spec fn band_text(board: Board, y: usize) -> Seq<char> {
    if y % 3 == 2 && y != 8 {
        row_text(board, y).push('\n') + rule_text().push('\n')
    } else {
        row_text(board, y).push('\n')
    }
}

/// The first `n` rows as text.
pub open spec fn text_before(board: Board, n: nat) -> Seq<char>
    decreases n,
{
    if n == 0 {
        Seq::empty()
    } else {
        text_before(board, (n - 1) as nat) + band_text(board, (n - 1) as usize)
    }
}

/// The whole board as text.
pub open spec fn board_text(board: Board) -> Seq<char> {
    text_before(board, 9)
}

/// How many characters of a row the first `x` cells take.
pub open spec fn cells_width(x: int) -> int {
    2 * x + if x >= 6 {
        4int
    } else if x >= 3 {
        2int
    } else {
        0int
    }
}

/// Appends the character that stands for `cell`.
fn push_glyph(out: &mut String, cell: &Cell)
    requires
        cell.wf(),
    ensures
        final(out)@ == old(out)@.push(glyph(*cell)),
{
    let text: &str = match cell {
        Cell::Collapsed(1) => "1",
        Cell::Collapsed(2) => "2",
        Cell::Collapsed(3) => "3",
        Cell::Collapsed(4) => "4",
        Cell::Collapsed(5) => "5",
        Cell::Collapsed(6) => "6",
        Cell::Collapsed(7) => "7",
        Cell::Collapsed(8) => "8",
        Cell::Collapsed(_) => "9",
        Cell::Uncollapsed(_) => " ",
    };
    proof {
        reveal_strlit("1");
        reveal_strlit("2");
        reveal_strlit("3");
        reveal_strlit("4");
        reveal_strlit("5");
        reveal_strlit("6");
        reveal_strlit("7");
        reveal_strlit("8");
        reveal_strlit("9");
        reveal_strlit(" ");
        assert(text@ =~= seq![glyph(*cell)]);
    }
    out.append(text);
    proof {
        assert(out@ =~= old(out)@.push(glyph(*cell)));
    }
}

/// The board as text, row by row.
pub fn render(board: &Board) -> (text: String)
    requires
        board.wf(),
    ensures
        text@ == board_text(*board),
{
    let mut out = String::new();
    for y in 0..9usize
        invariant
            board.wf(),
            out@ == text_before(*board, y as nat),
    {
        let ghost done = out@;
        for x in 0..9usize
            invariant
                y < 9,
                board.wf(),
                out@ == done + row_text(*board, y).subrange(0, cells_width(x as int)),
        {
            let here = Point::new(x, y);
            let ghost row = out@;
            proof {
                assert(board.at(here).wf());
            }
            push_glyph(&mut out, board.get(&here));
            out.append(" ");
            if x % 3 == 2 && x != 8 {
                out.append("| ");
            }
            proof {
                reveal_strlit(" ");
                reveal_strlit("| ");
                let w = cells_width(x as int);
                let line = row_text(*board, y);
                assert(line[w] == glyph(board.at(here)));
                assert(out@ =~= done + line.subrange(0, cells_width(x + 1)));
            }
        }
        out.append("\n");
        if y % 3 == 2 && y != 8 {
            let ghost lines = out@;
            for i in 0..21usize
                invariant
                    out@ == lines + rule_text().subrange(0, i as int),
            {
                if i == 6 || i == 14 {
                    out.append("+");
                } else {
                    out.append("-");
                }
                proof {
                    reveal_strlit("+");
                    reveal_strlit("-");
                    assert(out@ =~= lines + rule_text().subrange(0, i + 1));
                }
            }
            out.append("\n");
        }
        proof {
            reveal_strlit("\n");
            assert(row_text(*board, y).subrange(0, 22) =~= row_text(*board, y));
            assert(rule_text().subrange(0, 21) =~= rule_text());
            assert(out@ =~= done + band_text(*board, y));
        }
    }
    out
}

} // verus!
