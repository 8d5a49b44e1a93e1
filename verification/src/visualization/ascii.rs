use vstd::prelude::*;
use vstd::string::StringExecFns;

verus! {

/// `String::push`: claimed to append the one char.
#[verifier::external_body]
fn push_char(s: &mut String, c: char)
    ensures
        final(s)@ == old(s)@.push(c),
{
    s.push(c);
}

/// `k` copies of `c`.
pub open spec fn repeat_char(c: char, k: nat) -> Seq<char> {
    Seq::new(k, |i: int| c)
}

/// The cell shown at column `col` of row `row`: the node's char, or a blank
/// past the last node.
pub open spec fn cell_at(cells: Seq<char>, width: nat, row: nat, col: int) -> char {
    let idx = row * width + col;
    if idx < cells.len() {
        cells[idx]
    } else {
        ' '
    }
}

/// One framed row of the grid.
pub open spec fn grid_row(cells: Seq<char>, width: nat, row: nat) -> Seq<char> {
    seq!['│'] + Seq::new(width, |col: int| cell_at(cells, width, row, col)) + seq!['│', '\n']
}

/// The first `rows` rows.
pub open spec fn grid_rows(cells: Seq<char>, width: nat, rows: nat) -> Seq<char>
    decreases rows,
{
    if rows == 0 {
        Seq::empty()
    } else {
        grid_rows(cells, width, (rows - 1) as nat) + grid_row(cells, width, (rows - 1) as nat)
    }
}

/// The number of rows that `n` cells fill at `width` per row.
pub open spec fn grid_height(n: nat, width: nat) -> nat {
    ((n + width - 1) / (width as int)) as nat
}

/// The whole picture: a top border followed by `tail` (the caption, which
/// closes the corner), the rows, and a bottom border.
pub open spec fn grid_text(cells: Seq<char>, width: nat, tail: Seq<char>) -> Seq<char> {
    seq!['┌'] + repeat_char('─', width) + tail + grid_rows(cells, width, grid_height(cells.len(), width))
        + seq!['└'] + repeat_char('─', width) + seq!['┘', '\n']
}

/// Appends `k` copies of `c`.
fn push_repeat(out: &mut String, c: char, k: usize)
    ensures
        final(out)@ == old(out)@ + repeat_char(c, k as nat),
{
    let mut i: usize = 0;
    while i < k
        invariant
            0 <= i <= k,
            out@ == old(out)@ + repeat_char(c, i as nat),
        decreases k - i,
    {
        push_char(out, c);
        proof {
            assert(repeat_char(c, (i + 1) as nat) =~= repeat_char(c, i as nat).push(c));
        }
        i += 1;
    }
}

/// Draws `cells` as a framed grid `width` cells wide, row by row; the last
/// row is padded with blanks.
pub fn render_grid(cells: &[char], width: usize, tail: &str) -> (out: String)
    requires
        width > 0,
        cells@.len() + width <= usize::MAX,
    ensures
        out@ == grid_text(cells@, width as nat, tail@),
{
    let n = cells.len();
    let height = (n + width - 1) / width;
    let mut out = String::new();
    push_char(&mut out, '┌');
    push_repeat(&mut out, '─', width);
    out.append(tail);
    let ghost head = out@;
    proof {
        assert(height * width <= n + width - 1) by (nonlinear_arith)
            requires height == (n + width - 1) / (width as int), width > 0, n + width - 1 >= 0;
    }
    let mut row: usize = 0;
    while row < height
        invariant
            0 <= row <= height,
            width > 0,
            n == cells@.len(),
            height == grid_height(n as nat, width as nat),
            height * width <= n + width - 1,
            n + width - 1 <= usize::MAX,
            out@ == head + grid_rows(cells@, width as nat, row as nat),
        decreases height - row,
    {
        let ghost before = out@;
        push_char(&mut out, '│');
        let mut col: usize = 0;
        while col < width
            invariant
                0 <= row < height,
                0 <= col <= width,
                width > 0,
                n == cells@.len(),
                height * width <= n + width - 1,
                n + width - 1 <= usize::MAX,
                out@ == before + seq!['│'] + Seq::new(col as nat, |c: int| cell_at(cells@, width as nat, row as nat, c)),
            decreases width - col,
        {
            proof {
                assert(row * width + col < height * width) by (nonlinear_arith)
                    requires row < height, col < width;
            }
            let idx = row * width + col;
            push_char(&mut out, if idx < n { cells[idx] } else { ' ' });
            proof {
                assert(Seq::new((col + 1) as nat, |c: int| cell_at(cells@, width as nat, row as nat, c))
                    =~= Seq::new(col as nat, |c: int| cell_at(cells@, width as nat, row as nat, c)).push(
                    cell_at(cells@, width as nat, row as nat, col as int)));
            }
            col += 1;
        }
        push_char(&mut out, '│');
        push_char(&mut out, '\n');
        proof {
            assert(out@ =~= head + grid_rows(cells@, width as nat, (row + 1) as nat));
        }
        row += 1;
    }
    push_char(&mut out, '└');
    push_repeat(&mut out, '─', width);
    push_char(&mut out, '┘');
    push_char(&mut out, '\n');
    proof {
        assert(out@ =~= grid_text(cells@, width as nat, tail@));
    }
    out
}

} // verus!
