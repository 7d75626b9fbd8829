//! Grid rows: the lines that draw a pattern, one character for each cell.

use crate::error::{ParseError, ParseErrorKind};
use crate::lex::Cell;
use crate::text::chars_of;
use vstd::prelude::*;

verus! {

/// The live cells of one grid row, from left to right. `row` is the line
/// without its tab and `y` the number of the row: column `x` holds a live
/// cell where `row[x]` is an asterisk, and any other character is a dead
/// cell.
pub open spec fn row_cells(row: Seq<char>, y: int) -> Seq<Cell>
    decreases row.len(),
{
    if row.len() == 0 {
        seq![]
    } else if row.last() == '*' {
        row_cells(row.drop_last(), y).push(Cell { x: (row.len() - 1) as i32, y: y as i32 })
    } else {
        row_cells(row.drop_last(), y)
    }
}

/// The cells of a row are its asterisks and nothing else: every cell lies
/// in row `y` at a column that holds an asterisk, the columns grow from one
/// cell to the next, so that no cell comes twice, and every asterisk has
/// its cell.
pub proof fn lemma_row_cells(row: Seq<char>, y: int)
    requires
        row.len() <= i32::MAX,
    ensures
        forall|k: int|
            0 <= k < row_cells(row, y).len() ==> {
                let cell = #[trigger] row_cells(row, y)[k];
                cell.y == y as i32 && 0 <= cell.x < row.len() && row[cell.x as int] == '*'
            },
        forall|j: int, k: int|
            0 <= j < k < row_cells(row, y).len() ==> row_cells(row, y)[j].x < row_cells(
                row,
                y,
            )[k].x,
        forall|x: int|
            0 <= x < row.len() && row[x] == '*' ==> row_cells(row, y).contains(
                Cell { x: x as i32, y: y as i32 },
            ),
    decreases row.len(),
{
    if row.len() > 0 {
        let front = row.drop_last();
        lemma_row_cells(front, y);
        let before = row_cells(front, y);
        let cells = row_cells(row, y);
        let last = row.len() - 1;
        assert forall|k: int| 0 <= k < cells.len() implies {
            let cell = #[trigger] cells[k];
            cell.y == y as i32 && 0 <= cell.x < row.len() && row[cell.x as int] == '*'
        } by {
            if k < before.len() {
                assert(cells[k] == before[k]);
                assert(front[before[k].x as int] == row[before[k].x as int]);
            }
        }
        assert forall|j: int, k: int| 0 <= j < k < cells.len() implies cells[j].x < cells[k].x by {
            assert(cells[j] == before[j]);
            if k < before.len() {
                assert(cells[k] == before[k]);
            }
        }
        assert forall|x: int| 0 <= x < row.len() && row[x] == '*' implies cells.contains(
            Cell { x: x as i32, y: y as i32 },
        ) by {
            if x < last {
                assert(front[x] == row[x]);
                let k = choose|k: int|
                    0 <= k < before.len() && before[k] == (Cell { x: x as i32, y: y as i32 });
                assert(cells[k] == before[k]);
            } else {
                assert(cells[cells.len() - 1] == (Cell { x: x as i32, y: y as i32 }));
            }
        }
    }
}

/// Whether `line` is a grid row: a tab and then the cells.
pub open spec fn is_grid_row(line: Seq<char>) -> bool {
    line.len() > 0 && line[0] == '\t'
}

/// The live cells of a grid row held as characters, the tab included.
pub fn cells_of_row(line: &Vec<char>, y: i32) -> (cells: Vec<Cell>)
    requires
        is_grid_row(line@),
        line.len() <= i32::MAX,
    ensures
        cells@ == row_cells(line@.skip(1), y as int),
{
    let ghost row = line@.skip(1);
    let mut cells: Vec<Cell> = Vec::new();
    let mut x: i32 = 0;
    let mut i: usize = 1;
    assert(row.take(0) == Seq::<char>::empty());
    while i < line.len()
        invariant
            1 <= i <= line.len() <= i32::MAX,
            x == i - 1,
            row == line@.skip(1),
            cells@ == row_cells(row.take(x as int), y as int),
        decreases line.len() - i,
    {
        proof {
            let next = row.take(x + 1);
            assert(next.drop_last() == row.take(x as int));
            assert(next.last() == line@[i as int]);
        }
        if line[i] == '*' {
            cells.push(Cell { x, y });
        }
        x += 1;
        i += 1;
    }
    assert(row.take(x as int) == row);
    cells
}

/// Reads one grid row: the cells that its asterisks mark, each with the row
/// number `y`. A line that does not begin with a tab is no grid row and is
/// refused.
pub fn read_cells_line(line: String, y: i32) -> (cells: Result<Vec<Cell>, ParseError>)
    requires
        line@.len() <= i32::MAX,
    ensures
        match cells {
            Ok(found) => is_grid_row(line@) && found@ == row_cells(line@.skip(1), y as int),
            Err(error) => !is_grid_row(line@) && error.kind == ParseErrorKind::MalformedRow,
        },
{
    let chars = chars_of(line.as_str());
    if chars.len() > 0 && chars[0] == '\t' {
        Ok(cells_of_row(&chars, y))
    } else {
        Err(ParseError { kind: ParseErrorKind::MalformedRow })
    }
}

} // verus!
