//! The style classes by which a page shows a cell.

use vstd::prelude::*;
use vstd::string::StringExecFns;
use crate::direction::Direction;
use crate::passages::Passages;

verus! {

/// `text` where `wanted` holds, and nothing otherwise.
pub open spec fn text_if(wanted: bool, text: Seq<char>) -> Seq<char> {
    if wanted {
        text
    } else {
        Seq::empty()
    }
}

/// The style classes of a cell with the open passages `cell`.
///
/// A cell without any open passage is `maze-cell no`. Any other cell is
/// `maze-cell`, a blank, and one letter for each open side, in the order
/// `l`, `r`, `u`, `d`; the first cell of the grid counts as open to the
/// left and the last as open to the right. Then follow ` start` for the
/// first cell, ` end` for the last, and ` solution` for a cell of the
/// solution or else ` visited` for a visited cell.
pub open spec fn class_name(
    cell: Passages,
    is_first: bool,
    is_last: bool,
    is_solution: bool,
    is_visit: bool,
) -> Seq<char> {
    if cell.count() == 0 {
        "maze-cell no"@
    } else {
        "maze-cell "@ + text_if(cell.left || is_first, "l"@) + text_if(
            cell.right || is_last,
            "r"@,
        ) + text_if(cell.up, "u"@) + text_if(cell.down, "d"@) + text_if(is_first, " start"@)
            + text_if(is_last, " end"@) + text_if(is_solution, " solution"@) + text_if(
            !is_solution && is_visit,
            " visited"@,
        )
    }
}

/// Adds `text` to `name` where `wanted` holds.
fn append_if(name: &mut String, wanted: bool, text: &str)
    ensures
        final(name)@ == old(name)@ + text_if(wanted, text@),
{
    if wanted {
        name.append(text);
    }
    assert(name@ =~= old(name)@ + text_if(wanted, text@));
}

/// The style classes of the cell at `row` and `col` of `grid`: which of its
/// sides are open, whether it is the first or the last cell of the grid, and
/// whether it lies on the solution or was visited by the search.
pub fn get_class_name(
    grid: &Vec<Vec<Passages>>,
    row: usize,
    col: usize,
    is_solution: bool,
    is_visit: bool,
) -> (name: String)
    requires
        row < grid@.len(),
        col < grid@[row as int]@.len(),
        grid@[0]@.len() >= 1,
    ensures
        name@ == class_name(
            grid@[row as int]@[col as int],
            row == 0 && col == 0,
            row == grid@.len() - 1 && col == grid@[0]@.len() - 1,
            is_solution,
            is_visit,
        ),
{
    let cell = &grid[row][col];

    let last_row = grid.len() - 1;
    let last_col = grid[0].len() - 1;
    let is_first = row == 0 && col == 0;
    let is_last = row == last_row && col == last_col;

    if cell.len() == 0 {
        return "maze-cell no".to_owned();
    }
    let mut directions = "maze-cell ".to_owned();

    append_if(&mut directions, cell.contains(&Direction::Left) || is_first, "l");
    append_if(&mut directions, cell.contains(&Direction::Right) || is_last, "r");
    append_if(&mut directions, cell.contains(&Direction::Up), "u");
    append_if(&mut directions, cell.contains(&Direction::Down), "d");
    append_if(&mut directions, is_first, " start");
    append_if(&mut directions, is_last, " end");
    append_if(&mut directions, is_solution, " solution");
    append_if(&mut directions, !is_solution && is_visit, " visited");

    directions
}

} // verus!
