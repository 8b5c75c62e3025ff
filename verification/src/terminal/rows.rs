//! How a row of cells is shown, told cell by cell.

use vstd::prelude::*;

use super::grid::Cell;

verus! {

/// A run that reads from right to left is shown from its last cell to its
/// first, each with its style and as its mirror image where it has one.
pub proof fn runs_are_shown_backwards(cells: Seq<Cell>, i: int)
    requires
        0 <= i < cells.len(),
    ensures
        super::grid::backwards(cells).len() == cells.len(),
        ({
            let shown = super::grid::backwards(cells)[cells.len() - 1 - i];
            &&& shown.1 == cells[i].1
            &&& super::grid::mirror(cells[i].0) matches Some(m) ==> shown.0 == m
            &&& super::grid::mirror(cells[i].0) is None ==> shown.0 == cells[i].0
        }),
{
}

/// The second half of a wide character is not shown, and every other cell is,
/// in order.
pub proof fn second_halves_are_not_shown(cells: Seq<Cell>, cell: Cell)
    ensures
        cell.0 == '\0' ==> super::grid::whole_cells(cells.push(cell)) == super::grid::whole_cells(
            cells,
        ),
        cell.0 != '\0' ==> super::grid::whole_cells(cells.push(cell)) == super::grid::whole_cells(
            cells,
        ).push(cell),
{
    assert(cells.push(cell).drop_last() =~= cells);
}

/// Plain blanks at the end of a row are left out of styled text; a blank with
/// a style of its own stays, as does every other character.
pub proof fn plain_blanks_are_left_out(cells: Seq<Cell>, cell: Cell)
    ensures
        super::grid::without_blanks(cells.push((' ', 0u16))) == super::grid::without_blanks(cells),
        cell.1 != 0 || (cell.0 != ' ' && cell.0 != '\0') ==> super::grid::without_blanks(
            cells.push(cell),
        ) == cells.push(cell),
        crate::text::is_white(cell.0) ==> super::grid::without_white(cells.push(cell))
            == super::grid::without_white(cells),
        !crate::text::is_white(cell.0) ==> super::grid::without_white(cells.push(cell))
            == cells.push(cell),
{
    assert(cells.push((' ', 0u16)).drop_last() =~= cells);
    assert(cells.push(cell).drop_last() =~= cells);
}

/// Only rows with characters of a script that reads from right to left are
/// put into another order.
pub proof fn other_rows_stay_in_order(cells: Seq<Cell>)
    requires
        forall|i: int| 0 <= i < cells.len() ==> '\u{590}' > (#[trigger] cells[i]).0,
    ensures
        super::grid::displayed(cells) == cells,
{
}

} // verus!
