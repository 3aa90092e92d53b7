//! The pieces each player starts with.
use vstd::prelude::*;

use crate::grid::{rows_view, Grid};

verus! {

/// A vertical line of three, a horizontal line of three and a corner of
/// five with arms of three.
pub fn get_pieces() -> (r: Vec<Grid>)
    ensures
        r.len() == 3,
        forall|k: int| 0 <= k < r.len() ==> (#[trigger] r@[k]).wf(),
        r@[0]@ == seq![seq!['x'], seq!['x'], seq!['x']],
        r@[1]@ == seq![seq!['x', 'x', 'x']],
        r@[2]@ == seq![seq!['x', 'x', 'x'], seq!['x', '.', '.'], seq!['x', '.', '.']],
{
    let mut pieces: Vec<Grid> = Vec::new();
    let vertical = vec![vec!['x'], vec!['x'], vec!['x']];
    assert(rows_view(vertical@) =~~= seq![seq!['x'], seq!['x'], seq!['x']]);
    pieces.push(Grid::new(vertical));
    let horizontal = vec![vec!['x', 'x', 'x']];
    assert(rows_view(horizontal@) =~~= seq![seq!['x', 'x', 'x']]);
    pieces.push(Grid::new(horizontal));
    let corner = vec![vec!['x', 'x', 'x'], vec!['x', '.', '.'], vec!['x', '.', '.']];
    assert(rows_view(corner@) =~~= seq![
        seq!['x', 'x', 'x'],
        seq!['x', '.', '.'],
        seq!['x', '.', '.'],
    ]);
    pieces.push(Grid::new(corner));
    pieces
}

} // verus!
