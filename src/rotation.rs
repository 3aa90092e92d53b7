//! Quarter-turn rotations of grids.
use vstd::prelude::*;

use crate::grid::{Grid, GridError, height_of, rectangular, well_formed, width_of};

verus! {

/// The number of clockwise quarter turns that `degrees` stands for, taken
/// modulo a full turn with the remainder rounded toward zero, or `None` when
/// that remainder is not a multiple of 90.
pub open spec fn quarter_turns(degrees: i32) -> Option<int> {
    if degrees >= 0 {
        let rest = degrees % 360;
        if rest % 90 == 0 {
            Some(rest / 90)
        } else {
            None
        }
    } else if degrees % 360 == 0 {
        Some(0)
    } else {
        None
    }
}

/// `g` turned clockwise by `quarter` quarter turns (0 to 3). For a grid of
/// height `h` and width `w`, the cell `(i, j)` lands at `(j, h-1-i)` after
/// one turn, at `(h-1-i, w-1-j)` after two and at `(w-1-j, i)` after three.
pub open spec fn rotated(g: Seq<Seq<char>>, quarter: int) -> Seq<Seq<char>> {
    let h = height_of(g);
    let w = width_of(g);
    if quarter == 1 {
        Seq::new(w as nat, |a: int| Seq::new(h as nat, |b: int| g[h - 1 - b][a]))
    } else if quarter == 2 {
        Seq::new(h as nat, |a: int| Seq::new(w as nat, |b: int| g[h - 1 - a][w - 1 - b]))
    } else if quarter == 3 {
        Seq::new(w as nat, |a: int| Seq::new(h as nat, |b: int| g[b][w - 1 - a]))
    } else {
        g
    }
}

pub proof fn lemma_rotated_well_formed(g: Seq<Seq<char>>, quarter: int)
    requires
        well_formed(g),
        0 <= quarter < 4,
    ensures
        well_formed(rotated(g, quarter)),
        quarter % 2 == 0 ==> height_of(rotated(g, quarter)) == height_of(g) && width_of(
            rotated(g, quarter),
        ) == width_of(g),
        quarter % 2 == 1 ==> height_of(rotated(g, quarter)) == width_of(g) && width_of(
            rotated(g, quarter),
        ) == height_of(g),
{
    let r = rotated(g, quarter);
    assert(rectangular(r));
}

/// One more clockwise quarter turn adds one to the count of turns.
pub proof fn lemma_rotated_step(g: Seq<Seq<char>>, quarter: int)
    requires
        well_formed(g),
        0 <= quarter < 4,
    ensures
        rotated(rotated(g, quarter), 1) == rotated(g, (quarter + 1) % 4),
{
    lemma_rotated_well_formed(g, quarter);
    let h = height_of(g);
    let w = width_of(g);
    let lhs = rotated(rotated(g, quarter), 1);
    let rhs = rotated(g, (quarter + 1) % 4);
    if quarter == 3 {
        assert forall|a: int| 0 <= a < h implies #[trigger] lhs[a] =~= rhs[a] by {
            assert(g[a].len() == w);
        }
    }
    assert(lhs =~~= rhs);
}

/// Four clockwise quarter turns give back the grid, and so do two half
/// turns; a turn by zero degrees changes nothing.
pub proof fn lemma_full_turn(g: Seq<Seq<char>>)
    requires
        well_formed(g),
    ensures
        rotated(rotated(rotated(rotated(g, 1), 1), 1), 1) == g,
        rotated(rotated(g, 2), 2) == g,
        rotated(g, 0) == g,
{
    lemma_rotated_step(g, 1);
    lemma_rotated_step(g, 2);
    lemma_rotated_step(g, 3);
    assert(rotated(rotated(g, 0), 1) == rotated(g, 1));
    lemma_rotated_well_formed(g, 2);
    let h = height_of(g);
    let w = width_of(g);
    let twice = rotated(rotated(g, 2), 2);
    assert forall|a: int| 0 <= a < h implies #[trigger] twice[a] =~= g[a] by {
        assert(g[a].len() == w);
    }
    assert(twice =~~= g);
}

/// `grid` turned clockwise by `degrees`, which must be a multiple of 90
/// once taken modulo 360.
pub fn rotate(grid: &Grid, degrees: i32) -> (r: Result<Grid, GridError>)
    requires
        grid.wf(),
    ensures
        quarter_turns(degrees) is None <==> r == Err::<Grid, GridError>(GridError::Configuration),
        quarter_turns(degrees) matches Some(q) ==> r matches Ok(g) && g.wf() && g@ == rotated(
            grid@,
            q,
        ),
{
    let turns: isize;
    if degrees >= 0 {
        let rest = degrees % 360;
        if rest == 0 {
            turns = 0;
        } else if rest == 90 {
            turns = 1;
        } else if rest == 180 {
            turns = 2;
        } else if rest == 270 {
            turns = 3;
        } else {
            return Err(GridError::Configuration);
        }
    } else if (-(degrees as i64)) % 360 == 0 {
        turns = 0;
    } else {
        return Err(GridError::Configuration);
    }
    assert(quarter_turns(degrees) == Some(turns as int));
    Ok(rotate_quarters(grid, turns))
}

/// `grid` turned clockwise by `turns` quarter turns.
pub fn rotate_quarters(grid: &Grid, turns: isize) -> (r: Grid)
    requires
        grid.wf(),
        0 <= turns < 4,
    ensures
        r.wf(),
        r@ == rotated(grid@, turns as int),
{
    let h = grid.height();
    let w = grid.width();
    let (out_h, out_w) = if turns == 1 || turns == 3 {
        (w, h)
    } else {
        (h, w)
    };
    let ghost target = rotated(grid@, turns as int);
    proof {
        lemma_rotated_well_formed(grid@, turns as int);
    }
    let mut cells: Vec<Vec<char>> = Vec::new();
    let mut a: isize = 0;
    while a < out_h
        invariant
            grid.wf(),
            0 <= turns < 4,
            h == height_of(grid@),
            w == width_of(grid@),
            target == rotated(grid@, turns as int),
            well_formed(target),
            out_h == height_of(target),
            out_w == width_of(target),
            0 <= a <= out_h,
            cells@.len() == a,
            forall|k: int| 0 <= k < a ==> #[trigger] cells@[k]@ == target[k],
        decreases out_h - a,
    {
        let mut row: Vec<char> = Vec::new();
        let mut b: isize = 0;
        while b < out_w
            invariant
                grid.wf(),
                0 <= turns < 4,
                h == height_of(grid@),
                w == width_of(grid@),
                target == rotated(grid@, turns as int),
                well_formed(target),
                out_h == height_of(target),
                out_w == width_of(target),
                0 <= a < out_h,
                0 <= b <= out_w,
                row@ == target[a as int].take(b as int),
            decreases out_w - b,
        {
            let c = if turns == 1 {
                grid.cell(h - 1 - b, a)
            } else if turns == 2 {
                grid.cell(h - 1 - a, w - 1 - b)
            } else if turns == 3 {
                grid.cell(b, w - 1 - a)
            } else {
                grid.cell(a, b)
            };
            proof {
                assert(target[a as int].len() == out_w);
            }
            assert(c == target[a as int][b as int]);
            row.push(c);
            assert(row@ =~= target[a as int].take(b + 1));
            b = b + 1;
        }
        assert(row@ =~= target[a as int]);
        cells.push(row);
        a = a + 1;
    }
    let out = Grid::new(cells);
    assert(out@ =~= target);
    out
}

} // verus!
