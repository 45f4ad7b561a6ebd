//! Neighbour topology: for each cell, where each configured offset lands.
use vstd::prelude::*;

verus! {

/// Index of cell `(x, y)` in a row-major grid of the given width.
pub open spec fn cell_index(width: int, x: int, y: int) -> int {
    y * width + x
}

/// The cell that offset `off = (dx, dy)` reaches from `(x, y)`, or `None`
/// when `(x + dx, y + dy)` lies outside `[0, width) x [0, height)`.
pub open spec fn neighbour_target(width: int, height: int, x: int, y: int, off: (i8, i8)) -> Option<
    usize,
> {
    let nx = x + off.0;
    let ny = y + off.1;
    if 0 <= nx < width && 0 <= ny < height {
        Some(cell_index(width, nx, ny) as usize)
    } else {
        None
    }
}

/// The neighbour list of cell `(x, y)`: one entry per offset, in the order
/// of the offsets.
pub open spec fn neighbour_spec(
    width: int,
    height: int,
    x: int,
    y: int,
    offsets: Seq<(i8, i8)>,
) -> Seq<Option<usize>> {
    offsets.map_values(|off: (i8, i8)| neighbour_target(width, height, x, y, off))
}

/// Every neighbour that a list names lies in the grid.
pub proof fn lemma_neighbours_in_grid(width: int, height: int, x: int, y: int, offsets: Seq<(i8, i8)>)
    requires
        0 <= x < width,
        0 <= y < height,
        width * height <= usize::MAX,
    ensures
        forall|j: int|
            0 <= j < offsets.len() && #[trigger] neighbour_spec(width, height, x, y, offsets)[j] is Some
                ==> neighbour_spec(width, height, x, y, offsets)[j]->0 < width * height,
{
    assert forall|j: int|
        0 <= j < offsets.len() && #[trigger] neighbour_spec(width, height, x, y, offsets)[j] is Some
            implies neighbour_spec(width, height, x, y, offsets)[j]->0 < width * height by {
        let nx = x + offsets[j].0;
        let ny = y + offsets[j].1;
        assert(0 <= ny * width + nx < width * height) by (nonlinear_arith)
            requires
                0 <= ny < height,
                0 <= nx < width,
        ;
    }
}

/// `x + d` when it lies in `[0, bound)`.
fn shift(x: usize, d: i8, bound: usize) -> (r: Option<usize>)
    requires
        x < bound,
    ensures
        r is Some <==> 0 <= x + d < bound,
        r is Some ==> r->0 == x + d,
{
    if d < 0 {
        let back: usize = (-(d as i16)) as usize;
        if back <= x {
            Some(x - back)
        } else {
            None
        }
    } else {
        let forward: usize = d as usize;
        if forward < bound - x {
            Some(x + forward)
        } else {
            None
        }
    }
}

/// The neighbour list of cell `(x, y)` of a `width` x `height` grid: for
/// each offset, in order, the index of the cell it reaches, or `None` where
/// it leaves the grid.
pub fn neighbour_list(width: usize, height: usize, x: usize, y: usize, offsets: &Vec<(i8, i8)>) -> (r:
    Vec<Option<usize>>)
    requires
        x < width,
        y < height,
        width * height <= usize::MAX,
    ensures
        r@ == neighbour_spec(width as int, height as int, x as int, y as int, offsets@),
        r.len() == offsets.len(),
        forall|j: int|
            0 <= j < offsets.len() ==> (#[trigger] r[j] is None <==> !(0 <= x + offsets[j].0 < width
                && 0 <= y + offsets[j].1 < height)),
        forall|j: int|
            0 <= j < offsets.len() && #[trigger] r[j] is Some ==> r[j]->0 < width * height,
{
    let mut r: Vec<Option<usize>> = Vec::with_capacity(offsets.len());
    let mut j: usize = 0;
    while j < offsets.len()
        invariant
            j <= offsets.len(),
            x < width,
            y < height,
            width * height <= usize::MAX,
            r@ == neighbour_spec(width as int, height as int, x as int, y as int, offsets@.take(
                j as int,
            )),
        decreases offsets.len() - j,
    {
        let off = offsets[j];
        let target = match (shift(x, off.0, width), shift(y, off.1, height)) {
            (Some(nx), Some(ny)) => {
                proof {
                    assert(ny * width + nx < width * height) by (nonlinear_arith)
                        requires
                            ny < height,
                            nx < width,
                    ;
                }
                Some(ny * width + nx)
            },
            _ => None,
        };
        r.push(target);
        proof {
            assert(offsets@.take(j + 1) == offsets@.take(j as int).push(off));
        }
        j += 1;
    }
    proof {
        assert(offsets@.take(offsets.len() as int) == offsets@);
        assert forall|j: int| 0 <= j < offsets.len() && #[trigger] r[j] is Some implies r[j]->0
            < width * height by {
            let nx = x + offsets[j].0;
            let ny = y + offsets[j].1;
            assert(ny * width + nx < width * height) by (nonlinear_arith)
                requires
                    0 <= ny < height,
                    0 <= nx < width,
            ;
        }
    }
    r
}

} // verus!
