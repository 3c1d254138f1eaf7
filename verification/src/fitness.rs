use crate::grid::{lemma_alignment_count, lemma_alignment_range};
use crate::version_db::{alignment, alignment_center, alignment_count};
use vstd::prelude::*;

verus! {

/// A cell of a grid that a fitness score looks at: its column, its row,
/// and 1 where the cell should be dark or -1 where it should be light.
pub type ScoredCell = (i32, i32, i32);

/// The cell at `(x, y)` with the sign `sign`.
pub open spec fn scored(x: int, y: int, sign: int) -> ScoredCell {
    (x as i32, y as i32, sign as i32)
}

/// The cells of the first `n` steps round the ring of the radius `r`
/// about `(cx, cy)`: each step takes a cell of the top side, of the left,
/// of the right and of the bottom.
pub open spec fn ring_steps(cx: int, cy: int, r: int, sign: int, n: int) -> Seq<ScoredCell>
    decreases n,
{
    if n <= 0 {
        Seq::empty()
    } else {
        let i = n - 1;
        ring_steps(cx, cy, r, sign, i) + seq![
            scored(cx - r + i, cy - r, sign),
            scored(cx - r, cy + r - i, sign),
            scored(cx + r, cy - r + i, sign),
            scored(cx + r - i, cy + r, sign),
        ]
    }
}

/// The cells of the ring of the radius `r` about `(cx, cy)`.
pub open spec fn ring_cells(cx: int, cy: int, r: int, sign: int) -> Seq<ScoredCell> {
    ring_steps(cx, cy, r, sign, 2 * r)
}

/// The cells of an alignment pattern about `(cx, cy)`: the centre dark,
/// the ring about it light, the next ring dark.
pub open spec fn apat_cells(cx: int, cy: int) -> Seq<ScoredCell> {
    seq![scored(cx, cy, 1)] + ring_cells(cx, cy, 1, -1) + ring_cells(cx, cy, 2, 1)
}

/// The cells of the capstone whose corner cell is `(x, y)`: the centre
/// positive, the ring of 3 by 3 cells negative, the ring of 5 by 5 cells
/// positive, the border of 7 by 7 cells negative.
pub open spec fn capstone_cells(x: int, y: int) -> Seq<ScoredCell> {
    seq![scored(x + 3, y + 3, 1)] + ring_cells(x + 3, y + 3, 1, -1) + ring_cells(x + 3, y + 3, 2, 1)
        + ring_cells(x + 3, y + 3, 3, -1)
}

/// The sign of the `i`-th cell of a timing pattern, counted from the cell
/// beside the capstone: light, dark, and so in turn.
pub open spec fn timing_sign(i: int) -> int {
    if i % 2 == 1 {
        1
    } else {
        -1
    }
}

/// The first `n` cells of each of the two timing patterns, a cell of the
/// row and a cell of the column by turns.
pub open spec fn timing_cells(n: int) -> Seq<ScoredCell>
    decreases n,
{
    if n <= 0 {
        Seq::empty()
    } else {
        let i = n - 1;
        timing_cells(i) + seq![scored(i + 7, 6, timing_sign(i)), scored(6, i + 7, timing_sign(i))]
    }
}

/// The cells of the alignment patterns on the two timing patterns: for
/// the centres from the second to the one before `k`, the pattern on the
/// column and the pattern on the row.
pub open spec fn edge_cells(version: int, k: int) -> Seq<ScoredCell>
    decreases k,
{
    if k <= 1 {
        Seq::empty()
    } else {
        let a = alignment(version, k - 1);
        edge_cells(version, k - 1) + apat_cells(6, a) + apat_cells(a, 6)
    }
}

/// The cells of the alignment patterns in the column of the centre `i`:
/// those in the rows of the centres from the second to the one before
/// `k`.
pub open spec fn column_cells(version: int, i: int, k: int) -> Seq<ScoredCell>
    decreases k,
{
    if k <= 1 {
        Seq::empty()
    } else {
        column_cells(version, i, k - 1) + apat_cells(
            alignment(version, i),
            alignment(version, k - 1),
        )
    }
}

/// The cells of the alignment patterns within the grid: those in the
/// columns of the centres from the second to the one before `k`, in each
/// column those in the rows of the centres from the second to the last of
/// the `n`.
pub open spec fn inner_cells(version: int, n: int, k: int) -> Seq<ScoredCell>
    decreases k,
{
    if k <= 1 {
        Seq::empty()
    } else {
        inner_cells(version, n, k - 1) + column_cells(version, k - 1, n)
    }
}

/// The cells of the alignment patterns of a version with `n` centres.
pub open spec fn alignment_cells(version: int, n: int) -> Seq<ScoredCell> {
    if n <= 0 {
        Seq::empty()
    } else {
        edge_cells(version, n - 1) + inner_cells(version, n, n)
    }
}

/// The cells that the fitness of a grid of `grid_size` cells a side is
/// scored on, each with its sign: the two timing patterns, the three
/// capstones, and the alignment patterns of the version. A grid larger
/// than that of the last version has no alignment patterns.
pub open spec fn spec_fitness_cells(grid_size: int) -> Seq<ScoredCell> {
    let version = (grid_size - 17) / 4;
    timing_cells(grid_size - 14) + capstone_cells(0, 0) + capstone_cells(grid_size - 7, 0)
        + capstone_cells(0, grid_size - 7) + if version > 40 {
        Seq::empty()
    } else {
        alignment_cells(version, alignment_count(version, 7))
    }
}

/// Appends the cells of the ring of the radius `r` about `(cx, cy)`.
fn push_ring(cells: &mut Vec<ScoredCell>, cx: i32, cy: i32, r: i32, sign: i32)
    requires
        0 <= cx <= 0x3_0000,
        0 <= cy <= 0x3_0000,
        0 <= r <= 3,
    ensures
        final(cells)@ == old(cells)@ + ring_cells(cx as int, cy as int, r as int, sign as int),
{
    let mut i: i32 = 0;
    assert(cells@ =~= old(cells)@ + ring_steps(cx as int, cy as int, r as int, sign as int, 0));
    while i < r * 2
        invariant
            0 <= i <= r * 2,
            0 <= cx <= 0x3_0000,
            0 <= cy <= 0x3_0000,
            0 <= r <= 3,
            cells@ == old(cells)@ + ring_steps(cx as int, cy as int, r as int, sign as int, i as int),
        decreases r * 2 - i,
    {
        let ghost before = cells@;
        cells.push((cx - r + i, cy - r, sign));
        cells.push((cx - r, cy + r - i, sign));
        cells.push((cx + r, cy - r + i, sign));
        cells.push((cx + r - i, cy + r, sign));
        assert(cells@ =~= old(cells)@ + ring_steps(
            cx as int,
            cy as int,
            r as int,
            sign as int,
            i + 1,
        ));
        i += 1;
    }
}

/// Appends the cells of an alignment pattern about `(cx, cy)`.
fn push_apat(cells: &mut Vec<ScoredCell>, cx: i32, cy: i32)
    requires
        0 <= cx <= 0x3_0000,
        0 <= cy <= 0x3_0000,
    ensures
        final(cells)@ == old(cells)@ + apat_cells(cx as int, cy as int),
{
    cells.push((cx, cy, 1));
    push_ring(cells, cx, cy, 1, -1);
    push_ring(cells, cx, cy, 2, 1);
    assert(cells@ =~= old(cells)@ + apat_cells(cx as int, cy as int));
}

/// Appends the cells of the capstone whose corner cell is `(x, y)`.
fn push_capstone(cells: &mut Vec<ScoredCell>, x: i32, y: i32)
    requires
        0 <= x <= 0x2_0000,
        0 <= y <= 0x2_0000,
    ensures
        final(cells)@ == old(cells)@ + capstone_cells(x as int, y as int),
{
    cells.push((x + 3, y + 3, 1));
    push_ring(cells, x + 3, y + 3, 1, -1);
    push_ring(cells, x + 3, y + 3, 2, 1);
    push_ring(cells, x + 3, y + 3, 3, -1);
    assert(cells@ =~= old(cells)@ + capstone_cells(x as int, y as int));
}

/// Appends the cells of the alignment patterns of a version.
fn push_alignment(cells: &mut Vec<ScoredCell>, version: usize)
    requires
        version <= 40,
    ensures
        final(cells)@ == old(cells)@ + alignment_cells(
            version as int,
            alignment_count(version as int, 7),
        ),
{
    let ghost v = version as int;
    let mut n: usize = 0;
    while n < 7 && alignment_center(version, n) != 0
        invariant
            n <= 7,
            version <= 40,
            alignment_count(version as int, n as int) == n,
        decreases 7 - n,
    {
        n += 1;
    }
    proof {
        lemma_alignment_count(v, n as int, 7);
    }
    if n == 0 {
        assert(cells@ =~= old(cells)@ + alignment_cells(v, 0));
        return ;
    }
    let ghost start = cells@;
    let mut k: usize = 1;
    assert(cells@ =~= start + edge_cells(v, 1));
    while k < n - 1
        invariant
            1 <= k,
            k <= n - 1 || (n == 1 && k == 1),
            1 <= n <= 7,
            version <= 40,
            v == version,
            cells@ == start + edge_cells(v, k as int),
        decreases n - k,
    {
        proof {
            lemma_alignment_range(v, k as int);
        }
        let a: i32 = alignment_center(version, k);
        push_apat(cells, 6, a);
        push_apat(cells, a, 6);
        assert(cells@ =~= start + edge_cells(v, k + 1));
        k += 1;
    }
    proof {
        if n == 1 {
            assert(edge_cells(v, 0) =~= edge_cells(v, 1));
        }
        assert(cells@ == start + edge_cells(v, n - 1));
    }
    let ghost edges = cells@;
    let mut i: usize = 1;
    assert(cells@ =~= edges + inner_cells(v, n as int, 1));
    while i < n
        invariant
            1 <= i <= n <= 7,
            version <= 40,
            v == version,
            cells@ == edges + inner_cells(v, n as int, i as int),
        decreases n - i,
    {
        let ghost column = cells@;
        let mut j: usize = 1;
        assert(cells@ =~= column + column_cells(v, i as int, 1));
        while j < n
            invariant
                1 <= j <= n <= 7,
                1 <= i < n,
                version <= 40,
                v == version,
                cells@ == column + column_cells(v, i as int, j as int),
            decreases n - j,
        {
            proof {
                lemma_alignment_range(v, i as int);
                lemma_alignment_range(v, j as int);
            }
            push_apat(cells, alignment_center(version, i), alignment_center(version, j));
            assert(cells@ =~= column + column_cells(v, i as int, j + 1));
            j += 1;
        }
        assert(cells@ =~= edges + inner_cells(v, n as int, i + 1));
        i += 1;
    }
    assert(cells@ =~= old(cells)@ + alignment_cells(v, n as int));
}

/// Lists the cells that the fitness of a grid of `grid_size` cells a side
/// is scored on, each with its sign.
pub fn fitness_cells(grid_size: i32) -> (cells: Vec<ScoredCell>)
    requires
        17 <= grid_size <= 0x2_0000,
        (grid_size - 17) % 4 == 0,
    ensures
        cells@ == spec_fitness_cells(grid_size as int),
{
    let version: usize = ((grid_size - 17) / 4) as usize;
    let mut cells: Vec<ScoredCell> = Vec::new();
    let mut i: i32 = 0;
    assert(cells@ =~= timing_cells(0));
    while i < grid_size - 14
        invariant
            0 <= i <= grid_size - 14,
            grid_size <= 0x2_0000,
            cells@ == timing_cells(i as int),
        decreases grid_size - 14 - i,
    {
        let expect: i32 = if i % 2 == 1 {
            1
        } else {
            -1
        };
        cells.push((i + 7, 6, expect));
        cells.push((6, i + 7, expect));
        assert(cells@ =~= timing_cells(i + 1));
        i += 1;
    }
    push_capstone(&mut cells, 0, 0);
    push_capstone(&mut cells, grid_size - 7, 0);
    push_capstone(&mut cells, 0, grid_size - 7);
    if version > 40 {
        assert(cells@ + Seq::<ScoredCell>::empty() =~= cells@);
        return cells;
    }
    push_alignment(&mut cells, version);
    cells
}

} // verus!
