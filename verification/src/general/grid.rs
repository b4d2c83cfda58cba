//! Rectangular grids of cells, held as a vector of rows.
use vstd::prelude::*;

verus! {

/// The rows of `g` as sequences.
pub open spec fn grid_view<T>(g: Vec<Vec<T>>) -> Seq<Seq<T>> {
    Seq::new(g.len() as nat, |i: int| g[i]@)
}

/// `g` has `rows` rows of `cols` cells each.
pub open spec fn shaped<T>(g: Seq<Seq<T>>, rows: int, cols: int) -> bool {
    &&& g.len() == rows
    &&& forall|i: int| 0 <= i < rows ==> (#[trigger] g[i]).len() == cols
}

/// `g` with the cell at row `x`, column `y` replaced by `v`.
pub open spec fn put<T>(g: Seq<Seq<T>>, x: int, y: int, v: T) -> Seq<Seq<T>> {
    g.update(x, g[x].update(y, v))
}

/// How many of the first `k` cells, row by row, hold `item`.
pub open spec fn count_upto<T>(g: Seq<Seq<T>>, cols: int, item: T, k: nat) -> nat
    decreases k,
{
    if k == 0 {
        0
    } else {
        count_upto(g, cols, item, (k - 1) as nat) + if g[(k - 1) / cols][(k - 1) % cols] == item {
            1nat
        } else {
            0nat
        }
    }
}

pub proof fn lemma_count_bound<T>(g: Seq<Seq<T>>, cols: int, item: T, k: nat)
    ensures
        count_upto(g, cols, item, k) <= k,
    decreases k,
{
    if k > 0 {
        lemma_count_bound(g, cols, item, (k - 1) as nat);
    }
}

/// Row and column of the `k`-th cell of a grid with `cols` columns.
pub proof fn lemma_cell_index(x: int, y: int, cols: int)
    requires
        0 <= x,
        0 <= y < cols,
    ensures
        (x * cols + y) / cols == x,
        (x * cols + y) % cols == y,
{
    vstd::arithmetic::div_mod::lemma_fundamental_div_mod_converse(x * cols + y, cols, x, y);
}

pub proof fn lemma_index_cell(k: int, cols: int, rows: int)
    requires
        0 <= k < rows * cols,
        cols > 0,
    ensures
        0 <= k / cols < rows,
        0 <= k % cols < cols,
        (k / cols) * cols + k % cols == k,
{
    vstd::arithmetic::div_mod::lemma_fundamental_div_mod(k, cols);
    vstd::arithmetic::div_mod::lemma_mod_bound(k, cols);
    assert(0 <= k / cols < rows) by (nonlinear_arith)
        requires
            0 <= k < rows * cols,
            cols > 0,
            k == cols * (k / cols) + k % cols,
            0 <= k % cols < cols,
    ;
    assert((k / cols) * cols == cols * (k / cols)) by (nonlinear_arith);
}

/// Replacing one cell changes the count of `item` by what left and what came.
pub proof fn lemma_count_put<T>(
    g: Seq<Seq<T>>,
    rows: int,
    cols: int,
    x: int,
    y: int,
    v: T,
    item: T,
    k: nat,
)
    requires
        shaped(g, rows, cols),
        0 <= x < rows,
        0 <= y < cols,
        k <= rows * cols,
    ensures
        count_upto(put(g, x, y, v), cols, item, k) + (if k > x * cols + y && g[x][y] == item {
            1nat
        } else {
            0nat
        }) == count_upto(g, cols, item, k) + (if k > x * cols + y && v == item {
            1nat
        } else {
            0nat
        }),
    decreases k,
{
    if k > 0 {
        lemma_count_put(g, rows, cols, x, y, v, item, (k - 1) as nat);
        lemma_index_cell(k - 1, cols, rows);
        lemma_cell_index(x, y, cols);
        let i = (k - 1) / cols;
        let j = (k - 1) % cols;
        if i == x && j == y {
            assert(k - 1 == x * cols + y);
        } else {
            assert(k - 1 != x * cols + y);
            assert(put(g, x, y, v)[i][j] == g[i][j]);
        }
    }
}

/// Grids that agree on which cells hold `item` hold it equally often.
pub proof fn lemma_count_same<T>(g: Seq<Seq<T>>, h: Seq<Seq<T>>, rows: int, cols: int, item: T, k: nat)
    requires
        shaped(g, rows, cols),
        shaped(h, rows, cols),
        cols > 0,
        k <= rows * cols,
        forall|i: int, j: int|
            0 <= i < rows && 0 <= j < cols ==> ((#[trigger] g[i][j] == item) == (h[i][j] == item)),
    ensures
        count_upto(g, cols, item, k) == count_upto(h, cols, item, k),
    decreases k,
{
    if k > 0 {
        lemma_count_same(g, h, rows, cols, item, (k - 1) as nat);
        lemma_index_cell(k - 1, cols, rows);
        let i = (k - 1) / cols;
        let j = (k - 1) % cols;
        assert((g[i][j] == item) == (h[i][j] == item));
    }
}

/// A grid without `item` counts none.
pub proof fn lemma_count_absent<T>(g: Seq<Seq<T>>, rows: int, cols: int, item: T, k: nat)
    requires
        shaped(g, rows, cols),
        cols > 0,
        k <= rows * cols,
        forall|i: int, j: int| 0 <= i < rows && 0 <= j < cols ==> #[trigger] g[i][j] != item,
    ensures
        count_upto(g, cols, item, k) == 0,
    decreases k,
{
    if k > 0 {
        lemma_count_absent(g, rows, cols, item, (k - 1) as nat);
        lemma_index_cell(k - 1, cols, rows);
        assert(g[(k - 1) / cols][(k - 1) % cols] != item);
    }
}

/// What the shape of the view says of the rows themselves.
pub proof fn lemma_shape<T>(g: Vec<Vec<T>>, rows: int, cols: int)
    requires
        shaped(grid_view(g), rows, cols),
    ensures
        g.len() == rows,
        forall|i: int| 0 <= i < rows ==> (#[trigger] g[i]).len() == cols,
        forall|i: int| 0 <= i < rows ==> (#[trigger] grid_view(g)[i]) == g[i]@,
{
    assert forall|i: int| 0 <= i < rows implies (#[trigger] g[i]).len() == cols by {
        assert(grid_view(g)[i] == g[i]@);
    }
}

/// A grid of `rows` by `cols` cells, each holding `fill`.
pub fn new_grid<T: Copy>(rows: usize, cols: usize, fill: T) -> (g: Vec<Vec<T>>)
    ensures
        shaped(grid_view(g), rows as int, cols as int),
        forall|i: int, j: int|
            0 <= i < rows && 0 <= j < cols ==> #[trigger] grid_view(g)[i][j] == fill,
{
    let mut g: Vec<Vec<T>> = Vec::new();
    let mut i: usize = 0;
    while i < rows
        invariant
            i <= rows,
            g.len() == i,
            forall|a: int| 0 <= a < i ==> (#[trigger] g[a]).len() == cols,
            forall|a: int, b: int| 0 <= a < i && 0 <= b < cols ==> #[trigger] g[a][b] == fill,
        decreases rows - i,
    {
        let mut row: Vec<T> = Vec::new();
        let mut j: usize = 0;
        while j < cols
            invariant
                j <= cols,
                row.len() == j,
                forall|b: int| 0 <= b < j ==> #[trigger] row[b] == fill,
            decreases cols - j,
        {
            row.push(fill);
            j += 1;
        }
        g.push(row);
        i += 1;
    }
    g
}

/// A copy of `g`, cell by cell.
pub fn copy_grid<T: Copy>(g: &Vec<Vec<T>>) -> (r: Vec<Vec<T>>)
    ensures
        grid_view(r) == grid_view(*g),
{
    let mut r: Vec<Vec<T>> = Vec::new();
    let mut i: usize = 0;
    while i < g.len()
        invariant
            i <= g.len(),
            r.len() == i,
            forall|a: int| 0 <= a < i ==> (#[trigger] r[a])@ == g[a]@,
        decreases g.len() - i,
    {
        let mut row: Vec<T> = Vec::new();
        let mut j: usize = 0;
        while j < g[i].len()
            invariant
                i < g.len(),
                j <= g[i as int].len(),
                row@ == g[i as int]@.take(j as int),
            decreases g[i as int].len() - j,
        {
            row.push(g[i][j]);
            assert(g[i as int]@.take(j + 1) =~= g[i as int]@.take(j as int).push(g[i as int][j as int]));
            j += 1;
        }
        assert(g[i as int]@.take(j as int) =~= g[i as int]@);
        r.push(row);
        i += 1;
    }
    assert(grid_view(r) =~= grid_view(*g));
    r
}

} // verus!
