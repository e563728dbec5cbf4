use vstd::prelude::*;

verus! {

/// Whether grid position `(r, c)` holds a point (both coordinates even).
pub open spec fn is_point_pos(r: int, c: int) -> bool {
    r % 2 == 0 && c % 2 == 0
}

/// Whether grid position `(r, c)` holds a line (exactly one coordinate odd).
pub open spec fn is_line_pos(r: int, c: int) -> bool {
    (r % 2 == 1 && c % 2 == 0) || (r % 2 == 0 && c % 2 == 1)
}

/// Whether grid position `(r, c)` holds a cell number (both coordinates odd).
pub open spec fn is_number_pos(r: int, c: int) -> bool {
    r % 2 == 1 && c % 2 == 1
}

/// Around a cell number, the positions one step away are lines when exactly one
/// offset vanishes and points when none does; around a point, lines when exactly one
/// offset vanishes.
pub proof fn lemma_offset_kind(a: int, b: int, x: int, y: int)
    requires
        -1 <= x <= 1,
        -1 <= y <= 1,
    ensures
        is_line_pos(2 * a + 1 + x, 2 * b + 1 + y) == ((x == 0) != (y == 0)),
        is_point_pos(2 * a + 1 + x, 2 * b + 1 + y) == (x != 0 && y != 0),
        is_number_pos(2 * a + 1 + x, 2 * b + 1 + y) == (x == 0 && y == 0),
        is_line_pos(2 * a + x, 2 * b + y) == ((x == 0) != (y == 0)),
        is_point_pos(2 * a + x, 2 * b + y) == (x == 0 && y == 0),
{
}

/// One if every bit of `m` is set in `v`.
pub open spec fn bit_in(v: i8, m: i8) -> int {
    if v & m == m {
        1
    } else {
        0
    }
}

/// How many of the seven shapes a point value still allows.
pub open spec fn shapes_left(v: i8) -> int {
    bit_in(v, 1) + bit_in(v, 2) + bit_in(v, 4) + bit_in(v, 8) + bit_in(v, 16) + bit_in(v, 32)
        + bit_in(v, 64)
}

/// What is still undecided at one grid position: the shapes a point still allows,
/// and three for an undecided line.
pub open spec fn cell_weight(r: int, c: int, v: i8) -> int {
    if is_point_pos(r, c) {
        shapes_left(v)
    } else if is_line_pos(r, c) && v == -1 {
        3
    } else {
        0
    }
}

pub open spec fn row_weight(row: Seq<i8>, r: int, n: int) -> int
    decreases n,
{
    if n <= 0 {
        0
    } else {
        row_weight(row, r, n - 1) + cell_weight(r, n - 1, row[n - 1])
    }
}

pub open spec fn rows_weight(g: Seq<Vec<i8>>, n: int) -> int
    decreases n,
{
    if n <= 0 {
        0
    } else {
        rows_weight(g, n - 1) + row_weight(g[n - 1]@, n - 1, g[n - 1]@.len() as int)
    }
}

/// Everything still undecided on a board grid; every deduction lowers it.
pub open spec fn potential(g: Seq<Vec<i8>>) -> int {
    rows_weight(g, g.len() as int)
}

proof fn lemma_row_weight_le(row: Seq<i8>, r: int, n: int)
    requires
        n >= 0,
    ensures
        row_weight(row, r, n) <= 7 * n,
    decreases n,
{
    if n > 0 {
        lemma_row_weight_le(row, r, n - 1);
        lemma_cell_weight_nonneg(r, n - 1, row[n - 1]);
    }
}

proof fn lemma_rows_weight_le(g: Seq<Vec<i8>>, n: int, cols: int)
    requires
        0 <= n <= g.len(),
        cols >= 0,
        forall|i: int| 0 <= i < g.len() ==> #[trigger] g[i]@.len() == cols,
    ensures
        rows_weight(g, n) <= 7 * n * cols,
    decreases n,
{
    if n > 0 {
        lemma_rows_weight_le(g, n - 1, cols);
        lemma_row_weight_le(g[n - 1]@, n - 1, g[n - 1]@.len() as int);
        assert(7 * (n - 1) * cols + 7 * cols == 7 * n * cols) by (nonlinear_arith);
    }
}

/// The potential of a grid is at most seven per position.
pub proof fn lemma_potential_le(g: Seq<Vec<i8>>, cols: int)
    requires
        cols >= 0,
        forall|i: int| 0 <= i < g.len() ==> #[trigger] g[i]@.len() == cols,
    ensures
        potential(g) <= 7 * g.len() * cols,
{
    lemma_rows_weight_le(g, g.len() as int, cols);
}

pub proof fn lemma_cell_weight_nonneg(r: int, c: int, v: i8)
    ensures
        0 <= cell_weight(r, c, v) <= 7,
{
}

pub proof fn lemma_row_weight_nonneg(row: Seq<i8>, r: int, n: int)
    ensures
        row_weight(row, r, n) >= 0,
    decreases n,
{
    if n > 0 {
        lemma_row_weight_nonneg(row, r, n - 1);
        lemma_cell_weight_nonneg(r, n - 1, row[n - 1]);
    }
}

pub proof fn lemma_rows_weight_nonneg(g: Seq<Vec<i8>>, n: int)
    ensures
        rows_weight(g, n) >= 0,
    decreases n,
{
    if n > 0 {
        lemma_rows_weight_nonneg(g, n - 1);
        lemma_row_weight_nonneg(g[n - 1]@, n - 1, g[n - 1]@.len() as int);
    }
}

pub proof fn lemma_potential_nonneg(g: Seq<Vec<i8>>)
    ensures
        potential(g) >= 0,
{
    lemma_rows_weight_nonneg(g, g.len() as int);
}

pub proof fn lemma_row_weight_update(row: Seq<i8>, r: int, n: int, c: int, v: i8)
    requires
        0 <= c < n <= row.len(),
    ensures
        row_weight(row.update(c, v), r, n) == row_weight(row, r, n) - cell_weight(r, c, row[c])
            + cell_weight(r, c, v),
    decreases n,
{
    if c < n - 1 {
        lemma_row_weight_update(row, r, n - 1, c, v);
    } else {
        lemma_row_weight_same(row, row.update(c, v), r, n - 1);
    }
}

pub proof fn lemma_row_weight_same(a: Seq<i8>, b: Seq<i8>, r: int, n: int)
    requires
        n <= a.len(),
        n <= b.len(),
        forall|j: int| 0 <= j < n ==> a[j] == b[j],
    ensures
        row_weight(a, r, n) == row_weight(b, r, n),
    decreases n,
{
    if n > 0 {
        lemma_row_weight_same(a, b, r, n - 1);
    }
}

pub proof fn lemma_rows_weight_update(g: Seq<Vec<i8>>, n: int, i: int, row: Vec<i8>)
    requires
        0 <= i < n <= g.len(),
    ensures
        rows_weight(g.update(i, row), n) == rows_weight(g, n) - row_weight(
            g[i]@,
            i,
            g[i]@.len() as int,
        ) + row_weight(row@, i, row@.len() as int),
    decreases n,
{
    if i < n - 1 {
        lemma_rows_weight_update(g, n - 1, i, row);
    } else {
        lemma_rows_weight_same(g, g.update(i, row), n - 1);
    }
}

pub proof fn lemma_rows_weight_same(a: Seq<Vec<i8>>, b: Seq<Vec<i8>>, n: int)
    requires
        n <= a.len(),
        n <= b.len(),
        forall|j: int| 0 <= j < n ==> a[j]@ == b[j]@,
    ensures
        rows_weight(a, n) == rows_weight(b, n),
    decreases n,
{
    if n > 0 {
        lemma_rows_weight_same(a, b, n - 1);
    }
}

/// Writing `v` at `(i, j)` changes the potential by the change of that position's weight.
pub proof fn lemma_potential_update(g: Seq<Vec<i8>>, g2: Seq<Vec<i8>>, i: int, j: int, v: i8)
    requires
        0 <= i < g.len(),
        0 <= j < g[i]@.len(),
        g2.len() == g.len(),
        g2[i]@ == g[i]@.update(j, v),
        forall|k: int| 0 <= k < g.len() && k != i ==> g2[k]@ == g[k]@,
    ensures
        potential(g2) == potential(g) - cell_weight(i, j, g[i]@[j]) + cell_weight(i, j, v),
{
    let row = g2[i];
    lemma_rows_weight_update(g, g.len() as int, i, row);
    lemma_rows_weight_same(g.update(i, row), g2, g.len() as int);
    lemma_row_weight_update(g[i]@, i, g[i]@.len() as int, j, v);
}

/// The shapes a point still allows; nothing at any other position.
pub open spec fn point_weight(r: int, c: int, v: i8) -> int {
    if is_point_pos(r, c) {
        shapes_left(v)
    } else {
        0
    }
}

pub open spec fn row_point_weight(row: Seq<i8>, r: int, n: int) -> int
    decreases n,
{
    if n <= 0 {
        0
    } else {
        row_point_weight(row, r, n - 1) + point_weight(r, n - 1, row[n - 1])
    }
}

pub open spec fn rows_point_weight(g: Seq<Vec<i8>>, n: int) -> int
    decreases n,
{
    if n <= 0 {
        0
    } else {
        rows_point_weight(g, n - 1) + row_point_weight(g[n - 1]@, n - 1, g[n - 1]@.len() as int)
    }
}

/// The shapes all the points of a board grid still allow.
pub open spec fn point_potential(g: Seq<Vec<i8>>) -> int {
    rows_point_weight(g, g.len() as int)
}

proof fn lemma_row_point_weight_same(a: Seq<i8>, b: Seq<i8>, r: int, n: int)
    requires
        n <= a.len(),
        n <= b.len(),
        forall|j: int| 0 <= j < n ==> a[j] == b[j],
    ensures
        row_point_weight(a, r, n) == row_point_weight(b, r, n),
    decreases n,
{
    if n > 0 {
        lemma_row_point_weight_same(a, b, r, n - 1);
    }
}

proof fn lemma_row_point_weight_update(row: Seq<i8>, r: int, n: int, c: int, v: i8)
    requires
        0 <= c < n <= row.len(),
    ensures
        row_point_weight(row.update(c, v), r, n) == row_point_weight(row, r, n) - point_weight(r, c, row[c])
            + point_weight(r, c, v),
    decreases n,
{
    if c < n - 1 {
        lemma_row_point_weight_update(row, r, n - 1, c, v);
    } else {
        lemma_row_point_weight_same(row, row.update(c, v), r, n - 1);
    }
}

proof fn lemma_rows_point_weight_same(a: Seq<Vec<i8>>, b: Seq<Vec<i8>>, n: int)
    requires
        n <= a.len(),
        n <= b.len(),
        forall|j: int| 0 <= j < n ==> a[j]@ == b[j]@,
    ensures
        rows_point_weight(a, n) == rows_point_weight(b, n),
    decreases n,
{
    if n > 0 {
        lemma_rows_point_weight_same(a, b, n - 1);
    }
}

proof fn lemma_rows_point_weight_update(g: Seq<Vec<i8>>, n: int, i: int, row: Vec<i8>)
    requires
        0 <= i < n <= g.len(),
    ensures
        rows_point_weight(g.update(i, row), n) == rows_point_weight(g, n) - row_point_weight(
            g[i]@,
            i,
            g[i]@.len() as int,
        ) + row_point_weight(row@, i, row@.len() as int),
    decreases n,
{
    if i < n - 1 {
        lemma_rows_point_weight_update(g, n - 1, i, row);
    } else {
        lemma_rows_point_weight_same(g, g.update(i, row), n - 1);
    }
}

/// Writing `v` at `(i, j)` changes the point potential by the change of that position's
/// point weight.
pub proof fn lemma_point_potential_update(g: Seq<Vec<i8>>, g2: Seq<Vec<i8>>, i: int, j: int, v: i8)
    requires
        0 <= i < g.len(),
        0 <= j < g[i]@.len(),
        g2.len() == g.len(),
        g2[i]@ == g[i]@.update(j, v),
        forall|k: int| 0 <= k < g.len() && k != i ==> g2[k]@ == g[k]@,
    ensures
        point_potential(g2) == point_potential(g) - point_weight(i, j, g[i]@[j]) + point_weight(i, j, v),
{
    let row = g2[i];
    lemma_rows_point_weight_update(g, g.len() as int, i, row);
    lemma_rows_point_weight_same(g.update(i, row), g2, g.len() as int);
    lemma_row_point_weight_update(g[i]@, i, g[i]@.len() as int, j, v);
}

/// The point potential only depends on the contents of the rows.
pub proof fn lemma_point_potential_same(g: Seq<Vec<i8>>, g2: Seq<Vec<i8>>)
    requires
        g2.len() == g.len(),
        forall|k: int| 0 <= k < g.len() ==> g2[k]@ == g[k]@,
    ensures
        point_potential(g2) == point_potential(g),
{
    lemma_rows_point_weight_same(g, g2, g.len() as int);
}

/// The potential only depends on the contents of the rows.
pub proof fn lemma_potential_same(g: Seq<Vec<i8>>, g2: Seq<Vec<i8>>)
    requires
        g2.len() == g.len(),
        forall|k: int| 0 <= k < g.len() ==> g2[k]@ == g[k]@,
    ensures
        potential(g2) == potential(g),
{
    lemma_rows_weight_same(g, g2, g.len() as int);
}

proof fn lemma_cell_le_row(row: Seq<i8>, r: int, n: int, c: int)
    requires
        0 <= c < n <= row.len(),
    ensures
        cell_weight(r, c, row[c]) <= row_weight(row, r, n),
    decreases n,
{
    lemma_row_weight_nonneg(row, r, n - 1);
    lemma_cell_weight_nonneg(r, n - 1, row[n - 1]);
    if c < n - 1 {
        lemma_cell_le_row(row, r, n - 1, c);
    }
}

proof fn lemma_row_le_rows(g: Seq<Vec<i8>>, n: int, i: int)
    requires
        0 <= i < n <= g.len(),
    ensures
        row_weight(g[i]@, i, g[i]@.len() as int) <= rows_weight(g, n),
    decreases n,
{
    lemma_rows_weight_nonneg(g, n - 1);
    lemma_row_weight_nonneg(g[n - 1]@, n - 1, g[n - 1]@.len() as int);
    if i < n - 1 {
        lemma_row_le_rows(g, n - 1, i);
    }
}

/// The weight of one position is part of the potential.
pub proof fn lemma_cell_le_potential(g: Seq<Vec<i8>>, i: int, j: int)
    requires
        0 <= i < g.len(),
        0 <= j < g[i]@.len(),
    ensures
        cell_weight(i, j, g[i]@[j]) <= potential(g),
{
    lemma_cell_le_row(g[i]@, i, g[i]@.len() as int, j);
    lemma_row_le_rows(g, g.len() as int, i);
}

/// Clearing the bits of `p` from a point value that holds them all, where `p` is one
/// shape bit, lowers the shapes left by one.
pub proof fn lemma_clear_one_shape(v: i8, p: i8)
    requires
        p == 1 || p == 2 || p == 4 || p == 8 || p == 16 || p == 32 || p == 64,
        v & p == p,
    ensures
        shapes_left(v & !p) == shapes_left(v) - 1,
        (v & !p) & v == (v & !p),
{
    lemma_shape_bits(v, p);
}

proof fn lemma_shape_bits(v: i8, p: i8)
    by (bit_vector)
    requires
        p == 1 || p == 2 || p == 4 || p == 8 || p == 16 || p == 32 || p == 64,
        v & p == p,
    ensures
        (v & !p) & p != p,
        p != 1 ==> (((v & !p) & 1 == 1) == (v & 1 == 1)),
        p != 2 ==> (((v & !p) & 2 == 2) == (v & 2 == 2)),
        p != 4 ==> (((v & !p) & 4 == 4) == (v & 4 == 4)),
        p != 8 ==> (((v & !p) & 8 == 8) == (v & 8 == 8)),
        p != 16 ==> (((v & !p) & 16 == 16) == (v & 16 == 16)),
        p != 32 ==> (((v & !p) & 32 == 32) == (v & 32 == 32)),
        p != 64 ==> (((v & !p) & 64 == 64) == (v & 64 == 64)),
        (v & !p) & v == (v & !p),
{
}

/// Bit sets: being a subset is transitive and reflexive.
pub proof fn lemma_subset_trans(x: i8, y: i8, z: i8)
    by (bit_vector)
    ensures
        (x & y == x && y & z == y) ==> x & z == x,
        x & x == x,
{
}

} // verus!
