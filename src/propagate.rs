use vstd::prelude::*;
use crate::validator::lines_equal;
use crate::grid::{
    col, copy_board, copy_line, count, extends, get_col, grid_of, has_unknown, is_cell,
    keeps_solutions, lemma_count_bound, lemma_count_mono, lemma_count_push, lemma_unknowns_mono,
    line_ok, set_cell, solved, triple_at, unknowns, unknowns_upto, well_formed, BLACK, UNKNOWN,
    WHITE,
};

verus! {

/// The line with every unknown cell set to `v`.
pub open spec fn fill_line(s: Seq<i16>, v: i16) -> Seq<i16> {
    Seq::new(s.len(), |k: int| if s[k] == UNKNOWN { v } else { s[k] })
}

/// The grid with every unknown cell of column `j` set to `v`.
pub open spec fn fill_col(g: Seq<Seq<i16>>, j: int, v: i16) -> Seq<Seq<i16>> {
    Seq::new(g.len(), |i: int| if g[i][j] == UNKNOWN { g[i].update(j, v) } else { g[i] })
}

/// The line after the balance rule: where half its cells are white, the unknown
/// cells turn black; else where half are black, they turn white.
pub open spec fn balance_fill(s: Seq<i16>) -> Seq<i16> {
    if 2 * count(s, WHITE) == s.len() {
        fill_line(s, BLACK)
    } else if 2 * count(s, BLACK) == s.len() {
        fill_line(s, WHITE)
    } else {
        s
    }
}

/// The line after the no-three rule looked at window `k`: the cell it forces, if
/// the window fires, gets its color.
pub open spec fn window_step(s: Seq<i16>, k: int) -> Seq<i16> {
    if window_fires(s, k) {
        s.update(window_target(s, k).0, window_target(s, k).1)
    } else {
        s
    }
}

/// The line after the no-three rule looked at windows `0` to `k - 1`, left to
/// right, each on the line as the earlier ones left it.
pub open spec fn scan_line(s: Seq<i16>, k: int) -> Seq<i16>
    decreases k,
{
    if k <= 0 {
        s
    } else {
        window_step(scan_line(s, k - 1), k - 1)
    }
}

/// The line after one left-to-right pass of the no-three rule.
pub open spec fn line_scan(s: Seq<i16>) -> Seq<i16> {
    if s.len() >= 2 {
        scan_line(s, s.len() - 2)
    } else {
        s
    }
}

/// The grid after one pass of the no-three rule over every row.
pub open spec fn rows_scan(g: Seq<Seq<i16>>) -> Seq<Seq<i16>> {
    Seq::new(g.len(), |i: int| line_scan(g[i]))
}

/// The grid after one pass of the no-three rule over every column.
pub open spec fn cols_scan(g: Seq<Seq<i16>>) -> Seq<Seq<i16>> {
    Seq::new(g.len(), |i: int| Seq::new(g.len(), |j: int| line_scan(col(g, j))[i]))
}

/// The grid after the balance rule on every row.
pub open spec fn rows_fill(g: Seq<Seq<i16>>) -> Seq<Seq<i16>> {
    Seq::new(g.len(), |i: int| balance_fill(g[i]))
}

/// The grid after the balance rule on every column.
pub open spec fn cols_fill(g: Seq<Seq<i16>>) -> Seq<Seq<i16>> {
    Seq::new(g.len(), |i: int| Seq::new(g.len(), |j: int| balance_fill(col(g, j))[i]))
}

/// One full pass of the propagator: balance rule on rows, then on columns, then
/// the no-three rule on rows, then on columns.
pub open spec fn pass(g: Seq<Seq<i16>>) -> Seq<Seq<i16>> {
    cols_scan(rows_scan(cols_fill(rows_fill(g))))
}

/// `k` passes applied to `g`.
pub open spec fn iterate(g: Seq<Seq<i16>>, k: nat) -> Seq<Seq<i16>>
    decreases k,
{
    if k == 0 {
        g
    } else {
        pass(iterate(g, (k - 1) as nat))
    }
}

/// `p` is where repeated passes from `g` first stop changing anything.
pub open spec fn propagation_of(g: Seq<Seq<i16>>, p: Seq<Seq<i16>>) -> bool {
    exists|k: nat| #[trigger] iterate(g, k) == p && pass(p) == p
}

pub proof fn lemma_iterate_stays(g: Seq<Seq<i16>>, k: nat, m: nat)
    requires
        pass(iterate(g, k)) == iterate(g, k),
        k <= m,
    ensures
        iterate(g, m) == iterate(g, k),
    decreases m - k,
{
    if m > k {
        lemma_iterate_stays(g, k, (m - 1) as nat);
    }
}

/// Repeated passes reach at most one fixed point: the propagation of a grid is
/// unique.
pub proof fn lemma_propagation_unique(g: Seq<Seq<i16>>, p: Seq<Seq<i16>>, q: Seq<Seq<i16>>)
    requires
        propagation_of(g, p),
        propagation_of(g, q),
    ensures
        p == q,
{
    let k1 = choose|k: nat| #[trigger] iterate(g, k) == p && pass(p) == p;
    let k2 = choose|k: nat| #[trigger] iterate(g, k) == q && pass(q) == q;
    if k1 <= k2 {
        lemma_iterate_stays(g, k1, k2);
    } else {
        lemma_iterate_stays(g, k2, k1);
    }
}

/// Setting one cell changes only that cell's column, at that cell.
pub proof fn lemma_col_of_set(g: Seq<Seq<i16>>, p: int, j: int, v: i16)
    requires
        0 <= p < g.len(),
        0 <= j < g.len(),
        forall|i: int| 0 <= i < g.len() ==> (#[trigger] g[i]).len() == g.len(),
    ensures
        col(g.update(p, g[p].update(j, v)), j) == col(g, j).update(p, v),
        forall|j2: int| 0 <= j2 < g.len() && j2 != j ==> #[trigger] col(g.update(p, g[p].update(j, v)), j2) == col(g, j2),
{
    let h = g.update(p, g[p].update(j, v));
    assert(col(h, j) =~= col(g, j).update(p, v));
    assert forall|j2: int| 0 <= j2 < g.len() && j2 != j implies #[trigger] col(h, j2) == col(g, j2) by {
        assert(col(h, j2) =~= col(g, j2));
    }
}

/// The balance rule has nothing to fill in this line.
pub open spec fn balance_closed(s: Seq<i16>) -> bool {
    has_unknown(s) ==> 2 * count(s, WHITE) != s.len() && 2 * count(s, BLACK) != s.len()
}

/// The window at `k` is `XX?`, `X?X` or `?XX` for a color `X`.
pub open spec fn window_fires(s: Seq<i16>, k: int) -> bool {
    ||| (s[k] != UNKNOWN && s[k] == s[k + 1] && s[k + 2] == UNKNOWN)
    ||| (s[k] != UNKNOWN && s[k] == s[k + 2] && s[k + 1] == UNKNOWN)
    ||| (s[k + 1] != UNKNOWN && s[k + 1] == s[k + 2] && s[k] == UNKNOWN)
}

/// The no-three rule has nothing to fill in this line.
pub open spec fn window_closed(s: Seq<i16>) -> bool {
    forall|k: int| 0 <= k && k + 2 < s.len() ==> !#[trigger] window_fires(s, k)
}

pub open spec fn rows_balance_closed(g: Seq<Seq<i16>>) -> bool {
    forall|i: int| 0 <= i < g.len() ==> balance_closed(#[trigger] g[i])
}

pub open spec fn cols_balance_closed(g: Seq<Seq<i16>>) -> bool {
    forall|j: int| 0 <= j < g.len() ==> balance_closed(#[trigger] col(g, j))
}

pub open spec fn rows_window_closed(g: Seq<Seq<i16>>) -> bool {
    forall|i: int| 0 <= i < g.len() ==> window_closed(#[trigger] g[i])
}

pub open spec fn cols_window_closed(g: Seq<Seq<i16>>) -> bool {
    forall|j: int| 0 <= j < g.len() ==> window_closed(#[trigger] col(g, j))
}

/// No rule of the propagator can fill a cell: a fixed point.
pub open spec fn closed(g: Seq<Seq<i16>>) -> bool {
    &&& rows_balance_closed(g)
    &&& cols_balance_closed(g)
    &&& rows_window_closed(g)
    &&& cols_window_closed(g)
}

/// What every inference step guarantees: the grid stays well formed, no colored
/// cell changes, and no solution is lost.
pub open spec fn inference_step(g: Seq<Seq<i16>>, r: Seq<Seq<i16>>) -> bool {
    &&& well_formed(r)
    &&& extends(r, g)
    &&& keeps_solutions(g, r)
}

/// `r` is what propagation to a fixed point makes of `g`.
pub open spec fn propagated(g: Seq<Seq<i16>>, r: Seq<Seq<i16>>) -> bool {
    &&& inference_step(g, r)
    &&& closed(r)
    &&& closed(g) ==> r == g
}

pub proof fn lemma_extends_refl(a: Seq<Seq<i16>>)
    requires
        well_formed(a),
    ensures
        extends(a, a),
        keeps_solutions(a, a),
{
}

pub proof fn lemma_extends_trans(a: Seq<Seq<i16>>, b: Seq<Seq<i16>>, c: Seq<Seq<i16>>)
    requires
        extends(a, b),
        extends(b, c),
    ensures
        extends(a, c),
{
    assert forall|i: int, j: int|
        0 <= i < c.len() && 0 <= j < c[i].len() && #[trigger] c[i][j] != UNKNOWN implies a[i][j]
        == c[i][j] by {
        assert(b[i][j] == c[i][j]);
    }
}

pub proof fn lemma_step_trans(a: Seq<Seq<i16>>, b: Seq<Seq<i16>>, c: Seq<Seq<i16>>)
    requires
        inference_step(a, b),
        inference_step(b, c),
    ensures
        inference_step(a, c),
{
    lemma_extends_trans(c, b, a);
    assert forall|s: Seq<Seq<i16>>| #[trigger] solved(s) && #[trigger] extends(s, a) implies extends(
        s,
        c,
    ) by {
        assert(extends(s, b));
    }
}

/// Two grids that extend each other are equal.
pub proof fn lemma_extends_antisym(a: Seq<Seq<i16>>, b: Seq<Seq<i16>>)
    requires
        extends(a, b),
        extends(b, a),
    ensures
        a == b,
{
    assert forall|i: int| 0 <= i < a.len() implies a[i] == b[i] by {
        assert forall|j: int| 0 <= j < a[i].len() implies a[i][j] == b[i][j] by {
            if b[i][j] == UNKNOWN {
                if a[i][j] != UNKNOWN {
                    assert(b[i][j] == a[i][j]);
                }
            }
        }
        assert(a[i] =~= b[i]);
    }
    assert(a =~= b);
}

/// In a line that has half its cells of color `c`, any completion whose count of
/// `c` is at most half gives no unknown cell the color `c`.
pub proof fn lemma_fill_forced(l: Seq<i16>, t: Seq<i16>, c: i16)
    requires
        l.len() == t.len(),
        c != UNKNOWN,
        forall|k: int| 0 <= k < l.len() && l[k] != UNKNOWN ==> t[k] == l[k],
        2 * count(l, c) == l.len(),
        count(t, c) <= t.len() / 2,
    ensures
        forall|k: int| 0 <= k < l.len() && l[k] == UNKNOWN ==> t[k] != c,
{
    lemma_count_mono(l, t, c);
    assert forall|k: int| 0 <= k < l.len() && l[k] == UNKNOWN implies t[k] != c by {
        if t[k] == c {
            assert(l[k] != c && t[k] == c);
        }
    }
}

/// In a completion with no run of three, a window pattern forces its unknown cell
/// to the other color.
pub proof fn lemma_window_forced(l: Seq<i16>, t: Seq<i16>, k: int)
    requires
        l.len() == t.len(),
        0 <= k && k + 2 < l.len(),
        forall|m: int| 0 <= m < l.len() && l[m] != UNKNOWN ==> t[m] == l[m],
        forall|m: int| 0 <= m < t.len() ==> t[m] == WHITE || t[m] == BLACK,
        !triple_at(t, k),
    ensures
        (l[k] != UNKNOWN && l[k] == l[k + 1] && l[k + 2] == UNKNOWN) ==> t[k + 2] == 1 - l[k],
        (l[k] != UNKNOWN && l[k] == l[k + 2] && l[k + 1] == UNKNOWN) ==> t[k + 1] == 1 - l[k],
        (l[k + 1] != UNKNOWN && l[k + 1] == l[k + 2] && l[k] == UNKNOWN) ==> t[k] == 1 - l[k + 1],
{
    assert(t[k] == WHITE || t[k] == BLACK);
    assert(t[k + 1] == WHITE || t[k + 1] == BLACK);
    assert(t[k + 2] == WHITE || t[k + 2] == BLACK);
}

/// How many white and how many black cells a line has.
pub fn count_colors(s: &Vec<i16>) -> (r: (usize, usize))
    ensures
        r.0 == count(s@, WHITE),
        r.1 == count(s@, BLACK),
{
    let mut white: usize = 0;
    let mut black: usize = 0;
    let mut m: usize = 0;
    while m < s.len()
        invariant
            m <= s.len(),
            white == count(s@.subrange(0, m as int), WHITE),
            black == count(s@.subrange(0, m as int), BLACK),
            white <= m,
            black <= m,
        decreases s.len() - m,
    {
        proof {
            lemma_count_push(s@, m as int, WHITE);
            lemma_count_push(s@, m as int, BLACK);
        }
        if s[m] == WHITE {
            white += 1;
        } else if s[m] == BLACK {
            black += 1;
        }
        m += 1;
    }
    assert(s@.subrange(0, s.len() as int) =~= s@);
    (white, black)
}

/// Sets every unknown cell of row `i` to `v`.
pub fn fill_row(board: &mut Vec<Vec<i16>>, i: usize, v: i16)
    requires
        i < old(board).len(),
    ensures
        grid_of(*final(board)) == grid_of(*old(board)).update(
            i as int,
            fill_line(grid_of(*old(board))[i as int], v),
        ),
{
    let mut line = copy_line(&board[i]);
    let ghost l0 = line@;
    let mut k: usize = 0;
    while k < line.len()
        invariant
            line@.len() == l0.len(),
            forall|m: int| 0 <= m < k ==> line@[m] == fill_line(l0, v)[m],
            forall|m: int| k <= m < l0.len() ==> line@[m] == l0[m],
        decreases line.len() - k,
    {
        if line[k] == UNKNOWN {
            line.set(k, v);
        }
        k += 1;
    }
    assert(line@ =~= fill_line(l0, v));
    board.set(i, line);
    assert(grid_of(*board) =~= grid_of(*old(board)).update(i as int, fill_line(l0, v)));
}

/// Sets every unknown cell of column `j` to `v`.
pub fn fill_column(board: &mut Vec<Vec<i16>>, j: usize, v: i16)
    requires
        well_formed(grid_of(*old(board))),
        j < old(board).len(),
    ensures
        grid_of(*final(board)) == fill_col(grid_of(*old(board)), j as int, v),
{
    let ghost g0 = grid_of(*board);
    let n = board.len();
    let mut i: usize = 0;
    while i < n
        invariant
            well_formed(g0),
            n == g0.len(),
            j < n,
            grid_of(*board).len() == n,
            forall|i2: int| 0 <= i2 < i ==> grid_of(*board)[i2] == fill_col(g0, j as int, v)[i2],
            forall|i2: int| i <= i2 < n ==> grid_of(*board)[i2] == g0[i2],
        decreases n - i,
    {
        assert(grid_of(*board)[i as int] == g0[i as int]);
        assert(board@[i as int]@ == g0[i as int]);
        if board[i][j] == UNKNOWN {
            set_cell(board, i, j, v);
        }
        i += 1;
    }
    assert(grid_of(*board) =~= fill_col(g0, j as int, v));
}

/// Facts on filling a line: colored cells stay, and the line changes exactly
/// where it had an unknown cell.
pub proof fn lemma_fill_line(l: Seq<i16>, v: i16)
    requires
        v != UNKNOWN,
    ensures
        forall|k: int| 0 <= k < l.len() && l[k] != UNKNOWN ==> #[trigger] fill_line(l, v)[k] == l[k],
        (fill_line(l, v) == l) == !has_unknown(l),
{
    if has_unknown(l) {
        let k = choose|k: int| 0 <= k < l.len() && l[k] == UNKNOWN;
        assert(fill_line(l, v)[k] != l[k]);
    } else {
        assert(fill_line(l, v) =~= l);
    }
}

/// One application of the balance rule to row `i` of `g`, which is where the
/// rule fires, gives an inference step.
pub proof fn lemma_fill_row_step(g: Seq<Seq<i16>>, i: int, c: i16, v: i16)
    requires
        well_formed(g),
        0 <= i < g.len(),
        c == WHITE || c == BLACK,
        v == 1 - c,
        2 * count(g[i], c) == g.len(),
    ensures
        inference_step(g, g.update(i, fill_line(g[i], v))),
        (g.update(i, fill_line(g[i], v)) == g) == !has_unknown(g[i]),
{
    let r = g.update(i, fill_line(g[i], v));
    lemma_fill_line(g[i], v);
    assert forall|s: Seq<Seq<i16>>| #[trigger] solved(s) && #[trigger] extends(s, g) implies extends(
        s,
        r,
    ) by {
        assert(line_ok(s[i]));
        assert forall|k: int| 0 <= k < g[i].len() && g[i][k] != UNKNOWN implies s[i][k] == g[i][k] by {}
        lemma_fill_forced(g[i], s[i], c);
        assert forall|i2: int, j: int|
            0 <= i2 < r.len() && 0 <= j < r[i2].len() && #[trigger] r[i2][j] != UNKNOWN implies s[i2][j]
            == r[i2][j] by {
            assert(g[i2].len() == g.len());
            if i2 == i {
                if g[i][j] == UNKNOWN {
                    assert(s[i][j] != UNKNOWN);
                    assert(s[i][j] != c);
                } else {
                    assert(s[i][j] == g[i][j]);
                }
            } else {
                assert(r[i2][j] == g[i2][j]);
                assert(g[i2][j] != UNKNOWN);
            }
        }
    }
    if r == g {
        assert(r[i] == g[i]);
    }
    if !has_unknown(g[i]) {
        assert(r =~= g);
    }
}

/// One application of the balance rule to column `j` of `g`, which is where the
/// rule fires, gives an inference step.
pub proof fn lemma_fill_col_step(g: Seq<Seq<i16>>, j: int, c: i16, v: i16)
    requires
        well_formed(g),
        0 <= j < g.len(),
        c == WHITE || c == BLACK,
        v == 1 - c,
        2 * count(col(g, j), c) == g.len(),
    ensures
        inference_step(g, fill_col(g, j, v)),
        (fill_col(g, j, v) == g) == !has_unknown(col(g, j)),
{
    let r = fill_col(g, j, v);
    let l = col(g, j);
    assert forall|i: int| 0 <= i < g.len() implies (#[trigger] r[i]).len() == g.len() by {
        assert(g[i].len() == g.len());
    }
    assert forall|i: int, j2: int| 0 <= i < r.len() && 0 <= j2 < r.len() implies is_cell(
        #[trigger] r[i][j2],
    ) by {
        assert(g[i].len() == g.len());
    }
    assert forall|i: int, j2: int|
        0 <= i < g.len() && 0 <= j2 < g[i].len() && #[trigger] g[i][j2] != UNKNOWN implies r[i][j2]
        == g[i][j2] by {}
    assert forall|s: Seq<Seq<i16>>| #[trigger] solved(s) && #[trigger] extends(s, g) implies extends(
        s,
        r,
    ) by {
        let t = col(s, j);
        assert(line_ok(t));
        assert forall|k: int| 0 <= k < l.len() && l[k] != UNKNOWN implies t[k] == l[k] by {
            assert(g[k].len() == g.len());
        }
        lemma_fill_forced(l, t, c);
        assert forall|i2: int, j2: int|
            0 <= i2 < r.len() && 0 <= j2 < r[i2].len() && #[trigger] r[i2][j2] != UNKNOWN implies s[i2][j2]
            == r[i2][j2] by {
            assert(g[i2].len() == g.len());
            if j2 == j && g[i2][j] == UNKNOWN {
                assert(l[i2] == UNKNOWN);
                assert(s[i2][j] != UNKNOWN);
                assert(t[i2] != c);
            } else {
                assert(r[i2][j2] == g[i2][j2]);
                assert(g[i2][j2] != UNKNOWN);
            }
        }
    }
    if has_unknown(l) {
        let k = choose|k: int| 0 <= k < l.len() && l[k] == UNKNOWN;
        assert(r[k][j] != g[k][j]);
    } else {
        assert forall|i: int| 0 <= i < g.len() implies r[i] == g[i] by {
            assert(l[i] != UNKNOWN);
        }
        assert(r =~= g);
    }
}

/// The cell that a firing window forces, and its color.
pub open spec fn window_target(s: Seq<i16>, k: int) -> (int, i16) {
    if s[k] != UNKNOWN && s[k] == s[k + 1] && s[k + 2] == UNKNOWN {
        (k + 2, (1 - s[k]) as i16)
    } else if s[k] != UNKNOWN && s[k] == s[k + 2] && s[k + 1] == UNKNOWN {
        (k + 1, (1 - s[k]) as i16)
    } else {
        (k, (1 - s[k + 1]) as i16)
    }
}

/// Coloring one unknown cell with the color that every solution gives it is an
/// inference step that changes the grid.
pub proof fn lemma_forced_cell(g: Seq<Seq<i16>>, i: int, j: int, v: i16)
    requires
        well_formed(g),
        0 <= i < g.len(),
        0 <= j < g.len(),
        g[i][j] == UNKNOWN,
        v == WHITE || v == BLACK,
        forall|s: Seq<Seq<i16>>| #[trigger] solved(s) && #[trigger] extends(s, g) ==> s[i][j] == v,
    ensures
        inference_step(g, g.update(i, g[i].update(j, v))),
        g.update(i, g[i].update(j, v)) != g,
{
    let r = g.update(i, g[i].update(j, v));
    assert(r[i][j] != g[i][j]);
    assert forall|i2: int| 0 <= i2 < r.len() implies (#[trigger] r[i2]).len() == r.len() by {
        assert(g[i2].len() == g.len());
    }
    assert forall|i2: int, j2: int| 0 <= i2 < r.len() && 0 <= j2 < r.len() implies is_cell(
        #[trigger] r[i2][j2],
    ) by {
        assert(g[i2].len() == g.len());
    }
    assert forall|i2: int, j2: int|
        0 <= i2 < g.len() && 0 <= j2 < g[i2].len() && #[trigger] g[i2][j2] != UNKNOWN implies r[i2][j2]
        == g[i2][j2] by {}
    assert forall|s: Seq<Seq<i16>>| #[trigger] solved(s) && #[trigger] extends(s, g) implies extends(
        s,
        r,
    ) by {
        assert forall|i2: int, j2: int|
            0 <= i2 < r.len() && 0 <= j2 < r[i2].len() && #[trigger] r[i2][j2] != UNKNOWN implies s[i2][j2]
            == r[i2][j2] by {
            assert(g[i2].len() == g.len());
            if i2 != i || j2 != j {
                assert(r[i2][j2] == g[i2][j2]);
                assert(g[i2][j2] != UNKNOWN);
            }
        }
    }
}

/// The rule of no three in a row, fired at window `k` of row `i`, is an inference
/// step.
pub proof fn lemma_row_window_step(g: Seq<Seq<i16>>, i: int, k: int)
    requires
        well_formed(g),
        0 <= i < g.len(),
        0 <= k && k + 2 < g.len(),
        window_fires(g[i], k),
    ensures
        ({
            let (p, v) = window_target(g[i], k);
            &&& k <= p <= k + 2
            &&& g[i][p] == UNKNOWN
            &&& inference_step(g, g.update(i, g[i].update(p, v)))
            &&& g.update(i, g[i].update(p, v)) != g
        }),
{
    let l = g[i];
    let (p, v) = window_target(l, k);
    assert(l.len() == g.len());
    assert(is_cell(l[k]) && is_cell(l[k + 1]) && is_cell(l[k + 2]));
    assert forall|s: Seq<Seq<i16>>| #[trigger] solved(s) && #[trigger] extends(s, g) implies s[i][p]
        == v by {
        let t = s[i];
        assert(line_ok(t));
        assert(!triple_at(t, k));
        assert forall|m: int| 0 <= m < l.len() && l[m] != UNKNOWN implies t[m] == l[m] by {}
        assert forall|m: int| 0 <= m < t.len() implies t[m] == WHITE || t[m] == BLACK by {
            assert(s[i][m] != UNKNOWN);
            assert(is_cell(s[i][m]));
        }
        lemma_window_forced(l, t, k);
    }
    lemma_forced_cell(g, i, p, v);
}

/// The rule of no three in a row, fired at window `k` of column `j`, is an
/// inference step.
pub proof fn lemma_col_window_step(g: Seq<Seq<i16>>, j: int, k: int)
    requires
        well_formed(g),
        0 <= j < g.len(),
        0 <= k && k + 2 < g.len(),
        window_fires(col(g, j), k),
    ensures
        ({
            let (p, v) = window_target(col(g, j), k);
            &&& k <= p <= k + 2
            &&& g[p][j] == UNKNOWN
            &&& inference_step(g, g.update(p, g[p].update(j, v)))
            &&& g.update(p, g[p].update(j, v)) != g
        }),
{
    let l = col(g, j);
    let (p, v) = window_target(l, k);
    assert(is_cell(g[k][j]) && is_cell(g[k + 1][j]) && is_cell(g[k + 2][j]));
    assert forall|s: Seq<Seq<i16>>| #[trigger] solved(s) && #[trigger] extends(s, g) implies s[p][j]
        == v by {
        let t = col(s, j);
        assert(line_ok(t));
        assert(!triple_at(t, k));
        assert forall|m: int| 0 <= m < l.len() && l[m] != UNKNOWN implies t[m] == l[m] by {
            assert(g[m].len() == g.len());
        }
        assert forall|m: int| 0 <= m < t.len() implies t[m] == WHITE || t[m] == BLACK by {
            assert(s[m][j] != UNKNOWN);
            assert(is_cell(s[m][j]));
        }
        lemma_window_forced(l, t, k);
    }
    lemma_forced_cell(g, p, j, v);
}

/// Balance rule on rows: where a row already holds half its cells in one color,
/// its unknown cells get the other color.
pub fn fill_full_rows(board: Vec<Vec<i16>>, boardsize: i16) -> (r: Vec<Vec<i16>>)
    requires
        well_formed(grid_of(board)),
        boardsize as int == board.len(),
    ensures
        inference_step(grid_of(board), grid_of(r)),
        grid_of(r) == rows_fill(grid_of(board)),
        (grid_of(r) == grid_of(board)) == rows_balance_closed(grid_of(board)),
{
    let ghost g0 = grid_of(board);
    let mut board = board;
    let n = board.len();
    proof {
        lemma_extends_refl(g0);
    }
    let mut i: usize = 0;
    while i < n
        invariant
            n == g0.len(),
            n == board.len(),
            n <= 32767,
            well_formed(g0),
            inference_step(g0, grid_of(board)),
            forall|i2: int| i <= i2 < n ==> #[trigger] grid_of(board)[i2] == g0[i2],
            forall|i2: int| 0 <= i2 < i ==> (#[trigger] grid_of(board)[i2] == g0[i2]) == balance_closed(g0[i2]),
            forall|i2: int| 0 <= i2 < i ==> #[trigger] grid_of(board)[i2] == balance_fill(g0[i2]),
        decreases n - i,
    {
        let ghost cur = grid_of(board);
        assert(cur[i as int] == g0[i as int]);
        assert(board@[i as int]@ == cur[i as int]);
        let (white, black) = count_colors(&board[i]);
        proof {
            lemma_count_bound(g0[i as int], WHITE);
            lemma_count_bound(g0[i as int], BLACK);
            assert(g0[i as int].len() == n);
        }
        if 2 * white == n {
            fill_row(&mut board, i, BLACK);
            proof {
                lemma_fill_row_step(cur, i as int, WHITE, BLACK);
                lemma_step_trans(g0, cur, grid_of(board));
            }
        } else if 2 * black == n {
            fill_row(&mut board, i, WHITE);
            proof {
                lemma_fill_row_step(cur, i as int, BLACK, WHITE);
                lemma_step_trans(g0, cur, grid_of(board));
            }
        }
        proof {
            let nb = grid_of(board);
            assert((nb[i as int] == g0[i as int]) == balance_closed(g0[i as int]));
            assert forall|i2: int| 0 <= i2 < i + 1 implies (#[trigger] nb[i2] == g0[i2]) == balance_closed(g0[i2]) by {
                if i2 < i {
                    assert(nb[i2] == cur[i2]);
                }
            }
            assert(nb[i as int] == balance_fill(g0[i as int]));
            assert forall|i2: int| 0 <= i2 < i + 1 implies #[trigger] nb[i2] == balance_fill(g0[i2]) by {
                if i2 < i {
                    assert(nb[i2] == cur[i2]);
                }
            }
        }
        i += 1;
    }
    proof {
        let nb = grid_of(board);
        assert(nb =~= rows_fill(g0));
        if nb == g0 {
            assert forall|i2: int| 0 <= i2 < n implies balance_closed(#[trigger] g0[i2]) by {
                assert(nb[i2] == g0[i2]);
            }
        }
        if rows_balance_closed(g0) {
            assert forall|i2: int| 0 <= i2 < n implies nb[i2] == g0[i2] by {
                assert(balance_closed(g0[i2]));
            }
            assert(nb =~= g0);
        }
    }
    board
}

/// Balance rule on columns: where a column already holds half its cells in one
/// color, its unknown cells get the other color.
pub fn fill_full_collumns(board: Vec<Vec<i16>>) -> (r: Vec<Vec<i16>>)
    requires
        well_formed(grid_of(board)),
    ensures
        inference_step(grid_of(board), grid_of(r)),
        grid_of(r) == cols_fill(grid_of(board)),
        (grid_of(r) == grid_of(board)) == cols_balance_closed(grid_of(board)),
{
    let ghost g0 = grid_of(board);
    let mut board = board;
    let n = board.len();
    proof {
        lemma_extends_refl(g0);
    }
    let mut j: usize = 0;
    while j < n
        invariant
            n == g0.len(),
            n == board.len(),
            well_formed(g0),
            inference_step(g0, grid_of(board)),
            forall|j2: int| j <= j2 < n ==> #[trigger] col(grid_of(board), j2) == col(g0, j2),
            forall|j2: int|
                0 <= j2 < j ==> (#[trigger] col(grid_of(board), j2) == col(g0, j2)) == balance_closed(
                    col(g0, j2),
                ),
            forall|j2: int| 0 <= j2 < j ==> #[trigger] col(grid_of(board), j2) == balance_fill(col(g0, j2)),
        decreases n - j,
    {
        let ghost cur = grid_of(board);
        assert(col(cur, j as int) == col(g0, j as int));
        let line = get_col(&board, j);
        let (white, black) = count_colors(&line);
        proof {
            lemma_count_bound(line@, WHITE);
            lemma_count_bound(line@, BLACK);
        }
        if white == n - white {
            fill_column(&mut board, j, BLACK);
            proof {
                lemma_fill_col_step(cur, j as int, WHITE, BLACK);
                lemma_step_trans(g0, cur, grid_of(board));
            }
        } else if black == n - black {
            fill_column(&mut board, j, WHITE);
            proof {
                lemma_fill_col_step(cur, j as int, BLACK, WHITE);
                lemma_step_trans(g0, cur, grid_of(board));
            }
        }
        proof {
            let nb = grid_of(board);
            assert forall|j2: int| 0 <= j2 < n && j2 != j implies #[trigger] col(nb, j2) == col(cur, j2) by {
                assert forall|i: int| 0 <= i < n implies nb[i][j2] == cur[i][j2] by {
                    assert(cur[i].len() == n);
                }
                assert(col(nb, j2) =~= col(cur, j2));
            }
            if nb == cur {
                assert(col(nb, j as int) == col(cur, j as int));
            } else {
                assert(col(nb, j as int) != col(g0, j as int)) by {
                    if col(nb, j as int) == col(g0, j as int) {
                        assert forall|i: int, j2: int| 0 <= i < n && 0 <= j2 < n implies nb[i][j2] == cur[i][j2] by {
                            assert(col(nb, j2)[i] == col(cur, j2)[i]);
                        }
                        assert forall|i: int| 0 <= i < n implies nb[i] == cur[i] by {
                            assert(cur[i].len() == n);
                            assert(nb[i] =~= cur[i]);
                        }
                        assert(nb =~= cur);
                    }
                }
            }
            assert((col(nb, j as int) == col(g0, j as int)) == balance_closed(col(g0, j as int)));
            assert(col(nb, j as int) =~= balance_fill(col(g0, j as int))) by {
                assert forall|i: int| 0 <= i < n implies nb[i].len() == n && cur[i].len() == n by {}
            }
        }
        j += 1;
    }
    proof {
        let nb = grid_of(board);
        if nb == g0 {
            assert forall|j2: int| 0 <= j2 < n implies balance_closed(#[trigger] col(g0, j2)) by {
                assert(col(nb, j2) == col(g0, j2));
            }
        }
        assert forall|i: int| 0 <= i < n implies nb[i] == cols_fill(g0)[i] by {
            assert forall|j2: int| 0 <= j2 < n implies nb[i][j2] == cols_fill(g0)[i][j2] by {
                assert(col(nb, j2)[i] == nb[i][j2]);
            }
            assert(nb[i] =~= cols_fill(g0)[i]);
        }
        assert(nb =~= cols_fill(g0));
        if cols_balance_closed(g0) {
            assert forall|i: int| 0 <= i < n implies nb[i] == g0[i] by {
                assert forall|j2: int| 0 <= j2 < n implies nb[i][j2] == g0[i][j2] by {
                    assert(balance_closed(col(g0, j2)));
                    assert(col(nb, j2)[i] == col(g0, j2)[i]);
                }
                assert(nb[i] =~= g0[i]);
            }
            assert(nb =~= g0);
        }
    }
    board
}

/// No-three rule on rows: in each window of three cells, `XX?`, `X?X` and `?XX`
/// give the unknown cell the other color.
pub fn two_in_rows(board: Vec<Vec<i16>>) -> (r: Vec<Vec<i16>>)
    requires
        well_formed(grid_of(board)),
    ensures
        inference_step(grid_of(board), grid_of(r)),
        grid_of(r) == rows_scan(grid_of(board)),
        (grid_of(r) == grid_of(board)) == rows_window_closed(grid_of(board)),
{
    let ghost g0 = grid_of(board);
    let mut board = board;
    let n = board.len();
    proof {
        lemma_extends_refl(g0);
    }
    let mut i: usize = 0;
    while i < n
        invariant
            n == g0.len(),
            n == board.len(),
            well_formed(g0),
            inference_step(g0, grid_of(board)),
            rows_window_closed(g0) ==> grid_of(board) == g0,
            grid_of(board) == g0 ==> forall|i2: int| 0 <= i2 < i ==> window_closed(#[trigger] g0[i2]),
            grid_of(board) == g0 || unknowns(grid_of(board)) < unknowns(g0),
            i <= n,
            forall|i2: int| 0 <= i2 < i ==> #[trigger] grid_of(board)[i2] == line_scan(g0[i2]),
            forall|i2: int| i <= i2 < n ==> #[trigger] grid_of(board)[i2] == g0[i2],
        decreases n - i,
    {
        let mut k: usize = 0;
        while n >= 2 && k < n - 2
            invariant
                n == g0.len(),
                n == board.len(),
                i < n,
                well_formed(g0),
                inference_step(g0, grid_of(board)),
                rows_window_closed(g0) ==> grid_of(board) == g0,
                grid_of(board) == g0 ==> forall|i2: int| 0 <= i2 < i ==> window_closed(#[trigger] g0[i2]),
                grid_of(board) == g0 ==> forall|k2: int| 0 <= k2 < k ==> !#[trigger] window_fires(g0[i as int], k2),
                grid_of(board) == g0 || unknowns(grid_of(board)) < unknowns(g0),
                n >= 2 ==> k <= n - 2,
                forall|i2: int| 0 <= i2 < i ==> #[trigger] grid_of(board)[i2] == line_scan(g0[i2]),
                forall|i2: int| i < i2 < n ==> #[trigger] grid_of(board)[i2] == g0[i2],
                grid_of(board)[i as int] == scan_line(g0[i as int], k as int),
            decreases n - k,
        {
            let ghost cur = grid_of(board);
            assert(board@[i as int]@ == cur[i as int]);
            assert(cur[i as int].len() == n);
            assert(is_cell(cur[i as int][k as int]) && is_cell(cur[i as int][k + 1]));
            let a = board[i][k];
            let b = board[i][k + 1];
            let c = board[i][k + 2];
            let fires = (a != UNKNOWN && a == b && c == UNKNOWN) || (a != UNKNOWN && a == c && b == UNKNOWN)
                || (b != UNKNOWN && b == c && a == UNKNOWN);
            if fires {
                if a != UNKNOWN && a == b && c == UNKNOWN {
                    set_cell(&mut board, i, k + 2, 1 - a);
                } else if a != UNKNOWN && a == c && b == UNKNOWN {
                    set_cell(&mut board, i, k + 1, 1 - a);
                } else {
                    set_cell(&mut board, i, k, 1 - b);
                }
                proof {
                    assert(window_fires(cur[i as int], k as int));
                    if rows_window_closed(g0) {
                        assert(window_closed(g0[i as int]));
                    }
                    lemma_row_window_step(cur, i as int, k as int);
                    lemma_step_trans(g0, cur, grid_of(board));
                    lemma_unknowns_mono(grid_of(board), cur);
                    lemma_unknowns_mono(cur, g0);
                }
            }
            proof {
                assert(grid_of(board)[i as int] =~= window_step(cur[i as int], k as int));
                assert forall|i2: int| 0 <= i2 < n && i2 != i implies #[trigger] grid_of(board)[i2] == cur[i2] by {}
            }
            k += 1;
        }
        proof {
            assert(g0[i as int].len() == n);
            assert(grid_of(board)[i as int] == line_scan(g0[i as int]));
        }
        i += 1;
    }
    proof {
        assert(grid_of(board) =~= rows_scan(g0));
    }
    proof {
        if grid_of(board) == g0 {
            assert forall|i2: int| 0 <= i2 < n implies window_closed(#[trigger] g0[i2]) by {}
        }
    }
    board
}

/// No-three rule on columns: in each window of three cells, `XX?`, `X?X` and
/// `?XX` give the unknown cell the other color.
pub fn two_in_collumns(board: Vec<Vec<i16>>) -> (r: Vec<Vec<i16>>)
    requires
        well_formed(grid_of(board)),
    ensures
        inference_step(grid_of(board), grid_of(r)),
        grid_of(r) == cols_scan(grid_of(board)),
        (grid_of(r) == grid_of(board)) == cols_window_closed(grid_of(board)),
{
    let ghost g0 = grid_of(board);
    let mut board = board;
    let n = board.len();
    proof {
        lemma_extends_refl(g0);
    }
    let mut j: usize = 0;
    while j < n
        invariant
            n == g0.len(),
            n == board.len(),
            well_formed(g0),
            inference_step(g0, grid_of(board)),
            cols_window_closed(g0) ==> grid_of(board) == g0,
            grid_of(board) == g0 ==> forall|j2: int| 0 <= j2 < j ==> window_closed(#[trigger] col(g0, j2)),
            grid_of(board) == g0 || unknowns(grid_of(board)) < unknowns(g0),
            j <= n,
            forall|j2: int| 0 <= j2 < j ==> #[trigger] col(grid_of(board), j2) == line_scan(col(g0, j2)),
            forall|j2: int| j <= j2 < n ==> #[trigger] col(grid_of(board), j2) == col(g0, j2),
        decreases n - j,
    {
        let mut k: usize = 0;
        while n >= 2 && k < n - 2
            invariant
                n == g0.len(),
                n == board.len(),
                j < n,
                well_formed(g0),
                inference_step(g0, grid_of(board)),
                cols_window_closed(g0) ==> grid_of(board) == g0,
                grid_of(board) == g0 ==> forall|j2: int| 0 <= j2 < j ==> window_closed(#[trigger] col(g0, j2)),
                grid_of(board) == g0 ==> forall|k2: int| 0 <= k2 < k ==> !#[trigger] window_fires(col(g0, j as int), k2),
                grid_of(board) == g0 || unknowns(grid_of(board)) < unknowns(g0),
                n >= 2 ==> k <= n - 2,
                forall|j2: int| 0 <= j2 < j ==> #[trigger] col(grid_of(board), j2) == line_scan(col(g0, j2)),
                forall|j2: int| j < j2 < n ==> #[trigger] col(grid_of(board), j2) == col(g0, j2),
                col(grid_of(board), j as int) == scan_line(col(g0, j as int), k as int),
            decreases n - k,
        {
            let ghost cur = grid_of(board);
            assert(board@[k as int]@ == cur[k as int]);
            assert(board@[k + 1]@ == cur[k + 1]);
            assert(board@[k + 2]@ == cur[k + 2]);
            assert(cur[k as int].len() == n && cur[k + 1].len() == n && cur[k + 2].len() == n);
            assert(is_cell(cur[k as int][j as int]) && is_cell(cur[k + 1][j as int]));
            let a = board[k][j];
            let b = board[k + 1][j];
            let c = board[k + 2][j];
            assert(col(cur, j as int)[k as int] == a && col(cur, j as int)[k + 1] == b && col(cur, j as int)[k + 2] == c);
            let fires = (a != UNKNOWN && a == b && c == UNKNOWN) || (a != UNKNOWN && a == c && b == UNKNOWN)
                || (b != UNKNOWN && b == c && a == UNKNOWN);
            if fires {
                if a != UNKNOWN && a == b && c == UNKNOWN {
                    set_cell(&mut board, k + 2, j, 1 - a);
                } else if a != UNKNOWN && a == c && b == UNKNOWN {
                    set_cell(&mut board, k + 1, j, 1 - a);
                } else {
                    set_cell(&mut board, k, j, 1 - b);
                }
                proof {
                    assert(window_fires(col(cur, j as int), k as int));
                    if cols_window_closed(g0) {
                        assert(window_closed(col(g0, j as int)));
                    }
                    lemma_col_window_step(cur, j as int, k as int);
                    lemma_step_trans(g0, cur, grid_of(board));
                    lemma_unknowns_mono(grid_of(board), cur);
                    lemma_unknowns_mono(cur, g0);
                    let (p, v) = window_target(col(cur, j as int), k as int);
                    assert(grid_of(board) == cur.update(p, cur[p].update(j as int, v)));
                    lemma_col_of_set(cur, p, j as int, v);
                    assert(col(grid_of(board), j as int) == window_step(col(cur, j as int), k as int));
                }
            } else {
                proof {
                    assert(!window_fires(col(cur, j as int), k as int));
                }
            }
            k += 1;
        }
        proof {
            assert(col(g0, j as int).len() == n);
        }
        j += 1;
    }
    proof {
        let nb = grid_of(board);
        assert forall|i: int| 0 <= i < n implies nb[i] == cols_scan(g0)[i] by {
            assert forall|j2: int| 0 <= j2 < n implies nb[i][j2] == cols_scan(g0)[i][j2] by {
                assert(col(nb, j2)[i] == nb[i][j2]);
            }
            assert(nb[i] =~= cols_scan(g0)[i]);
        }
        assert(nb =~= cols_scan(g0));
    }
    proof {
        if grid_of(board) == g0 {
            assert forall|j2: int| 0 <= j2 < n implies window_closed(#[trigger] col(g0, j2)) by {}
        }
    }
    board
}

/// The balance rule on every row, then on every column.
pub fn fill_full_rows_and_collumns(board: Vec<Vec<i16>>, boardsize: i16) -> (r: Vec<Vec<i16>>)
    requires
        well_formed(grid_of(board)),
        boardsize as int == board.len(),
    ensures
        inference_step(grid_of(board), grid_of(r)),
        grid_of(r) == cols_fill(rows_fill(grid_of(board))),
        (grid_of(r) == grid_of(board)) == (rows_balance_closed(grid_of(board))
            && cols_balance_closed(grid_of(board))),
{
    let ghost g0 = grid_of(board);
    let b1 = fill_full_rows(board, boardsize);
    let ghost g1 = grid_of(b1);
    let b2 = fill_full_collumns(b1);
    proof {
        lemma_step_trans(g0, g1, grid_of(b2));
        if grid_of(b2) == g0 {
            lemma_extends_trans(g0, grid_of(b2), g1);
            lemma_extends_antisym(g0, g1);
        }
    }
    b2
}

/// The no-three rule on every row, then on every column.
pub fn no_three_in_a_row(board: Vec<Vec<i16>>) -> (r: Vec<Vec<i16>>)
    requires
        well_formed(grid_of(board)),
    ensures
        inference_step(grid_of(board), grid_of(r)),
        grid_of(r) == cols_scan(rows_scan(grid_of(board))),
        (grid_of(r) == grid_of(board)) == (rows_window_closed(grid_of(board))
            && cols_window_closed(grid_of(board))),
{
    let ghost g0 = grid_of(board);
    let b1 = two_in_rows(board);
    let ghost g1 = grid_of(b1);
    let b2 = two_in_collumns(b1);
    proof {
        lemma_step_trans(g0, g1, grid_of(b2));
        if grid_of(b2) == g0 {
            lemma_extends_trans(g0, grid_of(b2), g1);
            lemma_extends_antisym(g0, g1);
        }
    }
    b2
}

/// Whether two boards are equal.
pub fn boards_equal(a: &Vec<Vec<i16>>, b: &Vec<Vec<i16>>) -> (r: bool)
    ensures
        r == (grid_of(*a) == grid_of(*b)),
{
    if a.len() != b.len() {
        assert(grid_of(*a).len() != grid_of(*b).len());
        return false;
    }
    let mut i: usize = 0;
    while i < a.len()
        invariant
            a.len() == b.len(),
            forall|i2: int| 0 <= i2 < i ==> grid_of(*a)[i2] == grid_of(*b)[i2],
        decreases a.len() - i,
    {
        if !lines_equal(&a[i], &b[i]) {
            assert(grid_of(*a)[i as int] != grid_of(*b)[i as int]);
            return false;
        }
        i += 1;
    }
    assert(grid_of(*a) =~= grid_of(*b));
    true
}

/// Applies the balance rule and the no-three rule, in turn, until a full pass
/// changes nothing.
pub fn solve_deterministic(board: Vec<Vec<i16>>, boardsize: i16) -> (r: Vec<Vec<i16>>)
    requires
        well_formed(grid_of(board)),
        boardsize as int == board.len(),
    ensures
        propagated(grid_of(board), grid_of(r)),
        propagation_of(grid_of(board), grid_of(r)),
{
    let ghost g0 = grid_of(board);
    let mut cur = board;
    let ghost mut passes: nat = 0;
    proof {
        lemma_extends_refl(g0);
    }
    loop
        invariant
            boardsize as int == cur.len(),
            inference_step(g0, grid_of(cur)),
            closed(g0) ==> grid_of(cur) == g0,
            g0 == grid_of(board),
            iterate(g0, passes) == grid_of(cur),
        decreases unknowns(grid_of(cur)),
    {
        let prev = copy_board(&cur);
        let ghost gp = grid_of(prev);
        let b1 = fill_full_rows_and_collumns(cur, boardsize);
        let ghost g1 = grid_of(b1);
        cur = no_three_in_a_row(b1);
        proof {
            lemma_step_trans(gp, g1, grid_of(cur));
            lemma_step_trans(g0, gp, grid_of(cur));
            assert(grid_of(cur) == pass(gp));
            passes = passes + 1;
            assert(iterate(g0, passes) == grid_of(cur));
        }
        if boards_equal(&cur, &prev) {
            proof {
                lemma_extends_trans(gp, grid_of(cur), g1);
                lemma_extends_antisym(gp, g1);
                assert(closed(grid_of(cur)));
                assert(iterate(g0, (passes - 1) as nat) == gp);
                assert(pass(gp) == gp);
            }
            return cur;
        }
        proof {
            lemma_unknowns_mono(grid_of(cur), gp);
        }
    }
}

/// Propagation is idempotent: propagating what propagation returned gives it back
/// unchanged.
pub proof fn lemma_propagate_idempotent(g: Seq<Seq<i16>>, r: Seq<Seq<i16>>, r2: Seq<Seq<i16>>)
    requires
        propagated(g, r),
        propagated(r, r2),
    ensures
        r2 == r,
{
}

/// Propagation is monotone: every colored cell of `g` keeps its color in what
/// propagation returns, so no cell goes back to unknown.
pub proof fn lemma_propagate_monotone(g: Seq<Seq<i16>>, r: Seq<Seq<i16>>, i: int, j: int)
    requires
        well_formed(g),
        propagated(g, r),
        0 <= i < g.len(),
        0 <= j < g.len(),
        g[i][j] != UNKNOWN,
    ensures
        r[i][j] == g[i][j],
        r[i][j] != UNKNOWN,
{
    assert(g[i].len() == g.len());
}

proof fn lemma_unknowns_upto_bound(g: Seq<Seq<i16>>, k: int)
    requires
        well_formed(g),
        0 <= k <= g.len(),
    ensures
        unknowns_upto(g, k) <= k * g.len(),
    decreases k,
{
    if k > 0 {
        lemma_unknowns_upto_bound(g, k - 1);
        lemma_count_bound(g[k - 1], UNKNOWN);
        assert(g[k - 1].len() == g.len());
        assert((k - 1) * g.len() + g.len() == k * g.len()) by (nonlinear_arith);
    }
}

/// Termination of propagation: an N×N grid has at most N² unknown cells, and
/// every step that changes the grid colors at least one of them, so at most N²
/// passes of the rules change anything before the fixed point.
pub proof fn lemma_fixpoint_bound(g: Seq<Seq<i16>>, r: Seq<Seq<i16>>)
    requires
        well_formed(g),
        inference_step(g, r),
    ensures
        unknowns(g) <= g.len() * g.len(),
        r != g ==> unknowns(r) < unknowns(g),
{
    lemma_unknowns_upto_bound(g, g.len() as int);
    lemma_unknowns_mono(r, g);
}

/// The no-three rule after propagation: in a grid that has a solution, the
/// unknown cell of a row window `XX?`, `X?X` or `?XX` ends up colored `1 - X`.
pub proof fn lemma_row_window_completed(
    g: Seq<Seq<i16>>,
    r: Seq<Seq<i16>>,
    s: Seq<Seq<i16>>,
    i: int,
    k: int,
)
    requires
        well_formed(g),
        propagated(g, r),
        solved(s),
        extends(s, g),
        0 <= i < g.len(),
        0 <= k && k + 2 < g.len(),
        window_fires(g[i], k),
    ensures
        r[i][window_target(g[i], k).0] == window_target(g[i], k).1,
{
    let (p, v) = window_target(g[i], k);
    lemma_row_window_step(g, i, k);
    let g1 = g.update(i, g[i].update(p, v));
    assert(extends(s, g1));
    assert(g[i].len() == g.len());
    assert(g1[i][p] == v);
    assert(s[i][p] == v);
    assert(extends(s, r));
    assert(g[i].len() == g.len());
    assert(r[i][k] == g[i][k] || g[i][k] == UNKNOWN);
    assert(r[i][k + 1] == g[i][k + 1] || g[i][k + 1] == UNKNOWN);
    assert(r[i][k + 2] == g[i][k + 2] || g[i][k + 2] == UNKNOWN);
    if r[i][p] == UNKNOWN {
        assert(window_closed(r[i]));
        assert(window_fires(r[i], k));
    }
    assert(s[i][p] == r[i][p]);
}

/// The no-three rule after propagation: in a grid that has a solution, the
/// unknown cell of a column window `XX?`, `X?X` or `?XX` ends up colored `1 - X`.
pub proof fn lemma_col_window_completed(
    g: Seq<Seq<i16>>,
    r: Seq<Seq<i16>>,
    s: Seq<Seq<i16>>,
    j: int,
    k: int,
)
    requires
        well_formed(g),
        propagated(g, r),
        solved(s),
        extends(s, g),
        0 <= j < g.len(),
        0 <= k && k + 2 < g.len(),
        window_fires(col(g, j), k),
    ensures
        r[window_target(col(g, j), k).0][j] == window_target(col(g, j), k).1,
{
    let (p, v) = window_target(col(g, j), k);
    lemma_col_window_step(g, j, k);
    let g1 = g.update(p, g[p].update(j, v));
    assert(extends(s, g1));
    assert(g[p].len() == g.len());
    assert(g1[p][j] == v);
    assert(s[p][j] == v);
    assert(extends(s, r));
    assert(g[k].len() == g.len() && g[k + 1].len() == g.len() && g[k + 2].len() == g.len());
    assert(r[k][j] == g[k][j] || g[k][j] == UNKNOWN);
    assert(r[k + 1][j] == g[k + 1][j] || g[k + 1][j] == UNKNOWN);
    assert(r[k + 2][j] == g[k + 2][j] || g[k + 2][j] == UNKNOWN);
    if r[p][j] == UNKNOWN {
        assert(window_closed(col(r, j)));
        assert(window_fires(col(r, j), k));
    }
    assert(s[p][j] == r[p][j]);
}

} // verus!
