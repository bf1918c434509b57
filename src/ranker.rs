use vstd::prelude::*;
use crate::grid::{
    col, count, get_col, grid_of, lemma_count_bound, lemma_count_push, no_unknown, unknowns,
    unknowns_upto, well_formed, BLACK, UNKNOWN, WHITE,
};
use crate::propagate::count_colors;

verus! {

/// How many of the (up to four) orthogonal neighbours of cell (i, j) are colored.
pub open spec fn neighbours_solved(g: Seq<Seq<i16>>, i: int, j: int) -> int {
    (if i > 0 && g[i - 1][j] != UNKNOWN { 1int } else { 0int })
        + (if i + 1 < g.len() && g[i + 1][j] != UNKNOWN { 1int } else { 0int })
        + (if j > 0 && g[i][j - 1] != UNKNOWN { 1int } else { 0int })
        + (if j + 1 < g.len() && g[i][j + 1] != UNKNOWN { 1int } else { 0int })
}

/// The number of colored cells of a line.
pub open spec fn filled(s: Seq<i16>) -> nat {
    count(s, WHITE) + count(s, BLACK)
}

/// How constrained an unknown cell is: a hundred per colored neighbour, plus the
/// colored cells of its row and of its column.
pub open spec fn score(g: Seq<Seq<i16>>, i: int, j: int) -> int {
    100 * neighbours_solved(g, i, j) + filled(g[i]) + filled(col(g, j))
}

pub open spec fn cell_at(t: (usize, usize, usize)) -> (int, int) {
    (t.0 as int, t.1 as int)
}

/// `r` lists every unknown cell of `g` once, with its score, best first.
pub open spec fn ranked(g: Seq<Seq<i16>>, r: Seq<(usize, usize, usize)>) -> bool {
    &&& forall|k: int|
        0 <= k < r.len() ==> {
            let (i, j, sc) = #[trigger] r[k];
            &&& i < g.len()
            &&& j < g.len()
            &&& g[i as int][j as int] == UNKNOWN
            &&& sc == score(g, i as int, j as int)
        }
    &&& forall|i: int, j: int|
        0 <= i < g.len() && 0 <= j < g.len() && #[trigger] g[i][j] == UNKNOWN ==> exists|k: int|
            0 <= k < r.len() && #[trigger] cell_at(r[k]) == (i, j)
    &&& forall|k1: int, k2: int|
        0 <= k1 < r.len() && 0 <= k2 < r.len() && k1 != k2 ==> cell_at(#[trigger] r[k1]) != cell_at(
            #[trigger] r[k2],
        )
    &&& forall|k1: int, k2: int| 0 <= k1 < k2 < r.len() ==> (#[trigger] r[k1]).2 >= (#[trigger] r[k2]).2
}

/// Cell (i2, j2) comes before cell (i, j) in row-major order.
pub open spec fn scanned(i2: int, j2: int, i: int, j: int) -> bool {
    i2 < i || (i2 == i && j2 < j)
}

/// `r` is the ranking of the unknown cells that come before (i, j).
pub open spec fn ranked_upto(g: Seq<Seq<i16>>, r: Seq<(usize, usize, usize)>, i: int, j: int) -> bool {
    &&& forall|k: int|
        0 <= k < r.len() ==> {
            let (i2, j2, sc) = #[trigger] r[k];
            &&& i2 < g.len()
            &&& j2 < g.len()
            &&& g[i2 as int][j2 as int] == UNKNOWN
            &&& sc == score(g, i2 as int, j2 as int)
            &&& scanned(i2 as int, j2 as int, i, j)
        }
    &&& forall|i2: int, j2: int|
        0 <= i2 < g.len() && 0 <= j2 < g.len() && scanned(i2, j2, i, j) && #[trigger] g[i2][j2]
            == UNKNOWN ==> exists|k: int| 0 <= k < r.len() && #[trigger] cell_at(r[k]) == (i2, j2)
    &&& forall|k1: int, k2: int|
        0 <= k1 < r.len() && 0 <= k2 < r.len() && k1 != k2 ==> cell_at(#[trigger] r[k1]) != cell_at(
            #[trigger] r[k2],
        )
    &&& forall|k1: int, k2: int| 0 <= k1 < k2 < r.len() ==> (#[trigger] r[k1]).2 >= (#[trigger] r[k2]).2
}

proof fn lemma_insert_ranked(
    g: Seq<Seq<i16>>,
    r: Seq<(usize, usize, usize)>,
    i: int,
    j: int,
    p: int,
    sc: usize,
)
    requires
        ranked_upto(g, r, i, j),
        0 <= i < g.len(),
        0 <= j < g.len(),
        g.len() <= 32767,
        g[i][j] == UNKNOWN,
        sc == score(g, i, j),
        0 <= p <= r.len(),
        forall|k: int| 0 <= k < p ==> (#[trigger] r[k]).2 >= sc,
        p < r.len() ==> r[p].2 < sc,
    ensures
        ranked_upto(g, r.insert(p, (i as usize, j as usize, sc)), i, j + 1),
{
    let t = (i as usize, j as usize, sc);
    let r2 = r.insert(p, t);
    assert forall|k: int| 0 <= k < r2.len() implies #[trigger] r2[k] == (if k < p { r[k] } else if k == p { t } else { r[k - 1] }) by {}
    assert forall|i2: int, j2: int|
        0 <= i2 < g.len() && 0 <= j2 < g.len() && scanned(i2, j2, i, j + 1) && #[trigger] g[i2][j2]
            == UNKNOWN implies exists|k: int| 0 <= k < r2.len() && #[trigger] cell_at(r2[k]) == (i2, j2) by {
        if i2 == i && j2 == j {
            assert(cell_at(r2[p]) == (i2, j2));
        } else {
            assert(scanned(i2, j2, i, j));
            let k = choose|k: int| 0 <= k < r.len() && #[trigger] cell_at(r[k]) == (i2, j2);
            if k < p {
                assert(cell_at(r2[k]) == (i2, j2));
            } else {
                assert(cell_at(r2[k + 1]) == (i2, j2));
            }
        }
    }
    assert forall|k1: int, k2: int|
        0 <= k1 < r2.len() && 0 <= k2 < r2.len() && k1 != k2 implies cell_at(#[trigger] r2[k1]) != cell_at(
        #[trigger] r2[k2]) by {
        if k1 != p && k2 != p {
            let o1 = if k1 < p { k1 } else { k1 - 1 };
            let o2 = if k2 < p { k2 } else { k2 - 1 };
            assert(cell_at(r[o1]) != cell_at(r[o2]));
        } else if k1 == p {
            let o2 = if k2 < p { k2 } else { k2 - 1 };
            assert(scanned(r[o2].0 as int, r[o2].1 as int, i, j));
        } else {
            let o1 = if k1 < p { k1 } else { k1 - 1 };
            assert(scanned(r[o1].0 as int, r[o1].1 as int, i, j));
        }
    }
    assert forall|k1: int, k2: int| 0 <= k1 < k2 < r2.len() implies (#[trigger] r2[k1]).2 >= (
    #[trigger] r2[k2]).2 by {
        if k1 < p && k2 > p {
            assert(r[k1].2 >= r[k2 - 1].2);
        } else if k1 == p && k2 > p {
            assert(r[p].2 >= r[k2 - 1].2);
        } else if k1 > p {
            assert(r[k1 - 1].2 >= r[k2 - 1].2);
        }
    }
}

proof fn lemma_skip_known(g: Seq<Seq<i16>>, r: Seq<(usize, usize, usize)>, i: int, j: int)
    requires
        ranked_upto(g, r, i, j),
        0 <= i < g.len(),
        0 <= j < g.len(),
        g[i][j] != UNKNOWN,
    ensures
        ranked_upto(g, r, i, j + 1),
{
    assert forall|i2: int, j2: int|
        0 <= i2 < g.len() && 0 <= j2 < g.len() && scanned(i2, j2, i, j + 1) && #[trigger] g[i2][j2]
            == UNKNOWN implies exists|k: int| 0 <= k < r.len() && #[trigger] cell_at(r[k]) == (i2, j2) by {
        assert(scanned(i2, j2, i, j));
    }
}

proof fn lemma_next_row(g: Seq<Seq<i16>>, r: Seq<(usize, usize, usize)>, i: int)
    requires
        ranked_upto(g, r, i, g.len() as int),
        0 <= i < g.len(),
    ensures
        ranked_upto(g, r, i + 1, 0),
{
    assert forall|i2: int, j2: int|
        0 <= i2 < g.len() && 0 <= j2 < g.len() && scanned(i2, j2, i + 1, 0) && #[trigger] g[i2][j2]
            == UNKNOWN implies exists|k: int| 0 <= k < r.len() && #[trigger] cell_at(r[k]) == (i2, j2) by {
        assert(scanned(i2, j2, i, g.len() as int));
    }
}

proof fn lemma_ranked_done(g: Seq<Seq<i16>>, r: Seq<(usize, usize, usize)>)
    requires
        ranked_upto(g, r, g.len() as int, 0),
    ensures
        ranked(g, r),
{
    assert forall|i2: int, j2: int|
        0 <= i2 < g.len() && 0 <= j2 < g.len() && #[trigger] g[i2][j2] == UNKNOWN implies exists|k: int|
        0 <= k < r.len() && #[trigger] cell_at(r[k]) == (i2, j2) by {
        assert(scanned(i2, j2, g.len() as int, 0));
    }
}

/// How many of the four neighbours of cell (row, collumn) are colored.
pub fn get_neighbours_solved(board: &Vec<Vec<i16>>, row: usize, collumn: usize) -> (r: i8)
    requires
        well_formed(grid_of(*board)),
        row < board.len(),
        collumn < board.len(),
    ensures
        r as int == neighbours_solved(grid_of(*board), row as int, collumn as int),
{
    let ghost g = grid_of(*board);
    let n = board.len();
    proof {
        assert(g[row as int].len() == n);
        assert(board@[row as int]@ == g[row as int]);
        if row > 0 {
            assert(g[row - 1].len() == n);
            assert(board@[row - 1]@ == g[row - 1]);
        }
        if row + 1 < n {
            assert(g[row + 1].len() == n);
            assert(board@[row + 1]@ == g[row + 1]);
        }
    }
    let mut neighbours_solved: i8 = 0;
    if row != 0 && board[row - 1][collumn] != UNKNOWN {
        neighbours_solved += 1;
    }
    if row != n - 1 && board[row + 1][collumn] != UNKNOWN {
        neighbours_solved += 1;
    }
    if collumn != 0 && board[row][collumn - 1] != UNKNOWN {
        neighbours_solved += 1;
    }
    if collumn != n - 1 && board[row][collumn + 1] != UNKNOWN {
        neighbours_solved += 1;
    }
    neighbours_solved
}

/// Every unknown cell with its score, sorted by score from high to low; cells of
/// equal score keep row-major order.
pub fn get_useful_spots(board: &Vec<Vec<i16>>, boardsize: i16) -> (r: Vec<(usize, usize, usize)>)
    requires
        well_formed(grid_of(*board)),
        boardsize as int == board.len(),
        !no_unknown(grid_of(*board)),
    ensures
        ranked(grid_of(*board), r@),
        r.len() == unknowns(grid_of(*board)),
{
    let ghost g = grid_of(*board);
    let n = board.len();
    proof {
        assert(g == grid_of(*board));
    }
    let mut filled_in_row: Vec<usize> = Vec::new();
    let mut filled_in_collumn: Vec<usize> = Vec::new();
    let mut m: usize = 0;
    while m < n
        invariant
            n == board.len(),
            n == g.len(),
            g == grid_of(*board),
            n <= 32767,
            well_formed(g),
            m <= n,
            filled_in_row.len() == m,
            filled_in_collumn.len() == m,
            forall|k: int| 0 <= k < m ==> #[trigger] filled_in_row@[k] == filled(g[k]),
            forall|k: int| 0 <= k < m ==> #[trigger] filled_in_collumn@[k] == filled(col(g, k)),
            forall|k: int| 0 <= k < m ==> #[trigger] filled_in_row@[k] <= 2 * n,
            forall|k: int| 0 <= k < m ==> #[trigger] filled_in_collumn@[k] <= 2 * n,
        decreases n - m,
    {
        assert(board@[m as int]@ == g[m as int]);
        let (w, b) = count_colors(&board[m]);
        let c = get_col(board, m);
        let (cw, cb) = count_colors(&c);
        proof {
            lemma_count_bound(g[m as int], WHITE);
            lemma_count_bound(g[m as int], BLACK);
            lemma_count_bound(c@, WHITE);
            lemma_count_bound(c@, BLACK);
            assert(g[m as int].len() == n);
        }
        filled_in_row.push(w + b);
        filled_in_collumn.push(cw + cb);
        m += 1;
    }
    let mut out: Vec<(usize, usize, usize)> = Vec::new();
    let mut i: usize = 0;
    while i < n
        invariant
            n == board.len(),
            n == g.len(),
            g == grid_of(*board),
            n <= 32767,
            well_formed(g),
            filled_in_row.len() == n,
            filled_in_collumn.len() == n,
            forall|k: int| 0 <= k < n ==> #[trigger] filled_in_row@[k] == filled(g[k]),
            forall|k: int| 0 <= k < n ==> #[trigger] filled_in_collumn@[k] == filled(col(g, k)),
            forall|k: int| 0 <= k < n ==> #[trigger] filled_in_row@[k] <= 2 * n,
            forall|k: int| 0 <= k < n ==> #[trigger] filled_in_collumn@[k] <= 2 * n,
            i <= n,
            ranked_upto(g, out@, i as int, 0),
            out.len() == unknowns_upto(g, i as int),
        decreases n - i,
    {
        let mut j: usize = 0;
        assert(board@[i as int]@ == g[i as int]);
        assert(g[i as int].len() == n);
        while j < n
            invariant
                n == board.len(),
                n == g.len(),
                g == grid_of(*board),
                n <= 32767,
                well_formed(g),
                filled_in_row.len() == n,
                filled_in_collumn.len() == n,
                forall|k: int| 0 <= k < n ==> #[trigger] filled_in_row@[k] == filled(g[k]),
                forall|k: int| 0 <= k < n ==> #[trigger] filled_in_collumn@[k] == filled(col(g, k)),
                forall|k: int| 0 <= k < n ==> #[trigger] filled_in_row@[k] <= 2 * n,
                forall|k: int| 0 <= k < n ==> #[trigger] filled_in_collumn@[k] <= 2 * n,
                i < n,
                j <= n,
                board@[i as int]@ == g[i as int],
                g[i as int].len() == n,
                ranked_upto(g, out@, i as int, j as int),
                out.len() == unknowns_upto(g, i as int) + count(g[i as int].subrange(0, j as int), UNKNOWN),
            decreases n - j,
        {
            proof {
                lemma_count_push(g[i as int], j as int, UNKNOWN);
                lemma_count_bound(g[i as int].subrange(0, j as int), UNKNOWN);
            }
            if board[i][j] == UNKNOWN {
                let nb = get_neighbours_solved(board, i, j);
                let sc: usize = nb as usize * 100 + filled_in_row[i] + filled_in_collumn[j];
                proof {
                    assert(board@[i as int]@[j as int] == UNKNOWN);
                    assert(sc == score(g, i as int, j as int));
                }
                let mut p: usize = 0;
                while p < out.len() && out[p].2 >= sc
                    invariant
                        p <= out.len(),
                        forall|k: int| 0 <= k < p ==> (#[trigger] out@[k]).2 >= sc,
                    decreases out.len() - p,
                {
                    p += 1;
                }
                let ghost old_out = out@;
                out.insert(p, (i, j, sc));
                proof {
                    lemma_insert_ranked(g, old_out, i as int, j as int, p as int, sc);
                }
            }
            proof {
                if g[i as int][j as int] != UNKNOWN {
                    lemma_skip_known(g, out@, i as int, j as int);
                }
            }
            j += 1;
        }
        proof {
            lemma_next_row(g, out@, i as int);
            assert(g[i as int].subrange(0, n as int) =~= g[i as int]);
        }
        i += 1;
    }
    proof {
        lemma_ranked_done(g, out@);
    }
    out
}

} // verus!
