use vstd::prelude::*;
use crate::grid::{
    col, copy_board, count, extends, grid_of, is_cell, is_complete, keeps_solutions,
    lemma_count_mono, lemma_unknowns_mono, line_ok, no_unknown, set_cell, solved, transpose,
    triple_at, unknowns, valid, well_formed, BLACK, UNKNOWN, WHITE,
};
use crate::propagate::{
    boards_equal, closed, inference_step, lemma_extends_trans, lemma_propagation_unique, propagation_of, lemma_extends_refl, lemma_forced_cell, lemma_step_trans,
    propagated, solve_deterministic,
};
use crate::ranker::{cell_at, get_useful_spots, ranked};
use crate::validator::{board_is_valid, is_solved};

verus! {

/// A line whose completion obeys the line rules obeys them too.
pub proof fn lemma_line_of_completion(l: Seq<i16>, t: Seq<i16>)
    requires
        l.len() == t.len(),
        forall|k: int| 0 <= k < l.len() && l[k] != UNKNOWN ==> t[k] == l[k],
        line_ok(t),
    ensures
        line_ok(l),
        is_complete(l) ==> t == l,
{
    assert forall|k: int| 0 <= k && k + 2 < l.len() implies !#[trigger] triple_at(l, k) by {
        if triple_at(l, k) {
            assert(triple_at(t, k));
        }
    }
    lemma_count_mono(l, t, WHITE);
    lemma_count_mono(l, t, BLACK);
    if is_complete(l) {
        assert(t =~= l);
    }
}

/// A grid that some solved grid completes is valid: validity never rejects a
/// grid on the way to a solution.
pub proof fn lemma_valid_if_completable(p: Seq<Seq<i16>>, s: Seq<Seq<i16>>)
    requires
        well_formed(p),
        solved(s),
        extends(s, p),
    ensures
        valid(p),
{
    let n = p.len();
    assert forall|i: int| 0 <= i < n implies line_ok(#[trigger] p[i]) && (is_complete(p[i]) ==> s[i] == p[i]) by {
        assert(line_ok(s[i]));
        assert forall|k: int| 0 <= k < p[i].len() && p[i][k] != UNKNOWN implies s[i][k] == p[i][k] by {}
        lemma_line_of_completion(p[i], s[i]);
    }
    assert forall|j: int| 0 <= j < n implies line_ok(#[trigger] col(p, j)) && (is_complete(col(p, j)) ==> col(s, j) == col(p, j)) by {
        assert(line_ok(col(s, j)));
        assert forall|k: int| 0 <= k < n && col(p, j)[k] != UNKNOWN implies col(s, j)[k] == col(p, j)[k] by {
            assert(p[k].len() == n);
        }
        lemma_line_of_completion(col(p, j), col(s, j));
    }
    assert forall|a: int, b: int|
        0 <= a < n && 0 <= b < n && a != b && is_complete(#[trigger] p[a])
            && is_complete(#[trigger] p[b]) implies p[a] != p[b] by {
        if p[a] == p[b] {
            assert(s[a] == p[a] && s[b] == p[b]);
            assert(is_complete(s[a]) && is_complete(s[b]));
        }
    }
    let tp = transpose(p);
    let ts = transpose(s);
    assert forall|a: int, b: int|
        0 <= a < n && 0 <= b < n && a != b && is_complete(#[trigger] tp[a])
            && is_complete(#[trigger] tp[b]) implies tp[a] != tp[b] by {
        assert(tp[a] == col(p, a) && tp[b] == col(p, b));
        if tp[a] == tp[b] {
            assert(ts[a] == col(s, a) && ts[b] == col(s, b));
            assert(ts[a] == tp[a] && ts[b] == tp[b]);
            assert(is_complete(ts[a]) && is_complete(ts[b]));
        }
    }
}

/// Giving cell (i, j) of `g` the color `v` and propagating can end in a valid grid.
#[verifier::opaque]
pub open spec fn tentative_valid(g: Seq<Seq<i16>>, i: int, j: int, v: i16) -> bool {
    exists|p: Seq<Seq<i16>>| #[trigger] propagation_of(g.update(i, g[i].update(j, v)), p) && valid(p)
}

/// One-cell lookahead forces no cell of `g`: on every unknown cell both colors
/// can propagate to a valid grid.
pub open spec fn lookahead_stuck(g: Seq<Seq<i16>>) -> bool {
    forall|i: int, j: int|
        0 <= i < g.len() && 0 <= j < g.len() && #[trigger] g[i][j] == UNKNOWN ==> tentative_valid(
            g,
            i,
            j,
            WHITE,
        ) && tentative_valid(g, i, j, BLACK)
}

/// Whether some cell of the board is unknown.
pub fn has_unknown_cell(board: &Vec<Vec<i16>>) -> (r: bool)
    requires
        well_formed(grid_of(*board)),
    ensures
        r == !no_unknown(grid_of(*board)),
{
    let ghost g = grid_of(*board);
    let n = board.len();
    let mut i: usize = 0;
    while i < n
        invariant
            g == grid_of(*board),
            well_formed(g),
            n == board.len(),
            forall|i2: int, j2: int| 0 <= i2 < i && 0 <= j2 < n ==> #[trigger] g[i2][j2] != UNKNOWN,
        decreases n - i,
    {
        assert(g[i as int].len() == n);
        assert(board@[i as int]@ == g[i as int]);
        let mut j: usize = 0;
        while j < n
            invariant
                g == grid_of(*board),
                well_formed(g),
                n == board.len(),
                i < n,
                board@[i as int]@ == g[i as int],
                g[i as int].len() == n,
                forall|i2: int, j2: int| 0 <= i2 < i && 0 <= j2 < n ==> #[trigger] g[i2][j2] != UNKNOWN,
                forall|j2: int| 0 <= j2 < j ==> #[trigger] g[i as int][j2] != UNKNOWN,
            decreases n - j,
        {
            if board[i][j] == UNKNOWN {
                assert(g[i as int][j as int] == UNKNOWN);
                return true;
            }
            j += 1;
        }
        i += 1;
    }
    false
}

/// Tries color `v` on the unknown cell (i, j) in a copy of the board, propagates,
/// and says whether the result is still valid. When it is not, no solution of the
/// board gives the cell that color.
pub fn try_color(board: &Vec<Vec<i16>>, boardsize: i16, i: usize, j: usize, v: i16) -> (r: bool)
    requires
        well_formed(grid_of(*board)),
        boardsize as int == board.len(),
        i < board.len(),
        j < board.len(),
        grid_of(*board)[i as int][j as int] == UNKNOWN,
        v == WHITE || v == BLACK,
    ensures
        r == tentative_valid(grid_of(*board), i as int, j as int, v),
        !r ==> forall|s: Seq<Seq<i16>>| #[trigger] solved(s) && #[trigger] extends(s, grid_of(*board))
            ==> s[i as int][j as int] != v,
{
    let ghost g = grid_of(*board);
    let mut test = copy_board(board);
    assert(test@[i as int]@ == g[i as int]);
    set_cell(&mut test, i, j, v);
    let ghost gt = grid_of(test);
    assert forall|i2: int| 0 <= i2 < gt.len() implies (#[trigger] gt[i2]).len() == gt.len() by {
        assert(g[i2].len() == g.len());
    }
    assert forall|i2: int, j2: int| 0 <= i2 < gt.len() && 0 <= j2 < gt.len() implies is_cell(
        #[trigger] gt[i2][j2],
    ) by {
        assert(g[i2].len() == g.len());
    }
    assert(gt == g.update(i as int, g[i as int].update(j as int, v)));
    let p = solve_deterministic(test, boardsize);
    let ghost gp = grid_of(p);
    let ok = board_is_valid(p);
    proof {
        reveal(tentative_valid);
        if ok {
            assert(propagation_of(gt, gp) && valid(gp));
        } else {
            assert forall|q: Seq<Seq<i16>>| #[trigger] propagation_of(gt, q) implies !valid(q) by {
                lemma_propagation_unique(gt, q, gp);
            }
        }
        if !ok {
            assert forall|s: Seq<Seq<i16>>| #[trigger] solved(s) && #[trigger] extends(s, g) implies s[i as int][j as int]
                != v by {
                if s[i as int][j as int] == v {
                    assert forall|i2: int, j2: int|
                        0 <= i2 < gt.len() && 0 <= j2 < gt[i2].len() && #[trigger] gt[i2][j2] != UNKNOWN implies s[i2][j2]
                        == gt[i2][j2] by {
                        assert(g[i2].len() == g.len());
                        if i2 != i || j2 != j {
                            assert(gt[i2][j2] == g[i2][j2]);
                        }
                    }
                    assert(extends(s, gt));
                    assert(extends(s, grid_of(p)));
                    lemma_valid_if_completable(grid_of(p), s);
                }
            }
        }
    }
    ok
}

/// Where no solution gives a cell the color `v`, every solution gives it the
/// other color `w`.
pub proof fn lemma_other_color(g: Seq<Seq<i16>>, i: int, j: int, v: i16, w: i16)
    requires
        0 <= i < g.len(),
        0 <= j < g.len(),
        v == WHITE || v == BLACK,
        w == 1 - v,
        forall|s: Seq<Seq<i16>>| #[trigger] solved(s) && #[trigger] extends(s, g) ==> s[i][j] != v,
    ensures
        forall|s: Seq<Seq<i16>>| #[trigger] solved(s) && #[trigger] extends(s, g) ==> s[i][j] == w,
{
    assert forall|s: Seq<Seq<i16>>| #[trigger] solved(s) && #[trigger] extends(s, g) implies s[i][j] == w by {
        assert(is_cell(s[i][j]));
    }
}

/// Gives the unknown cell (i, j) the color that every solution gives it, then
/// propagates.
pub fn commit(board: Vec<Vec<i16>>, boardsize: i16, i: usize, j: usize, v: i16) -> (r: Vec<Vec<i16>>)
    requires
        well_formed(grid_of(board)),
        boardsize as int == board.len(),
        i < board.len(),
        j < board.len(),
        grid_of(board)[i as int][j as int] == UNKNOWN,
        v == WHITE || v == BLACK,
        forall|s: Seq<Seq<i16>>| #[trigger] solved(s) && #[trigger] extends(s, grid_of(board))
            ==> s[i as int][j as int] == v,
    ensures
        inference_step(grid_of(board), grid_of(r)),
        propagation_of(grid_of(board).update(i as int, grid_of(board)[i as int].update(j as int, v)), grid_of(r)),
        closed(grid_of(r)),
        unknowns(grid_of(r)) < unknowns(grid_of(board)),
{
    let ghost g = grid_of(board);
    let mut b = board;
    assert(b@[i as int]@ == g[i as int]);
    set_cell(&mut b, i, j, v);
    proof {
        lemma_forced_cell(g, i as int, j as int, v);
    }
    let ghost g1 = grid_of(b);
    let r = solve_deterministic(b, boardsize);
    proof {
        lemma_step_trans(g, g1, grid_of(r));
        lemma_unknowns_mono(g1, g);
        lemma_unknowns_mono(grid_of(r), g1);
    }
    r
}

/// Cell (i, j), unknown in `g`, was decided first on the way from `g` to `r`:
/// white failed and black was committed, or white held, black failed and white
/// was committed; `r` holds the propagation of that commit.
#[verifier::opaque]
pub open spec fn committed_from(g: Seq<Seq<i16>>, r: Seq<Seq<i16>>, i: int, j: int) -> bool {
    &&& 0 <= i < g.len()
    &&& 0 <= j < g.len()
    &&& g[i][j] == UNKNOWN
    &&& if !tentative_valid(g, i, j, WHITE) {
        exists|p: Seq<Seq<i16>>| #[trigger] propagation_of(g.update(i, g[i].update(j, BLACK)), p) && extends(r, p)
    } else {
        !tentative_valid(g, i, j, BLACK) && exists|p: Seq<Seq<i16>>|
            #[trigger] propagation_of(g.update(i, g[i].update(j, WHITE)), p) && extends(r, p)
    }
}

proof fn lemma_committed_later(g: Seq<Seq<i16>>, r1: Seq<Seq<i16>>, r2: Seq<Seq<i16>>, i: int, j: int)
    requires
        committed_from(g, r1, i, j),
        extends(r2, r1),
    ensures
        committed_from(g, r2, i, j),
{
    reveal(committed_from);
    if !tentative_valid(g, i, j, WHITE) {
        let p = choose|p: Seq<Seq<i16>>| #[trigger] propagation_of(g.update(i, g[i].update(j, BLACK)), p) && extends(r1, p);
        lemma_extends_trans(r2, r1, p);
    } else {
        let p = choose|p: Seq<Seq<i16>>| #[trigger] propagation_of(g.update(i, g[i].update(j, WHITE)), p) && extends(r1, p);
        lemma_extends_trans(r2, r1, p);
    }
}

/// Tries white and then black on the unknown cell (i, j). Where white fails,
/// commits black; where white holds and black fails, commits white; where both
/// hold, returns `None` and leaves the board alone.
pub fn decide_cell(board: &Vec<Vec<i16>>, boardsize: i16, i: usize, j: usize) -> (r: Option<Vec<Vec<i16>>>)
    requires
        well_formed(grid_of(*board)),
        boardsize as int == board.len(),
        i < board.len(),
        j < board.len(),
        grid_of(*board)[i as int][j as int] == UNKNOWN,
    ensures
        r is None <==> (tentative_valid(grid_of(*board), i as int, j as int, WHITE) && tentative_valid(
            grid_of(*board),
            i as int,
            j as int,
            BLACK,
        )),
        r matches Some(b) ==> {
            &&& inference_step(grid_of(*board), grid_of(b))
            &&& closed(grid_of(b))
            &&& unknowns(grid_of(b)) < unknowns(grid_of(*board))
            &&& committed_from(grid_of(*board), grid_of(b), i as int, j as int)
        },
{
    let ghost g = grid_of(*board);
    reveal(committed_from);
    if !try_color(board, boardsize, i, j, WHITE) {
        proof {
            lemma_other_color(g, i as int, j as int, WHITE, BLACK);
        }
        let b = commit(copy_board(board), boardsize, i, j, BLACK);
        proof {
            lemma_extends_refl(grid_of(b));
        }
        Some(b)
    } else if !try_color(board, boardsize, i, j, BLACK) {
        proof {
            lemma_other_color(g, i as int, j as int, BLACK, WHITE);
        }
        let b = commit(copy_board(board), boardsize, i, j, WHITE);
        proof {
            lemma_extends_refl(grid_of(b));
        }
        Some(b)
    } else {
        None
    }
}

/// What a pass of guess and propagate has kept on its way from `g0` to `cur`.
#[verifier::opaque]
pub open spec fn step_progress(g0: Seq<Seq<i16>>, cur: Seq<Seq<i16>>) -> bool {
    &&& inference_step(g0, cur)
    &&& cur == g0 || unknowns(cur) < unknowns(g0)
    &&& closed(g0) ==> closed(cur)
    &&& lookahead_stuck(g0) ==> cur == g0
    &&& cur != g0 ==> closed(cur)
    &&& cur != g0 ==> exists|i0: int, j0: int| #[trigger] committed_from(g0, cur, i0, j0)
}

proof fn lemma_progress_commit(g0: Seq<Seq<i16>>, gc: Seq<Seq<i16>>, b: Seq<Seq<i16>>, i: int, j: int)
    requires
        step_progress(g0, gc),
        0 <= i < gc.len(),
        0 <= j < gc.len(),
        gc[i][j] == UNKNOWN,
        !(tentative_valid(gc, i, j, WHITE) && tentative_valid(gc, i, j, BLACK)),
        inference_step(gc, b),
        closed(b),
        unknowns(b) < unknowns(gc),
        committed_from(gc, b, i, j),
    ensures
        step_progress(g0, b),
        well_formed(b),
        unknowns(b) < unknowns(gc),
{
    reveal(step_progress);
    lemma_step_trans(g0, gc, b);
    if lookahead_stuck(g0) {
        assert(gc == g0);
        assert(g0[i][j] == UNKNOWN);
    }
    if gc != g0 {
        let (i0, j0) = choose|i0: int, j0: int| #[trigger] committed_from(g0, gc, i0, j0);
        lemma_committed_later(g0, gc, b, i0, j0);
    }
}

proof fn lemma_progress_end(g0: Seq<Seq<i16>>, cur: Seq<Seq<i16>>)
    requires
        step_progress(g0, cur),
    ensures
        inference_step(g0, cur),
        cur == g0 || unknowns(cur) < unknowns(g0),
        closed(g0) ==> closed(cur),
        lookahead_stuck(g0) ==> cur == g0,
        cur != g0 ==> closed(cur),
        cur != g0 ==> exists|i0: int, j0: int| #[trigger] committed_from(g0, cur, i0, j0),
{
    reveal(step_progress);
}

/// One pass of guess and propagate: for each unknown cell, best ranked first,
/// try white and then black; where one color leads to an invalid grid, commit
/// the other, propagate, and rank the cells anew.
pub fn step_indeterministic(board: Vec<Vec<i16>>, boardsize: i16) -> (r: Vec<Vec<i16>>)
    requires
        well_formed(grid_of(board)),
        boardsize as int == board.len(),
    ensures
        inference_step(grid_of(board), grid_of(r)),
        grid_of(r) == grid_of(board) || unknowns(grid_of(r)) < unknowns(grid_of(board)),
        grid_of(r) == grid_of(board) ==> lookahead_stuck(grid_of(board)),
        lookahead_stuck(grid_of(board)) ==> grid_of(r) == grid_of(board),
        grid_of(r) != grid_of(board) ==> closed(grid_of(r)),
        grid_of(r) != grid_of(board) ==> exists|i: int, j: int| #[trigger] committed_from(grid_of(board), grid_of(r), i, j),
        closed(grid_of(board)) ==> closed(grid_of(r)),
{
    let ghost g0 = grid_of(board);
    let mut cur = board;
    proof {
        lemma_extends_refl(g0);
        reveal(step_progress);
    }
    if !has_unknown_cell(&cur) {
        return cur;
    }
    let mut spots = get_useful_spots(&cur, boardsize);
    let mut idx: usize = 0;
    while idx < spots.len()
        invariant
            g0 == grid_of(board),
            boardsize as int == cur.len(),
            0 <= boardsize,
            well_formed(grid_of(cur)),
            step_progress(g0, grid_of(cur)),
            ranked(grid_of(cur), spots@),
            idx <= spots.len(),
            grid_of(cur) == g0 ==> forall|k: int|
                0 <= k < idx ==> tentative_valid(g0, (#[trigger] spots@[k]).0 as int, spots@[k].1 as int, WHITE)
                    && tentative_valid(g0, spots@[k].0 as int, spots@[k].1 as int, BLACK),
        decreases unknowns(grid_of(cur)), spots.len() - idx,
    {
        let ghost gc = grid_of(cur);
        let (i, j, _) = spots[idx];
        assert(gc[i as int][j as int] == UNKNOWN);
        idx += 1;
        let decided = decide_cell(&cur, boardsize, i, j);
        match decided {
            Some(b) => {
                proof {
                    lemma_progress_commit(g0, gc, grid_of(b), i as int, j as int);
                }
                cur = b;
                if !has_unknown_cell(&cur) {
                    proof {
                        lemma_progress_end(g0, grid_of(cur));
                    }
                    return cur;
                }
                spots = get_useful_spots(&cur, boardsize);
                idx = 0;
            },
            None => {},
        }
    }
    proof {
        lemma_progress_end(g0, grid_of(cur));
        if grid_of(cur) == g0 {
            assert forall|i: int, j: int|
                0 <= i < g0.len() && 0 <= j < g0.len() && #[trigger] g0[i][j] == UNKNOWN implies tentative_valid(
                g0, i, j, WHITE) && tentative_valid(g0, i, j, BLACK) by {
                let k = choose|k: int| 0 <= k < spots@.len() && #[trigger] cell_at(spots@[k]) == (i, j);
                assert(spots@[k].0 as int == i && spots@[k].1 as int == j);
            }
        }
    }
    cur
}

/// Solves the board as far as propagation and one-cell lookahead reach:
/// propagation first, then passes of guess and propagate until the board is
/// solved or a pass changes nothing.
pub fn solve_full(board: Vec<Vec<i16>>, boardsize: i16) -> (r: Vec<Vec<i16>>)
    requires
        well_formed(grid_of(board)),
        boardsize as int == board.len(),
    ensures
        inference_step(grid_of(board), grid_of(r)),
        closed(grid_of(r)),
        solved(grid_of(r)) || lookahead_stuck(grid_of(r)),
        forall|p: Seq<Seq<i16>>| #[trigger] propagation_of(grid_of(board), p) && (solved(p) || lookahead_stuck(p))
            ==> grid_of(r) == p,
{
    let ghost g0 = grid_of(board);
    let mut cur = solve_deterministic(board, boardsize);
    let ghost p0 = grid_of(cur);
    proof {
        assert forall|p: Seq<Seq<i16>>| #[trigger] propagation_of(g0, p) implies p == p0 by {
            lemma_propagation_unique(g0, p, p0);
        }
    }
    if is_solved(copy_board(&cur)) {
        return cur;
    }
    let mut old_board = copy_board(&cur);
    loop
        invariant
            g0 == grid_of(board),
            boardsize as int == cur.len(),
            inference_step(g0, grid_of(cur)),
            closed(grid_of(cur)),
            grid_of(old_board) == grid_of(cur),
            forall|p: Seq<Seq<i16>>| #[trigger] propagation_of(g0, p) ==> p == p0,
            !solved(p0),
            lookahead_stuck(p0) ==> grid_of(cur) == p0,
        decreases unknowns(grid_of(cur)),
    {
        let ghost prev = grid_of(cur);
        cur = step_indeterministic(cur, boardsize);
        proof {
            lemma_step_trans(g0, prev, grid_of(cur));
        }
        if is_solved(copy_board(&cur)) {
            return cur;
        }
        if boards_equal(&cur, &old_board) {
            return cur;
        }
        old_board = copy_board(&cur);
    }
}

/// Search safety: a grid that `step_indeterministic`, `commit` or `solve_full`
/// returned for `g` is completed by every solution of `g`, so no committed color
/// contradicts a solution.
pub proof fn lemma_search_safety(g: Seq<Seq<i16>>, r: Seq<Seq<i16>>, s: Seq<Seq<i16>>)
    requires
        inference_step(g, r),
        solved(s),
        extends(s, g),
    ensures
        extends(s, r),
        forall|i: int, j: int| 0 <= i < r.len() && 0 <= j < r.len() && r[i][j] != UNKNOWN ==> #[trigger] s[i][j] == r[i][j],
{
    assert forall|i: int, j: int| 0 <= i < r.len() && 0 <= j < r.len() && r[i][j] != UNKNOWN implies #[trigger] s[i][j] == r[i][j] by {
        assert(r[i].len() == r.len());
    }
}

} // verus!
