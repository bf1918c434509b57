use vstd::prelude::*;
use crate::grid::{
    col, complete_lines_distinct, count, get_col, grid_of, is_complete, lemma_count_push, line_ok,
    solved, transpose, triple_at, valid, well_formed, BLACK, UNKNOWN, WHITE,
};

verus! {

/// Whether a line has no run of three and neither color on more than half of it.
pub fn line_is_ok(s: &Vec<i16>) -> (r: bool)
    ensures
        r == line_ok(s@),
{
    let mut k: usize = 0;
    while s.len() >= 2 && k < s.len() - 2
        invariant
            forall|k2: int| 0 <= k2 < k ==> !triple_at(s@, k2),
        decreases s.len() - k,
    {
        if s[k] != UNKNOWN && s[k] == s[k + 1] && s[k + 1] == s[k + 2] {
            assert(triple_at(s@, k as int));
            return false;
        }
        k += 1;
    }
    let mut white: usize = 0;
    let mut black: usize = 0;
    let mut m: usize = 0;
    while m < s.len()
        invariant
            m <= s.len(),
            white == count(s@.subrange(0, m as int), WHITE),
            black == count(s@.subrange(0, m as int), BLACK),
            white <= m,
            black <= m,
        decreases s.len() - m,
    {
        proof {
            lemma_count_push(s@, m as int, WHITE);
            lemma_count_push(s@, m as int, BLACK);
        }
        if s[m] == WHITE {
            white += 1;
        } else if s[m] == BLACK {
            black += 1;
        }
        m += 1;
    }
    assert(s@.subrange(0, s.len() as int) =~= s@);
    white <= s.len() / 2 && black <= s.len() / 2
}

/// Whether no cell of the line is unknown.
pub fn line_is_complete(s: &Vec<i16>) -> (r: bool)
    ensures
        r == is_complete(s@),
{
    let mut k: usize = 0;
    while k < s.len()
        invariant
            forall|k2: int| 0 <= k2 < k ==> s@[k2] != UNKNOWN,
        decreases s.len() - k,
    {
        if s[k] == UNKNOWN {
            return false;
        }
        k += 1;
    }
    true
}

/// Whether two lines are equal.
pub fn lines_equal(a: &Vec<i16>, b: &Vec<i16>) -> (r: bool)
    ensures
        r == (a@ == b@),
{
    if a.len() != b.len() {
        return false;
    }
    let mut k: usize = 0;
    while k < a.len()
        invariant
            a.len() == b.len(),
            forall|k2: int| 0 <= k2 < k ==> a@[k2] == b@[k2],
        decreases a.len() - k,
    {
        if a[k] != b[k] {
            return false;
        }
        k += 1;
    }
    assert(a@ =~= b@);
    true
}

/// Whether no two distinct complete lines of the list are equal.
pub fn complete_lines_are_distinct(ls: &Vec<Vec<i16>>) -> (r: bool)
    ensures
        r == complete_lines_distinct(grid_of(*ls)),
{
    let ghost g = grid_of(*ls);
    let n = ls.len();
    let mut a: usize = 0;
    while a < n
        invariant
            g == grid_of(*ls),
            n == ls.len(),
            forall|a2: int, b2: int|
                0 <= a2 < a && a2 < b2 < n && is_complete(#[trigger] g[a2]) && is_complete(
                    #[trigger] g[b2],
                ) ==> g[a2] != g[b2],
        decreases n - a,
    {
        assert(g[a as int] == ls@[a as int]@);
        if line_is_complete(&ls[a]) {
            let mut b: usize = a + 1;
            while b < n
                invariant
                    g == grid_of(*ls),
                    n == ls.len(),
                    a < b <= n,
                    is_complete(g[a as int]),
                    forall|a2: int, b2: int|
                        0 <= a2 < a && a2 < b2 < n && is_complete(#[trigger] g[a2]) && is_complete(
                            #[trigger] g[b2],
                        ) ==> g[a2] != g[b2],
                    forall|b2: int| a < b2 < b && is_complete(#[trigger] g[b2]) ==> g[a as int] != g[b2],
                decreases n - b,
            {
                if line_is_complete(&ls[b]) && lines_equal(&ls[a], &ls[b]) {
                    assert(g[b as int] == ls@[b as int]@);
                    assert(g[a as int] == g[b as int]);
                    return false;
                }
                b += 1;
            }
        }
        a += 1;
    }
    assert forall|a2: int, b2: int|
        0 <= a2 < g.len() && 0 <= b2 < g.len() && a2 != b2 && is_complete(#[trigger] g[a2])
            && is_complete(#[trigger] g[b2]) implies g[a2] != g[b2] by {
        if b2 < a2 {
            assert(g[b2] != g[a2]);
        }
    }
    true
}

/// The columns of a board as rows.
pub fn transpose_board(b: &Vec<Vec<i16>>) -> (r: Vec<Vec<i16>>)
    requires
        well_formed(grid_of(*b)),
    ensures
        grid_of(r) == transpose(grid_of(*b)),
{
    let mut r: Vec<Vec<i16>> = Vec::new();
    let mut j: usize = 0;
    while j < b.len()
        invariant
            well_formed(grid_of(*b)),
            j <= b.len(),
            r.len() == j,
            forall|m: int| 0 <= m < j ==> (#[trigger] r@[m])@ == transpose(grid_of(*b))[m],
        decreases b.len() - j,
    {
        let c = get_col(b, j);
        r.push(c);
        j += 1;
    }
    assert(grid_of(r) =~= transpose(grid_of(*b)));
    r
}

/// Whether no two complete rows are equal and no two complete columns are equal.
pub fn board_has_no_duplicate_rows_or_collumns(board: Vec<Vec<i16>>) -> (r: bool)
    requires
        well_formed(grid_of(board)),
    ensures
        r == (complete_lines_distinct(grid_of(board)) && complete_lines_distinct(
            transpose(grid_of(board)),
        )),
{
    if !complete_lines_are_distinct(&board) {
        return false;
    }
    let columns = transpose_board(&board);
    complete_lines_are_distinct(&columns)
}

/// Whether the board breaks no rule yet: no run of three in a line, no color
/// on more than half of a line, no two equal complete rows or columns.
pub fn board_is_valid(board: Vec<Vec<i16>>) -> (r: bool)
    requires
        well_formed(grid_of(board)),
    ensures
        r == valid(grid_of(board)),
{
    let ghost g = grid_of(board);
    let n = board.len();
    let mut i: usize = 0;
    while i < n
        invariant
            g == grid_of(board),
            n == board.len(),
            forall|i2: int| 0 <= i2 < i ==> line_ok(#[trigger] g[i2]),
        decreases n - i,
    {
        assert(board@[i as int]@ == g[i as int]);
        if !line_is_ok(&board[i]) {
            return false;
        }
        i += 1;
    }
    let mut j: usize = 0;
    while j < n
        invariant
            g == grid_of(board),
            well_formed(g),
            n == board.len(),
            forall|j2: int| 0 <= j2 < j ==> line_ok(#[trigger] col(g, j2)),
        decreases n - j,
    {
        let c = get_col(&board, j);
        if !line_is_ok(&c) {
            return false;
        }
        j += 1;
    }
    board_has_no_duplicate_rows_or_collumns(board)
}

/// Whether every cell is colored and the board is valid.
pub fn is_solved(board: Vec<Vec<i16>>) -> (r: bool)
    requires
        well_formed(grid_of(board)),
    ensures
        r == solved(grid_of(board)),
{
    let ghost g = grid_of(board);
    let n = board.len();
    let mut i: usize = 0;
    while i < n
        invariant
            g == grid_of(board),
            well_formed(g),
            n == board.len(),
            forall|i2: int, j2: int| 0 <= i2 < i && 0 <= j2 < n ==> #[trigger] g[i2][j2] != UNKNOWN,
        decreases n - i,
    {
        let mut j: usize = 0;
        assert(g[i as int].len() == n);
        assert(board@[i as int]@ == g[i as int]);
        while j < n
            invariant
                g == grid_of(board),
                well_formed(g),
                n == board.len(),
                i < n,
                board@[i as int]@ == g[i as int],
                g[i as int].len() == n,
                forall|i2: int, j2: int| 0 <= i2 < i && 0 <= j2 < n ==> #[trigger] g[i2][j2] != UNKNOWN,
                forall|j2: int| 0 <= j2 < j ==> #[trigger] g[i as int][j2] != UNKNOWN,
            decreases n - j,
        {
            if board[i][j] == UNKNOWN {
                assert(g[i as int][j as int] == UNKNOWN);
                return false;
            }
            j += 1;
        }
        i += 1;
    }
    board_is_valid(board)
}

/// Soundness of the validator: a solved grid is valid, and a grid with a run of
/// three or a color on more than half of some row or column is neither valid nor
/// solved.
pub proof fn lemma_validator_sound(g: Seq<Seq<i16>>, i: int, k: int)
    requires
        well_formed(g),
        0 <= i < g.len(),
    ensures
        solved(g) ==> valid(g),
        (0 <= k && k + 2 < g.len() && triple_at(g[i], k)) ==> !valid(g) && !solved(g),
        (0 <= k && k + 2 < g.len() && triple_at(col(g, i), k)) ==> !valid(g) && !solved(g),
        (count(g[i], WHITE) > g.len() / 2 || count(g[i], BLACK) > g.len() / 2) ==> !valid(g),
        (count(col(g, i), WHITE) > g.len() / 2 || count(col(g, i), BLACK) > g.len() / 2) ==> !valid(g),
{
    assert(g[i].len() == g.len());
    assert(!line_ok(g[i]) ==> !valid(g));
    assert(!line_ok(col(g, i)) ==> !valid(g));
}

} // verus!
