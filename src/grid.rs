use vstd::prelude::*;

verus! {

/// The value of a cell that has no color yet.
pub const UNKNOWN: i16 = -1;

/// The value of a white cell.
pub const WHITE: i16 = 0;

/// The value of a black cell.
pub const BLACK: i16 = 1;

/// The mathematical grid held by a board of nested vectors.
pub open spec fn grid_of(b: Vec<Vec<i16>>) -> Seq<Seq<i16>> {
    b@.map_values(|r: Vec<i16>| r@)
}

pub open spec fn is_cell(v: i16) -> bool {
    v == UNKNOWN || v == WHITE || v == BLACK
}

/// Square, and every cell is one of the three states.
pub open spec fn well_formed(g: Seq<Seq<i16>>) -> bool {
    &&& forall|i: int| 0 <= i < g.len() ==> (#[trigger] g[i]).len() == g.len()
    &&& forall|i: int, j: int| 0 <= i < g.len() && 0 <= j < g.len() ==> is_cell(#[trigger] g[i][j])
}

/// Column `j` of the grid, read top to bottom.
pub open spec fn col(g: Seq<Seq<i16>>, j: int) -> Seq<i16> {
    Seq::new(g.len(), |i: int| g[i][j])
}

/// The grid with rows and columns exchanged.
pub open spec fn transpose(g: Seq<Seq<i16>>) -> Seq<Seq<i16>> {
    Seq::new(g.len(), |j: int| col(g, j))
}

/// How many cells of the line hold `v`.
pub open spec fn count(s: Seq<i16>, v: i16) -> nat
    decreases s.len(),
{
    if s.len() == 0 {
        0
    } else {
        count(s.drop_last(), v) + if s.last() == v { 1nat } else { 0nat }
    }
}

pub open spec fn has_unknown(s: Seq<i16>) -> bool {
    exists|k: int| 0 <= k < s.len() && s[k] == UNKNOWN
}

pub open spec fn is_complete(s: Seq<i16>) -> bool {
    forall|k: int| 0 <= k < s.len() ==> s[k] != UNKNOWN
}

/// Three equal colored cells at `k`, `k + 1`, `k + 2`.
pub open spec fn triple_at(s: Seq<i16>, k: int) -> bool {
    s[k] != UNKNOWN && s[k] == s[k + 1] && s[k + 1] == s[k + 2]
}

pub open spec fn has_triple(s: Seq<i16>) -> bool {
    exists|k: int| 0 <= k && k + 2 < s.len() && #[trigger] triple_at(s, k)
}

/// No run of three, and neither color on more than half of the line.
pub open spec fn line_ok(s: Seq<i16>) -> bool {
    &&& !has_triple(s)
    &&& count(s, WHITE) <= s.len() / 2
    &&& count(s, BLACK) <= s.len() / 2
}

/// No two distinct complete lines are equal.
pub open spec fn complete_lines_distinct(ls: Seq<Seq<i16>>) -> bool {
    forall|a: int, b: int|
        0 <= a < ls.len() && 0 <= b < ls.len() && a != b && is_complete(#[trigger] ls[a])
            && is_complete(#[trigger] ls[b]) ==> ls[a] != ls[b]
}

/// The grid breaks no rule of the puzzle yet.
pub open spec fn valid(g: Seq<Seq<i16>>) -> bool {
    &&& forall|i: int| 0 <= i < g.len() ==> line_ok(#[trigger] g[i])
    &&& forall|j: int| 0 <= j < g.len() ==> line_ok(#[trigger] col(g, j))
    &&& complete_lines_distinct(g)
    &&& complete_lines_distinct(transpose(g))
}

pub open spec fn no_unknown(g: Seq<Seq<i16>>) -> bool {
    forall|i: int, j: int| 0 <= i < g.len() && 0 <= j < g.len() ==> #[trigger] g[i][j] != UNKNOWN
}

/// Every cell is colored and every rule holds.
pub open spec fn solved(g: Seq<Seq<i16>>) -> bool {
    well_formed(g) && no_unknown(g) && valid(g)
}

/// `a` keeps every colored cell of `b`: it may only have colored unknown cells.
pub open spec fn extends(a: Seq<Seq<i16>>, b: Seq<Seq<i16>>) -> bool {
    &&& a.len() == b.len()
    &&& forall|i: int| 0 <= i < b.len() ==> (#[trigger] a[i]).len() == b[i].len()
    &&& forall|i: int, j: int|
        0 <= i < b.len() && 0 <= j < b[i].len() && #[trigger] b[i][j] != UNKNOWN ==> a[i][j]
            == b[i][j]
}

/// Every solved grid that completes `a` also completes `b`: going from `a` to `b`
/// ruled out no solution.
pub open spec fn keeps_solutions(a: Seq<Seq<i16>>, b: Seq<Seq<i16>>) -> bool {
    forall|s: Seq<Seq<i16>>| #[trigger] solved(s) && #[trigger] extends(s, a) ==> extends(s, b)
}

/// The number of unknown cells in the first `k` rows.
pub open spec fn unknowns_upto(g: Seq<Seq<i16>>, k: int) -> nat
    decreases k,
{
    if k <= 0 {
        0
    } else {
        unknowns_upto(g, k - 1) + count(g[k - 1], UNKNOWN)
    }
}

pub open spec fn unknowns(g: Seq<Seq<i16>>) -> nat {
    unknowns_upto(g, g.len() as int)
}

pub proof fn lemma_count_bound(s: Seq<i16>, v: i16)
    ensures
        count(s, v) <= s.len(),
    decreases s.len(),
{
    if s.len() > 0 {
        lemma_count_bound(s.drop_last(), v);
    }
}

/// Where every `v` of `a` is a `v` of `b`, `b` holds at least as many; one more
/// `v` in `b` makes it strictly more.
pub proof fn lemma_count_mono(a: Seq<i16>, b: Seq<i16>, v: i16)
    requires
        a.len() == b.len(),
        forall|k: int| 0 <= k < a.len() && a[k] == v ==> b[k] == v,
    ensures
        count(a, v) <= count(b, v),
        (exists|k: int| 0 <= k < a.len() && a[k] != v && b[k] == v) ==> count(a, v) < count(b, v),
    decreases a.len(),
{
    if a.len() > 0 {
        let a1 = a.drop_last();
        let b1 = b.drop_last();
        lemma_count_mono(a1, b1, v);
        if exists|k: int| 0 <= k < a.len() && a[k] != v && b[k] == v {
            let k = choose|k: int| 0 <= k < a.len() && a[k] != v && b[k] == v;
            if k < a.len() - 1 {
                assert(a1[k] != v && b1[k] == v);
            }
        }
    }
}

/// Counting over the first `k` elements, one at a time.
pub proof fn lemma_count_push(s: Seq<i16>, k: int, v: i16)
    requires
        0 <= k < s.len(),
    ensures
        count(s.subrange(0, k + 1), v) == count(s.subrange(0, k), v) + if s[k] == v { 1nat } else { 0nat },
{
    assert(s.subrange(0, k + 1).drop_last() =~= s.subrange(0, k));
}

pub proof fn lemma_unknowns_mono_upto(a: Seq<Seq<i16>>, b: Seq<Seq<i16>>, k: int)
    requires
        extends(a, b),
        0 <= k <= b.len(),
    ensures
        unknowns_upto(a, k) <= unknowns_upto(b, k),
        (exists|i: int, j: int| 0 <= i < k && 0 <= j < b[i].len() && a[i][j] != b[i][j])
            ==> unknowns_upto(a, k) < unknowns_upto(b, k),
    decreases k,
{
    if k > 0 {
        lemma_unknowns_mono_upto(a, b, k - 1);
        let r = k - 1;
        assert(a[r].len() == b[r].len());
        assert forall|j: int| 0 <= j < b[r].len() && b[r][j] != UNKNOWN implies a[r][j] == b[r][j] by {}
        lemma_count_mono(a[r], b[r], UNKNOWN);
        if exists|i: int, j: int| 0 <= i < k && 0 <= j < b[i].len() && a[i][j] != b[i][j] {
            let (i, j) = choose|i: int, j: int| 0 <= i < k && 0 <= j < b[i].len() && a[i][j] != b[i][j];
            if i == r {
                assert(b[r][j] == UNKNOWN);
                assert(a[r][j] != UNKNOWN);
            }
        }
    }
}

/// Coloring unknown cells lowers the number of unknown cells.
pub proof fn lemma_unknowns_mono(a: Seq<Seq<i16>>, b: Seq<Seq<i16>>)
    requires
        extends(a, b),
    ensures
        unknowns(a) <= unknowns(b),
        a != b ==> unknowns(a) < unknowns(b),
{
    lemma_unknowns_mono_upto(a, b, b.len() as int);
    if a != b {
        assert(!(a =~~= b));
    }
}

/// A copy of a line.
pub fn copy_line(v: &Vec<i16>) -> (r: Vec<i16>)
    ensures
        r@ == v@,
{
    let mut r: Vec<i16> = Vec::new();
    let mut k: usize = 0;
    while k < v.len()
        invariant
            k <= v.len(),
            r@ == v@.subrange(0, k as int),
        decreases v.len() - k,
    {
        r.push(v[k]);
        k += 1;
        assert(r@ =~= v@.subrange(0, k as int));
    }
    assert(r@ =~= v@);
    r
}

/// A copy of a board.
pub fn copy_board(b: &Vec<Vec<i16>>) -> (r: Vec<Vec<i16>>)
    ensures
        grid_of(r) == grid_of(*b),
{
    let mut r: Vec<Vec<i16>> = Vec::new();
    let mut k: usize = 0;
    while k < b.len()
        invariant
            k <= b.len(),
            r.len() == k,
            forall|m: int| 0 <= m < k ==> (#[trigger] r@[m])@ == b@[m]@,
        decreases b.len() - k,
    {
        let line = copy_line(&b[k]);
        r.push(line);
        k += 1;
    }
    assert(grid_of(r) =~= grid_of(*b));
    r
}

/// Column `j` of a board.
pub fn get_col(b: &Vec<Vec<i16>>, j: usize) -> (r: Vec<i16>)
    requires
        well_formed(grid_of(*b)),
        j < b.len(),
    ensures
        r@ == col(grid_of(*b), j as int),
{
    let ghost g = grid_of(*b);
    let mut r: Vec<i16> = Vec::new();
    let mut i: usize = 0;
    while i < b.len()
        invariant
            g == grid_of(*b),
            well_formed(g),
            j < b.len(),
            i <= b.len(),
            r@ == col(g, j as int).subrange(0, i as int),
        decreases b.len() - i,
    {
        assert(g[i as int].len() == g.len());
        r.push(b[i][j]);
        i += 1;
        assert(r@ =~= col(g, j as int).subrange(0, i as int));
    }
    assert(r@ =~= col(g, j as int));
    r
}

/// Sets one cell of a board.
pub fn set_cell(b: &mut Vec<Vec<i16>>, i: usize, j: usize, v: i16)
    requires
        i < old(b).len(),
        j < old(b)[i as int].len(),
    ensures
        grid_of(*final(b)) == grid_of(*old(b)).update(
            i as int,
            grid_of(*old(b))[i as int].update(j as int, v),
        ),
{
    let mut line = copy_line(&b[i]);
    line.set(j, v);
    b.set(i, line);
    assert(grid_of(*b) =~= grid_of(*old(b)).update(
        i as int,
        grid_of(*old(b))[i as int].update(j as int, v),
    ));
}

} // verus!
