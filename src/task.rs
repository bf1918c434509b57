use vstd::prelude::*;
use vstd::string::{StrSliceExecFns, StringExecFns};
use crate::grid::{grid_of, BLACK, UNKNOWN, WHITE};

verus! {

/// Why a puzzle encoding could not be decoded.
#[derive(Debug, Clone, Copy, PartialEq, Eq, Structural)]
pub enum ParseError {
    /// A character that is neither `0`, `1` nor a letter `a` to `z`.
    InvalidCharacter(char),
    /// A given cell that falls past the last cell of the board.
    OutsideBoard,
}

/// Relies on `str::chars`: the characters of the string, in order.
#[verifier::external_body]
fn chars_of(s: &str) -> (r: Vec<char>)
    ensures
        r@ == s@,
{
    s.chars().collect()
}

/// The text that precedes the task in a puzzle page.
pub open spec fn task_marker() -> Seq<char> {
    seq!['v', 'a', 'r', ' ', 't', 'a', 's', 'k', ' ', '=', ' ']
}

/// The text that precedes the puzzle id in a puzzle page.
pub open spec fn id_marker() -> Seq<char> {
    seq!['i', 'd', '=', '\\', '"', 'p', 'u', 'z', 'z', 'l', 'e', 'I', 'D', '\\', '"', '>']
}

/// `p` occurs in `s` at index `k`.
pub open spec fn occurs_at(s: Seq<char>, p: Seq<char>, k: int) -> bool {
    0 <= k && k + p.len() <= s.len() && s.subrange(k, k + p.len()) == p
}

pub open spec fn occurs(s: Seq<char>, p: Seq<char>) -> bool {
    exists|k: int| occurs_at(s, p, k)
}

/// `k` is the first index at which `p` occurs in `s`.
pub open spec fn first_occurrence(s: Seq<char>, p: Seq<char>, k: int) -> bool {
    occurs_at(s, p, k) && forall|k2: int| 0 <= k2 < k ==> !occurs_at(s, p, k2)
}

/// `e` ends the field that starts at `start`: the first `stop` from `start` on,
/// or the end of `s`.
pub open spec fn field_end(s: Seq<char>, start: int, stop: char, e: int) -> bool {
    &&& start <= e <= s.len()
    &&& forall|k: int| start <= k < e ==> s[k] != stop
    &&& e < s.len() ==> s[e] == stop
}

/// `r` is the text of `s` from index `start` (or its end, if that comes first)
/// up to the next `stop`.
pub open spec fn is_field(s: Seq<char>, start: int, stop: char, r: Seq<char>) -> bool {
    exists|e: int|
        #[trigger] field_end(s, field_start(s, start), stop, e) && r == s.subrange(field_start(s, start), e)
}

/// Where a field that is meant to start at `start` starts: there, or at the end
/// of `s` if that comes first.
pub open spec fn field_start(s: Seq<char>, start: int) -> int {
    if start < s.len() { start } else { s.len() as int }
}

/// The first index at which `p` occurs in `s`, if any.
pub fn find_chars(s: &Vec<char>, p: &Vec<char>) -> (r: Option<usize>)
    ensures
        r matches Some(k) ==> first_occurrence(s@, p@, k as int),
        r is None ==> !occurs(s@, p@),
{
    if p.len() > s.len() {
        return None;
    }
    let mut k: usize = 0;
    while k <= s.len() - p.len()
        invariant
            p.len() <= s.len(),
            forall|k2: int| 0 <= k2 < k ==> !occurs_at(s@, p@, k2),
        decreases s.len() - p.len() + 1 - k,
    {
        let mut m: usize = 0;
        while m < p.len()
            invariant
                p.len() <= s.len(),
                k <= s.len() - p.len(),
                m <= p.len(),
                forall|m2: int| 0 <= m2 < m ==> s@[k + m2] == p@[m2],
            ensures
                m < p.len() ==> s@[k + m] != p@[m as int],
                forall|m2: int| 0 <= m2 < m ==> s@[k + m2] == p@[m2],
            decreases p.len() - m,
        {
            if s[k + m] != p[m] {
                break;
            }
            m += 1;
        }
        proof {
            if m < p.len() {
                assert(s@[k + m] != p@[m as int]);
            }
        }
        if m == p.len() {
            assert(s@.subrange(k as int, k + p.len()) =~= p@);
            return Some(k);
        }
        assert(s@.subrange(k as int, k + p.len())[m as int] != p@[m as int]);
        k += 1;
    }
    assert forall|k2: int| !occurs_at(s@, p@, k2) by {
        if 0 <= k2 < k {
        }
    }
    None
}

/// The text of `s` from `start` up to the next `stop` (or the end).
pub fn field_from(body: &str, s: &Vec<char>, start: usize, stop: char) -> (r: String)
    requires
        s@ == body@,
    ensures
        is_field(s@, start as int, stop, r@),
{
    let from = if start < s.len() { start } else { s.len() };
    let mut e: usize = from;
    while e < s.len() && s[e] != stop
        invariant
            from <= e <= s.len(),
            forall|k: int| from <= k < e ==> s@[k] != stop,
        decreases s.len() - e,
    {
        e += 1;
    }
    assert(field_end(s@, from as int, stop, e as int));
    let part = body.substring_char(from, e);
    let r = String::from_str(part);
    assert(r@ == s@.subrange(from as int, e as int));
    assert(field_start(s@, start as int) == from);
    r
}

/// The task of a puzzle page: the text after `var task = ` and the two
/// characters that follow it, up to the next backslash.
pub fn fetch_task(body: &str) -> (r: String)
    requires
        occurs(body@, task_marker()),
    ensures
        exists|k: int| first_occurrence(body@, task_marker(), k) && is_field(body@, k + 13, '\\', r@),
{
    scrape(body)
}

/// See `fetch_task`.
pub fn scrape(body: &str) -> (r: String)
    requires
        occurs(body@, task_marker()),
    ensures
        exists|k: int| first_occurrence(body@, task_marker(), k) && is_field(body@, k + 13, '\\', r@),
{
    let s = chars_of(body);
    let marker: Vec<char> = vec!['v', 'a', 'r', ' ', 't', 'a', 's', 'k', ' ', '=', ' '];
    assert(marker@ =~= task_marker());
    let found = find_chars(&s, &marker);
    match found {
        Some(k) => {
            let start = if s.len() - k > 13 { k + 13 } else { s.len() };
            let r = field_from(body, &s, start, '\\');
            assert(field_start(s@, start as int) == field_start(body@, k + 13));
            assert(is_field(body@, k + 13, '\\', r@));
            r
        },
        None => {
            proof {
                assert(false);
            }
            String::new()
        },
    }
}

/// The puzzle id of a puzzle page: the text after `id=\"puzzleID\">` up to the
/// next `<`, or `Special puzzle` where the page has none.
pub fn get_puzzle_id(body: &str) -> (r: String)
    ensures
        !occurs(body@, id_marker()) ==> r@ == "Special puzzle"@,
        occurs(body@, id_marker()) ==> exists|k: int|
            first_occurrence(body@, id_marker(), k) && is_field(body@, k + 16, '<', r@),
{
    let s = chars_of(body);
    let marker: Vec<char> = vec![
        'i', 'd', '=', '\\', '"', 'p', 'u', 'z', 'z', 'l', 'e', 'I', 'D', '\\', '"', '>',
    ];
    assert(marker@ =~= id_marker());
    match find_chars(&s, &marker) {
        Some(k) => {
            let start = if s.len() - k > 16 { k + 16 } else { s.len() };
            let r = field_from(body, &s, start, '<');
            assert(field_start(s@, start as int) == field_start(body@, k + 16));
            assert(is_field(body@, k + 16, '<', r@));
            r
        },
        None => String::from_str("Special puzzle"),
    }
}

/// How many cells a letter skips: `a` one, up to `z` twenty-six.
pub open spec fn skip_of(c: char) -> int {
    (c as int) - ('a' as int) + 1
}

/// Decodes an encoding into `cells` cells, row after row: `0` and `1` give the
/// next cell that color, a letter leaves that many cells unknown. The result is
/// the cells and the position after the last symbol.
pub open spec fn decode(cs: Seq<char>, cells: int) -> Result<(Seq<i16>, int), ParseError>
    decreases cs.len(),
{
    if cs.len() == 0 {
        Ok((Seq::new(cells as nat, |p: int| UNKNOWN), 0))
    } else {
        match decode(cs.drop_last(), cells) {
            Err(e) => Err(e),
            Ok((flat, pos)) => {
                let c = cs.last();
                if c == '0' || c == '1' {
                    if pos < cells {
                        Ok((flat.update(pos, if c == '0' { WHITE } else { BLACK }), pos + 1))
                    } else {
                        Err(ParseError::OutsideBoard)
                    }
                } else if 'a' <= c && c <= 'z' {
                    Ok((flat, pos + skip_of(c)))
                } else {
                    Err(ParseError::InvalidCharacter(c))
                }
            },
        }
    }
}

/// The n×n grid whose rows are the consecutive runs of `n` cells of `flat`.
pub open spec fn unflatten(flat: Seq<i16>, n: int) -> Seq<Seq<i16>> {
    Seq::new(n as nat, |i: int| flat.subrange(i * n, i * n + n))
}

proof fn lemma_decode_shape(cs: Seq<char>, cells: int)
    requires
        cells >= 0,
    ensures
        decode(cs, cells) matches Ok((flat, pos)) ==> flat.len() == cells && pos >= 0,
    decreases cs.len(),
{
    if cs.len() > 0 {
        lemma_decode_shape(cs.drop_last(), cells);
    }
}

proof fn lemma_decode_err(cs: Seq<char>, k: int, cells: int)
    requires
        0 <= k <= cs.len(),
        decode(cs.take(k), cells) is Err,
    ensures
        decode(cs, cells) == decode(cs.take(k), cells),
    decreases cs.len() - k,
{
    if k < cs.len() {
        assert(cs.take(k + 1).drop_last() =~= cs.take(k));
        lemma_decode_err(cs, k + 1, cells);
    } else {
        assert(cs.take(k) =~= cs);
    }
}

/// Decodes a puzzle encoding into a size×size board.
pub fn parse_task(task: String, size: i16) -> (r: Result<Vec<Vec<i16>>, ParseError>)
    requires
        0 <= size,
    ensures
        match decode(task@, size * size) {
            Ok((flat, _)) => r matches Ok(b) && grid_of(b) == unflatten(flat, size as int),
            Err(e) => r == Err::<Vec<Vec<i16>>, ParseError>(e),
        },
{
    let cs = chars_of(task.as_str());
    let n = size as usize;
    proof {
        assert(n * n <= 32767 * 32767) by (nonlinear_arith)
            requires n <= 32767;
    }
    let cells: usize = n * n;
    let mut flat: Vec<i16> = Vec::new();
    let mut m: usize = 0;
    while m < cells
        invariant
            m <= cells,
            flat@ == Seq::new(m as nat, |p: int| UNKNOWN),
        decreases cells - m,
    {
        flat.push(UNKNOWN);
        m += 1;
        assert(flat@ =~= Seq::new(m as nat, |p: int| UNKNOWN));
    }
    assert(cs@.take(0) =~= Seq::<char>::empty());
    let ghost gpos: int = 0;
    let mut pos: usize = 0;
    let mut k: usize = 0;
    while k < cs.len()
        invariant
            cs@ == task@,
            cells == size * size,
            cells <= 32767 * 32767,
            k <= cs.len(),
            decode(cs@.take(k as int), cells as int) == Ok::<(Seq<i16>, int), ParseError>((flat@, gpos)),
            flat.len() == cells,
            gpos >= 0,
            pos == if gpos < cells { gpos } else { cells as int },
        decreases cs.len() - k,
    {
        let c = cs[k];
        assert(cs@.take(k + 1).drop_last() =~= cs@.take(k as int));
        assert(cs@.take(k + 1).last() == c);
        if c == '0' || c == '1' {
            if pos < cells {
                flat.set(pos, if c == '0' { WHITE } else { BLACK });
                pos += 1;
                proof {
                    gpos = gpos + 1;
                }
            } else {
                proof {
                    lemma_decode_err(cs@, k + 1, cells as int);
                }
                return Err(ParseError::OutsideBoard);
            }
        } else if 'a' <= c && c <= 'z' {
            let skip = (c as u32 - 'a' as u32 + 1) as usize;
            proof {
                gpos = gpos + skip_of(c);
            }
            pos = if pos + skip < cells { pos + skip } else { cells };
        } else {
            proof {
                lemma_decode_err(cs@, k + 1, cells as int);
            }
            return Err(ParseError::InvalidCharacter(c));
        }
        k += 1;
    }
    assert(cs@.take(cs.len() as int) =~= cs@);
    let mut board: Vec<Vec<i16>> = Vec::new();
    let mut i: usize = 0;
    while i < n
        invariant
            n == size,
            cells == n * n,
            flat.len() == cells,
            i <= n,
            board.len() == i,
            forall|i2: int| 0 <= i2 < i ==> (#[trigger] board@[i2])@ == unflatten(flat@, n as int)[i2],
        decreases n - i,
    {
        let mut row: Vec<i16> = Vec::new();
        let mut j: usize = 0;
        proof {
            assert(i * n + n <= n * n) by (nonlinear_arith)
                requires i < n;
        }
        while j < n
            invariant
                n == size,
                cells == n * n,
                flat.len() == cells,
                i < n,
                i * n + n <= n * n,
                j <= n,
                row@ == flat@.subrange(i * n, i * n + j),
            decreases n - j,
        {
            row.push(flat[i * n + j]);
            j += 1;
            assert(row@ =~= flat@.subrange(i * n, i * n + j));
        }
        board.push(row);
        i += 1;
    }
    assert(grid_of(board) =~= unflatten(flat@, n as int));
    Ok(board)
}

} // verus!
