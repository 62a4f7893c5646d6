//! Minesweeper board annotation: every non-mine cell is replaced by the
//! number of mines among its (up to eight) neighbouring cells, or left blank
//! when there are none; mine cells are kept as they are.
use vstd::prelude::*;
use vstd::std_specs::iter::IteratorSpec;

verus! {

/// The character that marks a mine.
pub const MINE: char = '*';

/// The character that marks a blank cell.
pub const BLANK: char = ' ';

/// 1 for a true condition, 0 for a false one.
pub open spec fn bit(b: bool) -> nat {
    if b {
        1
    } else {
        0
    }
}

/// Whether `(r, c)` lies on the board and holds a mine.
pub open spec fn mine_at(board: Seq<Seq<char>>, r: int, c: int) -> bool {
    &&& 0 <= r < board.len()
    &&& 0 <= c < board[r].len()
    &&& board[r][c] == MINE
}

/// The number of mines among the eight cells around `(r, c)`; positions off
/// the board do not count, and the board never wraps around.
pub open spec fn neighbour_mines(board: Seq<Seq<char>>, r: int, c: int) -> nat {
    bit(mine_at(board, r - 1, c - 1)) + bit(mine_at(board, r - 1, c)) + bit(
        mine_at(board, r - 1, c + 1),
    ) + bit(mine_at(board, r, c - 1)) + bit(mine_at(board, r, c + 1)) + bit(
        mine_at(board, r + 1, c - 1),
    ) + bit(mine_at(board, r + 1, c)) + bit(mine_at(board, r + 1, c + 1))
}

/// How a count of neighbouring mines is shown: blank for none, else its digit.
pub open spec fn count_char(n: nat) -> char {
    if n == 0 {
        BLANK
    } else if n == 1 {
        '1'
    } else if n == 2 {
        '2'
    } else if n == 3 {
        '3'
    } else if n == 4 {
        '4'
    } else if n == 5 {
        '5'
    } else if n == 6 {
        '6'
    } else if n == 7 {
        '7'
    } else {
        '8'
    }
}

/// The annotated content of cell `(r, c)`.
pub open spec fn annotated_cell(board: Seq<Seq<char>>, r: int, c: int) -> char {
    if board[r][c] == MINE {
        MINE
    } else {
        count_char(neighbour_mines(board, r, c))
    }
}

/// Every row is as long as the first.
pub open spec fn is_rectangular(board: Seq<Seq<char>>) -> bool {
    forall|r: int| 0 <= r < board.len() ==> #[trigger] board[r].len() == board[0].len()
}

/// The annotated board. An empty board stays empty; a board whose rows are
/// empty becomes a single empty row.
pub open spec fn annotated(board: Seq<Seq<char>>) -> Seq<Seq<char>> {
    if board.len() == 0 {
        Seq::empty()
    } else if board[0].len() == 0 {
        seq![Seq::<char>::empty()]
    } else {
        Seq::new(
            board.len(),
            |r: int| Seq::new(board[r].len(), |c: int| annotated_cell(board, r, c)),
        )
    }
}

/// Whether `(r, c)` holds a mine and comes before `(i, j)` in row-major order.
spec fn mine_before(board: Seq<Seq<char>>, r: int, c: int, i: int, j: int) -> bool {
    &&& mine_at(board, r, c)
    &&& (r < i || (r == i && c < j))
}

/// The number of mines in the 3x3 window centred on `(r, c)` (the centre
/// included) that come before `(i, j)` in row-major order.
spec fn window_mines_before(
    board: Seq<Seq<char>>,
    r: int,
    c: int,
    i: int,
    j: int,
) -> nat {
    bit(mine_before(board, r - 1, c - 1, i, j)) + bit(mine_before(board, r - 1, c, i, j)) + bit(
        mine_before(board, r - 1, c + 1, i, j),
    ) + bit(mine_before(board, r, c - 1, i, j)) + bit(mine_before(board, r, c, i, j)) + bit(
        mine_before(board, r, c + 1, i, j),
    ) + bit(mine_before(board, r + 1, c - 1, i, j)) + bit(mine_before(board, r + 1, c, i, j))
        + bit(mine_before(board, r + 1, c + 1, i, j))
}

/// Whether `(r, c)` lies in the rectangle of rows `r0..=r1` and columns `c0..=c1`.
spec fn in_rect(r: int, c: int, r0: int, r1: int, c0: int, c1: int) -> bool {
    r0 <= r <= r1 && c0 <= c <= c1
}

/// Adds one to each of the counters `lo..=hi` of row `row`.
fn update_adjacent(counts: &mut Vec<Vec<u8>>, row: usize, lo: usize, hi: usize)
    requires
        row < old(counts)@.len(),
        lo <= hi < old(counts)@[row as int]@.len(),
        forall|c: int| lo <= c <= hi ==> #[trigger] old(counts)@[row as int]@[c] < 255,
    ensures
        final(counts)@.len() == old(counts)@.len(),
        forall|r: int|
            0 <= r < old(counts)@.len() && r != row ==> #[trigger] final(counts)@[r]
                == old(counts)@[r],
        final(counts)@[row as int]@.len() == old(counts)@[row as int]@.len(),
        forall|c: int|
            0 <= c < old(counts)@[row as int]@.len() ==> #[trigger] final(counts)@[row as int]@[c]
                == old(counts)@[row as int]@[c] + bit(lo <= c <= hi),
{
    let ghost start = counts@;
    let mut c: usize = lo;
    while c <= hi
        invariant
            lo <= c <= hi + 1,
            hi < start[row as int]@.len(),
            hi < counts@[row as int].len(),
            row < start.len(),
            forall|k: int| lo <= k <= hi ==> #[trigger] start[row as int]@[k] < 255,
            counts@.len() == start.len(),
            forall|r: int| 0 <= r < start.len() && r != row ==> #[trigger] counts@[r] == start[r],
            counts@[row as int]@.len() == start[row as int]@.len(),
            forall|k: int|
                0 <= k < start[row as int]@.len() ==> #[trigger] counts@[row as int]@[k]
                    == start[row as int]@[k] + bit(lo <= k < c),
        decreases hi + 1 - c,
    {
        counts[row][c] = counts[row][c] + 1;
        c = c + 1;
    }
}

/// Relies on `String::push`: it appends the character to the end of the string.
#[verifier::external_body]
fn push_char(s: &mut String, ch: char)
    ensures
        final(s)@ == old(s)@.push(ch),
{
    s.push(ch);
}

/// The characters of a row, in order.
fn row_chars(s: &str) -> (v: Vec<char>)
    ensures
        v@ == s@,
{
    let mut v: Vec<char> = Vec::new();
    for ch in it: s.chars()
        invariant
            v@ == it.seq().take(it.index() as int),
    {
        v.push(ch);
    }
    assert(v@ =~= s@);
    v
}

/// Passing a cell that holds no mine leaves every window count unchanged.
proof fn lemma_pass_blank(board: Seq<Seq<char>>, i: int, j: int)
    requires
        !mine_at(board, i, j),
    ensures
        forall|r: int, c: int| #[trigger]
            window_mines_before(board, r, c, i, j + 1) == window_mines_before(board, r, c, i, j),
{
}

/// Passing a mine adds one to the window count of each cell around it,
/// itself included, and leaves the others unchanged.
proof fn lemma_pass_mine(board: Seq<Seq<char>>, i: int, j: int)
    requires
        mine_at(board, i, j),
    ensures
        forall|r: int, c: int| #[trigger]
            window_mines_before(board, r, c, i, j + 1) == window_mines_before(board, r, c, i, j)
                + bit(in_rect(r, c, i - 1, i + 1, j - 1, j + 1)),
{
}

/// Past the last column of a row, the count is the one at the start of the next row.
proof fn lemma_next_row(board: Seq<Seq<char>>, i: int, w: int)
    requires
        0 <= i < board.len(),
        board[i].len() == w,
    ensures
        forall|r: int, c: int| #[trigger]
            window_mines_before(board, r, c, i, w) == window_mines_before(board, r, c, i + 1, 0),
{
}

/// Once every cell has been passed, the window count is the number of
/// neighbouring mines, plus one where the cell itself holds a mine.
proof fn lemma_all_passed(board: Seq<Seq<char>>, r: int, c: int)
    ensures
        window_mines_before(board, r, c, board.len() as int, 0) == neighbour_mines(board, r, c)
            + bit(mine_at(board, r, c)),
{
}

/// For each cell, the number of mines in the 3x3 window centred on it,
/// clipped to the board.
fn window_counts(grid: &Vec<Vec<char>>, Ghost(board): Ghost<Seq<Seq<char>>>) -> (counts: Vec<
    Vec<u8>,
>)
    requires
        grid@.len() == board.len(),
        board.len() > 0,
        is_rectangular(board),
        forall|r: int| 0 <= r < board.len() ==> #[trigger] grid@[r]@ == board[r],
    ensures
        counts@.len() == board.len(),
        forall|r: int| 0 <= r < board.len() ==> #[trigger] counts@[r]@.len() == board[0].len(),
        forall|r: int, c: int|
            0 <= r < board.len() && 0 <= c < board[0].len() ==> #[trigger] counts@[r]@[c]
                == neighbour_mines(board, r, c) + bit(mine_at(board, r, c)),
{
    let h = grid.len();
    let w = grid[0].len();
    assert(grid@[0]@ == board[0]);
    let mut counts: Vec<Vec<u8>> = Vec::new();
    let mut k: usize = 0;
    while k < h
        invariant
            k <= h,
            h == board.len(),
            w == board[0].len(),
            counts@.len() == k,
            forall|r: int| 0 <= r < k ==> #[trigger] counts@[r]@.len() == w,
            forall|r: int, c: int| 0 <= r < k && 0 <= c < w ==> #[trigger] counts@[r]@[c] == 0,
        decreases h - k,
    {
        counts.push(vec![0u8; w]);
        k = k + 1;
    }
    assert forall|r: int, c: int| 0 <= r < h && 0 <= c < w implies #[trigger] counts@[r]@[c]
        == window_mines_before(board, r, c, 0, 0) by {}
    let mut i: usize = 0;
    while i < h
        invariant
            i <= h,
            h == board.len(),
            h == grid@.len(),
            w == board[0].len(),
            is_rectangular(board),
            forall|r: int| 0 <= r < board.len() ==> #[trigger] grid@[r]@ == board[r],
            counts@.len() == h,
            forall|r: int| 0 <= r < h ==> #[trigger] counts@[r]@.len() == w,
            forall|r: int, c: int|
                0 <= r < h && 0 <= c < w ==> #[trigger] counts@[r]@[c] == window_mines_before(
                    board,
                    r,
                    c,
                    i as int,
                    0,
                ),
        decreases h - i,
    {
        assert(grid@[i as int]@ == board[i as int]);
        let mut j: usize = 0;
        while j < w
            invariant
                i < h,
                j <= w,
                h == board.len(),
                h == grid@.len(),
                w == board[0].len(),
                is_rectangular(board),
                grid@[i as int]@ == board[i as int],
                counts@.len() == h,
                forall|r: int| 0 <= r < h ==> #[trigger] counts@[r]@.len() == w,
                forall|r: int, c: int|
                    0 <= r < h && 0 <= c < w ==> #[trigger] counts@[r]@[c] == window_mines_before(
                        board,
                        r,
                        c,
                        i as int,
                        j as int,
                    ),
            decreases w - j,
        {
            if grid[i][j] == MINE {
                proof {
                    lemma_pass_mine(board, i as int, j as int);
                }
                let lo_r: usize = if i > 0 { i - 1 } else { i };
                let hi_r: usize = if i + 1 < h { i + 1 } else { i };
                let lo_c: usize = if j > 0 { j - 1 } else { j };
                let hi_c: usize = if j + 1 < w { j + 1 } else { j };
                let mut rr: usize = lo_r;
                while rr <= hi_r
                    invariant
                        lo_r <= rr <= hi_r + 1,
                        hi_r < h,
                        lo_c <= hi_c < w,
                        h == board.len(),
                        counts@.len() == h,
                        forall|r: int| 0 <= r < h ==> #[trigger] counts@[r]@.len() == w,
                        forall|r: int, c: int|
                            0 <= r < h && 0 <= c < w ==> #[trigger] counts@[r]@[c]
                                == window_mines_before(board, r, c, i as int, j as int) + bit(
                                in_rect(r, c, lo_r as int, rr - 1, lo_c as int, hi_c as int),
                            ),
                    decreases hi_r + 1 - rr,
                {
                    update_adjacent(&mut counts, rr, lo_c, hi_c);
                    rr = rr + 1;
                }
                assert forall|r: int, c: int| 0 <= r < h && 0 <= c < w implies #[trigger] counts@[r]@[c]
                    == window_mines_before(board, r, c, i as int, j + 1) by {
                    assert(in_rect(r, c, lo_r as int, hi_r as int, lo_c as int, hi_c as int)
                        == in_rect(r, c, i - 1, i + 1, j - 1, j + 1));
                }
            } else {
                proof {
                    lemma_pass_blank(board, i as int, j as int);
                }
            }
            j = j + 1;
        }
        proof {
            lemma_next_row(board, i as int, w as int);
        }
        i = i + 1;
    }
    assert forall|r: int, c: int| 0 <= r < h && 0 <= c < w implies #[trigger] counts@[r]@[c]
        == neighbour_mines(board, r, c) + bit(mine_at(board, r, c)) by {
        lemma_all_passed(board, r, c);
    }
    counts
}

/// The character shown for `n` neighbouring mines.
fn digit_for(n: u8) -> (ch: char)
    requires
        n <= 8,
    ensures
        ch == count_char(n as nat),
{
    match n {
        0 => BLANK,
        1 => '1',
        2 => '2',
        3 => '3',
        4 => '4',
        5 => '5',
        6 => '6',
        7 => '7',
        _ => '8',
    }
}

/// The rows of the board, each as its characters.
fn read_board(minefield: &[&str]) -> (grid: Vec<Vec<char>>)
    ensures
        grid@.len() == minefield@.len(),
        forall|r: int| 0 <= r < minefield@.len() ==> #[trigger] grid@[r]@ == minefield@[r]@,
{
    let mut grid: Vec<Vec<char>> = Vec::new();
    let mut r: usize = 0;
    while r < minefield.len()
        invariant
            r <= minefield@.len(),
            grid@.len() == r,
            forall|k: int| 0 <= k < r ==> #[trigger] grid@[k]@ == minefield@[k]@,
        decreases minefield@.len() - r,
    {
        grid.push(row_chars(minefield[r]));
        r = r + 1;
    }
    grid
}

/// One annotated row: mines as they are, every other cell as its count.
fn render_row(cells: &Vec<char>, counts: &Vec<u8>) -> (line: String)
    requires
        counts@.len() == cells@.len(),
        forall|c: int| 0 <= c < cells@.len() && cells@[c] != MINE ==> #[trigger] counts@[c] <= 8,
    ensures
        line@.len() == cells@.len(),
        forall|c: int|
            0 <= c < cells@.len() ==> #[trigger] line@[c] == if cells@[c] == MINE {
                MINE
            } else {
                count_char(counts@[c] as nat)
            },
{
    let mut line = String::new();
    let mut c: usize = 0;
    while c < cells.len()
        invariant
            c <= cells@.len(),
            counts@.len() == cells@.len(),
            forall|k: int| 0 <= k < cells@.len() && cells@[k] != MINE ==> #[trigger] counts@[k] <= 8,
            line@.len() == c,
            forall|k: int|
                0 <= k < c ==> #[trigger] line@[k] == if cells@[k] == MINE {
                    MINE
                } else {
                    count_char(counts@[k] as nat)
                },
        decreases cells@.len() - c,
    {
        let ch = if cells[c] == MINE {
            MINE
        } else {
            digit_for(counts[c])
        };
        push_char(&mut line, ch);
        c = c + 1;
    }
    line
}

/// Annotates a minesweeper board given as rows of `*` (a mine) and ` ` (a
/// blank cell). Every mine stays where it is; every other cell shows how many
/// mines its up to eight neighbours hold, or stays blank when there are none.
/// An empty board gives an empty result, and a board whose rows are empty
/// gives one empty row.
pub fn annotate(minefield: &[&str]) -> (rows: Vec<String>)
    requires
        is_rectangular(minefield.deep_view()),
    ensures
        rows.deep_view() == annotated(minefield.deep_view()),
        minefield@.len() <= 1 || minefield@[0]@.len() > 0 ==> {
            &&& rows@.len() == minefield@.len()
            &&& forall|r: int|
                0 <= r < minefield@.len() ==> #[trigger] rows@[r]@.len() == minefield@[r]@.len()
        },
        forall|r: int, c: int|
            0 <= r < minefield@.len() && 0 <= c < minefield@[r]@.len() ==> (
            #[trigger] rows@[r]@[c] == MINE <==> minefield@[r]@[c] == MINE),
        forall|r: int, c: int|
            0 <= r < minefield@.len() && 0 <= c < minefield@[r]@.len() && minefield@[r]@[c]
                != MINE ==> #[trigger] rows@[r]@[c] == count_char(
                neighbour_mines(minefield.deep_view(), r, c),
            ),
{
    let ghost board = minefield.deep_view();
    if minefield.len() == 0 {
        let rows: Vec<String> = Vec::new();
        assert(rows.deep_view() =~= annotated(board));
        return rows;
    }
    let grid = read_board(minefield);
    assert forall|r: int| 0 <= r < board.len() implies #[trigger] grid@[r]@ == board[r] by {}
    let h = grid.len();
    let w = grid[0].len();
    if w == 0 {
        let mut rows: Vec<String> = Vec::new();
        rows.push(String::new());
        assert(rows.deep_view() =~= annotated(board));
        assert forall|r: int| 0 <= r < board.len() implies #[trigger] minefield@[r]@.len() == 0 by {
            assert(board[r] == minefield@[r]@);
        }
        return rows;
    }
    let counts = window_counts(&grid, Ghost(board));
    let mut rows: Vec<String> = Vec::new();
    let mut r: usize = 0;
    while r < h
        invariant
            r <= h,
            h == board.len(),
            h == grid@.len(),
            w == board[0].len(),
            w > 0,
            is_rectangular(board),
            forall|k: int| 0 <= k < h ==> #[trigger] grid@[k]@ == board[k],
            counts@.len() == h,
            forall|k: int| 0 <= k < h ==> #[trigger] counts@[k]@.len() == w,
            forall|k: int, c: int|
                0 <= k < h && 0 <= c < w ==> #[trigger] counts@[k]@[c] == neighbour_mines(
                    board,
                    k,
                    c,
                ) + bit(mine_at(board, k, c)),
            rows@.len() == r,
            forall|k: int| 0 <= k < r ==> #[trigger] rows@[k]@ == annotated(board)[k],
        decreases h - r,
    {
        assert(grid@[r as int]@ == board[r as int]);
        assert(board[r as int].len() == w);
        let line = render_row(&grid[r], &counts[r]);
        assert(line@ =~= annotated(board)[r as int]);
        rows.push(line);
        r = r + 1;
    }
    assert(rows.deep_view() =~= annotated(board));
    rows
}

} // verus!
