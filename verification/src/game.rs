use vstd::prelude::*;

verus! {

/// The board is 7 columns of 6 cells; column `x` and row `y` (row 0 at the
/// bottom) live at index `y * 7 + x`. A cell holds 0 when empty, or the
/// mark (1 or -1) of the player who filled it.
pub struct ConnectFourGame {
    pub board_state: [i64; 42],
    pub perspective: i64,
    pub history: Vec<i64>,
}

/// The mark found at column `x`, row `y`.
pub open spec fn cell(b: Seq<i64>, x: int, y: int) -> int {
    b[y * 7 + x] as int
}

/// Every cell holds one of the three marks.
pub open spec fn cells_in_range(b: Seq<i64>) -> bool {
    forall|i: int| 0 <= i < 42 ==> -1 <= #[trigger] b[i] <= 1
}

/// A column may still be played while its top cell is empty.
pub open spec fn col_open(b: Seq<i64>, x: int) -> bool {
    cell(b, x, 5) == 0
}

/// The board of a game that has not started.
pub open spec fn empty_board() -> Seq<i64> {
    Seq::new(42, |i: int| 0i64)
}

/// Row of the lowest empty cell of column `x`, looking from row `y` upward
/// (6 when those rows are all filled).
pub open spec fn height_from(b: Seq<i64>, x: int, y: int) -> int
    decreases 6 - y
{
    if y < 0 || y >= 6 {
        6
    } else if cell(b, x, y) == 0 {
        y
    } else {
        height_from(b, x, y + 1)
    }
}

/// Number of filled cells of column `x`: rows 0 .. col_height(b, x) hold marks.
pub open spec fn col_height(b: Seq<i64>, x: int) -> int {
    height_from(b, x, 0)
}

/// Filled cells sit below empty cells in every column: no mark floats above a gap.
pub open spec fn columns_settled(b: Seq<i64>) -> bool {
    forall|x: int, y: int|
        0 <= x < 7 && 0 <= y < 5 && #[trigger] cell(b, x, y) == 0 ==> cell(b, x, y + 1) == 0
}

/// Rows below `height_from` are filled; the row at it (if any) is empty.
pub proof fn lemma_height_from_props(b: Seq<i64>, x: int, y: int)
    requires
        0 <= y <= 6,
    ensures
        y <= height_from(b, x, y) <= 6,
        forall|r: int| y <= r < height_from(b, x, y) ==> cell(b, x, r) != 0,
        height_from(b, x, y) < 6 ==> cell(b, x, height_from(b, x, y)) == 0,
    decreases 6 - y,
{
    if y < 6 && cell(b, x, y) != 0 {
        lemma_height_from_props(b, x, y + 1);
    }
}

/// In a settled column, an empty cell makes every cell above it empty too.
pub proof fn lemma_empty_above(b: Seq<i64>, x: int, y: int)
    requires
        columns_settled(b),
        0 <= x < 7,
        0 <= y < 6,
        cell(b, x, y) == 0,
    ensures
        forall|r: int| y <= r < 6 ==> cell(b, x, r) == 0,
    decreases 6 - y,
{
    if y < 5 {
        lemma_empty_above(b, x, y + 1);
    }
}

/// The column height is pinned by which rows are filled.
pub proof fn lemma_height_determined(b: Seq<i64>, x: int, h: int)
    requires
        0 <= h <= 6,
        forall|r: int| 0 <= r < h ==> cell(b, x, r) != 0,
        h < 6 ==> cell(b, x, h) == 0,
    ensures
        col_height(b, x) == h,
{
    lemma_height_determined_from(b, x, h, 0);
}

proof fn lemma_height_determined_from(b: Seq<i64>, x: int, h: int, y: int)
    requires
        0 <= y <= h <= 6,
        forall|r: int| y <= r < h ==> cell(b, x, r) != 0,
        h < 6 ==> cell(b, x, h) == 0,
    ensures
        height_from(b, x, y) == h,
    decreases 6 - y,
{
    if y < 6 && cell(b, x, y) != 0 {
        lemma_height_determined_from(b, x, h, y + 1);
    }
}

/// The board after the mover drops `mark` into column `x`.
pub open spec fn place(b: Seq<i64>, x: int, mark: i64) -> Seq<i64> {
    b.update(col_height(b, x) * 7 + x, mark)
}

/// The board after the topmost mark of column `x` is taken back.
pub open spec fn unplace(b: Seq<i64>, x: int) -> Seq<i64> {
    b.update((col_height(b, x) - 1) * 7 + x, 0i64)
}

/// The player to move after `n` plies: 1 moves at even plies, -1 at odd ones.
pub open spec fn persp_after(n: int) -> int {
    if n % 2 == 0 {
        1
    } else {
        -1
    }
}

/// The board reached by playing `moves` in order from the empty board.
pub open spec fn replay(moves: Seq<i64>) -> Seq<i64>
    decreases moves.len(),
{
    if moves.len() == 0 {
        empty_board()
    } else {
        place(
            replay(moves.drop_last()),
            moves.last() as int,
            persp_after(moves.len() - 1) as i64,
        )
    }
}

/// Every move of the sequence was played into an open column of the board so far.
pub open spec fn legal_seq(moves: Seq<i64>) -> bool
    decreases moves.len(),
{
    moves.len() == 0 || {
        &&& legal_seq(moves.drop_last())
        &&& 0 <= moves.last() < 7
        &&& col_open(replay(moves.drop_last()), moves.last() as int)
    }
}

impl ConnectFourGame {
    /// The game is exactly the state reached by replaying its move history.
    pub open spec fn wf(self) -> bool {
        &&& legal_seq(self.history@)
        &&& self.board_state@ == replay(self.history@)
        &&& self.perspective == persp_after(self.history@.len() as int)
    }
}

/// Two cell coordinates name the same board index only when they are equal.
pub proof fn lemma_index_injective(x1: int, y1: int, x2: int, y2: int)
    requires
        0 <= x1 < 7,
        0 <= x2 < 7,
        y1 * 7 + x1 == y2 * 7 + x2,
    ensures
        x1 == x2 && y1 == y2,
{
    assert((y1 - y2) * 7 == x2 - x1) by (nonlinear_arith)
        requires
            y1 * 7 + x1 == y2 * 7 + x2,
    ;
    if y1 > y2 {
        assert((y1 - y2) * 7 >= 7) by (nonlinear_arith)
            requires
                y1 - y2 >= 1,
        ;
    }
    if y1 < y2 {
        assert((y1 - y2) * 7 <= -7) by (nonlinear_arith)
            requires
                y1 - y2 <= -1,
        ;
    }
}

/// The character drawn for a mark.
pub open spec fn mark_char(m: int) -> char {
    if m == 1 {
        'O'
    } else if m == -1 {
        'X'
    } else {
        ' '
    }
}

/// A frame line of the drawn grid: seven dashes and a newline.
pub open spec fn frame_chars() -> Seq<char> {
    Seq::new(8, |i: int| if i < 7 { '-' } else { '\n' })
}

/// One drawn row of the grid: the marks of row `y` left to right, then a
/// newline.
pub open spec fn row_chars(b: Seq<i64>, y: int) -> Seq<char> {
    Seq::new(8, |i: int| if i < 7 { mark_char(cell(b, i, y)) } else { '\n' })
}

/// The first `k` drawn rows of the grid, which shows row 5 at the top.
pub open spec fn rows_upto(b: Seq<i64>, k: int) -> Seq<char>
    decreases k,
{
    if k <= 0 {
        Seq::empty()
    } else {
        rows_upto(b, k - 1) + row_chars(b, 6 - k)
    }
}

/// The whole drawn grid: a frame line, the six rows top down, a frame line.
pub open spec fn rendered(b: Seq<i64>) -> Seq<char> {
    frame_chars() + rows_upto(b, 6) + frame_chars()
}

/// Total number of marks in columns 0 .. n.
pub open spec fn total_height_upto(b: Seq<i64>, n: int) -> int
    decreases n,
{
    if n <= 0 {
        0
    } else {
        total_height_upto(b, n - 1) + col_height(b, n - 1)
    }
}

/// Total number of marks on the board: one per move played.
pub open spec fn total_height(b: Seq<i64>) -> int {
    total_height_upto(b, 7)
}

proof fn lemma_total_height_upto_bounds(b: Seq<i64>, n: int)
    requires
        0 <= n <= 7,
    ensures
        0 <= total_height_upto(b, n) <= 6 * n,
    decreases n,
{
    if n > 0 {
        lemma_total_height_upto_bounds(b, n - 1);
        lemma_height_from_props(b, n - 1, 0);
    }
}

/// The board never holds more than its 42 cells worth of marks.
pub proof fn lemma_total_height_bounds(b: Seq<i64>)
    ensures
        0 <= total_height(b) <= 42,
{
    lemma_total_height_upto_bounds(b, 7);
}

proof fn lemma_total_height_upto_place(b: Seq<i64>, x: int, mark: i64, n: int)
    requires
        b.len() == 42,
        columns_settled(b),
        0 <= x < 7,
        col_open(b, x),
        mark != 0,
        0 <= n <= 7,
    ensures
        total_height_upto(place(b, x, mark), n) == total_height_upto(b, n) + if x < n {
            1int
        } else {
            0int
        },
    decreases n,
{
    lemma_place_effects(b, x, mark);
    if n > 0 {
        lemma_total_height_upto_place(b, x, mark, n - 1);
    }
}

proof fn lemma_total_height_upto_open(b: Seq<i64>, x: int, n: int)
    requires
        0 <= x < 7,
        col_open(b, x),
        0 <= n <= 7,
    ensures
        total_height_upto(b, n) <= 6 * n - if x < n {
            1int
        } else {
            0int
        },
    decreases n,
{
    if n > 0 {
        lemma_total_height_upto_open(b, x, n - 1);
        lemma_height_from_props(b, n - 1, 0);
    }
}

/// A board with an open column is not full.
pub proof fn lemma_open_col_total_height(b: Seq<i64>, x: int)
    requires
        0 <= x < 7,
        col_open(b, x),
    ensures
        total_height(b) <= 41,
{
    lemma_total_height_upto_open(b, x, 7);
}

/// Dropping a mark raises the total fill of the board by exactly one.
pub proof fn lemma_total_height_place(b: Seq<i64>, x: int, mark: i64)
    requires
        b.len() == 42,
        columns_settled(b),
        0 <= x < 7,
        col_open(b, x),
        mark != 0,
    ensures
        total_height(place(b, x, mark)) == total_height(b) + 1,
{
    lemma_total_height_upto_place(b, x, mark, 7);
}

/// Four marks of `p` in a row from (x, y), stepping by (dx, dy).
pub open spec fn line_win(b: Seq<i64>, p: int, x: int, y: int, dx: int, dy: int) -> bool {
    &&& cell(b, x, y) == p
    &&& cell(b, x + dx, y + dy) == p
    &&& cell(b, x + 2 * dx, y + 2 * dy) == p
    &&& cell(b, x + 3 * dx, y + 3 * dy) == p
}

pub open spec fn horiz_win_at(b: Seq<i64>, p: int, x: int, y: int) -> bool {
    0 <= x < 4 && 0 <= y < 6 && line_win(b, p, x, y, 1, 0)
}

pub open spec fn vert_win_at(b: Seq<i64>, p: int, x: int, y: int) -> bool {
    0 <= x < 7 && 0 <= y < 3 && line_win(b, p, x, y, 0, 1)
}

pub open spec fn diag_up_win_at(b: Seq<i64>, p: int, x: int, y: int) -> bool {
    0 <= x < 4 && 0 <= y < 3 && line_win(b, p, x, y, 1, 1)
}

pub open spec fn diag_down_win_at(b: Seq<i64>, p: int, x: int, y: int) -> bool {
    0 <= x < 4 && 3 <= y < 6 && line_win(b, p, x, y, 1, -1)
}

/// A winning window for `p` anchored at (x, y), in any of the four directions.
pub open spec fn win_at(b: Seq<i64>, p: int, x: int, y: int) -> bool {
    ||| horiz_win_at(b, p, x, y)
    ||| vert_win_at(b, p, x, y)
    ||| diag_up_win_at(b, p, x, y)
    ||| diag_down_win_at(b, p, x, y)
}

/// Player `p` has four aligned marks somewhere on the board.
pub open spec fn has_win(b: Seq<i64>, p: int) -> bool {
    exists|x: int, y: int| #[trigger] win_at(b, p, x, y)
}

/// The sign of the winning player, or 0; it decides the board only when at
/// most one player holds a winning line (any position reached by stopping at
/// the first win satisfies that).
pub open spec fn board_result(b: Seq<i64>) -> int {
    if has_win(b, 1) {
        1
    } else if has_win(b, -1) {
        -1
    } else {
        0
    }
}

/// The mark whose horizontal window starts at (x, y), or 0 when that window
/// is incomplete.
pub open spec fn horiz_window_mark(b: Seq<i64>, x: int, y: int) -> int {
    let m = cell(b, x, y);
    if m != 0 && cell(b, x + 1, y) == m && cell(b, x + 2, y) == m && cell(b, x + 3, y) == m {
        m
    } else {
        0
    }
}

/// The mark whose vertical window starts at (x, y), or 0.
pub open spec fn vert_window_mark(b: Seq<i64>, x: int, y: int) -> int {
    let m = cell(b, x, y);
    if m != 0 && cell(b, x, y + 1) == m && cell(b, x, y + 2) == m && cell(b, x, y + 3) == m {
        m
    } else {
        0
    }
}

/// The mark whose rising-diagonal window starts at (x, y), or 0.
pub open spec fn diag_up_window_mark(b: Seq<i64>, x: int, y: int) -> int {
    let m = cell(b, x, y);
    if m != 0 && cell(b, x + 1, y + 1) == m && cell(b, x + 2, y + 2) == m && cell(
        b,
        x + 3,
        y + 3,
    ) == m {
        m
    } else {
        0
    }
}

/// The mark whose falling-diagonal window starts at (x, y), or 0.
pub open spec fn diag_down_window_mark(b: Seq<i64>, x: int, y: int) -> int {
    let m = cell(b, x, y);
    if m != 0 && cell(b, x + 1, y - 1) == m && cell(b, x + 2, y - 2) == m && cell(
        b,
        x + 3,
        y - 3,
    ) == m {
        m
    } else {
        0
    }
}

/// The mark of the first complete horizontal window at or after (x, y) in
/// scan order: rows bottom up, starts left to right within a row.
pub open spec fn scan_horiz(b: Seq<i64>, y: int, x: int) -> int
    decreases 6 - y, 4 - x,
{
    if y < 0 || y >= 6 {
        0
    } else if x < 0 || x >= 4 {
        scan_horiz(b, y + 1, 0)
    } else if horiz_window_mark(b, x, y) != 0 {
        horiz_window_mark(b, x, y)
    } else {
        scan_horiz(b, y, x + 1)
    }
}

/// The mark of the first complete vertical window at or after (x, y) in
/// scan order.
pub open spec fn scan_vert(b: Seq<i64>, y: int, x: int) -> int
    decreases 3 - y, 7 - x,
{
    if y < 0 || y >= 3 {
        0
    } else if x < 0 || x >= 7 {
        scan_vert(b, y + 1, 0)
    } else if vert_window_mark(b, x, y) != 0 {
        vert_window_mark(b, x, y)
    } else {
        scan_vert(b, y, x + 1)
    }
}

/// The mark of the first complete diagonal window at or after (x, y) in
/// scan order; at each start the rising window from (x, y) is read before
/// the falling window from (x, y + 3).
pub open spec fn scan_diag(b: Seq<i64>, y: int, x: int) -> int
    decreases 3 - y, 4 - x,
{
    if y < 0 || y >= 3 {
        0
    } else if x < 0 || x >= 4 {
        scan_diag(b, y + 1, 0)
    } else if diag_up_window_mark(b, x, y) != 0 {
        diag_up_window_mark(b, x, y)
    } else if diag_down_window_mark(b, x, y + 3) != 0 {
        diag_down_window_mark(b, x, y + 3)
    } else {
        scan_diag(b, y, x + 1)
    }
}

/// What the terminal scan returns: the mark of the first complete window,
/// horizontal windows first, then vertical, then the diagonal families — a
/// function of the board alone.
pub open spec fn scan_result(b: Seq<i64>) -> int {
    if scan_horiz(b, 0, 0) != 0 {
        scan_horiz(b, 0, 0)
    } else if scan_vert(b, 0, 0) != 0 {
        scan_vert(b, 0, 0)
    } else {
        scan_diag(b, 0, 0)
    }
}

/// The board with every mark negated.
pub open spec fn negated(b: Seq<i64>) -> Seq<i64> {
    Seq::new(b.len(), |i: int| (-(b[i] as int)) as i64)
}

/// Every cell of the negated board is the negation of the original cell.
proof fn lemma_negated_cells(b: Seq<i64>)
    requires
        b.len() == 42,
        cells_in_range(b),
    ensures
        negated(b).len() == 42,
        forall|x: int, y: int|
            0 <= x < 7 && 0 <= y < 6 ==> #[trigger] cell(negated(b), x, y) == -cell(b, x, y),
{
    assert forall|x: int, y: int| 0 <= x < 7 && 0 <= y < 6 implies #[trigger] cell(negated(b), x, y)
        == -cell(b, x, y) by {
        assert(0 <= y * 7 + x < 42);
    }
}

proof fn lemma_scan_horiz_negated(b: Seq<i64>, y: int, x: int)
    requires
        b.len() == 42,
        cells_in_range(b),
    ensures
        scan_horiz(negated(b), y, x) == -scan_horiz(b, y, x),
    decreases 6 - y, 4 - x,
{
    lemma_negated_cells(b);
    if y < 0 || y >= 6 {
    } else if x < 0 || x >= 4 {
        lemma_scan_horiz_negated(b, y + 1, 0);
    } else {
        assert(horiz_window_mark(negated(b), x, y) == -horiz_window_mark(b, x, y));
        if horiz_window_mark(b, x, y) == 0 {
            lemma_scan_horiz_negated(b, y, x + 1);
        }
    }
}

proof fn lemma_scan_vert_negated(b: Seq<i64>, y: int, x: int)
    requires
        b.len() == 42,
        cells_in_range(b),
    ensures
        scan_vert(negated(b), y, x) == -scan_vert(b, y, x),
    decreases 3 - y, 7 - x,
{
    lemma_negated_cells(b);
    if y < 0 || y >= 3 {
    } else if x < 0 || x >= 7 {
        lemma_scan_vert_negated(b, y + 1, 0);
    } else {
        assert(vert_window_mark(negated(b), x, y) == -vert_window_mark(b, x, y));
        if vert_window_mark(b, x, y) == 0 {
            lemma_scan_vert_negated(b, y, x + 1);
        }
    }
}

proof fn lemma_scan_diag_negated(b: Seq<i64>, y: int, x: int)
    requires
        b.len() == 42,
        cells_in_range(b),
    ensures
        scan_diag(negated(b), y, x) == -scan_diag(b, y, x),
    decreases 3 - y, 4 - x,
{
    lemma_negated_cells(b);
    if y < 0 || y >= 3 {
    } else if x < 0 || x >= 4 {
        lemma_scan_diag_negated(b, y + 1, 0);
    } else {
        assert(diag_up_window_mark(negated(b), x, y) == -diag_up_window_mark(b, x, y));
        assert(diag_down_window_mark(negated(b), x, y + 3) == -diag_down_window_mark(b, x, y + 3));
        if diag_up_window_mark(b, x, y) == 0 && diag_down_window_mark(b, x, y + 3) == 0 {
            lemma_scan_diag_negated(b, y, x + 1);
        }
    }
}

/// Terminal symmetry: negating every mark of the board (which also hands the
/// turn to the other player) negates the terminal result exactly — the scan
/// returns the opposite sign on every board, whatever lines it holds; and
/// wherever at most one player holds a line, the winner predicate flips the
/// same way.
pub proof fn lemma_terminal_symmetry(b: Seq<i64>)
    requires
        b.len() == 42,
        cells_in_range(b),
    ensures
        scan_result(negated(b)) == -scan_result(b),
        !(has_win(b, 1) && has_win(b, -1)) ==> board_result(negated(b)) == -board_result(b),
{
    lemma_scan_horiz_negated(b, 0, 0);
    lemma_scan_vert_negated(b, 0, 0);
    lemma_scan_diag_negated(b, 0, 0);
    if !(has_win(b, 1) && has_win(b, -1)) {
        assert forall|x: int, y: int| 0 <= x < 7 && 0 <= y < 6 implies #[trigger] cell(
            negated(b),
            x,
            y,
        ) == -cell(b, x, y) by {
            assert(0 <= y * 7 + x < 42);
        }
        assert(has_win(negated(b), 1) <==> has_win(b, -1)) by {
            if has_win(b, -1) {
                let (x, y) = choose|x: int, y: int| #[trigger] win_at(b, -1, x, y);
                assert(win_at(negated(b), 1, x, y));
            }
            if has_win(negated(b), 1) {
                let (x, y) = choose|x: int, y: int| #[trigger] win_at(negated(b), 1, x, y);
                assert(win_at(b, -1, x, y));
            }
        }
        assert(has_win(negated(b), -1) <==> has_win(b, 1)) by {
            if has_win(b, 1) {
                let (x, y) = choose|x: int, y: int| #[trigger] win_at(b, 1, x, y);
                assert(win_at(negated(b), -1, x, y));
            }
            if has_win(negated(b), -1) {
                let (x, y) = choose|x: int, y: int| #[trigger] win_at(negated(b), -1, x, y);
                assert(win_at(b, 1, x, y));
            }
        }
    }
}

/// The open columns among 0 .. n, in increasing order.
pub open spec fn legal_cols_upto(b: Seq<i64>, n: int) -> Seq<i64>
    decreases n,
{
    if n <= 0 {
        Seq::empty()
    } else if col_open(b, n - 1) {
        legal_cols_upto(b, n - 1).push((n - 1) as i64)
    } else {
        legal_cols_upto(b, n - 1)
    }
}

/// The columns that may still be played, in increasing order.
pub open spec fn legal_cols(b: Seq<i64>) -> Seq<i64> {
    legal_cols_upto(b, 7)
}

/// What `legal_cols_upto` collects: exactly the open columns below `n`,
/// strictly increasing.
pub proof fn lemma_legal_cols_upto_props(b: Seq<i64>, n: int)
    requires
        0 <= n <= 7,
    ensures
        forall|j: int|
            0 <= j < legal_cols_upto(b, n).len() ==> 0 <= #[trigger] legal_cols_upto(b, n)[j] < n
                && col_open(b, legal_cols_upto(b, n)[j] as int),
        forall|j1: int, j2: int|
            0 <= j1 < j2 < legal_cols_upto(b, n).len() ==> #[trigger] legal_cols_upto(b, n)[j1]
                < #[trigger] legal_cols_upto(b, n)[j2],
        forall|c: int|
            0 <= c < n && col_open(b, c) ==> exists|j: int|
                0 <= j < legal_cols_upto(b, n).len() && #[trigger] legal_cols_upto(b, n)[j] == c,
        legal_cols_upto(b, n).len() <= n,
    decreases n,
{
    if n > 0 {
        lemma_legal_cols_upto_props(b, n - 1);
        if col_open(b, n - 1) {
            assert forall|c: int|
                0 <= c < n && col_open(b, c) implies exists|j: int|
                0 <= j < legal_cols_upto(b, n).len() && #[trigger] legal_cols_upto(b, n)[j]
                    == c by {
                if c == n - 1 {
                    assert(legal_cols_upto(b, n)[legal_cols_upto(b, n).len() - 1] == c);
                } else {
                    let j = choose|j: int|
                        0 <= j < legal_cols_upto(b, n - 1).len() && #[trigger] legal_cols_upto(
                            b,
                            n - 1,
                        )[j] == c;
                    assert(legal_cols_upto(b, n)[j] == c);
                }
            }
        } else {
            assert forall|c: int|
                0 <= c < n && col_open(b, c) implies exists|j: int|
                0 <= j < legal_cols_upto(b, n).len() && #[trigger] legal_cols_upto(b, n)[j]
                    == c by {
                let j = choose|j: int|
                    0 <= j < legal_cols_upto(b, n - 1).len() && #[trigger] legal_cols_upto(
                        b,
                        n - 1,
                    )[j] == c;
                assert(legal_cols_upto(b, n)[j] == c);
            }
        }
    }
}

/// The open columns of the board, each open, distinct, and complete.
pub proof fn lemma_legal_cols_props(b: Seq<i64>)
    ensures
        forall|j: int|
            0 <= j < legal_cols(b).len() ==> 0 <= #[trigger] legal_cols(b)[j] < 7 && col_open(
                b,
                legal_cols(b)[j] as int,
            ),
        forall|j1: int, j2: int|
            0 <= j1 < j2 < legal_cols(b).len() ==> #[trigger] legal_cols(b)[j1]
                < #[trigger] legal_cols(b)[j2],
        forall|c: int|
            0 <= c < 7 && col_open(b, c) ==> exists|j: int|
                0 <= j < legal_cols(b).len() && #[trigger] legal_cols(b)[j] == c,
        legal_cols(b).len() <= 7,
{
    lemma_legal_cols_upto_props(b, 7);
    assert forall|c: int| 0 <= c < 7 && col_open(b, c) implies exists|j: int|
        0 <= j < legal_cols(b).len() && #[trigger] legal_cols(b)[j] == c by {
        let j = choose|j: int|
            0 <= j < legal_cols_upto(b, 7).len() && #[trigger] legal_cols_upto(b, 7)[j] == c;
        assert(legal_cols(b)[j] == c);
    }
}

/// Dropping a mark into an open column fills the lowest empty cell of that
/// column, raises its height by one, and touches nothing else.
pub proof fn lemma_place_effects(b: Seq<i64>, x: int, mark: i64)
    requires
        b.len() == 42,
        columns_settled(b),
        0 <= x < 7,
        col_open(b, x),
        mark != 0,
    ensures
        0 <= col_height(b, x) <= 5,
        cell(b, x, col_height(b, x)) == 0,
        place(b, x, mark).len() == 42,
        cell(place(b, x, mark), x, col_height(b, x)) == mark,
        forall|x2: int, y2: int|
            0 <= x2 < 7 && 0 <= y2 < 6 && !(x2 == x && y2 == col_height(b, x))
                ==> #[trigger] cell(place(b, x, mark), x2, y2) == cell(b, x2, y2),
        col_height(place(b, x, mark), x) == col_height(b, x) + 1,
        forall|x2: int|
            0 <= x2 < 7 && x2 != x ==> #[trigger] col_height(place(b, x, mark), x2) == col_height(
                b,
                x2,
            ),
        columns_settled(place(b, x, mark)),
        cells_in_range(b) && -1 <= mark <= 1 ==> cells_in_range(place(b, x, mark)),
{
    let h = col_height(b, x);
    let p = place(b, x, mark);
    lemma_height_from_props(b, x, 0);
    assert(h <= 5);  // row 5 is empty, so it is not below the height
    assert forall|x2: int, y2: int|
        0 <= x2 < 7 && 0 <= y2 < 6 && !(x2 == x && y2 == h) implies #[trigger] cell(p, x2, y2)
        == cell(b, x2, y2) by {
        if y2 * 7 + x2 == h * 7 + x {
            lemma_index_injective(x2, y2, x, h);
        }
    }
    lemma_empty_above(b, x, h);
    assert forall|r: int| 0 <= r < h + 1 implies cell(p, x, r) != 0 by {
        if r < h {
            assert(cell(p, x, r) == cell(b, x, r));
        }
    }
    lemma_height_determined(p, x, h + 1);
    assert forall|x2: int| 0 <= x2 < 7 && x2 != x implies #[trigger] col_height(p, x2)
        == col_height(b, x2) by {
        lemma_height_from_props(b, x2, 0);
        lemma_height_determined(p, x2, col_height(b, x2));
    }
    assert forall|x2: int, y2: int|
        0 <= x2 < 7 && 0 <= y2 < 5 && #[trigger] cell(p, x2, y2) == 0 implies cell(p, x2, y2 + 1)
        == 0 by {
        if x2 == x {
            assert(y2 >= h + 1);
            assert(cell(b, x2, y2) == 0);
        } else {
            assert(cell(b, x2, y2) == 0);
        }
    }
    assert(cells_in_range(b) && -1 <= mark <= 1 ==> cells_in_range(p)) by {
        if cells_in_range(b) && -1 <= mark <= 1 {
            assert forall|i: int| 0 <= i < 42 implies -1 <= #[trigger] p[i] <= 1 by {
                if i != h * 7 + x {
                    assert(p[i] == b[i]);
                }
            }
        }
    }
}

/// Replaying a legal move sequence yields a settled 42-cell board of marks.
pub proof fn lemma_replay_invariants(moves: Seq<i64>)
    requires
        legal_seq(moves),
    ensures
        replay(moves).len() == 42,
        cells_in_range(replay(moves)),
        columns_settled(replay(moves)),
    decreases moves.len(),
{
    if moves.len() == 0 {
        assert(cells_in_range(empty_board())) by {
            assert(forall|i: int| 0 <= i < 42 ==> #[trigger] empty_board()[i] == 0);
        }
        assert(columns_settled(empty_board())) by {
            assert forall|x: int, y: int|
                0 <= x < 7 && 0 <= y < 5 && #[trigger] cell(empty_board(), x, y) == 0 implies cell(
                empty_board(),
                x,
                y + 1,
            ) == 0 by {
                assert(0 <= (y + 1) * 7 + x < 42);
            }
        }
    } else {
        lemma_replay_invariants(moves.drop_last());
        lemma_place_effects(
            replay(moves.drop_last()),
            moves.last() as int,
            persp_after(moves.len() - 1) as i64,
        );
    }
}

/// A move adds one mark of the mover alone, so it can complete a line only
/// for the mover: the other player has no more lines than before.
pub proof fn lemma_place_no_win_for_other(b: Seq<i64>, x: int, mark: i64)
    requires
        b.len() == 42,
        columns_settled(b),
        0 <= x < 7,
        col_open(b, x),
        mark == 1 || mark == -1,
        !has_win(b, -mark as int),
    ensures
        !has_win(place(b, x, mark), -mark as int),
{
    lemma_place_effects(b, x, mark);
    let p = place(b, x, mark);
    let h = col_height(b, x);
    if has_win(p, -mark as int) {
        let (x0, y0) = choose|x0: int, y0: int| #[trigger] win_at(p, -mark as int, x0, y0);
        assert forall|x2: int, y2: int|
            0 <= x2 < 7 && 0 <= y2 < 6 && cell(p, x2, y2) == -mark implies #[trigger] cell(
            b,
            x2,
            y2,
        ) == -mark by {
            if x2 == x && y2 == h {
                assert(cell(p, x2, y2) == mark);
            }
        }
        assert(win_at(b, -mark as int, x0, y0));
    }
}

/// Round trip of the board: dropping a mark into an open column and then
/// taking back the topmost mark of that column restores the board exactly.
pub proof fn lemma_place_unplace(b: Seq<i64>, x: int, mark: i64)
    requires
        b.len() == 42,
        columns_settled(b),
        0 <= x < 7,
        col_open(b, x),
        mark != 0,
    ensures
        unplace(place(b, x, mark), x) == b,
{
    lemma_place_effects(b, x, mark);
    let h = col_height(b, x);
    assert(unplace(place(b, x, mark), x) =~= b);
}

/// Round trip of the whole game state: on a well-formed game, playing a legal
/// column and undoing it restores board, history and perspective to their
/// exact prior values, written out through the spec transitions that
/// `make_move` and `undo_move` promise.
pub proof fn lemma_apply_undo_round_trip(g: ConnectFourGame, c: i64)
    requires
        g.wf(),
        0 <= c < 7,
        col_open(g.board_state@, c as int),
    ensures
        unplace(place(g.board_state@, c as int, g.perspective), c as int) == g.board_state@,
        g.history@.push(c).drop_last() == g.history@,
        -(-g.perspective) == g.perspective,
{
    lemma_replay_invariants(g.history@);
    lemma_place_unplace(g.board_state@, c as int, g.perspective);
    assert(g.history@.push(c).drop_last() =~= g.history@);
}

impl ConnectFourGame {
    pub fn new() -> (g: ConnectFourGame)
        ensures
            g.wf(),
            g.board_state@ == empty_board(),
            g.perspective == 1,
            g.history@ == Seq::<i64>::empty(),
    {
        let g = ConnectFourGame { board_state: [0i64; 42], perspective: 1, history: Vec::new() };
        proof {
            assert(g.board_state@ =~= empty_board());
        }
        g
    }

    pub fn position_to_index(&self, x: i64, y: i64) -> (i: usize)
        requires
            0 <= x < 7,
            0 <= y < 6,
        ensures
            i == y * 7 + x,
    {
        (y * 7 + x) as usize
    }

    pub fn move_valid(&self, position: i64) -> (r: bool)
        requires
            0 <= position < 7,
        ensures
            r == col_open(self.board_state@, position as int),
    {
        self.board_state[self.position_to_index(position, 5)] == 0
    }

    pub fn valid_moves(&self) -> (moves: Vec<i64>)
        ensures
            moves@ == legal_cols(self.board_state@),
    {
        let mut moves: Vec<i64> = Vec::new();
        for x in 0..7i64
            invariant
                moves@ == legal_cols_upto(self.board_state@, x as int),
        {
            if self.move_valid(x) {
                moves.push(x);
            }
        }
        moves
    }

    /// Draws the board as text, top row first, framed by dash lines; showing
    /// it is the caller's business.
    #[verifier::loop_isolation(false)]
    pub fn render(&self) -> (s: String)
        ensures
            s@ == rendered(self.board_state@),
    {
        let ghost b = self.board_state@;
        let mut s = String::new();
        s.append("-------\n");
        proof {
            reveal_strlit("-------\n");
            assert(s@ =~= frame_chars());
        }
        let mut i: usize = 0;
        while i < 6
            invariant
                0 <= i <= 6,
                s@ == frame_chars() + rows_upto(b, i as int),
            decreases 6 - i,
        {
            let ghost row_start = s@;
            let mut x: usize = 0;
            while x < 7
                invariant
                    0 <= x <= 7,
                    0 <= i < 6,
                    s@ == row_start + row_chars(b, 5 - i as int).subrange(0, x as int),
                decreases 7 - x,
            {
                let value = self.board_state[(5 - i) * 7 + x];
                if value == 1 {
                    s.append("O");
                    proof {
                        reveal_strlit("O");
                    }
                } else if value == -1 {
                    s.append("X");
                    proof {
                        reveal_strlit("X");
                    }
                } else {
                    s.append(" ");
                    proof {
                        reveal_strlit(" ");
                    }
                }
                x += 1;
                proof {
                    assert(s@ =~= row_start + row_chars(b, 5 - i as int).subrange(0, x as int));
                }
            }
            s.append("\n");
            i += 1;
            proof {
                reveal_strlit("\n");
                assert(row_chars(b, 6 - i as int).subrange(0, 7) + seq!['\n'] =~= row_chars(
                    b,
                    6 - i as int,
                ));
                assert(s@ =~= frame_chars() + rows_upto(b, i as int));
            }
        }
        s.append("-------\n");
        proof {
            reveal_strlit("-------\n");
            assert(s@ =~= rendered(b));
        }
        s
    }

    /// Scans every four-cell window (all horizontal ones, then vertical, then
    /// the two diagonal families) and returns the mark of the first complete
    /// window, or 0 when no player has four in a row. The returned sign is
    /// pinned completely: it equals `scan_result`, a function of the board
    /// alone, so equal boards always answer alike. Wherever at most one
    /// player holds a line — every board reached by play that stops at the
    /// first win — it is also the winner predicate's verdict; on a board
    /// where both players hold lines the scan order picks among them.
    #[verifier::loop_isolation(false)]
    pub fn result(&self) -> (r: i64)
        requires
            cells_in_range(self.board_state@),
        ensures
            -1 <= r <= 1,
            r == scan_result(self.board_state@),
            r != 0 ==> has_win(self.board_state@, r as int),
            (r == 0) <==> (!has_win(self.board_state@, 1) && !has_win(self.board_state@, -1)),
            !(has_win(self.board_state@, 1) && has_win(self.board_state@, -1)) ==> r
                == board_result(self.board_state@),
    {
        let ghost b = self.board_state@;
        let mut start_y: i64 = 0;
        while start_y < 6
            invariant
                0 <= start_y <= 6,
                scan_horiz(b, 0, 0) == scan_horiz(b, start_y as int, 0),
                forall|p: int, x: int, y: int|
                    p != 0 && y < start_y ==> !#[trigger] horiz_win_at(b, p, x, y),
            decreases 6 - start_y,
        {
            let mut start_x: i64 = 0;
            while start_x < 4
                invariant
                    0 <= start_x <= 4,
                    scan_horiz(b, 0, 0) == scan_horiz(b, start_y as int, start_x as int),
                    forall|p: int, x: int|
                        p != 0 && x < start_x ==> !#[trigger] horiz_win_at(b, p, x, start_y as int),
                decreases 4 - start_x,
            {
                let looking_for = self.board_state[self.position_to_index(start_x, start_y)];
                if looking_for != 0 && self.board_state[self.position_to_index(
                    start_x + 1,
                    start_y,
                )] == looking_for && self.board_state[self.position_to_index(start_x + 2, start_y)]
                    == looking_for && self.board_state[self.position_to_index(
                    start_x + 3,
                    start_y,
                )] == looking_for {
                    proof {
                        assert(-1 <= b[start_y as int * 7 + start_x as int] <= 1);
                        assert(win_at(b, looking_for as int, start_x as int, start_y as int));
                        assert(horiz_window_mark(b, start_x as int, start_y as int)
                            == looking_for);
                        assert(scan_result(b) == looking_for);
                    }
                    return looking_for;
                }
                proof {
                    assert(horiz_window_mark(b, start_x as int, start_y as int) == 0);
                }
                start_x += 1;
            }
            start_y += 1;
        }
        proof {
            assert(scan_horiz(b, 0, 0) == 0);
        }
        let mut start_y: i64 = 0;
        while start_y < 3
            invariant
                0 <= start_y <= 3,
                scan_vert(b, 0, 0) == scan_vert(b, start_y as int, 0),
                forall|p: int, x: int, y: int|
                    p != 0 && y < start_y ==> !#[trigger] vert_win_at(b, p, x, y),
            decreases 3 - start_y,
        {
            let mut start_x: i64 = 0;
            while start_x < 7
                invariant
                    0 <= start_x <= 7,
                    scan_vert(b, 0, 0) == scan_vert(b, start_y as int, start_x as int),
                    forall|p: int, x: int|
                        p != 0 && x < start_x ==> !#[trigger] vert_win_at(b, p, x, start_y as int),
                decreases 7 - start_x,
            {
                let looking_for = self.board_state[self.position_to_index(start_x, start_y)];
                if looking_for != 0 && self.board_state[self.position_to_index(
                    start_x,
                    start_y + 1,
                )] == looking_for && self.board_state[self.position_to_index(start_x, start_y + 2)]
                    == looking_for && self.board_state[self.position_to_index(
                    start_x,
                    start_y + 3,
                )] == looking_for {
                    proof {
                        assert(-1 <= b[start_y as int * 7 + start_x as int] <= 1);
                        assert(win_at(b, looking_for as int, start_x as int, start_y as int));
                        assert(vert_window_mark(b, start_x as int, start_y as int)
                            == looking_for);
                        assert(scan_result(b) == looking_for);
                    }
                    return looking_for;
                }
                proof {
                    assert(vert_window_mark(b, start_x as int, start_y as int) == 0);
                }
                start_x += 1;
            }
            start_y += 1;
        }
        proof {
            assert(scan_vert(b, 0, 0) == 0);
        }
        let mut start_y: i64 = 0;
        while start_y < 3
            invariant
                0 <= start_y <= 3,
                scan_diag(b, 0, 0) == scan_diag(b, start_y as int, 0),
                forall|p: int, x: int, y: int|
                    p != 0 && y < start_y ==> !#[trigger] diag_up_win_at(b, p, x, y),
                forall|p: int, x: int, y: int|
                    p != 0 && y < start_y + 3 ==> !#[trigger] diag_down_win_at(b, p, x, y),
            decreases 3 - start_y,
        {
            let mut start_x: i64 = 0;
            while start_x < 4
                invariant
                    0 <= start_x <= 4,
                    scan_diag(b, 0, 0) == scan_diag(b, start_y as int, start_x as int),
                    forall|p: int, x: int|
                        p != 0 && x < start_x ==> !#[trigger] diag_up_win_at(
                            b,
                            p,
                            x,
                            start_y as int,
                        ),
                    forall|p: int, x: int|
                        p != 0 && x < start_x ==> !#[trigger] diag_down_win_at(
                            b,
                            p,
                            x,
                            start_y as int + 3,
                        ),
                decreases 4 - start_x,
            {
                let looking_for = self.board_state[self.position_to_index(start_x, start_y)];
                if looking_for != 0 && self.board_state[self.position_to_index(
                    start_x + 1,
                    start_y + 1,
                )] == looking_for && self.board_state[self.position_to_index(
                    start_x + 2,
                    start_y + 2,
                )] == looking_for && self.board_state[self.position_to_index(
                    start_x + 3,
                    start_y + 3,
                )] == looking_for {
                    proof {
                        assert(-1 <= b[start_y as int * 7 + start_x as int] <= 1);
                        assert(win_at(b, looking_for as int, start_x as int, start_y as int));
                        assert(diag_up_window_mark(b, start_x as int, start_y as int)
                            == looking_for);
                        assert(scan_result(b) == looking_for);
                    }
                    return looking_for;
                }
                proof {
                    assert(diag_up_window_mark(b, start_x as int, start_y as int) == 0);
                }
                let looking_for = self.board_state[self.position_to_index(start_x, start_y + 3)];
                if looking_for != 0 && self.board_state[self.position_to_index(
                    start_x + 1,
                    start_y + 2,
                )] == looking_for && self.board_state[self.position_to_index(
                    start_x + 2,
                    start_y + 1,
                )] == looking_for && self.board_state[self.position_to_index(start_x + 3, start_y)]
                    == looking_for {
                    proof {
                        assert(-1 <= b[(start_y as int + 3) * 7 + start_x as int] <= 1);
                        assert(win_at(b, looking_for as int, start_x as int, start_y as int + 3));
                        assert(diag_down_window_mark(b, start_x as int, start_y as int + 3)
                            == looking_for);
                        assert(scan_result(b) == looking_for);
                    }
                    return looking_for;
                }
                proof {
                    assert(diag_down_window_mark(b, start_x as int, start_y as int + 3) == 0);
                }
                start_x += 1;
            }
            start_y += 1;
        }
        proof {
            assert(scan_diag(b, 0, 0) == 0);
            assert(scan_result(b) == 0);
            assert forall|x: int, y: int| !#[trigger] win_at(b, 1, x, y) by {}
            assert forall|x: int, y: int| !#[trigger] win_at(b, -1, x, y) by {}
            assert(!has_win(b, 1));
            assert(!has_win(b, -1));
        }
        return 0;
    }

    pub fn make_move(&mut self, position: i64)
        requires
            old(self).wf(),
            0 <= position < 7,
            col_open(old(self).board_state@, position as int),
        ensures
            final(self).wf(),
            final(self).board_state@ == place(
                old(self).board_state@,
                position as int,
                old(self).perspective,
            ),
            final(self).history@ == old(self).history@.push(position),
            final(self).perspective == -old(self).perspective,
    {
        let ghost b0 = self.board_state@;
        let ghost p0 = self.perspective;
        let ghost h0 = self.history@;
        proof {
            lemma_replay_invariants(h0);
            lemma_place_effects(b0, position as int, p0);
        }
        let x = position as usize;
        let mut row: usize = 0;
        while row < 6 && self.board_state[row * 7 + x] != 0
            invariant
                0 <= row <= 6,
                x == position as int,
                0 <= x < 7,
                self.board_state@ == b0,
                self.perspective == p0,
                self.history@ == h0,
                b0.len() == 42,
                forall|r: int| 0 <= r < row ==> cell(b0, x as int, r) != 0,
            decreases 6 - row,
        {
            row += 1;
        }
        proof {
            lemma_height_determined(b0, x as int, row as int);
        }
        self.board_state[row * 7 + x] = self.perspective;
        self.history.push(position);
        self.perspective = -self.perspective;
        proof {
            assert(self.history@.drop_last() =~= h0);
            assert(self.board_state@ == place(b0, position as int, p0));
            assert(self.perspective == persp_after(self.history@.len() as int)) by {
                assert(self.history@.len() == h0.len() + 1);
            }
        }
    }

    pub fn undo_move(&mut self)
        requires
            old(self).wf(),
            old(self).history@.len() > 0,
        ensures
            final(self).wf(),
            final(self).history@ == old(self).history@.drop_last(),
            final(self).perspective == -old(self).perspective,
            final(self).board_state@ == replay(old(self).history@.drop_last()),
            final(self).board_state@ == unplace(
                old(self).board_state@,
                old(self).history@.last() as int,
            ),
    {
        let ghost b0 = self.board_state@;
        let ghost p0 = self.perspective;
        let ghost h0 = self.history@;
        let ghost rest = h0.drop_last();
        let ghost mark = persp_after(rest.len() as int) as i64;
        let ghost hh = col_height(replay(rest), h0.last() as int);
        proof {
            lemma_replay_invariants(h0);
            lemma_replay_invariants(rest);
            lemma_place_effects(replay(rest), h0.last() as int, mark);
            lemma_place_unplace(replay(rest), h0.last() as int, mark);
            lemma_height_from_props(b0, h0.last() as int, 0);
            if hh + 1 < 6 {
                lemma_empty_above(b0, h0.last() as int, hh + 1);
            }
        }
        let last_move = self.history.pop().unwrap();
        let x = last_move as usize;
        let mut i: usize = 0;
        while i < 6 && self.board_state[(5 - i) * 7 + x] == 0
            invariant
                0 <= i <= 6,
                x == h0.last() as int,
                0 <= x < 7,
                self.board_state@ == b0,
                self.perspective == p0,
                self.history@ == rest,
                b0.len() == 42,
                cell(b0, x as int, hh) != 0,
                0 <= hh <= 5,
                forall|r: int| 6 - i <= r < 6 ==> cell(b0, x as int, r) == 0,
            decreases 6 - i,
        {
            proof {
                if 5 - i == hh {
                    assert(cell(b0, x as int, hh) == 0);
                }
            }
            i += 1;
        }
        proof {
            assert(i < 6);
            assert(5 - i >= hh);
            assert(5 - i <= hh) by {
                if 5 - i > hh {
                    assert(cell(b0, x as int, 5 - i) == 0);
                }
            }
        }
        self.board_state[(5 - i) * 7 + x] = 0;
        self.perspective = -self.perspective;
        proof {
            assert(self.board_state@ == unplace(b0, x as int));
            assert(self.perspective == persp_after(rest.len() as int)) by {
                assert(h0.len() == rest.len() + 1);
            }
        }
    }
}

} // verus!
