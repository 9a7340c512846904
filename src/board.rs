use vstd::prelude::*;

verus! {

/// Pointer x-coordinate of the centre of the first tile.
pub const START_X: i32 = 35;

/// Pointer y-coordinate of the centre of the first tile.
pub const START_Y: i32 = 165;

/// Horizontal distance between the centres of neighbouring tiles.
pub const OFFSET_X: i32 = 30;

/// Vertical distance between the centres of neighbouring tiles.
pub const OFFSET_Y: i32 = 33;

/// The pointer x-coordinate of grid column `x`.
pub open spec fn pixel_x(x: int) -> int {
    START_X + x * OFFSET_X
}

/// The pointer y-coordinate of grid row `y`.
pub open spec fn pixel_y(y: int) -> int {
    START_Y + y * OFFSET_Y
}

/// The pointer position of a grid cell fits the pointer's coordinates.
pub open spec fn on_screen(x: int, y: int) -> bool {
    &&& i32::MIN <= x * OFFSET_X <= i32::MAX
    &&& i32::MIN <= y * OFFSET_Y <= i32::MAX
    &&& i32::MIN <= pixel_x(x) <= i32::MAX
    &&& i32::MIN <= pixel_y(y) <= i32::MAX
}

/// The move from the centre of grid cell `grid_pos` to that of cell (`x`, `y`).
pub fn grid_to_mouse(grid_pos: (i32, i32), x: i32, y: i32) -> (r: (i32, i32))
    requires
        on_screen(grid_pos.0 as int, grid_pos.1 as int),
        on_screen(x as int, y as int),
        i32::MIN <= pixel_x(x as int) - pixel_x(grid_pos.0 as int) <= i32::MAX,
        i32::MIN <= pixel_y(y as int) - pixel_y(grid_pos.1 as int) <= i32::MAX,
    ensures
        r.0 == pixel_x(x as int) - pixel_x(grid_pos.0 as int),
        r.1 == pixel_y(y as int) - pixel_y(grid_pos.1 as int),
{
    let (gx, gy) = grid_pos;
    let current = (START_X + gx * OFFSET_X, START_Y + gy * OFFSET_Y);
    let target = (START_X + x * OFFSET_X, START_Y + y * OFFSET_Y);
    (target.0 - current.0, target.1 - current.1)
}

/// A cell whose pointer position fits, with both coordinates non-negative.
pub open spec fn cell_fits(cell: (usize, usize)) -> bool {
    pixel_x(cell.0 as int) <= i32::MAX && pixel_y(cell.1 as int) <= i32::MAX
}

/// A cell that fits has a pointer position that fits.
proof fn lemma_cell_on_screen(cell: (usize, usize))
    requires
        cell_fits(cell),
    ensures
        on_screen(cell.0 as int, cell.1 as int),
        cell.0 <= i32::MAX,
        cell.1 <= i32::MAX,
{
    assert(0 <= cell.0 as int * OFFSET_X) by (nonlinear_arith);
    assert(0 <= cell.1 as int * OFFSET_Y) by (nonlinear_arith);
}

/// The cell that the pointer stands on before move `i` of a path: the
/// grid origin before the first, else the cell of the previous move.
pub open spec fn cell_before(path: Seq<(usize, usize)>, i: int) -> (usize, usize) {
    if i == 0 {
        (0usize, 0usize)
    } else {
        path[i - 1]
    }
}

/// `deltas` are the pointer moves that trace `path` from the grid origin.
pub open spec fn traces(path: Seq<(usize, usize)>, deltas: Seq<(i32, i32)>) -> bool {
    &&& deltas.len() == path.len()
    &&& forall|i: int|
        0 <= i < path.len() ==> (#[trigger] deltas[i]).0 == pixel_x(path[i].0 as int) - pixel_x(
            cell_before(path, i).0 as int,
        ) && deltas[i].1 == pixel_y(path[i].1 as int) - pixel_y(cell_before(path, i).1 as int)
}

/// The relative pointer moves that trace a word's path: the pointer starts
/// at the grid origin, cell (0, 0), and goes to each cell in turn.
pub fn path_to_deltas(path: &Vec<(usize, usize)>) -> (r: Vec<(i32, i32)>)
    requires
        forall|i: int| 0 <= i < path@.len() ==> cell_fits(#[trigger] path@[i]),
    ensures
        traces(path@, r@),
{
    let mut points: Vec<(i32, i32)> = Vec::new();
    let mut grid_pos: (usize, usize) = (0, 0);
    let mut i: usize = 0;
    while i < path.len()
        invariant
            i <= path@.len(),
            forall|k: int| 0 <= k < path@.len() ==> cell_fits(#[trigger] path@[k]),
            grid_pos == cell_before(path@, i as int),
            points@.len() == i,
            forall|k: int|
                0 <= k < i ==> (#[trigger] points@[k]).0 == pixel_x(path@[k].0 as int) - pixel_x(
                    cell_before(path@, k).0 as int,
                ) && points@[k].1 == pixel_y(path@[k].1 as int) - pixel_y(
                    cell_before(path@, k).1 as int,
                ),
        decreases path@.len() - i,
    {
        let (x, y) = path[i];
        proof {
            lemma_cell_on_screen(path@[i as int]);
            lemma_cell_on_screen(grid_pos);
        }
        let delta = grid_to_mouse((grid_pos.0 as i32, grid_pos.1 as i32), x as i32, y as i32);
        points.push(delta);
        grid_pos = (x, y);
        i += 1;
    }
    points
}

/// The sum of the horizontal parts of some moves.
pub open spec fn sum_dx(d: Seq<(i32, i32)>) -> int
    decreases d.len(),
{
    if d.len() == 0 {
        0
    } else {
        sum_dx(d.drop_last()) + d.last().0
    }
}

/// The sum of the vertical parts of some moves.
pub open spec fn sum_dy(d: Seq<(i32, i32)>) -> int
    decreases d.len(),
{
    if d.len() == 0 {
        0
    } else {
        sum_dy(d.drop_last()) + d.last().1
    }
}

/// The moves that trace a path add up to the move from the grid origin to
/// the last cell: the pointer drifts by nothing along the way.
pub proof fn lemma_deltas_telescope(path: Seq<(usize, usize)>, deltas: Seq<(i32, i32)>)
    requires
        traces(path, deltas),
        path.len() > 0,
    ensures
        sum_dx(deltas) == pixel_x(path.last().0 as int) - pixel_x(0),
        sum_dy(deltas) == pixel_y(path.last().1 as int) - pixel_y(0),
    decreases path.len(),
{
    let n = path.len() - 1;
    if n > 0 {
        let p = path.drop_last();
        let d = deltas.drop_last();
        assert forall|i: int| 0 <= i < p.len() implies cell_before(p, i) == cell_before(path, i) by {}
        assert(traces(p, d)) by {
            assert forall|i: int| 0 <= i < p.len() implies (#[trigger] d[i]).0 == pixel_x(p[i].0 as int) - pixel_x(
                cell_before(p, i).0 as int,
            ) && d[i].1 == pixel_y(p[i].1 as int) - pixel_y(cell_before(p, i).1 as int) by {
                assert(d[i] == deltas[i]);
            }
        }
        lemma_deltas_telescope(p, d);
        assert(p.last() == path[n - 1]);
    } else {
        assert(sum_dx(deltas.drop_last()) == 0);
        assert(sum_dy(deltas.drop_last()) == 0);
    }
    assert(deltas[n] == deltas.last());
    assert(sum_dx(deltas) == sum_dx(deltas.drop_last()) + deltas[n].0);
    assert(sum_dy(deltas) == sum_dy(deltas.drop_last()) + deltas[n].1);
}

/// On a path that starts and ends on one cell, every move after the first
/// (the one from the grid origin) cancels out: the moves add up to that
/// first move alone.
pub proof fn lemma_round_trip(path: Seq<(usize, usize)>, deltas: Seq<(i32, i32)>)
    requires
        traces(path, deltas),
        path.len() > 0,
        path[0] == path.last(),
    ensures
        sum_dx(deltas) == deltas[0].0,
        sum_dy(deltas) == deltas[0].1,
{
    lemma_deltas_telescope(path, deltas);
}

/// A path that ends on the cell where the pointer starts, the grid origin,
/// moves the pointer by nothing in all.
pub proof fn lemma_closed_path(path: Seq<(usize, usize)>, deltas: Seq<(i32, i32)>)
    requires
        traces(path, deltas),
        path.len() > 0,
        path.last() == (0usize, 0usize),
    ensures
        sum_dx(deltas) == 0,
        sum_dy(deltas) == 0,
{
    lemma_deltas_telescope(path, deltas);
}

/// Where the board starts in a screenshot, horizontally.
pub const BOARD_LEFT: u32 = 57;

/// Where the board starts in a screenshot, vertically.
pub const BOARD_TOP: u32 = 480;

/// The side of the square board image, in pixels.
pub const BOARD_SIZE: u32 = 412;

/// The padding around the tiles of the board.
pub const BOARD_PADDING: u32 = 22;

/// The side of a square tile.
pub const TILE_SIZE: u32 = 83;

/// The gap between neighbouring tiles.
pub const TILE_GAP: u32 = 12;

/// The largest channel value of a pixel that counts as black.
pub const ERROR: u8 = 16;

/// The top-left corner, in the board image, of the tile at `row`, `column`.
pub fn tile_origin(row: u32, column: u32) -> (r: (u32, u32))
    requires
        column * (TILE_SIZE + TILE_GAP) + BOARD_PADDING <= u32::MAX,
        row * (TILE_SIZE + TILE_GAP) + BOARD_PADDING <= u32::MAX,
    ensures
        r.0 == column * TILE_SIZE + BOARD_PADDING + column * TILE_GAP,
        r.1 == row * TILE_SIZE + BOARD_PADDING + row * TILE_GAP,
{
    proof {
        assert(column * (TILE_SIZE + TILE_GAP) == column * TILE_SIZE + column * TILE_GAP) by (nonlinear_arith);
        assert(row * (TILE_SIZE + TILE_GAP) == row * TILE_SIZE + row * TILE_GAP) by (nonlinear_arith);
    }
    let x = (column * TILE_SIZE) + BOARD_PADDING + (column * TILE_GAP);
    let y = (row * TILE_SIZE) + BOARD_PADDING + (row * TILE_GAP);
    (x, y)
}

/// Pixel `k` of an RGBA buffer is black enough: none of its colour channels
/// is above `ERROR`.
pub open spec fn is_dark(rgba: Seq<u8>, k: int) -> bool {
    rgba[4 * k] <= ERROR && rgba[4 * k + 1] <= ERROR && rgba[4 * k + 2] <= ERROR
}

/// Turns an RGBA buffer into an RGB one where black pixels stay black and
/// every other pixel becomes white.
pub fn filter_pixels(rgba: &Vec<u8>) -> (r: Vec<u8>)
    requires
        rgba@.len() % 4 == 0,
    ensures
        r@.len() == 3 * (rgba@.len() / 4),
        forall|k: int, ch: int|
            0 <= k < rgba@.len() / 4 && 0 <= ch < 3 ==> #[trigger] r@[3 * k + ch] == (if is_dark(rgba@, k) {
                0u8
            } else {
                255u8
            }),
{
    let len = rgba.len();
    let n = len / 4;
    let mut out: Vec<u8> = Vec::new();
    let mut k: usize = 0;
    while k < n
        invariant
            len == rgba@.len(),
            n == len / 4,
            len % 4 == 0,
            k <= n,
            out@.len() == 3 * k,
            forall|j: int, ch: int|
                0 <= j < k && 0 <= ch < 3 ==> #[trigger] out@[3 * j + ch] == (if is_dark(rgba@, j) {
                    0u8
                } else {
                    255u8
                }),
        decreases n - k,
    {
        assert(4 * k + 3 < len);
        let base = 4 * k;
        let value: u8 = if rgba[base] <= ERROR && rgba[base + 1] <= ERROR && rgba[base + 2] <= ERROR {
            0
        } else {
            255
        };
        let ghost before = out@;
        out.push(value);
        out.push(value);
        out.push(value);
        proof {
            assert forall|j: int, ch: int| 0 <= j < k + 1 && 0 <= ch < 3 implies #[trigger] out@[3 * j + ch] == (if is_dark(rgba@, j) {
                0u8
            } else {
                255u8
            }) by {
                if j < k {
                    assert(out@[3 * j + ch] == before[3 * j + ch]);
                }
            }
        }
        k += 1;
    }
    out
}

/// The lowercase form of a character, as `char::to_lowercase` gives it.
pub uninterp spec fn lower_char(c: char) -> Seq<char>;

/// Relies on `char::to_lowercase`: its result depends on the character alone.
#[verifier::external_body]
fn lowercase_char(c: char) -> (r: String)
    ensures
        r@ == lower_char(c),
{
    c.to_lowercase().to_string()
}

/// The lines of a text, split at each newline; a text without newlines is
/// one line, and the empty text is one empty line.
pub open spec fn split_lines(t: Seq<char>) -> Seq<Seq<char>>
    decreases t.len(),
{
    if t.len() == 0 {
        seq![Seq::<char>::empty()]
    } else {
        let rest = split_lines(t.drop_last());
        if t.last() == '\n' {
            rest.push(Seq::<char>::empty())
        } else {
            rest.update(rest.len() - 1, rest.last().push(t.last()))
        }
    }
}

/// Every text has at least one line.
proof fn lemma_split_lines_nonempty(t: Seq<char>)
    ensures
        split_lines(t).len() >= 1,
    decreases t.len(),
{
    if t.len() > 0 {
        lemma_split_lines_nonempty(t.drop_last());
    }
}

/// `grid` holds one row per line of `text`, and in each row the lowercase
/// form of each character of the line.
pub open spec fn is_board_of(text: Seq<char>, grid: Seq<Vec<String>>) -> bool {
    let lines = split_lines(text);
    &&& grid.len() == lines.len()
    &&& forall|r: int|
        0 <= r < lines.len() ==> (#[trigger] grid[r])@.len() == lines[r].len() && forall|c: int|
            0 <= c < lines[r].len() ==> (#[trigger] grid[r]@[c])@ == lower_char(lines[r][c])
}

/// Turns the recognised text of a board, one line per row, into a grid of
/// lowercase cells.
pub fn board_from_text(text: &str) -> (r: Vec<Vec<String>>)
    ensures
        is_board_of(text@, r@),
{
    let n = text.unicode_len();
    let mut board: Vec<Vec<String>> = Vec::new();
    let mut row: Vec<String> = Vec::new();
    let mut i: usize = 0;
    proof {
        assert(text@.subrange(0, 0) =~= Seq::<char>::empty());
    }
    while i < n
        invariant
            n == text@.len(),
            i <= n,
            ({
                let lines = split_lines(text@.subrange(0, i as int));
                &&& board@.len() + 1 == lines.len()
                &&& forall|r: int|
                    0 <= r < board@.len() ==> (#[trigger] board@[r])@.len() == lines[r].len() && forall|c: int|
                        0 <= c < lines[r].len() ==> (#[trigger] board@[r]@[c])@ == lower_char(lines[r][c])
                &&& row@.len() == lines.last().len()
                &&& forall|c: int| 0 <= c < row@.len() ==> (#[trigger] row@[c])@ == lower_char(lines.last()[c])
            }),
        decreases n - i,
    {
        let ch = text.get_char(i);
        let ghost prev = split_lines(text@.subrange(0, i as int));
        let ghost t2 = text@.subrange(0, i + 1);
        proof {
            assert(t2.drop_last() =~= text@.subrange(0, i as int));
            assert(t2.last() == ch);
            lemma_split_lines_nonempty(text@.subrange(0, i as int));
        }
        if ch == '\n' {
            board.push(row);
            row = Vec::new();
            proof {
                let lines = split_lines(t2);
                assert(lines == prev.push(Seq::<char>::empty()));
                assert forall|r: int| 0 <= r < board@.len() implies (#[trigger] board@[r])@.len() == lines[r].len() && forall|c: int|
                        0 <= c < lines[r].len() ==> (#[trigger] board@[r]@[c])@ == lower_char(lines[r][c]) by {
                    assert(lines[r] == prev[r]);
                }
            }
        } else {
            let cell = lowercase_char(ch);
            row.push(cell);
            proof {
                let lines = split_lines(t2);
                assert(lines == prev.update(prev.len() - 1, prev.last().push(ch)));
                assert forall|r: int| 0 <= r < board@.len() implies (#[trigger] board@[r])@.len() == lines[r].len() && forall|c: int|
                        0 <= c < lines[r].len() ==> (#[trigger] board@[r]@[c])@ == lower_char(lines[r][c]) by {
                    assert(lines[r] == prev[r]);
                }
                assert(lines.last() == prev.last().push(ch));
                assert forall|c: int| 0 <= c < row@.len() implies (#[trigger] row@[c])@ == lower_char(lines.last()[c]) by {
                    if c < row@.len() - 1 {
                        assert(lines.last()[c] == prev.last()[c]);
                    }
                }
            }
        }
        i += 1;
    }
    board.push(row);
    proof {
        assert(text@.subrange(0, n as int) =~= text@);
        let lines = split_lines(text@);
        assert forall|r: int| 0 <= r < lines.len() implies (#[trigger] board@[r])@.len() == lines[r].len() && forall|c: int|
                0 <= c < lines[r].len() ==> (#[trigger] board@[r]@[c])@ == lower_char(lines[r][c]) by {
            if r == lines.len() - 1 {
                assert(board@[r] == row);
            }
        }
    }
    board
}

} // verus!
