//! The 4-by-4 merging board.
//!
//! A move slides every tile as far as it goes in the chosen direction;
//! two equal tiles that meet merge into their sum, each tile merging at
//! most once per move, and the merged value is added to the score. After
//! any move that changed something a new tile appears on an empty cell.
//! Tile and score arithmetic saturates at the integer limit.

use vstd::prelude::*;

use crate::game::game_rng::{GameRng, RealGameRng};

verus! {

pub const NUM_ROWS: usize = 4;

pub const NUM_COLUMNS: usize = 4;

pub const NUM_TILES: usize = NUM_ROWS * NUM_COLUMNS;

/// One cell of the board.
#[derive(Copy, Clone, PartialEq, Eq, Structural, Debug)]
pub enum Tile {
    Empty,
    Value(u32),
}

/// A move direction; doubles as the domain's action.
#[derive(Copy, Clone, PartialEq, Eq, Structural, Debug)]
pub enum Direction {
    Up,
    Down,
    Left,
    Right,
}

/// Addition clipped to the `u32` range.
pub open spec fn sat_u32(x: int) -> u32 {
    if x > 0xFFFF_FFFF {
        0xFFFF_FFFFu32
    } else {
        x as u32
    }
}

/// A board with no tiles.
pub open spec fn empty_board() -> Seq<Tile> {
    Seq::new(16, |i: int| Tile::Empty)
}

/// Row step of a direction.
pub open spec fn dir_dr(d: Direction) -> int {
    match d {
        Direction::Up => -1,
        Direction::Down => 1,
        Direction::Left => 0,
        Direction::Right => 0,
    }
}

/// Column step of a direction.
pub open spec fn dir_dc(d: Direction) -> int {
    match d {
        Direction::Up => 0,
        Direction::Down => 0,
        Direction::Left => -1,
        Direction::Right => 1,
    }
}

/// The tile at `(row, column)` can take one step in direction `d`: its
/// neighbour there is on the board and either empty or of equal value.
pub open spec fn can_move_tile_spec(t: Seq<Tile>, r: int, c: int, d: Direction) -> bool {
    match t[4 * r + c] {
        Tile::Empty => false,
        Tile::Value(v) => {
            let nr = r + dir_dr(d);
            let nc = c + dir_dc(d);
            &&& 0 <= nr < 4
            &&& 0 <= nc < 4
            &&& (t[4 * nr + nc] == Tile::Empty || t[4 * nr + nc] == Tile::Value(v))
        },
    }
}

/// Some tile can take a step in direction `d`.
pub open spec fn can_move_spec(t: Seq<Tile>, d: Direction) -> bool {
    exists|r: int, c: int| 0 <= r < 4 && 0 <= c < 4 && can_move_tile_spec(t, r, c, d)
}

/// The game is over: the board is full and no two neighbours are equal.
pub open spec fn is_over_spec(t: Seq<Tile>) -> bool {
    &&& forall|i: int| 0 <= i < 16 ==> (#[trigger] t[i]) != Tile::Empty
    &&& forall|i: int| 0 <= i < 16 && i % 4 < 3 ==> (#[trigger] t[i]) != t[i + 1]
    &&& forall|i: int| 0 <= i < 12 ==> (#[trigger] t[i]) != t[i + 4]
}

/// Cell index of element `e` of line `l` when moving in direction `d`: a
/// line is a row (for left and right) or a column (for up and down), read
/// so that element zero is where tiles slide towards.
pub open spec fn line_cell(d: Direction, l: int, e: int) -> int {
    match d {
        Direction::Left => 4 * l + e,
        Direction::Right => 4 * l + 3 - e,
        Direction::Up => 4 * e + l,
        Direction::Down => 4 * (3 - e) + l,
    }
}

/// The line that cell `i` belongs to when moving in direction `d`.
pub open spec fn line_no(d: Direction, i: int) -> int {
    match d {
        Direction::Left => i / 4,
        Direction::Right => i / 4,
        Direction::Up => i % 4,
        Direction::Down => i % 4,
    }
}

/// The position of cell `i` within its line when moving in direction `d`.
pub open spec fn elem_no(d: Direction, i: int) -> int {
    match d {
        Direction::Left => i % 4,
        Direction::Right => 3 - i % 4,
        Direction::Up => i / 4,
        Direction::Down => 3 - i / 4,
    }
}

/// Line `l` of the board, read in sliding order.
pub open spec fn line_of(t: Seq<Tile>, d: Direction, l: int) -> Seq<Tile> {
    Seq::new(4, |e: int| t[line_cell(d, l, e)])
}

/// The values of a line with the empty cells dropped, in order.
pub open spec fn compact(line: Seq<Tile>) -> Seq<u32>
    decreases line.len(),
{
    if line.len() == 0 {
        Seq::empty()
    } else {
        match line[0] {
            Tile::Empty => compact(line.skip(1)),
            Tile::Value(v) => seq![v] + compact(line.skip(1)),
        }
    }
}

/// Merging a compacted line: each adjacent equal pair becomes one tile of
/// their (saturated) sum; a tile merges at most once.
pub open spec fn merge_vals(vs: Seq<u32>) -> Seq<u32>
    decreases vs.len(),
{
    if vs.len() == 0 {
        Seq::empty()
    } else if vs.len() >= 2 && vs[0] == vs[1] {
        seq![sat_u32(vs[0] + vs[1])] + merge_vals(vs.skip(2))
    } else {
        seq![vs[0]] + merge_vals(vs.skip(1))
    }
}

/// The score gained by merging a compacted line: the sum of the merged
/// values.
pub open spec fn merge_gain(vs: Seq<u32>) -> int
    decreases vs.len(),
{
    if vs.len() == 0 {
        0
    } else if vs.len() >= 2 && vs[0] == vs[1] {
        sat_u32(vs[0] + vs[1]) + merge_gain(vs.skip(2))
    } else {
        merge_gain(vs.skip(1))
    }
}

/// The merged values padded back to a line of four cells.
pub open spec fn pad4(vs: Seq<u32>) -> Seq<Tile> {
    Seq::new(4, |e: int| if e < vs.len() {
        Tile::Value(vs[e])
    } else {
        Tile::Empty
    })
}

/// One line after a move: compacted, merged and padded.
pub open spec fn merged_line(line: Seq<Tile>) -> Seq<Tile> {
    pad4(merge_vals(compact(line)))
}

/// The score gained by one line.
pub open spec fn line_gain(line: Seq<Tile>) -> int {
    merge_gain(compact(line))
}

/// The whole board after sliding in direction `d`, before the new tile is
/// placed.
pub open spec fn merged_board(t: Seq<Tile>, d: Direction) -> Seq<Tile> {
    Seq::new(16, |i: int| merged_line(line_of(t, d, line_no(d, i)))[elem_no(d, i)])
}

/// The score gained by the first `l` lines of a move in direction `d`.
pub open spec fn gain_lines(t: Seq<Tile>, d: Direction, l: nat) -> int
    decreases l,
{
    if l == 0 {
        0
    } else {
        gain_lines(t, d, (l - 1) as nat) + line_gain(line_of(t, d, l - 1))
    }
}

/// The score gained by a whole move in direction `d`.
pub open spec fn gain_total(t: Seq<Tile>, d: Direction) -> int {
    gain_lines(t, d, 4)
}

/// Cyclic scan for an empty cell: the first empty cell at or after `pos`,
/// wrapping around, within `k` steps.
pub open spec fn scan_empty(t: Seq<Tile>, pos: int, k: nat) -> Option<int>
    decreases k,
{
    if k == 0 {
        None
    } else if t[pos] == Tile::Empty {
        Some(pos)
    } else {
        scan_empty(t, (pos + 1) % 16, (k - 1) as nat)
    }
}

/// The board after placing a tile of value `v` at the first empty cell at
/// or cyclically after `pos`; unchanged when the board is full.
pub open spec fn spawn_spec(t: Seq<Tile>, pos: int, v: u32) -> Seq<Tile> {
    match scan_empty(t, pos, 16) {
        Some(i) => t.update(i, Tile::Value(v)),
        None => t,
    }
}

/// The board mirrored left-to-right.
pub open spec fn mirror_spec(t: Seq<Tile>) -> Seq<Tile> {
    Seq::new(16, |i: int| t[4 * (i / 4) + 3 - i % 4])
}

/// The board rotated a quarter turn clockwise.
pub open spec fn rotate_spec(t: Seq<Tile>) -> Seq<Tile> {
    Seq::new(16, |i: int| t[4 * (3 - i % 4) + i / 4])
}

/// Mirroring twice gives the original board back.
pub proof fn lemma_mirror_twice(t: Seq<Tile>)
    requires
        t.len() == 16,
    ensures
        mirror_spec(mirror_spec(t)) == t,
{
    assert(mirror_spec(mirror_spec(t)) =~= t);
}

/// Four quarter turns give the original board back.
pub proof fn lemma_rotate_four(t: Seq<Tile>)
    requires
        t.len() == 16,
    ensures
        rotate_spec(rotate_spec(rotate_spec(rotate_spec(t)))) == t,
{
    let t2 = rotate_spec(t);
    let t3 = rotate_spec(t2);
    let t4 = rotate_spec(t3);
    assert(rotate_spec(t4) =~= t);
}

/// Number of empty cells.
pub open spec fn count_empty(t: Seq<Tile>) -> int
    decreases t.len(),
{
    if t.len() == 0 {
        0
    } else {
        count_empty(t.drop_last()) + if t.last() == Tile::Empty {
            1int
        } else {
            0int
        }
    }
}

/// The largest tile value on the board.
pub open spec fn max_tile(t: Seq<Tile>) -> u32
    decreases t.len(),
{
    if t.len() == 0 {
        0u32
    } else {
        let m = max_tile(t.drop_last());
        match t.last() {
            Tile::Empty => m,
            Tile::Value(v) => if v > m {
                v
            } else {
                m
            },
        }
    }
}

/// Compacting keeps at most as many entries as the line has cells.
pub proof fn lemma_compact_len(line: Seq<Tile>)
    ensures
        compact(line).len() <= line.len(),
    decreases line.len(),
{
    if line.len() > 0 {
        lemma_compact_len(line.skip(1));
    }
}

/// Merging keeps at most as many entries as it was given.
pub proof fn lemma_merge_len(vs: Seq<u32>)
    ensures
        merge_vals(vs).len() <= vs.len(),
    decreases vs.len(),
{
    if vs.len() >= 2 && vs[0] == vs[1] {
        lemma_merge_len(vs.skip(2));
    } else if vs.len() >= 1 {
        lemma_merge_len(vs.skip(1));
    }
}

/// The gain of a merge is bounded by one saturated value per entry.
pub proof fn lemma_merge_gain_bound(vs: Seq<u32>)
    ensures
        0 <= merge_gain(vs) <= vs.len() * 0xFFFF_FFFF,
    decreases vs.len(),
{
    if vs.len() >= 2 && vs[0] == vs[1] {
        lemma_merge_gain_bound(vs.skip(2));
        assert((vs.len() - 2) * 0xFFFF_FFFF + 0xFFFF_FFFF <= vs.len() * 0xFFFF_FFFF)
            by (nonlinear_arith)
            requires
                vs.len() >= 2,
        ;
    } else if vs.len() >= 1 {
        lemma_merge_gain_bound(vs.skip(1));
        assert((vs.len() - 1) * 0xFFFF_FFFF <= vs.len() * 0xFFFF_FFFF) by (nonlinear_arith)
            requires
                vs.len() >= 1,
        ;
    }
}

/// Appending a cell to a line extends its compacted values at the end.
pub proof fn lemma_compact_push(line: Seq<Tile>, x: Tile)
    ensures
        compact(line.push(x)) == compact(line) + (match x {
            Tile::Empty => Seq::<u32>::empty(),
            Tile::Value(v) => seq![v],
        }),
    decreases line.len(),
{
    let ext = (match x {
        Tile::Empty => Seq::<u32>::empty(),
        Tile::Value(v) => seq![v],
    });
    if line.len() == 0 {
        assert(line.push(x)[0] == x);
        assert(line.push(x).skip(1) =~= Seq::<Tile>::empty());
        assert(compact(Seq::<Tile>::empty()) =~= Seq::<u32>::empty());
        assert(line =~= Seq::<Tile>::empty());
        match x {
            Tile::Empty => {
                assert(compact(line.push(x)) == compact(line.push(x).skip(1)));
                assert(compact(line.push(x)) =~= compact(line) + ext);
            },
            Tile::Value(v) => {
                assert(compact(line.push(x)) == seq![v] + compact(line.push(x).skip(1)));
                assert(compact(line.push(x)) =~= compact(line) + ext);
            },
        }
    } else {
        assert(line.push(x)[0] == line[0]);
        assert(line.push(x).skip(1) =~= line.skip(1).push(x));
        lemma_compact_push(line.skip(1), x);
        match line[0] {
            Tile::Empty => {
                assert(compact(line.push(x)) == compact(line.skip(1).push(x)));
            },
            Tile::Value(v) => {
                assert(compact(line.push(x)) =~= seq![v] + (compact(line.skip(1)) + ext));
                assert(seq![v] + (compact(line.skip(1)) + ext) =~= (seq![v] + compact(line.skip(1)))
                    + ext);
            },
        }
    }
}

/// A board of four-by-four tiles, a score, and a source of new-tile
/// randomness.
#[derive(Debug)]
#[verifier::reject_recursive_types(R)]
pub struct Board<R: GameRng> {
    score: u32,
    tiles: Vec<Tile>,
    rng: R,
}

impl<R: GameRng> View for Board<R> {
    type V = Seq<Tile>;

    /// The sixteen cells, row by row.
    closed spec fn view(&self) -> Seq<Tile> {
        self.tiles@
    }
}

impl<R: GameRng> Board<R> {
    /// Every board holds exactly sixteen cells.
    #[verifier::type_invariant]
    pub closed spec fn wf(&self) -> bool {
        self.tiles@.len() == 16
    }

    /// The current score.
    pub closed spec fn score_spec(&self) -> u32 {
        self.score
    }

    /// The board's source of randomness.
    pub closed spec fn rng_spec(&self) -> R {
        self.rng
    }

    /// Which values this board's source of randomness can spawn.
    pub open spec fn rng_value_ok(&self, v: u32) -> bool {
        self.rng_spec().value_ok(v)
    }

    /// The current score.
    pub fn score(&self) -> (s: u32)
        ensures
            s == self.score_spec(),
    {
        self.score
    }

    /// The sixteen cells, row by row.
    pub fn tiles(&self) -> (r: Vec<Tile>)
        ensures
            r@ == self@,
            r@.len() == 16,
    {
        proof {
            use_type_invariant(self);
        }
        let mut r: Vec<Tile> = Vec::new();
        let mut i: usize = 0;
        while i < 16
            invariant
                self.tiles@.len() == 16,
                i <= 16,
                r@ == self.tiles@.subrange(0, i as int),
            decreases 16 - i,
        {
            r.push(self.tiles[i]);
            i = i + 1;
        }
        proof {
            assert(r@ =~= self.tiles@);
        }
        r
    }

    /// A board with the given cells, a zero score and the given source of
    /// randomness.
    pub fn new_with_tiles(tiles: [Tile; 16], rng: R) -> (board: Board<R>)
        ensures
            board@ == tiles@,
            board.score_spec() == 0,
    {
        Board::new_with_tiles_and_score(tiles, 0, rng)
    }

    /// A board with the given cells and score.
    fn new_with_tiles_and_score(tiles: [Tile; 16], score: u32, rng: R) -> (board: Board<R>)
        ensures
            board@ == tiles@,
            board.score_spec() == score,
    {
        let mut cells: Vec<Tile> = Vec::new();
        let mut i: usize = 0;
        while i < 16
            invariant
                i <= 16,
                cells@ == tiles@.subrange(0, i as int),
            decreases 16 - i,
        {
            cells.push(tiles[i]);
            i = i + 1;
        }
        proof {
            assert(cells@ =~= tiles@);
        }
        Board { score, tiles: cells, rng }
    }

    /// The value at `(row, column)`: nothing outside the board or on an
    /// empty cell.
    pub fn value_at(&self, row: usize, column: usize) -> (r: Option<u32>)
        ensures
            r == (if 0 <= row < 4 && 0 <= column < 4 {
                match self@[4 * row + column] {
                    Tile::Empty => Option::<u32>::None,
                    Tile::Value(v) => Option::<u32>::Some(v),
                }
            } else {
                Option::<u32>::None
            }),
    {
        proof {
            use_type_invariant(self);
        }
        if row >= 4 || column >= 4 {
            return None;
        }
        match self.tiles[4 * row + column] {
            Tile::Empty => None,
            Tile::Value(v) => Some(v),
        }
    }

    /// The tile at `(row, column)` can take one step in direction `d`.
    fn can_move_tile_at(&self, row: usize, column: usize, direction: Direction) -> (r: bool)
        requires
            row < 4,
            column < 4,
        ensures
            r == can_move_tile_spec(self@, row as int, column as int, direction),
    {
        proof {
            use_type_invariant(self);
        }
        let v = match self.tiles[4 * row + column] {
            Tile::Empty => {
                return false;
            },
            Tile::Value(v) => v,
        };
        let (in_bounds, nr, nc): (bool, usize, usize) = match direction {
            Direction::Up => {
                if row == 0 {
                    (false, 0, 0)
                } else {
                    (true, row - 1, column)
                }
            },
            Direction::Down => {
                if row == 3 {
                    (false, 0, 0)
                } else {
                    (true, row + 1, column)
                }
            },
            Direction::Left => {
                if column == 0 {
                    (false, 0, 0)
                } else {
                    (true, row, column - 1)
                }
            },
            Direction::Right => {
                if column == 3 {
                    (false, 0, 0)
                } else {
                    (true, row, column + 1)
                }
            },
        };
        if !in_bounds {
            return false;
        }
        match self.tiles[4 * nr + nc] {
            Tile::Empty => true,
            Tile::Value(nv) => nv == v,
        }
    }

    /// Some tile can move up.
    pub fn can_move_up(&self) -> (r: bool)
        ensures
            r == can_move_spec(self@, Direction::Up),
    {
        self.can_move_any(Direction::Up)
    }

    /// Some tile can move down.
    pub fn can_move_down(&self) -> (r: bool)
        ensures
            r == can_move_spec(self@, Direction::Down),
    {
        self.can_move_any(Direction::Down)
    }

    /// Some tile can move left.
    pub fn can_move_left(&self) -> (r: bool)
        ensures
            r == can_move_spec(self@, Direction::Left),
    {
        self.can_move_any(Direction::Left)
    }

    /// Some tile can move right.
    pub fn can_move_right(&self) -> (r: bool)
        ensures
            r == can_move_spec(self@, Direction::Right),
    {
        self.can_move_any(Direction::Right)
    }

    /// Scans the whole board for a tile that can step in direction `d`.
    fn can_move_any(&self, direction: Direction) -> (r: bool)
        ensures
            r == can_move_spec(self@, direction),
    {
        let mut row: usize = 0;
        while row < 4
            invariant
                row <= 4,
                forall|r2: int, c2: int|
                    0 <= r2 < row && 0 <= c2 < 4 ==> !can_move_tile_spec(self@, r2, c2, direction),
            decreases 4 - row,
        {
            let mut col: usize = 0;
            while col < 4
                invariant
                    row < 4,
                    col <= 4,
                    forall|r2: int, c2: int|
                        0 <= r2 < row && 0 <= c2 < 4 ==> !can_move_tile_spec(
                            self@,
                            r2,
                            c2,
                            direction,
                        ),
                    forall|c2: int|
                        0 <= c2 < col ==> !can_move_tile_spec(self@, row as int, c2, direction),
                decreases 4 - col,
            {
                if self.can_move_tile_at(row, col, direction) {
                    return true;
                }
                col = col + 1;
            }
            row = row + 1;
        }
        false
    }

    /// The game is over: no empty cell and no equal neighbours.
    pub fn is_over(&self) -> (r: bool)
        ensures
            r == is_over_spec(self@),
    {
        proof {
            use_type_invariant(self);
        }
        let mut i: usize = 0;
        while i < 16
            invariant
                self.tiles@.len() == 16,
                i <= 16,
                forall|j: int| 0 <= j < i ==> (#[trigger] self.tiles@[j]) != Tile::Empty,
                forall|j: int|
                    0 <= j < i && j % 4 < 3 ==> (#[trigger] self.tiles@[j]) != self.tiles@[j + 1],
                forall|j: int|
                    0 <= j < i && j < 12 ==> (#[trigger] self.tiles@[j]) != self.tiles@[j + 4],
            decreases 16 - i,
        {
            match self.tiles[i] {
                Tile::Empty => {
                    return false;
                },
                Tile::Value(_) => {},
            }
            if i % 4 < 3 && self.tiles[i] == self.tiles[i + 1] {
                return false;
            }
            if i < 12 && self.tiles[i] == self.tiles[i + 4] {
                return false;
            }
            i = i + 1;
        }
        true
    }

    /// Number of empty cells.
    pub fn num_empty_tiles(&self) -> (n: usize)
        ensures
            n as int == count_empty(self@),
            n <= 16,
    {
        proof {
            use_type_invariant(self);
        }
        let mut n: usize = 0;
        let mut i: usize = 0;
        while i < 16
            invariant
                self.tiles@.len() == 16,
                i <= 16,
                n <= i,
                n as int == count_empty(self.tiles@.subrange(0, i as int)),
            decreases 16 - i,
        {
            proof {
                assert(self.tiles@.subrange(0, i as int + 1).drop_last() =~= self.tiles@.subrange(
                    0,
                    i as int,
                ));
                assert(self.tiles@.subrange(0, i as int + 1).last() == self.tiles@[i as int]);
            }
            match self.tiles[i] {
                Tile::Empty => {
                    n = n + 1;
                },
                Tile::Value(_) => {},
            }
            i = i + 1;
        }
        proof {
            assert(self.tiles@.subrange(0, 16) =~= self.tiles@);
        }
        n
    }

    /// The largest tile value on the board.
    pub fn max_tile_value(&self) -> (m: u32)
        ensures
            m == max_tile(self@),
    {
        proof {
            use_type_invariant(self);
        }
        let mut m: u32 = 0;
        let mut i: usize = 0;
        while i < 16
            invariant
                self.tiles@.len() == 16,
                i <= 16,
                m == max_tile(self.tiles@.subrange(0, i as int)),
            decreases 16 - i,
        {
            proof {
                assert(self.tiles@.subrange(0, i as int + 1).drop_last() =~= self.tiles@.subrange(
                    0,
                    i as int,
                ));
                assert(self.tiles@.subrange(0, i as int + 1).last() == self.tiles@[i as int]);
            }
            match self.tiles[i] {
                Tile::Empty => {},
                Tile::Value(v) => {
                    if v > m {
                        m = v;
                    }
                },
            }
            i = i + 1;
        }
        proof {
            assert(self.tiles@.subrange(0, 16) =~= self.tiles@);
        }
        m
    }

    /// A copy of this board with the same cells and score and a fresh
    /// source of randomness.
    pub fn duplicate(&self) -> (board: Board<R>)
        ensures
            board@ == self@,
            board.score_spec() == self.score_spec(),
    {
        let cells = self.tiles();
        Board { score: self.score, tiles: cells, rng: R::fresh() }
    }

    /// This board mirrored left-to-right, with the same score and a fresh
    /// source of randomness.
    pub fn mirrored_horizontally(&self) -> (board: Board<R>)
        ensures
            board@ == mirror_spec(self@),
            board.score_spec() == self.score_spec(),
    {
        proof {
            use_type_invariant(self);
        }
        let mut cells: Vec<Tile> = Vec::new();
        let mut i: usize = 0;
        while i < 16
            invariant
                self.tiles@.len() == 16,
                i <= 16,
                cells@.len() == i,
                forall|j: int| 0 <= j < i ==> (#[trigger] cells@[j]) == mirror_spec(self.tiles@)[j],
            decreases 16 - i,
        {
            cells.push(self.tiles[4 * (i / 4) + 3 - i % 4]);
            i = i + 1;
        }
        proof {
            assert(cells@ =~= mirror_spec(self.tiles@));
        }
        Board { score: self.score, tiles: cells, rng: R::fresh() }
    }

    /// This board rotated a quarter turn clockwise, with the same score
    /// and a fresh source of randomness.
    pub fn rotated_cw(&self) -> (board: Board<R>)
        ensures
            board@ == rotate_spec(self@),
            board.score_spec() == self.score_spec(),
    {
        proof {
            use_type_invariant(self);
        }
        let mut cells: Vec<Tile> = Vec::new();
        let mut i: usize = 0;
        while i < 16
            invariant
                self.tiles@.len() == 16,
                i <= 16,
                cells@.len() == i,
                forall|j: int| 0 <= j < i ==> (#[trigger] cells@[j]) == rotate_spec(self.tiles@)[j],
            decreases 16 - i,
        {
            cells.push(self.tiles[4 * (3 - i % 4) + i / 4]);
            i = i + 1;
        }
        proof {
            assert(cells@ =~= rotate_spec(self.tiles@));
        }
        Board { score: self.score, tiles: cells, rng: R::fresh() }
    }

    /// Places a tile of the source's value on the first empty cell at or
    /// cyclically after the source's preferred slot; a full board stays
    /// unchanged.
    fn place_random_tile(&mut self)
        ensures
            exists|pos: int, v: u32|
                0 <= pos < 16 && final(self)@ == spawn_spec(old(self)@, pos, v) && old(
                    self,
                ).rng_value_ok(v),
            final(self).score_spec() == old(self).score_spec(),
            final(self).rng_spec() == old(self).rng_spec(),
    {
        proof {
            use_type_invariant(&*self);
        }
        let start = self.rng.new_tile_position();
        let value = self.rng.new_tile_value();
        let ghost t0 = self.tiles@;
        let mut k: usize = 0;
        while k < 16
            invariant
                self.tiles@.len() == 16,
                self.tiles@ == t0,
                t0 == old(self)@,
                self.score == old(self).score,
                start < 16,
                k <= 16,
                old(self).rng_value_ok(value),
                self.rng == old(self).rng,
                scan_empty(t0, start as int, 16) == scan_empty(
                    t0,
                    ((start + k) % 16) as int,
                    (16 - k) as nat,
                ),
            decreases 16 - k,
        {
            let idx = (start + k) % 16;
            match self.tiles[idx] {
                Tile::Empty => {
                    self.tiles[idx] = Tile::Value(value);
                    proof {
                        assert(scan_empty(t0, idx as int, (16 - k) as nat) == Some(idx as int));
                        assert(self.tiles@ =~= spawn_spec(t0, start as int, value));
                        assert(self@ == spawn_spec(old(self)@, start as int, value));
                        assert(exists|pos: int, v: u32|
                            0 <= pos < 16 && self@ == spawn_spec(old(self)@, pos, v) && old(
                                self,
                            ).rng_value_ok(v)) by {
                            assert((start as int) < 16 && self@ == spawn_spec(
                                old(self)@,
                                start as int,
                                value,
                            ) && old(self).rng_value_ok(value));
                        }
                    }
                    return ;
                },
                Tile::Value(_) => {},
            }
            proof {
                assert(((start + k) % 16 + 1) % 16 == (start + k + 1) % 16) by {
                    vstd::arithmetic::div_mod::lemma_mod_add_multiples_vanish(
                        (start + k + 1) as int,
                        16,
                    );
                    vstd::arithmetic::div_mod::lemma_add_mod_noop((start + k) as int, 1, 16);
                    vstd::arithmetic::div_mod::lemma_small_mod(1nat, 16nat);
                    vstd::arithmetic::div_mod::lemma_mod_twice((start + k) as int, 16);
                }
            }
            k = k + 1;
        }
        proof {
            assert(scan_empty(t0, start as int, 16) == None::<int>);
            assert(self.tiles@ =~= spawn_spec(t0, start as int, value));
            assert(exists|pos: int, v: u32|
                0 <= pos < 16 && self@ == spawn_spec(old(self)@, pos, v) && old(
                    self,
                ).rng_value_ok(v)) by {
                assert((start as int) < 16 && self@ == spawn_spec(
                    old(self)@,
                    start as int,
                    value,
                ) && old(self).rng_value_ok(value));
            }
        }
    }

    /// Slides and merges every line in direction `d` and adds the merge
    /// gains to the score.
    fn apply_move(&mut self, direction: Direction)
        ensures
            final(self)@ == merged_board(old(self)@, direction),
            final(self).score_spec() == sat_u32(
                old(self).score_spec() + gain_total(old(self)@, direction),
            ),
            final(self).rng_spec() == old(self).rng_spec(),
    {
        proof {
            use_type_invariant(&*self);
        }
        let ghost t0 = self.tiles@;
        let mut gain: u64 = 0;
        let mut l: usize = 0;
        while l < 4
            invariant
                self.tiles@.len() == 16,
                self.score == old(self).score,
                self.rng == old(self).rng,
                t0 == old(self)@,
                t0.len() == 16,
                l <= 4,
                gain as int == gain_lines(t0, direction, l as nat),
                gain <= (l as int) * 4 * 0xFFFF_FFFF,
                forall|i: int|
                    0 <= i < 16 && line_no(direction, i) < l ==> (#[trigger] self.tiles@[i])
                        == merged_board(t0, direction)[i],
                forall|i: int|
                    0 <= i < 16 && line_no(direction, i) >= l ==> (#[trigger] self.tiles@[i])
                        == t0[i],
            decreases 4 - l,
        {
            let mut line: Vec<Tile> = Vec::new();
            let mut e: usize = 0;
            while e < 4
                invariant
                    self.tiles@.len() == 16,
                    l < 4,
                    e <= 4,
                    line@.len() == e,
                    forall|i: int|
                        0 <= i < 16 && line_no(direction, i) >= l ==> (#[trigger] self.tiles@[i])
                            == t0[i],
                    forall|m: int| 0 <= m < e ==> (#[trigger] line@[m]) == line_of(t0, direction, l as int)[m],
                decreases 4 - e,
            {
                let cell = Self::cell_index(direction, l, e);
                proof {
                    lemma_line_geometry(direction, l as int, e as int);
                }
                line.push(self.tiles[cell]);
                e = e + 1;
            }
            proof {
                assert(line@ =~= line_of(t0, direction, l as int));
            }
            let (merged, line_score) = merge_line(&line);
            let ghost pre = self.tiles@;
            let mut e2: usize = 0;
            while e2 < 4
                invariant
                    self.tiles@.len() == 16,
                    self.score == old(self).score,
                    self.rng == old(self).rng,
                    l < 4,
                    e2 <= 4,
                    merged@.len() == 4,
                    merged@ == merged_line(line_of(t0, direction, l as int)),
                    forall|i: int|
                        0 <= i < 16 && (line_no(direction, i) != l || elem_no(direction, i)
                            >= e2) ==> (#[trigger] self.tiles@[i]) == pre[i],
                    forall|i: int|
                        0 <= i < 16 && line_no(direction, i) == l && elem_no(direction, i) < e2
                            ==> (#[trigger] self.tiles@[i]) == merged@[elem_no(direction, i)],
                decreases 4 - e2,
            {
                let cell = Self::cell_index(direction, l, e2);
                proof {
                    lemma_line_geometry(direction, l as int, e2 as int);
                }
                self.tiles[cell] = merged[e2];
                e2 = e2 + 1;
            }
            proof {
                assert(line_gain(line_of(t0, direction, l as int)) <= 4 * 0xFFFF_FFFF) by {
                    lemma_compact_len(line_of(t0, direction, l as int));
                    lemma_merge_gain_bound(compact(line_of(t0, direction, l as int)));
                    assert(compact(line_of(t0, direction, l as int)).len() * 0xFFFF_FFFF <= 4
                        * 0xFFFF_FFFF) by (nonlinear_arith)
                        requires
                            compact(line_of(t0, direction, l as int)).len() <= 4,
                    ;
                }
            }
            gain = gain + line_score;
            l = l + 1;
        }
        let total: u64 = self.score as u64 + gain;
        if total > 0xFFFF_FFFFu64 {
            self.score = 0xFFFF_FFFFu32;
        } else {
            self.score = total as u32;
        }
        proof {
            assert(self.tiles@ =~= merged_board(t0, direction));
        }
    }

    /// Cell index of element `e` of line `l` for direction `d`.
    fn cell_index(direction: Direction, l: usize, e: usize) -> (i: usize)
        requires
            l < 4,
            e < 4,
        ensures
            i as int == line_cell(direction, l as int, e as int),
            i < 16,
    {
        match direction {
            Direction::Left => 4 * l + e,
            Direction::Right => 4 * l + 3 - e,
            Direction::Up => 4 * e + l,
            Direction::Down => 4 * (3 - e) + l,
        }
    }

    /// Moves right: every line slides and merges toward the right edge,
    /// then a new tile appears. A board where nothing can move right is
    /// unchanged.
    pub fn move_right(&mut self)
        ensures
            !can_move_spec(old(self)@, Direction::Right) ==> final(self)@ == old(self)@
                && final(self).score_spec() == old(self).score_spec(),
            can_move_spec(old(self)@, Direction::Right) ==> exists|pos: int, v: u32|
                0 <= pos < 16 && final(self)@ == spawn_spec(
                    merged_board(old(self)@, Direction::Right),
                    pos,
                    v,
                ) && old(self).rng_value_ok(v),
            can_move_spec(old(self)@, Direction::Right) ==> final(self).score_spec() == sat_u32(
                old(self).score_spec() + gain_total(old(self)@, Direction::Right),
            ),
    {
        if !self.can_move_right() {
            return ;
        }
        self.apply_move(Direction::Right);
        self.place_random_tile();
    }

    /// Moves left; see `move_right`.
    pub fn move_left(&mut self)
        ensures
            !can_move_spec(old(self)@, Direction::Left) ==> final(self)@ == old(self)@
                && final(self).score_spec() == old(self).score_spec(),
            can_move_spec(old(self)@, Direction::Left) ==> exists|pos: int, v: u32|
                0 <= pos < 16 && final(self)@ == spawn_spec(
                    merged_board(old(self)@, Direction::Left),
                    pos,
                    v,
                ) && old(self).rng_value_ok(v),
            can_move_spec(old(self)@, Direction::Left) ==> final(self).score_spec() == sat_u32(
                old(self).score_spec() + gain_total(old(self)@, Direction::Left),
            ),
    {
        if !self.can_move_left() {
            return ;
        }
        self.apply_move(Direction::Left);
        self.place_random_tile();
    }

    /// Moves down; see `move_right`.
    pub fn move_down(&mut self)
        ensures
            !can_move_spec(old(self)@, Direction::Down) ==> final(self)@ == old(self)@
                && final(self).score_spec() == old(self).score_spec(),
            can_move_spec(old(self)@, Direction::Down) ==> exists|pos: int, v: u32|
                0 <= pos < 16 && final(self)@ == spawn_spec(
                    merged_board(old(self)@, Direction::Down),
                    pos,
                    v,
                ) && old(self).rng_value_ok(v),
            can_move_spec(old(self)@, Direction::Down) ==> final(self).score_spec() == sat_u32(
                old(self).score_spec() + gain_total(old(self)@, Direction::Down),
            ),
    {
        if !self.can_move_down() {
            return ;
        }
        self.apply_move(Direction::Down);
        self.place_random_tile();
    }

    /// Moves up; see `move_right`.
    pub fn move_up(&mut self)
        ensures
            !can_move_spec(old(self)@, Direction::Up) ==> final(self)@ == old(self)@
                && final(self).score_spec() == old(self).score_spec(),
            can_move_spec(old(self)@, Direction::Up) ==> exists|pos: int, v: u32|
                0 <= pos < 16 && final(self)@ == spawn_spec(
                    merged_board(old(self)@, Direction::Up),
                    pos,
                    v,
                ) && old(self).rng_value_ok(v),
            can_move_spec(old(self)@, Direction::Up) ==> final(self).score_spec() == sat_u32(
                old(self).score_spec() + gain_total(old(self)@, Direction::Up),
            ),
    {
        if !self.can_move_up() {
            return ;
        }
        self.apply_move(Direction::Up);
        self.place_random_tile();
    }
}

impl Board<RealGameRng> {
    /// A fresh board: empty but for two randomly placed starting tiles.
    pub fn new() -> (board: Board<RealGameRng>)
        ensures
            board.score_spec() == 0,
            exists|p1: int, v1: u32, p2: int, v2: u32|
                0 <= p1 < 16 && 0 <= p2 < 16 && board@ == spawn_spec(
                    spawn_spec(empty_board(), p1, v1),
                    p2,
                    v2,
                ) && (v1 == 2 || v1 == 4) && (v2 == 2 || v2 == 4),
    {
        let mut board = Board::new_with_tiles([Tile::Empty; 16], RealGameRng::new());
        proof {
            assert(board@ =~= empty_board());
        }
        let ghost start = board;
        board.place_random_tile();
        let ghost mid = board;
        board.place_random_tile();
        proof {
            let (p1, v1) = choose|p1: int, v1: u32|
                0 <= p1 < 16 && mid@ == spawn_spec(empty_board(), p1, v1) && start.rng_value_ok(
                    v1,
                );
            let (p2, v2) = choose|p2: int, v2: u32|
                0 <= p2 < 16 && board@ == spawn_spec(mid@, p2, v2) && mid.rng_value_ok(v2);
            assert(0 <= p1 < 16 && 0 <= p2 < 16 && board@ == spawn_spec(
                spawn_spec(empty_board(), p1, v1),
                p2,
                v2,
            ) && (v1 == 2 || v1 == 4) && (v2 == 2 || v2 == 4));
        }
        board
    }
}

/// The geometry of lines: `cell_index` maps line coordinates to cells and
/// `line_no` / `elem_no` invert it.
pub proof fn lemma_line_geometry(d: Direction, l: int, e: int)
    requires
        0 <= l < 4,
        0 <= e < 4,
    ensures
        0 <= line_cell(d, l, e) < 16,
        line_no(d, line_cell(d, l, e)) == l,
        elem_no(d, line_cell(d, l, e)) == e,
{
    match d {
        Direction::Left => {
            assert((4 * l + e) / 4 == l);
            assert((4 * l + e) % 4 == e);
        },
        Direction::Right => {
            assert((4 * l + 3 - e) / 4 == l);
            assert((4 * l + 3 - e) % 4 == 3 - e);
        },
        Direction::Up => {
            assert((4 * e + l) / 4 == e);
            assert((4 * e + l) % 4 == l);
        },
        Direction::Down => {
            assert((4 * (3 - e) + l) / 4 == 3 - e);
            assert((4 * (3 - e) + l) % 4 == l);
        },
    }
}

/// Slides and merges one line of four cells toward its front, returning
/// the new line and the score gained.
fn merge_line(line: &Vec<Tile>) -> (res: (Vec<Tile>, u64))
    requires
        line@.len() == 4,
    ensures
        res.0@ == merged_line(line@),
        res.0@.len() == 4,
        res.1 as int == line_gain(line@),
        res.1 <= 4 * 0xFFFF_FFFFu64,
{
    let mut vals: Vec<u32> = Vec::new();
    let mut i: usize = 0;
    proof {
        assert(line@.subrange(0, 0) =~= Seq::<Tile>::empty());
    }
    while i < 4
        invariant
            line@.len() == 4,
            i <= 4,
            vals@ == compact(line@.subrange(0, i as int)),
            vals@.len() <= i,
        decreases 4 - i,
    {
        proof {
            assert(line@.subrange(0, i as int + 1) =~= line@.subrange(0, i as int).push(
                line@[i as int],
            ));
            lemma_compact_push(line@.subrange(0, i as int), line@[i as int]);
        }
        match line[i] {
            Tile::Empty => {},
            Tile::Value(v) => {
                vals.push(v);
                proof {
                    assert(vals@ =~= compact(line@.subrange(0, i as int)) + seq![
                        line@[i as int]->Value_0,
                    ]);
                }
            },
        }
        proof {
            if line@[i as int] is Empty {
                assert(vals@ =~= compact(line@.subrange(0, i as int + 1)));
            } else {
                assert(vals@ =~= compact(line@.subrange(0, i as int + 1)));
            }
        }
        i = i + 1;
    }
    proof {
        assert(line@.subrange(0, 4) =~= line@);
    }
    let mut out: Vec<u32> = Vec::new();
    let mut gain: u64 = 0;
    let mut j: usize = 0;
    proof {
        assert(vals@.skip(0) =~= vals@);
        lemma_merge_len(vals@);
    }
    while j < vals.len()
        invariant
            vals@.len() <= 4,
            j <= vals@.len(),
            merge_vals(vals@) == out@ + merge_vals(vals@.skip(j as int)),
            merge_gain(vals@) == gain + merge_gain(vals@.skip(j as int)),
            gain <= (j as int) * 0xFFFF_FFFF,
            out@.len() <= j,
        decreases vals@.len() - j,
    {
        let ghost rest = vals@.skip(j as int);
        proof {
            assert(rest[0] == vals@[j as int]);
            if j as int + 1 < vals@.len() {
                assert(rest[1] == vals@[j as int + 1]);
            }
        }
        if j + 1 < vals.len() && vals[j] == vals[j + 1] {
            let m = vals[j].saturating_add(vals[j + 1]);
            proof {
                assert(rest.skip(2) =~= vals@.skip(j as int + 2));
                assert(merge_vals(rest) == seq![sat_u32(rest[0] + rest[1])] + merge_vals(
                    rest.skip(2),
                ));
                assert(out@ + merge_vals(rest) =~= (out@ + seq![sat_u32(rest[0] + rest[1])])
                    + merge_vals(rest.skip(2)));
            }
            out.push(m);
            gain = gain + m as u64;
            j = j + 2;
        } else {
            proof {
                assert(rest.skip(1) =~= vals@.skip(j as int + 1));
                assert(merge_vals(rest) == seq![rest[0]] + merge_vals(rest.skip(1)));
                assert(out@ + merge_vals(rest) =~= (out@ + seq![rest[0]]) + merge_vals(
                    rest.skip(1),
                ));
            }
            out.push(vals[j]);
            j = j + 1;
        }
    }
    proof {
        assert(vals@.skip(vals@.len() as int) =~= Seq::<u32>::empty());
        assert(out@ + merge_vals(Seq::<u32>::empty()) =~= out@);
        assert(out@ == merge_vals(vals@));
    }
    let mut padded: Vec<Tile> = Vec::new();
    let mut e: usize = 0;
    while e < 4
        invariant
            out@ == merge_vals(compact(line@)),
            out@.len() <= 4,
            e <= 4,
            padded@.len() == e,
            forall|m: int| 0 <= m < e ==> (#[trigger] padded@[m]) == pad4(out@)[m],
        decreases 4 - e,
    {
        if e < out.len() {
            padded.push(Tile::Value(out[e]));
        } else {
            padded.push(Tile::Empty);
        }
        e = e + 1;
    }
    proof {
        assert(padded@ =~= merged_line(line@));
    }
    (padded, gain)
}

impl<R: GameRng> PartialEq for Board<R> {
    /// Two boards are equal when their cells and scores agree; the source
    /// of randomness takes no part in equality.
    fn eq(&self, other: &Board<R>) -> (r: bool) {
        proof {
            use_type_invariant(self);
            use_type_invariant(other);
        }
        if self.score != other.score {
            return false;
        }
        let mut i: usize = 0;
        while i < 16
            invariant
                self.tiles@.len() == 16,
                other.tiles@.len() == 16,
                self.score == other.score,
                i <= 16,
                forall|j: int| 0 <= j < i ==> (#[trigger] self.tiles@[j]) == other.tiles@[j],
            decreases 16 - i,
        {
            if self.tiles[i] != other.tiles[i] {
                return false;
            }
            i = i + 1;
        }
        proof {
            assert(self.tiles@ =~= other.tiles@);
        }
        true
    }
}

impl<R: GameRng> vstd::std_specs::cmp::PartialEqSpecImpl for Board<R> {
    open spec fn obeys_eq_spec() -> bool {
        true
    }

    open spec fn eq_spec(&self, other: &Board<R>) -> bool {
        self.score_spec() == other.score_spec() && self@ == other@
    }
}

} // verus!
