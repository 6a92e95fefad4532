//! The board model: players, cells, and game states with their
//! derived queries (move count, active player, valid moves, gravity drops).

use vstd::prelude::*;

verus! {

/// Number of rows of the grid.
pub const ROWS: usize = 6;

/// Number of columns of the grid.
pub const COLS: usize = 7;

/// The player favored by high (positive) scores in the search.
pub const MAXIMIZER: Player = Player::Red;

/// The player favored by low (negative) scores in the search.
pub const MINIMIZER: Player = Player::Yellow;

/// One of the two player identities.
#[derive(Clone, Copy, PartialEq, Eq, Structural, Debug, Hash)]
pub enum Player {
    Red,
    Yellow,
}

impl Player {
    /// The opponent of a player.
    pub open spec fn spec_other(self) -> Player {
        match self {
            Player::Red => Player::Yellow,
            Player::Yellow => Player::Red,
        }
    }

    /// Returns the other player (the opponent).
    pub fn other(&self) -> (r: Player)
        ensures
            r == self.spec_other(),
    {
        match self {
            Player::Red => Player::Yellow,
            Player::Yellow => Player::Red,
        }
    }

    /// Returns true iff `other` is this player's opponent.
    pub fn is_opponent(&self, other: Player) -> (r: bool)
        ensures
            r == (other == self.spec_other()),
    {
        self.other() == other
    }

    /// Returns true iff this player is the maximizing identity.
    pub fn is_maximizer(&self) -> (r: bool)
        ensures
            r == (*self == MAXIMIZER),
    {
        *self == MAXIMIZER
    }

    /// Returns true iff this player is the minimizing identity.
    pub fn is_minimizer(&self) -> (r: bool)
        ensures
            r == (*self == MINIMIZER),
    {
        *self == MINIMIZER
    }
}

/// Taking the opponent twice leads back to the same player.
pub proof fn lemma_other_involution(p: Player)
    ensures
        p.spec_other().spec_other() == p,
        p.spec_other() != p,
{
}

/// The contents of one grid position.
#[derive(Clone, Copy, PartialEq, Eq, Structural, Debug, Hash)]
pub enum Cell {
    Empty,
    Player { player: Player },
}

impl Cell {
    /// The player occupying the cell, if any.
    pub open spec fn spec_player(self) -> Option<Player> {
        match self {
            Cell::Empty => None,
            Cell::Player { player } => Some(player),
        }
    }

    /// Returns the player occupying the cell, if any.
    pub fn player(&self) -> (r: Option<Player>)
        ensures
            r == self.spec_player(),
    {
        match self {
            Cell::Empty => None,
            Cell::Player { player } => Some(*player),
        }
    }

    /// Returns true iff the cell is empty.
    pub fn is_empty(&self) -> (r: bool)
        ensures
            r == (*self == Cell::Empty),
    {
        match self {
            Cell::Empty => true,
            _ => false,
        }
    }
}

/// A well-formed grid: `ROWS` rows of `COLS` cells each.
pub open spec fn grid_wf(g: Seq<Seq<Cell>>) -> bool {
    &&& g.len() == ROWS
    &&& forall|i: int| 0 <= i < g.len() ==> (#[trigger] g[i]).len() == COLS
}

/// Number of occupied cells in one row.
pub open spec fn count_row(row: Seq<Cell>) -> nat
    decreases row.len(),
{
    if row.len() == 0 {
        0
    } else {
        count_row(row.drop_last()) + if row.last() == Cell::Empty {
            0nat
        } else {
            1nat
        }
    }
}

/// Number of occupied cells in a grid.
pub open spec fn count_grid(g: Seq<Seq<Cell>>) -> nat
    decreases g.len(),
{
    if g.len() == 0 {
        0
    } else {
        count_grid(g.drop_last()) + count_row(g.last())
    }
}

/// The player to move: the first mover when the piece count is even.
pub open spec fn spec_player_of(g: Seq<Seq<Cell>>) -> Player {
    if count_grid(g) % 2 == 0 {
        Player::Red
    } else {
        Player::Yellow
    }
}

/// True iff every cell of the grid is occupied.
pub open spec fn spec_is_full(g: Seq<Seq<Cell>>) -> bool {
    forall|i: int, j: int|
        0 <= i < g.len() && 0 <= j < g[i].len() ==> #[trigger] g[i][j] != Cell::Empty
}

/// True iff a piece may be dropped into column `col`:
/// the column index is in range and the top cell of the column is empty.
pub open spec fn spec_is_valid(g: Seq<Seq<Cell>>, col: int) -> bool {
    &&& 0 <= col < COLS
    &&& g[0][col] == Cell::Empty
}

/// The active player is the first mover exactly when the number
/// of pieces on the board is even.
pub proof fn lemma_active_player_parity(g: Seq<Seq<Cell>>)
    ensures
        spec_player_of(g) == Player::Red <==> count_grid(g) % 2 == 0,
{
}

/// In a well-formed grid, a column whose cells are all occupied admits
/// no further drop, and a column whose cells are all empty admits one.
pub proof fn lemma_validity_of_column(g: Seq<Seq<Cell>>, col: int)
    requires
        grid_wf(g),
        0 <= col < COLS,
    ensures
        (forall|r: int| 0 <= r < ROWS ==> #[trigger] g[r][col] != Cell::Empty) ==> !spec_is_valid(
            g,
            col,
        ),
        (forall|r: int| 0 <= r < ROWS ==> #[trigger] g[r][col] == Cell::Empty) ==> spec_is_valid(
            g,
            col,
        ),
{
}

/// A shallow wrapper around the current state of the game.
pub struct Board {
    state: State,
}

impl Board {
    /// The state held by the board.
    pub closed spec fn spec_state(self) -> State {
        self.state
    }

    /// Creates a board holding an empty state.
    pub fn new() -> (r: Board)
        ensures
            r.spec_state().wf(),
            count_grid(r.spec_state().grid()) == 0,
            forall|i: int, j: int|
                0 <= i < ROWS && 0 <= j < COLS ==> r.spec_state().grid()[i][j] == Cell::Empty,
    {
        Board { state: State::new() }
    }

    /// Read access to the current state.
    pub fn state(&self) -> (r: &State)
        ensures
            *r == self.spec_state(),
    {
        &self.state
    }

    /// Write access to the current state.
    pub fn state_mut(&mut self) -> (r: &mut State)
        ensures
            *r == old(self).spec_state(),
            final(self).spec_state() == *final(r),
    {
        &mut self.state
    }
}

/// The state of a Connect-Four board: a `ROWS` by `COLS` grid of cells.
/// Not necessarily reachable by legal play; derived queries such as the
/// active player remain pure functions of the grid contents.
pub struct State {
    pub data: Vec<Vec<Cell>>,
}

impl Clone for State {
    /// Cloning a state copies the grid cell for cell.
    fn clone(&self) -> (r: Self)
        ensures
            r.grid() == self.grid(),
    {
        let mut data: Vec<Vec<Cell>> = Vec::new();
        let mut i: usize = 0;
        while i < self.data.len()
            invariant
                i <= self.data@.len(),
                data@.len() == i,
                forall|k: int| 0 <= k < i ==> (#[trigger] data@[k])@ == self.data@[k]@,
            decreases self.data@.len() - i,
        {
            let src = &self.data[i];
            let mut row: Vec<Cell> = Vec::new();
            let mut j: usize = 0;
            while j < src.len()
                invariant
                    j <= src@.len(),
                    row@ == src@.subrange(0, j as int),
                decreases src@.len() - j,
            {
                row.push(src[j]);
                proof {
                    assert(row@ =~= src@.subrange(0, j + 1));
                }
                j += 1;
            }
            proof {
                assert(row@ =~= src@);
            }
            data.push(row);
            i += 1;
        }
        let r = State { data };
        proof {
            assert(r.grid() =~= self.grid());
        }
        r
    }
}

impl State {
    /// The mathematical view of the state: a sequence of rows.
    pub open spec fn grid(self) -> Seq<Seq<Cell>> {
        self.data@.map_values(|row: Vec<Cell>| row@)
    }

    /// Well-formedness: the grid has the fixed dimensions.
    pub open spec fn wf(self) -> bool {
        grid_wf(self.grid())
    }

    /// Creates a new state with an empty board.
    pub fn new() -> (r: State)
        ensures
            r.wf(),
            forall|i: int, j: int|
                0 <= i < ROWS && 0 <= j < COLS ==> r.grid()[i][j] == Cell::Empty,
            count_grid(r.grid()) == 0,
    {
        let mut data: Vec<Vec<Cell>> = Vec::new();
        let mut i: usize = 0;
        while i < ROWS
            invariant
                i <= ROWS,
                data@.len() == i,
                forall|k: int| 0 <= k < i ==> (#[trigger] data@[k])@.len() == COLS,
                forall|k: int, j: int|
                    0 <= k < i && 0 <= j < COLS ==> data@[k]@[j] == Cell::Empty,
            decreases ROWS - i,
        {
            let mut row: Vec<Cell> = Vec::new();
            let mut j: usize = 0;
            while j < COLS
                invariant
                    j <= COLS,
                    row@.len() == j,
                    forall|k: int| 0 <= k < j ==> row@[k] == Cell::Empty,
                decreases COLS - j,
            {
                row.push(Cell::Empty);
                j += 1;
            }
            data.push(row);
            i += 1;
        }
        let r = State { data };
        proof {
            lemma_count_empty_grid(r.grid());
        }
        r
    }

    /// Creates a state from a grid of cells.
    pub fn from_data(data: Vec<Vec<Cell>>) -> (r: State)
        ensures
            r.data == data,
            r.grid() == data@.map_values(|row: Vec<Cell>| row@),
    {
        State { data }
    }

    /// Returns the number of pieces on the board.
    pub fn moves(&self) -> (r: usize)
        requires
            self.wf(),
        ensures
            r == count_grid(self.grid()),
    {
        let ghost g = self.grid();
        let mut count: usize = 0;
        let mut i: usize = 0;
        proof {
            assert(g.subrange(0, 0) =~= Seq::<Seq<Cell>>::empty());
        }
        while i < ROWS
            invariant
                self.wf(),
                g == self.grid(),
                i <= ROWS,
                count == count_grid(g.subrange(0, i as int)),
                count <= 7 * i,
            decreases ROWS - i,
        {
            let row = &self.data[i];
            let mut j: usize = 0;
            proof {
                assert(row@.subrange(0, 0) =~= Seq::<Cell>::empty());
            }
            while j < COLS
                invariant
                    self.wf(),
                    g == self.grid(),
                    i < ROWS,
                    j <= COLS,
                    row@ == g[i as int],
                    count == count_grid(g.subrange(0, i as int)) + count_row(
                        row@.subrange(0, j as int),
                    ),
                    count <= 7 * i + j,
                decreases COLS - j,
            {
                if !row[j].is_empty() {
                    count += 1;
                }
                proof {
                    assert(row@.subrange(0, j + 1).drop_last() =~= row@.subrange(0, j as int));
                    assert(row@.subrange(0, j + 1).last() == row@[j as int]);
                }
                j += 1;
            }
            proof {
                assert(row@.subrange(0, COLS as int) =~= row@);
                assert(g.subrange(0, i + 1).drop_last() =~= g.subrange(0, i as int));
                assert(g.subrange(0, i + 1).last() == g[i as int]);
            }
            i += 1;
        }
        proof {
            assert(g.subrange(0, ROWS as int) =~= g);
        }
        count
    }

    /// Returns the player whose turn it is: the first mover when the piece
    /// count is even.
    pub fn player(&self) -> (r: Player)
        requires
            self.wf(),
        ensures
            r == spec_player_of(self.grid()),
    {
        if self.moves() % 2 == 0 {
            Player::Red
        } else {
            Player::Yellow
        }
    }

    /// Returns true iff every cell of the board is occupied.
    pub fn is_full(&self) -> (r: bool)
        requires
            self.wf(),
        ensures
            r == spec_is_full(self.grid()),
    {
        let ghost g = self.grid();
        let mut i: usize = 0;
        while i < ROWS
            invariant
                self.wf(),
                g == self.grid(),
                i <= ROWS,
                forall|a: int, b: int|
                    0 <= a < i && 0 <= b < COLS ==> #[trigger] g[a][b] != Cell::Empty,
            decreases ROWS - i,
        {
            let row = &self.data[i];
            let mut j: usize = 0;
            while j < COLS
                invariant
                    self.wf(),
                    g == self.grid(),
                    i < ROWS,
                    j <= COLS,
                    row@ == g[i as int],
                    forall|a: int, b: int|
                        0 <= a < i && 0 <= b < COLS ==> #[trigger] g[a][b] != Cell::Empty,
                    forall|b: int| 0 <= b < j ==> #[trigger] g[i as int][b] != Cell::Empty,
                decreases COLS - j,
            {
                if row[j].is_empty() {
                    return false;
                }
                j += 1;
            }
            i += 1;
        }
        true
    }

    /// Returns true iff dropping a piece into `col` is a valid move.
    pub fn is_valid(&self, col: usize) -> (r: bool)
        requires
            self.wf(),
        ensures
            r == spec_is_valid(self.grid(), col as int),
    {
        if col >= COLS {
            return false;
        }
        proof {
            assert(self.grid()[0] == self.data@[0]@);
            assert(self.grid()[0].len() == COLS);
        }
        self.data[0][col].is_empty()
    }

    /// Returns the columns a piece can be dropped into, in ascending order.
    pub fn get_valid(&self) -> (r: Vec<usize>)
        requires
            self.wf(),
        ensures
            forall|i: int|
                0 <= i < r@.len() ==> spec_is_valid(self.grid(), #[trigger] r@[i] as int),
            forall|c: usize| c < COLS && spec_is_valid(self.grid(), c as int) ==> r@.contains(c),
            forall|i: int, j: int| 0 <= i < j < r@.len() ==> r@[i] < r@[j],
    {
        let mut r: Vec<usize> = Vec::new();
        let mut col: usize = 0;
        while col < COLS
            invariant
                self.wf(),
                col <= COLS,
                forall|i: int|
                    0 <= i < r@.len() ==> spec_is_valid(self.grid(), #[trigger] r@[i] as int),
                forall|c: usize|
                    c < col && spec_is_valid(self.grid(), c as int) ==> r@.contains(c),
                forall|i: int| 0 <= i < r@.len() ==> r@[i] < col,
                forall|i: int, j: int| 0 <= i < j < r@.len() ==> r@[i] < r@[j],
            decreases COLS - col,
        {
            let ghost prev = r@;
            if self.is_valid(col) {
                r.push(col);
            }
            proof {
                assert forall|c: usize|
                    c < col + 1 && spec_is_valid(self.grid(), c as int) implies r@.contains(
                    c,
                ) by {
                    if c < col {
                        let i = choose|i: int| 0 <= i < prev.len() && prev[i] == c;
                        assert(r@[i] == c);
                    } else {
                        assert(r@.last() == col);
                    }
                }
            }
            col += 1;
        }
        r
    }

    /// Drops a piece of `player` into `col`, filling the lowest empty row of
    /// the column.
    pub fn drop(&mut self, col: usize, player: Player)
        requires
            old(self).wf(),
            spec_is_valid(old(self).grid(), col as int),
        ensures
            final(self).wf(),
            final(self).grid() == spec_dropped(old(self).grid(), col as int, player),
            count_grid(final(self).grid()) == count_grid(old(self).grid()) + 1,
    {
        let ghost g = old(self).grid();
        proof {
            lemma_landing_row_exists(g, col as int);
        }
        let mut row: usize = ROWS;
        while row > 0
            invariant
                self.wf(),
                self.grid() == g,
                g == old(self).grid(),
                col < COLS,
                row <= ROWS,
                forall|rr: int| row <= rr < ROWS ==> #[trigger] g[rr][col as int] != Cell::Empty,
                spec_is_valid(g, col as int),
            decreases row,
        {
            row -= 1;
            proof {
                assert(self.grid()[row as int] == self.data@[row as int]@);
                assert(self.grid()[row as int].len() == COLS);
            }
            let cell = self.data[row][col];
            if cell.is_empty() {
                proof {
                    lemma_landing_row_pinpoint(g, col as int, ROWS - 1, row as int);
                }
                let row_vec = &mut self.data[row];
                row_vec[col] = Cell::Player { player };
                proof {
                    let g2 = grid_update(g, row as int, col as int, Cell::Player { player });
                    assert(self.data@.len() == ROWS);
                    assert forall|i: int| 0 <= i < ROWS implies self.grid()[i] == g2[i] by {
                        assert(self.grid()[i] == self.data@[i]@);
                    }
                    assert(self.grid() =~= g2);
                    lemma_count_grid_update(g, row as int, col as int, Cell::Player { player });
                }
                return;
            }
        }
        proof {
            assert(g[0][col as int] != Cell::Empty);
            assert(false);
        }
    }

    /// Returns the content hash of the grid. Two states with identical cell
    /// contents always hash identically; the hash is well-distributed but not
    /// injective, so distinct grids may collide.
    pub fn hash_value(&self) -> (r: u64)
        requires
            self.wf(),
        ensures
            r as nat == spec_hash(self.grid()),
            r < HASH_MOD,
    {
        let ghost g = self.grid();
        let mut h: u64 = 0;
        let mut i: usize = 0;
        proof {
            assert(g.skip(0) =~= g);
        }
        while i < ROWS
            invariant
                self.wf(),
                g == self.grid(),
                i <= ROWS,
                h < HASH_MOD,
                spec_hash(g) == spec_hash_grid(h as nat, g.skip(i as int)),
            decreases ROWS - i,
        {
            let row = &self.data[i];
            proof {
                assert(g.skip(i as int).first() == g[i as int]);
                assert(g.skip(i as int).drop_first() =~= g.skip(i + 1));
            }
            let mut j: usize = 0;
            proof {
                assert(row@.skip(0) =~= row@);
            }
            while j < COLS
                invariant
                    self.wf(),
                    g == self.grid(),
                    i < ROWS,
                    j <= COLS,
                    row@ == g[i as int],
                    h < HASH_MOD,
                    spec_hash(g) == spec_hash_grid(
                        spec_hash_row(h as nat, row@.skip(j as int)),
                        g.skip(i + 1),
                    ),
                decreases COLS - j,
            {
                let code: u64 = match row[j] {
                    Cell::Empty => 0,
                    Cell::Player { player: Player::Red } => 1,
                    Cell::Player { player: Player::Yellow } => 2,
                };
                proof {
                    assert(row@.skip(j as int).first() == row@[j as int]);
                    assert(row@.skip(j as int).drop_first() =~= row@.skip(j + 1));
                }
                h = (h * HASH_MUL + code) % HASH_MOD;
                j += 1;
            }
            proof {
                assert(row@.skip(COLS as int) =~= Seq::<Cell>::empty());
            }
            i += 1;
        }
        proof {
            assert(g.skip(ROWS as int) =~= Seq::<Seq<Cell>>::empty());
        }
        h
    }

    /// Returns a new state with a piece of `player` dropped into `col`,
    /// leaving this state unchanged.
    pub fn dropped(&self, col: usize, player: Player) -> (r: State)
        requires
            self.wf(),
            spec_is_valid(self.grid(), col as int),
        ensures
            r.wf(),
            r.grid() == spec_dropped(self.grid(), col as int, player),
            count_grid(r.grid()) == count_grid(self.grid()) + 1,
    {
        let mut new_state = self.clone();
        new_state.drop(col, player);
        new_state
    }
}

/// Replaces one cell of a grid.
pub open spec fn grid_update(g: Seq<Seq<Cell>>, r: int, c: int, cell: Cell) -> Seq<Seq<Cell>> {
    g.update(r, g[r].update(c, cell))
}

/// The row a piece dropped into `col` lands in, searching upward from row `r`:
/// the largest row index at most `r` whose cell in `col` is empty, or -1.
pub open spec fn landing_row_from(g: Seq<Seq<Cell>>, col: int, r: int) -> int
    decreases r + 1,
{
    if r < 0 {
        -1
    } else if g[r][col] == Cell::Empty {
        r
    } else {
        landing_row_from(g, col, r - 1)
    }
}

/// The row a piece dropped into `col` lands in: the lowest empty row of the column.
pub open spec fn landing_row(g: Seq<Seq<Cell>>, col: int) -> int {
    landing_row_from(g, col, ROWS - 1)
}

/// The grid after dropping a piece of `player` into `col`.
pub open spec fn spec_dropped(g: Seq<Seq<Cell>>, col: int, player: Player) -> Seq<Seq<Cell>> {
    grid_update(g, landing_row(g, col), col, Cell::Player { player })
}

/// Characterizes `landing_row_from`: the result is the highest-numbered empty
/// row of the column at or below `r`, and everything strictly below it is occupied.
pub proof fn lemma_landing_row_from(g: Seq<Seq<Cell>>, col: int, r: int)
    requires
        r >= -1,
    ensures
        -1 <= landing_row_from(g, col, r) <= r,
        landing_row_from(g, col, r) >= 0 ==> g[landing_row_from(g, col, r)][col] == Cell::Empty,
        forall|rr: int|
            landing_row_from(g, col, r) < rr <= r ==> #[trigger] g[rr][col] != Cell::Empty,
    decreases r + 1,
{
    if r >= 0 && g[r][col] != Cell::Empty {
        lemma_landing_row_from(g, col, r - 1);
    }
}

/// If row `k` of the column is empty and every row strictly below it (at or
/// above `r`) is occupied, the piece lands exactly in row `k`.
pub proof fn lemma_landing_row_pinpoint(g: Seq<Seq<Cell>>, col: int, r: int, k: int)
    requires
        0 <= k <= r,
        g[k][col] == Cell::Empty,
        forall|rr: int| k < rr <= r ==> #[trigger] g[rr][col] != Cell::Empty,
    ensures
        landing_row_from(g, col, r) == k,
    decreases r + 1,
{
    if r > k {
        lemma_landing_row_pinpoint(g, col, r - 1, k);
    }
}

/// In a valid column the landing row exists: the top cell is empty, so some
/// row of the column is empty.
pub proof fn lemma_landing_row_exists(g: Seq<Seq<Cell>>, col: int)
    requires
        spec_is_valid(g, col),
    ensures
        0 <= landing_row(g, col) < ROWS,
        g[landing_row(g, col)][col] == Cell::Empty,
        forall|rr: int|
            landing_row(g, col) < rr < ROWS ==> #[trigger] g[rr][col] != Cell::Empty,
{
    lemma_landing_row_from(g, col, ROWS - 1);
    if landing_row(g, col) < 0 {
        assert(g[0][col] != Cell::Empty);
    }
}

/// Occupying an empty cell raises the piece count of a row by one.
proof fn lemma_count_row_update(row: Seq<Cell>, c: int, cell: Cell)
    requires
        0 <= c < row.len(),
        row[c] == Cell::Empty,
        cell != Cell::Empty,
    ensures
        count_row(row.update(c, cell)) == count_row(row) + 1,
    decreases row.len(),
{
    let updated = row.update(c, cell);
    if c == row.len() - 1 {
        assert(updated.drop_last() =~= row.drop_last());
    } else {
        assert(updated.drop_last() =~= row.drop_last().update(c, cell));
        lemma_count_row_update(row.drop_last(), c, cell);
    }
}

/// Occupying an empty cell raises the piece count of a grid by one.
pub proof fn lemma_count_grid_update(g: Seq<Seq<Cell>>, r: int, c: int, cell: Cell)
    requires
        0 <= r < g.len(),
        0 <= c < g[r].len(),
        g[r][c] == Cell::Empty,
        cell != Cell::Empty,
    ensures
        count_grid(grid_update(g, r, c, cell)) == count_grid(g) + 1,
    decreases g.len(),
{
    let updated = grid_update(g, r, c, cell);
    if r == g.len() - 1 {
        assert(updated.drop_last() =~= g.drop_last());
        lemma_count_row_update(g.last(), c, cell);
        assert(updated.last() == g.last().update(c, cell));
    } else {
        assert(updated.drop_last() =~= grid_update(g.drop_last(), r, c, cell));
        assert(updated.last() == g.last());
        lemma_count_grid_update(g.drop_last(), r, c, cell);
    }
}

/// Dropping into an empty column fills its bottom row; dropping again fills
/// the row directly above it.
pub proof fn lemma_gravity_two_drops(g: Seq<Seq<Cell>>, col: int, p1: Player, p2: Player)
    requires
        grid_wf(g),
        0 <= col < COLS,
        forall|r: int| 0 <= r < ROWS ==> #[trigger] g[r][col] == Cell::Empty,
    ensures
        landing_row(g, col) == ROWS - 1,
        spec_dropped(g, col, p1)[ROWS - 1][col] == (Cell::Player { player: p1 }),
        landing_row(spec_dropped(g, col, p1), col) == ROWS - 2,
        spec_dropped(spec_dropped(g, col, p1), col, p2)[ROWS - 2][col] == (Cell::Player {
            player: p2,
        }),
{
    lemma_landing_row_pinpoint(g, col, ROWS - 1, ROWS - 1);
    let g1 = spec_dropped(g, col, p1);
    assert(g1[ROWS - 1][col] == (Cell::Player { player: p1 }));
    assert(g1[ROWS - 2][col] == Cell::Empty);
    lemma_landing_row_pinpoint(g1, col, ROWS - 1, ROWS - 2);
}

/// Gravity: every occupied cell rests on an occupied cell or on the floor.
/// Grids produced from the empty board by dropping respect it; arbitrary
/// grids need not.
pub open spec fn spec_gravity(g: Seq<Seq<Cell>>) -> bool {
    forall|r: int, c: int|
        0 <= r < ROWS - 1 && 0 <= c < COLS && (#[trigger] g[r][c]) != Cell::Empty ==> g[r + 1][c]
            != Cell::Empty
}

/// Under gravity, an occupied top cell means the whole column is occupied.
proof fn lemma_gravity_down(g: Seq<Seq<Cell>>, c: int, r: int)
    requires
        spec_gravity(g),
        0 <= c < COLS,
        0 <= r < ROWS,
        g[0][c] != Cell::Empty,
    ensures
        g[r][c] != Cell::Empty,
    decreases r,
{
    if r > 0 {
        lemma_gravity_down(g, c, r - 1);
    }
}

/// A grid respecting gravity that is not full has a valid column.
pub proof fn lemma_gravity_valid(g: Seq<Seq<Cell>>)
    requires
        grid_wf(g),
        spec_gravity(g),
        !spec_is_full(g),
    ensures
        exists|c: int| #[trigger] spec_is_valid(g, c),
{
    let (i, j) = choose|i: int, j: int|
        0 <= i < g.len() && 0 <= j < g[i].len() && g[i][j] == Cell::Empty;
    if g[0][j] != Cell::Empty {
        lemma_gravity_down(g, j, i);
        assert(false);
    }
    assert(spec_is_valid(g, j));
}

/// Dropping a piece into a valid column preserves gravity.
#[verifier::rlimit(80)]
pub proof fn lemma_drop_preserves_gravity(g: Seq<Seq<Cell>>, col: int, player: Player)
    requires
        grid_wf(g),
        spec_gravity(g),
        spec_is_valid(g, col),
    ensures
        spec_gravity(spec_dropped(g, col, player)),
{
    lemma_landing_row_exists(g, col);
    let lr = landing_row(g, col);
    let g2 = spec_dropped(g, col, player);
    assert forall|r: int, c: int|
        0 <= r < ROWS - 1 && 0 <= c < COLS && (#[trigger] g2[r][c]) != Cell::Empty implies g2[r
        + 1][c] != Cell::Empty by {
        if c != col {
            assert(g2[r][c] == g[r][c]);
            assert(g2[r + 1][c] == g[r + 1][c]);
        } else {
            if r == lr {
                assert(g2[r + 1][col] == g[r + 1][col]);
            } else if r < lr {
                assert(g2[r][col] == g[r][col]);
                if r + 1 == lr {
                    assert(g2[lr][col] == (Cell::Player { player }));
                } else {
                    assert(g2[r + 1][col] == g[r + 1][col]);
                }
            } else {
                assert(g2[r + 1][col] == g[r + 1][col]);
            }
        }
    }
}

/// The modulus that keeps the running content hash within machine range.
pub const HASH_MOD: u64 = 0x0800_0000_0000_0000;

/// The multiplier of the polynomial content hash.
pub const HASH_MUL: u64 = 31;

/// The numeric code of one cell, as folded into the content hash.
pub open spec fn hash_cell(c: Cell) -> u64 {
    match c {
        Cell::Empty => 0,
        Cell::Player { player } => match player {
            Player::Red => 1,
            Player::Yellow => 2,
        },
    }
}

/// Folds one row of cells into a running hash value.
pub open spec fn spec_hash_row(h: nat, row: Seq<Cell>) -> nat
    decreases row.len(),
{
    if row.len() == 0 {
        h
    } else {
        spec_hash_row((h * (HASH_MUL as nat) + (hash_cell(row.first()) as nat)) % (HASH_MOD as nat), row.drop_first())
    }
}

/// Folds the rows of a grid into a running hash value.
pub open spec fn spec_hash_grid(h: nat, g: Seq<Seq<Cell>>) -> nat
    decreases g.len(),
{
    if g.len() == 0 {
        h
    } else {
        spec_hash_grid(spec_hash_row(h, g.first()), g.drop_first())
    }
}

/// The content hash of a grid: a pure function of the cell contents, so two
/// grids with the same cells always hash identically.
pub open spec fn spec_hash(g: Seq<Seq<Cell>>) -> nat {
    spec_hash_grid(0, g)
}

/// A grid of empty cells holds no piece.
proof fn lemma_count_empty_grid(g: Seq<Seq<Cell>>)
    requires
        forall|i: int, j: int|
            0 <= i < g.len() && 0 <= j < g[i].len() ==> #[trigger] g[i][j] == Cell::Empty,
    ensures
        count_grid(g) == 0,
    decreases g.len(),
{
    if g.len() > 0 {
        lemma_count_empty_grid(g.drop_last());
        lemma_count_empty_row(g.last());
    }
}

/// A row of empty cells holds no piece.
proof fn lemma_count_empty_row(row: Seq<Cell>)
    requires
        forall|j: int| 0 <= j < row.len() ==> #[trigger] row[j] == Cell::Empty,
    ensures
        count_row(row) == 0,
    decreases row.len(),
{
    if row.len() > 0 {
        lemma_count_empty_row(row.drop_last());
    }
}

} // verus!
