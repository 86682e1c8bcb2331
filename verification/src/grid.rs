//! Coordinates, compass directions and the read-only grid that every search
//! in this crate walks over.

use vstd::prelude::*;

verus! {

/// Largest width or height a [`Grid`] may have.
pub const MAX_DIM: usize = 65535;

/// The byte that marks an impassable cell.
pub const WALL: u8 = 35;

/// How a search can end without an answer.
#[derive(Clone, Copy, Debug, PartialEq, Eq, Structural)]
pub enum SearchError {
    /// The input does not describe a grid: no rows, rows of different
    /// lengths, or a side longer than [`MAX_DIM`].
    MalformedInput,
    /// No route satisfies the request.
    NoPathFound,
    /// A simulation showed no repeated state within its step budget.
    NonTerminatingSimulation,
}

/// One of the four compass directions; north is towards row zero.
#[derive(Clone, Copy, Debug, PartialEq, Eq, Structural, Hash)]
pub enum Direction {
    North,
    East,
    South,
    West,
}

/// A position: column `x`, row `y`.
#[derive(Clone, Copy, Debug, PartialEq, Eq, Structural, Hash)]
pub struct Coordinate {
    pub x: usize,
    pub y: usize,
}

impl Direction {
    /// Horizontal displacement of one step.
    pub open spec fn dx(self) -> int {
        match self {
            Direction::East => 1,
            Direction::West => -1,
            _ => 0,
        }
    }

    /// Vertical displacement of one step.
    pub open spec fn dy(self) -> int {
        match self {
            Direction::South => 1,
            Direction::North => -1,
            _ => 0,
        }
    }

    /// The direction pointing the other way.
    pub open spec fn spec_opposite(self) -> Direction {
        match self {
            Direction::North => Direction::South,
            Direction::East => Direction::West,
            Direction::South => Direction::North,
            Direction::West => Direction::East,
        }
    }

    /// Position in the order north, east, south, west.
    pub open spec fn spec_index(self) -> int {
        match self {
            Direction::North => 0,
            Direction::East => 1,
            Direction::South => 2,
            Direction::West => 3,
        }
    }

    /// The direction at position `i` of the order north, east, south, west.
    pub open spec fn spec_from_index(i: int) -> Direction {
        if i == 0 {
            Direction::North
        } else if i == 1 {
            Direction::East
        } else if i == 2 {
            Direction::South
        } else {
            Direction::West
        }
    }

    #[verifier::when_used_as_spec(spec_opposite)]
    pub fn opposite(self) -> (r: Direction)
        ensures
            r == self.spec_opposite(),
    {
        match self {
            Direction::North => Direction::South,
            Direction::East => Direction::West,
            Direction::South => Direction::North,
            Direction::West => Direction::East,
        }
    }

    /// All four directions, in the order north, east, south, west.
    pub fn all() -> (r: Vec<Direction>)
        ensures
            r@ == seq![Direction::North, Direction::East, Direction::South, Direction::West],
    {
        vec![Direction::North, Direction::East, Direction::South, Direction::West]
    }

    /// Position in the order north, east, south, west.
    pub fn index(self) -> (r: usize)
        ensures
            r == self.spec_index(),
            r < 4,
    {
        match self {
            Direction::North => 0,
            Direction::East => 1,
            Direction::South => 2,
            Direction::West => 3,
        }
    }

    /// The direction at position `i` of the order north, east, south, west.
    pub fn from_index(i: usize) -> (r: Direction)
        requires
            i < 4,
        ensures
            r == Direction::spec_from_index(i as int),
            r.spec_index() == i,
    {
        if i == 0 {
            Direction::North
        } else if i == 1 {
            Direction::East
        } else if i == 2 {
            Direction::South
        } else {
            Direction::West
        }
    }
}

/// The mathematical model of a grid: its rows, top row first.
pub type Cells = Seq<Seq<u8>>;

/// Whether `g` is a rectangle of an admissible size.
pub open spec fn rectangular(g: Cells) -> bool {
    &&& 1 <= g.len() <= MAX_DIM
    &&& 1 <= g[0].len() <= MAX_DIM
    &&& forall|y: int| 0 <= y < g.len() ==> (#[trigger] g[y]).len() == g[0].len()
}

/// Number of columns.
pub open spec fn width_of(g: Cells) -> int {
    g[0].len() as int
}

/// Number of rows.
pub open spec fn height_of(g: Cells) -> int {
    g.len() as int
}

/// Whether column `x`, row `y` lies on the grid.
pub open spec fn in_bounds(g: Cells, x: int, y: int) -> bool {
    0 <= x < width_of(g) && 0 <= y < height_of(g)
}

/// The byte stored at column `x`, row `y`; meaningful only in bounds.
pub open spec fn cell_at(g: Cells, x: int, y: int) -> u8 {
    g[y][x]
}

/// The cell at column `x`, row `y`, or `None` off the grid.
pub open spec fn cell(g: Cells, x: int, y: int) -> Option<u8> {
    if in_bounds(g, x, y) {
        Some(cell_at(g, x, y))
    } else {
        None
    }
}

/// Whether the cell at column `x`, row `y` exists and is not a wall.
pub open spec fn passable(g: Cells, x: int, y: int) -> bool {
    in_bounds(g, x, y) && cell_at(g, x, y) != WALL
}

/// The position one step in direction `d` from `c`.
pub open spec fn shifted(c: Coordinate, d: Direction) -> Coordinate {
    Coordinate { x: (c.x + d.dx()) as usize, y: (c.y + d.dy()) as usize }
}

/// Whether the cell one step in direction `d` from `c` exists and is not a
/// wall.
pub open spec fn open_towards(g: Cells, c: Coordinate, d: Direction) -> bool {
    passable(g, c.x + d.dx(), c.y + d.dy())
}

/// The passable cells next to `c`, in the order north, east, south, west,
/// as far as the first `upto` directions go.
pub open spec fn open_neighbors_upto(g: Cells, c: Coordinate, upto: int) -> Seq<Coordinate>
    decreases upto,
{
    if upto <= 0 {
        Seq::empty()
    } else {
        let before = open_neighbors_upto(g, c, upto - 1);
        let d = Direction::spec_from_index(upto - 1);
        if open_towards(g, c, d) {
            before.push(shifted(c, d))
        } else {
            before
        }
    }
}

/// The passable cells next to `c`, in the order north, east, south, west.
pub open spec fn open_neighbors(g: Cells, c: Coordinate) -> Seq<Coordinate> {
    open_neighbors_upto(g, c, 4)
}

/// Whether `(x1, y1)` comes before `(x2, y2)` when the grid is read row by
/// row, each row from the left.
pub open spec fn reads_before(x1: int, y1: int, x2: int, y2: int) -> bool {
    y1 < y2 || (y1 == y2 && x1 < x2)
}

/// `c` is the first cell holding `b` when `g` is read row by row.
pub open spec fn is_first_cell(g: Cells, b: u8, c: Coordinate) -> bool {
    &&& in_bounds(g, c.x as int, c.y as int)
    &&& cell_at(g, c.x as int, c.y as int) == b
    &&& forall|x: int, y: int|
        in_bounds(g, x, y) && reads_before(x, y, c.x as int, c.y as int) ==> #[trigger] cell_at(
            g,
            x,
            y,
        ) != b
}

/// `c` is the last cell holding `b` when `g` is read row by row.
pub open spec fn is_last_cell(g: Cells, b: u8, c: Coordinate) -> bool {
    &&& in_bounds(g, c.x as int, c.y as int)
    &&& cell_at(g, c.x as int, c.y as int) == b
    &&& forall|x: int, y: int|
        in_bounds(g, x, y) && reads_before(c.x as int, c.y as int, x, y) ==> #[trigger] cell_at(
            g,
            x,
            y,
        ) != b
}

/// The first cell holding `b` when `g` is read row by row, if any does.
pub open spec fn first_cell(g: Cells, b: u8) -> Coordinate {
    choose|c: Coordinate| is_first_cell(g, b, c)
}

/// The last cell holding `b` when `g` is read row by row, if any does.
pub open spec fn last_cell(g: Cells, b: u8) -> Coordinate {
    choose|c: Coordinate| is_last_cell(g, b, c)
}

/// Only one cell can be the first to hold `b`.
pub proof fn lemma_first_cell_unique(g: Cells, b: u8, c: Coordinate)
    requires
        is_first_cell(g, b, c),
    ensures
        first_cell(g, b) == c,
{
    let d = first_cell(g, b);
    assert(is_first_cell(g, b, d));
    if reads_before(d.x as int, d.y as int, c.x as int, c.y as int) {
        assert(cell_at(g, d.x as int, d.y as int) != b);
    }
    if reads_before(c.x as int, c.y as int, d.x as int, d.y as int) {
        assert(cell_at(g, c.x as int, c.y as int) != b);
    }
}

/// Only one cell can be the last to hold `b`.
pub proof fn lemma_last_cell_unique(g: Cells, b: u8, c: Coordinate)
    requires
        is_last_cell(g, b, c),
    ensures
        last_cell(g, b) == c,
{
    let d = last_cell(g, b);
    assert(is_last_cell(g, b, d));
    if reads_before(d.x as int, d.y as int, c.x as int, c.y as int) {
        assert(cell_at(g, c.x as int, c.y as int) != b);
    }
    if reads_before(c.x as int, c.y as int, d.x as int, d.y as int) {
        assert(cell_at(g, d.x as int, d.y as int) != b);
    }
}

/// No cell of `g` holds `b`.
pub open spec fn lacks(g: Cells, b: u8) -> bool {
    forall|x: int, y: int| in_bounds(g, x, y) ==> #[trigger] cell_at(g, x, y) != b
}

/// How many of the first `upto` cells of row `y` satisfy `pred`.
pub open spec fn count_in_row(pred: spec_fn(Coordinate) -> bool, y: int, upto: int) -> int
    decreases upto,
{
    if upto <= 0 {
        0
    } else {
        count_in_row(pred, y, upto - 1) + if pred(Coordinate { x: (upto - 1) as usize, y: y as usize }) {
            1int
        } else {
            0int
        }
    }
}

/// How many cells of the first `upto` rows, each `width` cells wide,
/// satisfy `pred`.
pub open spec fn count_in_rows(pred: spec_fn(Coordinate) -> bool, width: int, upto: int) -> int
    decreases upto,
{
    if upto <= 0 {
        0
    } else {
        count_in_rows(pred, width, upto - 1) + count_in_row(pred, upto - 1, width)
    }
}

/// How many cells of `g` satisfy `pred`.
pub open spec fn count_cells(g: Cells, pred: spec_fn(Coordinate) -> bool) -> int {
    count_in_rows(pred, width_of(g), height_of(g))
}

/// A row holds at most as many cells that satisfy `pred` as were counted
/// over.
pub proof fn lemma_count_in_row(pred: spec_fn(Coordinate) -> bool, y: int, upto: int)
    requires
        0 <= upto,
    ensures
        0 <= count_in_row(pred, y, upto) <= upto,
    decreases upto,
{
    if upto > 0 {
        lemma_count_in_row(pred, y, upto - 1);
    }
}

/// The rows counted over hold at most as many cells that satisfy `pred`
/// as they have cells.
pub proof fn lemma_count_in_rows(pred: spec_fn(Coordinate) -> bool, width: int, upto: int)
    requires
        0 <= upto,
        0 <= width,
    ensures
        0 <= count_in_rows(pred, width, upto) <= upto * width,
    decreases upto,
{
    if upto > 0 {
        lemma_count_in_rows(pred, width, upto - 1);
        lemma_count_in_row(pred, upto - 1, width);
        assert((upto - 1) * width + width == upto * width) by (nonlinear_arith);
    } else {
        assert(0 * width == 0);
    }
}

/// A grid holds at most 65535 times 65535 cells that satisfy `pred`.
pub proof fn lemma_count_cells(g: Cells, pred: spec_fn(Coordinate) -> bool, upto: int)
    requires
        rectangular(g),
        0 <= upto <= height_of(g),
    ensures
        0 <= count_in_rows(pred, width_of(g), upto) <= 4294836225,
{
    lemma_count_in_rows(pred, width_of(g), upto);
    assert(upto * width_of(g) <= 4294836225) by (nonlinear_arith)
        requires
            0 <= upto <= 65535,
            0 <= width_of(g) <= 65535,
    ;
}

/// A rectangular, immutable field of byte-valued cells.
pub struct Grid {
    rows: Vec<Vec<u8>>,
}

impl View for Grid {
    type V = Seq<Seq<u8>>;

    /// The rows of the grid, top row first.
    closed spec fn view(&self) -> Seq<Seq<u8>> {
        self.rows.deep_view()
    }
}

impl Grid {
    #[verifier::type_invariant]
    pub closed spec fn inv(&self) -> bool {
        rectangular(self.rows.deep_view())
    }

    /// A grid is always a rectangle of an admissible size.
    pub proof fn lemma_rectangular(&self)
        requires
            self.inv(),
        ensures
            rectangular(self@),
    {
    }

    /// Builds a grid from its rows, top row first.
    pub fn from_rows(rows: Vec<Vec<u8>>) -> (r: Result<Grid, SearchError>)
        ensures
            match r {
                Ok(g) => g@ == rows.deep_view() && rectangular(g@) && g.inv(),
                Err(e) => e == SearchError::MalformedInput && !rectangular(rows.deep_view()),
            },
    {
        let height = rows.len();
        if height == 0 || height > MAX_DIM {
            return Err(SearchError::MalformedInput);
        }
        let width = rows[0].len();
        if width == 0 || width > MAX_DIM {
            return Err(SearchError::MalformedInput);
        }
        let mut y: usize = 1;
        while y < height
            invariant
                1 <= y <= height,
                height == rows@.len(),
                width == rows@[0]@.len(),
                forall|k: int| 0 <= k < y ==> (#[trigger] rows@[k])@.len() == width,
            decreases height - y,
        {
            if rows[y].len() != width {
                proof {
                    assert(rows.deep_view()[y as int].len() == rows@[y as int]@.len());
                    assert(rows.deep_view()[0].len() == width);
                }
                return Err(SearchError::MalformedInput);
            }
            y += 1;
        }
        proof {
            assert forall|k: int| 0 <= k < rows.deep_view().len() implies (#[trigger] rows.deep_view()[k]).len()
                == rows.deep_view()[0].len() by {
                assert(rows@[k]@.len() == width);
            }
        }
        Ok(Grid { rows })
    }

    /// Number of columns.
    pub fn width(&self) -> (w: usize)
        ensures
            w == width_of(self@),
            1 <= w <= MAX_DIM,
    {
        proof {
            use_type_invariant(self);
        }
        self.rows[0].len()
    }

    /// Number of rows.
    pub fn height(&self) -> (h: usize)
        ensures
            h == height_of(self@),
            1 <= h <= MAX_DIM,
    {
        proof {
            use_type_invariant(self);
        }
        self.rows.len()
    }

    /// The position one step in direction `d` from `c`, or `None` where
    /// that step leaves the grid.
    pub fn neighbor(&self, c: Coordinate, d: Direction) -> (r: Option<Coordinate>)
        ensures
            r is Some <==> in_bounds(self@, c.x + d.dx(), c.y + d.dy()),
            r is Some ==> r->Some_0 == shifted(c, d) && r->Some_0.x == c.x + d.dx() && r->Some_0.y
                == c.y + d.dy(),
    {
        let w = self.width();
        let h = self.height();
        match d {
            Direction::North => if c.y == 0 || c.y > h || c.x >= w {
                None
            } else {
                Some(Coordinate { x: c.x, y: c.y - 1 })
            },
            Direction::East => if c.x >= w - 1 || c.y >= h {
                None
            } else {
                Some(Coordinate { x: c.x + 1, y: c.y })
            },
            Direction::South => if c.y >= h - 1 || c.x >= w {
                None
            } else {
                Some(Coordinate { x: c.x, y: c.y + 1 })
            },
            Direction::West => if c.x == 0 || c.x > w || c.y >= h {
                None
            } else {
                Some(Coordinate { x: c.x - 1, y: c.y })
            },
        }
    }

    /// Whether the cell at `c` exists and is not a wall.
    pub fn is_passable(&self, c: Coordinate) -> (r: bool)
        ensures
            r == passable(self@, c.x as int, c.y as int),
    {
        match self.get(c) {
            Some(b) => b != WALL,
            None => false,
        }
    }

    /// The passable cells next to `c`: at most four, none off the grid,
    /// in the order north, east, south, west.
    pub fn passable_neighbors4(&self, c: Coordinate) -> (r: Vec<Coordinate>)
        ensures
            r@ == open_neighbors(self@, c),
            r@.len() <= 4,
    {
        let mut out: Vec<Coordinate> = Vec::new();
        let mut i: usize = 0;
        while i < 4
            invariant
                i <= 4,
                out@ == open_neighbors_upto(self@, c, i as int),
                out@.len() <= i,
            decreases 4 - i,
        {
            let d = Direction::from_index(i);
            match self.neighbor(c, d) {
                Some(n) => {
                    if self.is_passable(n) {
                        out.push(n);
                    }
                },
                None => {},
            }
            i += 1;
        }
        out
    }

    /// The first cell holding `b` when the grid is read row by row, each
    /// row from the left.
    pub fn find_first(&self, b: u8) -> (r: Option<Coordinate>)
        ensures
            match r {
                Some(c) => is_first_cell(self@, b, c) && c == first_cell(self@, b),
                None => lacks(self@, b),
            },
    {
        let w = self.width();
        let h = self.height();
        let mut y: usize = 0;
        while y < h
            invariant
                y <= h,
                h == height_of(self@),
                w == width_of(self@),
                forall|i: int, j: int|
                    in_bounds(self@, i, j) && j < y ==> #[trigger] cell_at(self@, i, j) != b,
            decreases h - y,
        {
            let mut x: usize = 0;
            while x < w
                invariant
                    x <= w,
                    y < h,
                    h == height_of(self@),
                    w == width_of(self@),
                    forall|i: int, j: int|
                        in_bounds(self@, i, j) && j < y ==> #[trigger] cell_at(self@, i, j) != b,
                    forall|i: int| 0 <= i < x ==> #[trigger] cell_at(self@, i, y as int) != b,
                decreases w - x,
            {
                let c = Coordinate { x, y };
                if self.get(c) == Some(b) {
                    proof {
                        lemma_first_cell_unique(self@, b, c);
                    }
                    return Some(c);
                }
                x += 1;
            }
            y += 1;
        }
        None
    }

    /// The last cell holding `b` when the grid is read row by row, each
    /// row from the left.
    pub fn find_last(&self, b: u8) -> (r: Option<Coordinate>)
        ensures
            match r {
                Some(c) => is_last_cell(self@, b, c) && c == last_cell(self@, b),
                None => lacks(self@, b),
            },
    {
        let w = self.width();
        let h = self.height();
        let mut y: usize = h;
        while y > 0
            invariant
                y <= h,
                h == height_of(self@),
                w == width_of(self@),
                forall|i: int, j: int|
                    in_bounds(self@, i, j) && j >= y ==> #[trigger] cell_at(self@, i, j) != b,
            decreases y,
        {
            y -= 1;
            let mut x: usize = w;
            while x > 0
                invariant
                    x <= w,
                    y < h,
                    h == height_of(self@),
                    w == width_of(self@),
                    forall|i: int, j: int|
                        in_bounds(self@, i, j) && j > y ==> #[trigger] cell_at(self@, i, j) != b,
                    forall|i: int| x <= i < w ==> #[trigger] cell_at(self@, i, y as int) != b,
                decreases x,
            {
                x -= 1;
                let c = Coordinate { x, y };
                if self.get(c) == Some(b) {
                    proof {
                        lemma_last_cell_unique(self@, b, c);
                    }
                    return Some(c);
                }
            }
        }
        None
    }

    /// The cell at `c`, or `None` when `c` lies off the grid.
    pub fn get(&self, c: Coordinate) -> (r: Option<u8>)
        ensures
            r == cell(self@, c.x as int, c.y as int),
    {
        proof {
            use_type_invariant(self);
        }
        if c.y < self.rows.len() && c.x < self.rows[0].len() {
            assert(self.rows.deep_view()[c.y as int].len() == self.rows@[c.y as int]@.len());
            Some(self.rows[c.y][c.x])
        } else {
            None
        }
    }
}

} // verus!
