//! The playfield: a grid of occupied cells and a count of cleared lines.

use vstd::prelude::*;
use crate::coord::Coord;

verus! {

/// Number of rows, the two hidden rows above the visible field included.
pub const HEIGHT: usize = 22;

/// Number of columns.
pub const WIDTH: usize = 10;

/// Number of cells.
pub const SIZE: usize = HEIGHT * WIDTH;

/// A coordinate lies outside the field.
#[derive(Debug)]
pub struct SizeError;

/// The cell is already occupied.
#[derive(Debug)]
pub struct DuplicateBlockError;

/// Why a block could not be placed.
#[derive(Debug)]
pub enum Error {
    Size(SizeError),
    DuplicateBlock(DuplicateBlockError),
}

impl SizeError {
    /// What went wrong, in words.
    pub fn description(&self) -> (s: &'static str)
        ensures
            s@ == "Argument does not match Tetris field dimensions."@,
    {
        "Argument does not match Tetris field dimensions."
    }
}

impl DuplicateBlockError {
    /// What went wrong, in words.
    pub fn description(&self) -> (s: &'static str)
        ensures
            s@ == "Block already exists"@,
    {
        "Block already exists"
    }
}

impl Error {
    /// What went wrong, in the words of the error inside.
    pub fn description(&self) -> (s: &'static str)
        ensures
            *self is Size ==> s@ == "Argument does not match Tetris field dimensions."@,
            *self is DuplicateBlock ==> s@ == "Block already exists"@,
    {
        match *self {
            Error::Size(ref e) => e.description(),
            Error::DuplicateBlock(ref e) => e.description(),
        }
    }
}

/// Whether `c` addresses a cell of the field.
pub open spec fn in_bounds(c: Coord) -> bool {
    0 <= c.x < WIDTH && 0 <= c.y < HEIGHT
}

/// The mathematical state of a field: `rows[y][x]` tells whether the cell in
/// column `x` of row `y` is occupied, row 0 being the floor.
pub struct Grid {
    pub rows: Seq<Seq<bool>>,
    pub score: nat,
}

impl Grid {
    /// `HEIGHT` rows of `WIDTH` cells each, none of them full: a row is
    /// cleared as soon as it fills.
    pub open spec fn wf(self) -> bool {
        &&& self.rows.len() == HEIGHT
        &&& forall|y: int| 0 <= y < HEIGHT ==> (#[trigger] self.rows[y]).len() == WIDTH
        &&& forall|y: int| 0 <= y < HEIGHT ==> !Self::row_full(#[trigger] self.rows[y])
    }

    pub open spec fn empty_row() -> Seq<bool> {
        Seq::new(WIDTH as nat, |x: int| false)
    }

    pub open spec fn empty_rows() -> Seq<Seq<bool>> {
        Seq::new(HEIGHT as nat, |y: int| Self::empty_row())
    }

    /// The field without any block and with no line cleared yet.
    pub open spec fn empty() -> Grid {
        Grid { rows: Self::empty_rows(), score: 0 }
    }

    /// Occupancy of the cell in column `x` of row `y`.
    pub open spec fn at(self, x: int, y: int) -> bool {
        self.rows[y][x]
    }

    /// What reading the cell `c` gives.
    pub open spec fn get(self, c: Coord) -> Result<bool, SizeError> {
        if in_bounds(c) {
            Ok(self.at(c.x as int, c.y as int))
        } else {
            Err(SizeError)
        }
    }

    /// Every cell of the row is occupied.
    pub open spec fn row_full(row: Seq<bool>) -> bool {
        forall|x: int| 0 <= x < row.len() ==> row[x]
    }

    /// The grid with the cell `c` occupied and nothing else changed.
    pub open spec fn mark(self, c: Coord) -> Grid {
        Grid {
            rows: self.rows.update(c.y as int, self.rows[c.y as int].update(c.x as int, true)),
            score: self.score,
        }
    }

    /// The grid with row `y` taken out: the rows above it move down by one,
    /// an empty row enters at the top and the score grows by one.
    pub open spec fn clear_row(self, y: int) -> Grid {
        Grid { rows: self.rows.remove(y).push(Self::empty_row()), score: self.score + 1 }
    }

    /// The grid after a block was put into the free cell `c`: the cell is
    /// occupied, and if that completed its row, the row is cleared.
    pub open spec fn place(self, c: Coord) -> Grid {
        let marked = self.mark(c);
        if Self::row_full(marked.rows[c.y as int]) {
            marked.clear_row(c.y as int)
        } else {
            marked
        }
    }

    /// What an attempt to put a block into `c` answers.
    pub open spec fn set_result(self, c: Coord) -> Result<(), Error> {
        if !in_bounds(c) {
            Err(Error::Size(SizeError))
        } else if self.at(c.x as int, c.y as int) {
            Err(Error::DuplicateBlock(DuplicateBlockError))
        } else {
            Ok(())
        }
    }

    /// The grid after an attempt to put a block into `c`: unchanged where
    /// the attempt is refused.
    pub open spec fn after_set(self, c: Coord) -> Grid {
        if self.set_result(c) is Ok {
            self.place(c)
        } else {
            self
        }
    }

    /// Whether putting a block into `c` clears a line.
    pub open spec fn completes_row(self, c: Coord) -> bool {
        self.set_result(c) is Ok && Self::row_full(self.mark(c).rows[c.y as int])
    }
}

/// The rows of a field that is given column by column: `cols[x][y]` is the
/// cell in column `x` of row `y`.
pub open spec fn rows_of(cols: Seq<Seq<bool>>) -> Seq<Seq<bool>> {
    Seq::new(HEIGHT as nat, |y: int| Seq::new(WIDTH as nat, |x: int| cols[x][y]))
}

/// Whether `cols` holds `WIDTH` columns of `HEIGHT` cells each.
pub open spec fn rectangular(cols: Seq<Seq<bool>>) -> bool {
    &&& cols.len() == WIDTH
    &&& forall|x: int| 0 <= x < WIDTH ==> (#[trigger] cols[x]).len() == HEIGHT
}

/// The test that keeps the rows with a free cell.
pub open spec fn has_gap() -> spec_fn(Seq<bool>) -> bool {
    |row: Seq<bool>| !Grid::row_full(row)
}

/// `n` empty rows.
pub open spec fn padding(n: int) -> Seq<Seq<bool>> {
    Seq::new(n as nat, |y: int| Grid::empty_row())
}

/// The rows after every full row was cleared: the rows with a free cell,
/// in their order, under as many empty rows as rows were cleared.
pub open spec fn settled(rows: Seq<Seq<bool>>) -> Seq<Seq<bool>> {
    let kept = rows.filter(has_gap());
    kept + padding(rows.len() - kept.len())
}

/// The number of full rows among `rows`.
pub open spec fn full_rows(rows: Seq<Seq<bool>>) -> nat {
    (rows.len() - rows.filter(has_gap()).len()) as nat
}

/// The field that results from stacking the given blocks: every full row is
/// cleared and counted.
pub open spec fn stacked(cols: Seq<Seq<bool>>) -> Grid {
    Grid { rows: settled(rows_of(cols)), score: full_rows(rows_of(cols)) }
}

/// The columns left of `upto` as rows, with the other columns empty.
spec fn through(cols: Seq<Seq<bool>>, upto: int) -> Seq<Seq<bool>> {
    Seq::new(HEIGHT as nat, |y: int| Seq::new(WIDTH as nat, |x: int| x < upto && cols[x][y]))
}

/// The playfield.
#[derive(Debug)]
pub struct Field {
    blocks: [[bool; WIDTH]; HEIGHT],
    score: u32,
}

impl Clone for Field {
    fn clone(&self) -> (f: Field)
        ensures
            f@ == self@,
    {
        proof {
            use_type_invariant(self);
        }
        Field { blocks: self.blocks, score: self.score }
    }
}

impl Default for Field {
    /// A field without blocks and with score 0.
    fn default() -> (f: Field)
        ensures
            f@ == Grid::empty(),
    {
        Field::new()
    }
}

/// The cells of a field as rows.
spec fn grid_rows(blocks: [[bool; WIDTH]; HEIGHT]) -> Seq<Seq<bool>> {
    Seq::new(HEIGHT as nat, |y: int| blocks[y]@)
}

impl View for Field {
    type V = Grid;

    closed spec fn view(&self) -> Grid {
        Grid { rows: grid_rows(self.blocks), score: self.score as nat }
    }
}

impl Field {
    /// A field never holds a full row.
    #[verifier::type_invariant]
    pub open spec fn valid(&self) -> bool {
        self@.wf()
    }

    // true if coord is in the field
    fn size_check(c: &Coord) -> (r: bool)
        ensures
            r == in_bounds(*c),
    {
        !(c.x < 0 || c.y < 0 || c.x >= WIDTH as i32 || c.y >= HEIGHT as i32)
    }

    /// Clears row `y` if it is full, and tells whether it was.
    fn check_line(blocks: &mut [[bool; WIDTH]; HEIGHT], y: usize) -> (cleared: bool)
        requires
            y < HEIGHT,
        ensures
            cleared == Grid::row_full(grid_rows(*old(blocks))[y as int]),
            grid_rows(*final(blocks)) == (if cleared {
                grid_rows(*old(blocks)).remove(y as int).push(Grid::empty_row())
            } else {
                grid_rows(*old(blocks))
            }),
    {
        let mut x: usize = 0;
        while x < WIDTH
            invariant
                x <= WIDTH,
                y < HEIGHT,
                *blocks == *old(blocks),
                forall|i: int| 0 <= i < x ==> blocks[y as int][i],
            decreases WIDTH - x,
        {
            if !blocks[y][x] {
                assert(!grid_rows(*blocks)[y as int][x as int]);
                return false;
            }
            x += 1;
        }
        assert(Grid::row_full(grid_rows(*blocks)[y as int]));
        let mut j: usize = y;
        while j < HEIGHT - 1
            invariant
                y <= j <= HEIGHT - 1,
                forall|k: int| 0 <= k < y ==> blocks[k] == old(blocks)[k],
                forall|k: int| y <= k < j ==> blocks[k] == old(blocks)[k + 1],
                forall|k: int| j <= k < HEIGHT ==> blocks[k] == old(blocks)[k],
            decreases HEIGHT - 1 - j,
        {
            blocks[j] = blocks[j + 1];
            j += 1;
        }
        let top: usize = HEIGHT - 1;
        let mut x: usize = 0;
        while x < WIDTH
            invariant
                x <= WIDTH,
                y <= top,
                top == HEIGHT - 1,
                forall|k: int| 0 <= k < y ==> blocks[k] == old(blocks)[k],
                forall|k: int| y <= k < top ==> blocks[k] == old(blocks)[k + 1],
                forall|i: int| 0 <= i < x ==> !blocks[top as int][i],
            decreases WIDTH - x,
        {
            blocks[top][x] = false;
            x += 1;
        }
        proof {
            let before = grid_rows(*old(blocks));
            let cleared = before.remove(y as int).push(Grid::empty_row());
            assert(blocks[top as int]@ =~= Grid::empty_row());
            assert forall|k: int| 0 <= k < HEIGHT implies grid_rows(*blocks)[k] == cleared[k] by {
                if k < y {
                    assert(blocks[k] == old(blocks)[k]);
                } else if k < top {
                    assert(blocks[k] == old(blocks)[k + 1]);
                    assert(cleared[k] == before[k + 1]);
                } else {
                    assert(cleared[k] == Grid::empty_row());
                }
            }
            assert(grid_rows(*blocks) =~= cleared);
        }
        true
    }

    /// A field without blocks and with score 0.
    pub fn new() -> (f: Field)
        ensures
            f@ == Grid::empty(),
            f@.wf(),
    {
        let blocks = [[false; WIDTH]; HEIGHT];
        proof {
            assert(grid_rows(blocks) =~~= Grid::empty_rows());
            empty_field_reads_free(Coord { x: 0, y: 0 });
        }
        Field { blocks, score: 0 }
    }

    /// Stacks the blocks of `rect`, given column by column with
    /// `rect[x][y]` the cell in column `x` of row `y`. The blocks are put in
    /// one column after the other, each column from its highest row down.
    pub fn from_rectangular_vector(rect: &Vec<Vec<bool>>) -> (r: Result<Field, SizeError>)
        ensures
            rectangular(rect.deep_view()) ==> r is Ok && r->Ok_0@ == stacked(rect.deep_view())
                && r->Ok_0@.wf(),
            !rectangular(rect.deep_view()) ==> r is Err,
    {
        if rect.len() != WIDTH {
            return Err(SizeError);
        }
        let mut copy: [[bool; HEIGHT]; WIDTH] = [[false; HEIGHT]; WIDTH];
        let mut i: usize = 0;
        while i < WIDTH
            invariant
                i <= WIDTH,
                rect.len() == WIDTH,
                forall|x: int| 0 <= x < i ==> (#[trigger] rect@[x]).len() == HEIGHT,
                forall|x: int| 0 <= x < i ==> (#[trigger] copy[x])@ == rect@[x]@,
            decreases WIDTH - i,
        {
            if rect[i].len() != HEIGHT {
                assert(rect.deep_view()[i as int] == rect@[i as int]@);
                return Err(SizeError);
            }
            let mut column: [bool; HEIGHT] = [false; HEIGHT];
            let mut j: usize = 0;
            while j < HEIGHT
                invariant
                    j <= HEIGHT,
                    i < WIDTH,
                    rect.len() == WIDTH,
                    rect@[i as int].len() == HEIGHT,
                    forall|y: int| 0 <= y < j ==> column[y] == rect@[i as int]@[y],
                decreases HEIGHT - j,
            {
                column[j] = rect[i][j];
                j += 1;
            }
            assert(column@ =~= rect@[i as int]@);
            copy[i] = column;
            i += 1;
        }
        proof {
            assert forall|x: int| 0 <= x < WIDTH implies (#[trigger] rect.deep_view()[x]).len()
                == HEIGHT by {
                assert(rect.deep_view()[x] == rect@[x]@);
            }
            assert(copy.deep_view() =~~= rect.deep_view());
        }
        Ok(Field::from_rectangular_array(&copy))
    }

    /// Stacks the blocks of `rect` as `from_rectangular_vector` does.
    pub fn from_rectangular_array(rect: &[[bool; HEIGHT]; WIDTH]) -> (f: Field)
        ensures
            f@ == stacked(rect.deep_view()),
            f@.wf(),
    {
        let mut field = Field::new();
        let ghost cols = rect.deep_view();
        proof {
            assert(field@.rows =~~= through(cols, 0));
        }
        let mut i: usize = 0;
        while i < WIDTH
            invariant
                i <= WIDTH,
                cols == rect.deep_view(),
                i < WIDTH ==> field@.rows == through(cols, i as int) && field@.score == 0,
                i == WIDTH ==> field@ == stacked(cols),
            decreases WIDTH - i,
        {
            let ghost lower = through(cols, i as int);
            let ghost upper = through(cols, i + 1);
            let mut j: usize = HEIGHT;
            proof {
                reveal_with_fuel(Seq::filter, 1);
                assert(upper.skip(HEIGHT as int) =~= Seq::<Seq<bool>>::empty());
                assert(field@.rows =~= lower.take(HEIGHT as int) + upper.skip(
                    HEIGHT as int,
                ).filter(has_gap()) + padding(0));
            }
            while j > 0
                invariant
                    j <= HEIGHT,
                    i < WIDTH,
                    cols == rect.deep_view(),
                    lower == through(cols, i as int),
                    upper == through(cols, i + 1),
                    upper.skip(j as int).filter(has_gap()).len() <= HEIGHT - j,
                    field@.score == HEIGHT - j - upper.skip(j as int).filter(has_gap()).len(),
                    field@.rows == lower.take(j as int) + upper.skip(j as int).filter(has_gap())
                        + padding(field@.score as int),
                decreases j,
            {
                let y: usize = j - 1;
                let ghost kept = upper.skip(j as int).filter(has_gap());
                let ghost before = field@;
                proof {
                    lemma_filter_first(upper.skip(y as int));
                    assert(upper.skip(y as int).skip(1) =~= upper.skip(j as int));
                    assert(upper.skip(y as int)[0] == upper[y as int]);
                    assert(before.rows[y as int] == lower[y as int]);
                    assert(rect[i as int]@[y as int] == cols[i as int][y as int]);
                }
                if rect[i][y] {
                    let c = Coord { x: i as i32, y: y as i32 };
                    proof {
                        assert(!before.at(i as int, y as int));
                        assert(before.mark(c).rows[y as int] =~= upper[y as int]);
                    }
                    let placed = field.set(c);
                    proof {
                        if Grid::row_full(upper[y as int]) {
                            assert(field@.rows =~= lower.take(y as int) + upper.skip(
                                y as int,
                            ).filter(has_gap()) + padding(field@.score as int));
                        } else {
                            assert(field@.rows =~= lower.take(y as int) + upper.skip(
                                y as int,
                            ).filter(has_gap()) + padding(field@.score as int));
                        }
                    }
                } else {
                    proof {
                        assert(lower[y as int] =~= upper[y as int]);
                        assert(!upper[y as int][i as int]);
                        assert(field@.rows =~= lower.take(y as int) + upper.skip(y as int).filter(
                            has_gap(),
                        ) + padding(field@.score as int));
                    }
                }
                j -= 1;
            }
            proof {
                assert(upper.skip(0) =~= upper);
                assert(lower.take(0) =~= Seq::<Seq<bool>>::empty());
                if i + 1 < WIDTH {
                    assert forall|y: int| 0 <= y < upper.len() implies !Grid::row_full(
                        #[trigger] upper[y],
                    ) by {
                        assert(!upper[y][WIDTH - 1]);
                    }
                    lemma_filter_keeps_all(upper);
                    assert(field@.rows =~= upper);
                } else {
                    assert(upper =~~= rows_of(cols));
                    assert(field@.rows =~= settled(rows_of(cols)));
                }
            }
            i += 1;
        }
        proof {
            use_type_invariant(&field);
        }
        field
    }

    /// Reads the cell `c`.
    pub fn get(&self, c: Coord) -> (r: Result<bool, SizeError>)
        ensures
            r == self@.get(c),
            self@.wf(),
    {
        proof {
            use_type_invariant(self);
        }
        if Field::size_check(&c) {
            Ok(self.blocks[c.y as usize][c.x as usize])
        } else {
            Err(SizeError)
        }
    }

    pub fn read_score(&self) -> (s: u32)
        ensures
            s == self@.score,
            self@.wf(),
    {
        proof {
            use_type_invariant(self);
        }
        self.score
    }

    /// Puts a block into the cell `c` and clears its row if that filled it.
    pub fn set(&mut self, c: Coord) -> (r: Result<(), Error>)
        requires
            old(self)@.completes_row(c) ==> old(self)@.score < u32::MAX,
        ensures
            r == old(self)@.set_result(c),
            final(self)@ == old(self)@.after_set(c),
            r is Err ==> final(self)@ == old(self)@,
            r == Err::<(), Error>(Error::Size(SizeError)) <==> !in_bounds(c),
            r == Err::<(), Error>(Error::DuplicateBlock(DuplicateBlockError)) <==> in_bounds(c)
                && old(self)@.at(c.x as int, c.y as int),
            old(self)@.wf(),
            final(self)@.wf(),
    {
        proof {
            use_type_invariant(&*self);
            set_keeps_shape(self@, c);
        }
        match self.get(c) {
            Ok(false) => {
                let mut blocks = self.blocks;
                blocks[c.y as usize][c.x as usize] = true;
                assert(grid_rows(blocks) =~~= old(self)@.mark(c).rows);
                let cleared = Field::check_line(&mut blocks, c.y as usize);
                self.blocks = blocks;
                if cleared {
                    self.score += 1;
                }
                Ok(())
            },
            Ok(true) => Err(Error::DuplicateBlock(DuplicateBlockError)),
            Err(SizeError) => Err(Error::Size(SizeError)),
        }
    }

    pub fn reset_score(&mut self)
        ensures
            final(self)@ == (Grid { rows: old(self)@.rows, score: 0 }),
            final(self)@.wf(),
    {
        proof {
            use_type_invariant(&*self);
        }
        self.score = 0
    }

    pub fn reset_blocks(&mut self)
        ensures
            final(self)@ == (Grid { rows: Grid::empty_rows(), score: old(self)@.score }),
            final(self)@.wf(),
    {
        let blocks = [[false; WIDTH]; HEIGHT];
        proof {
            assert(grid_rows(blocks) =~~= Grid::empty_rows());
            empty_field_reads_free(Coord { x: 0, y: 0 });
        }
        self.blocks = blocks;
    }
}

/// A field without blocks reads as free at every cell inside the bounds and
/// answers with `SizeError` at every other coordinate.
pub proof fn empty_field_reads_free(c: Coord)
    ensures
        Grid::empty().wf(),
        in_bounds(c) ==> Grid::empty().get(c) == Ok::<bool, SizeError>(false),
        !in_bounds(c) ==> Grid::empty().get(c) == Err::<bool, SizeError>(SizeError),
{
    assert forall|y: int| 0 <= y < HEIGHT implies !Grid::row_full(
        #[trigger] Grid::empty().rows[y],
    ) by {
        assert(!Grid::empty().rows[y][0]);
    }
}

/// A block that leaves a free cell in its row changes that one cell and
/// nothing else.
pub proof fn block_without_clear(g: Grid, c: Coord, gap: int)
    requires
        g.wf(),
        g.set_result(c) is Ok,
        0 <= gap < WIDTH,
        gap != c.x,
        !g.at(gap, c.y as int),
    ensures
        !g.completes_row(c),
        g.after_set(c) == g.mark(c),
        g.after_set(c).wf(),
        g.after_set(c).score == g.score,
        forall|x: int, y: int|
            0 <= x < WIDTH && 0 <= y < HEIGHT ==> g.after_set(c).at(x, y) == (g.at(x, y) || (x
                == c.x && y == c.y)),
{
    assert(!g.mark(c).rows[c.y as int][gap]);
}

/// The block that fills the last free cell of a row makes the row vanish:
/// the score grows by exactly one, every row above moves down by exactly
/// one, an empty row enters at the top, and the rows below stay as they
/// were.
pub proof fn block_that_completes_row(g: Grid, c: Coord)
    requires
        g.wf(),
        g.set_result(c) is Ok,
        forall|x: int| 0 <= x < WIDTH && x != c.x ==> g.at(x, c.y as int),
    ensures
        g.completes_row(c),
        g.after_set(c).wf(),
        g.after_set(c).score == g.score + 1,
        forall|x: int, y: int| 0 <= x < WIDTH && 0 <= y < c.y ==> g.after_set(c).at(x, y) == g.at(x, y),
        forall|x: int, y: int|
            0 <= x < WIDTH && c.y <= y < HEIGHT - 1 ==> g.after_set(c).at(x, y) == g.at(x, y + 1),
        forall|x: int, y: int| 0 <= x < WIDTH && y == HEIGHT - 1 ==> !g.after_set(c).at(x, y),
{
    let marked = g.mark(c);
    assert forall|x: int| 0 <= x < marked.rows[c.y as int].len() implies marked.rows[c.y as int][x] by {
        if x != c.x {
            assert(g.at(x, c.y as int));
        }
    }
    assert(Grid::row_full(marked.rows[c.y as int]));
    assert(g.after_set(c) == marked.clear_row(c.y as int));
    set_keeps_shape(g, c);
}

/// Whatever is attempted, the field keeps its shape; a refused attempt
/// leaves it untouched and an accepted one clears at most one line.
pub proof fn set_keeps_shape(g: Grid, c: Coord)
    requires
        g.wf(),
    ensures
        g.after_set(c).wf(),
        g.set_result(c) is Err ==> g.after_set(c) == g,
        g.score <= g.after_set(c).score <= g.score + 1,
        g.after_set(c).score == g.score + 1 <==> g.completes_row(c),
{
    if g.set_result(c) is Ok {
        let marked = g.mark(c);
        let after = g.after_set(c);
        let y = c.y as int;
        if Grid::row_full(marked.rows[y]) {
            assert forall|k: int| 0 <= k < HEIGHT implies (#[trigger] after.rows[k]).len() == WIDTH
                && !Grid::row_full(after.rows[k]) by {
                if k < y {
                    assert(after.rows[k] == g.rows[k]);
                } else if k < HEIGHT - 1 {
                    assert(after.rows[k] == g.rows[k + 1]);
                } else {
                    assert(after.rows[k] == Grid::empty_row());
                    assert(!after.rows[k][0]);
                }
            }
        } else {
            assert forall|k: int| 0 <= k < HEIGHT implies (#[trigger] after.rows[k]).len() == WIDTH
                && !Grid::row_full(after.rows[k]) by {
                if k != y {
                    assert(after.rows[k] == g.rows[k]);
                }
            }
        }
    }
}

/// Stacking a rectangle in which every cell holds a block clears the whole
/// field and counts every one of its rows.
pub proof fn stacking_full_rows_clears_all(cols: Seq<Seq<bool>>)
    requires
        rectangular(cols),
        forall|x: int, y: int| 0 <= x < WIDTH && 0 <= y < HEIGHT ==> cols[x][y],
    ensures
        stacked(cols) == (Grid { rows: Grid::empty_rows(), score: HEIGHT as nat }),
{
    let rows = rows_of(cols);
    lemma_filter_drops_all(rows);
    assert(settled(rows) =~= Grid::empty_rows());
}

/// Stacking a rectangle without a full row yields exactly its blocks.
pub proof fn stacking_without_full_rows(cols: Seq<Seq<bool>>)
    requires
        rectangular(cols),
        forall|y: int| 0 <= y < HEIGHT ==> !Grid::row_full(#[trigger] rows_of(cols)[y]),
    ensures
        stacked(cols) == (Grid { rows: rows_of(cols), score: 0 }),
{
    let rows = rows_of(cols);
    lemma_filter_keeps_all(rows);
    assert(settled(rows) =~= rows);
}

/// Filtering the rows with a gap looks at the first row and then at the
/// others.
pub proof fn lemma_filter_first(rows: Seq<Seq<bool>>)
    requires
        rows.len() > 0,
    ensures
        rows.filter(has_gap()) == (if Grid::row_full(rows[0]) {
            rows.skip(1).filter(has_gap())
        } else {
            seq![rows[0]] + rows.skip(1).filter(has_gap())
        }),
{
    let head = seq![rows[0]];
    assert(rows =~= head + rows.skip(1));
    Seq::filter_distributes_over_add(head, rows.skip(1), has_gap());
    reveal_with_fuel(Seq::filter, 2);
    assert(head.drop_last() =~= Seq::<Seq<bool>>::empty());
    if Grid::row_full(rows[0]) {
        assert(head.filter(has_gap()) =~= Seq::<Seq<bool>>::empty());
        assert(Seq::<Seq<bool>>::empty() + rows.skip(1).filter(has_gap()) =~= rows.skip(
            1,
        ).filter(has_gap()));
    } else {
        assert(head.filter(has_gap()) =~= head);
    }
}

/// Where no row is full, every row is kept.
pub proof fn lemma_filter_keeps_all(rows: Seq<Seq<bool>>)
    requires
        forall|y: int| 0 <= y < rows.len() ==> !Grid::row_full(#[trigger] rows[y]),
    ensures
        rows.filter(has_gap()) == rows,
    decreases rows.len(),
{
    if rows.len() == 0 {
        reveal_with_fuel(Seq::filter, 1);
    } else {
        lemma_filter_first(rows);
        assert forall|y: int| 0 <= y < rows.skip(1).len() implies !Grid::row_full(
            #[trigger] rows.skip(1)[y],
        ) by {
            assert(rows.skip(1)[y] == rows[y + 1]);
        }
        lemma_filter_keeps_all(rows.skip(1));
        assert(seq![rows[0]] + rows.skip(1) =~= rows);
    }
}

/// Where every row is full, no row is kept.
proof fn lemma_filter_drops_all(rows: Seq<Seq<bool>>)
    requires
        forall|y: int| 0 <= y < rows.len() ==> Grid::row_full(#[trigger] rows[y]),
    ensures
        rows.filter(has_gap()) == Seq::<Seq<bool>>::empty(),
    decreases rows.len(),
{
    if rows.len() == 0 {
        reveal_with_fuel(Seq::filter, 1);
    } else {
        lemma_filter_first(rows);
        assert forall|y: int| 0 <= y < rows.skip(1).len() implies Grid::row_full(
            #[trigger] rows.skip(1)[y],
        ) by {
            assert(rows.skip(1)[y] == rows[y + 1]);
        }
        lemma_filter_drops_all(rows.skip(1));
    }
}

/// Taking a full row out and letting an empty row in at the top changes
/// neither what the rows settle to nor, but for the one row, the number of
/// full rows.
pub proof fn lemma_settled_without_row(rows: Seq<Seq<bool>>, y: int)
    requires
        0 <= y < rows.len(),
        Grid::row_full(rows[y]),
    ensures
        settled(rows.remove(y).push(Grid::empty_row())) == settled(rows),
        full_rows(rows.remove(y).push(Grid::empty_row())) + 1 == full_rows(rows),
{
    let empty = Grid::empty_row();
    let below = rows.take(y);
    let above = rows.skip(y + 1);
    let one = seq![rows[y]];
    let top = seq![empty];
    assert(!empty[0]);
    assert(rows =~= below + one + above);
    assert(rows.remove(y) =~= below + above);
    assert(rows.remove(y).push(empty) =~= below + above + top);
    Seq::filter_distributes_over_add(below, one, has_gap());
    Seq::filter_distributes_over_add(below + one, above, has_gap());
    Seq::filter_distributes_over_add(below, above, has_gap());
    Seq::filter_distributes_over_add(below + above, top, has_gap());
    assert(one.filter(has_gap()) =~= Seq::<Seq<bool>>::empty()) by {
        reveal_with_fuel(Seq::filter, 2);
        assert(one.drop_last() =~= Seq::<Seq<bool>>::empty());
    }
    assert(top.filter(has_gap()) =~= top) by {
        reveal_with_fuel(Seq::filter, 2);
        assert(top.drop_last() =~= Seq::<Seq<bool>>::empty());
    }
    let kept = rows.filter(has_gap());
    assert(kept =~= below.filter(has_gap()) + above.filter(has_gap()));
    assert(rows.remove(y).push(empty).filter(has_gap()) =~= kept + top);
    below.lemma_filter_len(has_gap());
    above.lemma_filter_len(has_gap());
    assert(kept.len() <= rows.len() - 1);
    assert(settled(rows.remove(y).push(empty)) =~= settled(rows));
}

} // verus!
