use rand::RngExt;
use vstd::prelude::*;

verus! {

#[verifier::external_type_specification]
#[verifier::external_body]
pub struct ExThreadRng(rand::rngs::ThreadRng);

/// `rand::rng()`: a handle to this thread's random generator.  Nothing is
/// claimed of it.  It panics if the system's random source fails when the
/// generator is first seeded, which depends on no argument and is not ruled
/// out here.
#[verifier::external_body]
fn thread_rng() -> rand::rngs::ThreadRng {
    rand::rng()
}

/// `RngExt::random_range(0..=max)` on `rng`: a value drawn from `0..=max`
/// (the range is never empty, so the empty-range panic cannot happen; a
/// reseeding failure of the system's random source still panics).  Which
/// value comes out is chance: only the range is claimed.
#[verifier::external_body]
fn random_up_to(rng: &mut rand::rngs::ThreadRng, max: u8) -> (v: u8)
    ensures
        v <= max,
{
    rng.random_range(0..=max)
}

/// The tallest column a random terrain gets on a `grid_size` grid: one less
/// than the grid size, so larger grids get taller mountains (as a `u8`, the
/// count wraps past 255; a size of 0 gives 0).
pub fn height_limit(grid_size: usize) -> (h: u8)
    ensures
        h == (if grid_size == 0 {
            0
        } else {
            grid_size - 1
        }) as u8,
{
    grid_size.saturating_sub(1) as u8
}

/// Height matrix (the container).
pub struct Terrain {
    pub heights: Vec<Vec<u8>>,
    pub rows: usize,
    pub cols: usize,
    /// Max height used by the last random generation (0 until the first one).
    pub max_height: u8,
}

impl Terrain {
    /// Every cell `(r, c)` with `r < rows` and `c < cols` is stored in `heights`.
    pub open spec fn covers(&self) -> bool {
        self.cols == 0 || (self.rows <= self.heights@.len() && forall|r: int|
            0 <= r < self.rows ==> self.cols <= #[trigger] self.heights@[r]@.len())
    }

    /// A `rows` x `cols` grid of zeros.
    pub fn new(rows: usize, cols: usize) -> (t: Terrain)
        ensures
            t.rows == rows,
            t.cols == cols,
            t.max_height == 0,
            t.heights@.len() == rows,
            forall|r: int| 0 <= r < rows ==> #[trigger] t.heights@[r]@.len() == cols,
            forall|r: int, c: int| 0 <= r < rows && 0 <= c < cols ==> t.heights@[r]@[c] == 0,
    {
        let mut heights: Vec<Vec<u8>> = Vec::new();
        let mut i: usize = 0;
        while i < rows
            invariant
                i <= rows,
                heights@.len() == i,
                forall|r: int| 0 <= r < i ==> #[trigger] heights@[r]@.len() == cols,
                forall|r: int, c: int| 0 <= r < i && 0 <= c < cols ==> heights@[r]@[c] == 0,
            decreases rows - i,
        {
            let mut row: Vec<u8> = Vec::new();
            let mut j: usize = 0;
            while j < cols
                invariant
                    j <= cols,
                    row@.len() == j,
                    forall|c: int| 0 <= c < j ==> row@[c] == 0,
                decreases cols - j,
            {
                row.push(0);
                j = j + 1;
            }
            heights.push(row);
            i = i + 1;
        }
        Terrain { heights, rows, cols, max_height: 0 }
    }

    /// Fills the `rows` x `cols` grid with random heights in `0..=max_height`
    /// and records `max_height`.  Cells outside that grid stay as they are.
    pub fn generate_random(&mut self, max_height: u8)
        requires
            old(self).covers(),
        ensures
            final(self).max_height == max_height,
            final(self).rows == old(self).rows,
            final(self).cols == old(self).cols,
            final(self).heights@.len() == old(self).heights@.len(),
            forall|r: int|
                0 <= r < old(self).heights@.len() ==> #[trigger] final(self).heights@[r]@.len()
                    == old(self).heights@[r]@.len(),
            forall|r: int, c: int|
                0 <= r < old(self).rows && 0 <= c < old(self).cols ==> #[trigger] final(self).heights@[r]@[c]
                    <= max_height,
            forall|r: int, c: int|
                0 <= r < old(self).heights@.len() && 0 <= c < old(self).heights@[r]@.len() && !(r
                    < old(self).rows && c < old(self).cols) ==> #[trigger] final(self).heights@[r]@[c]
                    == old(self).heights@[r]@[c],
    {
        self.max_height = max_height;
        let mut rng = thread_rng();
        let rows = self.rows;
        let cols = self.cols;
        if cols == 0 {
            return;
        }
        let mut i: usize = 0;
        while i < rows
            invariant
                rows == self.rows,
                cols == self.cols,
                cols > 0,
                self.max_height == max_height,
                i <= rows,
                rows <= self.heights@.len(),
                self.heights@.len() == old(self).heights@.len(),
                forall|r: int|
                    0 <= r < old(self).heights@.len() ==> #[trigger] self.heights@[r]@.len()
                        == old(self).heights@[r]@.len(),
                forall|r: int| 0 <= r < rows ==> cols <= #[trigger] old(self).heights@[r]@.len(),
                forall|r: int, c: int|
                    0 <= r < i && 0 <= c < cols ==> #[trigger] self.heights@[r]@[c] <= max_height,
                forall|r: int, c: int|
                    0 <= r < self.heights@.len() && 0 <= c < self.heights@[r]@.len() && !(r < i
                        && c < cols) ==> #[trigger] self.heights@[r]@[c] == old(self).heights@[r]@[c],
            decreases rows - i,
        {
            let mut j: usize = 0;
            while j < cols
                invariant
                    rows == self.rows,
                    cols == self.cols,
                    self.max_height == max_height,
                    i < rows,
                    j <= cols,
                    rows <= self.heights@.len(),
                    self.heights@.len() == old(self).heights@.len(),
                    forall|r: int|
                        0 <= r < old(self).heights@.len() ==> #[trigger] self.heights@[r]@.len()
                            == old(self).heights@[r]@.len(),
                    forall|r: int| 0 <= r < rows ==> cols <= #[trigger] old(self).heights@[r]@.len(),
                    forall|r: int, c: int|
                        (0 <= r < i && 0 <= c < cols) || (r == i && 0 <= c < j) ==> #[trigger] self.heights@[r]@[c]
                            <= max_height,
                    forall|r: int, c: int|
                        0 <= r < self.heights@.len() && 0 <= c < self.heights@[r]@.len() && !(r < i
                            && c < cols) && !(r == i && c < j) ==> #[trigger] self.heights@[r]@[c]
                            == old(self).heights@[r]@[c],
                decreases cols - j,
            {
                let v = random_up_to(&mut rng, max_height);
                self.heights[i].set(j, v);
                j = j + 1;
            }
            i = i + 1;
        }
    }

    /// The height at `(row, col)`; 0 outside the `rows` x `cols` grid.
    pub fn get_height(&self, row: usize, col: usize) -> (h: u8)
        requires
            row < self.rows && col < self.cols ==> row < self.heights@.len() && col
                < self.heights@[row as int]@.len(),
        ensures
            h == (if row < self.rows && col < self.cols {
                self.heights@[row as int]@[col as int]
            } else {
                0u8
            }),
    {
        if row < self.rows && col < self.cols {
            self.heights[row][col]
        } else {
            0
        }
    }
}

} // verus!
