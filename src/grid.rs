use vstd::prelude::*;

verus! {

/// The size of the output raster, in pixels.
#[derive(Clone, Copy, Debug, PartialEq, Eq, Structural)]
pub struct PixelGrid {
    pub width: usize,
    pub height: usize,
}

/// One row of the output buffer: the row's index and the half-open range
/// `start..end` of buffer positions that hold it.
#[derive(Clone, Copy, Debug, PartialEq, Eq, Structural)]
pub struct Band {
    pub row: usize,
    pub start: usize,
    pub end: usize,
}

impl PixelGrid {
    /// Both sides are positive and the buffer length fits in memory.
    pub open spec fn wf(self) -> bool {
        &&& self.width > 0
        &&& self.height > 0
        &&& self.width * self.height <= usize::MAX
    }

    /// Number of pixels, which is the length of the intensity buffer.
    pub open spec fn len_spec(self) -> int {
        self.width * self.height
    }

    /// Row-major position of pixel `(column, row)` in the buffer.
    pub open spec fn index_spec(self, column: int, row: int) -> int {
        row * self.width + column
    }

    /// The band that holds row `row`.
    pub open spec fn band_spec(self, row: int) -> Band {
        Band {
            row: row as usize,
            start: (row * self.width) as usize,
            end: (row * self.width + self.width) as usize,
        }
    }

    /// A grid of `width` by `height` pixels; `None` when a side is zero or
    /// the pixel count overflows `usize`.
    pub fn new(width: usize, height: usize) -> (r: Option<PixelGrid>)
        ensures
            r is Some <==> (width > 0 && height > 0 && width * height <= usize::MAX),
            r matches Some(g) ==> g.width == width && g.height == height && g.wf(),
    {
        if width == 0 || height == 0 {
            None
        } else if width > usize::MAX / height {
            proof {
                assert(width * height > usize::MAX) by (nonlinear_arith)
                    requires
                        width > usize::MAX / height,
                        height > 0,
                ;
            }
            None
        } else {
            proof {
                assert(width * height <= usize::MAX) by (nonlinear_arith)
                    requires
                        width <= usize::MAX / height,
                        height > 0,
                ;
            }
            Some(PixelGrid { width, height })
        }
    }

    /// Number of pixels in the grid.
    pub fn len(&self) -> (r: usize)
        requires
            self.wf(),
        ensures
            r == self.len_spec(),
    {
        self.width * self.height
    }

    /// Row-major buffer position of pixel `(column, row)`.
    pub fn pixel_index(&self, column: usize, row: usize) -> (r: usize)
        requires
            self.wf(),
            column < self.width,
            row < self.height,
        ensures
            r == self.index_spec(column as int, row as int),
            r < self.len_spec(),
    {
        proof {
            lemma_index_in_grid(self.width as int, self.height as int, column as int, row as int);
        }
        row * self.width + column
    }

    /// The band of row `row`.
    pub fn band(&self, row: usize) -> (b: Band)
        requires
            self.wf(),
            row < self.height,
        ensures
            b == self.band_spec(row as int),
    {
        proof {
            lemma_index_in_grid(self.width as int, self.height as int, 0, row as int);
            assert(row * self.width + self.width <= self.width * self.height) by (nonlinear_arith)
                requires
                    row < self.height,
            ;
        }
        let start = row * self.width;
        Band { row, start, end: start + self.width }
    }

    /// The buffer cut into one band per row, in row order.
    pub fn bands(&self) -> (r: Vec<Band>)
        requires
            self.wf(),
        ensures
            r@.len() == self.height,
            forall|i: int| 0 <= i < self.height ==> #[trigger] r@[i] == self.band_spec(i),
    {
        let mut r: Vec<Band> = Vec::new();
        let mut row: usize = 0;
        while row < self.height
            invariant
                self.wf(),
                row <= self.height,
                r@.len() == row,
                forall|i: int| 0 <= i < row ==> #[trigger] r@[i] == self.band_spec(i),
            decreases self.height - row,
        {
            let b = self.band(row);
            r.push(b);
            row = row + 1;
        }
        r
    }
}

impl Band {
    /// Whether buffer position `k` lies in the band.
    pub open spec fn holds(self, k: int) -> bool {
        self.start <= k < self.end
    }

    /// The one-row grid that the band forms on its own.
    pub fn grid(&self, grid: PixelGrid) -> (g: PixelGrid)
        requires
            grid.wf(),
        ensures
            g == (PixelGrid { width: grid.width, height: 1 }),
            g.wf(),
    {
        PixelGrid { width: grid.width, height: 1 }
    }

    /// The pixels of the full grid whose points are the corners of the band's
    /// own rectangle: `(0, row)` at the upper left and `(width, row + 1)`, the
    /// upper left of the next row, at the lower right.
    pub fn corner_pixels(&self, grid: PixelGrid) -> (r: ((usize, usize), (usize, usize)))
        requires
            grid.wf(),
            self.row < grid.height,
        ensures
            r == ((0usize, self.row), (grid.width, (self.row + 1) as usize)),
    {
        ((0, self.row), (grid.width, self.row + 1))
    }
}

pub(crate) proof fn lemma_index_in_grid(w: int, h: int, column: int, row: int)
    requires
        0 <= column < w,
        0 <= row < h,
    ensures
        0 <= row * w + column < w * h,
{
    assert(0 <= row * w + column < w * h) by (nonlinear_arith)
        requires
            0 <= column < w,
            0 <= row < h,
    ;
}

/// The bands of a grid cover the buffer without gaps or overlaps: every
/// buffer position lies in the band of row `position / width` and in no
/// other, and band `i` is the band of row `i`, so the bands' rows are exactly
/// `0..height`.
pub proof fn lemma_bands_partition(grid: PixelGrid)
    requires
        grid.wf(),
    ensures
        forall|k: int|
            0 <= k < grid.len_spec() ==> #[trigger] grid.band_spec(k / (grid.width as int)).holds(k)
                && k / (grid.width as int) < grid.height,
        forall|k: int, i: int, j: int|
            0 <= i < grid.height && 0 <= j < grid.height && #[trigger] grid.band_spec(i).holds(k)
                && #[trigger] grid.band_spec(j).holds(k) ==> i == j,
        forall|i: int| 0 <= i < grid.height ==> #[trigger] grid.band_spec(i).row == i,
{
    let w = grid.width as int;
    let h = grid.height as int;
    assert forall|k: int| 0 <= k < grid.len_spec() implies #[trigger] grid.band_spec(
        k / (grid.width as int),
    ).holds(k) && k / (grid.width as int) < grid.height by {
        lemma_position_in_band(grid, k);
    }
    assert forall|k: int, i: int, j: int|
        0 <= i < h && 0 <= j < h && #[trigger] grid.band_spec(i).holds(k)
            && #[trigger] grid.band_spec(j).holds(k) implies i == j by {
        lemma_band_fits(w, h, i);
        lemma_band_fits(w, h, j);
        lemma_rows_apart(w, i, j, k);
    }
}

proof fn lemma_position_in_band(grid: PixelGrid, k: int)
    requires
        grid.wf(),
        0 <= k < grid.len_spec(),
    ensures
        0 <= k / (grid.width as int) < grid.height,
        grid.band_spec(k / (grid.width as int)).holds(k),
{
    let w = grid.width as int;
    let row = k / w;
    lemma_row_of_position(w, grid.height as int, k);
    assert(row * w == row * grid.width);
    assert(grid.band_spec(row).start == row * w);
    assert(grid.band_spec(row).end == row * w + w);
}

proof fn lemma_row_of_position(w: int, h: int, k: int)
    requires
        w > 0,
        h > 0,
        0 <= k < w * h,
        w * h <= usize::MAX,
    ensures
        0 <= k / w < h,
        (k / w) * w <= k < (k / w) * w + w,
        (k / w) * w + w <= w * h,
{
    assert(0 <= k / w < h && (k / w) * w <= k < (k / w) * w + w) by (nonlinear_arith)
        requires
            w > 0,
            h > 0,
            0 <= k < w * h,
    ;
    assert((k / w) * w + w <= w * h) by (nonlinear_arith)
        requires
            w > 0,
            0 <= k / w < h,
    ;
}

proof fn lemma_band_fits(w: int, h: int, i: int)
    requires
        w > 0,
        0 <= i < h,
        w * h <= usize::MAX,
    ensures
        0 <= i * w,
        i * w + w <= usize::MAX,
{
    assert(0 <= i * w && i * w + w <= w * h) by (nonlinear_arith)
        requires
            w > 0,
            0 <= i < h,
    ;
}

proof fn lemma_rows_apart(w: int, i: int, j: int, k: int)
    requires
        w > 0,
        i * w <= k < i * w + w,
        j * w <= k < j * w + w,
    ensures
        i == j,
{
    if i < j {
        assert(i * w + w <= j * w) by (nonlinear_arith)
            requires
                i < j,
                w > 0,
        ;
    } else if j < i {
        assert(j * w + w <= i * w) by (nonlinear_arith)
            requires
                j < i,
                w > 0,
        ;
    }
}

} // verus!
