use vstd::prelude::*;
use crate::grid::{lemma_bands_partition, lemma_index_in_grid, Band, PixelGrid};
use vstd::arithmetic::div_mod::lemma_fundamental_div_mod;
use crate::intensity::{intensity, intensity_of};

verus! {

/// Iteration limit of the escape-time scan, matched to 8-bit intensities.
pub const ESCAPE_LIMIT: usize = 255;

/// Whether `pixels` holds at pixel `(column, row)` of `grid` the intensity of
/// a result that `escape` may give for that pixel.
pub open spec fn shows<F: Fn((usize, usize)) -> Option<usize>>(
    pixels: Seq<u8>,
    grid: PixelGrid,
    escape: F,
    column: int,
    row: int,
) -> bool {
    exists|e: Option<usize>|
        escape.ensures(((column as usize, row as usize),), e) && pixels[grid.index_spec(
            column,
            row,
        )] == intensity_of(e)
}

/// Whether `pixels` is a rendering of `grid`: one value per pixel, each the
/// intensity of a result that `escape` may give for that pixel.
pub open spec fn rendered<F: Fn((usize, usize)) -> Option<usize>>(
    pixels: Seq<u8>,
    grid: PixelGrid,
    escape: F,
) -> bool {
    &&& pixels.len() == grid.width * grid.height
    &&& forall|column: int, row: int|
        0 <= column < grid.width && 0 <= row < grid.height ==> #[trigger] shows(
            pixels,
            grid,
            escape,
            column,
            row,
        )
}

/// Fills `pixels`, row by row, with the intensity of each pixel's escape
/// result, which `escape` computes from the pixel's `(column, row)`.
pub fn render<F: Fn((usize, usize)) -> Option<usize>>(
    pixels: &mut [u8],
    grid: PixelGrid,
    escape: F,
)
    requires
        grid.wf(),
        old(pixels)@.len() == grid.len_spec(),
        forall|column: usize, row: usize|
            column < grid.width && row < grid.height ==> escape.requires(((column, row),)),
    ensures
        rendered(final(pixels)@, grid, escape),
{
    let mut row: usize = 0;
    while row < grid.height
        invariant
            grid.wf(),
            row <= grid.height,
            pixels@.len() == grid.len_spec(),
            forall|column: usize, row: usize|
                column < grid.width && row < grid.height ==> escape.requires(((column, row),)),
            forall|c: int, r: int|
                0 <= c < grid.width && 0 <= r < row ==> #[trigger] shows(pixels@, grid, escape, c, r),
        decreases grid.height - row,
    {
        let mut column: usize = 0;
        while column < grid.width
            invariant
                grid.wf(),
                row < grid.height,
                column <= grid.width,
                pixels@.len() == grid.len_spec(),
                forall|column: usize, row: usize|
                    column < grid.width && row < grid.height ==> escape.requires(((column, row),)),
                forall|c: int, r: int|
                    0 <= c < grid.width && 0 <= r < row ==> #[trigger] shows(
                        pixels@,
                        grid,
                        escape,
                        c,
                        r,
                    ),
                forall|c: int|
                    0 <= c < column ==> #[trigger] shows(pixels@, grid, escape, c, row as int),
            decreases grid.width - column,
        {
            let e = escape((column, row));
            let i = grid.pixel_index(column, row);
            let ghost before = pixels@;
            pixels[i] = intensity(e);
            proof {
                assert(pixels@ == before.update(i as int, intensity_of(e)));
                assert forall|c: int, r: int|
                    0 <= c < grid.width && 0 <= r < row implies #[trigger] shows(
                        pixels@,
                        grid,
                        escape,
                        c,
                        r,
                    ) by {
                    lemma_distinct_pixels(grid, c, r, column as int, row as int);
                    lemma_index_in_grid(grid.width as int, grid.height as int, c, r);
                    lemma_shows_kept(before, pixels@, grid, escape, c, r);
                }
                assert forall|c: int| 0 <= c < column + 1 implies #[trigger] shows(
                    pixels@,
                    grid,
                    escape,
                    c,
                    row as int,
                ) by {
                    if c < column {
                        lemma_distinct_pixels(grid, c, row as int, column as int, row as int);
                        lemma_shows_kept(before, pixels@, grid, escape, c, row as int);
                    } else {
                        assert(escape.ensures(((c as usize, row),), e));
                    }
                }
            }
            column = column + 1;
        }
        row = row + 1;
    }
}

proof fn lemma_shows_kept<F: Fn((usize, usize)) -> Option<usize>>(
    before: Seq<u8>,
    after: Seq<u8>,
    grid: PixelGrid,
    escape: F,
    column: int,
    row: int,
)
    requires
        shows(before, grid, escape, column, row),
        after[grid.index_spec(column, row)] == before[grid.index_spec(column, row)],
    ensures
        shows(after, grid, escape, column, row),
{
    let e = choose|e: Option<usize>|
        escape.ensures(((column as usize, row as usize),), e) && before[grid.index_spec(
            column,
            row,
        )] == intensity_of(e);
    assert(escape.ensures(((column as usize, row as usize),), e) && after[grid.index_spec(
        column,
        row,
    )] == intensity_of(e));
}

proof fn lemma_distinct_pixels(grid: PixelGrid, c1: int, r1: int, c2: int, r2: int)
    requires
        grid.wf(),
        0 <= c1 < grid.width,
        0 <= c2 < grid.width,
        0 <= r1,
        0 <= r2,
        c1 != c2 || r1 != r2,
    ensures
        grid.index_spec(c1, r1) != grid.index_spec(c2, r2),
{
    let w = grid.width as int;
    if r1 == r2 {
    } else if r1 < r2 {
        assert(r1 * w + c1 < r2 * w + c2) by (nonlinear_arith)
            requires
                r1 < r2,
                0 <= c1 < w,
                0 <= c2,
        ;
    } else {
        assert(r2 * w + c2 < r1 * w + c1) by (nonlinear_arith)
            requires
                r2 < r1,
                0 <= c2 < w,
                0 <= c1,
        ;
    }
}

/// `buf` with the positions of `band` overwritten by `values`, in order.
pub open spec fn write_band(buf: Seq<u8>, band: Band, values: Seq<u8>) -> Seq<u8> {
    Seq::new(
        buf.len(),
        |k: int|
            if band.holds(k) {
                values[k - band.start]
            } else {
                buf[k]
            },
    )
}

/// `buf` after the bands of the rows in `order` have been written one after
/// the other, the band of row `r` with `rows[r]`.
pub open spec fn write_bands(
    buf: Seq<u8>,
    grid: PixelGrid,
    order: Seq<int>,
    rows: Seq<Seq<u8>>,
) -> Seq<u8>
    decreases order.len(),
{
    if order.len() == 0 {
        buf
    } else {
        let r = order.last();
        write_band(write_bands(buf, grid, order.drop_last(), rows), grid.band_spec(r), rows[r])
    }
}

/// The buffer that holds the values of row `r` in the band of row `r`.
pub open spec fn assembled(grid: PixelGrid, rows: Seq<Seq<u8>>) -> Seq<u8> {
    Seq::new(
        (grid.width * grid.height) as nat,
        |k: int| rows[k / (grid.width as int)][k % (grid.width as int)],
    )
}

proof fn lemma_write_bands_at(buf: Seq<u8>, grid: PixelGrid, order: Seq<int>, rows: Seq<Seq<u8>>)
    requires
        grid.wf(),
        buf.len() == grid.len_spec(),
        rows.len() == grid.height,
        forall|r: int| 0 <= r < grid.height ==> (#[trigger] rows[r]).len() == grid.width,
        forall|i: int| 0 <= i < order.len() ==> 0 <= #[trigger] order[i] < grid.height,
    ensures
        write_bands(buf, grid, order, rows).len() == buf.len(),
        forall|k: int|
            0 <= k < buf.len() ==> #[trigger] write_bands(buf, grid, order, rows)[k] == if order.contains(
                k / (grid.width as int),
            ) {
                rows[k / (grid.width as int)][k % (grid.width as int)]
            } else {
                buf[k]
            },
    decreases order.len(),
{
    if order.len() > 0 {
        let w = grid.width as int;
        let prefix = order.drop_last();
        let r = order.last();
        lemma_write_bands_at(buf, grid, prefix, rows);
        lemma_bands_partition(grid);
        let out = write_bands(buf, grid, order, rows);
        assert forall|k: int| 0 <= k < buf.len() implies #[trigger] out[k] == if order.contains(
            k / w,
        ) {
            rows[k / w][k % w]
        } else {
            buf[k]
        } by {
            let b = grid.band_spec(k / w);
            assert(b.holds(k));
            lemma_fundamental_div_mod(k, w);
            assert(order.contains(k / w) <==> (prefix.contains(k / w) || r == k / w)) by {
                if order.contains(k / w) {
                    let i = choose|i: int| 0 <= i < order.len() && order[i] == k / w;
                    if i < order.len() - 1 {
                        assert(prefix[i] == k / w);
                    }
                }
                if prefix.contains(k / w) {
                    let i = choose|i: int| 0 <= i < prefix.len() && prefix[i] == k / w;
                    assert(order[i] == k / w);
                }
                if r == k / w {
                    assert(order[order.len() - 1] == k / w);
                }
            }
            if r == k / w {
                assert(k - b.start == k % w) by (nonlinear_arith)
                    requires
                        b.start == (k / w) * w,
                        k == w * (k / w) + (k % w),
                ;
            } else {
                assert(!grid.band_spec(r).holds(k));
            }
        }
    }
}

/// Bands can be written in any order: as long as every row's band is written
/// with that row's values, the buffer ends up the same, holding row `r` in
/// the band of row `r`. Writing the bands one at a time in row order and
/// writing them in whatever order parallel workers finish give one result.
pub proof fn lemma_band_order_irrelevant(
    buf: Seq<u8>,
    grid: PixelGrid,
    order: Seq<int>,
    rows: Seq<Seq<u8>>,
)
    requires
        grid.wf(),
        buf.len() == grid.len_spec(),
        rows.len() == grid.height,
        forall|r: int| 0 <= r < grid.height ==> (#[trigger] rows[r]).len() == grid.width,
        forall|i: int| 0 <= i < order.len() ==> 0 <= #[trigger] order[i] < grid.height,
        forall|r: int| 0 <= r < grid.height ==> #[trigger] order.contains(r),
    ensures
        write_bands(buf, grid, order, rows) == assembled(grid, rows),
{
    let w = grid.width as int;
    lemma_write_bands_at(buf, grid, order, rows);
    lemma_bands_partition(grid);
    let out = write_bands(buf, grid, order, rows);
    assert forall|k: int| 0 <= k < buf.len() implies #[trigger] out[k] == assembled(grid, rows)[k] by {
        assert(grid.band_spec(k / w).holds(k));
        assert(order.contains(k / w));
    }
    assert(out =~= assembled(grid, rows));
}

} // verus!
