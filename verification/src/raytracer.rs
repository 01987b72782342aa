//! Tile schedule of the renderer: the image is cut into square tiles, and the
//! workers claim tile origins one at a time from a shared cursor that walks
//! the tiles row by row.

use vstd::prelude::*;

verus! {

/// Side of a tile, in pixels.
pub const TILE_SIZE: usize = 16;

/// A square block of pixels of the image, filled by one worker. `P` is the
/// colour that the renderer accumulates for a pixel.
pub struct Tile<P> {
    /// The pixels, row by row.
    pub pixels: [[P; TILE_SIZE]; TILE_SIZE],
    /// Left column of the tile in the image.
    pub x: usize,
    /// Top row of the tile in the image.
    pub y: usize,
}

impl<P: Copy> Tile<P> {
    /// The tile at `(x, y)` with every pixel set to `fill`.
    pub fn new(x: usize, y: usize, fill: P) -> (tile: Tile<P>)
        ensures
            tile.x == x,
            tile.y == y,
            forall|row: int, column: int|
                0 <= row < TILE_SIZE && 0 <= column < TILE_SIZE ==> #[trigger] tile.pixels@[row]@[column]
                    == fill,
    {
        let line: [P; TILE_SIZE] = [fill;TILE_SIZE];
        let pixels: [[P; TILE_SIZE]; TILE_SIZE] = [line;TILE_SIZE];
        Tile { pixels, x, y }
    }

    /// Writes a pixel of the tile; the others stay as they are.
    pub fn set(&mut self, row: usize, column: usize, value: P)
        requires
            row < TILE_SIZE,
            column < TILE_SIZE,
        ensures
            final(self).x == old(self).x,
            final(self).y == old(self).y,
            final(self).pixels@[row as int]@[column as int] == value,
            forall|r: int, c: int|
                0 <= r < TILE_SIZE && 0 <= c < TILE_SIZE && (r != row || c != column)
                    ==> #[trigger] final(self).pixels@[r]@[c] == old(self).pixels@[r]@[c],
    {
        let mut line = self.pixels[row];
        line[column] = value;
        self.pixels[row] = line;
    }
}

/// Cursor from which the first tile is claimed.
pub open spec fn start_cursor() -> (int, int) {
    (0, 0)
}

/// Where the cursor stands after one claim, before the end of the schedule
/// is looked at: one tile to the right, or at the start of the next row of
/// tiles once the row is used up.
pub open spec fn stepped(cursor: (int, int), width: int) -> (int, int) {
    if cursor.0 + TILE_SIZE >= width {
        (0, cursor.1 + TILE_SIZE)
    } else {
        (cursor.0 + TILE_SIZE, cursor.1)
    }
}

/// The claim finds the schedule already used up: the cursor stood at the start
/// of a row below the image and there is more than one tile in a row.
pub open spec fn exhausted(cursor: (int, int), width: int, height: int) -> bool {
    let s = stepped(cursor, width);
    s.1 >= height && s.0 == TILE_SIZE
}

/// The claim is the last one that its worker makes.
pub open spec fn finishing(cursor: (int, int), width: int, height: int) -> bool {
    stepped(cursor, width).1 >= height
}

/// The cursor that a claim leaves behind.
pub open spec fn advanced(cursor: (int, int), width: int, height: int) -> (int, int) {
    let s = stepped(cursor, width);
    if exhausted(cursor, width, height) {
        (0, s.1)
    } else {
        s
    }
}

/// The tile origin that a claim hands out, if any.
pub open spec fn claimed(cursor: (int, int), width: int, height: int) -> Option<(int, int)> {
    if exhausted(cursor, width, height) {
        None
    } else {
        Some(cursor)
    }
}

/// Outcome of one claim on the shared cursor.
#[derive(Clone, Copy, Debug)]
pub struct Claim {
    /// Origin of the tile to render, or `None` when no tile is left.
    pub origin: Option<(usize, usize)>,
    /// Value to store back into the shared cursor.
    pub next: (usize, usize),
    /// The worker stops after rendering `origin`.
    pub done: bool,
}

/// Claims the next tile: reads the cursor, computes the cursor that follows
/// it in row-major tile order and reports whether the schedule is complete.
pub fn claim_tile(cursor: (usize, usize), width: usize, height: usize) -> (claim: Claim)
    requires
        cursor.0 + TILE_SIZE <= usize::MAX,
        cursor.1 + TILE_SIZE <= usize::MAX,
    ensures
        (claim.next.0 as int, claim.next.1 as int) == advanced(
            (cursor.0 as int, cursor.1 as int),
            width as int,
            height as int,
        ),
        claim.done == finishing((cursor.0 as int, cursor.1 as int), width as int, height as int),
        claim.origin.is_some() == claimed(
            (cursor.0 as int, cursor.1 as int),
            width as int,
            height as int,
        ).is_some(),
        claim.origin.is_some() ==> claim.origin == Some(cursor),
{
    let mut x: usize = cursor.0 + TILE_SIZE;
    let mut y: usize = cursor.1;
    if x >= width {
        x = 0;
        y = y + TILE_SIZE;
    }
    if y >= height {
        if x == TILE_SIZE {
            return Claim { origin: None, next: (0, y), done: true };
        }
        return Claim { origin: Some(cursor), next: (x, y), done: true };
    }
    Claim { origin: Some(cursor), next: (x, y), done: false }
}

/// Seed of the sample generator of the tile at `(x, y)`: the render seed
/// combined with both coordinates by exclusive or, so that a tile gets the
/// same samples whichever worker renders it.
pub fn tile_seed(seed: u64, x: usize, y: usize) -> (s: u64)
    ensures
        s == seed ^ (x as u64) ^ (y as u64),
{
    seed ^ (x as u64) ^ (y as u64)
}

/// Number of pixel columns (or rows) of a tile that lie inside the image: the
/// tile starts at `origin` and the image is `extent` pixels wide (or high).
pub open spec fn clipped_len(origin: int, extent: int) -> int {
    if origin >= extent {
        0
    } else if extent - origin < TILE_SIZE {
        extent - origin
    } else {
        TILE_SIZE as int
    }
}

/// Computes [`clipped_len`]: edge tiles are cut at the image border.
pub fn clipped(origin: usize, extent: usize) -> (n: usize)
    ensures
        n == clipped_len(origin as int, extent as int),
        n <= TILE_SIZE,
        origin + n <= extent || n == 0,
{
    if origin >= extent {
        0
    } else if extent - origin < TILE_SIZE {
        extent - origin
    } else {
        TILE_SIZE
    }
}

/// Copies the part of a tile that lies inside the image into the frame. The
/// rows of the frame run from the top of the image down, the rows of a tile
/// from the bottom up. Returns the number of pixels copied.
pub fn place_tile<P: Copy>(image: &mut Vec<Vec<P>>, tile: &Tile<P>, width: usize, height: usize) -> (placed:
    usize)
    requires
        old(image)@.len() == height,
        forall|r: int| 0 <= r < height ==> (#[trigger] old(image)@[r])@.len() == width,
        tile.x <= width,
        tile.y + TILE_SIZE <= usize::MAX,
    ensures
        final(image)@.len() == height,
        forall|r: int| 0 <= r < height ==> (#[trigger] final(image)@[r])@.len() == width,
        forall|px: int, py: int|
            0 <= px < width && 0 <= py < height ==> #[trigger] final(image)@[height - 1 - py]@[px]
                == (if tile_covers((tile.x as int, tile.y as int), px, py, width as int, height as int) {
                tile.pixels@[py - tile.y]@[px - tile.x]
            } else {
                old(image)@[height - 1 - py]@[px]
            }),
        placed == clipped_len(tile.x as int, width as int) * clipped_len(
            tile.y as int,
            height as int,
        ),
{
    let columns = clipped(tile.x, width);
    let rows = clipped(tile.y, height);
    let mut placed: usize = 0;
    let mut j: usize = 0;
    while j < rows
        invariant
            j <= rows,
            rows == clipped_len(tile.y as int, height as int),
            columns == clipped_len(tile.x as int, width as int),
            rows <= TILE_SIZE,
            columns <= TILE_SIZE,
            tile.x <= width,
            tile.y + rows <= height || rows == 0,
            tile.x + columns <= width,
            image@.len() == height,
            forall|r: int| 0 <= r < height ==> (#[trigger] image@[r])@.len() == width,
            placed == columns * j,
            forall|px: int, py: int|
                0 <= px < width && 0 <= py < height ==> #[trigger] image@[height - 1 - py]@[px] == (
                if tile.y <= py < tile.y + j && tile.x <= px < tile.x + columns {
                    tile.pixels@[py - tile.y]@[px - tile.x]
                } else {
                    old(image)@[height - 1 - py]@[px]
                }),
        decreases rows - j,
    {
        let r = height - 1 - (tile.y + j);
        let ghost before = image@;
        let mut line: Vec<P> = Vec::new();
        let mut c: usize = 0;
        while c < width
            invariant
                c <= width,
                j < rows,
                rows <= TILE_SIZE,
                columns <= TILE_SIZE,
                r < height,
                image@ == before,
                image@.len() == height,
                before[r as int]@.len() == width,
                tile.x + columns <= width,
                line@.len() == c,
                forall|k: int|
                    0 <= k < c ==> #[trigger] line@[k] == (if tile.x <= k < tile.x + columns {
                        tile.pixels@[j as int]@[k - tile.x]
                    } else {
                        before[r as int]@[k]
                    }),
            decreases width - c,
        {
            if tile.x <= c && c < tile.x + columns {
                line.push(tile.pixels[j][c - tile.x]);
            } else {
                line.push(image[r][c]);
            }
            c = c + 1;
        }
        image.set(r, line);
        proof {
            assert(placed + columns == columns * (j + 1)) by (nonlinear_arith)
                requires
                    placed == columns * j,
            ;
            assert(columns * (j + 1) == columns * j + columns) by (nonlinear_arith);
            assert(columns * (j + 1) <= 256) by (nonlinear_arith)
                requires
                    columns <= 16,
                    j + 1 <= 16,
            ;
            assert forall|px: int, py: int| 0 <= px < width && 0 <= py < height implies #[trigger] image@[height
                - 1 - py]@[px] == (if tile.y <= py < tile.y + j + 1 && tile.x <= px < tile.x
                + columns {
                tile.pixels@[py - tile.y]@[px - tile.x]
            } else {
                old(image)@[height - 1 - py]@[px]
            }) by {
                if py == tile.y + j {
                    assert(image@[r as int]@[px] == line@[px]);
                } else {
                    assert(image@[height - 1 - py] == before[height - 1 - py]);
                }
            }
        }
        placed = placed + columns;
        j = j + 1;
    }
    placed
}

/// The pixel `(px, py)` of a `width` by `height` image belongs to the tile at `origin`.
pub open spec fn tile_covers(origin: (int, int), px: int, py: int, width: int, height: int) -> bool {
    &&& origin.0 <= px < origin.0 + TILE_SIZE
    &&& origin.1 <= py < origin.1 + TILE_SIZE
    &&& 0 <= px < width
    &&& 0 <= py < height
}

/// The shared cursor after `k` claims.
pub open spec fn cursor_after(k: nat, width: int, height: int) -> (int, int)
    decreases k,
{
    if k == 0 {
        start_cursor()
    } else {
        advanced(cursor_after((k - 1) as nat, width, height), width, height)
    }
}

/// The tile handed out by claim number `k`, counted from zero.
pub open spec fn tile_of_claim(k: nat, width: int, height: int) -> Option<(int, int)> {
    claimed(cursor_after(k, width, height), width, height)
}

/// How many of the first `k` claims handed out a tile that holds the pixel.
pub open spec fn times_covered(k: nat, px: int, py: int, width: int, height: int) -> nat
    decreases k,
{
    if k == 0 {
        0
    } else {
        let before = times_covered((k - 1) as nat, px, py, width, height);
        match tile_of_claim((k - 1) as nat, width, height) {
            Some(origin) => if tile_covers(origin, px, py, width, height) {
                before + 1
            } else {
                before
            },
            None => before,
        }
    }
}

/// The pixel lies in the part of the image that the cursor has passed: in a
/// row of tiles above the cursor, or in the cursor's row to its left.
pub open spec fn passed(cursor: (int, int), px: int, py: int) -> bool {
    py < cursor.1 || (py < cursor.1 + TILE_SIZE && px < cursor.0)
}

proof fn lemma_schedule(k: nat, px: int, py: int, width: int, height: int)
    requires
        0 <= px < width,
        0 <= py < height,
    ensures
        ({
            let c = cursor_after(k, width, height);
            &&& 0 <= c.0
            &&& 0 <= c.1
            &&& c.0 == 0 || c.0 < width
            &&& times_covered(k, px, py, width, height) == (if passed(c, px, py) {
                1nat
            } else {
                0nat
            })
        }),
    decreases k,
{
    if k > 0 {
        lemma_schedule((k - 1) as nat, px, py, width, height);
    }
}

/// Tile coverage. However many claims have been made on a cursor that
/// started at the origin, no pixel of the image lies in two of the tiles
/// handed out; and once the cursor stands below the image, every pixel lies
/// in exactly one of them.
pub proof fn lemma_tiles_cover_once(k: nat, px: int, py: int, width: int, height: int)
    requires
        0 <= px < width,
        0 <= py < height,
    ensures
        times_covered(k, px, py, width, height) <= 1,
        cursor_after(k, width, height).1 >= height ==> times_covered(k, px, py, width, height)
            == 1,
{
    lemma_schedule(k, px, py, width, height);
}

/// The worker whose claim reports the end has taken the cursor below the
/// image: with the tile it was handed, the image is complete.
pub proof fn lemma_finishing_completes(k: nat, px: int, py: int, width: int, height: int)
    requires
        0 <= px < width,
        0 <= py < height,
        finishing(cursor_after(k, width, height), width, height),
    ensures
        times_covered(k + 1, px, py, width, height) == 1,
{
    lemma_schedule(k + 1, px, py, width, height);
}

/// Number of claims within which the cursor of any schedule on a `width` by
/// `height` image stands below the image.
pub open spec fn claims_needed(width: int, height: int) -> nat {
    (height * (width + TILE_SIZE) + width) as nat
}

proof fn lemma_progress(k: nat, width: int, height: int)
    requires
        0 <= width,
        0 <= height,
    ensures
        ({
            let c = cursor_after(k, width, height);
            &&& 0 <= c.0 <= width
            &&& 0 <= c.1
            &&& c.1 >= height || c.1 * (width + TILE_SIZE) + c.0 >= TILE_SIZE * k
        }),
    decreases k,
{
    if k > 0 {
        lemma_progress((k - 1) as nat, width, height);
        let b = cursor_after((k - 1) as nat, width, height);
        let c = cursor_after(k, width, height);
        if c.1 < height {
            if b.0 + TILE_SIZE >= width {
                assert((b.1 + 16) * (width + 16) == b.1 * (width + 16) + 16 * (width + 16))
                    by (nonlinear_arith);
            }
        }
    }
}

/// The schedule ends: after [`claims_needed`] claims the cursor stands below
/// the image, and it stays there.
pub proof fn lemma_schedule_ends(k: nat, width: int, height: int)
    requires
        0 <= width,
        0 <= height,
        k >= claims_needed(width, height),
    ensures
        cursor_after(k, width, height).1 >= height,
{
    lemma_progress(k, width, height);
    let c = cursor_after(k, width, height);
    if c.1 < height {
        assert(c.1 * (width + 16) <= (height - 1) * (width + 16)) by (nonlinear_arith)
            requires
                0 <= c.1 <= height - 1,
                0 <= width,
        ;
        assert((height - 1) * (width + 16) == height * (width + 16) - (width + 16))
            by (nonlinear_arith);
        assert(16 * (height * (width + 16) + width) >= height * (width + 16) + width)
            by (nonlinear_arith)
            requires
                0 <= width,
                0 <= height,
        ;
    }
}

/// Tile coverage, in full: once [`claims_needed`] claims have been made on a
/// cursor that started at the origin, every pixel of the image lies in
/// exactly one of the tiles handed out.
pub proof fn lemma_every_pixel_once(k: nat, px: int, py: int, width: int, height: int)
    requires
        0 <= px < width,
        0 <= py < height,
        k >= claims_needed(width, height),
    ensures
        times_covered(k, px, py, width, height) == 1,
{
    lemma_schedule_ends(k, width, height);
    lemma_tiles_cover_once(k, px, py, width, height);
}

} // verus!
