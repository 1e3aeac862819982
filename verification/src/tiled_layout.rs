//! Where the tiled framebuffer formats put each decoded pixel.
//!
//! Tiles are visited row by row, left to right on even tile rows and right to
//! left on odd ones. A tile is made of four square blocks; on even tile rows
//! they are visited top-left, bottom-left, bottom-right, top-right, and on odd
//! rows bottom-right, top-right, top-left, bottom-left. Inside a block pixels
//! come in row-major order (in groups of 4 x 4 for the full-size format).
use vstd::arithmetic::div_mod::{lemma_div_is_ordered, lemma_fundamental_div_mod_converse};
use vstd::arithmetic::mul::lemma_mul_inequality;
use vstd::prelude::*;

verus! {

/// Offset, in block units, of the `q`-th block visited in a tile.
pub open spec fn block_offset(odd_row: bool, q: int) -> (int, int) {
    if !odd_row {
        if q == 0 {
            (0, 0)
        } else if q == 1 {
            (0, 1)
        } else if q == 2 {
            (1, 1)
        } else {
            (1, 0)
        }
    } else {
        if q == 0 {
            (1, 1)
        } else if q == 1 {
            (1, 0)
        } else if q == 2 {
            (0, 0)
        } else {
            (0, 1)
        }
    }
}

/// Column of the `xi`-th tile visited on tile row `ytile`.
pub open spec fn tile_column(ytile: int, xi: int, columns: int) -> int {
    if ytile % 2 == 0 {
        xi
    } else {
        columns - 1 - xi
    }
}

/// Every tile of a row (or column) of `count` tiles, placed `tilesize / scale`
/// apart, ends inside the image, `span` pixels after its start.
pub open spec fn tiles_fit(count: u32, tilesize: u32, scale: int, span: int) -> bool {
    count == 0 || (count - 1) * tilesize / scale + span <= count * tilesize / scale
}

/// Position of the `k`-th pixel of the reduced tiled format: 64 pixels per
/// tile, in blocks of 4 x 4.
#[verifier::opaque]
pub open spec fn small_tile_position(k: int, tilesize: u32, tiles: (u32, u32)) -> (u32, u32) {
    let t = k / 64;
    let w = k % 64;
    let ytile = t / (tiles.0 as int);
    let xtile = tile_column(ytile, t % (tiles.0 as int), tiles.0 as int);
    let b = block_offset(ytile % 2 == 1, w / 16);
    (
        (xtile * tilesize / 4 + 4 * b.0 + w % 4) as u32,
        (ytile * tilesize / 4 + 4 * b.1 + (w % 16) / 4) as u32,
    )
}

/// Position of the `k`-th pixel of the full tiled format: 1024 pixels per
/// tile, in blocks of 16 x 16 made of four rows of four 4 x 4 squares.
#[verifier::opaque]
pub open spec fn tile_position(k: int, tilesize: u32, tiles: (u32, u32)) -> (u32, u32) {
    let t = k / 1024;
    let w = k % 1024;
    let ytile = t / (tiles.0 as int);
    let xtile = tile_column(ytile, t % (tiles.0 as int), tiles.0 as int);
    let b = block_offset(ytile % 2 == 1, w / 256);
    let band = (w % 256) / 64;
    let square = (w % 64) / 16;
    (
        (xtile * tilesize + 16 * b.0 + 4 * square + w % 4) as u32,
        (ytile * tilesize + 16 * b.1 + 4 * band + (w % 16) / 4) as u32,
    )
}

/// The start of a tile lies no further than that of the last tile.
pub proof fn lemma_tile_start_bound(xtile: int, count: u32, tilesize: u32, scale: int)
    requires
        0 <= xtile < count,
        scale > 0,
    ensures
        0 <= xtile * tilesize / scale <= (count - 1) * tilesize / scale,
        0 <= xtile * tilesize <= count * tilesize,
{
    lemma_mul_inequality(xtile, count - 1, tilesize as int);
    lemma_mul_inequality(0, xtile, tilesize as int);
    lemma_mul_inequality(count - 1, count as int, tilesize as int);
    lemma_div_is_ordered(xtile * tilesize, (count - 1) * tilesize, scale);
    lemma_div_is_ordered(0, xtile * tilesize, scale);
}

/// The 16 pixels of the `q`-th block of tile `xi` of tile row `ytile` of the
/// reduced format fill, in row-major order, the 4 x 4 square whose top-left
/// corner is `(x, y)`.
pub proof fn lemma_small_block_positions(
    ytile: int,
    xi: int,
    q: int,
    tilesize: u32,
    tiles: (u32, u32),
    x: int,
    y: int,
)
    requires
        0 <= ytile,
        0 <= xi < tiles.0,
        0 <= q < 4,
        x == tile_column(ytile, xi, tiles.0 as int) * tilesize / 4 + 4 * block_offset(
            ytile % 2 == 1,
            q,
        ).0,
        y == ytile * tilesize / 4 + 4 * block_offset(ytile % 2 == 1, q).1,
    ensures
        forall|k: int|
            (ytile * tiles.0 + xi) * 64 + q * 16 <= k < (ytile * tiles.0 + xi) * 64 + q * 16 + 16
                ==> #[trigger] small_tile_position(k, tilesize, tiles) == ((x + (k - ((ytile
                * tiles.0 + xi) * 64 + q * 16)) % 4) as u32, (y + (k - ((ytile * tiles.0 + xi) * 64
                + q * 16)) / 4) as u32),
{
    let t = ytile * tiles.0 + xi;
    let k0 = t * 64 + q * 16;
    assert forall|k: int| k0 <= k < k0 + 16 implies #[trigger] small_tile_position(
        k,
        tilesize,
        tiles,
    ) == ((x + (k - k0) % 4) as u32, (y + (k - k0) / 4) as u32) by {
        reveal(small_tile_position);
        let j = k - k0;
        let r = j / 4;
        let c = j % 4;
        let w = q * 16 + j;
        lemma_fundamental_div_mod_converse(k, 64, t, w);
        lemma_fundamental_div_mod_converse(t, tiles.0 as int, ytile, xi);
        lemma_fundamental_div_mod_converse(w, 16, q, j);
        lemma_fundamental_div_mod_converse(w, 4, q * 4 + r, c);
    }
}

/// Offset of the `j`-th pixel inside a 16 x 16 block of the full tiled
/// format: four bands of four rows, each band four 4 x 4 squares side by side.
pub open spec fn block16_offset(j: int) -> (int, int) {
    (4 * ((j % 64) / 16) + j % 4, 4 * (j / 64) + (j % 16) / 4)
}

/// The 256 pixels of the `q`-th block of tile `xi` of tile row `ytile` of the
/// full format fill the 16 x 16 square whose top-left corner is `(x, y)`.
pub proof fn lemma_block_positions(
    ytile: int,
    xi: int,
    q: int,
    tilesize: u32,
    tiles: (u32, u32),
    x: int,
    y: int,
)
    requires
        0 <= ytile,
        0 <= xi < tiles.0,
        0 <= q < 4,
        x == tile_column(ytile, xi, tiles.0 as int) * tilesize + 16 * block_offset(
            ytile % 2 == 1,
            q,
        ).0,
        y == ytile * tilesize + 16 * block_offset(ytile % 2 == 1, q).1,
    ensures
        forall|k: int|
            (ytile * tiles.0 + xi) * 1024 + q * 256 <= k < (ytile * tiles.0 + xi) * 1024 + q * 256
                + 256 ==> #[trigger] tile_position(k, tilesize, tiles) == ((x + block16_offset(
                k - ((ytile * tiles.0 + xi) * 1024 + q * 256),
            ).0) as u32, (y + block16_offset(k - ((ytile * tiles.0 + xi) * 1024 + q * 256)).1) as u32),
{
    let t = ytile * tiles.0 + xi;
    let k0 = t * 1024 + q * 256;
    assert forall|k: int| k0 <= k < k0 + 256 implies #[trigger] tile_position(k, tilesize, tiles)
        == ((x + block16_offset(k - k0).0) as u32, (y + block16_offset(k - k0).1) as u32) by {
        reveal(tile_position);
        let j = k - k0;
        let w = q * 256 + j;
        lemma_fundamental_div_mod_converse(k, 1024, t, w);
        lemma_fundamental_div_mod_converse(t, tiles.0 as int, ytile, xi);
        lemma_fundamental_div_mod_converse(w, 256, q, j);
        lemma_fundamental_div_mod_converse(w, 64, q * 4 + j / 64, j % 64);
        lemma_fundamental_div_mod_converse(w, 16, q * 16 + j / 16, j % 16);
        lemma_fundamental_div_mod_converse(w, 4, q * 64 + j / 4, j % 4);
        lemma_fundamental_div_mod_converse(j, 64, j / 64, j % 64);
        lemma_fundamental_div_mod_converse(j, 16, j / 16, j % 16);
        lemma_fundamental_div_mod_converse(j, 4, j / 4, j % 4);
    }
}

/// The loop counters inside a 16 x 16 block name the pixel at the matching
/// offset.
pub proof fn lemma_block16_offset(band: int, square: int, r: int, c: int)
    requires
        0 <= band < 4,
        0 <= square < 4,
        0 <= r < 4,
        0 <= c < 4,
    ensures
        block16_offset(band * 64 + square * 16 + r * 4 + c) == (4 * square + c, 4 * band + r),
{
    let j = band * 64 + square * 16 + r * 4 + c;
    lemma_fundamental_div_mod_converse(j, 64, band, square * 16 + r * 4 + c);
    lemma_fundamental_div_mod_converse(square * 16 + r * 4 + c, 16, square, r * 4 + c);
    lemma_fundamental_div_mod_converse(j, 16, band * 4 + square, r * 4 + c);
    lemma_fundamental_div_mod_converse(r * 4 + c, 4, r, c);
    lemma_fundamental_div_mod_converse(j, 4, band * 16 + square * 4 + r, c);
}

/// Which block of a tile is visited `q`-th: the inverse of `block_offset`.
pub open spec fn block_visit(odd_row: bool, bx: int, by: int) -> int {
    if !odd_row {
        if bx == 0 {
            if by == 0 {
                0
            } else {
                1
            }
        } else {
            if by == 1 {
                2
            } else {
                3
            }
        }
    } else {
        if bx == 1 {
            if by == 1 {
                0
            } else {
                1
            }
        } else {
            if by == 0 {
                2
            } else {
                3
            }
        }
    }
}

/// For 32-pixel tiles, the index of the pixel of the full tiled format that
/// is written at `(x, y)`.
pub open spec fn tile_index(x: int, y: int, columns: int) -> int {
    let ytile = y / 32;
    let xtile = x / 32;
    let xi = tile_column(ytile, xtile, columns);
    let bx = (x % 32) / 16;
    let by = (y % 32) / 16;
    let q = block_visit(ytile % 2 == 1, bx, by);
    let band = ((y % 32) % 16) / 4;
    let square = ((x % 32) % 16) / 4;
    (ytile * columns + xi) * 1024 + q * 256 + band * 64 + square * 16 + ((y % 32) % 16) % 4 * 4
        + ((x % 32) % 16) % 4
}

/// Splits `v` as `32 * a + 16 * b + 4 * s + e` with `b < 2` and `s, e < 4`.
proof fn lemma_split_32(v: int)
    requires
        v >= 0,
    ensures
        v == 32 * (v / 32) + 16 * ((v % 32) / 16) + 4 * (((v % 32) % 16) / 4) + ((v % 32) % 16)
            % 4,
        0 <= (v % 32) / 16 < 2,
        0 <= ((v % 32) % 16) / 4 < 4,
        0 <= ((v % 32) % 16) % 4 < 4,
        v / 32 >= 0,
{
    vstd::arithmetic::div_mod::lemma_fundamental_div_mod(v, 32);
    vstd::arithmetic::div_mod::lemma_fundamental_div_mod(v % 32, 16);
    vstd::arithmetic::div_mod::lemma_fundamental_div_mod((v % 32) % 16, 4);
    vstd::arithmetic::div_mod::lemma_div_pos_is_pos(v, 32);
}

/// Reading `32 * a + 16 * b + 4 * s + e` back gives its parts.
proof fn lemma_join_32(a: int, b: int, sq: int, e: int)
    requires
        a >= 0,
        0 <= b < 2,
        0 <= sq < 4,
        0 <= e < 4,
    ensures
        ({
            let v = 32 * a + 16 * b + 4 * sq + e;
            &&& v / 32 == a
            &&& (v % 32) / 16 == b
            &&& ((v % 32) % 16) / 4 == sq
            &&& ((v % 32) % 16) % 4 == e
        }),
{
    let v = 32 * a + 16 * b + 4 * sq + e;
    lemma_fundamental_div_mod_converse(v, 32, a, 16 * b + 4 * sq + e);
    lemma_fundamental_div_mod_converse(16 * b + 4 * sq + e, 16, b, 4 * sq + e);
    lemma_fundamental_div_mod_converse(4 * sq + e, 4, sq, e);
}

/// With 32-pixel tiles, every pixel of the full tiled format lands inside
/// the image, no two land on the same place, and every place of the image
/// receives one: pixel `k` and place `(x, y)` correspond through
/// `tile_position` and `tile_index`.
pub proof fn lemma_tiles_cover_image_once(tiles: (u32, u32))
    requires
        tiles.0 * 32 <= u32::MAX,
        tiles.1 * 32 <= u32::MAX,
    ensures
        forall|k: int|
            0 <= k < 1024 * tiles.0 * tiles.1 ==> {
                let p = #[trigger] tile_position(k, 32, tiles);
                &&& p.0 < tiles.0 * 32
                &&& p.1 < tiles.1 * 32
                &&& tile_index(p.0 as int, p.1 as int, tiles.0 as int) == k
            },
        forall|x: int, y: int|
            0 <= x < tiles.0 * 32 && 0 <= y < tiles.1 * 32 ==> {
                let k = #[trigger] tile_index(x, y, tiles.0 as int);
                &&& 0 <= k < 1024 * tiles.0 * tiles.1
                &&& tile_position(k, 32, tiles) == (x as u32, y as u32)
            },
{
    assert forall|k: int| 0 <= k < 1024 * tiles.0 * tiles.1 implies {
        let p = #[trigger] tile_position(k, 32, tiles);
        &&& p.0 < tiles.0 * 32
        &&& p.1 < tiles.1 * 32
        &&& tile_index(p.0 as int, p.1 as int, tiles.0 as int) == k
    } by {
        lemma_position_then_index(k, tiles);
    }
    assert forall|x: int, y: int| 0 <= x < tiles.0 * 32 && 0 <= y < tiles.1 * 32 implies {
        let k = #[trigger] tile_index(x, y, tiles.0 as int);
        &&& 0 <= k < 1024 * tiles.0 * tiles.1
        &&& tile_position(k, 32, tiles) == (x as u32, y as u32)
    } by {
        lemma_index_then_position(x, y, tiles);
    }
}

/// Splits a pixel index inside a tile into its block, band, square, row and
/// column.
proof fn lemma_split_1024(w: int)
    requires
        0 <= w < 1024,
    ensures
        w == (w / 256) * 256 + ((w % 256) / 64) * 64 + ((w % 64) / 16) * 16 + ((w % 16) / 4) * 4 + w
            % 4,
        0 <= w / 256 < 4,
        0 <= (w % 256) / 64 < 4,
        0 <= (w % 64) / 16 < 4,
        0 <= (w % 16) / 4 < 4,
        0 <= w % 4 < 4,
{
    let v = w as u32;
    assert(v < 1024 ==> v == (v / 256) * 256 + ((v % 256) / 64) * 64 + ((v % 64) / 16) * 16 + ((v
        % 16) / 4) * 4 + v % 4 && v / 256 < 4 && (v % 256) / 64 < 4 && (v % 64) / 16 < 4 && (v
        % 16) / 4 < 4 && v % 4 < 4) by (bit_vector);
}

/// Splits a pixel index into its tile row, the tile's place in the row, and
/// the index inside the tile.
proof fn lemma_split_tiles(k: int, per_tile: int, tiles: (u32, u32))
    requires
        per_tile > 0,
        0 <= k < per_tile * tiles.0 * tiles.1,
    ensures
        tiles.0 > 0,
        0 <= (k / per_tile) / (tiles.0 as int) < tiles.1,
        0 <= (k / per_tile) % (tiles.0 as int) < tiles.0,
        0 <= k % per_tile < per_tile,
        k == (((k / per_tile) / (tiles.0 as int)) * tiles.0 + (k / per_tile) % (tiles.0 as int))
            * per_tile + k % per_tile,
{
    let cols = tiles.0 as int;
    assert(cols > 0) by (nonlinear_arith)
        requires
            per_tile > 0,
            0 <= k < per_tile * tiles.0 * tiles.1,
            cols == tiles.0,
    ;
    let t = k / per_tile;
    vstd::arithmetic::div_mod::lemma_fundamental_div_mod(k, per_tile);
    vstd::arithmetic::div_mod::lemma_div_pos_is_pos(k, per_tile);
    assert(t < cols * tiles.1) by (nonlinear_arith)
        requires
            k == per_tile * t + k % per_tile,
            0 <= k % per_tile,
            k < per_tile * tiles.0 * tiles.1,
            per_tile > 0,
            cols == tiles.0,
    ;
    vstd::arithmetic::div_mod::lemma_fundamental_div_mod(t, cols);
    vstd::arithmetic::div_mod::lemma_div_pos_is_pos(t, cols);
    let ytile = t / cols;
    let xi = t % cols;
    assert(ytile < tiles.1) by (nonlinear_arith)
        requires
            cols > 0,
            t == cols * ytile + xi,
            0 <= xi,
            t < cols * tiles.1,
    ;
    assert(k == (ytile * cols + xi) * per_tile + k % per_tile) by (nonlinear_arith)
        requires
            k == per_tile * t + k % per_tile,
            t == cols * ytile + xi,
    ;
}

proof fn lemma_position_then_index(k: int, tiles: (u32, u32))
    requires
        tiles.0 * 32 <= u32::MAX,
        tiles.1 * 32 <= u32::MAX,
        0 <= k < 1024 * tiles.0 * tiles.1,
    ensures
        ({
            let p = tile_position(k, 32, tiles);
            &&& p.0 < tiles.0 * 32
            &&& p.1 < tiles.1 * 32
            &&& tile_index(p.0 as int, p.1 as int, tiles.0 as int) == k
        }),
{
    reveal(tile_position);
    let cols = tiles.0 as int;
    lemma_split_tiles(k, 1024, tiles);
    let t = k / 1024;
    let w = k % 1024;
    let ytile = t / cols;
    let xi = t % cols;
    lemma_split_1024(w);
    let xtile = tile_column(ytile, xi, cols);
    let odd = ytile % 2 == 1;
    let q = w / 256;
    let b = block_offset(odd, q);
    let band = (w % 256) / 64;
    let square = (w % 64) / 16;
    let r = (w % 16) / 4;
    let c = w % 4;
    let x = xtile * 32 + 16 * b.0 + 4 * square + c;
    let y = ytile * 32 + 16 * b.1 + 4 * band + r;
    assert(x < tiles.0 * 32 && y < tiles.1 * 32) by (nonlinear_arith)
        requires
            0 <= xtile < cols,
            cols == tiles.0,
            0 <= ytile < tiles.1,
            x == xtile * 32 + 16 * b.0 + 4 * square + c,
            y == ytile * 32 + 16 * b.1 + 4 * band + r,
            0 <= b.0 <= 1,
            0 <= b.1 <= 1,
            0 <= square < 4,
            0 <= band < 4,
            0 <= r < 4,
            0 <= c < 4,
    ;
    lemma_join_32(xtile, b.0, square, c);
    lemma_join_32(ytile, b.1, band, r);
    assert(tile_column(ytile, xtile, cols) == xi);
    assert(block_visit(odd, b.0, b.1) == q);
}

proof fn lemma_index_then_position(x: int, y: int, tiles: (u32, u32))
    requires
        tiles.0 * 32 <= u32::MAX,
        tiles.1 * 32 <= u32::MAX,
        0 <= x < tiles.0 * 32,
        0 <= y < tiles.1 * 32,
    ensures
        ({
            let k = tile_index(x, y, tiles.0 as int);
            &&& 0 <= k < 1024 * tiles.0 * tiles.1
            &&& tile_position(k, 32, tiles) == (x as u32, y as u32)
        }),
{
    reveal(tile_position);
    let cols = tiles.0 as int;
    lemma_split_32(x);
    lemma_split_32(y);
    let ytile = y / 32;
    let xtile = x / 32;
    assert(xtile < cols && ytile < tiles.1) by (nonlinear_arith)
        requires
            x == 32 * xtile + (x - 32 * xtile),
            0 <= x - 32 * xtile < 32,
            y == 32 * ytile + (y - 32 * ytile),
            0 <= y - 32 * ytile < 32,
            x < cols * 32,
            y < tiles.1 * 32,
    ;
    let xi = tile_column(ytile, xtile, cols);
    let odd = ytile % 2 == 1;
    let bx = (x % 32) / 16;
    let by = (y % 32) / 16;
    let q = block_visit(odd, bx, by);
    let band = ((y % 32) % 16) / 4;
    let square = ((x % 32) % 16) / 4;
    let r = ((y % 32) % 16) % 4;
    let c = ((x % 32) % 16) % 4;
    let t = ytile * cols + xi;
    let w = q * 256 + band * 64 + square * 16 + r * 4 + c;
    let k = t * 1024 + w;
    assert(k == tile_index(x, y, cols));
    assert(0 <= t < cols * tiles.1) by (nonlinear_arith)
        requires
            t == ytile * cols + xi,
            0 <= xi < cols,
            0 <= ytile < tiles.1,
    ;
    assert(0 <= k < 1024 * tiles.0 * tiles.1) by (nonlinear_arith)
        requires
            k == t * 1024 + w,
            0 <= w < 1024,
            0 <= t < cols * tiles.1,
            cols == tiles.0,
    ;
    lemma_fundamental_div_mod_converse(k, 1024, t, w);
    lemma_fundamental_div_mod_converse(t, cols, ytile, xi);
    assert(tile_column(ytile, xi, cols) == xtile);
    assert(block_offset(odd, q) == (bx, by));
    lemma_fundamental_div_mod_converse(w, 256, q, band * 64 + square * 16 + r * 4 + c);
    lemma_fundamental_div_mod_converse(
        band * 64 + square * 16 + r * 4 + c,
        64,
        band,
        square * 16 + r * 4 + c,
    );
    lemma_fundamental_div_mod_converse(w, 64, q * 4 + band, square * 16 + r * 4 + c);
    lemma_fundamental_div_mod_converse(square * 16 + r * 4 + c, 16, square, r * 4 + c);
    lemma_fundamental_div_mod_converse(w, 16, q * 16 + band * 4 + square, r * 4 + c);
    lemma_fundamental_div_mod_converse(r * 4 + c, 4, r, c);
    lemma_fundamental_div_mod_converse(w, 4, q * 64 + band * 16 + square * 4 + r, c);
}

/// For 32-word tiles, the index of the pixel of the reduced tiled format that
/// is written at `(x, y)`.
pub open spec fn small_tile_index(x: int, y: int, columns: int) -> int {
    let ytile = y / 8;
    let xtile = x / 8;
    let xi = tile_column(ytile, xtile, columns);
    let q = block_visit(ytile % 2 == 1, (x % 8) / 4, (y % 8) / 4);
    (ytile * columns + xi) * 64 + q * 16 + ((y % 8) % 4) * 4 + (x % 8) % 4
}

proof fn lemma_split_8(v: int)
    requires
        v >= 0,
    ensures
        v == 8 * (v / 8) + 4 * ((v % 8) / 4) + (v % 8) % 4,
        0 <= (v % 8) / 4 < 2,
        0 <= (v % 8) % 4 < 4,
        v / 8 >= 0,
{
    vstd::arithmetic::div_mod::lemma_fundamental_div_mod(v, 8);
    vstd::arithmetic::div_mod::lemma_fundamental_div_mod(v % 8, 4);
    vstd::arithmetic::div_mod::lemma_div_pos_is_pos(v, 8);
}

proof fn lemma_join_8(a: int, b: int, e: int)
    requires
        a >= 0,
        0 <= b < 2,
        0 <= e < 4,
    ensures
        (8 * a + 4 * b + e) / 8 == a,
        ((8 * a + 4 * b + e) % 8) / 4 == b,
        ((8 * a + 4 * b + e) % 8) % 4 == e,
{
    lemma_fundamental_div_mod_converse(8 * a + 4 * b + e, 8, a, 4 * b + e);
    lemma_fundamental_div_mod_converse(4 * b + e, 4, b, e);
}

proof fn lemma_split_64(w: int)
    requires
        0 <= w < 64,
    ensures
        w == (w / 16) * 16 + ((w % 16) / 4) * 4 + w % 4,
        0 <= w / 16 < 4,
        0 <= (w % 16) / 4 < 4,
        0 <= w % 4 < 4,
{
    let v = w as u32;
    assert(v < 64 ==> v == (v / 16) * 16 + ((v % 16) / 4) * 4 + v % 4 && v / 16 < 4 && (v % 16) / 4
        < 4 && v % 4 < 4) by (bit_vector);
}

/// A tile of 32 words starts 8 pixels after the previous one.
proof fn lemma_tile_start_8(a: int)
    requires
        a >= 0,
    ensures
        a * 32 / 4 == 8 * a,
{
    lemma_fundamental_div_mod_converse(a * 32, 4, 8 * a, 0);
}

/// With 32-word tiles, every pixel of the reduced tiled format lands inside
/// the image, no two land on the same place, and every place of the image
/// receives one: pixel `k` and place `(x, y)` correspond through
/// `small_tile_position` and `small_tile_index`.
pub proof fn lemma_small_tiles_cover_image_once(tiles: (u32, u32))
    requires
        tiles.0 * 32 <= u32::MAX,
        tiles.1 * 32 <= u32::MAX,
    ensures
        forall|k: int|
            0 <= k < 64 * tiles.0 * tiles.1 ==> {
                let p = #[trigger] small_tile_position(k, 32, tiles);
                &&& p.0 < tiles.0 * 32 / 4
                &&& p.1 < tiles.1 * 32 / 4
                &&& small_tile_index(p.0 as int, p.1 as int, tiles.0 as int) == k
            },
        forall|x: int, y: int|
            0 <= x < tiles.0 * 32 / 4 && 0 <= y < tiles.1 * 32 / 4 ==> {
                let k = #[trigger] small_tile_index(x, y, tiles.0 as int);
                &&& 0 <= k < 64 * tiles.0 * tiles.1
                &&& small_tile_position(k, 32, tiles) == (x as u32, y as u32)
            },
{
    lemma_tile_start_8(tiles.0 as int);
    lemma_tile_start_8(tiles.1 as int);
    assert forall|k: int| 0 <= k < 64 * tiles.0 * tiles.1 implies {
        let p = #[trigger] small_tile_position(k, 32, tiles);
        &&& p.0 < tiles.0 * 32 / 4
        &&& p.1 < tiles.1 * 32 / 4
        &&& small_tile_index(p.0 as int, p.1 as int, tiles.0 as int) == k
    } by {
        lemma_small_position_then_index(k, tiles);
    }
    assert forall|x: int, y: int| 0 <= x < tiles.0 * 32 / 4 && 0 <= y < tiles.1 * 32 / 4 implies {
        let k = #[trigger] small_tile_index(x, y, tiles.0 as int);
        &&& 0 <= k < 64 * tiles.0 * tiles.1
        &&& small_tile_position(k, 32, tiles) == (x as u32, y as u32)
    } by {
        lemma_small_index_then_position(x, y, tiles);
    }
}

proof fn lemma_small_position_then_index(k: int, tiles: (u32, u32))
    requires
        tiles.0 * 32 <= u32::MAX,
        tiles.1 * 32 <= u32::MAX,
        0 <= k < 64 * tiles.0 * tiles.1,
    ensures
        ({
            let p = small_tile_position(k, 32, tiles);
            &&& p.0 < tiles.0 * 8
            &&& p.1 < tiles.1 * 8
            &&& small_tile_index(p.0 as int, p.1 as int, tiles.0 as int) == k
        }),
{
    reveal(small_tile_position);
    let cols = tiles.0 as int;
    lemma_split_tiles(k, 64, tiles);
    let t = k / 64;
    let w = k % 64;
    let ytile = t / cols;
    let xi = t % cols;
    lemma_split_64(w);
    let xtile = tile_column(ytile, xi, cols);
    let odd = ytile % 2 == 1;
    let q = w / 16;
    let b = block_offset(odd, q);
    let r = (w % 16) / 4;
    let c = w % 4;
    lemma_tile_start_8(xtile);
    lemma_tile_start_8(ytile);
    let x = 8 * xtile + 4 * b.0 + c;
    let y = 8 * ytile + 4 * b.1 + r;
    assert(x < tiles.0 * 8 && y < tiles.1 * 8) by (nonlinear_arith)
        requires
            0 <= xtile < cols,
            cols == tiles.0,
            0 <= ytile < tiles.1,
            x == 8 * xtile + 4 * b.0 + c,
            y == 8 * ytile + 4 * b.1 + r,
            0 <= b.0 <= 1,
            0 <= b.1 <= 1,
            0 <= r < 4,
            0 <= c < 4,
    ;
    lemma_join_8(xtile, b.0, c);
    lemma_join_8(ytile, b.1, r);
    assert(tile_column(ytile, xtile, cols) == xi);
    assert(block_visit(odd, b.0, b.1) == q);
}

proof fn lemma_small_index_then_position(x: int, y: int, tiles: (u32, u32))
    requires
        tiles.0 * 32 <= u32::MAX,
        tiles.1 * 32 <= u32::MAX,
        0 <= x < tiles.0 * 8,
        0 <= y < tiles.1 * 8,
    ensures
        ({
            let k = small_tile_index(x, y, tiles.0 as int);
            &&& 0 <= k < 64 * tiles.0 * tiles.1
            &&& small_tile_position(k, 32, tiles) == (x as u32, y as u32)
        }),
{
    reveal(small_tile_position);
    let cols = tiles.0 as int;
    lemma_split_8(x);
    lemma_split_8(y);
    let ytile = y / 8;
    let xtile = x / 8;
    assert(xtile < cols && ytile < tiles.1) by (nonlinear_arith)
        requires
            x == 8 * xtile + (x - 8 * xtile),
            0 <= x - 8 * xtile < 8,
            y == 8 * ytile + (y - 8 * ytile),
            0 <= y - 8 * ytile < 8,
            x < cols * 8,
            y < tiles.1 * 8,
    ;
    let xi = tile_column(ytile, xtile, cols);
    let odd = ytile % 2 == 1;
    let bx = (x % 8) / 4;
    let by = (y % 8) / 4;
    let q = block_visit(odd, bx, by);
    let r = (y % 8) % 4;
    let c = (x % 8) % 4;
    let t = ytile * cols + xi;
    let w = q * 16 + r * 4 + c;
    let k = t * 64 + w;
    assert(k == small_tile_index(x, y, cols));
    assert(0 <= t < cols * tiles.1) by (nonlinear_arith)
        requires
            t == ytile * cols + xi,
            0 <= xi < cols,
            0 <= ytile < tiles.1,
    ;
    assert(0 <= k < 64 * tiles.0 * tiles.1) by (nonlinear_arith)
        requires
            k == t * 64 + w,
            0 <= w < 64,
            0 <= t < cols * tiles.1,
            cols == tiles.0,
    ;
    lemma_fundamental_div_mod_converse(k, 64, t, w);
    lemma_fundamental_div_mod_converse(t, cols, ytile, xi);
    assert(tile_column(ytile, xi, cols) == xtile);
    assert(block_offset(odd, q) == (bx, by));
    lemma_fundamental_div_mod_converse(w, 16, q, r * 4 + c);
    lemma_fundamental_div_mod_converse(r * 4 + c, 4, r, c);
    lemma_fundamental_div_mod_converse(w, 4, q * 4 + r, c);
    lemma_tile_start_8(xtile);
    lemma_tile_start_8(ytile);
}

/// With 32-pixel tiles, the 16 pixels of the full format that start at pixel
/// `16 * k` fill, row by row, the 4 x 4 square that stands for pixel `k` of
/// the reduced format: the square at four times its position.
pub proof fn lemma_full_square_of_small_pixel(k: int, j: int, tiles: (u32, u32))
    requires
        tiles.0 * 32 <= u32::MAX,
        tiles.1 * 32 <= u32::MAX,
        0 <= k < 64 * tiles.0 * tiles.1,
        0 <= j < 16,
    ensures
        ({
            let p = small_tile_position(k, 32, tiles);
            &&& p.0 < tiles.0 * 8
            &&& p.1 < tiles.1 * 8
            &&& tile_position(16 * k + j, 32, tiles) == ((4 * p.0 + j % 4) as u32, (4 * p.1 + j / 4)
                as u32)
        }),
{
    lemma_small_position_then_index(k, tiles);
    reveal(small_tile_position);
    reveal(tile_position);
    let cols = tiles.0 as int;
    lemma_split_tiles(k, 64, tiles);
    let t = k / 64;
    let w = k % 64;
    let ytile = t / cols;
    let xi = t % cols;
    let big = 16 * k + j;
    let v = 16 * w + j;
    assert(big == t * 1024 + v);
    lemma_fundamental_div_mod_converse(big, 1024, t, v);
    let wu = w as u32;
    let ju = j as u32;
    assert(wu < 64 && ju < 16 ==> (16 * wu + ju) / 256 == wu / 16 && ((16 * wu + ju) % 256) / 64 == (
    wu % 16) / 4 && ((16 * wu + ju) % 64) / 16 == wu % 4 && ((16 * wu + ju) % 16) / 4 == ju / 4 && (16
        * wu + ju) % 4 == ju % 4) by (bit_vector);
    let xtile = tile_column(ytile, xi, cols);
    lemma_tile_start_8(xtile);
    lemma_tile_start_8(ytile);
}

} // verus!
