use vstd::prelude::*;
use crate::image::{shorter, ImageTile};
use vstd::arithmetic::div_mod::{
    lemma_div_pos_is_pos,
    lemma_fundamental_div_mod,
    lemma_fundamental_div_mod_converse,
    lemma_mod_bound,
};

verus! {

/// The partition of an image into square tiles that are rendered one by one.
/// Tiles are numbered row by row; those on the right and upper edge may be
/// cut by the image's border.
#[derive(Clone, Copy, Debug)]
pub struct TileGrid {
    pub image_width: u32,
    pub image_height: u32,
    pub tile_size: u32,
}

/// How many pieces of length `piece` it takes to cover `length`.
pub open spec fn pieces(length: int, piece: int) -> int {
    (length + piece - 1) / piece
}

proof fn lemma_pieces(length: int, piece: int)
    requires
        0 <= length,
        0 < piece,
    ensures
        pieces(length, piece) == length / piece + (if length % piece == 0 {
            0int
        } else {
            1int
        }),
        (pieces(length, piece) - 1) * piece < length || length == 0,
        length <= pieces(length, piece) * piece,
        0 <= pieces(length, piece) <= length,
{
    let q = length / piece;
    let r = length % piece;
    lemma_fundamental_div_mod(length, piece);
    lemma_mod_bound(length, piece);
    lemma_div_pos_is_pos(length, piece);
    assert(piece * q == q * piece) by (nonlinear_arith);
    if r == 0 {
        lemma_fundamental_div_mod_converse(length + piece - 1, piece, q, piece - 1);
    } else {
        assert((q + 1) * piece == q * piece + piece) by (nonlinear_arith);
        lemma_fundamental_div_mod_converse(length + piece - 1, piece, q + 1, r - 1);
    }
    assert(q * piece >= q) by (nonlinear_arith)
        requires
            0 <= q,
            1 <= piece,
    ;
    assert(pieces(length, piece) * piece >= length) by (nonlinear_arith)
        requires
            length == q * piece + r,
            0 <= r < piece,
            pieces(length, piece) == q + (if r == 0 {
                0int
            } else {
                1int
            }),
    ;
    assert((pieces(length, piece) - 1) * piece < length || length == 0) by (nonlinear_arith)
        requires
            length == q * piece + r,
            0 <= r < piece,
            0 <= q,
            pieces(length, piece) == q + (if r == 0 {
                0int
            } else {
                1int
            }),
    ;
}

fn pieces_of(length: u32, piece: u32) -> (n: u32)
    requires
        piece > 0,
    ensures
        n == pieces(length as int, piece as int),
{
    proof {
        lemma_pieces(length as int, piece as int);
    }
    if length % piece == 0 {
        length / piece
    } else {
        length / piece + 1
    }
}

impl TileGrid {
    /// The number of tiles in one row of tiles.
    pub open spec fn across(&self) -> int {
        pieces(self.image_width as int, self.tile_size as int)
    }

    /// The number of rows of tiles.
    pub open spec fn down(&self) -> int {
        pieces(self.image_height as int, self.tile_size as int)
    }

    /// The corner of tile number `tile` that is nearest to the image's origin.
    pub open spec fn corner(&self, tile: int) -> (int, int) {
        ((tile % self.across()) * self.tile_size, (tile / self.across()) * self.tile_size)
    }

    /// Whether tile number `tile` holds the image pixel `(x, y)`.
    pub open spec fn holds(&self, tile: int, x: int, y: int) -> bool {
        &&& 0 <= tile < self.across() * self.down()
        &&& 0 <= x < self.image_width
        &&& 0 <= y < self.image_height
        &&& self.corner(tile).0 <= x < self.corner(tile).0 + self.tile_size
        &&& self.corner(tile).1 <= y < self.corner(tile).1 + self.tile_size
    }

    /// The number of the tile that the pixel `(x, y)` falls into.
    pub open spec fn tile_of(&self, x: int, y: int) -> int {
        (y / (self.tile_size as int)) * self.across() + x / (self.tile_size as int)
    }

    /// The grid that cuts an image of the given size into tiles `tile_size`
    /// pixels wide and high.
    pub fn new(image_size: (u32, u32), tile_size: u32) -> (grid: TileGrid)
        requires
            tile_size > 0,
        ensures
            grid.image_width == image_size.0,
            grid.image_height == image_size.1,
            grid.tile_size == tile_size,
    {
        TileGrid { image_width: image_size.0, image_height: image_size.1, tile_size }
    }

    /// How many tiles there are along each axis: enough to cover the image,
    /// and no more.
    pub fn counts(&self) -> (n: (u32, u32))
        requires
            self.tile_size > 0,
        ensures
            n.0 == self.across(),
            n.1 == self.down(),
    {
        (pieces_of(self.image_width, self.tile_size), pieces_of(self.image_height, self.tile_size))
    }

    /// The corner of tile number `tile_index`. It lies inside the image.
    pub fn origin(&self, tile_index: u32) -> (corner: (u32, u32))
        requires
            self.tile_size > 0,
            tile_index < self.across() * self.down(),
        ensures
            corner.0 == self.corner(tile_index as int).0,
            corner.1 == self.corner(tile_index as int).1,
            corner.0 < self.image_width,
            corner.1 < self.image_height,
    {
        let n = self.counts();
        proof {
            self.lemma_corner_inside(tile_index as int);
        }
        ((tile_index % n.0) * self.tile_size, (tile_index / n.0) * self.tile_size)
    }

    proof fn lemma_corner_inside(&self, tile: int)
        requires
            self.tile_size > 0,
            0 <= tile < self.across() * self.down(),
        ensures
            self.across() > 0,
            0 <= tile % self.across() < self.across(),
            0 <= tile / self.across() < self.down(),
            0 <= self.corner(tile).0 < self.image_width,
            0 <= self.corner(tile).1 < self.image_height,
    {
        let nx = self.across();
        let ny = self.down();
        let ts = self.tile_size as int;
        lemma_pieces(self.image_width as int, ts);
        lemma_pieces(self.image_height as int, ts);
        assert(nx > 0 && ny > 0) by (nonlinear_arith)
            requires
                0 <= tile < nx * ny,
                0 <= nx,
                0 <= ny,
        ;
        lemma_fundamental_div_mod(tile, nx);
        lemma_mod_bound(tile, nx);
        let col = tile % nx;
        let row = tile / nx;
        assert(0 <= row < ny) by (nonlinear_arith)
            requires
                tile == nx * row + col,
                0 <= col < nx,
                0 <= tile < nx * ny,
        ;
        assert(0 <= col * ts <= (nx - 1) * ts) by (nonlinear_arith)
            requires
                0 <= col <= nx - 1,
                0 < ts,
        ;
        assert(0 <= row * ts <= (ny - 1) * ts) by (nonlinear_arith)
            requires
                0 <= row <= ny - 1,
                0 < ts,
        ;
    }

    /// A tile that starts at the corner of tile number `tile` and is cut at
    /// the image's border covers the pixels that the grid gives to that
    /// tile, and no others.
    pub proof fn lemma_cut_tile_covers(&self, tile: int, piece: ImageTile, x: int, y: int)
        requires
            self.tile_size > 0,
            0 <= tile < self.across() * self.down(),
            piece.origin.0 == self.corner(tile).0,
            piece.origin.1 == self.corner(tile).1,
            piece.size.0 == shorter(self.tile_size as int, self.image_width - piece.origin.0),
            piece.size.1 == shorter(self.tile_size as int, self.image_height - piece.origin.1),
        ensures
            piece.covers(x, y) <==> self.holds(tile, x, y),
    {
        self.lemma_corner_inside(tile);
    }

    /// Every pixel of the image lies in the tile that `tile_of` names.
    pub proof fn lemma_every_pixel_in_a_tile(&self, x: int, y: int)
        requires
            self.tile_size > 0,
            0 <= x < self.image_width,
            0 <= y < self.image_height,
        ensures
            self.holds(self.tile_of(x, y), x, y),
    {
        let nx = self.across();
        let ny = self.down();
        let ts = self.tile_size as int;
        lemma_pieces(self.image_width as int, ts);
        lemma_pieces(self.image_height as int, ts);
        let col = x / ts;
        let row = y / ts;
        lemma_fundamental_div_mod(x, ts);
        lemma_fundamental_div_mod(y, ts);
        lemma_mod_bound(x, ts);
        lemma_mod_bound(y, ts);
        lemma_div_pos_is_pos(x, ts);
        lemma_div_pos_is_pos(y, ts);
        assert(col < nx) by (nonlinear_arith)
            requires
                x == ts * col + x % ts,
                0 <= x % ts,
                x < nx * ts,
                0 < ts,
        ;
        assert(row < ny) by (nonlinear_arith)
            requires
                y == ts * row + y % ts,
                0 <= y % ts,
                y < ny * ts,
                0 < ts,
        ;
        let t = row * nx + col;
        assert(nx * row == row * nx) by (nonlinear_arith);
        lemma_fundamental_div_mod_converse(t, nx, row, col);
        assert(0 <= t < nx * ny) by (nonlinear_arith)
            requires
                t == row * nx + col,
                0 <= col < nx,
                0 <= row < ny,
        ;
        assert(ts * col == col * ts) by (nonlinear_arith);
        assert(ts * row == row * ts) by (nonlinear_arith);
    }

    /// No pixel lies in two tiles: a tile that holds a pixel is the one that
    /// `tile_of` names.
    pub proof fn lemma_tiles_do_not_overlap(&self, tile: int, x: int, y: int)
        requires
            self.tile_size > 0,
            self.holds(tile, x, y),
        ensures
            tile == self.tile_of(x, y),
    {
        let nx = self.across();
        let ts = self.tile_size as int;
        self.lemma_corner_inside(tile);
        let col = tile % nx;
        let row = tile / nx;
        lemma_fundamental_div_mod(tile, nx);
        assert(ts * col == col * ts) by (nonlinear_arith);
        assert(ts * row == row * ts) by (nonlinear_arith);
        lemma_fundamental_div_mod_converse(x, ts, col, x - col * ts);
        lemma_fundamental_div_mod_converse(y, ts, row, y - row * ts);
        assert(nx * row == row * nx) by (nonlinear_arith);
    }
}

} // verus!
