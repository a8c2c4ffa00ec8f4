use vstd::prelude::*;
use glam::DVec3;
use crate::colour::{black, is_black};

verus! {

/// A rectangular buffer of linear RGB colours, stored row by row.
#[derive(Debug)]
pub struct Image {
    pub size: (u32, u32),
    pub data: Vec<DVec3>,
}

/// A rectangular part of an image that is rendered on its own and merged back.
pub struct ImageTile {
    pub origin: (u32, u32),
    pub size: (u32, u32),
    pub pixels: Vec<DVec3>,
}

/// The position in a row-major buffer of rows `width` wide of the pixel in
/// column `x` of row `y`.
pub open spec fn pixel_index(width: u32, x: u32, y: u32) -> int {
    y * width + x
}

/// The smaller of two lengths.
pub open spec fn shorter(a: int, b: int) -> int {
    if a < b {
        a
    } else {
        b
    }
}

proof fn lemma_index_bound(width: u32, x: u32, y: u32)
    ensures
        0 <= y * width,
        y * width + x <= u64::MAX,
{
    assert(0 <= y * width <= 0xffff_ffff * 0xffff_ffff) by (nonlinear_arith)
        requires
            0 <= y <= 0xffff_ffff,
            0 <= width <= 0xffff_ffff,
    ;
}

proof fn lemma_row_major(width: int, height: int, x: int, y: int)
    requires
        0 <= x < width,
        0 <= y < height,
    ensures
        0 <= y * width + x < width * height,
        (y * width + x) % width == x,
        (y * width + x) / width == y,
{
    assert(0 <= y * width && y * width + width <= height * width) by (nonlinear_arith)
        requires
            0 <= y < height,
            0 < width,
    ;
    assert(height * width == width * height) by (nonlinear_arith);
    vstd::arithmetic::div_mod::lemma_fundamental_div_mod_converse(y * width + x, width, y, x);
}

impl ImageTile {
    /// The tile holds one colour for each of its pixels, and a 32-bit number
    /// can count them.
    pub open spec fn wf(&self) -> bool {
        &&& self.pixels@.len() == self.size.0 * self.size.1
        &&& self.size.0 * self.size.1 <= u32::MAX
    }

    /// The tile lies inside an image of the given size.
    pub open spec fn fits(&self, image_size: (u32, u32)) -> bool {
        &&& self.origin.0 + self.size.0 <= image_size.0
        &&& self.origin.1 + self.size.1 <= image_size.1
    }

    /// Whether the image pixel `(x, y)` belongs to the tile.
    pub open spec fn covers(&self, x: int, y: int) -> bool {
        &&& self.origin.0 <= x < self.origin.0 + self.size.0
        &&& self.origin.1 <= y < self.origin.1 + self.size.1
    }

    /// The number of the tile's pixel that shows the image pixel `(x, y)`.
    pub open spec fn offset_of(&self, x: int, y: int) -> int {
        (y - self.origin.1) * self.size.0 + (x - self.origin.0)
    }

    /// The colour at `(x, y)` once the tile lies over the image `under`: the
    /// tile's own where it covers the pixel, the image's elsewhere.
    pub open spec fn laid_over(&self, under: Image, x: int, y: int) -> DVec3 {
        if self.covers(x, y) {
            self.pixels@[self.offset_of(x, y)]
        } else {
            under.pixel(x, y)
        }
    }

    /// The tile's pixels are numbered as `get_xy` places them: pixel number
    /// `index` shows the image pixel that `get_xy` gives for it, which the
    /// tile covers, and merging the tile writes it there.
    pub proof fn lemma_numbering(&self, index: int)
        requires
            0 <= index < self.size.0 * self.size.1,
        ensures
            self.size.0 > 0,
            self.covers(index % (self.size.0 as int) + self.origin.0, index / (self.size.0 as int) + self.origin.1),
            self.offset_of(
                index % (self.size.0 as int) + self.origin.0,
                index / (self.size.0 as int) + self.origin.1,
            ) == index,
    {
        let w = self.size.0 as int;
        let h = self.size.1 as int;
        assert(w > 0) by (nonlinear_arith)
            requires
                0 <= index < w * h,
                0 <= w,
                0 <= h,
        ;
        vstd::arithmetic::div_mod::lemma_fundamental_div_mod(index, w);
        vstd::arithmetic::div_mod::lemma_mod_bound(index, w);
        assert(0 <= index / w < h) by (nonlinear_arith)
            requires
                0 <= index < w * h,
                0 < w,
                index == w * (index / w) + (index % w),
                0 <= index % w < w,
        ;
        assert((index / w) * w == w * (index / w)) by (nonlinear_arith);
    }

    /// The image coordinates of the tile's pixel number `index`, counted row
    /// by row from the tile's origin.
    pub fn get_xy(&self, index: u32) -> (xy: (u32, u32))
        requires
            self.size.0 > 0,
            index % self.size.0 + self.origin.0 <= u32::MAX,
            index / self.size.0 + self.origin.1 <= u32::MAX,
        ensures
            xy.0 == index % self.size.0 + self.origin.0,
            xy.1 == index / self.size.0 + self.origin.1,
    {
        ((index % self.size.0) + self.origin.0, (index / self.size.0) + self.origin.1)
    }
}

impl Clone for Image {
    /// A copy with the same size and the same colour at every position.
    fn clone(&self) -> (copy: Image)
        ensures
            copy.size == self.size,
            copy.data@ == self.data@,
    {
        let mut data: Vec<DVec3> = Vec::with_capacity(self.data.len());
        let mut i: usize = 0;
        while i < self.data.len()
            invariant
                i <= self.data@.len(),
                data@ == self.data@.take(i as int),
            decreases self.data@.len() - i,
        {
            data.push(self.data[i]);
            i = i + 1;
            assert(data@ == self.data@.take(i as int));
        }
        assert(self.data@.take(i as int) == self.data@);
        Image { size: self.size, data }
    }
}

impl Image {
    /// The buffer holds one colour for each pixel.
    pub open spec fn wf(&self) -> bool {
        self.data@.len() == self.size.0 * self.size.1
    }

    /// The colour stored for the pixel in column `x` of row `y`.
    pub open spec fn pixel(&self, x: int, y: int) -> DVec3 {
        self.data@[y * self.size.0 + x]
    }

    /// A black image of the given size.
    pub fn new(size: (u32, u32)) -> (img: Image)
        requires
            size.0 * size.1 <= usize::MAX,
        ensures
            img.size == size,
            img.wf(),
            forall|i: int| 0 <= i < img.data@.len() ==> is_black(#[trigger] img.data@[i]),
    {
        let capacity: usize = size.0 as usize * size.1 as usize;
        let mut data: Vec<DVec3> = Vec::with_capacity(capacity);
        let mut i: usize = 0;
        while i < capacity
            invariant
                i <= capacity,
                data@.len() == i,
                forall|j: int| 0 <= j < i ==> is_black(#[trigger] data@[j]),
            decreases capacity - i,
        {
            data.push(black());
            i = i + 1;
        }
        Image { size, data }
    }

    /// The colour at `(x, y)`, or nothing where the row-major position of
    /// `(x, y)` lies past the end of the buffer.
    pub fn get(&self, x: u32, y: u32) -> (colour: Option<&DVec3>)
        ensures
            pixel_index(self.size.0, x, y) < self.data@.len() ==> colour == Some(
                &self.data@[pixel_index(self.size.0, x, y)],
            ),
            pixel_index(self.size.0, x, y) >= self.data@.len() ==> colour.is_none(),
    {
        proof {
            lemma_index_bound(self.size.0, x, y);
        }
        let index: u64 = y as u64 * self.size.0 as u64 + x as u64;
        if index < self.data.len() as u64 {
            Some(&self.data[index as usize])
        } else {
            None
        }
    }

    /// Stores `colour` at `(x, y)` and leaves every other pixel as it was.
    pub fn put(&mut self, x: u32, y: u32, colour: &DVec3)
        requires
            pixel_index(old(self).size.0, x, y) < old(self).data@.len(),
        ensures
            final(self).size == old(self).size,
            final(self).data@ == old(self).data@.update(
                pixel_index(old(self).size.0, x, y),
                *colour,
            ),
    {
        proof {
            lemma_index_bound(self.size.0, x, y);
        }
        let index: u64 = y as u64 * self.size.0 as u64 + x as u64;
        let len: usize = self.data.len();
        assert(index < len);
        self.data.set(index as usize, *colour);
    }

    /// An all-black tile with its corner at `origin`, of the given size, cut
    /// where it would reach past the image's right or upper edge.
    pub fn get_tile(&self, origin: (u32, u32), size: (u32, u32)) -> (tile: ImageTile)
        requires
            origin.0 <= self.size.0,
            origin.1 <= self.size.1,
            shorter(size.0 as int, self.size.0 - origin.0) * shorter(
                size.1 as int,
                self.size.1 - origin.1,
            ) <= u32::MAX,
        ensures
            tile.origin == origin,
            tile.size.0 == shorter(size.0 as int, self.size.0 - origin.0),
            tile.size.1 == shorter(size.1 as int, self.size.1 - origin.1),
            tile.wf(),
            tile.fits(self.size),
            forall|i: int| 0 <= i < tile.pixels@.len() ==> is_black(#[trigger] tile.pixels@[i]),
    {
        let room_x: u32 = self.size.0 - origin.0;
        let room_y: u32 = self.size.1 - origin.1;
        let actual_width: u32 = if size.0 < room_x {
            size.0
        } else {
            room_x
        };
        let actual_height: u32 = if size.1 < room_y {
            size.1
        } else {
            room_y
        };
        let area: u32 = actual_width * actual_height;
        let mut pixels: Vec<DVec3> = Vec::new();
        let mut i: u32 = 0;
        while i < area
            invariant
                i <= area,
                pixels@.len() == i,
                forall|j: int| 0 <= j < i ==> is_black(#[trigger] pixels@[j]),
            decreases area - i,
        {
            pixels.push(black());
            i = i + 1;
        }
        ImageTile { origin, size: (actual_width, actual_height), pixels }
    }

    /// Writes the tile's pixels over the part of the image that the tile
    /// covers. Pixels outside the tile keep their colour.
    pub fn merge_tile(&mut self, tile: ImageTile)
        requires
            old(self).wf(),
            tile.wf(),
            tile.fits(old(self).size),
        ensures
            final(self).size == old(self).size,
            final(self).wf(),
            forall|x: int, y: int|
                0 <= x < old(self).size.0 && 0 <= y < old(self).size.1
                    ==> #[trigger] final(self).pixel(x, y) == tile.laid_over(*old(self), x, y),
    {
        let ghost before = self.data@;
        let ghost width = self.size.0 as int;
        let ghost height = self.size.1 as int;
        proof {
            assert(0 <= tile.size.0 * tile.size.1 <= width * height) by (nonlinear_arith)
                requires
                    0 <= tile.size.0 <= width,
                    0 <= tile.size.1 <= height,
            ;
        }
        let tile_size: usize = tile.pixels.len();
        let mut i: usize = 0;
        while i < tile_size
            invariant
                i <= tile_size,
                tile_size == tile.size.0 * tile.size.1,
                tile.wf(),
                tile.fits(self.size),
                self.size == old(self).size,
                width == self.size.0,
                height == self.size.1,
                before == old(self).data@,
                self.data@.len() == width * height,
                before.len() == width * height,
                forall|p: int|
                    0 <= p < width * height ==> #[trigger] self.data@[p] == merged_at(
                        before,
                        width,
                        tile,
                        i as int,
                        p,
                    ),
            decreases tile_size - i,
        {
            let ghost tw = tile.size.0 as int;
            let ghost th = tile.size.1 as int;
            proof {
                tile.lemma_numbering(i as int);
            }
            let (x, y) = tile.get_xy(i as u32);
            proof {
                lemma_row_major(width, height, x as int, y as int);
            }
            let ghost q = pixel_index(self.size.0, x, y);
            let ghost prev = self.data@;
            self.put(x, y, &tile.pixels[i]);
            proof {
                assert(tile.offset_of(x as int, y as int) == i);
                assert forall|p: int| 0 <= p < width * height implies #[trigger] self.data@[p]
                    == merged_at(before, width, tile, i + 1, p) by {
                    let px = p % width;
                    let py = p / width;
                    vstd::arithmetic::div_mod::lemma_fundamental_div_mod(p, width);
                    assert(prev[p] == merged_at(before, width, tile, i as int, p));
                    if p == q {
                        assert(px == x && py == y);
                    } else {
                        if tile.covers(px, py) {
                            lemma_row_major(tw, th, px - tile.origin.0, py - tile.origin.1);
                            if tile.offset_of(px, py) == i {
                                assert(px == x && py == y);
                                assert(p == width * py + px);
                                assert(width * py == py * width) by (nonlinear_arith);
                                assert(false);
                            }
                        }
                    }
                }
            }
            i = i + 1;
        }
        proof {
            assert forall|x: int, y: int|
                0 <= x < old(self).size.0 && 0 <= y < old(self).size.1
                implies #[trigger] self.pixel(x, y) == tile.laid_over(*old(self), x, y) by {
                lemma_row_major(width, height, x, y);
                let p = y * width + x;
                assert(self.data@[p] == merged_at(before, width, tile, i as int, p));
                if tile.covers(x, y) {
                    lemma_row_major(
                        tile.size.0 as int,
                        tile.size.1 as int,
                        x - tile.origin.0,
                        y - tile.origin.1,
                    );
                }
            }
        }
    }

    /// The colour of the texel `(x, y)`, where a coordinate past the last
    /// column or row is read as the last one.
    pub fn texel(&self, x: u32, y: u32) -> (colour: DVec3)
        requires
            self.wf(),
            self.size.0 > 0,
            self.size.1 > 0,
        ensures
            colour == self.pixel(
                shorter(x as int, self.size.0 - 1),
                shorter(y as int, self.size.1 - 1),
            ),
    {
        let cx: u32 = if x < self.size.0 - 1 {
            x
        } else {
            self.size.0 - 1
        };
        let cy: u32 = if y < self.size.1 - 1 {
            y
        } else {
            self.size.1 - 1
        };
        proof {
            lemma_row_major(self.size.0 as int, self.size.1 as int, cx as int, cy as int);
        }
        *self.get(cx, cy).unwrap()
    }
}

/// What the image position `p` shows once the first `done` pixels of `tile`
/// have been written over `before`, an image with rows `width` wide.
pub open spec fn merged_at(
    before: Seq<DVec3>,
    width: int,
    tile: ImageTile,
    done: int,
    p: int,
) -> DVec3 {
    let x = p % width;
    let y = p / width;
    if tile.covers(x, y) && tile.offset_of(x, y) < done {
        tile.pixels@[tile.offset_of(x, y)]
    } else {
        before[p]
    }
}

} // verus!
