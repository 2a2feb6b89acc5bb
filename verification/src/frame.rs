//! The finished image, and how the tiles are joined into it.
//!
//! A frame stores its pixels row after row, three bytes each, with the row
//! of the highest `y` first: the picture's top row opens the buffer.

use crate::color::{
    channels_at, lemma_pixel_offset_bounds, lemma_pixel_offsets_apart, lemma_store_then_load, load,
    offset_in_rows, pixel_offset, store, with_channels_at, Rgb, CHANNELS,
};
use crate::grid::index_at;
use crate::partition::{is_partition, lemma_pixel_held, lemma_tile_holds};
use crate::tile::Tile;
use vstd::arithmetic::div_mod::{lemma_fundamental_div_mod, lemma_mod_bound};
use vstd::prelude::*;

verus! {

/// An image of `width` by `height` pixels in one buffer.
pub struct Framebuffer {
    width: usize,
    height: usize,
    data: Vec<u8>,
}

impl Framebuffer {
    /// Pixels in a row.
    pub closed spec fn spec_width(&self) -> usize {
        self.width
    }

    /// Rows in the image.
    pub closed spec fn spec_height(&self) -> usize {
        self.height
    }

    /// The bytes of the image.
    pub closed spec fn view(&self) -> Seq<u8> {
        self.data@
    }

    /// The buffer has three bytes for each pixel.
    #[verifier::type_invariant]
    pub open spec fn wf(self) -> bool {
        self@.len() == self.width() * self.height() * CHANNELS
    }

    /// Whether `(x, y)` is a pixel of the image.
    pub open spec fn holds(&self, x: int, y: int) -> bool {
        &&& 0 <= x < self.width()
        &&& 0 <= y < self.height()
    }

    /// Byte of the buffer at which pixel `(x, y)` starts.
    pub open spec fn offset_of(&self, x: int, y: int) -> int {
        pixel_offset(self.width() as int, self.height() - y - 1, x)
    }

    /// Colour that the image holds for pixel `(x, y)`.
    pub open spec fn pixel(&self, x: int, y: int) -> Rgb {
        channels_at(self@, self.offset_of(x, y))
    }

    /// Each pixel of the image has three bytes of the buffer, and no two
    /// pixels share a byte.
    pub proof fn lemma_offsets(self, x: int, y: int, x2: int, y2: int)
        requires
            self.wf(),
            self.holds(x, y),
            self.holds(x2, y2),
        ensures
            0 <= self.offset_of(x, y),
            self.offset_of(x, y) + CHANNELS <= self@.len(),
            x != x2 || y != y2 ==> self.offset_of(x, y) + CHANNELS <= self.offset_of(x2, y2)
                || self.offset_of(x2, y2) + CHANNELS <= self.offset_of(x, y),
    {
        let width = self.width() as int;
        let height = self.height() as int;
        lemma_pixel_offset_bounds(width, height, height - y - 1, x);
        assert(height * width == width * height) by (nonlinear_arith);
        if x != x2 || y != y2 {
            lemma_pixel_offsets_apart(width, height - y - 1, x, height - y2 - 1, x2);
        }
    }

    /// The pixel to which byte `k` of the buffer belongs: three bytes to a
    /// pixel, `width` pixels to a row, and the top row first.
    pub open spec fn pixel_of_byte(&self, k: int) -> (int, int) {
        let slot = k / (CHANNELS as int);
        (slot % (self.width() as int), self.height() - 1 - slot / (self.width() as int))
    }

    /// Every byte of the buffer is one channel of one pixel of the image.
    pub proof fn lemma_byte_is_channel(self, k: int)
        requires
            self.wf(),
            0 <= k < self@.len(),
        ensures
            self.holds(self.pixel_of_byte(k).0, self.pixel_of_byte(k).1),
            self.offset_of(self.pixel_of_byte(k).0, self.pixel_of_byte(k).1) <= k
                < self.offset_of(self.pixel_of_byte(k).0, self.pixel_of_byte(k).1) + CHANNELS,
    {
        let width = self.width() as int;
        let height = self.height() as int;
        let slot = k / (CHANNELS as int);
        assert(width > 0 && slot < width * height) by (nonlinear_arith)
            requires
                0 <= k < width * height * 3,
                slot == k / 3,
                width >= 0,
                height >= 0,
        ;
        lemma_fundamental_div_mod(slot, width);
        lemma_mod_bound(slot, width);
        let row = slot / width;
        assert(width * row == row * width) by (nonlinear_arith);
        assert(0 <= row < height) by (nonlinear_arith)
            requires
                0 <= slot < width * height,
                slot == row * width + slot % width,
                0 <= slot % width < width,
        ;
    }

    /// Makes an image that is black all over.
    pub fn new(width: usize, height: usize) -> (frame: Framebuffer)
        requires
            width * height * CHANNELS <= usize::MAX,
        ensures
            frame.wf(),
            frame.width() == width,
            frame.height() == height,
            forall|k: int| 0 <= k < frame@.len() ==> frame@[k] == 0,
    {
        assert(width * height <= width * height * CHANNELS) by (nonlinear_arith);
        let size: usize = width * height * CHANNELS;
        Framebuffer { width, height, data: vec![0u8; size] }
    }

    #[verifier::when_used_as_spec(spec_width)]
    pub fn width(&self) -> (r: usize)
        ensures
            r == self.width(),
    {
        self.width
    }

    #[verifier::when_used_as_spec(spec_height)]
    pub fn height(&self) -> (r: usize)
        ensures
            r == self.height(),
    {
        self.height
    }

    /// The image's buffer.
    pub fn bytes(&self) -> (bytes: &Vec<u8>)
        ensures
            bytes@ == self@,
    {
        &self.data
    }

    /// Gives the buffer away.
    pub fn into_bytes(self) -> (bytes: Vec<u8>)
        ensures
            bytes@ == self@,
    {
        self.data
    }

    fn offset(&self, x: usize, y: usize) -> (at: usize)
        requires
            self.holds(x as int, y as int),
        ensures
            at == self.offset_of(x as int, y as int),
            at + CHANNELS <= self@.len(),
    {
        proof {
            use_type_invariant(self);
            self.lemma_offsets(x as int, y as int, x as int, y as int);
            assert(self@.len() == self.data.len());
        }
        offset_in_rows(self.width, self.height - y - 1, x)
    }

    /// Reads the colour of pixel `(x, y)`.
    pub fn get_pixel(&self, x: usize, y: usize) -> (color: Rgb)
        requires
            self.holds(x as int, y as int),
        ensures
            color == self.pixel(x as int, y as int),
    {
        let at: usize = self.offset(x, y);
        load(&self.data, at)
    }

    /// Sets the colour of pixel `(x, y)`. The three bytes of that pixel
    /// change and nothing else does: every other pixel keeps its colour.
    pub fn put_pixel(&mut self, x: usize, y: usize, color: Rgb)
        requires
            old(self).holds(x as int, y as int),
        ensures
            final(self).wf(),
            final(self).width() == old(self).width(),
            final(self).height() == old(self).height(),
            final(self)@ == with_channels_at(
                old(self)@,
                old(self).offset_of(x as int, y as int),
                color,
            ),
            final(self).pixel(x as int, y as int) == color,
            forall|u: int, v: int|
                final(self).holds(u, v) && (u != x || v != y) ==> #[trigger] final(self).pixel(u, v)
                    == old(self).pixel(u, v),
    {
        proof {
            use_type_invariant(&*self);
        }
        let at: usize = self.offset(x, y);
        store(&mut self.data, at, color);
        proof {
            lemma_store_then_load(old(self)@, at as int, color, at as int);
            assert forall|u: int, v: int|
                self.holds(u, v) && (u != x || v != y) implies #[trigger] self.pixel(u, v) == old(
                self,
            ).pixel(u, v) by {
                old(self).lemma_offsets(x as int, y as int, u, v);
                old(self).lemma_offsets(u, v, x as int, y as int);
                lemma_store_then_load(old(self)@, at as int, color, old(self).offset_of(u, v));
            }
        }
    }

    /// Copies every pixel of `tile` to its place in the image. Pixels that
    /// the tile does not hold keep their colour.
    pub fn blit(&mut self, tile: &Tile)
        requires
            tile.x_max() <= old(self).width(),
            tile.y_max() <= old(self).height(),
        ensures
            final(self).wf(),
            final(self).width() == old(self).width(),
            final(self).height() == old(self).height(),
            forall|u: int, v: int|
                tile.covers(u, v) ==> #[trigger] final(self).pixel(u, v) == tile.pixel(u, v),
            forall|u: int, v: int|
                final(self).holds(u, v) && !tile.covers(u, v) ==> #[trigger] final(self).pixel(u, v)
                    == old(self).pixel(u, v),
    {
        proof {
            use_type_invariant(&*self);
            use_type_invariant(tile);
        }
        let x_min: usize = tile.x_min();
        let x_max: usize = tile.x_max();
        let y_min: usize = tile.y_min();
        let y_max: usize = tile.y_max();
        let mut y: usize = y_min;
        while y < y_max
            invariant
                x_min == tile.x_min(),
                x_max == tile.x_max(),
                y_min == tile.y_min(),
                y_max == tile.y_max(),
                y_min <= y <= y_max,
                x_min < x_max,
                x_max <= self.width(),
                y_max <= self.height(),
                self.wf(),
                self.width() == old(self).width(),
                self.height() == old(self).height(),
                forall|u: int, v: int|
                    tile.covers(u, v) && v < y ==> #[trigger] self.pixel(u, v) == tile.pixel(u, v),
                forall|u: int, v: int|
                    self.holds(u, v) && !(tile.covers(u, v) && v < y) ==> #[trigger] self.pixel(u, v)
                        == old(self).pixel(u, v),
            decreases y_max - y,
        {
            let mut x: usize = x_min;
            while x < x_max
                invariant
                    x_min == tile.x_min(),
                    x_max == tile.x_max(),
                    y_min == tile.y_min(),
                    y_max == tile.y_max(),
                    y_min <= y < y_max,
                    x_min <= x <= x_max,
                    x_max <= self.width(),
                    y_max <= self.height(),
                    self.wf(),
                    self.width() == old(self).width(),
                    self.height() == old(self).height(),
                    forall|u: int, v: int|
                        tile.covers(u, v) && (v < y || (v == y && u < x)) ==> #[trigger] self.pixel(
                            u,
                            v,
                        ) == tile.pixel(u, v),
                    forall|u: int, v: int|
                        self.holds(u, v) && !(tile.covers(u, v) && (v < y || (v == y && u < x)))
                            ==> #[trigger] self.pixel(u, v) == old(self).pixel(u, v),
                decreases x_max - x,
            {
                let color: Rgb = tile.get_pixel(x, y);
                self.put_pixel(x, y, color);
                x = x + 1;
            }
            y = y + 1;
        }
    }
}

/// Colour of pixel `(x, y)` once `tiles` have been copied onto a black
/// image one after another: that of the last tile that holds the pixel,
/// and black where none does.
pub open spec fn painted(tiles: Seq<Tile>, x: int, y: int) -> Rgb
    decreases tiles.len(),
{
    if tiles.len() == 0 {
        Rgb { r: 0, g: 0, b: 0 }
    } else if tiles.last().covers(x, y) {
        tiles.last().pixel(x, y)
    } else {
        painted(tiles.drop_last(), x, y)
    }
}

/// Joins the tiles into one image of `width` by `height` pixels.
pub fn assemble(tiles: &Vec<Tile>, width: usize, height: usize) -> (frame: Framebuffer)
    requires
        width * height * CHANNELS <= usize::MAX,
        forall|i: int|
            0 <= i < tiles@.len() ==> (#[trigger] tiles@[i]).x_max() <= width && tiles@[i].y_max()
                <= height,
    ensures
        frame.wf(),
        frame.width() == width,
        frame.height() == height,
        forall|x: int, y: int|
            frame.holds(x, y) ==> #[trigger] frame.pixel(x, y) == painted(tiles@, x, y),
{
    let mut frame = Framebuffer::new(width, height);
    proof {
        assert forall|x: int, y: int| frame.holds(x, y) implies #[trigger] frame.pixel(x, y)
            == painted(tiles@.take(0), x, y) by {
            frame.lemma_offsets(x, y, x, y);
        }
    }
    let mut i: usize = 0;
    while i < tiles.len()
        invariant
            i <= tiles@.len(),
            frame.wf(),
            frame.width() == width,
            frame.height() == height,
            forall|j: int|
                0 <= j < tiles@.len() ==> (#[trigger] tiles@[j]).x_max() <= width
                    && tiles@[j].y_max() <= height,
            forall|x: int, y: int|
                frame.holds(x, y) ==> #[trigger] frame.pixel(x, y) == painted(
                    tiles@.take(i as int),
                    x,
                    y,
                ),
        decreases tiles@.len() - i,
    {
        frame.blit(&tiles[i]);
        proof {
            let grown = tiles@.take(i + 1);
            assert(grown.drop_last() == tiles@.take(i as int));
            assert(grown.last() == tiles@[i as int]);
        }
        i = i + 1;
    }
    proof {
        assert(tiles@.take(i as int) == tiles@);
    }
    frame
}

proof fn lemma_painted_take(tiles: Seq<Tile>, n: int, i: int, x: int, y: int)
    requires
        0 <= i < n <= tiles.len(),
        tiles[i].covers(x, y),
        forall|j: int| i < j < n ==> !#[trigger] tiles[j].covers(x, y),
    ensures
        painted(tiles.take(n), x, y) == tiles[i].pixel(x, y),
    decreases n,
{
    let front = tiles.take(n);
    assert(front.last() == tiles[n - 1]);
    assert(front.drop_last() == tiles.take(n - 1));
    if i < n - 1 {
        lemma_painted_take(tiles, n - 1, i, x, y);
    }
}

/// A pixel of the joined image comes from the last tile that holds it.
/// Where tiles share no pixel, as the tiles of a partition do, the order in
/// which they are joined therefore makes no difference.
pub proof fn lemma_painted_by_last_holder(tiles: Seq<Tile>, i: int, x: int, y: int)
    requires
        0 <= i < tiles.len(),
        tiles[i].covers(x, y),
        forall|j: int| i < j < tiles.len() ==> !#[trigger] tiles[j].covers(x, y),
    ensures
        painted(tiles, x, y) == tiles[i].pixel(x, y),
{
    lemma_painted_take(tiles, tiles.len() as int, i, x, y);
    assert(tiles.take(tiles.len() as int) == tiles);
}

/// Where the tiles are a partition of the image, each pixel of the joined
/// image comes from the one tile that holds it.
pub proof fn lemma_painted_partition(
    tiles: Seq<Tile>,
    width: int,
    height: int,
    edge: int,
    x: int,
    y: int,
)
    requires
        edge > 0,
        is_partition(tiles, width, height, edge),
        0 <= x < width,
        0 <= y < height,
    ensures
        0 <= index_at(x, y, width, edge) < tiles.len(),
        tiles[index_at(x, y, width, edge)].covers(x, y),
        painted(tiles, x, y) == tiles[index_at(x, y, width, edge)].pixel(x, y),
{
    let i = index_at(x, y, width, edge);
    lemma_pixel_held(tiles, width, height, edge, x, y);
    assert forall|j: int| i < j < tiles.len() implies !#[trigger] tiles[j].covers(x, y) by {
        if tiles[j].covers(x, y) {
            lemma_tile_holds(tiles, width, height, edge, j, x, y);
        }
    }
    lemma_painted_by_last_holder(tiles, i, x, y);
}

/// Two images of one size that agree in every pixel agree in every byte:
/// what an image holds is settled by its pixels alone.
pub proof fn lemma_equal_pixels_equal_bytes(first: Framebuffer, second: Framebuffer)
    requires
        first.wf(),
        second.wf(),
        first.width() == second.width(),
        first.height() == second.height(),
        forall|x: int, y: int|
            first.holds(x, y) ==> #[trigger] first.pixel(x, y) == second.pixel(x, y),
    ensures
        first@ == second@,
{
    assert forall|k: int| 0 <= k < first@.len() implies first@[k] == second@[k] by {
        let (x, y) = first.pixel_of_byte(k);
        first.lemma_byte_is_channel(k);
        assert(first.pixel(x, y) == second.pixel(x, y));
    }
    assert(first@ =~= second@);
}

/// Whether two rows of tiles are alike: as many tiles, each over the same
/// rectangle as its partner and with the same colour in every pixel.
pub open spec fn tiles_alike(first: Seq<Tile>, second: Seq<Tile>) -> bool {
    &&& first.len() == second.len()
    &&& forall|i: int, x: int, y: int|
        0 <= i < first.len() ==> #[trigger] first[i].covers(x, y) == second[i].covers(x, y) && (
        first[i].covers(x, y) ==> first[i].pixel(x, y) == second[i].pixel(x, y))
}

/// Tiles that are alike paint every pixel alike.
pub proof fn lemma_painted_alike(first: Seq<Tile>, second: Seq<Tile>, x: int, y: int)
    requires
        tiles_alike(first, second),
    ensures
        painted(first, x, y) == painted(second, x, y),
    decreases first.len(),
{
    if first.len() > 0 {
        let last = first.len() - 1;
        assert(first[last].covers(x, y) == second[last].covers(x, y));
        if !first.last().covers(x, y) {
            assert forall|i: int, u: int, v: int| 0 <= i < first.drop_last().len() implies (
            #[trigger] first.drop_last()[i].covers(u, v)) == second.drop_last()[i].covers(u, v) && (
            first.drop_last()[i].covers(u, v) ==> first.drop_last()[i].pixel(u, v)
                == second.drop_last()[i].pixel(u, v)) by {
                assert(first[i].covers(u, v) == second[i].covers(u, v));
            }
            lemma_painted_alike(first.drop_last(), second.drop_last(), x, y);
        }
    }
}

/// Joining repeats itself. Two images of one size, each joined from its own
/// tiles, are the same byte for byte where the tiles are alike.
pub proof fn lemma_join_repeats(
    first: Framebuffer,
    second: Framebuffer,
    first_tiles: Seq<Tile>,
    second_tiles: Seq<Tile>,
)
    requires
        first.wf(),
        second.wf(),
        first.width() == second.width(),
        first.height() == second.height(),
        forall|x: int, y: int|
            first.holds(x, y) ==> #[trigger] first.pixel(x, y) == painted(first_tiles, x, y),
        forall|x: int, y: int|
            second.holds(x, y) ==> #[trigger] second.pixel(x, y) == painted(second_tiles, x, y),
        tiles_alike(first_tiles, second_tiles),
    ensures
        first@ == second@,
{
    assert forall|x: int, y: int| first.holds(x, y) implies #[trigger] first.pixel(x, y)
        == second.pixel(x, y) by {
        lemma_painted_alike(first_tiles, second_tiles, x, y);
        assert(second.holds(x, y));
        assert(second.pixel(x, y) == painted(second_tiles, x, y));
    }
    lemma_equal_pixels_equal_bytes(first, second);
}

} // verus!
