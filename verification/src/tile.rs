//! One tile: a rectangle of the image with a pixel buffer of its own.

use crate::color::{
    channels_at, lemma_pixel_offset_bounds, lemma_pixel_offsets_apart, lemma_store_then_load, load,
    offset_in_rows, pixel_offset, store, with_channels_at, Rgb, CHANNELS,
};
use crate::random::{lemma_word_is_all, RngXorShift};
use vstd::arithmetic::div_mod::{lemma_fundamental_div_mod, lemma_mod_bound};
use vstd::prelude::*;

verus! {

/// A rectangle of the image `x_min..x_max` by `y_min..y_max`, at most `edge`
/// pixels wide and high, with a buffer of its own for `edge` rows of `edge`
/// pixels.
pub struct Tile {
    y_min: usize,
    y_max: usize,
    x_min: usize,
    x_max: usize,
    edge: usize,
    data: Vec<u8>,
}

impl Tile {
    /// First column of the tile.
    pub closed spec fn spec_x_min(&self) -> usize {
        self.x_min
    }

    /// One past the last column of the tile.
    pub closed spec fn spec_x_max(&self) -> usize {
        self.x_max
    }

    /// First row of the tile.
    pub closed spec fn spec_y_min(&self) -> usize {
        self.y_min
    }

    /// One past the last row of the tile.
    pub closed spec fn spec_y_max(&self) -> usize {
        self.y_max
    }

    /// Side of the square for which the buffer has room.
    pub closed spec fn spec_edge(&self) -> usize {
        self.edge
    }

    /// The bytes of the tile's buffer.
    pub closed spec fn view(&self) -> Seq<u8> {
        self.data@
    }

    /// A tile is not empty, no larger than `edge` either way, and owns
    /// three bytes for each of `edge * edge` pixels.
    #[verifier::type_invariant]
    pub open spec fn wf(self) -> bool {
        &&& self.x_min() < self.x_max() <= self.x_min() + self.edge()
        &&& self.y_min() < self.y_max() <= self.y_min() + self.edge()
        &&& self@.len() == self.edge() * self.edge() * CHANNELS
    }

    /// Whether pixel `(x, y)` of the image belongs to the tile.
    pub open spec fn covers(&self, x: int, y: int) -> bool {
        &&& self.x_min() <= x < self.x_max()
        &&& self.y_min() <= y < self.y_max()
    }

    /// Byte of the buffer at which pixel `(x, y)` starts. Rows are stored
    /// from the highest `y` down, `edge` pixels to a row: the row of `y_min`
    /// is the last of the `edge` rows.
    pub open spec fn offset_of(&self, x: int, y: int) -> int {
        pixel_offset(self.edge() as int, self.edge() - (y - self.y_min()) - 1, x - self.x_min())
    }

    /// Colour that the buffer holds for pixel `(x, y)`.
    pub open spec fn pixel(&self, x: int, y: int) -> Rgb {
        channels_at(self@, self.offset_of(x, y))
    }

    /// Makes a tile over the given rectangle whose buffer is all zero.
    pub fn new(x_min: usize, x_max: usize, y_min: usize, y_max: usize, edge: usize) -> (tile: Tile)
        requires
            x_min < x_max <= x_min + edge,
            y_min < y_max <= y_min + edge,
            edge * edge * CHANNELS <= usize::MAX,
        ensures
            tile.wf(),
            tile.x_min() == x_min,
            tile.x_max() == x_max,
            tile.y_min() == y_min,
            tile.y_max() == y_max,
            tile.edge() == edge,
            forall|k: int| 0 <= k < tile@.len() ==> tile@[k] == 0,
    {
        assert(edge * edge <= edge * edge * CHANNELS) by (nonlinear_arith);
        let size: usize = edge * edge * CHANNELS;
        Tile { y_min, y_max, x_min, x_max, edge, data: vec![0u8; size] }
    }

    #[verifier::when_used_as_spec(spec_x_min)]
    pub fn x_min(&self) -> (r: usize)
        ensures
            r == self.x_min(),
    {
        self.x_min
    }

    #[verifier::when_used_as_spec(spec_x_max)]
    pub fn x_max(&self) -> (r: usize)
        ensures
            r == self.x_max(),
    {
        self.x_max
    }

    #[verifier::when_used_as_spec(spec_y_min)]
    pub fn y_min(&self) -> (r: usize)
        ensures
            r == self.y_min(),
    {
        self.y_min
    }

    #[verifier::when_used_as_spec(spec_y_max)]
    pub fn y_max(&self) -> (r: usize)
        ensures
            r == self.y_max(),
    {
        self.y_max
    }

    #[verifier::when_used_as_spec(spec_edge)]
    pub fn edge(&self) -> (r: usize)
        ensures
            r == self.edge(),
    {
        self.edge
    }

    /// Tells whether pixel `(x, y)` of the image belongs to the tile.
    pub fn contains(&self, x: usize, y: usize) -> (inside: bool)
        ensures
            inside == self.covers(x as int, y as int),
    {
        self.x_min <= x && x < self.x_max && self.y_min <= y && y < self.y_max
    }

    /// Each pixel of the tile has three bytes of the buffer, and no two
    /// pixels share a byte.
    pub proof fn lemma_offsets(self, x: int, y: int, x2: int, y2: int)
        requires
            self.wf(),
            self.covers(x, y),
            self.covers(x2, y2),
        ensures
            0 <= self.offset_of(x, y),
            self.offset_of(x, y) + CHANNELS <= self@.len(),
            x != x2 || y != y2 ==> self.offset_of(x, y) + CHANNELS <= self.offset_of(x2, y2)
                || self.offset_of(x2, y2) + CHANNELS <= self.offset_of(x, y),
    {
        let edge = self.edge() as int;
        let row = edge - (y - self.y_min()) - 1;
        let row2 = edge - (y2 - self.y_min()) - 1;
        lemma_pixel_offset_bounds(edge, edge, row, x - self.x_min());
        if x != x2 || y != y2 {
            lemma_pixel_offsets_apart(edge, row, x - self.x_min(), row2, x2 - self.x_min());
        }
    }

    fn offset(&self, x: usize, y: usize) -> (at: usize)
        requires
            self.covers(x as int, y as int),
        ensures
            at == self.offset_of(x as int, y as int),
            at + CHANNELS <= self@.len(),
    {
        proof {
            use_type_invariant(self);
            self.lemma_offsets(x as int, y as int, x as int, y as int);
            assert(self@.len() == self.data.len());
        }
        offset_in_rows(self.edge, self.edge - (y - self.y_min) - 1, x - self.x_min)
    }

    /// Reads the colour of pixel `(x, y)`.
    pub fn get_pixel(&self, x: usize, y: usize) -> (color: Rgb)
        requires
            self.covers(x as int, y as int),
        ensures
            color == self.pixel(x as int, y as int),
    {
        let at: usize = self.offset(x, y);
        load(&self.data, at)
    }

    /// Sets the colour of pixel `(x, y)`. The three bytes of that pixel
    /// change and nothing else does: every other pixel keeps its colour.
    pub fn put_pixel(&mut self, x: usize, y: usize, color: Rgb)
        requires
            old(self).covers(x as int, y as int),
        ensures
            final(self).wf(),
            final(self).x_min() == old(self).x_min(),
            final(self).x_max() == old(self).x_max(),
            final(self).y_min() == old(self).y_min(),
            final(self).y_max() == old(self).y_max(),
            final(self).edge() == old(self).edge(),
            final(self)@ == with_channels_at(
                old(self)@,
                old(self).offset_of(x as int, y as int),
                color,
            ),
            final(self).pixel(x as int, y as int) == color,
            forall|u: int, v: int|
                final(self).covers(u, v) && (u != x || v != y) ==> #[trigger] final(self).pixel(u, v)
                    == old(self).pixel(u, v),
    {
        proof {
            use_type_invariant(&*self);
        }
        let at: usize = self.offset(x, y);
        store(&mut self.data, at, color);
        proof {
            lemma_store_then_load(old(self)@, at as int, color, at as int);
            assert forall|u: int, v: int|
                self.covers(u, v) && (u != x || v != y) implies #[trigger] self.pixel(u, v) == old(
                self,
            ).pixel(u, v) by {
                old(self).lemma_offsets(x as int, y as int, u, v);
                old(self).lemma_offsets(u, v, x as int, y as int);
                lemma_store_then_load(old(self)@, at as int, color, old(self).offset_of(u, v));
            }
        }
    }

    /// Place of pixel `(x, y)` in the order in which `render` goes through
    /// the tile: row after row from the highest `y` down, and each row from
    /// `x_min` up.
    pub open spec fn visit_index(&self, x: int, y: int) -> int {
        (self.y_max() - 1 - y) * (self.x_max() - self.x_min()) + (x - self.x_min())
    }

    /// Number of pixels that the tile holds.
    pub open spec fn pixel_count(&self) -> int {
        (self.y_max() - self.y_min()) * (self.x_max() - self.x_min())
    }

    /// The pixel that `render` visits as number `k`.
    pub open spec fn pixel_visited(&self, k: int) -> (int, int) {
        let width = self.x_max() - self.x_min();
        (self.x_min() + k % width, self.y_max() - 1 - k / width)
    }

    /// Each number below `pixel_count()` is the place of one pixel of the
    /// tile in the order of visits.
    pub proof fn lemma_pixel_visited(self, k: int)
        requires
            self.wf(),
            0 <= k < self.pixel_count(),
        ensures
            self.covers(self.pixel_visited(k).0, self.pixel_visited(k).1),
            self.visit_index(self.pixel_visited(k).0, self.pixel_visited(k).1) == k,
    {
        let width = self.x_max() - self.x_min();
        let height = self.y_max() - self.y_min();
        let row = k / width;
        lemma_fundamental_div_mod(k, width);
        lemma_mod_bound(k, width);
        assert(width * row == row * width) by (nonlinear_arith);
        assert(0 <= row < height) by (nonlinear_arith)
            requires
                0 <= k < height * width,
                k == row * width + k % width,
                0 <= k % width < width,
        ;
    }

    /// The order of visits gives each pixel of the tile a number below
    /// `pixel_count()`, and a pixel comes before another exactly when it
    /// lies in a higher row, or in the same row further to the left. So no
    /// two pixels have one number.
    pub proof fn lemma_visit_order(self, x: int, y: int, x2: int, y2: int)
        requires
            self.wf(),
            self.covers(x, y),
            self.covers(x2, y2),
        ensures
            0 <= self.visit_index(x, y) < self.pixel_count(),
            self.visit_index(x, y) < self.visit_index(x2, y2) <==> y > y2 || (y == y2 && x < x2),
    {
        let width = self.x_max() - self.x_min();
        let height = self.y_max() - self.y_min();
        let row = self.y_max() - 1 - y;
        let row2 = self.y_max() - 1 - y2;
        assert(0 <= row * width && row * width + width <= height * width) by (nonlinear_arith)
            requires
                0 <= row < height,
                0 < width,
        ;
        if row < row2 {
            assert(row * width + width <= row2 * width) by (nonlinear_arith)
                requires
                    row < row2,
                    0 < width,
            ;
        } else if row2 < row {
            assert(row2 * width + width <= row * width) by (nonlinear_arith)
                requires
                    row2 < row,
                    0 < width,
            ;
        }
    }

    /// Whether byte `k` of the buffer belongs to a pixel that the tile holds.
    /// A tile cut off by the image's border has bytes that belong to none.
    pub open spec fn in_use(&self, k: int) -> bool {
        exists|x: int, y: int|
            self.covers(x, y) && #[trigger] self.offset_of(x, y) <= k < self.offset_of(x, y)
                + CHANNELS
    }

    /// Whether each pixel of the tile has the colour that `shade` gave for
    /// it, where the generator went from pixel to pixel through `states`:
    /// the pixel visited as number `k` was shaded with `states[k]`, and
    /// `shade` handed back `states[k + 1]`.
    pub open spec fn shaded_along<F: Fn(usize, usize, RngXorShift) -> (Rgb, RngXorShift)>(
        &self,
        shade: F,
        states: Seq<RngXorShift>,
    ) -> bool {
        forall|x: usize, y: usize|
            self.covers(x as int, y as int) ==> call_ensures(
                shade,
                (x, y, states[self.visit_index(x as int, y as int)]),
                (
                    #[trigger] self.pixel(x as int, y as int),
                    states[self.visit_index(x as int, y as int) + 1],
                ),
            )
    }

    /// Shades the whole tile with one generator of its own, which starts
    /// from `seed` whatever the tile's place in the image. The pixels are
    /// visited row after row from the highest `y` down, each row from `x_min`
    /// up; `shade` gets the pixel's coordinates and the generator, and hands
    /// back the pixel's colour and the generator for the next pixel. Bytes
    /// of the buffer that belong to no pixel of the tile stay as they were.
    pub fn render<F>(&mut self, seed: u32, shade: F) where
        F: Fn(usize, usize, RngXorShift) -> (Rgb, RngXorShift),

        requires
            seed != 0,
            forall|x: usize, y: usize, rng: RngXorShift|
                old(self).covers(x as int, y as int) && rng.wf() ==> call_requires(
                    shade,
                    (x, y, rng),
                ),
        ensures
            final(self).wf(),
            final(self).x_min() == old(self).x_min(),
            final(self).x_max() == old(self).x_max(),
            final(self).y_min() == old(self).y_min(),
            final(self).y_max() == old(self).y_max(),
            final(self).edge() == old(self).edge(),
            exists|states: Seq<RngXorShift>|
                {
                    &&& states.len() == final(self).pixel_count() + 1
                    &&& states[0]@ == seed
                    &&& forall|k: int| 0 <= k < states.len() ==> (#[trigger] states[k]).wf()
                    &&& #[trigger] final(self).shaded_along(shade, states)
                },
            forall|k: int|
                0 <= k < old(self)@.len() && !old(self).in_use(k) ==> final(self)@[k] == old(
                    self,
                )@[k],
    {
        proof {
            use_type_invariant(&*self);
        }
        let x_min: usize = self.x_min;
        let x_max: usize = self.x_max;
        let y_min: usize = self.y_min;
        let y_max: usize = self.y_max;
        let ghost width: int = x_max - x_min;
        let mut rng = RngXorShift::new(seed);
        let ghost mut states: Seq<RngXorShift> = seq![rng];
        let mut y: usize = y_max;
        while y > y_min
            invariant
                self.wf(),
                self.x_min() == x_min == old(self).x_min(),
                self.x_max() == x_max == old(self).x_max(),
                self.y_min() == y_min == old(self).y_min(),
                self.y_max() == y_max == old(self).y_max(),
                self.edge() == old(self).edge(),
                self@.len() == old(self)@.len(),
                width == x_max - x_min,
                y_min <= y <= y_max,
                forall|u: usize, v: usize, g: RngXorShift|
                    old(self).covers(u as int, v as int) && g.wf() ==> call_requires(
                        shade,
                        (u, v, g),
                    ),
                states.len() == (y_max - y) * width + 1,
                states[0]@ == seed,
                states.last() == rng,
                forall|k: int| 0 <= k < states.len() ==> (#[trigger] states[k]).wf(),
                forall|u: usize, v: usize|
                    self.covers(u as int, v as int) && v >= y ==> call_ensures(
                        shade,
                        (u, v, states[self.visit_index(u as int, v as int)]),
                        (
                            #[trigger] self.pixel(u as int, v as int),
                            states[self.visit_index(u as int, v as int) + 1],
                        ),
                    ),
                forall|k: int|
                    0 <= k < self@.len() && !old(self).in_use(k) ==> self@[k] == old(self)@[k],
            decreases y,
        {
            y = y - 1;
            let mut x: usize = x_min;
            proof {
                assert((y_max - (y + 1)) * width + width == (y_max - y) * width)
                    by (nonlinear_arith);
            }
            while x < x_max
                invariant
                    self.wf(),
                    self.x_min() == x_min == old(self).x_min(),
                    self.x_max() == x_max == old(self).x_max(),
                    self.y_min() == y_min == old(self).y_min(),
                    self.y_max() == y_max == old(self).y_max(),
                    self.edge() == old(self).edge(),
                    self@.len() == old(self)@.len(),
                    width == x_max - x_min,
                    y_min <= y < y_max,
                    x_min <= x <= x_max,
                    forall|u: usize, v: usize, g: RngXorShift|
                        old(self).covers(u as int, v as int) && g.wf() ==> call_requires(
                            shade,
                            (u, v, g),
                        ),
                    states.len() == (y_max - 1 - y) * width + (x - x_min) + 1,
                    states[0]@ == seed,
                    states.last() == rng,
                    forall|k: int| 0 <= k < states.len() ==> (#[trigger] states[k]).wf(),
                    forall|u: usize, v: usize|
                        self.covers(u as int, v as int) && (v > y || (v == y && u < x))
                            ==> call_ensures(
                            shade,
                            (u, v, states[self.visit_index(u as int, v as int)]),
                            (
                                #[trigger] self.pixel(u as int, v as int),
                                states[self.visit_index(u as int, v as int) + 1],
                            ),
                        ),
                    forall|k: int|
                        0 <= k < self@.len() && !old(self).in_use(k) ==> self@[k] == old(
                            self,
                        )@[k],
                decreases x_max - x,
            {
                let ghost before = *self;
                proof {
                    use_type_invariant(&rng);
                }
                let (color, next) = shade(x, y, rng);
                rng = next;
                self.put_pixel(x, y, color);
                proof {
                    use_type_invariant(&rng);
                    states = states.push(rng);
                    assert forall|u: usize, v: usize|
                        self.covers(u as int, v as int) && (v > y || (v == y && u < x + 1))
                        implies call_ensures(
                        shade,
                        (u, v, states[self.visit_index(u as int, v as int)]),
                        (
                            #[trigger] self.pixel(u as int, v as int),
                            states[self.visit_index(u as int, v as int) + 1],
                        ),
                    ) by {
                        before.lemma_visit_order(u as int, v as int, x as int, y as int);
                        if u != x || v != y {
                            assert(before.pixel(u as int, v as int) == self.pixel(
                                u as int,
                                v as int,
                            ));
                        }
                    }
                    assert forall|k: int|
                        0 <= k < self@.len() && !old(self).in_use(k) implies self@[k] == old(
                        self,
                    )@[k] by {
                        before.lemma_offsets(x as int, y as int, x as int, y as int);
                        assert(old(self).offset_of(x as int, y as int) == before.offset_of(
                            x as int,
                            y as int,
                        ));
                        assert(old(self).covers(x as int, y as int));
                    }
                }
                x = x + 1;
            }
        }
        proof {
            assert((y_max - y_min) * width + 1 == self.pixel_count() + 1);
            assert(self.shaded_along(shade, states));
        }
    }

    /// The tile's buffer.
    pub fn bytes(&self) -> (bytes: &Vec<u8>)
        ensures
            bytes@ == self@,
    {
        &self.data
    }
}

/// Whether `shade` is a function: for one pixel and one generator it gives
/// one colour and one generator back, whenever it is asked.
pub open spec fn is_function<F: Fn(usize, usize, RngXorShift) -> (Rgb, RngXorShift)>(
    shade: F,
) -> bool {
    forall|x: usize, y: usize, rng: RngXorShift, a: (Rgb, RngXorShift), b: (Rgb, RngXorShift)|
        #[trigger] call_ensures(shade, (x, y, rng), a) && #[trigger] call_ensures(
            shade,
            (x, y, rng),
            b,
        ) ==> a == b
}

proof fn lemma_states_agree<F: Fn(usize, usize, RngXorShift) -> (Rgb, RngXorShift)>(
    first: Tile,
    second: Tile,
    shade: F,
    first_states: Seq<RngXorShift>,
    second_states: Seq<RngXorShift>,
    k: int,
)
    requires
        first.wf(),
        second.wf(),
        first.x_min() == second.x_min(),
        first.x_max() == second.x_max(),
        first.y_min() == second.y_min(),
        first.y_max() == second.y_max(),
        is_function(shade),
        first_states[0]@ == second_states[0]@,
        first.shaded_along(shade, first_states),
        second.shaded_along(shade, second_states),
        0 <= k <= first.pixel_count(),
    ensures
        first_states[k] == second_states[k],
        k > 0 ==> first.pixel(first.pixel_visited(k - 1).0, first.pixel_visited(k - 1).1)
            == second.pixel(first.pixel_visited(k - 1).0, first.pixel_visited(k - 1).1),
    decreases k,
{
    if k == 0 {
        lemma_word_is_all(first_states[0], second_states[0]);
    } else {
        lemma_states_agree(first, second, shade, first_states, second_states, k - 1);
        first.lemma_pixel_visited(k - 1);
        let (x, y) = first.pixel_visited(k - 1);
        let xu = x as usize;
        let yu = y as usize;
        assert(first.covers(xu as int, yu as int) && second.covers(xu as int, yu as int));
        assert(first.visit_index(x, y) == second.visit_index(x, y));
        assert(call_ensures(
            shade,
            (xu, yu, first_states[k - 1]),
            (first.pixel(xu as int, yu as int), first_states[k]),
        ));
        assert(call_ensures(
            shade,
            (xu, yu, second_states[k - 1]),
            (second.pixel(xu as int, yu as int), second_states[k]),
        ));
    }
}

/// Rendering repeats itself. Two tiles over one rectangle, shaded by the
/// same function with generators that start from the same seed, hold the
/// same colour in every pixel.
pub proof fn lemma_render_repeats<F: Fn(usize, usize, RngXorShift) -> (Rgb, RngXorShift)>(
    first: Tile,
    second: Tile,
    shade: F,
    first_states: Seq<RngXorShift>,
    second_states: Seq<RngXorShift>,
)
    requires
        first.wf(),
        second.wf(),
        first.x_min() == second.x_min(),
        first.x_max() == second.x_max(),
        first.y_min() == second.y_min(),
        first.y_max() == second.y_max(),
        is_function(shade),
        first_states[0]@ == second_states[0]@,
        first.shaded_along(shade, first_states),
        second.shaded_along(shade, second_states),
    ensures
        forall|x: int, y: int|
            first.covers(x, y) ==> #[trigger] first.pixel(x, y) == second.pixel(x, y),
{
    assert forall|x: int, y: int| first.covers(x, y) implies #[trigger] first.pixel(x, y)
        == second.pixel(x, y) by {
        first.lemma_visit_order(x, y, x, y);
        let k = first.visit_index(x, y);
        lemma_states_agree(first, second, shade, first_states, second_states, k + 1);
        first.lemma_pixel_visited(k);
        let (u, v) = first.pixel_visited(k);
        first.lemma_visit_order(x, y, u, v);
        first.lemma_visit_order(u, v, x, y);
    }
}

} // verus!
