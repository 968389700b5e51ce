//! Color and depth storage with a closer-wins depth test.

use vstd::prelude::*;

verus! {

/// Depth stored by `clear`: no finite depth is behind it.
pub const FAR_DEPTH: i64 = 0x7fff_ffff_ffff_ffff;

/// An 8-bit RGBA color.
#[derive(Clone, Copy, PartialEq, Eq, Structural, Debug)]
pub struct Color {
    pub r: u8,
    pub g: u8,
    pub b: u8,
    pub a: u8,
}

impl Color {
    pub fn new(r: u8, g: u8, b: u8, a: u8) -> (c: Color)
        ensures
            c == (Color { r, g, b, a }),
    {
        Color { r, g, b, a }
    }

    pub fn black() -> (c: Color)
        ensures
            c == (Color { r: 0, g: 0, b: 0, a: 255 }),
    {
        Color { r: 0, g: 0, b: 0, a: 255 }
    }
}

/// The abstract state of a frame buffer: row-major pixel colors and depths.
pub ghost struct FrameView {
    pub width: int,
    pub height: int,
    pub colors: Seq<Color>,
    pub depths: Seq<i64>,
    pub background: Color,
}

impl FrameView {
    pub open spec fn wf(self) -> bool {
        &&& 0 <= self.width
        &&& 0 <= self.height
        &&& self.width * self.height <= i32::MAX
        &&& self.colors.len() == self.width * self.height
        &&& self.depths.len() == self.width * self.height
    }

    pub open spec fn in_bounds(self, x: int, y: int) -> bool {
        0 <= x < self.width && 0 <= y < self.height
    }

    pub open spec fn index(self, x: int, y: int) -> int {
        y * self.width + x
    }

    /// The state after one depth-tested write: the pixel takes `color` and
    /// `depth` only when it is on the buffer and `depth` is strictly nearer
    /// than what it holds.
    pub open spec fn write(self, x: int, y: int, depth: i64, color: Color) -> FrameView {
        if self.in_bounds(x, y) && depth < self.depths[self.index(x, y)] {
            FrameView {
                colors: self.colors.update(self.index(x, y), color),
                depths: self.depths.update(self.index(x, y), depth),
                ..self
            }
        } else {
            self
        }
    }

    /// The state after `clear`: every pixel holds the background at `FAR_DEPTH`.
    pub open spec fn cleared(self) -> FrameView {
        FrameView {
            colors: Seq::new(self.colors.len(), |i: int| self.background),
            depths: Seq::new(self.depths.len(), |i: int| FAR_DEPTH),
            ..self
        }
    }
}

/// A width x height color buffer with a depth value per pixel.
pub struct Framebuffer {
    width: i32,
    height: i32,
    color_buffer: Vec<Color>,
    background_color: Color,
    depth_buffer: Vec<i64>,
}

impl View for Framebuffer {
    type V = FrameView;

    closed spec fn view(&self) -> FrameView {
        FrameView {
            width: self.width as int,
            height: self.height as int,
            colors: self.color_buffer@,
            depths: self.depth_buffer@,
            background: self.background_color,
        }
    }
}

proof fn lemma_index_in_range(w: int, h: int, x: int, y: int)
    requires
        0 <= x < w,
        0 <= y < h,
    ensures
        0 <= y * w + x < w * h,
{
    assert(y * w + x < w * h) by (nonlinear_arith)
        requires
            0 <= x < w,
            0 <= y < h,
    ;
    assert(0 <= y * w) by (nonlinear_arith)
        requires
            0 <= y,
            0 <= w,
    ;
}

/// Writing the same pixel, depth and color twice leaves the buffer as one write does.
pub proof fn lemma_write_idempotent(v: FrameView, x: int, y: int, depth: i64, color: Color)
    requires
        v.wf(),
    ensures
        v.write(x, y, depth, color).write(x, y, depth, color) == v.write(x, y, depth, color),
{
    if v.in_bounds(x, y) {
        lemma_index_in_range(v.width, v.height, x, y);
    }
}

/// Two writes of different depths to one pixel give the same buffer in either
/// order, and when the nearer one beats the stored depth the pixel ends with
/// the nearer write's color and depth.
pub proof fn lemma_nearer_write_wins(
    v: FrameView,
    x: int,
    y: int,
    far: i64,
    far_color: Color,
    near: i64,
    near_color: Color,
)
    requires
        v.wf(),
        near < far,
    ensures
        v.write(x, y, far, far_color).write(x, y, near, near_color) == v.write(
            x,
            y,
            near,
            near_color,
        ).write(x, y, far, far_color),
        v.in_bounds(x, y) && near < v.depths[v.index(x, y)] ==> {
            let r = v.write(x, y, far, far_color).write(x, y, near, near_color);
            &&& r.colors[v.index(x, y)] == near_color
            &&& r.depths[v.index(x, y)] == near
        },
{
    if v.in_bounds(x, y) {
        lemma_index_in_range(v.width, v.height, x, y);
        let i = v.index(x, y);
        let a = v.write(x, y, far, far_color).write(x, y, near, near_color);
        let b = v.write(x, y, near, near_color).write(x, y, far, far_color);
        if near < v.depths[i] {
            assert(a.colors =~= b.colors);
            assert(a.depths =~= b.depths);
        }
    }
}

/// After `clear`, a write of any depth nearer than `FAR_DEPTH` to a pixel on
/// the buffer always lands.
pub proof fn lemma_write_after_clear(v: FrameView, x: int, y: int, depth: i64, color: Color)
    requires
        v.wf(),
        v.in_bounds(x, y),
        depth < FAR_DEPTH,
    ensures
        v.cleared().write(x, y, depth, color).colors[v.index(x, y)] == color,
        v.cleared().write(x, y, depth, color).depths[v.index(x, y)] == depth,
        forall|i: int|
            0 <= i < v.width * v.height ==> v.cleared().depths[i] == FAR_DEPTH
                && v.cleared().colors[i] == v.background,
{
    lemma_index_in_range(v.width, v.height, x, y);
}

proof fn lemma_index_injective(w: int, x1: int, y1: int, x2: int, y2: int)
    requires
        0 <= x1 < w,
        0 <= x2 < w,
        y1 * w + x1 == y2 * w + x2,
    ensures
        x1 == x2,
        y1 == y2,
{
    assert(y1 == y2) by (nonlinear_arith)
        requires
            0 <= x1 < w,
            0 <= x2 < w,
            y1 * w + x1 == y2 * w + x2,
    ;
}

/// Two depth-tested writes that differ in pixel or in depth give the same
/// buffer in either order: the frame does not depend on submission order.
pub proof fn lemma_writes_commute(
    v: FrameView,
    x1: int,
    y1: int,
    d1: i64,
    c1: Color,
    x2: int,
    y2: int,
    d2: i64,
    c2: Color,
)
    requires
        v.wf(),
        x1 != x2 || y1 != y2 || d1 != d2,
    ensures
        v.write(x1, y1, d1, c1).write(x2, y2, d2, c2) == v.write(x2, y2, d2, c2).write(
            x1,
            y1,
            d1,
            c1,
        ),
{
    if x1 == x2 && y1 == y2 {
        if d1 < d2 {
            lemma_nearer_write_wins(v, x1, y1, d2, c2, d1, c1);
        } else {
            lemma_nearer_write_wins(v, x1, y1, d1, c1, d2, c2);
        }
    } else if v.in_bounds(x1, y1) && v.in_bounds(x2, y2) {
        lemma_index_in_range(v.width, v.height, x1, y1);
        lemma_index_in_range(v.width, v.height, x2, y2);
        let i1 = v.index(x1, y1);
        let i2 = v.index(x2, y2);
        if i1 == i2 {
            lemma_index_injective(v.width, x1, y1, x2, y2);
        }
        let a = v.write(x1, y1, d1, c1).write(x2, y2, d2, c2);
        let b = v.write(x2, y2, d2, c2).write(x1, y1, d1, c1);
        assert(v.write(x1, y1, d1, c1).depths[i2] == v.depths[i2]);
        assert(v.write(x2, y2, d2, c2).depths[i1] == v.depths[i1]);
        assert(a.colors =~= b.colors);
        assert(a.depths =~= b.depths);
    }
}

impl Framebuffer {
    pub open spec fn wf(&self) -> bool {
        self@.wf()
    }

    /// A buffer of `width * height` black pixels, each at `FAR_DEPTH`.
    pub fn new(width: i32, height: i32) -> (fb: Framebuffer)
        requires
            0 <= width,
            0 <= height,
            width * height <= i32::MAX,
        ensures
            fb.wf(),
            fb@.width == width,
            fb@.height == height,
            fb@.background == (Color { r: 0, g: 0, b: 0, a: 255 }),
            fb@.colors == Seq::new((width * height) as nat, |i: int| fb@.background),
            fb@.depths == Seq::new((width * height) as nat, |i: int| FAR_DEPTH),
    {
        let background_color = Color::black();
        let n: usize = (width * height) as usize;
        let mut color_buffer: Vec<Color> = Vec::with_capacity(n);
        let mut depth_buffer: Vec<i64> = Vec::with_capacity(n);
        let mut i: usize = 0;
        while i < n
            invariant
                i <= n,
                color_buffer@ == Seq::new(i as nat, |k: int| background_color),
                depth_buffer@ == Seq::new(i as nat, |k: int| FAR_DEPTH),
            decreases n - i,
        {
            color_buffer.push(background_color);
            depth_buffer.push(FAR_DEPTH);
            i = i + 1;
            assert(color_buffer@ =~= Seq::new(i as nat, |k: int| background_color));
            assert(depth_buffer@ =~= Seq::new(i as nat, |k: int| FAR_DEPTH));
        }
        Framebuffer { width, height, color_buffer, background_color, depth_buffer }
    }

    pub fn width(&self) -> (w: i32)
        ensures
            w == self@.width,
    {
        self.width
    }

    pub fn height(&self) -> (h: i32)
        ensures
            h == self@.height,
    {
        self.height
    }

    pub fn background_color(&self) -> (c: Color)
        ensures
            c == self@.background,
    {
        self.background_color
    }

    /// Resets every pixel to the background color and `FAR_DEPTH`.
    pub fn clear(&mut self)
        requires
            old(self).wf(),
        ensures
            final(self).wf(),
            final(self)@ == old(self)@.cleared(),
    {
        let n: usize = self.color_buffer.len();
        let bg = self.background_color;
        let mut i: usize = 0;
        while i < n
            invariant
                n == self.color_buffer.len(),
                n == self.depth_buffer.len(),
                i <= n,
                self.width == old(self).width,
                self.height == old(self).height,
                self.background_color == bg,
                bg == old(self).background_color,
                old(self).wf(),
                self.color_buffer@.len() == old(self).color_buffer@.len(),
                forall|k: int| 0 <= k < i ==> self.color_buffer@[k] == bg,
                forall|k: int| 0 <= k < i ==> self.depth_buffer@[k] == FAR_DEPTH,
            decreases n - i,
        {
            self.color_buffer.set(i, bg);
            self.depth_buffer.set(i, FAR_DEPTH);
            i = i + 1;
        }
        assert(self.color_buffer@ =~= Seq::new(n as nat, |k: int| bg));
        assert(self.depth_buffer@ =~= Seq::new(n as nat, |k: int| FAR_DEPTH));
    }

    /// Writes `color` at (x, y) if the pixel is on the buffer and `depth` is
    /// strictly nearer than the stored depth; otherwise leaves the buffer as it is.
    pub fn point(&mut self, x: i32, y: i32, depth: i64, color: Color)
        requires
            old(self).wf(),
        ensures
            final(self).wf(),
            final(self)@ == old(self)@.write(x as int, y as int, depth, color),
    {
        if x >= 0 && x < self.width && y >= 0 && y < self.height {
            proof {
                lemma_index_in_range(self.width as int, self.height as int, x as int, y as int);
            }
            let index: usize = (y * self.width + x) as usize;
            if depth < self.depth_buffer[index] {
                self.depth_buffer.set(index, depth);
                self.color_buffer.set(index, color);
            }
        }
    }

    /// Sets the color that later calls of `clear` fill the buffer with.
    pub fn set_background_color(&mut self, color: Color)
        requires
            old(self).wf(),
        ensures
            final(self).wf(),
            final(self)@ == (FrameView { background: color, ..old(self)@ }),
    {
        self.background_color = color;
    }

    /// The color stored at (x, y), or `None` off the buffer.
    pub fn color_at(&self, x: i32, y: i32) -> (c: Option<Color>)
        requires
            self.wf(),
        ensures
            self@.in_bounds(x as int, y as int) ==> c == Some(
                self@.colors[self@.index(x as int, y as int)],
            ),
            !self@.in_bounds(x as int, y as int) ==> c.is_none(),
    {
        if x >= 0 && x < self.width && y >= 0 && y < self.height {
            proof {
                lemma_index_in_range(self.width as int, self.height as int, x as int, y as int);
            }
            Some(self.color_buffer[(y * self.width + x) as usize])
        } else {
            None
        }
    }

    /// The depth stored at (x, y), or `None` off the buffer.
    pub fn depth_at(&self, x: i32, y: i32) -> (d: Option<i64>)
        requires
            self.wf(),
        ensures
            self@.in_bounds(x as int, y as int) ==> d == Some(
                self@.depths[self@.index(x as int, y as int)],
            ),
            !self@.in_bounds(x as int, y as int) ==> d.is_none(),
    {
        if x >= 0 && x < self.width && y >= 0 && y < self.height {
            proof {
                lemma_index_in_range(self.width as int, self.height as int, x as int, y as int);
            }
            Some(self.depth_buffer[(y * self.width + x) as usize])
        } else {
            None
        }
    }

    /// The row-major color buffer.
    pub fn color_buffer(&self) -> (c: &Vec<Color>)
        ensures
            c@ == self@.colors,
    {
        &self.color_buffer
    }
}

} // verus!
