use vstd::prelude::*;

use crate::program::GraphicsMode;

verus! {

/// Offset of the 6x12 ASCII glyphs in a font image (12 bytes per glyph).
pub const FONT_ASCII6: usize = 0;

/// Offset of the 8x16 ASCII glyphs in a font image (16 bytes per glyph).
pub const FONT_ASCII8: usize = 1536;

/// Offset of the 12x12 GB2312 glyphs in a font image (24 bytes per glyph).
pub const FONT_GB12: usize = 3584;

/// Offset of the 16x16 GB2312 glyphs in a font image (32 bytes per glyph).
pub const FONT_GB16: usize = 186920;

/// Number of GB2312 glyphs in each of the two double-byte tables.
pub const FONT_GB_COUNT: usize = 7614;

/// Size of a complete font image.
pub const FONT_SIZE: usize = 430568;

/// Which of the two frame buffers an operation works on.
#[derive(Debug, Clone, Copy, PartialEq, Eq, Structural)]
pub enum BufferTarget {
    Front,
    Back,
}

/// What drawing does to a pixel.
#[derive(Debug, Clone, Copy, PartialEq, Eq, Structural)]
pub enum DrawOperation {
    Clear,
    Draw,
    Invert,
}

/// The drawing operation selected by the low two bits of a LavaX mode word.
pub open spec fn spec_operation(value: i32) -> DrawOperation {
    let low = value & 3;
    if low == 0 {
        DrawOperation::Clear
    } else if low == 1 {
        DrawOperation::Draw
    } else {
        DrawOperation::Invert
    }
}

impl DrawOperation {
    /// Decodes the low two bits of a LavaX mode word: 0 clears, 1 draws the foreground colour,
    /// 2 and 3 invert.
    pub fn from_lava(value: i32) -> (operation: Self)
        ensures
            operation == spec_operation(value),
    {
        let low = value & 3;
        if low == 0 {
            DrawOperation::Clear
        } else if low == 1 {
            DrawOperation::Draw
        } else {
            DrawOperation::Invert
        }
    }
}

/// A whole-screen operation on the back buffer.
#[derive(Debug, Clone, Copy, PartialEq, Eq, Structural)]
pub enum Transform {
    Left,
    Right,
    Up,
    Down,
    MirrorHorizontal,
    MirrorVertical,
    RestoreBackBuffer,
}

/// The transform that a LavaX transform code names, if any.
pub open spec fn spec_transform(value: u8) -> Option<Transform> {
    if value == 0 {
        Some(Transform::Left)
    } else if value == 1 {
        Some(Transform::Right)
    } else if value == 2 {
        Some(Transform::Up)
    } else if value == 3 {
        Some(Transform::Down)
    } else if value == 4 {
        Some(Transform::MirrorHorizontal)
    } else if value == 5 {
        Some(Transform::MirrorVertical)
    } else if value == 6 {
        Some(Transform::RestoreBackBuffer)
    } else {
        None
    }
}

impl Transform {
    /// Decodes a LavaX transform code (0 to 6).
    pub fn from_lava(value: u8) -> (transform: Option<Self>)
        ensures
            transform == spec_transform(value),
    {
        match value {
            0 => Some(Transform::Left),
            1 => Some(Transform::Right),
            2 => Some(Transform::Up),
            3 => Some(Transform::Down),
            4 => Some(Transform::MirrorHorizontal),
            5 => Some(Transform::MirrorVertical),
            6 => Some(Transform::RestoreBackBuffer),
            _ => None,
        }
    }
}

/// The largest colour index of a graphics mode; also the mask that
/// inverting applies.
pub open spec fn spec_max_color(mode: GraphicsMode) -> u8 {
    match mode {
        GraphicsMode::Mono => 1,
        GraphicsMode::Color4 => 15,
        GraphicsMode::Color8 => 255,
    }
}

/// Grey ramp of the 9 green levels of the 8-bit palette.
pub open spec fn spec_level9(j: int) -> u8 {
    if j >= 8 {
        255
    } else {
        (j * 32) as u8
    }
}

/// The 5 red and blue levels of the 8-bit palette.
pub open spec fn spec_level5(j: int) -> u8 {
    if j >= 4 {
        255
    } else {
        (j * 64) as u8
    }
}

/// Entry `i` of the palette that a graphics mode starts with.
pub open spec fn default_color(mode: GraphicsMode, i: int) -> [u8; 3] {
    match mode {
        GraphicsMode::Mono => {
            if i == 0 {
                [0u8, 192u8, 0u8]
            } else {
                [0u8, 0u8, 0u8]
            }
        },
        GraphicsMode::Color4 => {
            if 0 <= i < 16 {
                let level = ((15 - i) * 17) as u8;
                [level, level, level]
            } else {
                [0u8, 0u8, 0u8]
            }
        },
        GraphicsMode::Color8 => {
            if i == 255 {
                [255u8, 255u8, 255u8]
            } else if 16 <= i < 241 {
                let k = i - 16;
                [spec_level5(k % 5), spec_level9(k / 25), spec_level5((k / 5) % 5)]
            } else {
                [0u8, 0u8, 0u8]
            }
        },
    }
}

/// `n` pixels of colour `color`.
pub open spec fn filled(n: int, color: u8) -> Seq<u8> {
    Seq::new(n as nat, |_i: int| color)
}

/// The whole palette that a graphics mode starts with.
pub open spec fn default_palette(mode: GraphicsMode) -> Seq<[u8; 3]> {
    Seq::new(256, |i: int| default_color(mode, i))
}

/// The abstract screen: its size and mode, colours, palette, the two frame
/// buffers (row-major colour indices) and the font image text is drawn with.
#[verifier::ext_equal]
pub struct DisplayView {
    pub width: u16,
    pub height: u16,
    pub mode: GraphicsMode,
    pub background: u8,
    pub foreground: u8,
    pub palette: Seq<[u8; 3]>,
    pub front: Seq<u8>,
    pub back: Seq<u8>,
    pub font: Seq<u8>,
}

impl DisplayView {
    /// Number of pixels of one frame buffer.
    pub open spec fn area(self) -> int {
        self.width * self.height
    }

    pub open spec fn wf(self) -> bool {
        &&& self.front.len() == self.area()
        &&& self.back.len() == self.area()
        &&& self.palette.len() == 256
        &&& self.font.len() == FONT_SIZE
    }

    pub open spec fn max_color(self) -> u8 {
        spec_max_color(self.mode)
    }

    /// The colour that clearing paints: black on a monochrome screen, the
    /// background colour otherwise.
    pub open spec fn clear_color(self) -> u8 {
        if self.mode == GraphicsMode::Mono {
            0
        } else {
            self.background
        }
    }

    pub open spec fn in_bounds(self, x: int, y: int) -> bool {
        0 <= x < self.width && 0 <= y < self.height
    }

    /// Buffer index of an on-screen point.
    pub open spec fn index(self, x: int, y: int) -> int {
        y * self.width + x
    }

    pub open spec fn buffer(self, target: BufferTarget) -> Seq<u8> {
        match target {
            BufferTarget::Front => self.front,
            BufferTarget::Back => self.back,
        }
    }

    pub open spec fn with_buffer(self, target: BufferTarget, pixels: Seq<u8>) -> DisplayView {
        match target {
            BufferTarget::Front => DisplayView { front: pixels, ..self },
            BufferTarget::Back => DisplayView { back: pixels, ..self },
        }
    }

    /// The value of a pixel after `operation` is applied to it.
    pub open spec fn painted(self, operation: DrawOperation, old: u8) -> u8 {
        match operation {
            DrawOperation::Clear => self.clear_color(),
            DrawOperation::Draw => self.foreground,
            DrawOperation::Invert => old ^ self.max_color(),
        }
    }

    /// The screen after one pixel is drawn; points off the screen change nothing.
    pub open spec fn draw_pixel(self, target: BufferTarget, x: int, y: int, operation: DrawOperation) -> DisplayView {
        if self.in_bounds(x, y) {
            let pixels = self.buffer(target);
            let i = self.index(x, y);
            self.with_buffer(target, pixels.update(i, self.painted(operation, pixels[i])))
        } else {
            self
        }
    }

    /// The screen after the points of `points` are drawn in order.
    pub open spec fn draw_points(self, target: BufferTarget, points: Seq<(int, int)>, operation: DrawOperation) -> DisplayView
        decreases points.len(),
    {
        if points.len() == 0 {
            self
        } else {
            let last = points.last();
            self.draw_points(target, points.drop_last(), operation).draw_pixel(target, last.0, last.1, operation)
        }
    }
}

/// The screen with its frame buffers, colours, palette and font.
#[derive(Debug, Clone)]
pub struct Display {
    width: u16,
    height: u16,
    graphics_mode: GraphicsMode,
    background: u8,
    foreground: u8,
    palette: Vec<[u8; 3]>,
    front: Vec<u8>,
    back: Vec<u8>,
    font: Vec<u8>,
}

impl View for Display {
    type V = DisplayView;

    closed spec fn view(&self) -> DisplayView {
        DisplayView {
            width: self.width,
            height: self.height,
            mode: self.graphics_mode,
            background: self.background,
            foreground: self.foreground,
            palette: self.palette@,
            front: self.front@,
            back: self.back@,
            font: self.font@,
        }
    }
}

impl Display {
    /// Internal invariant (see `DisplayView::wf`).
    pub open spec fn wf(&self) -> bool {
        self@.wf()
    }

    pub proof fn lemma_wf(&self)
        requires
            self.wf(),
        ensures
            self@.wf(),
    {
    }

    fn max_color(&self) -> (color: u8)
        ensures
            color == self@.max_color(),
    {
        match self.graphics_mode {
            GraphicsMode::Mono => 1,
            GraphicsMode::Color4 => 15,
            GraphicsMode::Color8 => 255,
        }
    }

    fn clear_color(&self) -> (color: u8)
        ensures
            color == self@.clear_color(),
    {
        if self.graphics_mode == GraphicsMode::Mono {
            0
        } else {
            self.background
        }
    }

    fn pixel_index(&self, x: i32, y: i32) -> (index: Option<usize>)
        requires
            self.wf(),
        ensures
            index is Some <==> self@.in_bounds(x as int, y as int),
            index matches Some(i) ==> i == self@.index(x as int, y as int) && i < self@.area(),
    {
        if x < 0 || y < 0 || x >= self.width as i32 || y >= self.height as i32 {
            return None;
        }
        proof {
            lemma_index_in_area(self.width as int, self.height as int, x as int, y as int);
            assert(self.front@.len() == self.front.len());
        }
        Some(y as usize * self.width as usize + x as usize)
    }

    fn get_at(&self, target: BufferTarget, index: usize) -> (value: u8)
        requires
            self.wf(),
            index < self@.area(),
        ensures
            value == self@.buffer(target)[index as int],
    {
        match target {
            BufferTarget::Front => self.front[index],
            BufferTarget::Back => self.back[index],
        }
    }

    fn set_at(&mut self, target: BufferTarget, index: usize, value: u8)
        requires
            old(self).wf(),
            index < old(self)@.area(),
        ensures
            final(self).wf(),
            final(self)@ == old(self)@.with_buffer(target, old(self)@.buffer(target).update(index as int, value)),
    {
        match target {
            BufferTarget::Front => self.front.set(index, value),
            BufferTarget::Back => self.back.set(index, value),
        }
    }
}

fn level9(j: usize) -> (level: u8)
    requires
        j <= 8,
    ensures
        level == spec_level9(j as int),
{
    if j >= 8 {
        255
    } else {
        (j * 32) as u8
    }
}

fn level5(j: usize) -> (level: u8)
    requires
        j <= 4,
    ensures
        level == spec_level5(j as int),
{
    if j >= 4 {
        255
    } else {
        (j * 64) as u8
    }
}

fn palette_entry(mode: GraphicsMode, i: usize) -> (color: [u8; 3])
    requires
        i < 256,
    ensures
        color == default_color(mode, i as int),
{
    match mode {
        GraphicsMode::Mono => {
            if i == 0 {
                [0u8, 192u8, 0u8]
            } else {
                [0u8, 0u8, 0u8]
            }
        },
        GraphicsMode::Color4 => {
            if i < 16 {
                let level = ((15 - i) * 17) as u8;
                [level, level, level]
            } else {
                [0u8, 0u8, 0u8]
            }
        },
        GraphicsMode::Color8 => {
            if i == 255 {
                [255u8, 255u8, 255u8]
            } else if 16 <= i && i < 241 {
                let k = i - 16;
                [level5(k % 5), level9(k / 25), level5((k / 5) % 5)]
            } else {
                [0u8, 0u8, 0u8]
            }
        },
    }
}

impl Display {
    /// A blank screen in `graphics_mode` that draws text with `font` (an
    /// image in the layout of the `FONT_*` offsets): both buffers filled
    /// with colour 0, background 0, foreground the largest colour and the
    /// mode's default palette.
    pub fn new(width: u16, height: u16, graphics_mode: GraphicsMode, font: Vec<u8>) -> (display: Self)
        requires
            font@.len() == FONT_SIZE,
        ensures
            display.wf(),
            display@.width == width,
            display@.height == height,
            display@.mode == graphics_mode,
            display@.background == 0,
            display@.foreground == spec_max_color(graphics_mode),
            display@.palette == default_palette(graphics_mode),
            display@.front == filled(width * height, 0),
            display@.back == filled(width * height, 0),
            display@.font == font@,
    {
        proof {
            lemma_area_fits(width, height);
        }
        let area = width as usize * height as usize;
        let mut display = Display {
            width,
            height,
            graphics_mode,
            background: 0,
            foreground: match graphics_mode {
                GraphicsMode::Mono => 1,
                GraphicsMode::Color4 => 15,
                GraphicsMode::Color8 => 255,
            },
            palette: vec![[0u8, 0u8, 0u8]; 256],
            front: vec![0u8; area],
            back: vec![0u8; area],
            font,
        };
        display.reset_palette();
        assert(display.front@ =~= filled(width * height, 0));
        assert(display.back@ =~= filled(width * height, 0));
        display
    }

    pub fn width(&self) -> (width: u16)
        ensures
            width == self@.width,
    {
        self.width
    }

    pub fn height(&self) -> (height: u16)
        ensures
            height == self@.height,
    {
        self.height
    }

    pub fn graphics_mode(&self) -> (mode: GraphicsMode)
        ensures
            mode == self@.mode,
    {
        self.graphics_mode
    }

    pub fn background(&self) -> (color: u8)
        ensures
            color == self@.background,
    {
        self.background
    }

    pub fn foreground(&self) -> (color: u8)
        ensures
            color == self@.foreground,
    {
        self.foreground
    }

    /// The front buffer: what is on the screen, one colour index per pixel.
    pub fn indexed_frame(&self) -> (frame: &[u8])
        ensures
            frame@ == self@.front,
    {
        self.front.as_slice()
    }

    /// The back buffer that drawing prepares.
    pub fn back_buffer(&self) -> (buffer: &[u8])
        ensures
            buffer@ == self@.back,
    {
        self.back.as_slice()
    }

    /// The 256 RGB palette entries.
    pub fn palette(&self) -> (palette: &[[u8; 3]])
        ensures
            palette@ == self@.palette,
    {
        self.palette.as_slice()
    }

    fn reset_palette(&mut self)
        requires
            old(self).palette@.len() == 256,
        ensures
            final(self)@ == (DisplayView { palette: default_palette(old(self)@.mode), ..old(self)@ }),
    {
        let mut i: usize = 0;
        while i < 256
            invariant
                i <= 256,
                self.palette@.len() == 256,
                forall|j: int| 0 <= j < i ==> self.palette@[j] == default_color(self.graphics_mode, j),
                self.width == old(self).width,
                self.height == old(self).height,
                self.graphics_mode == old(self).graphics_mode,
                self.background == old(self).background,
                self.foreground == old(self).foreground,
                self.front == old(self).front,
                self.back == old(self).back,
                self.font == old(self).font,
            decreases 256 - i,
        {
            let color = palette_entry(self.graphics_mode, i);
            self.palette.set(i, color);
            i += 1;
        }
        assert(self.palette@ =~= default_palette(self.graphics_mode));
        assert(self@ =~= (DisplayView { palette: default_palette(old(self)@.mode), ..old(self)@ }));
    }
}

/// The steps of Bresenham's walk from `(x, y)` towards `(x1, y1)`: `a` and
/// `b` are the absolute horizontal and vertical distances of the whole
/// line, `sx` and `sy` its directions and `error` the running error term.
/// Each step visits the current point, then moves horizontally when twice
/// the error is at least `-b` and vertically when it is at most `a`.
/// `fuel` bounds the number of points.
pub open spec fn line_walk(
    x: int,
    y: int,
    x1: int,
    y1: int,
    a: int,
    b: int,
    sx: int,
    sy: int,
    error: int,
    fuel: nat,
) -> Seq<(int, int)>
    decreases fuel,
{
    if fuel == 0 {
        seq![]
    } else if x == x1 && y == y1 {
        seq![(x, y)]
    } else {
        let twice = 2 * error;
        let e1 = if twice >= -b { error - b } else { error };
        let nx = if twice >= -b { x + sx } else { x };
        let e2 = if twice <= a { e1 + a } else { e1 };
        let ny = if twice <= a { y + sy } else { y };
        seq![(x, y)] + line_walk(nx, ny, x1, y1, a, b, sx, sy, e2, (fuel - 1) as nat)
    }
}

pub open spec fn abs_diff(p: int, q: int) -> int {
    if p <= q {
        q - p
    } else {
        p - q
    }
}

pub open spec fn direction(p: int, q: int) -> int {
    if p < q {
        1
    } else {
        -1
    }
}

/// The points of the line from `(x0, y0)` to `(x1, y1)`, in the order
/// Bresenham's algorithm visits them; both end points are included.
pub open spec fn line_points(x0: int, y0: int, x1: int, y1: int) -> Seq<(int, int)> {
    let a = abs_diff(x0, x1);
    let b = abs_diff(y0, y1);
    line_walk(x0, y0, x1, y1, a, b, direction(x0, x1), direction(y0, y1), a - b, (a + b + 1) as nat)
}

impl DisplayView {
    /// The screen after a line is drawn.
    pub open spec fn draw_line(self, target: BufferTarget, x0: int, y0: int, x1: int, y1: int, operation: DrawOperation) -> DisplayView {
        self.draw_points(target, line_points(x0, y0, x1, y1), operation)
    }
}

impl DisplayView {
    /// The screen after the lines of `lines` (each `(x0, y0, x1, y1)`) are
    /// drawn in order.
    pub open spec fn draw_lines(self, target: BufferTarget, lines: Seq<(int, int, int, int)>, operation: DrawOperation) -> DisplayView
        decreases lines.len(),
    {
        if lines.len() == 0 {
            self
        } else {
            let l = lines.last();
            self.draw_lines(target, lines.drop_last(), operation).draw_line(target, l.0, l.1, l.2, l.3, operation)
        }
    }

    /// The screen after a rectangle with corners `(x0, y0)` and `(x1, y1)`
    /// is drawn: filled, one horizontal line per row from top to bottom;
    /// outlined, its top, bottom, left and right edges in that order.
    pub open spec fn draw_rectangle(
        self,
        target: BufferTarget,
        x0: int,
        y0: int,
        x1: int,
        y1: int,
        filled: bool,
        operation: DrawOperation,
    ) -> DisplayView {
        let left = if x0 <= x1 { x0 } else { x1 };
        let right = if x0 <= x1 { x1 } else { x0 };
        let top = if y0 <= y1 { y0 } else { y1 };
        let bottom = if y0 <= y1 { y1 } else { y0 };
        if filled {
            self.draw_lines(target, rectangle_rows(left, right, top, bottom - top + 1), operation)
        } else {
            self.draw_lines(
                target,
                seq![(left, top, right, top), (left, bottom, right, bottom), (left, top, left, bottom), (right, top, right, bottom)],
                operation,
            )
        }
    }
}

/// The first `count` rows of a filled rectangle, as horizontal lines.
pub open spec fn rectangle_rows(left: int, right: int, top: int, count: int) -> Seq<(int, int, int, int)> {
    Seq::new(count as nat, |k: int| (left, top + k, right, top + k))
}

/// `s` is the integer square root of `n`.
pub open spec fn is_isqrt(n: int, s: int) -> bool {
    0 <= s && s * s <= n < (s + 1) * (s + 1)
}

/// The integer square root of `n` (for `n >= 0`).
pub open spec fn isqrt(n: int) -> int {
    choose|s: int| #[trigger] is_isqrt(n, s)
}

/// Half the width of an ellipse's row `y`: `rx * sqrt(1 - (y / ry)^2)`
/// rounded to the nearest integer, halves up, computed exactly as
/// `(isqrt(4 rx^2 (ry^2 - y^2)) + ry) / (2 ry)`.
pub open spec fn ellipse_extent(rx: int, ry: int, y: int) -> int {
    (isqrt(4 * (rx * rx) * (ry * ry - y * y)) + ry) / (2 * ry)
}

impl DisplayView {
    /// The first `count` rows of an ellipse, top down: filled, a horizontal
    /// line across each row; outlined, its left then its right point.
    pub open spec fn ellipse_rows(
        self,
        target: BufferTarget,
        cx: int,
        cy: int,
        rx: int,
        ry: int,
        filled: bool,
        operation: DrawOperation,
        count: nat,
    ) -> DisplayView
        decreases count,
    {
        if count == 0 {
            self
        } else {
            let d = self.ellipse_rows(target, cx, cy, rx, ry, filled, operation, (count - 1) as nat);
            let y = count - 1 - ry;
            let e = ellipse_extent(rx, ry, y);
            if filled {
                d.draw_line(target, cx - e, cy + y, cx + e, cy + y, operation)
            } else {
                d.draw_pixel(target, cx - e, cy + y, operation).draw_pixel(target, cx + e, cy + y, operation)
            }
        }
    }

    /// The screen after an ellipse around `(cx, cy)` is drawn; with a zero
    /// radius it degenerates to a point or a line.
    pub open spec fn draw_ellipse(
        self,
        target: BufferTarget,
        cx: int,
        cy: int,
        rx: int,
        ry: int,
        filled: bool,
        operation: DrawOperation,
    ) -> DisplayView {
        if rx == 0 && ry == 0 {
            self.draw_pixel(target, cx, cy, operation)
        } else if rx == 0 {
            self.draw_line(target, cx, cy - ry, cx, cy + ry, operation)
        } else if ry == 0 {
            self.draw_line(target, cx - rx, cy, cx + rx, cy, operation)
        } else {
            self.ellipse_rows(target, cx, cy, rx, ry, filled, operation, (2 * ry + 1) as nat)
        }
    }
}

/// The integer square root is unique.
pub proof fn lemma_isqrt_unique(n: int, s: int)
    requires
        is_isqrt(n, s),
    ensures
        isqrt(n) == s,
{
    let t = isqrt(n);
    assert(is_isqrt(n, t));
    if t < s {
        assert((t + 1) * (t + 1) <= s * s) by (nonlinear_arith)
            requires
                0 <= t,
                t + 1 <= s,
        ;
    }
    if s < t {
        assert((s + 1) * (s + 1) <= t * t) by (nonlinear_arith)
            requires
                0 <= s,
                s + 1 <= t,
        ;
    }
}

/// A row's extent never exceeds the horizontal radius.
pub proof fn lemma_extent_bound(rx: int, ry: int, y: int)
    requires
        0 <= rx,
        0 < ry,
        -ry <= y <= ry,
    ensures
        0 <= ellipse_extent(rx, ry, y) <= rx,
{
    let n = 4 * (rx * rx) * (ry * ry - y * y);
    assert(0 <= y * y <= ry * ry) by (nonlinear_arith)
        requires
            -ry <= y <= ry,
    ;
    assert(0 <= n <= (2 * rx * ry) * (2 * rx * ry)) by (nonlinear_arith)
        requires
            0 <= y * y <= ry * ry,
            0 <= rx,
            n == 4 * (rx * rx) * (ry * ry - y * y),
    ;
    let s = isqrt(n);
    assert(is_isqrt(n, 0int) || exists|t: int| #[trigger] is_isqrt(n, t)) by {
        lemma_isqrt_exists(n);
    }
    lemma_isqrt_exists(n);
    assert(is_isqrt(n, s));
    let m = 2 * rx * ry;
    assert(m >= 0) by (nonlinear_arith)
        requires
            0 <= rx,
            0 < ry,
            m == 2 * rx * ry,
    ;
    assert(s <= m) by (nonlinear_arith)
        requires
            0 <= m,
            0 <= s,
            s * s <= n,
            n <= m * m,
    ;
    assert(0 <= (s + ry) / (2 * ry) <= rx) by (nonlinear_arith)
        requires
            0 <= s <= 2 * rx * ry,
            0 < ry,
            0 <= rx,
    ;
}

/// Every non-negative integer has an integer square root.
pub proof fn lemma_isqrt_exists(n: int)
    requires
        0 <= n,
    ensures
        exists|s: int| #[trigger] is_isqrt(n, s),
    decreases n,
{
    if n == 0 {
        assert(is_isqrt(0, 0));
    } else {
        lemma_isqrt_exists(n - 1);
        let s = choose|s: int| #[trigger] is_isqrt(n - 1, s);
        if (s + 1) * (s + 1) == n {
            assert(is_isqrt(n, s + 1)) by (nonlinear_arith)
                requires
                    0 <= s,
                    (s + 1) * (s + 1) == n,
            ;
        } else {
            assert(is_isqrt(n, s));
        }
    }
}

/// Integer square root by bisection.
fn isqrt_u128(n: u128) -> (s: u128)
    requires
        n < 0x4_0000_0000_0000_0000,
    ensures
        is_isqrt(n as int, s as int),
        s < 0x4_0000_0000,
{
    let mut lo: u128 = 0;
    let mut hi: u128 = 0x4_0000_0000;
    assert(hi * hi > n) by (nonlinear_arith)
        requires
            hi == 0x4_0000_0000,
            n < 0x4_0000_0000_0000_0000,
    ;
    while hi - lo > 1
        invariant
            lo < hi <= 0x4_0000_0000,
            lo * lo <= n,
            n < hi * hi,
        decreases hi - lo,
    {
        let mid = lo + (hi - lo) / 2;
        assert(mid * mid <= 0x10_0000_0000_0000_0000) by (nonlinear_arith)
            requires
                mid <= 0x4_0000_0000,
        ;
        if mid * mid <= n {
            lo = mid;
        } else {
            hi = mid;
        }
    }
    assert(hi == lo + 1);
    lo
}

/// The extent of row `y` of an ellipse (see `ellipse_extent`).
fn extent_of(rx: u16, ry: u16, y: i64) -> (e: i64)
    requires
        0 < ry,
        -(ry as int) <= y <= ry,
    ensures
        e == ellipse_extent(rx as int, ry as int, y as int),
        0 <= e <= rx,
{
    assert(ry as u128 * ry as u128 <= 0xfffe_0001) by (nonlinear_arith)
        requires
            ry <= 0xffff,
    ;
    assert(rx as u128 * rx as u128 <= 0xfffe_0001) by (nonlinear_arith)
        requires
            rx <= 0xffff,
    ;
    let r2 = ry as u128 * ry as u128;
    let yy = if y < 0 { (-y) as u128 } else { y as u128 };
    assert(yy * yy <= r2) by (nonlinear_arith)
        requires
            yy <= ry,
            r2 == ry as int * ry as int,
    ;
    assert(yy * yy == y * y) by (nonlinear_arith)
        requires
            yy == y || yy == -y,
    ;
    let span = r2 - yy * yy;
    let xx = rx as u128 * rx as u128;
    assert(4 * xx * span <= 4 * 0xfffe_0001 * 0xfffe_0001) by (nonlinear_arith)
        requires
            xx == rx as int * rx as int,
            span <= r2,
            r2 == ry as int * ry as int,
            rx <= 0xffff,
            ry <= 0xffff,
    ;
    assert(4 * 0xfffe_0001 * 0xfffe_0001 < 0x4_0000_0000_0000_0000) by (nonlinear_arith);
    let n = 4 * xx * span;
    let s = isqrt_u128(n);
    proof {
        lemma_isqrt_unique(n as int, s as int);
        lemma_extent_bound(rx as int, ry as int, y as int);
    }
    let e = (s + ry as u128) / (2 * ry as u128);
    e as i64
}

/// `pixels` (rows of `stride` pixels) where each point of the `w`-wide box
/// whose top-left corner is `(x, y)` and whose position in the box, row by
/// row, comes before `done`, takes `f(column, row, old value)`.
pub open spec fn paint_box(
    pixels: Seq<u8>,
    stride: int,
    x: int,
    y: int,
    w: int,
    done: int,
    f: spec_fn(int, int, u8) -> u8,
) -> Seq<u8> {
    Seq::new(
        pixels.len(),
        |i: int|
            {
                let col = i % stride - x;
                let row = i / stride - y;
                if 0 <= col < w && 0 <= row && row * w + col < done {
                    f(col, row, pixels[i])
                } else {
                    pixels[i]
                }
            },
    )
}

/// Painting the next point of a box: it changes the one buffer entry of
/// that point when it is on the screen, and nothing otherwise.
pub proof fn lemma_paint_box_step(
    pixels: Seq<u8>,
    width: int,
    height: int,
    x: int,
    y: int,
    w: int,
    col: int,
    row: int,
    f: spec_fn(int, int, u8) -> u8,
)
    requires
        pixels.len() == width * height,
        0 <= width,
        0 <= height,
        0 <= col < w,
        0 <= row,
    ensures
        ({
            let done = row * w + col;
            let before = paint_box(pixels, width, x, y, w, done, f);
            let after = paint_box(pixels, width, x, y, w, done + 1, f);
            let px = x + col;
            let py = y + row;
            if 0 <= px < width && 0 <= py < height {
                let i = py * width + px;
                &&& 0 <= i < pixels.len()
                &&& before[i] == pixels[i]
                &&& after == before.update(i, f(col, row, pixels[i]))
            } else {
                after == before
            }
        }),
{
    let done = row * w + col;
    let before = paint_box(pixels, width, x, y, w, done, f);
    let after = paint_box(pixels, width, x, y, w, done + 1, f);
    let px = x + col;
    let py = y + row;
    let on_screen = 0 <= px < width && 0 <= py < height;
    let idx = py * width + px;
    if on_screen {
        lemma_index_in_area(width, height, px, py);
        vstd::arithmetic::div_mod::lemma_fundamental_div_mod_converse(idx, width, py, px);
    }
    assert forall|j: int| 0 <= j < pixels.len() implies after[j] == (if on_screen && j == idx {
        f(col, row, pixels[j])
    } else {
        before[j]
    }) by {
        let cj = j % width - x;
        let rj = j / width - y;
        if 0 <= cj < w && 0 <= rj && rj * w + cj == done {
            vstd::arithmetic::div_mod::lemma_fundamental_div_mod_converse(done, w, rj, cj);
            vstd::arithmetic::div_mod::lemma_fundamental_div_mod_converse(done, w, row, col);
            assert(width > 0) by (nonlinear_arith)
                requires
                    0 <= j < pixels.len(),
                    pixels.len() == width * height,
                    0 <= width,
                    0 <= height,
            ;
            vstd::arithmetic::div_mod::lemma_fundamental_div_mod(j, width);
            assert(j == width * (j / width) + j % width);
            assert(0 <= j % width < width) by {
                vstd::arithmetic::div_mod::lemma_mod_bound(j, width);
            }
            assert(j / width < height) by (nonlinear_arith)
                requires
                    0 <= j < width * height,
                    width > 0,
                    j == width * (j / width) + j % width,
                    0 <= j % width < width,
            ;
            assert(0 <= j / width) by (nonlinear_arith)
                requires
                    0 <= j,
                    width > 0,
                    j == width * (j / width) + j % width,
                    j % width < width,
            ;
            assert(on_screen);
            assert(j == idx) by (nonlinear_arith)
                requires
                    j == width * (j / width) + j % width,
                    j / width == py,
                    j % width == px,
                    idx == py * width + px,
            ;
        }
    }
    assert(after =~= (if on_screen {
        before.update(idx, f(col, row, pixels[idx]))
    } else {
        before
    }));
}

/// Where the walk stands when `p` horizontal and `q` vertical steps remain.
pub open spec fn walk_state(x: int, y: int, x1: int, y1: int, a: int, b: int, sx: int, sy: int, error: int, p: int, q: int) -> bool {
    &&& 0 <= p <= a
    &&& 0 <= q <= b
    &&& sx == 1 || sx == -1
    &&& sy == 1 || sy == -1
    &&& x == x1 - sx * p
    &&& y == y1 - sy * q
    &&& error == a - b + b * p - a * q
    &&& -2 * b <= error <= 2 * a
}

/// One step of the walk keeps its shape and brings it closer to the end:
/// `mx` and `my` say whether the step moves horizontally and vertically.
pub proof fn lemma_walk_step(
    x: int,
    y: int,
    x1: int,
    y1: int,
    a: int,
    b: int,
    sx: int,
    sy: int,
    error: int,
    p: int,
    q: int,
    mx: int,
    my: int,
)
    requires
        walk_state(x, y, x1, y1, a, b, sx, sy, error, p, q),
        p != 0 || q != 0,
        mx == if 2 * error >= -b { 1int } else { 0int },
        my == if 2 * error <= a { 1int } else { 0int },
    ensures
        mx + my >= 1,
        walk_state(x + sx * mx, y + sy * my, x1, y1, a, b, sx, sy, error - b * mx + a * my, p - mx, q - my),
{
    if p == 0 {
        assert(a * q >= a) by (nonlinear_arith)
            requires
                a >= 0,
                q >= 1,
        ;
        assert(b * p == 0) by (nonlinear_arith)
            requires
                p == 0,
        ;
        assert(mx == 0);
    }
    if q == 0 {
        assert(b * p >= b) by (nonlinear_arith)
            requires
                b >= 0,
                p >= 1,
        ;
        assert(a * q == 0) by (nonlinear_arith)
            requires
                q == 0,
        ;
        assert(my == 0);
    }
    assert(b * (p - mx) == b * p - b * mx) by (nonlinear_arith);
    assert(a * (q - my) == a * q - a * my) by (nonlinear_arith);
    assert(sx * (p - mx) == sx * p - sx * mx) by (nonlinear_arith);
    assert(sy * (q - my) == sy * q - sy * my) by (nonlinear_arith);
    assert(b * mx == if mx == 1 { b } else { 0 });
    assert(a * my == if my == 1 { a } else { 0 });
}

/// Fuel beyond the number of remaining points does not change the walk.
pub proof fn lemma_walk_fuel(x: int, y: int, x1: int, y1: int, a: int, b: int, sx: int, sy: int, error: int, p: int, q: int, fuel: nat)
    requires
        walk_state(x, y, x1, y1, a, b, sx, sy, error, p, q),
        fuel >= p + q + 1,
    ensures
        line_walk(x, y, x1, y1, a, b, sx, sy, error, fuel) == line_walk(x, y, x1, y1, a, b, sx, sy, error, (p + q + 1) as nat),
    decreases fuel,
{
    if x == x1 && y == y1 {
        assert(p == 0 && q == 0) by (nonlinear_arith)
            requires
                x == x1 - sx * p,
                y == y1 - sy * q,
                sx == 1 || sx == -1,
                sy == 1 || sy == -1,
                x == x1,
                y == y1,
        ;
    } else {
        assert(p != 0 || q != 0);
        let twice = 2 * error;
        let mx: int = if twice >= -b { 1 } else { 0 };
        let my: int = if twice <= a { 1 } else { 0 };
        lemma_walk_step(x, y, x1, y1, a, b, sx, sy, error, p, q, mx, my);
        let e2 = error - b * mx + a * my;
        let f1 = (fuel - 1) as nat;
        let f2 = (p + q) as nat;
        lemma_walk_fuel(x + sx * mx, y + sy * my, x1, y1, a, b, sx, sy, e2, p - mx, q - my, f1);
        lemma_walk_fuel(x + sx * mx, y + sy * my, x1, y1, a, b, sx, sy, e2, p - mx, q - my, f2);
    }
}

/// Drawing two runs of points is drawing the first, then the second.
pub proof fn lemma_draw_points_append(d: DisplayView, target: BufferTarget, s: Seq<(int, int)>, t: Seq<(int, int)>, operation: DrawOperation)
    ensures
        d.draw_points(target, s + t, operation) == d.draw_points(target, s, operation).draw_points(target, t, operation),
    decreases t.len(),
{
    if t.len() == 0 {
        assert(s + t =~= s);
    } else {
        assert((s + t).drop_last() =~= s + t.drop_last());
        assert((s + t).last() == t.last());
        lemma_draw_points_append(d, target, s, t.drop_last(), operation);
    }
}

/// Drawing a point and then a run is drawing the run with the point in front.
pub proof fn lemma_draw_points_cons(d: DisplayView, target: BufferTarget, point: (int, int), t: Seq<(int, int)>, operation: DrawOperation)
    ensures
        d.draw_points(target, seq![point] + t, operation) == d.draw_pixel(target, point.0, point.1, operation).draw_points(target, t, operation),
{
    lemma_draw_points_append(d, target, seq![point], t, operation);
    let one = seq![point];
    assert(one.drop_last() =~= Seq::<(int, int)>::empty());
    assert(d.draw_points(target, one.drop_last(), operation) == d);
}

/// Drawing a pixel keeps the screen's shape.
pub proof fn lemma_draw_pixel_wf(d: DisplayView, target: BufferTarget, x: int, y: int, operation: DrawOperation)
    requires
        d.wf(),
    ensures
        d.draw_pixel(target, x, y, operation).wf(),
        d.draw_pixel(target, x, y, operation).width == d.width,
        d.draw_pixel(target, x, y, operation).height == d.height,
        d.draw_pixel(target, x, y, operation).mode == d.mode,
        d.draw_pixel(target, x, y, operation).background == d.background,
        d.draw_pixel(target, x, y, operation).foreground == d.foreground,
        d.draw_pixel(target, x, y, operation).palette == d.palette,
        d.draw_pixel(target, x, y, operation).font == d.font,
{
    if d.in_bounds(x, y) {
        lemma_index_in_area(d.width as int, d.height as int, x, y);
    }
}

/// Drawing keeps the screen's shape.
pub proof fn lemma_draw_points_wf(d: DisplayView, target: BufferTarget, points: Seq<(int, int)>, operation: DrawOperation)
    requires
        d.wf(),
    ensures
        d.draw_points(target, points, operation).wf(),
        d.draw_points(target, points, operation).width == d.width,
        d.draw_points(target, points, operation).height == d.height,
        d.draw_points(target, points, operation).mode == d.mode,
        d.draw_points(target, points, operation).background == d.background,
        d.draw_points(target, points, operation).foreground == d.foreground,
        d.draw_points(target, points, operation).palette == d.palette,
        d.draw_points(target, points, operation).font == d.font,
    decreases points.len(),
{
    if points.len() > 0 {
        lemma_draw_points_wf(d, target, points.drop_last(), operation);
        let last = points.last();
        lemma_draw_pixel_wf(d.draw_points(target, points.drop_last(), operation), target, last.0, last.1, operation);
    }
}

fn fill_all(pixels: &mut Vec<u8>, color: u8)
    ensures
        final(pixels)@ == filled(old(pixels)@.len() as int, color),
{
    let mut i: usize = 0;
    let n = pixels.len();
    while i < n
        invariant
            n == pixels@.len(),
            n == old(pixels)@.len(),
            i <= n,
            forall|j: int| 0 <= j < i ==> pixels@[j] == color,
        decreases n - i,
    {
        pixels.set(i, color);
        i += 1;
    }
    assert(pixels@ =~= filled(n as int, color));
}

/// The screen after a change of graphics mode: colours, buffers and
/// palette start over as for a new screen in that mode.
pub open spec fn restarted(d: DisplayView, mode: GraphicsMode) -> DisplayView {
    DisplayView {
        mode,
        background: 0,
        foreground: spec_max_color(mode),
        palette: default_palette(mode),
        front: filled(d.area(), 0),
        back: filled(d.area(), 0),
        ..d
    }
}

/// `count` entries of `colors` (the first three bytes of each) copied into
/// `palette` from index `first` on.
pub open spec fn palette_with(palette: Seq<[u8; 3]>, first: int, colors: Seq<[u8; 4]>, count: int) -> Seq<[u8; 3]> {
    Seq::new(
        palette.len(),
        |i: int|
            if first <= i < first + count {
                let c = colors[i - first];
                [c[0], c[1], c[2]]
            } else {
                palette[i]
            },
    )
}

impl Display {
    /// Restores the power-on colours (background 0, foreground the largest
    /// colour), blanks both buffers and restores the mode's palette.
    pub fn reset(&mut self)
        requires
            old(self).wf(),
        ensures
            final(self).wf(),
            final(self)@ == restarted(old(self)@, old(self)@.mode),
    {
        self.background = 0;
        self.foreground = self.max_color();
        fill_all(&mut self.front, 0);
        fill_all(&mut self.back, 0);
        self.reset_palette();
        assert(self@ =~= restarted(old(self)@, old(self)@.mode));
    }

    /// Switches the graphics mode and returns the previous one; an actual
    /// change restarts colours, buffers and palette as `reset` does.
    pub fn set_graphics_mode(&mut self, mode: GraphicsMode) -> (previous: GraphicsMode)
        requires
            old(self).wf(),
        ensures
            final(self).wf(),
            previous == old(self)@.mode,
            final(self)@ == if mode == old(self)@.mode {
                old(self)@
            } else {
                restarted(old(self)@, mode)
            },
    {
        let previous = self.graphics_mode;
        if previous != mode {
            self.graphics_mode = mode;
            self.background = 0;
            self.foreground = self.max_color();
            fill_all(&mut self.front, 0);
            fill_all(&mut self.back, 0);
            self.reset_palette();
            assert(self@ =~= restarted(old(self)@, mode));
        }
        previous
    }

    /// Sets the background colour, masked to the mode's colour range.
    pub fn set_background(&mut self, color: u8)
        requires
            old(self).wf(),
        ensures
            final(self).wf(),
            final(self)@ == (DisplayView { background: color & old(self)@.max_color(), ..old(self)@ }),
    {
        self.background = color & self.max_color();
    }

    /// Sets the foreground colour, masked to the mode's colour range.
    pub fn set_foreground(&mut self, color: u8)
        requires
            old(self).wf(),
        ensures
            final(self).wf(),
            final(self)@ == (DisplayView { foreground: color & old(self)@.max_color(), ..old(self)@ }),
    {
        self.foreground = color & self.max_color();
    }

    /// Copies RGBA colours (alpha dropped) into the palette from entry
    /// `first` on, as many as fit below 256; returns how many were copied.
    pub fn set_palette_rgba(&mut self, first: u8, colors: &[[u8; 4]]) -> (count: usize)
        requires
            old(self).wf(),
        ensures
            final(self).wf(),
            count == if colors@.len() < 256 - first { colors@.len() as int } else { 256 - first },
            final(self)@ == (DisplayView {
                palette: palette_with(old(self)@.palette, first as int, colors@, count as int),
                ..old(self)@
            }),
    {
        let available: usize = 256 - first as usize;
        let count = if colors.len() < available { colors.len() } else { available };
        let mut offset: usize = 0;
        while offset < count
            invariant
                self.wf(),
                count <= colors@.len(),
                first as int + count <= 256,
                offset <= count,
                self@ == (DisplayView {
                    palette: palette_with(old(self)@.palette, first as int, colors@, offset as int),
                    ..old(self)@
                }),
            decreases count - offset,
        {
            let color = colors[offset];
            let entry: [u8; 3] = [color[0], color[1], color[2]];
            let ghost before = self.palette@;
            self.palette.set(first as usize + offset, entry);
            assert(self.palette@ =~= palette_with(old(self)@.palette, first as int, colors@, offset + 1));
            offset += 1;
        }
        count
    }

    /// Fills one buffer with the clear colour (0 on a monochrome screen,
    /// the background colour otherwise).
    pub fn clear(&mut self, target: BufferTarget)
        requires
            old(self).wf(),
        ensures
            final(self).wf(),
            final(self)@ == old(self)@.with_buffer(target, filled(old(self)@.area(), old(self)@.clear_color())),
            final(self)@.same_shape(old(self)@),
    {
        let color = self.clear_color();
        match target {
            BufferTarget::Front => fill_all(&mut self.front, color),
            BufferTarget::Back => fill_all(&mut self.back, color),
        }
        assert(self@ =~= old(self)@.with_buffer(target, filled(old(self)@.area(), old(self)@.clear_color())));
    }

    /// Copies the back buffer to the screen.
    pub fn present(&mut self)
        requires
            old(self).wf(),
        ensures
            final(self).wf(),
            final(self)@ == (DisplayView { front: old(self)@.back, ..old(self)@ }),
            final(self)@.same_shape(old(self)@),
    {
        self.front = self.back.clone();
        assert(self.front@ =~= old(self)@.back);
    }

    /// The colour of a pixel, or `None` off the screen.
    pub fn get_pixel(&self, target: BufferTarget, x: i32, y: i32) -> (pixel: Option<u8>)
        requires
            self.wf(),
        ensures
            pixel == if self@.in_bounds(x as int, y as int) {
                Some(self@.buffer(target)[self@.index(x as int, y as int)])
            } else {
                None::<u8>
            },
    {
        match self.pixel_index(x, y) {
            Some(index) => Some(self.get_at(target, index)),
            None => None,
        }
    }

    /// Draws one pixel (see `DisplayView::draw_pixel`).
    pub fn draw_pixel(&mut self, target: BufferTarget, x: i32, y: i32, operation: DrawOperation)
        requires
            old(self).wf(),
        ensures
            final(self).wf(),
            final(self)@ == old(self)@.draw_pixel(target, x as int, y as int, operation),
            final(self)@.same_shape(old(self)@),
    {
        proof {
            lemma_draw_pixel_wf(old(self)@, target, x as int, y as int, operation);
        }
        let index = match self.pixel_index(x, y) {
            Some(index) => index,
            None => return,
        };
        let value = match operation {
            DrawOperation::Clear => self.clear_color(),
            DrawOperation::Draw => self.foreground,
            DrawOperation::Invert => self.get_at(target, index) ^ self.max_color(),
        };
        self.set_at(target, index, value);
    }
}

impl Display {
    /// Draws a line with Bresenham's algorithm, both end points included
    /// (see `line_points`).
    pub fn draw_line(&mut self, target: BufferTarget, x0: i32, y0: i32, x1: i32, y1: i32, operation: DrawOperation)
        requires
            old(self).wf(),
        ensures
            final(self).wf(),
            final(self)@ == old(self)@.draw_line(target, x0 as int, y0 as int, x1 as int, y1 as int, operation),
            final(self)@.same_shape(old(self)@),
    {
        proof {
            lemma_line_shape(old(self)@, target, x0 as int, y0 as int, x1 as int, y1 as int, operation);
        }
        let ghost goal = old(self)@.draw_line(target, x0 as int, y0 as int, x1 as int, y1 as int, operation);
        let a: i64 = if x0 <= x1 { x1 as i64 - x0 as i64 } else { x0 as i64 - x1 as i64 };
        let b: i64 = if y0 <= y1 { y1 as i64 - y0 as i64 } else { y0 as i64 - y1 as i64 };
        let sx: i64 = if x0 < x1 { 1 } else { -1 };
        let sy: i64 = if y0 < y1 { 1 } else { -1 };
        let mut x: i64 = x0 as i64;
        let mut y: i64 = y0 as i64;
        let mut error: i64 = a - b;
        let ghost mut p: int = a as int;
        let ghost mut q: int = b as int;
        assert(walk_state(x as int, y as int, x1 as int, y1 as int, a as int, b as int, sx as int, sy as int, error as int, p, q)) by (nonlinear_arith)
            requires
                a == abs_diff(x0 as int, x1 as int),
                b == abs_diff(y0 as int, y1 as int),
                sx == direction(x0 as int, x1 as int),
                sy == direction(y0 as int, y1 as int),
                x == x0,
                y == y0,
                error == a - b,
                p == a,
                q == b,
        ;
        loop
            invariant_except_break
                self.wf(),
                walk_state(x as int, y as int, x1 as int, y1 as int, a as int, b as int, sx as int, sy as int, error as int, p, q),
                a == abs_diff(x0 as int, x1 as int),
                b == abs_diff(y0 as int, y1 as int),
                sx == direction(x0 as int, x1 as int),
                sy == direction(y0 as int, y1 as int),
                self@.draw_points(
                    target,
                    line_walk(x as int, y as int, x1 as int, y1 as int, a as int, b as int, sx as int, sy as int, error as int, (p + q + 1) as nat),
                    operation,
                ) == goal,
            ensures
                self.wf(),
                self@ == goal,
            decreases p + q,
        {
            let ghost walk = line_walk(x as int, y as int, x1 as int, y1 as int, a as int, b as int, sx as int, sy as int, error as int, (p + q + 1) as nat);
            let ghost before = self@;
            assert(x as int == x1 as int - sx * p && (sx == 1 || sx == -1) && 0 <= p <= a ==> (x0 <= x <= x1 || x1 <= x <= x0)) by (nonlinear_arith)
                requires
                    a == abs_diff(x0 as int, x1 as int),
                    sx == direction(x0 as int, x1 as int),
            ;
            assert(y as int == y1 as int - sy * q && (sy == 1 || sy == -1) && 0 <= q <= b ==> (y0 <= y <= y1 || y1 <= y <= y0)) by (nonlinear_arith)
                requires
                    b == abs_diff(y0 as int, y1 as int),
                    sy == direction(y0 as int, y1 as int),
            ;
            self.draw_pixel(target, x as i32, y as i32, operation);
            if x == x1 as i64 && y == y1 as i64 {
                assert(walk =~= seq![(x as int, y as int)]);
                proof {
                    lemma_draw_points_cons(before, target, (x as int, y as int), Seq::empty(), operation);
                    assert(seq![(x as int, y as int)] + Seq::<(int, int)>::empty() =~= walk);
                }
                break;
            }
            let ghost ox: int = x as int;
            let ghost oy: int = y as int;
            let twice = error * 2;
            let ghost mx: int = if twice >= -b { 1 } else { 0 };
            let ghost my: int = if twice <= a { 1 } else { 0 };
            proof {
                lemma_walk_step(x as int, y as int, x1 as int, y1 as int, a as int, b as int, sx as int, sy as int, error as int, p, q, mx, my);
            }
            if twice >= -b {
                error = error - b;
                x = x + sx;
            }
            if twice <= a {
                error = error + a;
                y = y + sy;
            }
            proof {
                let rest = line_walk(x as int, y as int, x1 as int, y1 as int, a as int, b as int, sx as int, sy as int, error as int, (p + q) as nat);
                assert(walk == seq![(ox, oy)] + rest);
                lemma_draw_points_cons(before, target, (ox, oy), rest, operation);
                lemma_walk_fuel(x as int, y as int, x1 as int, y1 as int, a as int, b as int, sx as int, sy as int, error as int, p - mx, q - my, (p + q) as nat);
                p = p - mx;
                q = q - my;
            }
        }
    }
}

impl Display {
    /// Draws a rectangle (see `DisplayView::draw_rectangle`).
    pub fn draw_rectangle(
        &mut self,
        target: BufferTarget,
        x0: i32,
        y0: i32,
        x1: i32,
        y1: i32,
        filled: bool,
        operation: DrawOperation,
    )
        requires
            old(self).wf(),
        ensures
            final(self).wf(),
            final(self)@ == old(self)@.draw_rectangle(target, x0 as int, y0 as int, x1 as int, y1 as int, filled, operation),
            final(self)@.same_shape(old(self)@),
    {
        proof {
            lemma_rectangle_shape(old(self)@, target, x0 as int, y0 as int, x1 as int, y1 as int, filled, operation);
        }
        let left = if x0 <= x1 { x0 } else { x1 };
        let right = if x0 <= x1 { x1 } else { x0 };
        let top = if y0 <= y1 { y0 } else { y1 };
        let bottom = if y0 <= y1 { y1 } else { y0 };
        if filled {
            let mut y: i64 = top as i64;
            assert(rectangle_rows(left as int, right as int, top as int, 0) =~= Seq::empty());
            while y <= bottom as i64
                invariant
                    self.wf(),
                    top <= y <= bottom as int + 1,
                    self@ == old(self)@.draw_lines(target, rectangle_rows(left as int, right as int, top as int, y - top), operation),
                decreases bottom - y + 1,
            {
                let ghost rows = rectangle_rows(left as int, right as int, top as int, y - top);
                self.draw_line(target, left, y as i32, right, y as i32, operation);
                assert(rectangle_rows(left as int, right as int, top as int, y + 1 - top).drop_last() =~= rows);
                y += 1;
            }
        } else {
            let ghost lines = seq![
                (left as int, top as int, right as int, top as int),
                (left as int, bottom as int, right as int, bottom as int),
                (left as int, top as int, left as int, bottom as int),
                (right as int, top as int, right as int, bottom as int),
            ];
            let ghost d0 = self@;
            assert(lines.take(0).len() == 0);
            assert(d0.draw_lines(target, lines.take(0), operation) == d0);
            self.draw_line(target, left, top, right, top, operation);
            assert(lines.take(1).drop_last() =~= lines.take(0));
            assert(self@ == d0.draw_lines(target, lines.take(1), operation));
            self.draw_line(target, left, bottom, right, bottom, operation);
            assert(lines.take(2).drop_last() =~= lines.take(1));
            assert(self@ == d0.draw_lines(target, lines.take(2), operation));
            self.draw_line(target, left, top, left, bottom, operation);
            assert(lines.take(3).drop_last() =~= lines.take(2));
            assert(self@ == d0.draw_lines(target, lines.take(3), operation));
            self.draw_line(target, right, top, right, bottom, operation);
            assert(lines.take(4).drop_last() =~= lines.take(3));
            assert(lines.take(4) =~= lines);
        }
    }

    /// Draws an ellipse (see `DisplayView::draw_ellipse`); the centre must
    /// leave room for both radii within `i32`.
    pub fn draw_ellipse(
        &mut self,
        target: BufferTarget,
        center_x: i32,
        center_y: i32,
        radius_x: u16,
        radius_y: u16,
        filled: bool,
        operation: DrawOperation,
    )
        requires
            old(self).wf(),
            i32::MIN <= center_x - radius_x,
            center_x + radius_x <= i32::MAX,
            i32::MIN <= center_y - radius_y,
            center_y + radius_y <= i32::MAX,
        ensures
            final(self).wf(),
            final(self)@ == old(self)@.draw_ellipse(
                target,
                center_x as int,
                center_y as int,
                radius_x as int,
                radius_y as int,
                filled,
                operation,
            ),
            final(self)@.same_shape(old(self)@),
    {
        proof {
            lemma_ellipse_shape(old(self)@, target, center_x as int, center_y as int, radius_x as int, radius_y as int, filled, operation);
        }
        if radius_x == 0 && radius_y == 0 {
            self.draw_pixel(target, center_x, center_y, operation);
            return;
        }
        if radius_x == 0 {
            self.draw_line(target, center_x, center_y - radius_y as i32, center_x, center_y + radius_y as i32, operation);
            return;
        }
        if radius_y == 0 {
            self.draw_line(target, center_x - radius_x as i32, center_y, center_x + radius_x as i32, center_y, operation);
            return;
        }
        let rows: i64 = 2 * radius_y as i64 + 1;
        let mut k: i64 = 0;
        while k < rows
            invariant
                self.wf(),
                rows == 2 * radius_y + 1,
                0 < radius_x,
                0 < radius_y,
                0 <= k <= rows,
                i32::MIN <= center_x - radius_x,
                center_x + radius_x <= i32::MAX,
                i32::MIN <= center_y - radius_y,
                center_y + radius_y <= i32::MAX,
                self@ == old(self)@.ellipse_rows(
                    target,
                    center_x as int,
                    center_y as int,
                    radius_x as int,
                    radius_y as int,
                    filled,
                    operation,
                    k as nat,
                ),
            decreases rows - k,
        {
            let y = k - radius_y as i64;
            let extent = extent_of(radius_x, radius_y, y);
            let row = (center_y as i64 + y) as i32;
            let left = (center_x as i64 - extent) as i32;
            let right = (center_x as i64 + extent) as i32;
            if filled {
                self.draw_line(target, left, row, right, row, operation);
            } else {
                self.draw_pixel(target, left, row, operation);
                self.draw_pixel(target, right, row, operation);
            }
            k += 1;
        }
    }
}

/// Painting that gives every point of a box the same colour.
pub open spec fn fill_with(color: u8) -> spec_fn(int, int, u8) -> u8 {
    |_col: int, _row: int, _old: u8| color
}

impl DisplayView {
    /// The screen after every point of the `w` by `h` box at `(x, y)`
    /// that lies on it takes `f(column, row, old value)`.
    pub open spec fn paint(self, target: BufferTarget, x: int, y: int, w: int, h: int, f: spec_fn(int, int, u8) -> u8) -> DisplayView {
        self.with_buffer(target, paint_box(self.buffer(target), self.width as int, x, y, w, w * h, f))
    }
}

pub proof fn lemma_paint_box_none(pixels: Seq<u8>, stride: int, x: int, y: int, w: int, f: spec_fn(int, int, u8) -> u8)
    ensures
        paint_box(pixels, stride, x, y, w, 0, f) == pixels,
{
    assert forall|i: int| 0 <= i < pixels.len() implies paint_box(pixels, stride, x, y, w, 0, f)[i] == pixels[i] by {
        let col = i % stride - x;
        let row = i / stride - y;
        if 0 <= col < w && 0 <= row {
            assert(row * w >= 0) by (nonlinear_arith)
                requires
                    0 <= row,
                    0 <= col < w,
            ;
        }
    }
    assert(paint_box(pixels, stride, x, y, w, 0, f) =~= pixels);
}

impl Display {
    fn pixel_index64(&self, x: i64, y: i64) -> (index: Option<usize>)
        requires
            self.wf(),
        ensures
            index is Some <==> self@.in_bounds(x as int, y as int),
            index matches Some(i) ==> i == self@.index(x as int, y as int) && i < self@.area(),
    {
        if x < 0 || y < 0 || x >= self.width as i64 || y >= self.height as i64 {
            return None;
        }
        proof {
            lemma_index_in_area(self.width as int, self.height as int, x as int, y as int);
            assert(self.front@.len() == self.front.len());
        }
        Some(y as usize * self.width as usize + x as usize)
    }

    /// Fills the `width` by `height` box at `(x, y)` with `color`, clipped
    /// to the screen.
    pub(crate) fn fill_region(&mut self, target: BufferTarget, x: i32, y: i32, width: u16, height: u16, color: u8)
        requires
            old(self).wf(),
        ensures
            final(self).wf(),
            final(self)@ == old(self)@.paint(target, x as int, y as int, width as int, height as int, fill_with(color)),
            final(self)@.same_shape(old(self)@),
    {
        proof {
            lemma_paint_shape(old(self)@, target, x as int, y as int, width as int, height as int, fill_with(color));
        }
        let ghost pixels = old(self)@.buffer(target);
        let ghost f = fill_with(color);
        let ghost sw = self.width as int;
        proof {
            lemma_paint_box_none(pixels, sw, x as int, y as int, width as int, f);
            assert(old(self)@.with_buffer(target, pixels) == old(self)@);
        }
        let mut row: u32 = 0;
        while row < height as u32
            invariant
                self.wf(),
                row <= height,
                sw == self@.width,
                self@.width == old(self)@.width,
                self@.height == old(self)@.height,
                pixels == old(self)@.buffer(target),
                pixels.len() == sw * self@.height,
                f == fill_with(color),
                self@ == old(self)@.with_buffer(target, paint_box(pixels, sw, x as int, y as int, width as int, row * width, f)),
            decreases height - row,
        {
            let mut col: u32 = 0;
            while col < width as u32
                invariant
                    self.wf(),
                    row < height,
                    col <= width,
                    sw == self@.width,
                    self@.width == old(self)@.width,
                    self@.height == old(self)@.height,
                    pixels == old(self)@.buffer(target),
                    pixels.len() == sw * self@.height,
                    f == fill_with(color),
                    self@ == old(self)@.with_buffer(target, paint_box(pixels, sw, x as int, y as int, width as int, row * width + col, f)),
                decreases width - col,
            {
                proof {
                    lemma_paint_box_step(pixels, sw, self@.height as int, x as int, y as int, width as int, col as int, row as int, f);
                }
                let ghost done = row * width + col;
                let ghost before = paint_box(pixels, sw, x as int, y as int, width as int, done, f);
                let ghost after = paint_box(pixels, sw, x as int, y as int, width as int, done + 1, f);
                match self.pixel_index64(x as i64 + col as i64, y as i64 + row as i64) {
                    Some(index) => {
                        assert(f(col as int, row as int, pixels[index as int]) == color);
                        assert(after == before.update(index as int, color));
                        self.set_at(target, index, color);
                    },
                    None => {
                        assert(after == before);
                    },
                }
                assert(self@ =~= old(self)@.with_buffer(
                    target,
                    paint_box(pixels, sw, x as int, y as int, width as int, row * width + col + 1, f),
                ));
                col += 1;
            }
            assert(row * width + width == (row + 1) * width) by (nonlinear_arith);
            row += 1;
        }
        assert(height * width == width * height) by (nonlinear_arith);
    }
}

/// Where a glyph's bitmap lies in the font image: `len` bytes from
/// `offset`, rows of `stride` bytes, `width` by `height` pixels. A blank
/// glyph has no bitmap.
#[derive(Debug, Clone, Copy)]
struct Glyph {
    offset: usize,
    len: usize,
    stride: usize,
    width: u16,
    height: u16,
    blank: bool,
}

/// Byte `k` of a glyph's bitmap; a glyph that the font does not hold
/// entirely, or a blank one, reads as zeros.
pub open spec fn glyph_byte(font: Seq<u8>, blank: bool, offset: int, len: int, k: int) -> u8 {
    if !blank && offset + len <= font.len() && 0 <= k < len {
        font[offset + k]
    } else {
        0
    }
}

/// The bit for pixel `(col, row)` of a glyph: rows of `stride` bytes,
/// most significant bit leftmost.
pub open spec fn glyph_bit(font: Seq<u8>, blank: bool, offset: int, len: int, stride: int, col: int, row: int) -> bool {
    glyph_byte(font, blank, offset, len, row * stride + col / 8) & (0x80u8 >> ((col % 8) as u8)) != 0
}

/// How a glyph paints: set bits in the foreground colour, clear bits in
/// the background colour, both inverted by the `Invert` operation.
pub open spec fn glyph_paint(
    d: DisplayView,
    blank: bool,
    offset: int,
    len: int,
    stride: int,
    operation: DrawOperation,
) -> spec_fn(int, int, u8) -> u8 {
    |col: int, row: int, _old: u8|
        {
            let color = if glyph_bit(d.font, blank, offset, len, stride, col, row) {
                d.foreground
            } else {
                d.background
            };
            if operation == DrawOperation::Invert {
                color ^ d.max_color()
            } else {
                color
            }
        }
}

/// The glyph number of a double-byte GB2312 character in the font, if the
/// font has one.
pub open spec fn gbk_index(first: u8, second: u8) -> Option<int> {
    if !(0xa1 <= first <= 0xf7) || !(0xa1 <= second <= 0xfe) {
        None
    } else {
        let index = if first < 0xb0 {
            (first - 0xa1) * 94 + (second - 0xa1)
        } else {
            (first - 0xa7) * 94 + (second - 0xa1)
        };
        if index >= FONT_GB_COUNT {
            None
        } else {
            Some(index)
        }
    }
}

impl DisplayView {
    /// The screen after the glyph with the given bitmap is drawn with its
    /// top-left corner at `(x, y)`.
    pub open spec fn draw_glyph(
        self,
        target: BufferTarget,
        x: int,
        y: int,
        blank: bool,
        offset: int,
        len: int,
        stride: int,
        width: int,
        height: int,
        operation: DrawOperation,
    ) -> DisplayView {
        self.paint(target, x, y, width, height, glyph_paint(self, blank, offset, len, stride, operation))
    }

    /// The screen after a single-byte character is drawn: ASCII glyphs are
    /// 6x12 (8x16 when `large`); other bytes draw a blank cell.
    pub open spec fn draw_ascii(self, target: BufferTarget, x: int, y: int, c: u8, large: bool, operation: DrawOperation) -> DisplayView {
        if large {
            self.draw_glyph(target, x, y, c >= 128, FONT_ASCII8 + c * 16, 16, 1, 8, 16, operation)
        } else {
            self.draw_glyph(target, x, y, c >= 128, FONT_ASCII6 + c * 12, 12, 1, 6, 12, operation)
        }
    }

    /// The screen after a GB2312 glyph is drawn: 12x12 (16x16 when `large`).
    pub open spec fn draw_gbk(self, target: BufferTarget, x: int, y: int, index: int, large: bool, operation: DrawOperation) -> DisplayView {
        if large {
            self.draw_glyph(target, x, y, false, FONT_GB16 + index * 32, 32, 2, 16, 16, operation)
        } else {
            self.draw_glyph(target, x, y, false, FONT_GB12 + index * 24, 24, 2, 12, 12, operation)
        }
    }

    /// The screen after the text from byte `offset` on is drawn with the
    /// pen at `pen`: ASCII bytes take one cell, a known GB2312 pair takes a
    /// double-width cell, any other byte draws a blank cell; a lone byte
    /// of 128 or more at the end is skipped.
    pub open spec fn text_from(
        self,
        target: BufferTarget,
        pen: int,
        y: int,
        text: Seq<u8>,
        offset: int,
        large: bool,
        operation: DrawOperation,
    ) -> DisplayView
        decreases text.len() - offset,
    {
        if offset < 0 || offset >= text.len() {
            self
        } else {
            let c = text[offset];
            let cell = if large { 8int } else { 6int };
            if c < 128 {
                self.draw_ascii(target, pen, y, c, large, operation).text_from(target, pen + cell, y, text, offset + 1, large, operation)
            } else if offset + 1 < text.len() {
                match gbk_index(c, text[offset + 1]) {
                    Some(index) => self.draw_gbk(target, pen, y, index, large, operation).text_from(
                        target,
                        pen + 2 * cell,
                        y,
                        text,
                        offset + 2,
                        large,
                        operation,
                    ),
                    None => self.draw_ascii(target, pen, y, c, large, operation).text_from(
                        target,
                        pen + cell,
                        y,
                        text,
                        offset + 1,
                        large,
                        operation,
                    ),
                }
            } else {
                self.text_from(target, pen, y, text, offset + 1, large, operation)
            }
        }
    }
}

fn font_ascii(character: u8, large: bool) -> (glyph: Glyph)
    ensures
        glyph.blank == (character >= 128),
        large ==> glyph.offset == FONT_ASCII8 + character * 16 && glyph.len == 16 && glyph.stride == 1 && glyph.width == 8 && glyph.height == 16,
        !large ==> glyph.offset == FONT_ASCII6 + character * 12 && glyph.len == 12 && glyph.stride == 1 && glyph.width == 6 && glyph.height == 12,
{
    if large {
        Glyph { offset: FONT_ASCII8 + character as usize * 16, len: 16, stride: 1, width: 8, height: 16, blank: character >= 128 }
    } else {
        Glyph { offset: FONT_ASCII6 + character as usize * 12, len: 12, stride: 1, width: 6, height: 12, blank: character >= 128 }
    }
}

fn font_gbk(first: u8, second: u8, large: bool) -> (glyph: Option<Glyph>)
    ensures
        match gbk_index(first, second) {
            None => glyph is None,
            Some(index) => glyph matches Some(g) && !g.blank && (if large {
                g.offset == FONT_GB16 + index * 32 && g.len == 32 && g.stride == 2 && g.width == 16 && g.height == 16
            } else {
                g.offset == FONT_GB12 + index * 24 && g.len == 24 && g.stride == 2 && g.width == 12 && g.height == 12
            }),
        },
{
    if !(0xa1 <= first && first <= 0xf7) || !(0xa1 <= second && second <= 0xfe) {
        return None;
    }
    let index: usize = if first < 0xb0 {
        (first - 0xa1) as usize * 94 + (second - 0xa1) as usize
    } else {
        (first - 0xa7) as usize * 94 + (second - 0xa1) as usize
    };
    if index >= FONT_GB_COUNT {
        return None;
    }
    if large {
        Some(Glyph { offset: FONT_GB16 + index * 32, len: 32, stride: 2, width: 16, height: 16, blank: false })
    } else {
        Some(Glyph { offset: FONT_GB12 + index * 24, len: 24, stride: 2, width: 12, height: 12, blank: false })
    }
}

impl Display {
    fn pixel_index128(&self, x: i128, y: i128) -> (index: Option<usize>)
        requires
            self.wf(),
        ensures
            index is Some <==> self@.in_bounds(x as int, y as int),
            index matches Some(i) ==> i == self@.index(x as int, y as int) && i < self@.area(),
    {
        if x < 0 || y < 0 || x >= self.width as i128 || y >= self.height as i128 {
            return None;
        }
        proof {
            lemma_index_in_area(self.width as int, self.height as int, x as int, y as int);
            assert(self.front@.len() == self.front.len());
        }
        Some(y as usize * self.width as usize + x as usize)
    }

    fn glyph_byte(&self, glyph: Glyph, k: usize) -> (byte: u8)
        requires
            glyph.offset + glyph.len <= usize::MAX,
        ensures
            byte == glyph_byte(self@.font, glyph.blank, glyph.offset as int, glyph.len as int, k as int),
    {
        if !glyph.blank && glyph.offset + glyph.len <= self.font.len() && k < glyph.len {
            self.font[glyph.offset + k]
        } else {
            0
        }
    }

    /// Draws one glyph with the LVM write semantics: set bits in the
    /// foreground colour, clear bits in the background colour, inverted
    /// by `Invert`.
    fn draw_glyph(&mut self, target: BufferTarget, x: i128, y: i128, glyph: Glyph, operation: DrawOperation)
        requires
            old(self).wf(),
            glyph.offset + glyph.len <= usize::MAX,
            glyph.stride <= 2,
            -0x1_0000_0000_0000_0000_0000 <= x <= 0x1_0000_0000_0000_0000_0000,
            -0x1_0000_0000_0000_0000_0000 <= y <= 0x1_0000_0000_0000_0000_0000,
        ensures
            final(self).wf(),
            final(self)@ == old(self)@.draw_glyph(
                target,
                x as int,
                y as int,
                glyph.blank,
                glyph.offset as int,
                glyph.len as int,
                glyph.stride as int,
                glyph.width as int,
                glyph.height as int,
                operation,
            ),
    {
        let ghost pixels = old(self)@.buffer(target);
        let ghost f = glyph_paint(old(self)@, glyph.blank, glyph.offset as int, glyph.len as int, glyph.stride as int, operation);
        let ghost sw = self.width as int;
        let foreground = self.foreground;
        let background = self.background;
        let mask = self.max_color();
        let width = glyph.width;
        let height = glyph.height;
        proof {
            lemma_paint_box_none(pixels, sw, x as int, y as int, width as int, f);
            assert(old(self)@.with_buffer(target, pixels) == old(self)@);
        }
        let mut row: u32 = 0;
        while row < height as u32
            invariant
                self.wf(),
                row <= height,
                width == glyph.width,
                height == glyph.height,
                glyph.offset + glyph.len <= usize::MAX,
                glyph.stride <= 2,
                -0x1_0000_0000_0000_0000_0000 <= x <= 0x1_0000_0000_0000_0000_0000,
                -0x1_0000_0000_0000_0000_0000 <= y <= 0x1_0000_0000_0000_0000_0000,
                foreground == old(self)@.foreground,
                background == old(self)@.background,
                mask == old(self)@.max_color(),
                self@.font == old(self)@.font,
                sw == self@.width,
                self@.width == old(self)@.width,
                self@.height == old(self)@.height,
                pixels == old(self)@.buffer(target),
                pixels.len() == sw * self@.height,
                f == glyph_paint(old(self)@, glyph.blank, glyph.offset as int, glyph.len as int, glyph.stride as int, operation),
                self@ == old(self)@.with_buffer(target, paint_box(pixels, sw, x as int, y as int, width as int, row * width, f)),
            decreases height - row,
        {
            let mut col: u32 = 0;
            while col < width as u32
                invariant
                    self.wf(),
                    row < height,
                    col <= width,
                    width == glyph.width,
                    height == glyph.height,
                    glyph.offset + glyph.len <= usize::MAX,
                    glyph.stride <= 2,
                    -0x1_0000_0000_0000_0000_0000 <= x <= 0x1_0000_0000_0000_0000_0000,
                    -0x1_0000_0000_0000_0000_0000 <= y <= 0x1_0000_0000_0000_0000_0000,
                    foreground == old(self)@.foreground,
                    background == old(self)@.background,
                    mask == old(self)@.max_color(),
                    self@.font == old(self)@.font,
                    sw == self@.width,
                    self@.width == old(self)@.width,
                    self@.height == old(self)@.height,
                    pixels == old(self)@.buffer(target),
                    pixels.len() == sw * self@.height,
                    f == glyph_paint(old(self)@, glyph.blank, glyph.offset as int, glyph.len as int, glyph.stride as int, operation),
                    self@ == old(self)@.with_buffer(target, paint_box(pixels, sw, x as int, y as int, width as int, row * width + col, f)),
                decreases width - col,
            {
                assert(row as usize * glyph.stride <= 0x2_0000) by (nonlinear_arith)
                    requires
                        row < 0x1_0000,
                        glyph.stride <= 2,
                ;
                let k = row as usize * glyph.stride + (col / 8) as usize;
                let byte = self.glyph_byte(glyph, k);
                let bit = byte & (0x80u8 >> ((col % 8) as u8)) != 0;
                let mut color = if bit { foreground } else { background };
                if operation == DrawOperation::Invert {
                    color = color ^ mask;
                }
                proof {
                    lemma_paint_box_step(pixels, sw, self@.height as int, x as int, y as int, width as int, col as int, row as int, f);
                }
                let ghost done = row * width + col;
                let ghost before = paint_box(pixels, sw, x as int, y as int, width as int, done, f);
                let ghost after = paint_box(pixels, sw, x as int, y as int, width as int, done + 1, f);
                match self.pixel_index128(x + col as i128, y + row as i128) {
                    Some(index) => {
                        assert(f(col as int, row as int, pixels[index as int]) == color);
                        self.set_at(target, index, color);
                    },
                    None => {},
                }
                assert(self@ =~= old(self)@.with_buffer(target, after));
                col += 1;
            }
            assert(row * width + width == (row + 1) * width) by (nonlinear_arith);
            row += 1;
        }
        assert(height * width == width * height) by (nonlinear_arith);
    }
}

impl Display {
    /// Draws text (see `DisplayView::text_from`) with the pen starting at
    /// `(x, y)`.
    pub fn draw_text(&mut self, target: BufferTarget, x: i32, y: i32, text: &[u8], large: bool, operation: DrawOperation)
        requires
            old(self).wf(),
        ensures
            final(self).wf(),
            final(self)@ == old(self)@.text_from(target, x as int, y as int, text@, 0, large, operation),
            final(self)@.same_shape(old(self)@),
    {
        proof {
            lemma_text_shape(old(self)@, target, x as int, y as int, text@, 0, large, operation);
        }
        let ghost goal = old(self)@.text_from(target, x as int, y as int, text@, 0, large, operation);
        let mut pen: i128 = x as i128;
        let mut offset: usize = 0;
        while offset < text.len()
            invariant
                self.wf(),
                offset <= text@.len(),
                x <= pen <= x + 16 * offset,
                self@.text_from(target, pen as int, y as int, text@, offset as int, large, operation) == goal,
            decreases text@.len() - offset,
        {
            let character = text[offset];
            if character < 128 {
                let glyph = font_ascii(character, large);
                self.draw_glyph(target, pen, y as i128, glyph, operation);
                pen = pen + glyph.width as i128;
                offset += 1;
            } else if offset + 1 < text.len() {
                let second = text[offset + 1];
                match font_gbk(character, second, large) {
                    Some(glyph) => {
                        self.draw_glyph(target, pen, y as i128, glyph, operation);
                        pen = pen + glyph.width as i128;
                        offset += 2;
                    },
                    None => {
                        let glyph = font_ascii(character, large);
                        self.draw_glyph(target, pen, y as i128, glyph, operation);
                        pen = pen + glyph.width as i128;
                        offset += 1;
                    },
                }
            } else {
                offset += 1;
            }
        }
    }
}

/// Bytes per row of a packed block `width` pixels wide: 8 pixels per byte
/// in monochrome, 2 with 4-bit colour, 1 with 8-bit colour.
pub open spec fn packed_stride(mode: GraphicsMode, width: int) -> int {
    match mode {
        GraphicsMode::Mono => (width + 7) / 8,
        GraphicsMode::Color4 => (width + 1) / 2,
        GraphicsMode::Color8 => width,
    }
}

/// Colour of column `col` of row `row` of a packed block: monochrome
/// pixels most significant bit first, 4-bit pixels high nibble first.
pub open spec fn packed_pixel(mode: GraphicsMode, data: Seq<u8>, stride: int, col: int, row: int) -> u8 {
    let start = row * stride;
    match mode {
        GraphicsMode::Mono => (data[start + col / 8] >> ((7 - col % 8) as u8)) & 1,
        GraphicsMode::Color4 => {
            let packed = data[start + col / 2];
            if col % 2 == 0 {
                packed >> 4u8
            } else {
                packed & 0x0f
            }
        },
        GraphicsMode::Color8 => data[start + col],
    }
}

/// How a block operation combines a screen pixel with a block pixel:
/// 3 ORs, 4 ANDs, 5 XORs, 6 draws all but colour 0, anything else
/// replaces; the result is masked to the colour range.
pub open spec fn blend(old: u8, color: u8, operation: u8, max: u8) -> u8 {
    let combined = if operation == 3 {
        old | color
    } else if operation == 4 {
        old & color
    } else if operation == 5 {
        old ^ color
    } else if operation == 6 && color == 0 {
        old
    } else {
        color
    };
    combined & max
}

/// How a block paints: the block's pixel (mirrored when asked, inverted
/// by mode bit 3 or by operation 2) blended into the screen.
pub open spec fn blit_paint(
    d: DisplayView,
    data: Seq<u8>,
    width: int,
    mode: u8,
    mirror_horizontal: bool,
) -> spec_fn(int, int, u8) -> u8 {
    |col: int, row: int, old: u8|
        {
            let operation = mode & 7;
            let source_col = if mirror_horizontal { width - 1 - col } else { col };
            let raw = packed_pixel(d.mode, data, packed_stride(d.mode, width), source_col, row);
            let color = if mode & 8 != 0 || operation == 2 { raw ^ d.max_color() } else { raw };
            blend(old, color, operation, d.max_color())
        }
}

/// Rows of a block that its data covers entirely, at most `height`.
pub open spec fn blit_rows(len: int, stride: int, height: int) -> int {
    if stride == 0 || height <= len / stride {
        height
    } else {
        len / stride
    }
}

impl DisplayView {
    /// The screen after a packed block is drawn at `(x, y)`; only the rows
    /// that the data covers entirely are drawn.
    pub open spec fn blit(
        self,
        target: BufferTarget,
        x: int,
        y: int,
        width: int,
        height: int,
        data: Seq<u8>,
        mode: u8,
        mirror_horizontal: bool,
    ) -> DisplayView {
        let rows = blit_rows(data.len() as int, packed_stride(self.mode, width), height);
        self.paint(target, x, y, width, rows, blit_paint(self, data, width, mode, mirror_horizontal))
    }
}

pub(crate) fn stride_of(mode: GraphicsMode, width: u16) -> (stride: usize)
    ensures
        stride == packed_stride(mode, width as int),
        stride <= width,
{
    match mode {
        GraphicsMode::Mono => (width as usize + 7) / 8,
        GraphicsMode::Color4 => (width as usize + 1) / 2,
        GraphicsMode::Color8 => width as usize,
    }
}

fn read_packed(mode: GraphicsMode, data: &[u8], stride: usize, width: u16, col: usize, row: usize) -> (color: u8)
    requires
        stride == packed_stride(mode, width as int),
        col < width,
        (row + 1) * stride <= data@.len(),
    ensures
        color == packed_pixel(mode, data@, stride as int, col as int, row as int),
{
    assert(row * stride + stride == (row + 1) * stride) by (nonlinear_arith);
    assert(row * stride <= (row + 1) * stride) by (nonlinear_arith);
    assert(data@.len() == data.len());
    match mode {
        GraphicsMode::Mono => {
            assert(col / 8 < stride) by (nonlinear_arith)
                requires
                    col < width,
                    stride == (width + 7) / 8,
            ;
        },
        GraphicsMode::Color4 => {
            assert(col / 2 < stride) by (nonlinear_arith)
                requires
                    col < width,
                    stride == (width + 1) / 2,
            ;
        },
        GraphicsMode::Color8 => {},
    }
    let start = row * stride;
    match mode {
        GraphicsMode::Mono => (data[start + col / 8] >> ((7 - col % 8) as u8)) & 1,
        GraphicsMode::Color4 => {
            let packed = data[start + col / 2];
            if col % 2 == 0 {
                packed >> 4u8
            } else {
                packed & 0x0f
            }
        },
        GraphicsMode::Color8 => data[start + col],
    }
}

impl Display {
    /// Draws a packed block (see `DisplayView::blit`); `mode` holds the
    /// operation in bits 0 to 2 and the inversion flag in bit 3.
    pub fn blit(
        &mut self,
        target: BufferTarget,
        x: i32,
        y: i32,
        width: u16,
        height: u16,
        source: &[u8],
        mode: u8,
        mirror_horizontal: bool,
    )
        requires
            old(self).wf(),
        ensures
            final(self).wf(),
            final(self)@ == old(self)@.blit(target, x as int, y as int, width as int, height as int, source@, mode, mirror_horizontal),
            final(self)@.same_shape(old(self)@),
    {
        proof {
            lemma_paint_shape(old(self)@, target, x as int, y as int, width as int, blit_rows(source@.len() as int, packed_stride(old(self)@.mode, width as int), height as int), blit_paint(old(self)@, source@, width as int, mode, mirror_horizontal));
        }
        let ghost pixels = old(self)@.buffer(target);
        let ghost f = blit_paint(old(self)@, source@, width as int, mode, mirror_horizontal);
        let ghost sw = self.width as int;
        let stride = stride_of(self.graphics_mode, width);
        let operation = mode & 7;
        let invert_source = mode & 8 != 0 || operation == 2;
        let max_color = self.max_color();
        let ghost rows = blit_rows(source@.len() as int, stride as int, height as int);
        proof {
            lemma_paint_box_none(pixels, sw, x as int, y as int, width as int, f);
            assert(old(self)@.with_buffer(target, pixels) == old(self)@);
        }
        let mut row: usize = 0;
        while row < height as usize
            invariant
                self.wf(),
                row <= height,
                stride == packed_stride(old(self)@.mode, width as int),
                stride <= width,
                row * stride <= source@.len(),
                row <= rows,
                rows <= height,
                rows == blit_rows(source@.len() as int, stride as int, height as int),
                operation == mode & 7,
                invert_source == (mode & 8 != 0 || operation == 2),
                max_color == old(self)@.max_color(),
                self@.mode == old(self)@.mode,
                sw == self@.width,
                self@.width == old(self)@.width,
                self@.height == old(self)@.height,
                pixels == old(self)@.buffer(target),
                pixels.len() == sw * self@.height,
                f == blit_paint(old(self)@, source@, width as int, mode, mirror_horizontal),
                self@ == old(self)@.with_buffer(target, paint_box(pixels, sw, x as int, y as int, width as int, row * width, f)),
            ensures
                self.wf(),
                row == rows,
                pixels.len() == sw * self@.height,
                self@ == old(self)@.with_buffer(target, paint_box(pixels, sw, x as int, y as int, width as int, row * width, f)),
            decreases height - row,
        {
            assert(row * stride <= 0xffff * 0xffff) by (nonlinear_arith)
                requires
                    row <= 0xffff,
                    stride <= 0xffff,
            ;
            let row_start = row * stride;
            if row_start + stride > source.len() {
                proof {
                    if stride > 0 {
                        vstd::arithmetic::div_mod::lemma_fundamental_div_mod_converse(
                            source@.len() as int,
                            stride as int,
                            row as int,
                            source@.len() - row * stride,
                        );
                    }
                }
                assert(row == rows);
                break;
            }
            assert((row + 1) * stride == row * stride + stride) by (nonlinear_arith);
            assert(row < rows) by {
                let len: int = source@.len() as int;
                let st: int = stride as int;
                let r: int = row as int;
                if st > 0 && height > len / st {
                    vstd::arithmetic::div_mod::lemma_fundamental_div_mod(len, st);
                    vstd::arithmetic::div_mod::lemma_mod_bound(len, st);
                    assert((r + 1) * st <= len);
                    assert(r + 1 <= len / st) by (nonlinear_arith)
                        requires
                            st > 0,
                            (r + 1) * st <= len,
                            len == st * (len / st) + len % st,
                            0 <= len % st < st,
                    ;
                }
            }
            let mut col: usize = 0;
            while col < width as usize
                invariant
                    self.wf(),
                    row < height,
                    row < rows,
                    col <= width,
                    stride == packed_stride(old(self)@.mode, width as int),
                    (row + 1) * stride <= source@.len(),
                    operation == mode & 7,
                    invert_source == (mode & 8 != 0 || operation == 2),
                    max_color == old(self)@.max_color(),
                    self@.mode == old(self)@.mode,
                    sw == self@.width,
                    self@.width == old(self)@.width,
                    self@.height == old(self)@.height,
                    pixels == old(self)@.buffer(target),
                    pixels.len() == sw * self@.height,
                    f == blit_paint(old(self)@, source@, width as int, mode, mirror_horizontal),
                    self@ == old(self)@.with_buffer(target, paint_box(pixels, sw, x as int, y as int, width as int, row * width + col, f)),
                decreases width - col,
            {
                let source_column = if mirror_horizontal { width as usize - 1 - col } else { col };
                let raw = read_packed(self.graphics_mode, source, stride, width, source_column, row);
                let color = if invert_source { raw ^ max_color } else { raw };
                proof {
                    lemma_paint_box_step(pixels, sw, self@.height as int, x as int, y as int, width as int, col as int, row as int, f);
                }
                let ghost after = paint_box(pixels, sw, x as int, y as int, width as int, row * width + col + 1, f);
                match self.pixel_index128(x as i128 + col as i128, y as i128 + row as i128) {
                    Some(index) => {
                        let old_value = self.get_at(target, index);
                        let combined = if operation == 3 {
                            old_value | color
                        } else if operation == 4 {
                            old_value & color
                        } else if operation == 5 {
                            old_value ^ color
                        } else if operation == 6 && color == 0 {
                            old_value
                        } else {
                            color
                        };
                        assert(f(col as int, row as int, pixels[index as int]) == combined & max_color);
                        self.set_at(target, index, combined & max_color);
                    },
                    None => {},
                }
                assert(self@ =~= old(self)@.with_buffer(target, after));
                col += 1;
            }
            assert(row * width + width == (row + 1) * width) by (nonlinear_arith);
            row += 1;
            assert(row <= rows) by {
                let len: int = source@.len() as int;
                let st: int = stride as int;
                let r: int = row as int;
                if st > 0 && height > len / st {
                    vstd::arithmetic::div_mod::lemma_fundamental_div_mod(len, st);
                    vstd::arithmetic::div_mod::lemma_mod_bound(len, st);
                    assert(r * st <= len);
                    assert(r <= len / st) by (nonlinear_arith)
                        requires
                            st > 0,
                            r * st <= len,
                            len == st * (len / st) + len % st,
                            len % st < st,
                    ;
                }
            }
        }
        assert(rows * width == width * rows) by (nonlinear_arith);
    }
}

impl DisplayView {
    /// The pixel at `(x + col, y + row)`, or the background colour off the
    /// screen.
    pub open spec fn capture_pixel(self, target: BufferTarget, x: int, y: int, col: int, row: int) -> u8 {
        if self.in_bounds(x + col, y + row) {
            self.buffer(target)[self.index(x + col, y + row)]
        } else {
            self.background
        }
    }

    /// The bits that the first `k` columns of byte `j` of a monochrome row
    /// contribute, most significant bit first.
    pub open spec fn mono_bits(self, target: BufferTarget, x: int, y: int, width: int, row: int, j: int, k: nat) -> u8
        decreases k,
    {
        if k == 0 {
            0
        } else {
            let col = j * 8 + k - 1;
            let prev = self.mono_bits(target, x, y, width, row, j, (k - 1) as nat);
            if col < width {
                prev | ((self.capture_pixel(target, x, y, col, row) & 1) << ((8 - k) as u8))
            } else {
                prev
            }
        }
    }

    /// Byte `j` of row `row` of a captured block.
    pub open spec fn capture_byte(self, target: BufferTarget, x: int, y: int, width: int, row: int, j: int) -> u8 {
        match self.mode {
            GraphicsMode::Mono => self.mono_bits(target, x, y, width, row, j, 8),
            GraphicsMode::Color4 => {
                let high = (self.capture_pixel(target, x, y, 2 * j, row) & 0x0f) << 4u8;
                let low = if 2 * j + 1 < width {
                    self.capture_pixel(target, x, y, 2 * j + 1, row) & 0x0f
                } else {
                    0
                };
                high | low
            },
            GraphicsMode::Color8 => self.capture_pixel(target, x, y, j, row),
        }
    }

    /// The `width` by `height` block at `(x, y)` packed as `blit` reads
    /// it; points off the screen read as the background colour.
    pub open spec fn capture(self, target: BufferTarget, x: int, y: int, width: int, height: int) -> Seq<u8> {
        let stride = packed_stride(self.mode, width);
        Seq::new(
            (stride * height) as nat,
            |i: int| self.capture_byte(target, x, y, width, i / stride, i % stride),
        )
    }
}

impl Display {
    fn capture_pixel(&self, target: BufferTarget, x: i32, y: i32, col: u32, row: u32) -> (color: u8)
        requires
            self.wf(),
        ensures
            color == self@.capture_pixel(target, x as int, y as int, col as int, row as int),
    {
        match self.pixel_index128(x as i128 + col as i128, y as i128 + row as i128) {
            Some(index) => self.get_at(target, index),
            None => self.background,
        }
    }

    fn capture_byte(&self, target: BufferTarget, x: i32, y: i32, width: u16, row: u32, j: u32) -> (byte: u8)
        requires
            self.wf(),
            j < packed_stride(self@.mode, width as int),
        ensures
            byte == self@.capture_byte(target, x as int, y as int, width as int, row as int, j as int),
    {
        match self.graphics_mode {
            GraphicsMode::Mono => {
                let mut acc: u8 = 0;
                let mut k: u32 = 0;
                while k < 8
                    invariant
                        self.wf(),
                        self@.mode == GraphicsMode::Mono,
                        j < packed_stride(self@.mode, width as int),
                        k <= 8,
                        acc == self@.mono_bits(target, x as int, y as int, width as int, row as int, j as int, k as nat),
                    decreases 8 - k,
                {
                    let col = j * 8 + k;
                    if col < width as u32 {
                        let pixel = self.capture_pixel(target, x, y, col, row);
                        acc = acc | ((pixel & 1) << ((7 - k) as u8));
                    }
                    k += 1;
                }
                acc
            },
            GraphicsMode::Color4 => {
                let high = (self.capture_pixel(target, x, y, 2 * j, row) & 0x0f) << 4u8;
                let low = if 2 * j + 1 < width as u32 {
                    self.capture_pixel(target, x, y, 2 * j + 1, row) & 0x0f
                } else {
                    0
                };
                high | low
            },
            GraphicsMode::Color8 => self.capture_pixel(target, x, y, j, row),
        }
    }

    /// Reads the `width` by `height` block at `(x, y)` packed in the
    /// screen's format (see `DisplayView::capture`).
    pub fn capture(&self, target: BufferTarget, x: i32, y: i32, width: u16, height: u16) -> (output: Vec<u8>)
        requires
            self.wf(),
        ensures
            output@ == self@.capture(target, x as int, y as int, width as int, height as int),
    {
        let stride = stride_of(self.graphics_mode, width);
        let ghost goal = self@.capture(target, x as int, y as int, width as int, height as int);
        let mut output: Vec<u8> = Vec::new();
        let mut row: u32 = 0;
        while row < height as u32
            invariant
                self.wf(),
                stride == packed_stride(self@.mode, width as int),
                stride <= width,
                row <= height,
                goal == self@.capture(target, x as int, y as int, width as int, height as int),
                output@ =~= goal.take(row * stride),
            decreases height - row,
        {
            let mut j: usize = 0;
            while j < stride
                invariant
                    self.wf(),
                    stride == packed_stride(self@.mode, width as int),
                    stride <= width,
                    row < height,
                    j <= stride,
                    goal == self@.capture(target, x as int, y as int, width as int, height as int),
                    output@ =~= goal.take(row * stride + j),
                decreases stride - j,
            {
                let byte = self.capture_byte(target, x, y, width, row, j as u32);
                proof {
                    vstd::arithmetic::div_mod::lemma_fundamental_div_mod_converse(
                        row * stride + j,
                        stride as int,
                        row as int,
                        j as int,
                    );
                    assert(row * stride + j < stride * height) by (nonlinear_arith)
                        requires
                            row < height,
                            j < stride,
                    ;
                }
                output.push(byte);
                j += 1;
            }
            assert(row * stride + stride == (row + 1) * stride) by (nonlinear_arith);
            row += 1;
        }
        assert(height * stride == stride * height) by (nonlinear_arith);
        output
    }
}

/// Pixel `(c, r)` of the back buffer after a transform: shifts bring in
/// the background colour at the edge they leave open, mirrors reflect,
/// and restoring copies the front buffer.
pub open spec fn transform_pixel(d: DisplayView, transform: Transform, r: int, c: int) -> u8 {
    let w = d.width as int;
    let h = d.height as int;
    let b = d.back;
    match transform {
        Transform::Left => if c < w - 1 { b[r * w + c + 1] } else { d.background },
        Transform::Right => if c > 0 { b[r * w + c - 1] } else { d.background },
        Transform::Up => if r < h - 1 { b[(r + 1) * w + c] } else { d.background },
        Transform::Down => if r > 0 { b[(r - 1) * w + c] } else { d.background },
        Transform::MirrorHorizontal => b[r * w + (w - 1 - c)],
        Transform::MirrorVertical => b[(h - 1 - r) * w + c],
        Transform::RestoreBackBuffer => d.front[r * w + c],
    }
}

impl DisplayView {
    /// The screen after a whole-screen transform of the back buffer.
    pub open spec fn transform(self, transform: Transform) -> DisplayView {
        let w = self.width as int;
        DisplayView { back: Seq::new(self.area() as nat, |i: int| transform_pixel(self, transform, i / w, i % w)), ..self }
    }

    /// The transforms that need a non-empty row or column.
    pub open spec fn transform_allowed(self, transform: Transform) -> bool {
        &&& (transform == Transform::Left || transform == Transform::Right || transform == Transform::MirrorHorizontal) ==> self.width > 0
        &&& (transform == Transform::Up || transform == Transform::Down) ==> self.height > 0
    }

    /// The front buffer after a fade: each back-buffer pixel raised to at
    /// least the level that `amount` selects (no effect in monochrome).
    pub open spec fn fade(self, amount: u8) -> DisplayView {
        if self.mode == GraphicsMode::Mono {
            self
        } else {
            let floor = (amount & 0x0f) ^ 0x0f;
            DisplayView { front: Seq::new(self.back.len(), |i: int| if self.back[i] >= floor { self.back[i] } else { floor }), ..self }
        }
    }
}

/// A palette entry as a 0x00RRGGBB word.
pub open spec fn xrgb(c: [u8; 3]) -> u32 {
    ((c[0] as u32) << 16u32) | ((c[1] as u32) << 8u32) | (c[2] as u32)
}

/// Byte `k` (red, green, blue, alpha) of an opaque RGBA pixel.
pub open spec fn rgba_byte(c: [u8; 3], k: int) -> u8 {
    if k == 3 {
        0xff
    } else {
        c[k]
    }
}

/// A palette entry as an RGB565 word.
pub open spec fn rgb565(c: [u8; 3]) -> u16 {
    (((c[0] >> 3u8) as u16) << 11u16) | (((c[1] >> 2u8) as u16) << 5u16) | ((c[2] >> 3u8) as u16)
}

impl Display {
    fn transform_pixel(&self, transform: Transform, r: usize, c: usize) -> (value: u8)
        requires
            self.wf(),
            r < self@.height,
            c < self@.width,
        ensures
            value == transform_pixel(self@, transform, r as int, c as int),
    {
        let w = self.width as usize;
        let h = self.height as usize;
        proof {
            lemma_area_fits(self.width, self.height);
            lemma_index_in_area(w as int, h as int, c as int, r as int);
            lemma_index_in_area(w as int, h as int, (w - 1 - c) as int, r as int);
            lemma_index_in_area(w as int, h as int, c as int, (h - 1 - r) as int);
            if c + 1 < w {
                lemma_index_in_area(w as int, h as int, (c + 1) as int, r as int);
            }
            if c > 0 {
                lemma_index_in_area(w as int, h as int, (c - 1) as int, r as int);
            }
            if r + 1 < h {
                lemma_index_in_area(w as int, h as int, c as int, (r + 1) as int);
            }
            if r > 0 {
                lemma_index_in_area(w as int, h as int, c as int, (r - 1) as int);
            }
        }
        match transform {
            Transform::Left => if c + 1 < w { self.back[r * w + c + 1] } else { self.background },
            Transform::Right => if c > 0 { self.back[r * w + c - 1] } else { self.background },
            Transform::Up => if r + 1 < h { self.back[(r + 1) * w + c] } else { self.background },
            Transform::Down => if r > 0 { self.back[(r - 1) * w + c] } else { self.background },
            Transform::MirrorHorizontal => self.back[r * w + (w - 1 - c)],
            Transform::MirrorVertical => self.back[(h - 1 - r) * w + c],
            Transform::RestoreBackBuffer => self.front[r * w + c],
        }
    }

    /// Shifts, mirrors or restores the back buffer (see
    /// `DisplayView::transform`).
    pub fn transform(&mut self, transform: Transform)
        requires
            old(self).wf(),
            old(self)@.transform_allowed(transform),
        ensures
            final(self).wf(),
            final(self)@ == old(self)@.transform(transform),
            final(self)@.same_shape(old(self)@),
    {
        let w = self.width as usize;
        let h = self.height as usize;
        let ghost goal = self@.transform(transform).back;
        let mut pixels: Vec<u8> = Vec::new();
        let mut r: usize = 0;
        while r < h
            invariant
                self == old(self),
                self.wf(),
                w == self@.width,
                h == self@.height,
                r <= h,
                goal == self@.transform(transform).back,
                pixels@ =~= goal.take(r * w),
            decreases h - r,
        {
            let mut c: usize = 0;
            while c < w
                invariant
                    self == old(self),
                    self.wf(),
                    w == self@.width,
                    h == self@.height,
                    r < h,
                    c <= w,
                    goal == self@.transform(transform).back,
                    pixels@ =~= goal.take(r * w + c),
                decreases w - c,
            {
                let value = self.transform_pixel(transform, r, c);
                proof {
                    vstd::arithmetic::div_mod::lemma_fundamental_div_mod_converse(r * w + c, w as int, r as int, c as int);
                    lemma_index_in_area(w as int, h as int, c as int, r as int);
                }
                pixels.push(value);
                c += 1;
            }
            assert(r * w + w == (r + 1) * w) by (nonlinear_arith);
            r += 1;
        }
        assert(h * w == w * h) by (nonlinear_arith);
        self.back = pixels;
        assert(self@ =~= old(self)@.transform(transform));
    }

    /// Fades the screen towards white (see `DisplayView::fade`).
    pub fn fade(&mut self, amount: u8)
        requires
            old(self).wf(),
        ensures
            final(self).wf(),
            final(self)@ == old(self)@.fade(amount),
            final(self)@.same_shape(old(self)@),
    {
        if self.graphics_mode == GraphicsMode::Mono {
            return;
        }
        let floor = (amount & 0x0f) ^ 0x0f;
        let n = self.back.len();
        let mut i: usize = 0;
        while i < n
            invariant
                self.wf(),
                self@.mode == old(self)@.mode,
                n == self@.back.len(),
                i <= n,
                self@ == (DisplayView {
                    front: Seq::new(n as nat, |k: int| if k < i {
                        if old(self)@.back[k] >= floor { old(self)@.back[k] } else { floor }
                    } else {
                        old(self)@.front[k]
                    }),
                    ..old(self)@
                }),
            decreases n - i,
        {
            let value = self.back[i];
            let ghost before = self@;
            self.front.set(i, if value >= floor { value } else { floor });
            assert(self@.front =~= Seq::new(n as nat, |k: int| if k < i + 1 {
                if old(self)@.back[k] >= floor { old(self)@.back[k] } else { floor }
            } else {
                old(self)@.front[k]
            }));
            i += 1;
        }
        assert(self@ =~= old(self)@.fade(amount));
    }

    /// Converts the screen to 0x00RRGGBB words through the palette.
    pub fn to_xrgb8888(&self, output: &mut Vec<u32>)
        requires
            self.wf(),
        ensures
            final(output)@ == Seq::new(self@.front.len(), |i: int| xrgb(self@.palette[self@.front[i] as int])),
    {
        output.clear();
        let n = self.front.len();
        let mut i: usize = 0;
        while i < n
            invariant
                self.wf(),
                n == self@.front.len(),
                i <= n,
                output@ =~= Seq::new(i as nat, |k: int| xrgb(self@.palette[self@.front[k] as int])),
            decreases n - i,
        {
            let color = self.palette[self.front[i] as usize];
            output.push(((color[0] as u32) << 16u32) | ((color[1] as u32) << 8u32) | (color[2] as u32));
            i += 1;
        }
    }

    /// Converts the screen to RGBA bytes through the palette, fully opaque.
    pub fn to_rgba8888(&self, output: &mut Vec<u8>)
        requires
            self.wf(),
        ensures
            final(output)@ == Seq::new(
                4 * self@.front.len(),
                |i: int| rgba_byte(self@.palette[self@.front[i / 4] as int], i % 4),
            ),
    {
        output.clear();
        let n = self.front.len();
        let mut i: usize = 0;
        while i < n
            invariant
                self.wf(),
                n == self@.front.len(),
                i <= n,
                output@ =~= Seq::new(4 * i as nat, |k: int| rgba_byte(self@.palette[self@.front[k / 4] as int], k % 4)),
            decreases n - i,
        {
            let color = self.palette[self.front[i] as usize];
            let ghost before = output@;
            output.push(color[0]);
            output.push(color[1]);
            output.push(color[2]);
            output.push(0xff);
            assert forall|k: int| 0 <= k < 4 * (i + 1) implies #[trigger] output@[k] == rgba_byte(
                self@.palette[self@.front[k / 4] as int],
                k % 4,
            ) by {
                if k >= 4 * i {
                    vstd::arithmetic::div_mod::lemma_fundamental_div_mod_converse(k, 4, i as int, k - 4 * i);
                } else {
                    assert(output@[k] == before[k]);
                }
            }
            i += 1;
        }
    }

    /// Converts the screen to RGB565 words through the palette.
    pub fn to_rgb565(&self, output: &mut Vec<u16>)
        requires
            self.wf(),
        ensures
            final(output)@ == Seq::new(self@.front.len(), |i: int| rgb565(self@.palette[self@.front[i] as int])),
    {
        output.clear();
        let n = self.front.len();
        let mut i: usize = 0;
        while i < n
            invariant
                self.wf(),
                n == self@.front.len(),
                i <= n,
                output@ =~= Seq::new(i as nat, |k: int| rgb565(self@.palette[self@.front[k] as int])),
            decreases n - i,
        {
            let color = self.palette[self.front[i] as usize];
            output.push((((color[0] >> 3u8) as u16) << 11u16) | (((color[1] >> 2u8) as u16) << 5u16) | ((color[2] >> 3u8) as u16));
            i += 1;
        }
    }
}

/// A screen of `u16` dimensions has fewer than 2^32 pixels.
pub proof fn lemma_area_fits(width: u16, height: u16)
    ensures
        0 <= width * height <= 0xfffe_0001,
        width * height <= usize::MAX,
{
    assert(0 <= width * height <= 0xfffe_0001) by (nonlinear_arith)
        requires
            width <= 0xffff,
            height <= 0xffff,
    ;
}

pub proof fn lemma_index_in_area(w: int, h: int, x: int, y: int)
    requires
        0 <= x < w,
        0 <= y < h,
    ensures
        0 <= y * w + x < w * h,
{
    assert(y * w + x < w * h) by (nonlinear_arith)
        requires
            0 <= x < w,
            0 <= y < h,
    ;
    assert(0 <= y * w) by (nonlinear_arith)
        requires
            0 <= y,
            0 <= w,
    ;
}

impl DisplayView {
    /// Two screens of the same size, mode, colours, palette and font.
    pub open spec fn same_shape(self, other: DisplayView) -> bool {
        &&& self.width == other.width
        &&& self.height == other.height
        &&& self.mode == other.mode
        &&& self.background == other.background
        &&& self.foreground == other.foreground
        &&& self.palette == other.palette
        &&& self.font == other.font
    }
}

pub proof fn lemma_paint_shape(d: DisplayView, target: BufferTarget, x: int, y: int, w: int, h: int, f: spec_fn(int, int, u8) -> u8)
    requires
        d.wf(),
    ensures
        d.paint(target, x, y, w, h, f).wf(),
        d.paint(target, x, y, w, h, f).same_shape(d),
{
}

pub proof fn lemma_line_shape(d: DisplayView, target: BufferTarget, x0: int, y0: int, x1: int, y1: int, operation: DrawOperation)
    requires
        d.wf(),
    ensures
        d.draw_line(target, x0, y0, x1, y1, operation).wf(),
        d.draw_line(target, x0, y0, x1, y1, operation).same_shape(d),
{
    lemma_draw_points_wf(d, target, line_points(x0, y0, x1, y1), operation);
}

pub proof fn lemma_lines_shape(d: DisplayView, target: BufferTarget, lines: Seq<(int, int, int, int)>, operation: DrawOperation)
    requires
        d.wf(),
    ensures
        d.draw_lines(target, lines, operation).wf(),
        d.draw_lines(target, lines, operation).same_shape(d),
    decreases lines.len(),
{
    if lines.len() > 0 {
        lemma_lines_shape(d, target, lines.drop_last(), operation);
        let l = lines.last();
        lemma_line_shape(d.draw_lines(target, lines.drop_last(), operation), target, l.0, l.1, l.2, l.3, operation);
    }
}

pub proof fn lemma_rectangle_shape(
    d: DisplayView,
    target: BufferTarget,
    x0: int,
    y0: int,
    x1: int,
    y1: int,
    filled: bool,
    operation: DrawOperation,
)
    requires
        d.wf(),
    ensures
        d.draw_rectangle(target, x0, y0, x1, y1, filled, operation).wf(),
        d.draw_rectangle(target, x0, y0, x1, y1, filled, operation).same_shape(d),
{
    let left = if x0 <= x1 { x0 } else { x1 };
    let right = if x0 <= x1 { x1 } else { x0 };
    let top = if y0 <= y1 { y0 } else { y1 };
    let bottom = if y0 <= y1 { y1 } else { y0 };
    lemma_lines_shape(d, target, rectangle_rows(left, right, top, bottom - top + 1), operation);
    lemma_lines_shape(
        d,
        target,
        seq![(left, top, right, top), (left, bottom, right, bottom), (left, top, left, bottom), (right, top, right, bottom)],
        operation,
    );
}

pub proof fn lemma_ellipse_rows_shape(
    d: DisplayView,
    target: BufferTarget,
    cx: int,
    cy: int,
    rx: int,
    ry: int,
    filled: bool,
    operation: DrawOperation,
    count: nat,
)
    requires
        d.wf(),
    ensures
        d.ellipse_rows(target, cx, cy, rx, ry, filled, operation, count).wf(),
        d.ellipse_rows(target, cx, cy, rx, ry, filled, operation, count).same_shape(d),
    decreases count,
{
    if count > 0 {
        lemma_ellipse_rows_shape(d, target, cx, cy, rx, ry, filled, operation, (count - 1) as nat);
        let p = d.ellipse_rows(target, cx, cy, rx, ry, filled, operation, (count - 1) as nat);
        let y = count - 1 - ry;
        let e = ellipse_extent(rx, ry, y);
        lemma_line_shape(p, target, cx - e, cy + y, cx + e, cy + y, operation);
        lemma_draw_pixel_wf(p, target, cx - e, cy + y, operation);
        lemma_draw_pixel_wf(p.draw_pixel(target, cx - e, cy + y, operation), target, cx + e, cy + y, operation);
    }
}

pub proof fn lemma_ellipse_shape(
    d: DisplayView,
    target: BufferTarget,
    cx: int,
    cy: int,
    rx: int,
    ry: int,
    filled: bool,
    operation: DrawOperation,
)
    requires
        d.wf(),
    ensures
        d.draw_ellipse(target, cx, cy, rx, ry, filled, operation).wf(),
        d.draw_ellipse(target, cx, cy, rx, ry, filled, operation).same_shape(d),
{
    lemma_draw_pixel_wf(d, target, cx, cy, operation);
    lemma_line_shape(d, target, cx, cy - ry, cx, cy + ry, operation);
    lemma_line_shape(d, target, cx - rx, cy, cx + rx, cy, operation);
    lemma_ellipse_rows_shape(d, target, cx, cy, rx, ry, filled, operation, (2 * ry + 1) as nat);
}

pub proof fn lemma_text_shape(
    d: DisplayView,
    target: BufferTarget,
    pen: int,
    y: int,
    text: Seq<u8>,
    offset: int,
    large: bool,
    operation: DrawOperation,
)
    requires
        d.wf(),
    ensures
        d.text_from(target, pen, y, text, offset, large, operation).wf(),
        d.text_from(target, pen, y, text, offset, large, operation).same_shape(d),
    decreases text.len() - offset,
{
    if 0 <= offset < text.len() {
        let c = text[offset];
        let cell = if large { 8int } else { 6int };
        let a = d.draw_ascii(target, pen, y, c, large, operation);
        lemma_text_shape(a, target, pen + cell, y, text, offset + 1, large, operation);
        if offset + 1 < text.len() {
            if let Some(index) = gbk_index(c, text[offset + 1]) {
                let g = d.draw_gbk(target, pen, y, index, large, operation);
                lemma_text_shape(g, target, pen + 2 * cell, y, text, offset + 2, large, operation);
            }
        } else {
            lemma_text_shape(d, target, pen, y, text, offset + 1, large, operation);
        }
    }
}


/// What each whole-screen transform does to the back-buffer pixel at
/// `(x, y)`: shifting up takes the pixel from the row below (and the
/// bottom row becomes background), down from the row above (the top row
/// becomes background), left from the column to the right, right from the
/// column to the left; mirrors reflect across the middle; restoring
/// copies the front buffer. Nothing but the back buffer changes.
pub proof fn law_transform_moves_pixels(d: DisplayView, x: int, y: int)
    requires
        d.wf(),
        d.in_bounds(x, y),
    ensures
        d.transform(Transform::Up).back[d.index(x, y)] == if y + 1 < d.height {
            d.back[d.index(x, y + 1)]
        } else {
            d.background
        },
        d.transform(Transform::Down).back[d.index(x, y)] == if y > 0 {
            d.back[d.index(x, y - 1)]
        } else {
            d.background
        },
        d.transform(Transform::Left).back[d.index(x, y)] == if x + 1 < d.width {
            d.back[d.index(x + 1, y)]
        } else {
            d.background
        },
        d.transform(Transform::Right).back[d.index(x, y)] == if x > 0 {
            d.back[d.index(x - 1, y)]
        } else {
            d.background
        },
        d.transform(Transform::MirrorHorizontal).back[d.index(x, y)] == d.back[d.index(d.width - 1 - x, y)],
        d.transform(Transform::MirrorVertical).back[d.index(x, y)] == d.back[d.index(x, d.height - 1 - y)],
        d.transform(Transform::RestoreBackBuffer).back[d.index(x, y)] == d.front[d.index(x, y)],
        forall|t: Transform|
            {
                let e = #[trigger] d.transform(t);
                &&& e.wf()
                &&& e.front == d.front
                &&& e.same_shape(d)
            },
{
    let w = d.width as int;
    let h = d.height as int;
    let i = d.index(x, y);
    lemma_index_in_area(w, h, x, y);
    vstd::arithmetic::div_mod::lemma_fundamental_div_mod_converse(i, w, y, x);
    assert(i / w == y && i % w == x);
}

/// Drawing one on-screen pixel changes that pixel of the chosen buffer and
/// nothing else: clearing paints black on a monochrome screen and the
/// background colour otherwise, drawing paints the foreground colour, and
/// inverting flips every bit of the colour range (the one bit of a
/// monochrome pixel, the low 4 or all 8 bits in the colour modes). A
/// point off the screen changes nothing.
pub proof fn law_draw_pixel(d: DisplayView, target: BufferTarget, x: int, y: int, operation: DrawOperation)
    requires
        d.wf(),
    ensures
        ({
            let e = d.draw_pixel(target, x, y, operation);
            let old = d.buffer(target)[d.index(x, y)];
            let mask: u8 = if d.mode == GraphicsMode::Mono {
                1
            } else if d.mode == GraphicsMode::Color4 {
                0x0f
            } else {
                0xff
            };
            &&& !d.in_bounds(x, y) ==> e == d
            &&& d.in_bounds(x, y) ==> {
                &&& e.same_shape(d)
                &&& e.wf()
                &&& operation == DrawOperation::Clear ==> e.buffer(target)[d.index(x, y)] == if d.mode
                    == GraphicsMode::Mono {
                    0
                } else {
                    d.background
                }
                &&& operation == DrawOperation::Draw ==> e.buffer(target)[d.index(x, y)] == d.foreground
                &&& operation == DrawOperation::Invert ==> e.buffer(target)[d.index(x, y)] == old ^ mask
                &&& forall|i: int|
                    0 <= i < d.area() && i != d.index(x, y) ==> #[trigger] e.buffer(target)[i] == d.buffer(target)[i]
                &&& forall|other: BufferTarget| other != target ==> #[trigger] e.buffer(other) == d.buffer(other)
            }
        }),
{
    if d.in_bounds(x, y) {
        lemma_index_in_area(d.width as int, d.height as int, x, y);
    }
}

/// Fading sets each front-buffer pixel of a colour screen to its
/// back-buffer pixel, raised to at least 15 minus the low 4 bits of the
/// amount; a monochrome screen does not fade. Only the front buffer
/// changes.
pub proof fn law_fade(d: DisplayView, amount: u8)
    requires
        d.wf(),
    ensures
        d.mode == GraphicsMode::Mono ==> d.fade(amount) == d,
        d.mode != GraphicsMode::Mono ==> {
            let e = d.fade(amount);
            let floor = 15 - amount % 16;
            &&& e.back == d.back
            &&& e.same_shape(d)
            &&& e.front.len() == d.back.len()
            &&& forall|i: int|
                0 <= i < d.area() ==> #[trigger] e.front[i] == if d.back[i] >= floor {
                    d.back[i] as int
                } else {
                    floor
                }
        },
{
    assert((amount & 0x0f) ^ 0x0f == 15 - amount % 16) by (bit_vector);
}

/// Inverting a pixel twice gives the screen back unchanged.
pub proof fn law_invert_twice(d: DisplayView, target: BufferTarget, x: int, y: int)
    requires
        d.wf(),
    ensures
        d.draw_pixel(target, x, y, DrawOperation::Invert).draw_pixel(target, x, y, DrawOperation::Invert) == d,
{
    if d.in_bounds(x, y) {
        lemma_index_in_area(d.width as int, d.height as int, x, y);
        let i = d.index(x, y);
        let p = d.buffer(target)[i];
        let m = d.max_color();
        assert((p ^ m) ^ m == p) by (bit_vector);
        let e = d.draw_pixel(target, x, y, DrawOperation::Invert);
        assert(e.buffer(target).update(i, p) =~= d.buffer(target));
    }
}

/// Drawing a pixel with `Draw` or `Clear` twice is the same as once.
pub proof fn law_draw_twice(d: DisplayView, target: BufferTarget, x: int, y: int, operation: DrawOperation)
    requires
        d.wf(),
        !(operation is Invert),
    ensures
        d.draw_pixel(target, x, y, operation).draw_pixel(target, x, y, operation) == d.draw_pixel(target, x, y, operation),
{
    if d.in_bounds(x, y) {
        lemma_index_in_area(d.width as int, d.height as int, x, y);
        let e = d.draw_pixel(target, x, y, operation);
        let i = d.index(x, y);
        assert(e.buffer(target).update(i, e.painted(operation, e.buffer(target)[i])) =~= e.buffer(target));
    }
}


/// A block pixel as a copy writes it: already within the colour range.
proof fn lemma_packed_pixel_in_range(mode: GraphicsMode, data: Seq<u8>, stride: int, col: int, row: int)
    ensures
        packed_pixel(mode, data, stride, col, row) & spec_max_color(mode) == packed_pixel(mode, data, stride, col, row),
{
    let start = row * stride;
    match mode {
        GraphicsMode::Mono => {
            let b = data[start + col / 8];
            let sh = (7 - col % 8) as u8;
            assert(((b >> sh) & 1u8) & 1u8 == (b >> sh) & 1u8) by (bit_vector);
        },
        GraphicsMode::Color4 => {
            let b = data[start + col / 2];
            assert((b >> 4u8) & 15u8 == b >> 4u8) by (bit_vector);
            assert((b & 0x0fu8) & 15u8 == b & 0x0fu8) by (bit_vector);
        },
        GraphicsMode::Color8 => {
            let b = data[start + col];
            assert(b & 255u8 == b) by (bit_vector);
        },
    }
}

/// After a plain copy of a block inside the screen, each of its points
/// shows the block's pixel.
proof fn lemma_blit_pixel(
    d: DisplayView,
    target: BufferTarget,
    x: int,
    y: int,
    width: int,
    height: int,
    data: Seq<u8>,
    col: int,
    row: int,
)
    requires
        d.wf(),
        0 <= x,
        0 <= y,
        x + width <= d.width,
        y + height <= d.height,
        0 <= col < width,
        0 <= row < height,
        blit_rows(data.len() as int, packed_stride(d.mode, width), height) == height,
    ensures
        d.blit(target, x, y, width, height, data, 0, false).capture_pixel(target, x, y, col, row) == packed_pixel(
            d.mode,
            data,
            packed_stride(d.mode, width),
            col,
            row,
        ),
{
    let e = d.blit(target, x, y, width, height, data, 0, false);
    let w = d.width as int;
    let idx = (y + row) * w + (x + col);
    lemma_index_in_area(w, d.height as int, x + col, y + row);
    vstd::arithmetic::div_mod::lemma_fundamental_div_mod_converse(idx, w, y + row, x + col);
    assert(row * width + col < width * height) by (nonlinear_arith)
        requires
            0 <= col < width,
            0 <= row < height,
    ;
    let stride = packed_stride(d.mode, width);
    lemma_packed_pixel_in_range(d.mode, data, stride, col, row);
    assert(0u8 & 7u8 == 0u8) by (bit_vector);
    assert(0u8 & 8u8 == 0u8) by (bit_vector);
    let f = blit_paint(d, data, width, 0, false);
    assert(f(col, row, d.buffer(target)[idx]) == blend(
        d.buffer(target)[idx],
        packed_pixel(d.mode, data, stride, col, row),
        0,
        d.max_color(),
    ));
    let painted = paint_box(d.buffer(target), w, x, y, width, width * height, f);
    assert(idx % w - x == col && idx / w - y == row);
    assert(painted[idx] == f(col, row, d.buffer(target)[idx]));
    assert(e == d.with_buffer(target, painted));
    assert(e.buffer(target)[idx] == blend(d.buffer(target)[idx], packed_pixel(d.mode, data, stride, col, row), 0, d.max_color()));
}


/// The first `k` bits of a captured monochrome byte are those of `b` when
/// each of its points shows the matching bit of `b`.
proof fn lemma_mono_prefix(
    e: DisplayView,
    target: BufferTarget,
    x: int,
    y: int,
    width: int,
    row: int,
    j: int,
    b: u8,
    k: nat,
)
    requires
        k <= 8,
        j * 8 + 7 < width,
        forall|q: int| 0 <= q < 8 ==> #[trigger] e.capture_pixel(target, x, y, j * 8 + q, row) == (b >> ((7 - q) as u8))
            & 1u8,
    ensures
        e.mono_bits(target, x, y, width, row, j, k) == b & ((0xff00u16 >> (k as u16)) as u8),
    decreases k,
{
    if k == 0 {
        assert(b & ((0xff00u16 >> 0u16) as u8) == 0) by (bit_vector);
    } else {
        lemma_mono_prefix(e, target, x, y, width, row, j, b, (k - 1) as nat);
        let p = e.capture_pixel(target, x, y, j * 8 + (k - 1), row);
        let kb: u16 = k as u16;
        let km: u16 = (k - 1) as u16;
        let sh: u8 = (8 - k) as u8;
        assert(p == (b >> sh) & 1u8);
        assert((b & ((0xff00u16 >> km) as u8)) | ((p & 1u8) << sh) == b & ((0xff00u16 >> kb) as u8)) by (bit_vector)
            requires
                p == (b >> sh) & 1u8,
                1u16 <= kb <= 8u16,
                km + 1 == kb,
                sh + kb == 8,
        ;
    }
}

/// A block copied onto the screen (mode 0, no mirror) and captured again
/// from the same place comes back unchanged, when it lies inside the
/// screen and its rows fill whole bytes.
pub proof fn law_blit_then_capture(
    d: DisplayView,
    target: BufferTarget,
    x: int,
    y: int,
    width: int,
    height: int,
    data: Seq<u8>,
)
    requires
        d.wf(),
        0 <= x,
        0 <= y,
        0 <= width,
        0 <= height,
        x + width <= d.width,
        y + height <= d.height,
        data.len() == packed_stride(d.mode, width) * height,
        d.mode is Mono ==> width % 8 == 0,
        d.mode is Color4 ==> width % 2 == 0,
    ensures
        d.blit(target, x, y, width, height, data, 0, false).capture(target, x, y, width, height) == data,
{
    let e = d.blit(target, x, y, width, height, data, 0, false);
    let stride = packed_stride(d.mode, width);
    assert(blit_rows(data.len() as int, stride, height) == height) by {
        if stride != 0 {
            vstd::arithmetic::div_mod::lemma_div_multiples_vanish(height, stride);
        }
    }
    let c = e.capture(target, x, y, width, height);
    assert(c.len() == data.len());
    assert forall|i: int| 0 <= i < data.len() implies #[trigger] c[i] == data[i] by {
        let row = i / stride;
        let j = i % stride;
        vstd::arithmetic::div_mod::lemma_fundamental_div_mod(i, stride);
        assert(i == row * stride + j);
        assert(0 <= row < height) by (nonlinear_arith)
            requires
                i == row * stride + j,
                0 <= j < stride,
                0 <= i < stride * height,
        ;
        let b = data[i];
        match d.mode {
            GraphicsMode::Mono => {
                assert(j * 8 + 7 < width) by (nonlinear_arith)
                    requires
                        0 <= j < stride,
                        stride == (width + 7) / 8,
                        width % 8 == 0,
                ;
                assert forall|q: int| 0 <= q < 8 implies #[trigger] e.capture_pixel(target, x, y, j * 8 + q, row) == (b
                    >> ((7 - q) as u8)) & 1u8 by {
                    lemma_blit_pixel(d, target, x, y, width, height, data, j * 8 + q, row);
                    vstd::arithmetic::div_mod::lemma_fundamental_div_mod_converse(j * 8 + q, 8, j, q);
                }
                lemma_mono_prefix(e, target, x, y, width, row, j, b, 8);
                assert(b & ((0xff00u16 >> 8u16) as u8) == b) by (bit_vector);
            },
            GraphicsMode::Color4 => {
                assert(2 * j + 1 < width) by (nonlinear_arith)
                    requires
                        0 <= j < stride,
                        stride == (width + 1) / 2,
                        width % 2 == 0,
                ;
                lemma_blit_pixel(d, target, x, y, width, height, data, 2 * j, row);
                lemma_blit_pixel(d, target, x, y, width, height, data, 2 * j + 1, row);
                vstd::arithmetic::div_mod::lemma_fundamental_div_mod_converse(2 * j, 2, j, 0);
                vstd::arithmetic::div_mod::lemma_fundamental_div_mod_converse(2 * j + 1, 2, j, 1);
                assert((((b >> 4u8) & 0x0fu8) << 4u8) | ((b & 0x0fu8) & 0x0fu8) == b) by (bit_vector);
            },
            GraphicsMode::Color8 => {
                lemma_blit_pixel(d, target, x, y, width, height, data, j, row);
            },
        }
    }
    assert(c =~= data);
}


/// `v` lies between `u` and `w`, in either order.
pub open spec fn between(v: int, u: int, w: int) -> bool {
    (u <= v <= w) || (w <= v <= u)
}

/// `e` differs from `d` at most in the pixels of buffer `target` inside the
/// box from `(x0, y0)` to `(x1, y1)`; the other buffer, the size, colours,
/// palette and font are the same.
pub open spec fn changed_within(d: DisplayView, e: DisplayView, target: BufferTarget, x0: int, x1: int, y0: int, y1: int) -> bool {
    &&& e.same_shape(d)
    &&& e.wf() == d.wf()
    &&& (match target {
        BufferTarget::Front => e.back == d.back && e.front.len() == d.front.len(),
        BufferTarget::Back => e.front == d.front && e.back.len() == d.back.len(),
    })
    &&& forall|x: int, y: int|
        #![trigger e.buffer(target)[d.index(x, y)]]
        d.in_bounds(x, y) && !(x0 <= x <= x1 && y0 <= y <= y1) ==> e.buffer(target)[d.index(x, y)] == d.buffer(
            target,
        )[d.index(x, y)]
}

proof fn lemma_index_injective(w: int, h: int, x: int, y: int, x2: int, y2: int)
    requires
        0 <= x < w,
        0 <= y < h,
        0 <= x2 < w,
        0 <= y2 < h,
        y * w + x == y2 * w + x2,
    ensures
        x == x2 && y == y2,
{
    vstd::arithmetic::div_mod::lemma_fundamental_div_mod_converse(y * w + x, w, y, x);
    vstd::arithmetic::div_mod::lemma_fundamental_div_mod_converse(y2 * w + x2, w, y2, x2);
}

proof fn lemma_within_trans(
    d: DisplayView,
    e: DisplayView,
    f: DisplayView,
    target: BufferTarget,
    x0: int,
    x1: int,
    y0: int,
    y1: int,
)
    requires
        changed_within(d, e, target, x0, x1, y0, y1),
        changed_within(e, f, target, x0, x1, y0, y1),
    ensures
        changed_within(d, f, target, x0, x1, y0, y1),
{
    assert forall|x: int, y: int| d.in_bounds(x, y) && !(x0 <= x <= x1 && y0 <= y <= y1) implies #[trigger] f.buffer(
        target,
    )[d.index(x, y)] == d.buffer(target)[d.index(x, y)] by {
        assert(e.index(x, y) == d.index(x, y));
        assert(f.buffer(target)[e.index(x, y)] == e.buffer(target)[e.index(x, y)]);
        assert(e.buffer(target)[d.index(x, y)] == d.buffer(target)[d.index(x, y)]);
    }
}

proof fn lemma_pixel_within(
    d: DisplayView,
    target: BufferTarget,
    px: int,
    py: int,
    operation: DrawOperation,
    x0: int,
    x1: int,
    y0: int,
    y1: int,
)
    requires
        d.wf(),
        x0 <= px <= x1,
        y0 <= py <= y1,
    ensures
        changed_within(d, d.draw_pixel(target, px, py, operation), target, x0, x1, y0, y1),
{
    let e = d.draw_pixel(target, px, py, operation);
    lemma_draw_pixel_wf(d, target, px, py, operation);
    if d.in_bounds(px, py) {
        lemma_index_in_area(d.width as int, d.height as int, px, py);
        assert forall|x: int, y: int| d.in_bounds(x, y) && !(x0 <= x <= x1 && y0 <= y <= y1) implies #[trigger] e.buffer(
            target,
        )[d.index(x, y)] == d.buffer(target)[d.index(x, y)] by {
            lemma_index_in_area(d.width as int, d.height as int, x, y);
            if d.index(x, y) == d.index(px, py) {
                lemma_index_injective(d.width as int, d.height as int, x, y, px, py);
            }
        }
    }
}

proof fn lemma_points_within(
    d: DisplayView,
    target: BufferTarget,
    points: Seq<(int, int)>,
    operation: DrawOperation,
    x0: int,
    x1: int,
    y0: int,
    y1: int,
)
    requires
        d.wf(),
        forall|k: int| 0 <= k < points.len() ==> x0 <= (#[trigger] points[k]).0 <= x1 && y0 <= points[k].1 <= y1,
    ensures
        changed_within(d, d.draw_points(target, points, operation), target, x0, x1, y0, y1),
    decreases points.len(),
{
    if points.len() == 0 {
    } else {
        let rest = points.drop_last();
        assert forall|k: int| 0 <= k < rest.len() implies x0 <= (#[trigger] rest[k]).0 <= x1 && y0 <= rest[k].1 <= y1 by {
            assert(rest[k] == points[k]);
        }
        lemma_points_within(d, target, rest, operation, x0, x1, y0, y1);
        let e = d.draw_points(target, rest, operation);
        lemma_draw_points_wf(d, target, rest, operation);
        let last = points.last();
        assert(last == points[points.len() - 1]);
        lemma_pixel_within(e, target, last.0, last.1, operation, x0, x1, y0, y1);
        lemma_within_trans(d, e, e.draw_pixel(target, last.0, last.1, operation), target, x0, x1, y0, y1);
    }
}

proof fn lemma_walk_between(
    x: int,
    y: int,
    x1: int,
    y1: int,
    a: int,
    b: int,
    sx: int,
    sy: int,
    error: int,
    p: int,
    q: int,
    fuel: nat,
)
    requires
        walk_state(x, y, x1, y1, a, b, sx, sy, error, p, q),
    ensures
        forall|k: int|
            0 <= k < line_walk(x, y, x1, y1, a, b, sx, sy, error, fuel).len() ==> between(
                (#[trigger] line_walk(x, y, x1, y1, a, b, sx, sy, error, fuel)[k]).0,
                x1,
                x1 - sx * a,
            ) && between(line_walk(x, y, x1, y1, a, b, sx, sy, error, fuel)[k].1, y1, y1 - sy * b),
    decreases fuel,
{
    let pts = line_walk(x, y, x1, y1, a, b, sx, sy, error, fuel);
    assert(between(x, x1, x1 - sx * a)) by {
        if sx == 1 {
        } else {
        }
    }
    assert(between(y, y1, y1 - sy * b)) by {
        if sy == 1 {
        } else {
        }
    }
    if fuel > 0 && !(x == x1 && y == y1) {
        let twice = 2 * error;
        let mx: int = if twice >= -b { 1 } else { 0 };
        let my: int = if twice <= a { 1 } else { 0 };
        assert(p != 0 || q != 0);
        lemma_walk_step(x, y, x1, y1, a, b, sx, sy, error, p, q, mx, my);
        let nx = x + sx * mx;
        let ny = y + sy * my;
        let e2 = error - b * mx + a * my;
        assert(nx == (if twice >= -b { x + sx } else { x }));
        assert(ny == (if twice <= a { y + sy } else { y }));
        lemma_walk_between(nx, ny, x1, y1, a, b, sx, sy, e2, p - mx, q - my, (fuel - 1) as nat);
        let rest = line_walk(nx, ny, x1, y1, a, b, sx, sy, e2, (fuel - 1) as nat);
        assert(e2 == (if twice <= a { (if twice >= -b { error - b } else { error }) + a } else { if twice >= -b { error - b } else { error } }));
        assert(pts == seq![(x, y)] + rest);
        assert forall|k: int| 0 <= k < pts.len() implies between((#[trigger] pts[k]).0, x1, x1 - sx * a) && between(
            pts[k].1,
            y1,
            y1 - sy * b,
        ) by {
            if k > 0 {
                assert(pts[k] == rest[k - 1]);
            }
        }
    }
}

proof fn lemma_line_within(
    d: DisplayView,
    target: BufferTarget,
    lx0: int,
    ly0: int,
    lx1: int,
    ly1: int,
    operation: DrawOperation,
    x0: int,
    x1: int,
    y0: int,
    y1: int,
)
    requires
        d.wf(),
        x0 <= lx0 <= x1,
        x0 <= lx1 <= x1,
        y0 <= ly0 <= y1,
        y0 <= ly1 <= y1,
    ensures
        changed_within(d, d.draw_line(target, lx0, ly0, lx1, ly1, operation), target, x0, x1, y0, y1),
{
    let a = abs_diff(lx0, lx1);
    let b = abs_diff(ly0, ly1);
    let sx = direction(lx0, lx1);
    let sy = direction(ly0, ly1);
    assert(lx0 == lx1 - sx * a) by {
        if lx0 < lx1 {
            assert(sx * a == a);
        } else {
            assert(sx * a == -a);
        }
    }
    assert(ly0 == ly1 - sy * b) by {
        if ly0 < ly1 {
            assert(sy * b == b);
        } else {
            assert(sy * b == -b);
        }
    }
    assert(a - b == a - b + b * a - a * b) by (nonlinear_arith);
    assert(walk_state(lx0, ly0, lx1, ly1, a, b, sx, sy, a - b, a, b));
    lemma_walk_between(lx0, ly0, lx1, ly1, a, b, sx, sy, a - b, a, b, (a + b + 1) as nat);
    lemma_points_within(d, target, line_points(lx0, ly0, lx1, ly1), operation, x0, x1, y0, y1);
}

proof fn lemma_ellipse_rows_within(
    d: DisplayView,
    target: BufferTarget,
    cx: int,
    cy: int,
    rx: int,
    ry: int,
    filled: bool,
    operation: DrawOperation,
    count: nat,
)
    requires
        d.wf(),
        0 <= rx,
        0 < ry,
        count <= 2 * ry + 1,
    ensures
        changed_within(
            d,
            d.ellipse_rows(target, cx, cy, rx, ry, filled, operation, count),
            target,
            cx - rx,
            cx + rx,
            cy - ry,
            cy + ry,
        ),
        d.ellipse_rows(target, cx, cy, rx, ry, filled, operation, count).wf(),
    decreases count,
{
    if count > 0 {
        lemma_ellipse_rows_within(d, target, cx, cy, rx, ry, filled, operation, (count - 1) as nat);
        let e = d.ellipse_rows(target, cx, cy, rx, ry, filled, operation, (count - 1) as nat);
        let y = count - 1 - ry;
        lemma_extent_bound(rx, ry, y);
        let x = ellipse_extent(rx, ry, y);
        if filled {
            lemma_line_within(e, target, cx - x, cy + y, cx + x, cy + y, operation, cx - rx, cx + rx, cy - ry, cy + ry);
            lemma_line_shape(e, target, cx - x, cy + y, cx + x, cy + y, operation);
            lemma_within_trans(
                d,
                e,
                e.draw_line(target, cx - x, cy + y, cx + x, cy + y, operation),
                target,
                cx - rx,
                cx + rx,
                cy - ry,
                cy + ry,
            );
        } else {
            lemma_pixel_within(e, target, cx - x, cy + y, operation, cx - rx, cx + rx, cy - ry, cy + ry);
            let e1 = e.draw_pixel(target, cx - x, cy + y, operation);
            lemma_draw_pixel_wf(e, target, cx - x, cy + y, operation);
            lemma_pixel_within(e1, target, cx + x, cy + y, operation, cx - rx, cx + rx, cy - ry, cy + ry);
            lemma_draw_pixel_wf(e1, target, cx + x, cy + y, operation);
            lemma_within_trans(d, e, e1, target, cx - rx, cx + rx, cy - ry, cy + ry);
            lemma_within_trans(
                d,
                e1,
                e1.draw_pixel(target, cx + x, cy + y, operation),
                target,
                cx - rx,
                cx + rx,
                cy - ry,
                cy + ry,
            );
        }
    }
}

/// An ellipse stays inside its bounding box: drawing it changes only
/// pixels of its buffer from `(cx - rx, cy - ry)` to `(cx + rx, cy + ry)`.
pub proof fn law_ellipse_within_box(
    d: DisplayView,
    target: BufferTarget,
    cx: int,
    cy: int,
    rx: int,
    ry: int,
    filled: bool,
    operation: DrawOperation,
)
    requires
        d.wf(),
        0 <= rx,
        0 <= ry,
    ensures
        changed_within(
            d,
            d.draw_ellipse(target, cx, cy, rx, ry, filled, operation),
            target,
            cx - rx,
            cx + rx,
            cy - ry,
            cy + ry,
        ),
{
    if rx == 0 && ry == 0 {
        lemma_pixel_within(d, target, cx, cy, operation, cx, cx, cy, cy);
    } else if rx == 0 {
        lemma_line_within(d, target, cx, cy - ry, cx, cy + ry, operation, cx, cx, cy - ry, cy + ry);
    } else if ry == 0 {
        lemma_line_within(d, target, cx - rx, cy, cx + rx, cy, operation, cx - rx, cx + rx, cy, cy);
    } else {
        lemma_ellipse_rows_within(d, target, cx, cy, rx, ry, filled, operation, (2 * ry + 1) as nat);
    }
}


/// Bresenham's walk ends at its end point.
proof fn lemma_walk_ends(
    x: int,
    y: int,
    x1: int,
    y1: int,
    a: int,
    b: int,
    sx: int,
    sy: int,
    error: int,
    p: int,
    q: int,
    fuel: nat,
)
    requires
        walk_state(x, y, x1, y1, a, b, sx, sy, error, p, q),
        fuel >= p + q + 1,
    ensures
        line_walk(x, y, x1, y1, a, b, sx, sy, error, fuel).len() > 0,
        line_walk(x, y, x1, y1, a, b, sx, sy, error, fuel)[0] == (x, y),
        line_walk(x, y, x1, y1, a, b, sx, sy, error, fuel).last() == (x1, y1),
    decreases fuel,
{
    if !(x == x1 && y == y1) {
        let twice = 2 * error;
        let mx: int = if twice >= -b { 1 } else { 0 };
        let my: int = if twice <= a { 1 } else { 0 };
        assert(p != 0 || q != 0);
        lemma_walk_step(x, y, x1, y1, a, b, sx, sy, error, p, q, mx, my);
        let nx = x + sx * mx;
        let ny = y + sy * my;
        let e2 = error - b * mx + a * my;
        assert(nx == (if twice >= -b { x + sx } else { x }));
        assert(ny == (if twice <= a { y + sy } else { y }));
        assert(e2 == (if twice <= a { (if twice >= -b { error - b } else { error }) + a } else { if twice >= -b { error - b } else { error } }));
        lemma_walk_ends(nx, ny, x1, y1, a, b, sx, sy, e2, p - mx, q - my, (fuel - 1) as nat);
    }
}

/// A line's points begin and end at its end points.
proof fn lemma_line_ends(x0: int, y0: int, x1: int, y1: int)
    ensures
        line_points(x0, y0, x1, y1).len() > 0,
        line_points(x0, y0, x1, y1)[0] == (x0, y0),
        line_points(x0, y0, x1, y1).last() == (x1, y1),
{
    let a = abs_diff(x0, x1);
    let b = abs_diff(y0, y1);
    let sx = direction(x0, x1);
    let sy = direction(y0, y1);
    assert(x0 == x1 - sx * a) by {
        if x0 < x1 {
            assert(sx * a == a);
        } else {
            assert(sx * a == -a);
        }
    }
    assert(y0 == y1 - sy * b) by {
        if y0 < y1 {
            assert(sy * b == b);
        } else {
            assert(sy * b == -b);
        }
    }
    assert(a - b == a - b + b * a - a * b) by (nonlinear_arith);
    lemma_walk_ends(x0, y0, x1, y1, a, b, sx, sy, a - b, a, b, (a + b + 1) as nat);
}

/// Drawing with `Draw` keeps every pixel that shows the foreground colour.
proof fn lemma_draw_keeps_foreground(d: DisplayView, target: BufferTarget, points: Seq<(int, int)>, x: int, y: int)
    requires
        d.wf(),
        d.in_bounds(x, y),
        d.buffer(target)[d.index(x, y)] == d.foreground,
    ensures
        d.draw_points(target, points, DrawOperation::Draw).buffer(target)[d.index(x, y)] == d.foreground,
    decreases points.len(),
{
    lemma_index_in_area(d.width as int, d.height as int, x, y);
    if points.len() > 0 {
        let rest = points.drop_last();
        lemma_draw_keeps_foreground(d, target, rest, x, y);
        lemma_draw_points_wf(d, target, rest, DrawOperation::Draw);
        let e = d.draw_points(target, rest, DrawOperation::Draw);
        let last = points.last();
        assert(d.draw_points(target, points, DrawOperation::Draw) == e.draw_pixel(target, last.0, last.1, DrawOperation::Draw));
        assert(e.index(x, y) == d.index(x, y));
        if e.in_bounds(last.0, last.1) {
            lemma_index_in_area(e.width as int, e.height as int, last.0, last.1);
        }
    }
}

/// Drawing with `Draw` leaves every point drawn showing the foreground.
proof fn lemma_draw_sets_foreground(d: DisplayView, target: BufferTarget, points: Seq<(int, int)>, k: int)
    requires
        d.wf(),
        0 <= k < points.len(),
        d.in_bounds(points[k].0, points[k].1),
    ensures
        d.draw_points(target, points, DrawOperation::Draw).buffer(target)[d.index(points[k].0, points[k].1)]
            == d.foreground,
    decreases points.len(),
{
    let rest = points.drop_last();
    lemma_draw_points_wf(d, target, rest, DrawOperation::Draw);
    let e = d.draw_points(target, rest, DrawOperation::Draw);
    lemma_index_in_area(d.width as int, d.height as int, points[k].0, points[k].1);
    let last = points.last();
    assert(d.draw_points(target, points, DrawOperation::Draw) == e.draw_pixel(target, last.0, last.1, DrawOperation::Draw));
    assert(e.index(points[k].0, points[k].1) == d.index(points[k].0, points[k].1));
    if k == points.len() - 1 {
        assert(last == points[k]);
    } else {
        assert(rest[k] == points[k]);
        lemma_draw_sets_foreground(d, target, rest, k);
        if e.in_bounds(last.0, last.1) {
            lemma_index_in_area(e.width as int, e.height as int, last.0, last.1);
        }
    }
}

/// A line drawn with `Draw` shows the foreground at both ends, and keeps it
/// wherever it was shown.
proof fn lemma_line_ends_foreground(d: DisplayView, target: BufferTarget, x0: int, y0: int, x1: int, y1: int)
    requires
        d.wf(),
    ensures
        d.in_bounds(x0, y0) ==> d.draw_line(target, x0, y0, x1, y1, DrawOperation::Draw).buffer(target)[d.index(x0, y0)]
            == d.foreground,
        d.in_bounds(x1, y1) ==> d.draw_line(target, x0, y0, x1, y1, DrawOperation::Draw).buffer(target)[d.index(x1, y1)]
            == d.foreground,
{
    lemma_line_ends(x0, y0, x1, y1);
    let pts = line_points(x0, y0, x1, y1);
    if d.in_bounds(x0, y0) {
        lemma_draw_sets_foreground(d, target, pts, 0);
    }
    if d.in_bounds(x1, y1) {
        lemma_draw_sets_foreground(d, target, pts, pts.len() - 1);
    }
}

/// Rows drawn with `Draw` keep the foreground where it is shown.
proof fn lemma_rows_keep_foreground(
    d: DisplayView,
    target: BufferTarget,
    cx: int,
    cy: int,
    rx: int,
    ry: int,
    from: nat,
    count: nat,
    x: int,
    y: int,
)
    requires
        d.wf(),
        0 <= rx,
        0 < ry,
        from <= count <= 2 * ry + 1,
        d.in_bounds(x, y),
        d.ellipse_rows(target, cx, cy, rx, ry, true, DrawOperation::Draw, from).buffer(target)[d.index(x, y)]
            == d.foreground,
    ensures
        d.ellipse_rows(target, cx, cy, rx, ry, true, DrawOperation::Draw, count).buffer(target)[d.index(x, y)]
            == d.foreground,
    decreases count - from,
{
    if from < count {
        lemma_rows_keep_foreground(d, target, cx, cy, rx, ry, from, (count - 1) as nat, x, y);
        let e = d.ellipse_rows(target, cx, cy, rx, ry, true, DrawOperation::Draw, (count - 1) as nat);
        lemma_ellipse_rows_within(d, target, cx, cy, rx, ry, true, DrawOperation::Draw, (count - 1) as nat);
        let yy = count - 1 - ry;
        let ex = ellipse_extent(rx, ry, yy);
        lemma_draw_keeps_foreground(e, target, line_points(cx - ex, cy + yy, cx + ex, cy + yy), x, y);
    }
}

/// The rows of a filled ellipse drawn with `Draw` show the foreground at
/// the ends of row `y` once that row is drawn.
proof fn lemma_row_ends(d: DisplayView, target: BufferTarget, cx: int, cy: int, rx: int, ry: int, yy: int)
    requires
        d.wf(),
        0 <= rx,
        0 < ry,
        -ry <= yy <= ry,
    ensures
        ({
            let e = d.ellipse_rows(target, cx, cy, rx, ry, true, DrawOperation::Draw, (2 * ry + 1) as nat);
            let ex = ellipse_extent(rx, ry, yy);
            &&& d.in_bounds(cx - ex, cy + yy) ==> e.buffer(target)[d.index(cx - ex, cy + yy)] == d.foreground
            &&& d.in_bounds(cx + ex, cy + yy) ==> e.buffer(target)[d.index(cx + ex, cy + yy)] == d.foreground
        }),
{
    let count = (yy + ry + 1) as nat;
    lemma_ellipse_rows_within(d, target, cx, cy, rx, ry, true, DrawOperation::Draw, (count - 1) as nat);
    let e0 = d.ellipse_rows(target, cx, cy, rx, ry, true, DrawOperation::Draw, (count - 1) as nat);
    let ex = ellipse_extent(rx, ry, yy);
    assert(count - 1 - ry == yy);
    lemma_line_ends_foreground(e0, target, cx - ex, cy + yy, cx + ex, cy + yy);
    assert(e0.index(cx - ex, cy + yy) == d.index(cx - ex, cy + yy));
    assert(e0.index(cx + ex, cy + yy) == d.index(cx + ex, cy + yy));
    if d.in_bounds(cx - ex, cy + yy) {
        lemma_rows_keep_foreground(d, target, cx, cy, rx, ry, count, (2 * ry + 1) as nat, cx - ex, cy + yy);
    }
    if d.in_bounds(cx + ex, cy + yy) {
        lemma_rows_keep_foreground(d, target, cx, cy, rx, ry, count, (2 * ry + 1) as nat, cx + ex, cy + yy);
    }
}

/// A filled ellipse drawn with `Draw` reaches its four extremes: each of
/// them that is on the screen shows the foreground colour.
pub proof fn law_filled_ellipse_reaches_its_axes(d: DisplayView, target: BufferTarget, cx: int, cy: int, rx: int, ry: int)
    requires
        d.wf(),
        0 < rx,
        0 < ry,
    ensures
        ({
            let e = d.draw_ellipse(target, cx, cy, rx, ry, true, DrawOperation::Draw);
            &&& d.in_bounds(cx - rx, cy) ==> e.buffer(target)[d.index(cx - rx, cy)] == d.foreground
            &&& d.in_bounds(cx + rx, cy) ==> e.buffer(target)[d.index(cx + rx, cy)] == d.foreground
            &&& d.in_bounds(cx, cy - ry) ==> e.buffer(target)[d.index(cx, cy - ry)] == d.foreground
            &&& d.in_bounds(cx, cy + ry) ==> e.buffer(target)[d.index(cx, cy + ry)] == d.foreground
        }),
{
    assert(is_isqrt(4 * (rx * rx) * (ry * ry - 0 * 0), 2 * rx * ry)) by (nonlinear_arith)
        requires
            0 < rx,
            0 < ry,
    ;
    lemma_isqrt_unique(4 * (rx * rx) * (ry * ry - 0 * 0), 2 * rx * ry);
    assert((2 * rx * ry + ry) / (2 * ry) == rx) by {
        assert(2 * rx * ry + ry == rx * (2 * ry) + ry) by (nonlinear_arith);
        vstd::arithmetic::div_mod::lemma_fundamental_div_mod_converse(2 * rx * ry + ry, 2 * ry, rx, ry);
    }
    assert(ellipse_extent(rx, ry, 0) == rx);
    assert(4 * (rx * rx) * (ry * ry - ry * ry) == 0) by (nonlinear_arith);
    assert(4 * (rx * rx) * (ry * ry - (-ry) * (-ry)) == 0) by (nonlinear_arith);
    assert(is_isqrt(0, 0));
    lemma_isqrt_unique(0, 0);
    assert(ry / (2 * ry) == 0) by {
        vstd::arithmetic::div_mod::lemma_fundamental_div_mod_converse(ry, 2 * ry, 0, ry);
    }
    assert(ellipse_extent(rx, ry, ry) == 0);
    assert(ellipse_extent(rx, ry, -ry) == 0);
    lemma_row_ends(d, target, cx, cy, rx, ry, 0);
    lemma_row_ends(d, target, cx, cy, rx, ry, ry);
    lemma_row_ends(d, target, cx, cy, rx, ry, -ry);
}

} // verus!
