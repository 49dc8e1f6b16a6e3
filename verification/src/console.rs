use vstd::prelude::*;

use crate::bytes::copy_range;
use crate::display::{BufferTarget, Display, DisplayView, DrawOperation, fill_with, lemma_paint_shape, lemma_text_shape};
use crate::program::GraphicsMode;

verus! {

/// The abstract text console: a grid of character cells, the cursor, and
/// the layout of the small-font mode (margins around 6x12 cells on 13-pixel
/// rows).
#[verifier::ext_equal]
pub struct ConsoleView {
    pub cells: Seq<u8>,
    pub columns: int,
    pub rows: int,
    pub x: int,
    pub y: int,
    pub small: bool,
    pub small_left: int,
    pub small_up: int,
    pub small_down: int,
}

impl ConsoleView {
    pub open spec fn wf(self) -> bool {
        &&& 1 <= self.columns <= 0xffff
        &&& 1 <= self.rows <= 0xffff
        &&& self.cells.len() == self.columns * self.rows
        &&& 0 <= self.x < self.columns
        &&& 0 <= self.y < self.rows
        &&& 0 <= self.small_left <= 0xffff
        &&& 0 <= self.small_up <= 0xffff
        &&& 0 <= self.small_down <= 0xffff
    }

    /// The console after the last line scrolls off the bottom, when the
    /// cursor has moved below the last row.
    pub open spec fn scrolled(self) -> ConsoleView {
        if self.y < self.rows {
            self
        } else {
            let last_row = self.columns * (self.rows - 1);
            ConsoleView {
                cells: Seq::new(
                    self.cells.len(),
                    |i: int| if i < last_row { self.cells[i + self.columns] } else { 32u8 },
                ),
                y: self.rows - 1,
                x: 0,
                ..self
            }
        }
    }

    /// The console after one byte is written: carriage returns are ignored,
    /// a newline moves to the start of the next line, a tab writes a space,
    /// anything else is stored at the cursor, which then advances and wraps.
    pub open spec fn write(self, byte: u8) -> ConsoleView {
        if byte == 13 {
            self
        } else if byte == 10 {
            ConsoleView { x: 0, y: self.y + 1, ..self }.scrolled()
        } else {
            let value = if byte == 9 { 32u8 } else { byte };
            let s = self.scrolled();
            let stored = ConsoleView { cells: s.cells.update(s.y * s.columns + s.x, value), ..s };
            let moved = if stored.x + 1 >= stored.columns {
                ConsoleView { x: 0, y: stored.y + 1, ..stored }
            } else {
                ConsoleView { x: stored.x + 1, ..stored }
            };
            moved.scrolled()
        }
    }

    /// The console after the bytes of `bytes` are written in order.
    pub open spec fn write_all(self, bytes: Seq<u8>) -> ConsoleView
        decreases bytes.len(),
    {
        if bytes.len() == 0 {
            self
        } else {
            self.write_all(bytes.drop_last()).write(bytes.last())
        }
    }

    /// Characters of row `row`.
    pub open spec fn row_cells(self, row: int) -> Seq<u8> {
        self.cells.subrange(row * self.columns, row * self.columns + self.columns)
    }
}

/// The layout of a console on a `width` by `height` screen: 8x16 cells, or
/// with `small` 6x12 cells on 13-pixel rows (an even number of columns,
/// centred); at least one row and column, every cell blank, the cursor at
/// the top left.
pub open spec fn console_layout(width: int, height: int, small: bool) -> ConsoleView {
    let columns0 = if small {
        let c = (if width >= 2 { width - 2 } else { 0 }) / 6;
        c - c % 2
    } else {
        width / 8
    };
    let rows0 = if small {
        (if height >= 1 { height - 1 } else { 0 }) / 13
    } else {
        height / 16
    };
    let small_left = if small { (width - columns0 * 6) / 2 } else { 0 };
    let small_up = if small { (height - (rows0 * 13 - 1)) / 2 } else { 0 };
    let small_down = if small { height - (rows0 * 13 - 1) - small_up } else { 0 };
    let columns = if columns0 >= 1 { columns0 } else { 1 };
    let rows = if rows0 >= 1 { rows0 } else { 1 };
    ConsoleView {
        cells: Seq::new((columns * rows) as nat, |_i: int| 32u8),
        columns,
        rows,
        x: 0,
        y: 0,
        small,
        small_left,
        small_up,
        small_down,
    }
}

/// The screen after the first `count` rows of a console are drawn, each as
/// a line of text (small cells on 13-pixel rows after the top margin,
/// large cells on 16-pixel rows otherwise).
pub open spec fn render_text(d: DisplayView, c: ConsoleView, count: nat) -> DisplayView
    decreases count,
{
    if count == 0 {
        d
    } else {
        let row = count - 1;
        let prev = render_text(d, c, (count - 1) as nat);
        if c.small {
            prev.text_from(BufferTarget::Front, c.small_left, row * 13 + c.small_up, c.row_cells(row), 0, false, DrawOperation::Draw)
        } else {
            prev.text_from(BufferTarget::Front, 0, row * 16, c.row_cells(row), 0, true, DrawOperation::Draw)
        }
    }
}

/// The screen after the one-pixel gaps above rows 1 to `count - 1` of a
/// small console are cleared.
pub open spec fn render_gaps(d: DisplayView, c: ConsoleView, color: u8, count: nat) -> DisplayView
    decreases count,
{
    if count <= 1 {
        d
    } else {
        let row = count - 1;
        render_gaps(d, c, color, (count - 1) as nat).paint(
            BufferTarget::Front,
            0,
            row * 13 + c.small_up - 1,
            d.width as int,
            1,
            fill_with(color),
        )
    }
}

/// The screen after the first `count` columns of the left and right
/// margins of a small console are cleared.
pub open spec fn render_margins(d: DisplayView, c: ConsoleView, color: u8, count: nat) -> DisplayView
    decreases count,
{
    if count == 0 {
        d
    } else {
        let column = count - 1;
        render_margins(d, c, color, (count - 1) as nat).paint(BufferTarget::Front, column, 0, 1, d.height as int, fill_with(color)).paint(
            BufferTarget::Front,
            d.width - 1 - column,
            0,
            1,
            d.height as int,
            fill_with(color),
        )
    }
}

/// The screen after a console is drawn on its front buffer: a small
/// console first clears its margins and row gaps in the clear colour.
pub open spec fn render(d: DisplayView, c: ConsoleView) -> DisplayView {
    if c.small {
        let color = d.clear_color();
        let top = d.paint(BufferTarget::Front, 0, 0, d.width as int, c.small_up as u16 as int, fill_with(color));
        let bottom = top.paint(
            BufferTarget::Front,
            0,
            d.height - c.small_down,
            d.width as int,
            c.small_down as u16 as int,
            fill_with(color),
        );
        let gaps = render_gaps(bottom, c, color, c.rows as nat);
        let margins = render_margins(gaps, c, color, c.small_left as nat);
        render_text(margins, c, c.rows as nat)
    } else {
        render_text(d, c, c.rows as nat)
    }
}

/// A text console drawn onto the screen by `putchar` and `printf`.
#[derive(Debug, Clone)]
pub struct TextConsole {
    cells: Vec<u8>,
    columns: usize,
    rows: usize,
    x: usize,
    y: usize,
    small: bool,
    small_left: usize,
    small_up: usize,
    small_down: usize,
}

impl View for TextConsole {
    type V = ConsoleView;

    closed spec fn view(&self) -> ConsoleView {
        ConsoleView {
            cells: self.cells@,
            columns: self.columns as int,
            rows: self.rows as int,
            x: self.x as int,
            y: self.y as int,
            small: self.small,
            small_left: self.small_left as int,
            small_up: self.small_up as int,
            small_down: self.small_down as int,
        }
    }
}

impl TextConsole {
    pub open spec fn wf(&self) -> bool {
        self@.wf()
    }

    pub proof fn lemma_wf(&self)
        requires
            self.wf(),
        ensures
            self@.wf(),
    {
    }

    /// A console laid out for a `width` by `height` screen in the large font.
    pub fn new(width: u16, height: u16) -> (console: TextConsole)
        ensures
            console.wf(),
            console@ == console_layout(width as int, height as int, false),
    {
        let mut console = TextConsole {
            cells: Vec::new(),
            columns: 1,
            rows: 1,
            x: 0,
            y: 0,
            small: false,
            small_left: 0,
            small_up: 0,
            small_down: 0,
        };
        console.set_mode(width, height, false);
        console
    }

    /// Lays the console out again for a screen size and font (see
    /// `console_layout`); the small font needs a screen at least 14 pixels high.
    pub fn set_mode(&mut self, width: u16, height: u16, small: bool)
        requires
            small ==> height >= 14,
        ensures
            final(self).wf(),
            final(self)@ == console_layout(width as int, height as int, small),
    {
        let w = width as usize;
        let h = height as usize;
        self.small = small;
        if small {
            let c = (if w >= 2 { w - 2 } else { 0 }) / 6;
            self.columns = c - c % 2;
            self.rows = (if h >= 1 { h - 1 } else { 0 }) / 13;
            self.small_left = (w - self.columns * 6) / 2;
            self.small_up = (h - (self.rows * 13 - 1)) / 2;
            self.small_down = h - (self.rows * 13 - 1) - self.small_up;
        } else {
            self.columns = w / 8;
            self.rows = h / 16;
            self.small_left = 0;
            self.small_up = 0;
            self.small_down = 0;
        }
        if self.columns < 1 {
            self.columns = 1;
        }
        if self.rows < 1 {
            self.rows = 1;
        }
        assert(self.columns * self.rows <= 0xffff * 0xffff) by (nonlinear_arith)
            requires
                self.columns <= 0xffff,
                self.rows <= 0xffff,
        ;
        self.cells = vec![32u8; self.columns * self.rows];
        self.x = 0;
        self.y = 0;
        assert(self@.cells =~= console_layout(width as int, height as int, small).cells);
    }

    /// Moves the cursor, clamped to the grid.
    pub fn locate(&mut self, x: usize, y: usize)
        requires
            old(self).wf(),
        ensures
            final(self).wf(),
            final(self)@ == (ConsoleView {
                x: if x < old(self)@.columns { x as int } else { old(self)@.columns - 1 },
                y: if y < old(self)@.rows { y as int } else { old(self)@.rows - 1 },
                ..old(self)@
            }),
    {
        self.x = if x < self.columns { x } else { self.columns - 1 };
        self.y = if y < self.rows { y } else { self.rows - 1 };
    }

    fn scroll_if_needed(&mut self)
        requires
            old(self)@.wf() || (old(self)@.y == old(self)@.rows && ConsoleView { y: 0, ..old(self)@ }.wf()),
        ensures
            final(self).wf(),
            final(self)@ == old(self)@.scrolled(),
    {
        if self.y < self.rows {
            return;
        }
        let columns = self.columns;
        let n = self.cells.len();
        assert(columns * (self.rows - 1) <= columns * self.rows) by (nonlinear_arith)
            requires
                self.rows >= 1,
        ;
        let last_row = columns * (self.rows - 1);
        assert(last_row + columns == n) by (nonlinear_arith)
            requires
                last_row == columns * (self.rows - 1),
                n == columns * self.rows,
        ;
        let ghost old_cells = self.cells@;
        let mut i: usize = 0;
        while i < n
            invariant
                self.columns == old(self).columns,
                self.rows == old(self).rows,
                self.rows >= 1,
                self.small == old(self).small,
                self.small_left == old(self).small_left,
                self.small_up == old(self).small_up,
                self.small_down == old(self).small_down,
                n == self.cells@.len(),
                n == old_cells.len(),
                last_row + columns == n,
                i <= n,
                forall|k: int| i <= k < n ==> self.cells@[k] == old_cells[k],
                forall|k: int|
                    0 <= k < i ==> self.cells@[k] == if k < last_row {
                        old_cells[k + columns]
                    } else {
                        32u8
                    },
            decreases n - i,
        {
            let value = if i < last_row { self.cells[i + columns] } else { 32u8 };
            self.cells.set(i, value);
            i += 1;
        }
        self.y = self.rows - 1;
        self.x = 0;
        assert(self@ =~= old(self)@.scrolled());
    }

    /// Writes one byte at the cursor (see `ConsoleView::write`).
    pub fn write(&mut self, byte: u8)
        requires
            old(self).wf(),
        ensures
            final(self).wf(),
            final(self)@ == old(self)@.write(byte),
    {
        if byte == 13 {
            return;
        }
        if byte == 10 {
            self.x = 0;
            self.y = self.y + 1;
            self.scroll_if_needed();
            return;
        }
        let value = if byte == 9 { 32u8 } else { byte };
        self.scroll_if_needed();
        proof {
            crate::display::lemma_index_in_area(self@.columns, self@.rows, self@.x, self@.y);
            assert(self.cells@.len() == self.cells.len());
        }
        let index = self.y * self.columns + self.x;
        self.cells.set(index, value);
        self.x = self.x + 1;
        if self.x >= self.columns {
            self.x = 0;
            self.y = self.y + 1;
        }
        self.scroll_if_needed();
    }

    /// Writes bytes in order.
    pub fn write_all(&mut self, bytes: &[u8])
        requires
            old(self).wf(),
        ensures
            final(self).wf(),
            final(self)@ == old(self)@.write_all(bytes@),
    {
        let mut i: usize = 0;
        while i < bytes.len()
            invariant
                self.wf(),
                i <= bytes@.len(),
                self@ == old(self)@.write_all(bytes@.take(i as int)),
            decreases bytes@.len() - i,
        {
            self.write(bytes[i]);
            assert(bytes@.take(i + 1).drop_last() =~= bytes@.take(i as int));
            i += 1;
        }
        assert(bytes@.take(bytes@.len() as int) =~= bytes@);
    }

    /// Draws the console on the front buffer of `display` (see `render`).
    pub fn render(&self, display: &mut Display)
        requires
            self.wf(),
            old(display).wf(),
        ensures
            final(display).wf(),
            final(display)@ == render(old(display)@, self@),
            final(display)@.same_shape(old(display)@),
    {
        proof {
            old(display).lemma_wf();
            lemma_render_shape(old(display)@, self@);
        }
        if self.small {
            let background = if display.graphics_mode() == GraphicsMode::Mono {
                0
            } else {
                display.background()
            };
            let width = display.width();
            let height = display.height();
            display.fill_region(BufferTarget::Front, 0, 0, width, self.small_up as u16, background);
            display.fill_region(
                BufferTarget::Front,
                0,
                height as i32 - self.small_down as i32,
                width,
                self.small_down as u16,
                background,
            );
            let ghost bottom = display@;
            let mut row: usize = 1;
            while row < self.rows
                invariant
                    self.wf(),
                    display.wf(),
                    1 <= row <= self.rows,
                    width == bottom.width,
                    height == bottom.height,
                    background == bottom.clear_color(),
                    display@ == render_gaps(bottom, self@, background, row as nat),
                    display@.width == bottom.width,
                    display@.height == bottom.height,
                    display@.mode == bottom.mode,
                    display@.background == bottom.background,
                decreases self.rows - row,
            {
                let y = (row * 13 + self.small_up - 1) as i32;
                display.fill_region(BufferTarget::Front, 0, y, width, 1, background);
                row += 1;
            }
            let ghost gaps = display@;
            let mut column: usize = 0;
            while column < self.small_left
                invariant
                    self.wf(),
                    display.wf(),
                    column <= self.small_left,
                    width == gaps.width,
                    height == gaps.height,
                    display@ == render_margins(gaps, self@, background, column as nat),
                    display@.width == gaps.width,
                    display@.height == gaps.height,
                decreases self.small_left - column,
            {
                display.fill_region(BufferTarget::Front, column as i32, 0, 1, height, background);
                display.fill_region(BufferTarget::Front, width as i32 - 1 - column as i32, 0, 1, height, background);
                column += 1;
            }
            self.render_text(display, Ghost(old(display)@), Ghost(render_margins(gaps, self@, background, self@.small_left as nat)));
        } else {
            self.render_text(display, Ghost(old(display)@), Ghost(old(display)@));
        }
    }

    fn render_text(&self, display: &mut Display, Ghost(before): Ghost<DisplayView>, Ghost(start): Ghost<DisplayView>)
        requires
            self.wf(),
            old(display).wf(),
            old(display)@ == start,
            start == (if self@.small {
                render_margins(
                    render_gaps(
                        before.paint(BufferTarget::Front, 0, 0, before.width as int, self@.small_up as u16 as int, fill_with(before.clear_color())).paint(
                            BufferTarget::Front,
                            0,
                            before.height - self@.small_down,
                            before.width as int,
                            self@.small_down as u16 as int,
                            fill_with(before.clear_color()),
                        ),
                        self@,
                        before.clear_color(),
                        self@.rows as nat,
                    ),
                    self@,
                    before.clear_color(),
                    self@.small_left as nat,
                )
            } else {
                before
            }),
        ensures
            final(display).wf(),
            final(display)@ == render(before, self@),
    {
        let mut row: usize = 0;
        while row < self.rows
            invariant
                self.wf(),
                display.wf(),
                row <= self.rows,
                display@ == render_text(start, self@, row as nat),
            decreases self.rows - row,
        {
            proof {
                assert(row * self.columns + self.columns <= self.columns * self.rows) by (nonlinear_arith)
                    requires
                        row < self.rows,
                ;
                assert(self.cells@.len() == self.cells.len());
            }
            let start_index = row * self.columns;
            let end_index = start_index + self.columns;
            let cells = copy_range(self.cells.as_slice(), start_index, end_index);
            if self.small {
                display.draw_text(
                    BufferTarget::Front,
                    self.small_left as i32,
                    (row * 13 + self.small_up) as i32,
                    cells.as_slice(),
                    false,
                    DrawOperation::Draw,
                );
            } else {
                display.draw_text(BufferTarget::Front, 0, (row * 16) as i32, cells.as_slice(), true, DrawOperation::Draw);
            }
            row += 1;
        }
    }
}

pub proof fn lemma_render_text_shape(d: DisplayView, c: ConsoleView, count: nat)
    requires
        d.wf(),
    ensures
        render_text(d, c, count).wf(),
        render_text(d, c, count).same_shape(d),
    decreases count,
{
    if count > 0 {
        lemma_render_text_shape(d, c, (count - 1) as nat);
        let row = count - 1;
        let prev = render_text(d, c, (count - 1) as nat);
        lemma_text_shape(prev, BufferTarget::Front, c.small_left, row * 13 + c.small_up, c.row_cells(row), 0, false, DrawOperation::Draw);
        lemma_text_shape(prev, BufferTarget::Front, 0, row * 16, c.row_cells(row), 0, true, DrawOperation::Draw);
    }
}

pub proof fn lemma_render_gaps_shape(d: DisplayView, c: ConsoleView, color: u8, count: nat)
    requires
        d.wf(),
    ensures
        render_gaps(d, c, color, count).wf(),
        render_gaps(d, c, color, count).same_shape(d),
    decreases count,
{
    if count > 1 {
        lemma_render_gaps_shape(d, c, color, (count - 1) as nat);
        let row = count - 1;
        lemma_paint_shape(render_gaps(d, c, color, (count - 1) as nat), BufferTarget::Front, 0, row * 13 + c.small_up - 1, d.width as int, 1, fill_with(color));
    }
}

pub proof fn lemma_render_margins_shape(d: DisplayView, c: ConsoleView, color: u8, count: nat)
    requires
        d.wf(),
    ensures
        render_margins(d, c, color, count).wf(),
        render_margins(d, c, color, count).same_shape(d),
    decreases count,
{
    if count > 0 {
        lemma_render_margins_shape(d, c, color, (count - 1) as nat);
        let column = count - 1;
        let p = render_margins(d, c, color, (count - 1) as nat);
        lemma_paint_shape(p, BufferTarget::Front, column, 0, 1, d.height as int, fill_with(color));
        let q = p.paint(BufferTarget::Front, column, 0, 1, d.height as int, fill_with(color));
        lemma_paint_shape(q, BufferTarget::Front, d.width - 1 - column, 0, 1, d.height as int, fill_with(color));
    }
}

/// Drawing a console keeps the screen's shape.
pub proof fn lemma_render_shape(d: DisplayView, c: ConsoleView)
    requires
        d.wf(),
    ensures
        render(d, c).wf(),
        render(d, c).same_shape(d),
{
    let color = d.clear_color();
    let top = d.paint(BufferTarget::Front, 0, 0, d.width as int, c.small_up as u16 as int, fill_with(color));
    lemma_paint_shape(d, BufferTarget::Front, 0, 0, d.width as int, c.small_up as u16 as int, fill_with(color));
    let bottom = top.paint(BufferTarget::Front, 0, d.height - c.small_down, d.width as int, c.small_down as u16 as int, fill_with(color));
    lemma_paint_shape(top, BufferTarget::Front, 0, d.height - c.small_down, d.width as int, c.small_down as u16 as int, fill_with(color));
    lemma_render_gaps_shape(bottom, c, color, c.rows as nat);
    let gaps = render_gaps(bottom, c, color, c.rows as nat);
    lemma_render_margins_shape(gaps, c, color, c.small_left as nat);
    lemma_render_text_shape(render_margins(gaps, c, color, c.small_left as nat), c, c.rows as nat);
    lemma_render_text_shape(d, c, c.rows as nat);
}


/// Writing to the console: a carriage return changes nothing; a newline
/// moves the cursor to the start of the next line, and on the last line
/// scrolls every line up by one and blanks the last; any other byte (a tab
/// as a space) is stored under the cursor, which moves one cell right, or
/// to the start of the next line at the end of a line. The console keeps
/// its shape.
pub proof fn law_console_write(c: ConsoleView, byte: u8)
    requires
        c.wf(),
    ensures
        c.write(byte).wf(),
        c.write(byte).columns == c.columns && c.write(byte).rows == c.rows,
        byte == 13 ==> c.write(byte) == c,
        byte == 10 && c.y + 1 < c.rows ==> c.write(byte) == (ConsoleView { x: 0, y: c.y + 1, ..c }),
        byte == 10 && c.y + 1 == c.rows ==> ({
            let e = c.write(byte);
            &&& e.x == 0
            &&& e.y == c.rows - 1
            &&& forall|r: int, k: int|
                0 <= r < c.rows - 1 && 0 <= k < c.columns ==> #[trigger] e.cells[r * c.columns + k] == c.cells[(r + 1)
                    * c.columns + k]
            &&& forall|k: int| 0 <= k < c.columns ==> #[trigger] e.cells[(c.rows - 1) * c.columns + k] == 32
        }),
        byte != 10 && byte != 13 && c.x + 1 < c.columns ==> c.write(byte) == (ConsoleView {
            cells: c.cells.update(c.y * c.columns + c.x, if byte == 9 { 32u8 } else { byte }),
            x: c.x + 1,
            ..c
        }),
        byte != 10 && byte != 13 && c.x + 1 == c.columns && c.y + 1 < c.rows ==> c.write(byte) == (ConsoleView {
            cells: c.cells.update(c.y * c.columns + c.x, if byte == 9 { 32u8 } else { byte }),
            x: 0,
            y: c.y + 1,
            ..c
        }),
{
    let w = c.columns;
    let h = c.rows;
    assert(c.scrolled() == c);
    assert(0 <= c.y * w + c.x < w * h) by (nonlinear_arith)
        requires
            0 <= c.x < w,
            0 <= c.y < h,
    ;
    if byte == 10 && c.y + 1 == h {
        let e = c.write(byte);
        let t = ConsoleView { x: 0, y: c.y + 1, ..c };
        assert(e == t.scrolled());
        assert(e.cells.len() == w * h);
        assert forall|r: int, k: int| 0 <= r < h - 1 && 0 <= k < w implies #[trigger] e.cells[r * w + k]
            == c.cells[(r + 1) * w + k] by {
            assert(0 <= r * w + k < w * (h - 1)) by (nonlinear_arith)
                requires
                    0 <= r < h - 1,
                    0 <= k < w,
            ;
            assert((r + 1) * w + k == r * w + k + w) by (nonlinear_arith);
            assert(w * (h - 1) + w == w * h) by (nonlinear_arith);
            assert(r * w + k < w * (h - 1));
            assert(e.cells[r * w + k] == t.cells[r * w + k + w]);
        }
        assert forall|k: int| 0 <= k < w implies #[trigger] e.cells[(h - 1) * w + k] == 32 by {
            assert((h - 1) * w + k >= w * (h - 1) && (h - 1) * w + k < w * h) by (nonlinear_arith)
                requires
                    0 <= k < w,
            ;
        }
    }
}

} // verus!
