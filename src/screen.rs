//! A grid of character cells that a terminal front end draws from.
use vstd::prelude::*;
use vstd::string::StrSliceExecFns;
use vstd::utf8::*;

use crate::text::text_field;

verus! {

/// A column or row on the screen.
pub type Pos = u16;

/// The colors a terminal can show.
#[derive(Clone, Copy, Debug, PartialEq, Eq, Structural)]
pub enum Color {
    Black,
    Red,
    Green,
    Yellow,
    Blue,
    Magenta,
    Cyan,
    White,
}

impl Default for Color {
    /// The terminal's usual foreground color.
    fn default() -> (r: Color)
        ensures
            r == Color::White,
    {
        Color::White
    }
}

/// One cell: a character and how it is drawn.
#[derive(Clone, Copy, Debug, PartialEq, Eq, Structural)]
pub struct C {
    pub c: char,
    pub bold: bool,
    pub foreground_color: Color,
    pub background_color: Option<Color>,
}

/// An empty cell.
pub open spec fn blank() -> C {
    C { c: ' ', bold: false, foreground_color: Color::White, background_color: None }
}

impl C {
    /// An empty cell.
    pub fn new() -> (r: C)
        ensures
            r == blank(),
    {
        C { c: ' ', bold: false, foreground_color: Color::default(), background_color: None }
    }
}

/// Why drawing into the buffer failed.
#[derive(Clone, Copy, Debug, PartialEq, Eq, Structural)]
pub enum WriteError {
    /// The position lies outside the buffer.
    OutOfBounds,
    /// The bytes to write are not valid UTF-8 text.
    InvalidUtf8,
}

/// A screen buffer as a mathematical value.
pub struct ScreenView {
    /// The rows, top first; each holds `width` cells.
    pub cells: Seq<Seq<C>>,
    pub width: nat,
    pub foreground_color: Color,
    pub background_color: Option<Color>,
}

/// `height` rows of `width` cells.
pub open spec fn is_grid(cells: Seq<Seq<C>>, width: nat) -> bool {
    forall|y: int| 0 <= y < cells.len() ==> (#[trigger] cells[y]).len() == width
}

/// A grid of cells, with the colors that writers draw in.
pub struct ScreenBuffer {
    buffer: Vec<Vec<C>>,
    width: Pos,
    foreground_color: Color,
    background_color: Option<Color>,
}

pub open spec fn rows_view(rows: Seq<Vec<C>>) -> Seq<Seq<C>> {
    rows.map_values(|r: Vec<C>| r@)
}

impl View for ScreenBuffer {
    type V = ScreenView;

    closed spec fn view(&self) -> ScreenView {
        ScreenView {
            cells: rows_view(self.buffer@),
            width: self.width as nat,
            foreground_color: self.foreground_color,
            background_color: self.background_color,
        }
    }
}

/// Cell `i` of a row after `text` is drawn into it from column `x` on,
/// stopping before column `end`.
pub open spec fn drawn_cell(row: Seq<C>, x: int, end: int, text: Seq<char>, bold: bool, fg: Color, bg: Option<Color>, i: int) -> C {
    if x <= i < end && i - x < text.len() {
        C { c: text[i - x], bold, foreground_color: fg, background_color: bg }
    } else {
        row[i]
    }
}

/// A row after `text` is drawn into it from column `x` on, stopping before
/// column `end`.
pub open spec fn drawn(row: Seq<C>, x: int, end: int, text: Seq<char>, bold: bool, fg: Color, bg: Option<Color>) -> Seq<C> {
    Seq::new(row.len(), |i: int| drawn_cell(row, x, end, text, bold, fg, bg, i))
}

proof fn lemma_drawn(row: Seq<C>, x: int, end: int, text: Seq<char>, bold: bool, fg: Color, bg: Option<Color>)
    ensures
        drawn(row, x, end, text, bold, fg, bg).len() == row.len(),
        forall|k: int| 0 <= k < row.len() ==> #[trigger] drawn(row, x, end, text, bold, fg, bg)[k] == drawn_cell(row, x, end, text, bold, fg, bg, k),
{
}

/// How many characters of a text of `len` characters fit between column `x`
/// and column `end`.
pub open spec fn fitting(x: int, end: int, len: int) -> int {
    if x >= end {
        0
    } else if len < end - x {
        len
    } else {
        end - x
    }
}

impl ScreenBuffer {
    /// Rows all as wide as the buffer, and no more rows or columns than a
    /// position can name.
    pub closed spec fn well_formed(&self) -> bool {
        &&& is_grid(rows_view(self.buffer@), self.width as nat)
        &&& self.buffer@.len() <= Pos::MAX
    }

    /// A buffer of blank cells.
    pub fn new(width: Pos, height: Pos) -> (r: ScreenBuffer)
        ensures
            r.well_formed(),
            r@.width == width,
            r@.cells.len() == height,
            forall|y: int, x: int| 0 <= y < height && 0 <= x < width ==> #[trigger] r@.cells[y][x] == blank(),
            r@.foreground_color == Color::White,
            r@.background_color is None,
    {
        let mut buffer: Vec<Vec<C>> = Vec::new();
        let mut y: Pos = 0;
        while y < height
            invariant
                y <= height,
                buffer@.len() == y,
                forall|j: int| 0 <= j < y ==> (#[trigger] buffer@[j])@ == Seq::new(width as nat, |i: int| blank()),
            decreases height - y,
        {
            let mut row: Vec<C> = Vec::new();
            let mut x: Pos = 0;
            while x < width
                invariant
                    x <= width,
                    row@ == Seq::new(x as nat, |i: int| blank()),
                decreases width - x,
            {
                row.push(C::new());
                x = x + 1;
                assert(row@ =~= Seq::new(x as nat, |i: int| blank()));
            }
            buffer.push(row);
            y = y + 1;
        }
        let r = ScreenBuffer {
            buffer,
            width,
            foreground_color: Color::default(),
            background_color: None,
        };
        assert(forall|j: int| 0 <= j < height ==> #[trigger] rows_view(r.buffer@)[j] == r.buffer@[j]@);
        r
    }

    /// How many cells each row holds.
    pub fn width(&self) -> (r: Pos)
        ensures
            r == self@.width,
    {
        self.width
    }

    /// How many rows the buffer holds.
    pub fn height(&self) -> (r: Pos)
        requires
            self.well_formed(),
        ensures
            r == self@.cells.len(),
    {
        self.buffer.len() as Pos
    }

    /// Sets the color that writers draw characters in, and returns the one before.
    pub fn foreground_color(&mut self, color: Color) -> (r: Color)
        ensures
            r == old(self)@.foreground_color,
            final(self)@ == (ScreenView { foreground_color: color, ..old(self)@ }),
            final(self).well_formed() == old(self).well_formed(),
    {
        let previous_value = self.foreground_color;
        self.foreground_color = color;
        previous_value
    }

    /// Sets the color that writers draw behind characters, and returns the one before.
    pub fn background_color(&mut self, color: Option<Color>) -> (r: Option<Color>)
        ensures
            r == old(self)@.background_color,
            final(self)@ == (ScreenView { background_color: color, ..old(self)@ }),
            final(self).well_formed() == old(self).well_formed(),
    {
        let previous_value = self.background_color;
        self.background_color = color;
        previous_value
    }

    /// A writer that starts at column `x` of row `y` (the origin is the
    /// upper left corner) and may write up to the buffer's right edge.
    pub fn writer(&self, x: Pos, y: Pos) -> (r: BufferWriter)
        ensures
            r.x == x,
            r.y == y,
            r.limit == self@.width,
            r.bold,
    {
        BufferWriter { x, y, limit: self.width, bold: true }
    }

    /// Puts `c` in column `x` of row `y`.
    pub fn set(&mut self, x: Pos, y: Pos, c: C) -> (r: Result<(), WriteError>)
        requires
            old(self).well_formed(),
        ensures
            final(self).well_formed(),
            r is Ok <==> (y < old(self)@.cells.len() && x < old(self)@.width),
            r is Ok ==> final(self)@ == (ScreenView {
                cells: old(self)@.cells.update(y as int, old(self)@.cells[y as int].update(x as int, c)),
                ..old(self)@
            }),
            r is Err ==> final(self)@ == old(self)@ && r == Err::<(), WriteError>(WriteError::OutOfBounds),
    {
        if y as usize >= self.buffer.len() || x >= self.width {
            return Err(WriteError::OutOfBounds);
        }
        let ghost before = self.buffer@;
        assert(rows_view(before)[y as int] == before[y as int]@);
        self.buffer[y as usize][x as usize] = c;
        proof {
            let cells = old(self)@.cells.update(y as int, old(self)@.cells[y as int].update(x as int, c));
            assert forall|j: int| 0 <= j < self.buffer@.len() implies #[trigger] rows_view(self.buffer@)[j] == cells[j] by {
                if j != y {
                    assert(self.buffer@[j] == before[j]);
                } else {
                    assert(self.buffer@[j]@ =~= cells[j]);
                }
            }
            assert(rows_view(self.buffer@) =~= cells);
        }
        Ok(())
    }

    /// Makes every cell blank and the foreground color the usual one again.
    pub fn clear(&mut self)
        requires
            old(self).well_formed(),
        ensures
            final(self).well_formed(),
            final(self)@.width == old(self)@.width,
            final(self)@.cells.len() == old(self)@.cells.len(),
            forall|y: int, x: int| 0 <= y < final(self)@.cells.len() && 0 <= x < final(self)@.width
                ==> #[trigger] final(self)@.cells[y][x] == blank(),
            final(self)@.foreground_color == Color::White,
            final(self)@.background_color == old(self)@.background_color,
    {
        let height = self.buffer.len();
        let width = self.width;
        proof {
            assert forall|j: int| 0 <= j < height implies (#[trigger] self.buffer@[j])@.len() == width by {
                assert(rows_view(self.buffer@)[j] == self.buffer@[j]@);
            }
        }
        let mut y: usize = 0;
        while y < height
            invariant
                y <= height == self.buffer@.len(),
                width == self.width,
                self.background_color == old(self).background_color,
                height <= Pos::MAX,
                forall|j: int| 0 <= j < height ==> (#[trigger] self.buffer@[j])@.len() == width,
                forall|j: int, i: int| 0 <= j < y && 0 <= i < width ==> #[trigger] self.buffer@[j]@[i] == blank(),
            decreases height - y,
        {
            let mut x: usize = 0;
            while x < width as usize
                invariant
                    y < height == self.buffer@.len(),
                    x <= width,
                    width == self.width,
                    self.background_color == old(self).background_color,
                    forall|j: int| 0 <= j < height ==> (#[trigger] self.buffer@[j])@.len() == width,
                    forall|j: int, i: int| 0 <= j < y && 0 <= i < width ==> #[trigger] self.buffer@[j]@[i] == blank(),
                    forall|i: int| 0 <= i < x ==> #[trigger] self.buffer@[y as int]@[i] == blank(),
                decreases width - x,
            {
                self.buffer[y][x] = C::new();
                x = x + 1;
            }
            y = y + 1;
        }
        self.foreground_color = Color::default();
        proof {
            assert forall|j: int| 0 <= j < height implies #[trigger] rows_view(self.buffer@)[j] == self.buffer@[j]@ by {}
        }
    }

    /// Steps through the cells row by row, top first.
    pub fn iter(&self) -> (r: BufferIterator<'_>)
        ensures
            r.buffer == self,
            r.x == 0,
            r.y == 0,
    {
        BufferIterator { buffer: self, x: 0, y: 0 }
    }
}

/// Writes text into one row of a buffer, from a column on.
pub struct BufferWriter {
    pub x: Pos,
    pub y: Pos,
    /// The writer stops before this column.
    pub limit: Pos,
    /// Whether the characters are drawn bold.
    pub bold: bool,
}

impl BufferWriter {
    /// The same writer, stopping before column `limit`.
    pub fn limit(self, limit: Pos) -> (r: BufferWriter)
        ensures
            r == (BufferWriter { limit, ..self }),
    {
        let mut w = self;
        w.limit = limit;
        w
    }

    /// Draws the text that `buf` encodes from the writer's column on, in the
    /// buffer's colors, and moves the column past it. What lies beyond the
    /// limit or the buffer's right edge is cut off.
    pub fn write(&mut self, buffer: &mut ScreenBuffer, buf: &[u8]) -> (r: Result<(), WriteError>)
        requires
            old(buffer).well_formed(),
        ensures
            final(buffer).well_formed(),
            old(self).y >= old(buffer)@.cells.len() ==> r == Err::<(), WriteError>(WriteError::OutOfBounds),
            old(self).y < old(buffer)@.cells.len() && !valid_utf8(buf@) ==> r == Err::<(), WriteError>(WriteError::InvalidUtf8),
            r is Err ==> final(buffer)@ == old(buffer)@ && *final(self) == *old(self),
            r is Ok <==> old(self).y < old(buffer)@.cells.len() && valid_utf8(buf@),
            r is Ok ==> ({
                let text = decode_utf8(buf@);
                let y = old(self).y as int;
                let x = old(self).x as int;
                let end = if old(self).limit < old(buffer)@.width { old(self).limit as int } else { old(buffer)@.width as int };
                let b = old(buffer)@;
                &&& final(buffer)@ == (ScreenView {
                    cells: b.cells.update(y, drawn(b.cells[y], x, end, text, old(self).bold, b.foreground_color, b.background_color)),
                    ..b
                })
                &&& *final(self) == (BufferWriter { x: (x + fitting(x, end, text.len() as int)) as Pos, ..*old(self) })
            }),
    {
        if self.y as usize >= buffer.buffer.len() {
            return Err(WriteError::OutOfBounds);
        }
        let s = match text_field(buf, 0, buf.len()) {
            Some(s) => s,
            None => {
                assert(buf@.subrange(0, buf@.len() as int) =~= buf@);
                return Err(WriteError::InvalidUtf8);
            },
        };
        assert(buf@.subrange(0, buf@.len() as int) =~= buf@);
        let ghost text = s@;
        let ghost b = buffer@;
        let ghost x0 = self.x as int;
        let ghost end = if self.limit < buffer.width { self.limit as int } else { buffer.width as int };
        let y = self.y as usize;
        let n = s.as_str().unicode_len();
        let cell = C {
            c: ' ',
            bold: self.bold,
            foreground_color: buffer.foreground_color,
            background_color: buffer.background_color,
        };
        assert(rows_view(buffer.buffer@)[y as int] == buffer.buffer@[y as int]@);
        assert(b.cells[y as int].len() == b.width);
        assert(drawn(b.cells[y as int], x0, x0, text, self.bold, b.foreground_color, b.background_color) =~= b.cells[y as int]);
        proof {
            assert forall|j: int| 0 <= j < buffer.buffer@.len() && j != y implies (#[trigger] buffer.buffer@[j])@ == b.cells[j] by {
                assert(rows_view(buffer.buffer@)[j] == buffer.buffer@[j]@);
            }
        }
        let mut i: usize = 0;
        while i < n && self.x < self.limit && self.x < buffer.width
            invariant
                n == text.len(),
                text == s@,
                y == old(self).y,
                self.y == old(self).y,
                self.limit == old(self).limit,
                self.bold == old(self).bold,
                self.x == x0 + i,
                0 <= i <= fitting(x0, end, text.len() as int),
                x0 == old(self).x,
                end == if self.limit < buffer.width { self.limit as int } else { buffer.width as int },
                y < buffer.buffer@.len(),
                buffer.width == b.width,
                buffer.foreground_color == b.foreground_color,
                buffer.background_color == b.background_color,
                cell == (C { c: ' ', bold: self.bold, foreground_color: b.foreground_color, background_color: b.background_color }),
                buffer.buffer@.len() == b.cells.len(),
                b == old(buffer)@,
                old(buffer).well_formed(),
                b.cells[y as int].len() == b.width,
                forall|j: int| 0 <= j < buffer.buffer@.len() && j != y ==> (#[trigger] buffer.buffer@[j])@ == b.cells[j],
                buffer.buffer@[y as int]@ == drawn(b.cells[y as int], x0, x0 + i, text, self.bold, b.foreground_color, b.background_color),
            decreases n - i,
        {
            let c = s.as_str().get_char(i);
            proof {
                lemma_drawn(b.cells[y as int], x0, x0 + i, text, self.bold, b.foreground_color, b.background_color);
                lemma_drawn(b.cells[y as int], x0, x0 + i + 1, text, self.bold, b.foreground_color, b.background_color);
            }
            self.buffer_cell(buffer, y, C { c, ..cell });
            assert(buffer.buffer@[y as int]@ =~= drawn(b.cells[y as int], x0, x0 + i + 1, text, self.bold, b.foreground_color, b.background_color));
            self.x = self.x + 1;
            i = i + 1;
        }
        proof {
            let row = drawn(b.cells[y as int], x0, x0 + i, text, self.bold, b.foreground_color, b.background_color);
            lemma_drawn(b.cells[y as int], x0, x0 + i, text, self.bold, b.foreground_color, b.background_color);
            lemma_drawn(b.cells[y as int], x0, end, text, self.bold, b.foreground_color, b.background_color);
            assert(i == fitting(x0, end, text.len() as int));
            assert(row =~= drawn(b.cells[y as int], x0, end, text, self.bold, b.foreground_color, b.background_color));
            let cells = b.cells.update(y as int, row);
            assert forall|j: int| 0 <= j < cells.len() implies #[trigger] rows_view(buffer.buffer@)[j] == cells[j] by {
                assert(rows_view(buffer.buffer@)[j] == buffer.buffer@[j]@);
            }
            assert(rows_view(buffer.buffer@) =~= cells);
            assert forall|j: int| 0 <= j < cells.len() implies (#[trigger] cells[j]).len() == b.width by {
                assert(b.cells[j].len() == b.width);
            }
        }
        Ok(())
    }

    /// Puts `c` in the writer's column of row `y`.
    fn buffer_cell(&self, buffer: &mut ScreenBuffer, y: usize, c: C)
        requires
            y < old(buffer).buffer@.len(),
            self.x < old(buffer).width,
            old(buffer).buffer@[y as int]@.len() == old(buffer).width,
        ensures
            final(buffer).buffer@.len() == old(buffer).buffer@.len(),
            final(buffer).width == old(buffer).width,
            final(buffer).foreground_color == old(buffer).foreground_color,
            final(buffer).background_color == old(buffer).background_color,
            forall|j: int| 0 <= j < old(buffer).buffer@.len() && j != y ==> #[trigger] final(buffer).buffer@[j] == old(buffer).buffer@[j],
            final(buffer).buffer@[y as int]@ == old(buffer).buffer@[y as int]@.update(self.x as int, c),
    {
        buffer.buffer[y][self.x as usize] = c;
    }
}

/// Steps through the cells of a buffer, row by row.
pub struct BufferIterator<'r> {
    pub buffer: &'r ScreenBuffer,
    pub x: usize,
    pub y: usize,
}

impl<'r> BufferIterator<'r> {
    /// The next cell with its column and row, or `None` past the last row.
    pub fn next(&mut self) -> (r: Option<(Pos, Pos, C)>)
        requires
            old(self).buffer.well_formed(),
            old(self).y <= old(self).buffer@.cells.len(),
            old(self).x <= old(self).buffer@.width,
        ensures
            final(self).buffer == old(self).buffer,
            final(self).y <= final(self).buffer@.cells.len(),
            final(self).x <= final(self).buffer@.width,
            ({
                let b = old(self).buffer@;
                let wrap = old(self).x >= b.width && old(self).y < b.cells.len();
                let x = if wrap { 0 } else { old(self).x as int };
                let y = if wrap { old(self).y + 1 } else { old(self).y as int };
                if y >= b.cells.len() || x >= b.width {
                    r is None && final(self).x == x && final(self).y == y
                } else {
                    r == Some((x as Pos, y as Pos, b.cells[y][x])) && final(self).x == x + 1
                        && final(self).y == y
                }
            }),
    {
        if self.x >= self.buffer.width as usize && self.y < self.buffer.buffer.len() {
            self.x = 0;
            self.y = self.y + 1;
        }
        if self.y >= self.buffer.buffer.len() || self.x >= self.buffer.width as usize {
            return None;
        }
        let ghost cells = self.buffer@.cells;
        assert(cells[self.y as int] == self.buffer.buffer@[self.y as int]@);
        let result = Some((self.x as Pos, self.y as Pos, self.buffer.buffer[self.y][self.x]));
        self.x = self.x + 1;
        result
    }
}

} // verus!
