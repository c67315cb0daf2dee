use vstd::prelude::*;
use vstd::string::StringExecFns;

verus! {

/// The colour of a cell's text or background.
#[derive(Debug, Clone, Copy, PartialEq, Eq, Structural)]
pub enum Color {
    Reset,
    Black,
    Red,
    Green,
    Yellow,
    Blue,
    Magenta,
    Cyan,
    Gray,
    DarkGray,
    LightRed,
    LightGreen,
    LightYellow,
    LightBlue,
    LightMagenta,
    LightCyan,
    White,
    Rgb(u8, u8, u8),
    Indexed(u8),
}

/// Modifier bit: bold text.
pub const BOLD: u16 = 0x001;

/// Modifier bit: dim text.
pub const DIM: u16 = 0x002;

/// Modifier bit: italic text.
pub const ITALIC: u16 = 0x004;

/// Modifier bit: underlined text.
pub const UNDERLINED: u16 = 0x008;

/// Modifier bit: slowly blinking text.
pub const SLOW_BLINK: u16 = 0x010;

/// Modifier bit: rapidly blinking text.
pub const RAPID_BLINK: u16 = 0x020;

/// Modifier bit: foreground and background swapped.
pub const REVERSED: u16 = 0x040;

/// Modifier bit: hidden text.
pub const HIDDEN: u16 = 0x080;

/// Modifier bit: crossed-out text.
pub const CROSSED_OUT: u16 = 0x100;

/// One cell of the terminal: what it shows and how.
#[derive(Debug, Clone, PartialEq, Eq)]
pub struct Cell {
    /// The text of the cell, one grapheme as a rule.
    pub symbol: String,
    /// The colour of the text.
    pub fg: Color,
    /// The colour of the background.
    pub bg: Color,
    /// The modifier bits that are set.
    pub modifier: u16,
}

/// A cell as mathematical values.
pub struct CellView {
    pub symbol: Seq<char>,
    pub fg: Color,
    pub bg: Color,
    pub modifier: u16,
}

impl View for Cell {
    type V = CellView;

    open spec fn view(&self) -> CellView {
        CellView { symbol: self.symbol@, fg: self.fg, bg: self.bg, modifier: self.modifier }
    }
}

/// The views of a vector of cells.
pub open spec fn cell_views(v: Seq<Cell>) -> Seq<CellView> {
    Seq::new(v.len(), |i: int| v[i]@)
}

/// The cell that shows nothing: one space in the default colours.
pub open spec fn blank() -> CellView {
    CellView { symbol: " "@, fg: Color::Reset, bg: Color::Reset, modifier: 0 }
}

impl Cell {
    /// A blank cell.
    pub fn empty() -> (c: Cell)
        ensures
            c@ == blank(),
    {
        Cell { symbol: String::from_str(" "), fg: Color::Reset, bg: Color::Reset, modifier: 0 }
    }
}

/// The character of a decimal digit.
pub open spec fn digit(d: nat) -> char {
    (48 + d) as char
}

/// `n` in decimal, without leading zeros.
pub open spec fn decimal(n: nat) -> Seq<char>
    decreases n,
{
    if n < 10 {
        seq![digit(n)]
    } else {
        decimal(n / 10).push(digit(n % 10))
    }
}

/// The escape sequence that sets the colour of the text.
pub open spec fn fg_code(color: Color) -> Seq<char> {
    match color {
        Color::Reset => "\x1b[39m"@,
        Color::Black => "\x1b[30m"@,
        Color::Red => "\x1b[31m"@,
        Color::Green => "\x1b[32m"@,
        Color::Yellow => "\x1b[33m"@,
        Color::Blue => "\x1b[34m"@,
        Color::Magenta => "\x1b[35m"@,
        Color::Cyan => "\x1b[36m"@,
        Color::Gray => "\x1b[37m"@,
        Color::DarkGray => "\x1b[90m"@,
        Color::LightRed => "\x1b[91m"@,
        Color::LightGreen => "\x1b[92m"@,
        Color::LightYellow => "\x1b[93m"@,
        Color::LightBlue => "\x1b[94m"@,
        Color::LightMagenta => "\x1b[95m"@,
        Color::LightCyan => "\x1b[96m"@,
        Color::White => "\x1b[97m"@,
        Color::Rgb(r, g, b) => "\x1b[38;2;"@ + decimal(r as nat) + seq![';'] + decimal(g as nat)
            + seq![';'] + decimal(b as nat) + seq!['m'],
        Color::Indexed(n) => "\x1b[38;5;"@ + decimal(n as nat) + seq!['m'],
    }
}

/// The escape sequence that sets the colour of the background.
pub open spec fn bg_code(color: Color) -> Seq<char> {
    match color {
        Color::Reset => "\x1b[49m"@,
        Color::Black => "\x1b[40m"@,
        Color::Red => "\x1b[41m"@,
        Color::Green => "\x1b[42m"@,
        Color::Yellow => "\x1b[43m"@,
        Color::Blue => "\x1b[44m"@,
        Color::Magenta => "\x1b[45m"@,
        Color::Cyan => "\x1b[46m"@,
        Color::Gray => "\x1b[47m"@,
        Color::DarkGray => "\x1b[100m"@,
        Color::LightRed => "\x1b[101m"@,
        Color::LightGreen => "\x1b[102m"@,
        Color::LightYellow => "\x1b[103m"@,
        Color::LightBlue => "\x1b[104m"@,
        Color::LightMagenta => "\x1b[105m"@,
        Color::LightCyan => "\x1b[106m"@,
        Color::White => "\x1b[107m"@,
        Color::Rgb(r, g, b) => "\x1b[48;2;"@ + decimal(r as nat) + seq![';'] + decimal(g as nat)
            + seq![';'] + decimal(b as nat) + seq!['m'],
        Color::Indexed(n) => "\x1b[48;5;"@ + decimal(n as nat) + seq!['m'],
    }
}

/// `code` where the bits `mask` meet the modifier `m`, else nothing.
pub open spec fn code_if(m: u16, mask: u16, code: Seq<char>) -> Seq<char> {
    if m & mask != 0 {
        code
    } else {
        Seq::empty()
    }
}

/// The escape sequences of the modifier bits that are set. Both kinds of
/// blinking give the one sequence for blinking; hidden text has none.
pub open spec fn modifier_codes(m: u16) -> Seq<char> {
    code_if(m, BOLD, "\x1b[1m"@) + code_if(m, DIM, "\x1b[2m"@) + code_if(m, ITALIC, "\x1b[3m"@)
        + code_if(m, UNDERLINED, "\x1b[4m"@) + code_if(m, 0x030, "\x1b[5m"@) + code_if(
        m,
        REVERSED,
        "\x1b[7m"@,
    ) + code_if(m, CROSSED_OUT, "\x1b[9m"@)
}

/// The escape sequences that set a cell's style from scratch.
pub open spec fn style_codes(c: CellView) -> Seq<char> {
    "\x1b[0m"@ + modifier_codes(c.modifier) + (if c.fg != Color::Reset {
        fg_code(c.fg)
    } else {
        Seq::empty()
    }) + (if c.bg != Color::Reset {
        bg_code(c.bg)
    } else {
        Seq::empty()
    })
}

/// Whether cell `i` has the style of the cell before it; the first cell is
/// held against the default style.
pub open spec fn same_style(cells: Seq<CellView>, i: int) -> bool {
    if i == 0 {
        cells[i].fg == Color::Reset && cells[i].bg == Color::Reset && cells[i].modifier == 0
    } else {
        cells[i].fg == cells[i - 1].fg && cells[i].bg == cells[i - 1].bg && cells[i].modifier
            == cells[i - 1].modifier
    }
}

/// What cell `i` adds to a frame: its style where that differs from the
/// style before, and its text.
pub open spec fn cell_text(cells: Seq<CellView>, i: int) -> Seq<char> {
    (if same_style(cells, i) {
        Seq::empty()
    } else {
        style_codes(cells[i])
    }) + cells[i].symbol
}

/// The text of the cells `from..to`.
pub open spec fn cells_text(cells: Seq<CellView>, from: int, to: int) -> Seq<char>
    decreases to - from,
{
    if to <= from {
        Seq::empty()
    } else {
        cells_text(cells, from, to - 1) + cell_text(cells, to - 1)
    }
}

/// The text of row `y`: the cursor goes to the start of the row, then the
/// cells of the row follow.
pub open spec fn row_text(cells: Seq<CellView>, width: int, y: int) -> Seq<char> {
    "\x1b["@ + decimal((y + 1) as nat) + ";1H"@ + cells_text(cells, y * width, (y + 1) * width)
}

/// The text of the rows `0..rows`.
pub open spec fn rows_text(cells: Seq<CellView>, width: int, rows: int) -> Seq<char>
    decreases rows,
{
    if rows <= 0 {
        Seq::empty()
    } else {
        rows_text(cells, width, rows - 1) + row_text(cells, width, rows - 1)
    }
}

/// A whole frame: the cursor is hidden, the rows are drawn, the style is
/// reset, and the cursor is put back, and shown where it is visible.
pub open spec fn frame_text(
    cells: Seq<CellView>,
    width: u16,
    height: u16,
    cursor_x: u16,
    cursor_y: u16,
    cursor_visible: bool,
) -> Seq<char> {
    "\x1b[?25l"@ + rows_text(cells, width as int, height as int) + "\x1b[0m"@ + "\x1b["@ + decimal(
        (cursor_y + 1) as nat,
    ) + seq![';'] + decimal((cursor_x + 1) as nat) + seq!['H'] + (if cursor_visible {
        "\x1b[?25h"@
    } else {
        Seq::empty()
    })
}

proof fn lemma_decimal_digits(n: nat)
    requires
        n < 100000,
    ensures
        n < 10 ==> decimal(n) == seq![digit(n)],
        10 <= n < 100 ==> decimal(n) == seq![digit(n / 10), digit(n % 10)],
        100 <= n < 1000 ==> decimal(n) == seq![digit(n / 100), digit(n / 10 % 10), digit(n % 10)],
        1000 <= n < 10000 ==> decimal(n) == seq![
            digit(n / 1000),
            digit(n / 100 % 10),
            digit(n / 10 % 10),
            digit(n % 10),
        ],
        10000 <= n ==> decimal(n) == seq![
            digit(n / 10000),
            digit(n / 1000 % 10),
            digit(n / 100 % 10),
            digit(n / 10 % 10),
            digit(n % 10),
        ],
    decreases n,
{
    if n >= 10 {
        let m = n / 10;
        lemma_decimal_digits(m);
        assert(m / 10 == n / 100);
        assert(m / 100 == n / 1000);
        assert(m / 1000 == n / 10000);
        if n < 100 {
            assert(decimal(n) =~= seq![digit(n / 10), digit(n % 10)]);
        } else if n < 1000 {
            assert(decimal(n) =~= seq![digit(n / 100), digit(n / 10 % 10), digit(n % 10)]);
        } else if n < 10000 {
            assert(decimal(n) =~= seq![
                digit(n / 1000),
                digit(n / 100 % 10),
                digit(n / 10 % 10),
                digit(n % 10),
            ]);
        } else {
            assert(decimal(n) =~= seq![
                digit(n / 10000),
                digit(n / 1000 % 10),
                digit(n / 100 % 10),
                digit(n / 10 % 10),
                digit(n % 10),
            ]);
        }
    }
}

fn digit_char(d: u16) -> (c: char)
    requires
        d < 10,
    ensures
        c == digit(d as nat),
{
    let b: u8 = d as u8;
    (48u8 + b) as char
}

/// Appends `n` in decimal to `s`.
pub fn push_u16(s: &mut String, n: u16)
    ensures
        final(s)@ == old(s)@ + decimal(n as nat),
{
    let ghost start = s@;
    if n >= 10000 {
        s.push(digit_char(n / 10000));
    }
    if n >= 1000 {
        s.push(digit_char(n / 1000 % 10));
    }
    if n >= 100 {
        s.push(digit_char(n / 100 % 10));
    }
    if n >= 10 {
        s.push(digit_char(n / 10 % 10));
    }
    s.push(digit_char(n % 10));
    proof {
        lemma_decimal_digits(n as nat);
        assert(s@ =~= start + decimal(n as nat));
    }
}

/// Appends the three parts of a colour after the opening of its escape
/// sequence.
fn push_rgb(out: &mut String, r: u8, g: u8, b: u8)
    ensures
        final(out)@ == old(out)@ + decimal(r as nat) + seq![';'] + decimal(g as nat) + seq![';']
            + decimal(b as nat) + seq!['m'],
{
    push_u16(out, r as u16);
    out.push(';');
    push_u16(out, g as u16);
    out.push(';');
    push_u16(out, b as u16);
    out.push('m');
}

/// Appends the escape sequence that sets the colour of the text.
pub fn push_fg_color(out: &mut String, color: Color)
    ensures
        final(out)@ == old(out)@ + fg_code(color),
{
    let ghost start = out@;
    match color {
        Color::Reset => out.append("\x1b[39m"),
        Color::Black => out.append("\x1b[30m"),
        Color::Red => out.append("\x1b[31m"),
        Color::Green => out.append("\x1b[32m"),
        Color::Yellow => out.append("\x1b[33m"),
        Color::Blue => out.append("\x1b[34m"),
        Color::Magenta => out.append("\x1b[35m"),
        Color::Cyan => out.append("\x1b[36m"),
        Color::Gray => out.append("\x1b[37m"),
        Color::DarkGray => out.append("\x1b[90m"),
        Color::LightRed => out.append("\x1b[91m"),
        Color::LightGreen => out.append("\x1b[92m"),
        Color::LightYellow => out.append("\x1b[93m"),
        Color::LightBlue => out.append("\x1b[94m"),
        Color::LightMagenta => out.append("\x1b[95m"),
        Color::LightCyan => out.append("\x1b[96m"),
        Color::White => out.append("\x1b[97m"),
        Color::Rgb(r, g, b) => {
            out.append("\x1b[38;2;");
            push_rgb(out, r, g, b);
            assert(out@ =~= start + fg_code(color));
        },
        Color::Indexed(n) => {
            out.append("\x1b[38;5;");
            push_u16(out, n as u16);
            out.push('m');
            assert(out@ =~= start + fg_code(color));
        },
    }
}

/// Appends the escape sequence that sets the colour of the background.
pub fn push_bg_color(out: &mut String, color: Color)
    ensures
        final(out)@ == old(out)@ + bg_code(color),
{
    let ghost start = out@;
    match color {
        Color::Reset => out.append("\x1b[49m"),
        Color::Black => out.append("\x1b[40m"),
        Color::Red => out.append("\x1b[41m"),
        Color::Green => out.append("\x1b[42m"),
        Color::Yellow => out.append("\x1b[43m"),
        Color::Blue => out.append("\x1b[44m"),
        Color::Magenta => out.append("\x1b[45m"),
        Color::Cyan => out.append("\x1b[46m"),
        Color::Gray => out.append("\x1b[47m"),
        Color::DarkGray => out.append("\x1b[100m"),
        Color::LightRed => out.append("\x1b[101m"),
        Color::LightGreen => out.append("\x1b[102m"),
        Color::LightYellow => out.append("\x1b[103m"),
        Color::LightBlue => out.append("\x1b[104m"),
        Color::LightMagenta => out.append("\x1b[105m"),
        Color::LightCyan => out.append("\x1b[106m"),
        Color::White => out.append("\x1b[107m"),
        Color::Rgb(r, g, b) => {
            out.append("\x1b[48;2;");
            push_rgb(out, r, g, b);
            assert(out@ =~= start + bg_code(color));
        },
        Color::Indexed(n) => {
            out.append("\x1b[48;5;");
            push_u16(out, n as u16);
            out.push('m');
            assert(out@ =~= start + bg_code(color));
        },
    }
}

/// Appends `code` where the bits `mask` meet the modifier `m`.
fn push_code_if(out: &mut String, m: u16, mask: u16, code: &str)
    ensures
        final(out)@ == old(out)@ + code_if(m, mask, code@),
{
    let ghost start = out@;
    if m & mask != 0 {
        out.append(code);
    }
    assert(out@ =~= start + code_if(m, mask, code@));
}

/// Appends the escape sequences of the modifier bits that are set.
fn push_modifiers(out: &mut String, m: u16)
    ensures
        final(out)@ == old(out)@ + modifier_codes(m),
{
    let ghost start = out@;
    push_code_if(out, m, BOLD, "\x1b[1m");
    let ghost c1 = code_if(m, BOLD, "\x1b[1m"@);
    push_code_if(out, m, DIM, "\x1b[2m");
    let ghost c2 = c1 + code_if(m, DIM, "\x1b[2m"@);
    assert(out@ =~= start + c2);
    push_code_if(out, m, ITALIC, "\x1b[3m");
    let ghost c3 = c2 + code_if(m, ITALIC, "\x1b[3m"@);
    assert(out@ =~= start + c3);
    push_code_if(out, m, UNDERLINED, "\x1b[4m");
    let ghost c4 = c3 + code_if(m, UNDERLINED, "\x1b[4m"@);
    assert(out@ =~= start + c4);
    push_code_if(out, m, 0x030, "\x1b[5m");
    let ghost c5 = c4 + code_if(m, 0x030, "\x1b[5m"@);
    assert(out@ =~= start + c5);
    push_code_if(out, m, REVERSED, "\x1b[7m");
    let ghost c6 = c5 + code_if(m, REVERSED, "\x1b[7m"@);
    assert(out@ =~= start + c6);
    push_code_if(out, m, CROSSED_OUT, "\x1b[9m");
    let ghost c7 = c6 + code_if(m, CROSSED_OUT, "\x1b[9m"@);
    assert(out@ =~= start + c7);
    assert(c7 == modifier_codes(m));
}

/// Appends the escape sequences that set a cell's style from scratch.
fn push_style(out: &mut String, cell: &Cell)
    ensures
        final(out)@ == old(out)@ + style_codes(cell@),
{
    let ghost start = out@;
    out.append("\x1b[0m");
    push_modifiers(out, cell.modifier);
    let ghost s1 = "\x1b[0m"@ + modifier_codes(cell.modifier);
    assert(out@ =~= start + s1);
    if cell.fg != Color::Reset {
        push_fg_color(out, cell.fg);
    }
    let ghost s2 = s1 + (if cell.fg != Color::Reset {
        fg_code(cell.fg)
    } else {
        Seq::empty()
    });
    assert(out@ =~= start + s2);
    if cell.bg != Color::Reset {
        push_bg_color(out, cell.bg);
    }
    let ghost s3 = s2 + (if cell.bg != Color::Reset {
        bg_code(cell.bg)
    } else {
        Seq::empty()
    });
    assert(out@ =~= start + s3);
    assert(s3 == style_codes(cell@));
}

/// A screen of cells that renders each frame as text with ANSI escape
/// sequences, for a terminal emulator to show.
#[derive(Debug, Clone)]
pub struct WebBackend {
    width: u16,
    height: u16,
    /// Row after row (index = y * width + x).
    cells: Vec<Cell>,
    cursor_x: u16,
    cursor_y: u16,
    cursor_visible: bool,
    /// The frame of the last flush.
    ansi_output: String,
}

/// A vector of `n` blank cells.
fn blank_cells(n: usize) -> (cells: Vec<Cell>)
    ensures
        cells@.len() == n,
        forall|i: int| 0 <= i < n ==> (#[trigger] cells@[i])@ == blank(),
{
    let mut cells: Vec<Cell> = Vec::new();
    let mut i: usize = 0;
    while i < n
        invariant
            i <= n,
            cells@.len() == i,
            forall|k: int| 0 <= k < i ==> (#[trigger] cells@[k])@ == blank(),
        decreases n - i,
    {
        cells.push(Cell::empty());
        i += 1;
    }
    cells
}

/// The number of cells of a screen.
fn area(width: u16, height: u16) -> (n: usize)
    ensures
        n == width * height,
{
    assert(width * height <= 0xffff * 0xffff) by (nonlinear_arith)
        requires
            width <= 0xffff,
            height <= 0xffff,
    ;
    (width as usize) * (height as usize)
}

impl WebBackend {
    /// The number of columns.
    pub closed spec fn width(&self) -> u16 {
        self.width
    }

    /// The number of rows.
    pub closed spec fn height(&self) -> u16 {
        self.height
    }

    /// The cells, row after row.
    pub closed spec fn cells(&self) -> Seq<CellView> {
        cell_views(self.cells@)
    }

    /// The column and the row of the cursor.
    pub closed spec fn cursor(&self) -> (u16, u16) {
        (self.cursor_x, self.cursor_y)
    }

    /// Whether the cursor is shown.
    pub closed spec fn cursor_visible(&self) -> bool {
        self.cursor_visible
    }

    /// The frame of the last flush.
    pub closed spec fn output(&self) -> Seq<char> {
        self.ansi_output@
    }

    /// The invariant: one cell for each place of the screen.
    pub closed spec fn wf(&self) -> bool {
        self.cells@.len() == self.width * self.height
    }

    /// The frame that the screen shows now.
    pub open spec fn frame(&self) -> Seq<char> {
        frame_text(
            self.cells(),
            self.width(),
            self.height(),
            self.cursor().0,
            self.cursor().1,
            self.cursor_visible(),
        )
    }

    /// Create a new backend with the given dimensions (columns and rows).
    pub fn new(width: u16, height: u16) -> (b: Self)
        ensures
            b.wf(),
            b.width() == width,
            b.height() == height,
            b.cells() == Seq::new((width * height) as nat, |i: int| blank()),
            b.cursor() == (0u16, 0u16),
            b.cursor_visible(),
            b.output() == Seq::<char>::empty(),
    {
        let b = WebBackend {
            width,
            height,
            cells: blank_cells(area(width, height)),
            cursor_x: 0,
            cursor_y: 0,
            cursor_visible: true,
            ansi_output: String::new(),
        };
        assert(b.cells() =~= Seq::new((width * height) as nat, |i: int| blank()));
        b
    }

    /// Return the frame produced by the most recent flush.
    pub fn get_ansi_output(&self) -> (out: &str)
        ensures
            out@ == self.output(),
    {
        self.ansi_output.as_str()
    }

    /// Resize the screen to new dimensions; every cell becomes blank.
    pub fn resize(&mut self, width: u16, height: u16)
        ensures
            final(self).wf(),
            final(self).width() == width,
            final(self).height() == height,
            final(self).cells() == Seq::new((width * height) as nat, |i: int| blank()),
            final(self).cursor() == old(self).cursor(),
            final(self).cursor_visible() == old(self).cursor_visible(),
            final(self).output() == old(self).output(),
    {
        self.width = width;
        self.height = height;
        self.cells = blank_cells(area(width, height));
        assert(self.cells() =~= Seq::new((width * height) as nat, |i: int| blank()));
    }

    /// The number of cells.
    pub fn cell_count(&self) -> (n: usize)
        ensures
            n == self.cells().len(),
    {
        self.cells.len()
    }

    /// The cell at column `x` of row `y`.
    pub fn cell_at(&self, x: u16, y: u16) -> (c: &Cell)
        requires
            self.wf(),
            x < self.width(),
            y < self.height(),
        ensures
            c@ == self.cells()[y * self.width() + x],
    {
        proof {
            lemma_place(x as int, y as int, self.width as int, self.height as int);
        }
        &self.cells[(y as usize) * (self.width as usize) + (x as usize)]
    }

    /// Put `cell` at column `x` of row `y`; a place outside the screen is
    /// passed over.
    pub fn put(&mut self, x: u16, y: u16, cell: Cell)
        requires
            old(self).wf(),
        ensures
            final(self).wf(),
            final(self).width() == old(self).width(),
            final(self).height() == old(self).height(),
            final(self).cursor() == old(self).cursor(),
            final(self).cursor_visible() == old(self).cursor_visible(),
            final(self).output() == old(self).output(),
            final(self).cells() == (if x < old(self).width() && y < old(self).height() {
                old(self).cells().update(y * old(self).width() + x, cell@)
            } else {
                old(self).cells()
            }),
    {
        if x < self.width && y < self.height {
            proof {
                lemma_place(x as int, y as int, self.width as int, self.height as int);
            }
            let ghost before = self.cells();
            let idx: usize = (y as usize) * (self.width as usize) + (x as usize);
            self.cells[idx] = cell;
            assert(self.cells() =~= before.update(y * self.width + x, cell@));
        }
    }

    /// Hide the cursor.
    pub fn hide_cursor(&mut self)
        ensures
            !final(self).cursor_visible(),
            final(self).wf() == old(self).wf(),
            final(self).width() == old(self).width(),
            final(self).height() == old(self).height(),
            final(self).cells() == old(self).cells(),
            final(self).cursor() == old(self).cursor(),
            final(self).output() == old(self).output(),
    {
        self.cursor_visible = false;
    }

    /// Show the cursor.
    pub fn show_cursor(&mut self)
        ensures
            final(self).cursor_visible(),
            final(self).wf() == old(self).wf(),
            final(self).width() == old(self).width(),
            final(self).height() == old(self).height(),
            final(self).cells() == old(self).cells(),
            final(self).cursor() == old(self).cursor(),
            final(self).output() == old(self).output(),
    {
        self.cursor_visible = true;
    }

    /// The column and the row of the cursor.
    pub fn get_cursor(&self) -> (at: (u16, u16))
        ensures
            at == self.cursor(),
    {
        (self.cursor_x, self.cursor_y)
    }

    /// Move the cursor to column `x` of row `y`.
    pub fn set_cursor(&mut self, x: u16, y: u16)
        ensures
            final(self).cursor() == (x, y),
            final(self).wf() == old(self).wf(),
            final(self).width() == old(self).width(),
            final(self).height() == old(self).height(),
            final(self).cells() == old(self).cells(),
            final(self).cursor_visible() == old(self).cursor_visible(),
            final(self).output() == old(self).output(),
    {
        self.cursor_x = x;
        self.cursor_y = y;
    }

    /// Make every cell blank.
    pub fn clear(&mut self)
        requires
            old(self).wf(),
        ensures
            final(self).wf(),
            final(self).width() == old(self).width(),
            final(self).height() == old(self).height(),
            final(self).cells() == Seq::new(old(self).cells().len(), |i: int| blank()),
            final(self).cursor() == old(self).cursor(),
            final(self).cursor_visible() == old(self).cursor_visible(),
            final(self).output() == old(self).output(),
    {
        let n: usize = self.cells.len();
        self.cells = blank_cells(n);
        assert(self.cells() =~= Seq::new(n as nat, |i: int| blank()));
    }

    /// The number of columns and of rows.
    pub fn size(&self) -> (s: (u16, u16))
        ensures
            s == (self.width(), self.height()),
    {
        (self.width, self.height)
    }

    /// Render the screen and keep the frame as the output.
    pub fn flush(&mut self)
        requires
            old(self).wf(),
            old(self).cursor().0 < u16::MAX,
            old(self).cursor().1 < u16::MAX,
        ensures
            final(self).wf(),
            final(self).output() == old(self).frame(),
            final(self).width() == old(self).width(),
            final(self).height() == old(self).height(),
            final(self).cells() == old(self).cells(),
            final(self).cursor() == old(self).cursor(),
            final(self).cursor_visible() == old(self).cursor_visible(),
    {
        self.ansi_output = self.render_to_ansi();
    }

    /// Render the screen as one frame of text with escape sequences.
    pub fn render_to_ansi(&self) -> (out: String)
        requires
            self.wf(),
            self.cursor().0 < u16::MAX,
            self.cursor().1 < u16::MAX,
        ensures
            out@ == self.frame(),
    {
        let ghost cells = self.cells();
        let ghost w = self.width as int;
        let mut out = String::new();
        out.append("\x1b[?25l");
        let mut prev_fg = Color::Reset;
        let mut prev_bg = Color::Reset;
        let mut prev_modifier: u16 = 0;
        let mut y: u16 = 0;
        assert(out@ =~= "\x1b[?25l"@ + rows_text(cells, w, 0));
        while y < self.height
            invariant
                self.wf(),
                cells == self.cells(),
                w == self.width,
                y <= self.height,
                out@ == "\x1b[?25l"@ + rows_text(cells, w, y as int),
                y * w == 0 ==> prev_fg == Color::Reset && prev_bg == Color::Reset && prev_modifier
                    == 0,
                y * w > 0 ==> prev_fg == cells[y * w - 1].fg && prev_bg == cells[y * w - 1].bg
                    && prev_modifier == cells[y * w - 1].modifier,
            decreases self.height - y,
        {
            let ghost done = out@;
            out.append("\x1b[");
            push_u16(&mut out, y + 1);
            out.append(";1H");
            let ghost head = out@;
            let mut x: u16 = 0;
            proof {
                lemma_place(0, y as int, w, self.height as int);
                assert(out@ =~= head + cells_text(cells, y * w, y * w + 0));
            }
            while x < self.width
                invariant
                    self.wf(),
                    cells == self.cells(),
                    w == self.width,
                    y < self.height,
                    x <= self.width,
                    out@ == head + cells_text(cells, y * w, y * w + x),
                    y * w + x == 0 ==> prev_fg == Color::Reset && prev_bg == Color::Reset
                        && prev_modifier == 0,
                    y * w + x > 0 ==> prev_fg == cells[y * w + x - 1].fg && prev_bg == cells[y * w
                        + x - 1].bg && prev_modifier == cells[y * w + x - 1].modifier,
                decreases self.width - x,
            {
                proof {
                    lemma_place(x as int, y as int, w, self.height as int);
                }
                let ghost before = out@;
                let cell = &self.cells[(y as usize) * (self.width as usize) + (x as usize)];
                assert(cell@ == cells[y * w + x]);
                if cell.fg != prev_fg || cell.bg != prev_bg || cell.modifier != prev_modifier {
                    push_style(&mut out, cell);
                    prev_fg = cell.fg;
                    prev_bg = cell.bg;
                    prev_modifier = cell.modifier;
                }
                out.append(cell.symbol.as_str());
                assert(out@ =~= before + cell_text(cells, y * w + x));
                x += 1;
                assert(out@ =~= head + cells_text(cells, y * w, y * w + x));
            }
            proof {
                assert((y + 1) * w == y * w + w) by (nonlinear_arith);
                assert(out@ =~= done + row_text(cells, w, y as int));
            }
            y += 1;
            assert(out@ =~= "\x1b[?25l"@ + rows_text(cells, w, y as int));
        }
        out.append("\x1b[0m");
        out.append("\x1b[");
        push_u16(&mut out, self.cursor_y + 1);
        out.push(';');
        push_u16(&mut out, self.cursor_x + 1);
        out.push('H');
        if self.cursor_visible {
            out.append("\x1b[?25h");
        }
        assert(out@ =~= self.frame());
        out
    }
}

/// The place of column `x` in row `y` lies on the screen.
proof fn lemma_place(x: int, y: int, width: int, height: int)
    requires
        0 <= x <= width,
        0 <= y < height,
        width <= 0xffff,
        height <= 0xffff,
    ensures
        0 <= y * width,
        y * width + x <= width * height,
        x < width ==> y * width + x < width * height,
        width * height <= 0xffff * 0xffff,
        y * width + width == (y + 1) * width,
{
    assert(0 <= y * width) by (nonlinear_arith)
        requires
            0 <= y,
            0 <= width,
    ;
    assert(y * width + width <= width * height) by (nonlinear_arith)
        requires
            0 <= y < height,
            0 <= width,
    ;
    assert(width * height <= 0xffff * 0xffff) by (nonlinear_arith)
        requires
            0 <= width <= 0xffff,
            0 <= height <= 0xffff,
    ;
    assert(y * width + width == (y + 1) * width) by (nonlinear_arith);
}

} // verus!
