use ratatui::backend::{Backend, WindowSize};
use ratatui::buffer::Cell;
use ratatui::layout::{Rect, Size};
use ratatui::style::{Color, Modifier, Style};
use ratatui::text::Span;
use ratatui::widgets::Paragraph;
use ratatui::Terminal;
use std::io;
use tui2web::backend as screen;

struct WebBackend {
    screen: screen::WebBackend,
}

impl WebBackend {
    fn new(width: u16, height: u16) -> Self {
        WebBackend { screen: screen::WebBackend::new(width, height) }
    }

    fn get_ansi_output(&self) -> &str {
        self.screen.get_ansi_output()
    }

    fn resize(&mut self, width: u16, height: u16) {
        self.screen.resize(width, height);
    }
}

fn color_of(color: Color) -> screen::Color {
    match color {
        Color::Reset => screen::Color::Reset,
        Color::Black => screen::Color::Black,
        Color::Red => screen::Color::Red,
        Color::Green => screen::Color::Green,
        Color::Yellow => screen::Color::Yellow,
        Color::Blue => screen::Color::Blue,
        Color::Magenta => screen::Color::Magenta,
        Color::Cyan => screen::Color::Cyan,
        Color::Gray => screen::Color::Gray,
        Color::DarkGray => screen::Color::DarkGray,
        Color::LightRed => screen::Color::LightRed,
        Color::LightGreen => screen::Color::LightGreen,
        Color::LightYellow => screen::Color::LightYellow,
        Color::LightBlue => screen::Color::LightBlue,
        Color::LightMagenta => screen::Color::LightMagenta,
        Color::LightCyan => screen::Color::LightCyan,
        Color::White => screen::Color::White,
        Color::Rgb(r, g, b) => screen::Color::Rgb(r, g, b),
        Color::Indexed(n) => screen::Color::Indexed(n),
    }
}

fn cell_of(cell: &Cell) -> screen::Cell {
    screen::Cell {
        symbol: cell.symbol().to_string(),
        fg: color_of(cell.fg),
        bg: color_of(cell.bg),
        modifier: cell.modifier.bits(),
    }
}

impl Backend for WebBackend {
    fn draw<'a, I>(&mut self, content: I) -> io::Result<()>
    where
        I: Iterator<Item = (u16, u16, &'a Cell)>,
    {
        for (x, y, cell) in content {
            self.screen.put(x, y, cell_of(cell));
        }
        Ok(())
    }

    fn hide_cursor(&mut self) -> io::Result<()> {
        self.screen.hide_cursor();
        Ok(())
    }

    fn show_cursor(&mut self) -> io::Result<()> {
        self.screen.show_cursor();
        Ok(())
    }

    fn get_cursor(&mut self) -> io::Result<(u16, u16)> {
        Ok(self.screen.get_cursor())
    }

    fn set_cursor(&mut self, x: u16, y: u16) -> io::Result<()> {
        self.screen.set_cursor(x, y);
        Ok(())
    }

    fn clear(&mut self) -> io::Result<()> {
        self.screen.clear();
        Ok(())
    }

    fn size(&self) -> io::Result<Rect> {
        let (width, height) = self.screen.size();
        Ok(Rect::new(0, 0, width, height))
    }

    fn window_size(&mut self) -> io::Result<WindowSize> {
        let (width, height) = self.screen.size();
        Ok(WindowSize { columns_rows: Size { width, height }, pixels: Size::default() })
    }

    fn flush(&mut self) -> io::Result<()> {
        self.screen.flush();
        Ok(())
    }
}

fn plain(symbol: &str) -> screen::Cell {
    screen::Cell {
        symbol: symbol.to_string(),
        fg: screen::Color::Reset,
        bg: screen::Color::Reset,
        modifier: 0,
    }
}

#[test]
fn backend_size_matches_constructor() {
    let b = WebBackend::new(80, 24);
    let rect = b.size().unwrap();
    assert_eq!(rect.width, 80);
    assert_eq!(rect.height, 24);
}

#[test]
fn flush_produces_ansi_output() {
    let backend = WebBackend::new(20, 5);
    let mut terminal = Terminal::new(backend).unwrap();
    terminal
        .draw(|f| {
            let widget = Paragraph::new("hello");
            f.render_widget(widget, f.size());
        })
        .unwrap();
    let ansi = terminal.backend().get_ansi_output();
    assert!(!ansi.is_empty(), "expected non-empty ANSI output");
    assert!(ansi.contains("hello"), "expected cell content in ANSI output");
}

#[test]
fn resize_updates_dimensions() {
    let mut backend = WebBackend::new(40, 10);
    backend.resize(80, 24);
    let rect = backend.size().unwrap();
    assert_eq!(rect.width, 80);
    assert_eq!(rect.height, 24);
    assert_eq!(
        backend.screen.cell_count(),
        80 * 24,
        "cell buffer length should match new dimensions"
    );
}

#[test]
fn clear_resets_cells() {
    let mut backend = WebBackend::new(10, 5);
    backend.screen.put(0, 0, plain("X"));
    assert_eq!(backend.screen.cell_at(0, 0).symbol, "X");
    backend.clear().unwrap();
    for y in 0..5 {
        for x in 0..10 {
            assert_eq!(
                backend.screen.cell_at(x, y).symbol,
                " ",
                "all cells should be blank after clear"
            );
        }
    }
}

#[test]
fn color_and_style_appear_in_output() {
    let backend = WebBackend::new(40, 5);
    let mut terminal = Terminal::new(backend).unwrap();
    terminal
        .draw(|f| {
            let widget = Paragraph::new(Span::styled(
                "styled",
                Style::default().fg(Color::Red).bg(Color::Blue),
            ));
            f.render_widget(widget, f.size());
        })
        .unwrap();
    let ansi = terminal.backend().get_ansi_output();
    assert!(ansi.contains("\x1b[31m"), "expected red foreground escape code");
    assert!(ansi.contains("\x1b[44m"), "expected blue background escape code");
}

#[test]
fn modifier_bits_match_the_terminal_library() {
    assert_eq!(Modifier::BOLD.bits(), screen::BOLD);
    assert_eq!(Modifier::DIM.bits(), screen::DIM);
    assert_eq!(Modifier::ITALIC.bits(), screen::ITALIC);
    assert_eq!(Modifier::UNDERLINED.bits(), screen::UNDERLINED);
    assert_eq!(Modifier::SLOW_BLINK.bits(), screen::SLOW_BLINK);
    assert_eq!(Modifier::RAPID_BLINK.bits(), screen::RAPID_BLINK);
    assert_eq!(Modifier::REVERSED.bits(), screen::REVERSED);
    assert_eq!(Modifier::HIDDEN.bits(), screen::HIDDEN);
    assert_eq!(Modifier::CROSSED_OUT.bits(), screen::CROSSED_OUT);
    let blank = Cell::default();
    assert_eq!(cell_of(&blank), screen::Cell::empty());
}

#[test]
fn numbers_are_written_in_decimal() {
    for (n, text) in [
        (0u16, "0"),
        (7, "7"),
        (10, "10"),
        (99, "99"),
        (100, "100"),
        (1005, "1005"),
        (9999, "9999"),
        (10000, "10000"),
        (40302, "40302"),
        (65535, "65535"),
    ] {
        let mut s = String::from("n=");
        screen::push_u16(&mut s, n);
        assert_eq!(s, format!("n={}", text));
    }
}

#[test]
fn colour_codes() {
    let fg = |c| {
        let mut s = String::new();
        screen::push_fg_color(&mut s, c);
        s
    };
    let bg = |c| {
        let mut s = String::new();
        screen::push_bg_color(&mut s, c);
        s
    };
    assert_eq!(fg(screen::Color::Reset), "\x1b[39m");
    assert_eq!(fg(screen::Color::Red), "\x1b[31m");
    assert_eq!(fg(screen::Color::Gray), "\x1b[37m");
    assert_eq!(fg(screen::Color::DarkGray), "\x1b[90m");
    assert_eq!(fg(screen::Color::White), "\x1b[97m");
    assert_eq!(fg(screen::Color::Rgb(1, 20, 255)), "\x1b[38;2;1;20;255m");
    assert_eq!(fg(screen::Color::Indexed(200)), "\x1b[38;5;200m");
    assert_eq!(bg(screen::Color::Reset), "\x1b[49m");
    assert_eq!(bg(screen::Color::Blue), "\x1b[44m");
    assert_eq!(bg(screen::Color::LightCyan), "\x1b[106m");
    assert_eq!(bg(screen::Color::Rgb(0, 0, 0)), "\x1b[48;2;0;0;0m");
    assert_eq!(bg(screen::Color::Indexed(9)), "\x1b[48;5;9m");
}

#[test]
fn frame_is_exact() {
    let mut s = screen::WebBackend::new(2, 2);
    assert_eq!(s.render_to_ansi(), "\x1b[?25l\x1b[1;1H  \x1b[2;1H  \x1b[0m\x1b[1;1H\x1b[?25h");
    s.put(
        1,
        0,
        screen::Cell {
            symbol: "a".to_string(),
            fg: screen::Color::Red,
            bg: screen::Color::Reset,
            modifier: screen::BOLD | screen::RAPID_BLINK | screen::HIDDEN,
        },
    );
    s.put(
        0,
        1,
        screen::Cell {
            symbol: "b".to_string(),
            fg: screen::Color::Red,
            bg: screen::Color::Reset,
            modifier: screen::BOLD | screen::RAPID_BLINK | screen::HIDDEN,
        },
    );
    s.put(5, 5, plain("outside"));
    s.set_cursor(1, 1);
    s.hide_cursor();
    assert_eq!(s.get_cursor(), (1, 1));
    assert_eq!(s.get_ansi_output(), "");
    s.flush();
    assert_eq!(
        s.get_ansi_output(),
        "\x1b[?25l\x1b[1;1H \x1b[0m\x1b[1m\x1b[5m\x1b[31ma\x1b[2;1Hb\x1b[0m \x1b[0m\x1b[2;2H"
    );
    s.show_cursor();
    s.clear();
    assert_eq!(s.cell_count(), 4);
    assert_eq!(s.size(), (2, 2));
    assert_eq!(s.render_to_ansi(), "\x1b[?25l\x1b[1;1H  \x1b[2;1H  \x1b[0m\x1b[2;2H\x1b[?25h");
    let empty = screen::WebBackend::new(0, 3);
    assert_eq!(
        empty.render_to_ansi(),
        "\x1b[?25l\x1b[1;1H\x1b[2;1H\x1b[3;1H\x1b[0m\x1b[1;1H\x1b[?25h"
    );
}
