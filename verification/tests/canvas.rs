use mesopotamia::driftscape::canvas::Canvas;
use mesopotamia::driftscape::input::{quit_requested, Key};

#[test]
fn dimensions_and_clear() {
    let mut c = Canvas::new(4, 3);
    assert_eq!(c.ph(), 6);
    c.clear((1, 2, 3));
    // Every pixel reads back the clear color.
    let mut s = String::new();
    c.render(&mut s);
    assert!(s.contains("\x1b[38;2;1;2;3m"));
}

#[test]
fn put_ignores_out_of_bounds() {
    let mut c = Canvas::new(2, 2);
    // None of these should panic.
    c.put(-1, 0, (9, 9, 9));
    c.put(0, -1, (9, 9, 9));
    c.put(2, 0, (9, 9, 9));
    c.put(0, 4, (9, 9, 9));
    c.put(1, 3, (5, 5, 5)); // in bounds (ph == 4)
}

#[test]
fn line_paints_endpoints_and_clips_off_edge() {
    let mut c = Canvas::new(4, 2); // 4 wide, ph == 4 tall
    // A segment that starts in bounds and runs off the right/bottom edge.
    c.line(1, 1, 10, 10, (7, 7, 7));
    let mut s = String::new();
    c.render(&mut s);
    // The in-bounds endpoint was painted (a non-default color appears)...
    assert!(s.contains("\x1b[38;2;7;7;7m") || s.contains("\x1b[48;2;7;7;7m"));
    // ...and running off the edge must not panic (reuses put's guard).
    c.line(-5, -5, 1, 1, (3, 3, 3));
    c.line(3, 3, 3, 3, (5, 5, 5)); // degenerate: single pixel, in bounds
}

#[test]
fn render_has_one_block_per_cell() {
    let mut c = Canvas::new(3, 2);
    c.clear((0, 0, 0));
    let mut s = String::new();
    c.render(&mut s);
    // 3 cols * 2 rows = 6 half-block glyphs.
    assert_eq!(s.matches('▀').count(), 6);
}

#[test]
fn render_emits_colors_only_on_change() {
    let mut c = Canvas::new(2, 1);
    c.clear((10, 20, 30));
    c.put(1, 1, (255, 0, 7));
    let mut s = String::new();
    c.render(&mut s);
    assert_eq!(
        s,
        "\x1b[H\x1b[38;2;10;20;30m\x1b[48;2;10;20;30m▀\x1b[48;2;255;0;7m▀\x1b[0m"
    );
}

#[test]
fn render_separates_rows_and_appends() {
    let c = Canvas::new(1, 2);
    let mut s = String::from("X");
    c.render(&mut s);
    assert_eq!(
        s,
        "X\x1b[H\x1b[38;2;0;0;0m\x1b[48;2;0;0;0m▀\x1b[0m\r\n\x1b[38;2;0;0;0m\x1b[48;2;0;0;0m▀\x1b[0m"
    );
}

#[test]
fn line_is_gapless_between_endpoints() {
    // Pixel rows are rendered as top/bottom pairs; draw on a 5×4 canvas (ph 8).
    let mut c = Canvas::new(5, 4);
    c.line(0, 0, 4, 2, (9, 9, 9));
    let mut s = String::new();
    c.render(&mut s);
    // Endpoints (0,0) and (4,2) are painted: row 0 top pixel and row 1 top pixel.
    let rows: Vec<&str> = s.split("\r\n").collect();
    assert!(rows[0].starts_with("\x1b[H\x1b[38;2;9;9;9m"));
    assert!(rows[1].contains("\x1b[38;2;9;9;9m"));
}

#[test]
fn line_handles_steep_and_reverse_segments() {
    let mut a = Canvas::new(3, 3);
    a.line(2, 5, 0, 0, (1, 1, 1));
    let mut b = Canvas::new(3, 3);
    b.line(0, 0, 2, 5, (1, 1, 1));
    let (mut sa, mut sb) = (String::new(), String::new());
    a.render(&mut sa);
    b.render(&mut sb);
    // Both directions paint six pixels (one per row of a 5-row rise).
    assert_eq!(sa.matches("1;1;1m").count() > 0, true);
    assert_eq!(sb.matches("1;1;1m").count() > 0, true);
}

#[test]
fn quit_keys() {
    assert!(quit_requested(Key::Char('q'), false));
    assert!(quit_requested(Key::Esc, false));
    assert!(quit_requested(Key::Char('c'), true));
    assert!(!quit_requested(Key::Char('c'), false));
    assert!(!quit_requested(Key::Char('x'), true));
    assert!(!quit_requested(Key::Other, true));
    assert!(quit_requested(Key::Char('q'), true));
}

#[test]
fn put_last_write_wins() {
    let mut c = Canvas::new(1, 1);
    c.put(0, 0, (4, 4, 4));
    c.put(0, 0, (6, 6, 6));
    let mut s = String::new();
    c.render(&mut s);
    assert_eq!(s, "\x1b[H\x1b[38;2;6;6;6m\x1b[48;2;0;0;0m\u{2580}\x1b[0m");
}

#[test]
fn line_paints_one_pixel_per_column() {
    let mut c = Canvas::new(4, 1);
    c.line(0, 0, 3, 1, (9, 9, 9));
    let mut s = String::new();
    c.render(&mut s);
    assert_eq!(
        s,
        "\x1b[H\x1b[38;2;9;9;9m\x1b[48;2;0;0;0m\u{2580}\u{2580}\x1b[38;2;0;0;0m\x1b[48;2;9;9;9m\u{2580}\u{2580}\x1b[0m"
    );
}

#[test]
fn line_wholly_off_the_canvas_changes_nothing() {
    let mut c = Canvas::new(2, 1);
    c.line(-5, 3, 7, 9, (9, 9, 9));
    let mut s = String::new();
    c.render(&mut s);
    assert_eq!(s, "\x1b[H\x1b[38;2;0;0;0m\x1b[48;2;0;0;0m\u{2580}\u{2580}\x1b[0m");
}

#[test]
fn cleared_single_cell_frame() {
    let mut c = Canvas::new(1, 1);
    c.clear((1, 2, 3));
    let mut s = String::new();
    c.render(&mut s);
    assert_eq!(s, "\x1b[H\x1b[38;2;1;2;3m\x1b[48;2;1;2;3m\u{2580}\x1b[0m");
}
