use beditor::config::EditorConfig;
use beditor::encoding::TextEncoding;
use beditor::tui::frame::{cursor_cell, size_unit, SizeUnit};
use beditor::tui::render_text::{expand_tabs, render_text_line, truncate_line};
use beditor::tui::viewport::ViewPort;

#[test]
fn viewport_new() {
    let vp = ViewPort::new(24, 80);
    assert_eq!(vp.visible_rows, 24);
    assert_eq!(vp.visible_cols, 80);
    assert_eq!(vp.top_byte, 0);
}

#[test]
fn viewport_scroll() {
    let vp = ViewPort::new(24, 80);
    assert_eq!(vp.top_byte, 0);
}

#[test]
fn render_text_basic() {
    let cfg = EditorConfig::default();
    let line = render_text_line(b"Hello World", &TextEncoding::utf_8(), &cfg, None, &[]);
    assert!(!line.spans.is_empty());
    assert_eq!(line.spans[0].content, "Hello World");
}

#[test]
fn render_text_with_tab() {
    let result = expand_tabs("A\tB", 4);
    assert_eq!(result, "A   B");
}

#[test]
fn render_text_tab_at_col0() {
    let result = expand_tabs("\tX", 4);
    assert_eq!(result, "    X");
}

#[test]
fn truncate_long_line() {
    let s = "ABCDEFGHIJKLMNOPQRSTUVWXYZ";
    let t = truncate_line(s, 10);
    assert_eq!(t, "ABCDEFGHIJ");
}

#[test]
fn truncate_short_line() {
    let s = "ABC";
    let t = truncate_line(s, 10);
    assert_eq!(t, "ABC");
}

#[test]
fn truncation_counts_characters() {
    assert_eq!(truncate_line("你好世界", 4), "你好世界");
    assert_eq!(truncate_line("你好世界", 3), "你好世");
    assert_eq!(truncate_line("abc", 0), "");
}

#[test]
fn tabs_without_width_are_no_matter_where_there_are_none() {
    assert_eq!(expand_tabs("plain", 0), "plain");
    assert_eq!(expand_tabs("ab\tcd\te", 3), "ab cd e");
    assert_eq!(expand_tabs("你\tx", 4), "你   x");
}

#[test]
fn lines_are_decoded_and_never_empty() {
    let cfg = EditorConfig::default();
    let gbk = TextEncoding::gbk();
    let line = render_text_line(&[0xD6, 0xD0, 0x09, 0x78], &gbk, &cfg, None, &[]);
    assert_eq!(line.spans[0].content, "中   x");
    let empty = render_text_line(b"", &gbk, &cfg, None, &[]);
    assert_eq!(empty.spans[0].content, " ");
}

#[test]
fn terminal_sizes_leave_room_for_three_rows() {
    let mut vp = ViewPort::new(24, 80);
    vp.fit(100, 30);
    assert_eq!((vp.visible_rows, vp.visible_cols), (27, 100));
    vp.fit(10, 2);
    assert_eq!((vp.visible_rows, vp.visible_cols), (1, 10));
}

#[test]
fn cursor_cells_are_offset_by_the_area() {
    assert_eq!(cursor_cell(2, 1, 20, Some((3, 10))), Some((12, 4)));
    assert_eq!(cursor_cell(2, 1, 3, Some((3, 10))), None);
    assert_eq!(cursor_cell(2, 1, 3, None), None);
}

#[test]
fn sizes_have_units() {
    assert_eq!(size_unit(1023), SizeUnit::Bytes);
    assert_eq!(size_unit(1024), SizeUnit::Kilobytes);
    assert_eq!(size_unit(1024 * 1024), SizeUnit::Megabytes);
    assert_eq!(size_unit(1024 * 1024 * 1024 - 1), SizeUnit::Megabytes);
    assert_eq!(size_unit(1024 * 1024 * 1024), SizeUnit::Gigabytes);
}
