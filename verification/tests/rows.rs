use ratatui::buffer::Buffer;
use ratatui::layout::Rect;
use selection_list::row::selection_option_row;
use selection_list::row::Region;
use selection_list::row::RowStyle;

fn region(x: u16, y: u16, width: u16, height: u16) -> Region {
    Region { x, y, width, height }
}

/// Rows of the buffer that hold any non-blank symbol.
fn non_blank_rows(buf: &Buffer) -> usize {
    let area = buf.area;
    let mut rows = 0;
    for y in area.y..area.y + area.height {
        let mut seen = false;
        for x in area.x..area.x + area.width {
            if buf.cell((x, y)).unwrap().symbol() != " " {
                seen = true;
            }
        }
        if seen {
            rows += 1;
        }
    }
    rows
}

#[test]
fn prefix_text_selected_and_unselected() {
    let sel = selection_option_row(2, String::from("label"), true);
    let unsel = selection_option_row(2, String::from("label"), false);
    assert_eq!(sel.prefix_text, "\u{203A} 3. ");
    assert_eq!(unsel.prefix_text, "  3. ");
    assert_eq!(sel.prefix_width, 5);
    assert_eq!(unsel.prefix_width, 5);
    assert!(sel.style == RowStyle::Emphasized);
    assert!(unsel.style == RowStyle::Plain);
}

#[test]
fn prefix_text_two_digit_index() {
    let row = selection_option_row(41, String::from("x"), false);
    assert_eq!(row.prefix_text, "  42. ");
    assert_eq!(row.prefix_width, 6);
}

#[test]
fn selection_marker_changes_only_first_glyph() {
    let sel = selection_option_row(7, String::from("same"), true);
    let unsel = selection_option_row(7, String::from("same"), false);
    let a: Vec<char> = sel.prefix_text.chars().collect();
    let b: Vec<char> = unsel.prefix_text.chars().collect();
    assert_eq!(a.len(), b.len());
    assert_eq!(a[0], '\u{203A}');
    assert_eq!(b[0], ' ');
    assert_eq!(&a[1..], &b[1..]);
}

#[test]
fn round_trip_example() {
    let label = String::from("Enable automatic updates for the workspace");
    let row = selection_option_row(2, label, true);
    assert_eq!(row.prefix_text, "\u{203A} 3. ");
    assert_eq!(row.prefix_width, 5);

    let lines = row.wrap_text(20);
    assert!(lines.len() > 1);
    assert!(lines[0].text.starts_with("\u{203A} 3. "));
    for line in lines.iter().skip(1) {
        assert!(line.text.starts_with("     "));
    }
    for line in lines.iter() {
        assert!(line.style == RowStyle::Emphasized);
    }
    assert_eq!(row.desired_height(20) as usize, lines.len());

    let mut buf = Buffer::empty(Rect::new(0, 0, 20, 10));
    row.render(region(0, 0, 20, 10), &mut buf);
    assert_eq!(non_blank_rows(&buf), lines.len());
}

#[test]
fn round_trip_example_exact_lines() {
    let label = String::from("Enable automatic updates for the workspace");
    let row = selection_option_row(2, label, true);
    let lines = row.wrap_text(20);
    let texts: Vec<&str> = lines.iter().map(|l| l.text.as_str()).collect();
    assert_eq!(
        texts,
        vec![
            "\u{203A} 3. Enable ",
            "     automatic ",
            "     updates for the",
            "      workspace",
        ]
    );
}

/// Rows of the buffer holding any cell painted with the emphasis color.
fn emphasized_rows(buf: &Buffer) -> usize {
    let area = buf.area;
    let mut rows = 0;
    for y in area.y..area.y + area.height {
        let mut seen = false;
        for x in area.x..area.x + area.width {
            if buf.cell((x, y)).unwrap().fg == ratatui::style::Color::Cyan {
                seen = true;
            }
        }
        if seen {
            rows += 1;
        }
    }
    rows
}

#[test]
fn measure_matches_painted_rows_across_widths() {
    let label = String::from("one two three four five six seven eight");
    for width in 1u16..30 {
        let row = selection_option_row(0, label.clone(), true);
        let h = row.desired_height(width);
        let mut buf = Buffer::empty(Rect::new(0, 0, width, h + 5));
        row.render(region(0, 0, width, h + 5), &mut buf);
        assert_eq!(emphasized_rows(&buf), h as usize, "width {width}");
    }
}

#[test]
fn zero_width_height_is_one() {
    let row = selection_option_row(0, String::from("anything at all"), false);
    assert_eq!(row.desired_height(0), 1);
}

#[test]
fn zero_width_render_is_a_no_op() {
    let row = selection_option_row(0, String::from("anything at all"), true);
    let before = Buffer::empty(Rect::new(0, 0, 10, 4));
    let mut buf = before.clone();
    row.render(region(0, 0, 0, 4), &mut buf);
    assert!(buf == before);
}

#[test]
fn narrower_width_never_yields_fewer_lines() {
    let row = selection_option_row(3, String::from("a few words, then a longword"), true);
    let mut previous = u16::MAX;
    for width in 1u16..40 {
        let h = row.desired_height(width);
        assert!(h <= previous, "height grew when width grew to {width}");
        previous = h;
    }
}

#[test]
fn single_column_content_wraps_character_by_character() {
    let row = selection_option_row(0, String::from("abc"), false);
    assert_eq!(row.prefix_width, 5);
    // width = prefix_width + 1 leaves one column of content
    let lines = row.wrap_text(6);
    let texts: Vec<&str> = lines.iter().map(|l| l.text.as_str()).collect();
    assert_eq!(texts, vec!["  1. a", "     b", "     c"]);
    assert_eq!(row.desired_height(6), 3);
}

#[test]
fn unselected_lines_carry_the_plain_style() {
    let row = selection_option_row(1, String::from("one two three"), false);
    for line in row.wrap_text(10).iter() {
        assert!(line.style == RowStyle::Plain);
    }
}

#[test]
fn render_at_offset_region() {
    let row = selection_option_row(0, String::from("hi"), false);
    let mut buf = Buffer::empty(Rect::new(0, 0, 15, 5));
    row.render(region(2, 1, 10, 3), &mut buf);
    let mut painted = String::new();
    for x in 2..12u16 {
        painted.push_str(buf.cell((x, 1)).unwrap().symbol());
    }
    assert_eq!(painted, "  1. hi   ");
    for x in 0..15u16 {
        assert_eq!(buf.cell((x, 0)).unwrap().symbol(), " ");
    }
}

#[test]
fn render_into_offset_buffer() {
    let row = selection_option_row(0, String::from("hi"), false);
    let mut buf = Buffer::empty(Rect::new(200, 100, 10, 2));
    row.render(region(200, 100, 10, 2), &mut buf);
    let mut painted = String::new();
    for x in 200..210u16 {
        painted.push_str(buf.cell((x, 100)).unwrap().symbol());
    }
    assert_eq!(painted, "  1. hi   ");
}

#[test]
fn prefix_alone_wider_than_region_still_progresses() {
    let row = selection_option_row(0, String::from("ab"), false);
    // width 3 is narrower than the prefix itself; content width is still 1
    let lines = row.wrap_text(3);
    assert_eq!(lines.len(), 2);
    assert!(lines[0].text.starts_with("  1. "));
    assert_eq!(row.desired_height(3), 2);
}

#[test]
fn empty_label_is_one_line() {
    let row = selection_option_row(4, String::from(""), false);
    let lines = row.wrap_text(12);
    assert_eq!(lines.len(), 1);
    assert_eq!(lines[0].text, "  5. ");
    assert_eq!(row.desired_height(12), 1);
}

#[test]
fn wide_characters_take_two_columns() {
    // four ideographs, two columns each
    let label = String::from("\u{4E16}\u{754C}\u{4E16}\u{754C}");
    let row = selection_option_row(0, label, false);
    // content width 4: two ideographs per line
    assert_eq!(row.desired_height(9), 2);
    // content width 8: all four on one line
    assert_eq!(row.desired_height(13), 1);
}

#[test]
fn painted_cells_carry_the_text() {
    let row = selection_option_row(0, String::from("hi"), false);
    let mut buf = Buffer::empty(Rect::new(0, 0, 10, 1));
    row.render(region(0, 0, 10, 1), &mut buf);
    let mut painted = String::new();
    for x in 0..10u16 {
        painted.push_str(buf.cell((x, 0)).unwrap().symbol());
    }
    assert_eq!(painted, "  1. hi   ");
}

#[test]
fn painted_cells_carry_the_accent_color_only_when_selected() {
    let sel = selection_option_row(0, String::from("hi"), true);
    let mut buf = Buffer::empty(Rect::new(0, 0, 10, 1));
    sel.render(region(0, 0, 10, 1), &mut buf);
    for x in 0..7u16 {
        assert_eq!(buf.cell((x, 0)).unwrap().fg, ratatui::style::Color::Cyan);
    }
    let unsel = selection_option_row(0, String::from("hi"), false);
    let mut buf = Buffer::empty(Rect::new(0, 0, 10, 1));
    unsel.render(region(0, 0, 10, 1), &mut buf);
    for x in 0..10u16 {
        assert_eq!(buf.cell((x, 0)).unwrap().fg, ratatui::style::Color::Reset);
    }
}

#[test]
fn render_clips_to_region_height() {
    let row = selection_option_row(0, String::from("one two three four"), false);
    let h = row.desired_height(10);
    assert!(h > 2);
    let mut buf = Buffer::empty(Rect::new(0, 0, 10, 2));
    row.render(region(0, 0, 10, 2), &mut buf);
    assert_eq!(non_blank_rows(&buf), 2);
}

#[test]
fn render_outside_buffer_rows_is_ignored() {
    let row = selection_option_row(0, String::from("word"), false);
    let before = Buffer::empty(Rect::new(0, 0, 10, 2));
    let mut buf = before.clone();
    row.render(region(0, 5, 10, 1), &mut buf);
    assert!(buf == before);
}
