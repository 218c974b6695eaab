//! Painting lines into a ratatui terminal buffer.
//!
//! The buffer is opaque to the rest of the crate; what it holds is named by
//! uninterpreted functions — the symbol and the accent flag of each cell,
//! and the buffer's rectangle — and the one operation the crate needs,
//! writing one line of text into one buffer row, is a trusted wrapper
//! around ratatui's `Buffer::set_stringn`.

use vstd::prelude::*;

verus! {

#[verifier::external_type_specification]
#[verifier::external_body]
pub struct ExBuffer(ratatui::buffer::Buffer);

/// What each cell of the buffer holds: the characters of its symbol, keyed
/// by global (column, row) coordinates.
pub uninterp spec fn buf_cells(b: ratatui::buffer::Buffer) -> Map<(int, int), Seq<char>>;

/// Which cells of the buffer show the accent foreground colour, keyed by
/// global (column, row) coordinates.
pub uninterp spec fn buf_accents(b: ratatui::buffer::Buffer) -> Map<(int, int), bool>;

/// The rectangle of cells the buffer covers: its x, y, width and height.
pub uninterp spec fn buf_area(b: ratatui::buffer::Buffer) -> (int, int, int, int);

/// Relies on ratatui's public `Buffer::area` field: the rectangle the
/// buffer covers, as position and size.  The buffer holds one cell for
/// each coordinate of that rectangle and no others.
#[verifier::external_body]
pub fn buffer_area(buf: &ratatui::buffer::Buffer) -> (r: (u16, u16, u16, u16))
    ensures
        r.0 as int == buf_area(*buf).0,
        r.1 as int == buf_area(*buf).1,
        r.2 as int == buf_area(*buf).2,
        r.3 as int == buf_area(*buf).3,
        forall|p: (int, int)|
            #[trigger] buf_cells(*buf).dom().contains(p) <==> (r.0 as int <= p.0 < r.0 as int
                + r.2 as int && r.1 as int <= p.1 < r.1 as int + r.3 as int),
        forall|p: (int, int)|
            #[trigger] buf_accents(*buf).dom().contains(p) <==> (r.0 as int <= p.0 < r.0 as int
                + r.2 as int && r.1 as int <= p.1 < r.1 as int + r.3 as int),
{
    let a = buf.area;
    (a.x, a.y, a.width, a.height)
}

/// Text in which every character is one cell of one column: printable
/// ASCII, or the selection marker.  Such text is written one character per
/// cell, with no grapheme merging and no filtering.
pub open spec fn simple_text(s: Seq<char>) -> bool {
    forall|i: int|
        0 <= i < s.len() ==> (0x20 <= ((#[trigger] s[i]) as u32) && (s[i] as u32) < 0x7f || s[i]
            == '\u{203A}')
}

/// Relies on ratatui's `Buffer::set_stringn`: writes the string's characters
/// into row `y` starting at column `x`, at most `max_width` columns, clipped
/// to the buffer's own area; every other cell keeps its symbol and
/// foreground, and the buffer's area is untouched.  Cell addressing goes
/// through a saturating bottom edge, so no cell ever lies in row 65535 or
/// column 65535; the requires keeps the target row strictly below both the
/// area's bottom and that cap.  The emphasized flag paints written cells
/// with the cyan accent foreground; otherwise the default style is used,
/// which patches nothing, so a written cell keeps its old foreground.  Text
/// made of simple characters segments into one single-column grapheme per
/// character, so it lands one character per cell, left to right, as far as
/// the width budget and the buffer's right edge allow, and cells on the row
/// at or beyond the text's end keep their content.
#[verifier::external_body]
pub fn buf_put_line(
    buf: &mut ratatui::buffer::Buffer,
    x: u16,
    y: u16,
    max_width: u16,
    text: &String,
    emphasized: bool,
)
    requires
        buf_area(*old(buf)).0 <= x as int,
        buf_area(*old(buf)).1 <= y as int,
        (y as int) < buf_area(*old(buf)).1 + buf_area(*old(buf)).3,
        (y as int) < 0xffff,
    ensures
        buf_area(*final(buf)) == buf_area(*old(buf)),
        buf_cells(*final(buf)).dom() == buf_cells(*old(buf)).dom(),
        buf_accents(*final(buf)).dom() == buf_accents(*old(buf)).dom(),
        forall|p: (int, int)|
            buf_cells(*old(buf)).dom().contains(p) && (p.1 != y as int || p.0 < x as int || p.0
                >= x as int + max_width as int) ==> buf_cells(*final(buf))[p] == buf_cells(*old(buf))[p],
        forall|p: (int, int)|
            buf_accents(*old(buf)).dom().contains(p) && (p.1 != y as int || p.0 < x as int || p.0
                >= x as int + max_width as int) ==> buf_accents(*final(buf))[p] == buf_accents(
                *old(buf),
            )[p],
        simple_text(text@) ==> forall|p: (int, int)|
            p.1 == y as int && x as int <= p.0 < x as int + max_width as int && (p.0 - x as int)
                < text@.len() && p.0 < buf_area(*old(buf)).0 + buf_area(*old(buf)).2 && p.0
                < 0xffff ==> #[trigger] buf_cells(*final(buf))[p] == seq![text@[p.0 - x as int]],
        simple_text(text@) ==> forall|p: (int, int)|
            p.1 == y as int && x as int <= p.0 < x as int + max_width as int && (p.0 - x as int)
                < text@.len() && p.0 < buf_area(*old(buf)).0 + buf_area(*old(buf)).2 && p.0
                < 0xffff ==> #[trigger] buf_accents(*final(buf))[p] == (if emphasized {
                true
            } else {
                buf_accents(*old(buf))[p]
            }),
        simple_text(text@) ==> forall|p: (int, int)|
            buf_cells(*old(buf)).dom().contains(p) && p.1 == y as int && (p.0 - x as int)
                >= text@.len() ==> #[trigger] buf_cells(*final(buf))[p] == buf_cells(*old(buf))[p],
        simple_text(text@) ==> forall|p: (int, int)|
            buf_accents(*old(buf)).dom().contains(p) && p.1 == y as int && (p.0 - x as int)
                >= text@.len() ==> #[trigger] buf_accents(*final(buf))[p] == buf_accents(
                *old(buf),
            )[p],
{
    let style = if emphasized {
        ratatui::style::Style::default().fg(ratatui::style::Color::Cyan)
    } else {
        ratatui::style::Style::default()
    };
    buf.set_stringn(x, y, text.as_str(), max_width as usize, style);
}

} // verus!
