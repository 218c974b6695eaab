//! The selectable row: construction, measurement and drawing.
//!
//! A row is built once from its index, label and selection state; it can
//! then report how many terminal rows it needs at a given width and paint
//! itself into a buffer region.  Both operations recompute the same wrap
//! from the same immutable fields, which is what keeps them consistent.

use vstd::prelude::*;
use vstd::string::StrSliceExecFns;
use crate::width::cols;
use crate::width::char_cols;
use crate::width::measure_cols;
use crate::width::lemma_cols_all_narrow;
use crate::width::lemma_cols_add;
use crate::wrap::wrap_parts;
use crate::wrap::wrap_chars;
use crate::wrap::lemma_wrap_count_pos;
use crate::wrap::lemma_wrap_widths;
use crate::wrap::lemma_wrap_count_monotone;
use crate::paint::buf_cells;
use crate::paint::buf_accents;
use crate::paint::simple_text;
use crate::paint::buf_area;
use crate::paint::buffer_area;
use crate::paint::buf_put_line;

verus! {

/// Relies on std's `String::push`: appends the character to the string.
pub assume_specification[ String::push ](s: &mut String, c: char)
    ensures
        final(s)@ == old(s)@.push(c),
;

/// Visual treatment of a row's text: emphasized for the selected row,
/// plain otherwise.
#[derive(Clone, Copy, PartialEq, Eq, Structural, Debug)]
pub enum RowStyle {
    Emphasized,
    Plain,
}

/// One produced display line: its text and the style every cell of it
/// carries.
pub struct RowLine {
    pub text: String,
    pub style: RowStyle,
}

/// A rectangular region of the terminal buffer, in global coordinates.
#[derive(Clone, Copy, PartialEq, Eq, Structural, Debug)]
pub struct Region {
    pub x: u16,
    pub y: u16,
    pub width: u16,
    pub height: u16,
}

/// The decimal digit character for `d`.
pub open spec fn digit_char(d: nat) -> char {
    if d == 0 {
        '0'
    } else if d == 1 {
        '1'
    } else if d == 2 {
        '2'
    } else if d == 3 {
        '3'
    } else if d == 4 {
        '4'
    } else if d == 5 {
        '5'
    } else if d == 6 {
        '6'
    } else if d == 7 {
        '7'
    } else if d == 8 {
        '8'
    } else {
        '9'
    }
}

/// The decimal digits of `n`, most significant first.
pub open spec fn digits_of(n: nat) -> Seq<char>
    decreases n,
{
    if n < 10 {
        seq![digit_char(n)]
    } else {
        digits_of(n / 10).push(digit_char(n % 10))
    }
}

/// The prefix text of row `index` (zero-based) in the given selection
/// state: a marker slot, the one-based number, a dot and a space.
pub open spec fn prefix_chars(index: nat, is_selected: bool) -> Seq<char> {
    let head = if is_selected {
        seq!['\u{203A}', ' ']
    } else {
        seq![' ', ' ']
    };
    head + digits_of(index + 1) + seq!['.', ' ']
}

/// A decimal digit character is one column wide.
pub proof fn lemma_digit_char_narrow(d: nat)
    ensures
        char_cols(digit_char(d)) == 1,
{
    assert(('0' as u32) == 0x30);
    assert(('1' as u32) == 0x31);
    assert(('2' as u32) == 0x32);
    assert(('3' as u32) == 0x33);
    assert(('4' as u32) == 0x34);
    assert(('5' as u32) == 0x35);
    assert(('6' as u32) == 0x36);
    assert(('7' as u32) == 0x37);
    assert(('8' as u32) == 0x38);
    assert(('9' as u32) == 0x39);
}

/// Every decimal digit is a one-column ASCII character.
pub proof fn lemma_digits_narrow(n: nat)
    ensures
        forall|i: int|
            0 <= i < digits_of(n).len() ==> char_cols(#[trigger] digits_of(n)[i]) == 1,
    decreases n,
{
    if n < 10 {
        lemma_digit_char_narrow(n);
        assert(digits_of(n)[0] == digit_char(n));
    } else {
        lemma_digits_narrow(n / 10);
        lemma_digit_char_narrow(n % 10);
        let d = digits_of(n / 10);
        assert forall|i: int| 0 <= i < digits_of(n).len() implies char_cols(
            #[trigger] digits_of(n)[i],
        ) == 1 by {
            if i < d.len() {
                assert(digits_of(n)[i] == d[i]);
            } else {
                assert(digits_of(n)[i] == digit_char(n % 10));
            }
        }
    }
}

/// The whole prefix consists of one-column characters, so its display
/// width is its length.
pub proof fn lemma_prefix_cols(index: nat, is_selected: bool)
    ensures
        cols(prefix_chars(index, is_selected)) == prefix_chars(index, is_selected).len(),
{
    lemma_digits_narrow(index + 1);
    let p = prefix_chars(index, is_selected);
    assert forall|i: int| 0 <= i < p.len() implies char_cols(#[trigger] p[i]) == 1 by {
        let d = digits_of(index + 1);
        if 2 <= i < 2 + d.len() {
            assert(p[i] == d[i - 2]);
        }
    }
    lemma_cols_all_narrow(p);
}

/// Selection marker: toggling the selection changes the prefix only in its
/// first character — the marker glyph versus a space — and both variants
/// have the same length and the same display width.
pub proof fn lemma_selection_marker(index: nat)
    ensures
        prefix_chars(index, true).len() == prefix_chars(index, false).len(),
        cols(prefix_chars(index, true)) == cols(prefix_chars(index, false)),
        prefix_chars(index, true)[0] == '\u{203A}',
        prefix_chars(index, false)[0] == ' ',
        forall|i: int|
            1 <= i < prefix_chars(index, true).len() ==> prefix_chars(index, true)[i]
                == prefix_chars(index, false)[i],
{
    lemma_prefix_cols(index, true);
    lemma_prefix_cols(index, false);
}

/// The content width the label may use inside a total width: whatever the
/// prefix leaves over, but never less than one column.
pub open spec fn content_limit(width: int, prefix_width: int) -> int {
    if width - prefix_width < 1 {
        1
    } else {
        width - prefix_width
    }
}

/// A selectable row, ready to be measured and drawn.  Immutable once
/// built: every measurement or draw recomputes the wrap from these fields.
pub struct SelectionOptionRenderable {
    pub prefix_text: String,
    pub prefix_width: usize,
    pub label: String,
    pub style: RowStyle,
}

impl SelectionOptionRenderable {
    /// Construction invariant: the recorded prefix width is a fresh width
    /// measurement of the prefix text.
    pub open spec fn wf(self) -> bool {
        self.prefix_width == cols(self.prefix_text@)
    }

    /// The wrapped label content at a total width.
    pub open spec fn wrapped_label(self, width: int) -> Seq<Seq<char>> {
        wrap_parts(self.label@, content_limit(width, self.prefix_width as int))
    }

    /// The text of produced line `i` at a total width: the prefix before
    /// the first content line, an equally wide run of spaces before every
    /// later one.
    pub open spec fn line_text_spec(self, width: int, i: int) -> Seq<char> {
        if i == 0 {
            self.prefix_text@ + self.wrapped_label(width)[0]
        } else {
            Seq::new(self.prefix_width as nat, |k: int| ' ') + self.wrapped_label(width)[i]
        }
    }

    /// The height the row asks for at a total width: one row for a
    /// degenerate zero width, otherwise the number of wrapped lines,
    /// saturated to what a `u16` can carry.
    pub open spec fn desired_height_spec(self, width: int) -> int {
        if width == 0 {
            1
        } else if self.wrapped_label(width).len() > 0xffff {
            0xffff
        } else {
            self.wrapped_label(width).len() as int
        }
    }

    /// How many rows of a region `render` fills: none for a zero width,
    /// otherwise one per wrapped line up to the region's height.
    pub open spec fn painted_rows(self, area: Region) -> int {
        if area.width == 0 {
            0
        } else if self.wrapped_label(area.width as int).len() > area.height as int {
            area.height as int
        } else {
            self.wrapped_label(area.width as int).len() as int
        }
    }
}

/// The digit character for a value below ten.
fn digit_char_of(d: usize) -> (c: char)
    requires
        d < 10,
    ensures
        c == digit_char(d as nat),
{
    if d == 0 {
        '0'
    } else if d == 1 {
        '1'
    } else if d == 2 {
        '2'
    } else if d == 3 {
        '3'
    } else if d == 4 {
        '4'
    } else if d == 5 {
        '5'
    } else if d == 6 {
        '6'
    } else if d == 7 {
        '7'
    } else if d == 8 {
        '8'
    } else {
        '9'
    }
}

/// Appends the decimal digits of `n`, most significant first.
fn push_digits(out: &mut Vec<char>, n: usize)
    ensures
        final(out)@ == old(out)@ + digits_of(n as nat),
    decreases n,
{
    if n < 10 {
        out.push(digit_char_of(n));
        proof {
            assert(out@ =~= old(out)@ + digits_of(n as nat));
        }
    } else {
        push_digits(out, n / 10);
        out.push(digit_char_of(n % 10));
        proof {
            assert(out@ =~= old(out)@ + digits_of(n as nat));
        }
    }
}

/// Builds the owned string holding exactly the given characters.
fn chars_string(v: &Vec<char>) -> (s: String)
    ensures
        s@ == v@,
{
    let mut s = String::new();
    let mut i: usize = 0;
    while i < v.len()
        invariant
            i <= v@.len(),
            s@ =~= v@.take(i as int),
        decreases v@.len() - i,
    {
        s.push(v[i]);
        i = i + 1;
        proof {
            assert(s@ =~= v@.take(i as int));
        }
    }
    proof {
        assert(v@.take(v@.len() as int) =~= v@);
    }
    s
}

/// The characters of a string, in order.
fn string_chars(s: &String) -> (v: Vec<char>)
    ensures
        v@ == s@,
{
    let n = s.as_str().unicode_len();
    let mut v: Vec<char> = Vec::new();
    let mut i: usize = 0;
    while i < n
        invariant
            n == s@.len(),
            i <= n,
            v@ =~= s@.take(i as int),
        decreases n - i,
    {
        v.push(s.as_str().get_char(i));
        i = i + 1;
        proof {
            assert(v@ =~= s@.take(i as int));
        }
    }
    proof {
        assert(s@.take(s@.len() as int) =~= s@);
    }
    v
}

/// Builds the row for `index` (zero-based) with the given label and
/// selection state.  The prefix and its display width are computed once,
/// here; the returned row never recomputes them.
pub fn selection_option_row(index: usize, label: String, is_selected: bool) -> (row:
    SelectionOptionRenderable)
    requires
        index < usize::MAX,
    ensures
        row.wf(),
        row.prefix_text@ == prefix_chars(index as nat, is_selected),
        row.prefix_width == cols(prefix_chars(index as nat, is_selected)),
        row.prefix_width == prefix_chars(index as nat, is_selected).len(),
        row.label == label,
        row.style == (if is_selected {
            RowStyle::Emphasized
        } else {
            RowStyle::Plain
        }),
{
    let mut pv: Vec<char> = Vec::new();
    if is_selected {
        pv.push('\u{203A}');
        pv.push(' ');
    } else {
        pv.push(' ');
        pv.push(' ');
    }
    push_digits(&mut pv, index + 1);
    pv.push('.');
    pv.push(' ');
    proof {
        assert(pv@ =~= prefix_chars(index as nat, is_selected));
        lemma_prefix_cols(index as nat, is_selected);
    }
    let pv_len = pv.len();
    proof {
        assert(cols(pv@) == pv_len);
    }
    let prefix_width = measure_cols(&pv);
    let prefix_text = chars_string(&pv);
    let style = if is_selected {
        RowStyle::Emphasized
    } else {
        RowStyle::Plain
    };
    SelectionOptionRenderable { prefix_text, prefix_width, label, style }
}

impl SelectionOptionRenderable {
    /// Wraps the label at the given total width: line 0 carries the prefix,
    /// every later line an equally wide run of spaces, and every line the
    /// row's style.  Pure in the row's fields and the width, which is what
    /// keeps measuring and drawing consistent.
    pub fn wrap_text(&self, width: usize) -> (lines: Vec<RowLine>)
        requires
            self.wf(),
        ensures
            lines@.len() == self.wrapped_label(width as int).len(),
            lines@.len() >= 1,
            forall|i: int|
                0 <= i < lines@.len() ==> #[trigger] lines@[i].text@ == self.line_text_spec(
                    width as int,
                    i,
                ),
            forall|i: int| 0 <= i < lines@.len() ==> #[trigger] lines@[i].style == self.style,
    {
        let avail = if width > self.prefix_width {
            width - self.prefix_width
        } else {
            0
        };
        let label_limit = if avail < 1 {
            1
        } else {
            avail
        };
        proof {
            assert(label_limit as int == content_limit(width as int, self.prefix_width as int));
        }
        let chars = string_chars(&self.label);
        let parts = wrap_chars(&chars, label_limit);
        let ghost wl = self.wrapped_label(width as int);
        let mut spaces: Vec<char> = Vec::new();
        let mut k: usize = 0;
        while k < self.prefix_width
            invariant
                k <= self.prefix_width,
                spaces@ =~= Seq::new(k as nat, |j: int| ' '),
            decreases self.prefix_width - k,
        {
            spaces.push(' ');
            k = k + 1;
            proof {
                assert(spaces@ =~= Seq::new(k as nat, |j: int| ' '));
            }
        }
        let indent = chars_string(&spaces);
        let mut lines: Vec<RowLine> = Vec::new();
        let mut i: usize = 0;
        while i < parts.len()
            invariant
                self.wf(),
                wl == self.wrapped_label(width as int),
                parts@.len() == wl.len(),
                forall|j: int| 0 <= j < parts@.len() ==> #[trigger] parts@[j]@ == wl[j],
                indent@ == Seq::new(self.prefix_width as nat, |j: int| ' '),
                i <= parts@.len(),
                lines@.len() == i,
                forall|j: int|
                    0 <= j < i ==> #[trigger] lines@[j].text@ == self.line_text_spec(
                        width as int,
                        j,
                    ),
                forall|j: int| 0 <= j < i ==> #[trigger] lines@[j].style == self.style,
            decreases parts@.len() - i,
        {
            let mut text = if i == 0 {
                self.prefix_text.clone()
            } else {
                indent.clone()
            };
            append_chars(&mut text, &parts[i]);
            lines.push(RowLine { text, style: self.style });
            i = i + 1;
        }
        proof {
            lemma_wrap_count_pos(
                self.label@,
                content_limit(width as int, self.prefix_width as int),
            );
        }
        lines
    }

    /// How many terminal rows the row wants at the given width: one for a
    /// degenerate zero width, otherwise the number of wrapped lines.
    pub fn desired_height(&self, width: u16) -> (h: u16)
        requires
            self.wf(),
        ensures
            h as int == self.desired_height_spec(width as int),
    {
        if width == 0 {
            return 1;
        }
        let lines = self.wrap_text(width as usize);
        let n = lines.len();
        if n > 0xffff {
            0xffff
        } else {
            n as u16
        }
    }
}

impl SelectionOptionRenderable {
    /// Paints the wrapped lines into `area` of `buf`, top to bottom, one
    /// line per terminal row, clipped to the region's width and height and
    /// to the buffer's own area.  A zero-width region leaves the buffer
    /// exactly as it was; in every case, cells outside the rows that
    /// received a line keep their symbol and foreground, a line of simple
    /// characters lands in its row one character per cell, written cells
    /// show the accent foreground exactly when the row is emphasized, and
    /// cells of a painted row at or beyond its line's end keep their
    /// content.
    pub fn render(&self, area: Region, buf: &mut ratatui::buffer::Buffer)
        requires
            self.wf(),
        ensures
            buf_area(*final(buf)) == buf_area(*old(buf)),
            buf_cells(*final(buf)).dom() == buf_cells(*old(buf)).dom(),
            buf_accents(*final(buf)).dom() == buf_accents(*old(buf)).dom(),
            area.width == 0 ==> *final(buf) == *old(buf),
            forall|p: (int, int)|
                buf_cells(*old(buf)).dom().contains(p) && !((area.x as int <= p.0 < area.x as int
                    + area.width as int) && (area.y as int <= p.1 < area.y as int
                    + self.painted_rows(area))) ==> buf_cells(*final(buf))[p] == buf_cells(
                    *old(buf),
                )[p],
            forall|p: (int, int)|
                buf_accents(*old(buf)).dom().contains(p) && !((area.x as int <= p.0 < area.x
                    as int + area.width as int) && (area.y as int <= p.1 < area.y as int
                    + self.painted_rows(area))) ==> buf_accents(*final(buf))[p] == buf_accents(
                    *old(buf),
                )[p],
            area.x as int >= buf_area(*old(buf)).0 ==> forall|p: (int, int)|
                area.y as int <= p.1 < area.y as int + self.painted_rows(area) && buf_area(
                    *old(buf),
                ).1 <= p.1 < buf_area(*old(buf)).1 + buf_area(*old(buf)).3 && p.1 < 0xffff
                    && area.x as int <= p.0 < area.x as int + area.width as int && p.0 < buf_area(
                    *old(buf),
                ).0 + buf_area(*old(buf)).2 && p.0 < 0xffff && simple_text(
                    self.line_text_spec(area.width as int, p.1 - area.y as int),
                ) && (p.0 - area.x as int) < self.line_text_spec(
                    area.width as int,
                    p.1 - area.y as int,
                ).len() ==> #[trigger] buf_cells(*final(buf))[p] == seq![
                    self.line_text_spec(area.width as int, p.1 - area.y as int)[p.0 - area.x as int],
                ],
            area.x as int >= buf_area(*old(buf)).0 ==> forall|p: (int, int)|
                area.y as int <= p.1 < area.y as int + self.painted_rows(area) && buf_area(
                    *old(buf),
                ).1 <= p.1 < buf_area(*old(buf)).1 + buf_area(*old(buf)).3 && p.1 < 0xffff
                    && area.x as int <= p.0 < area.x as int + area.width as int && p.0 < buf_area(
                    *old(buf),
                ).0 + buf_area(*old(buf)).2 && p.0 < 0xffff && simple_text(
                    self.line_text_spec(area.width as int, p.1 - area.y as int),
                ) && (p.0 - area.x as int) < self.line_text_spec(
                    area.width as int,
                    p.1 - area.y as int,
                ).len() ==> #[trigger] buf_accents(*final(buf))[p] == (if self.style
                    == RowStyle::Emphasized {
                    true
                } else {
                    buf_accents(*old(buf))[p]
                }),
            forall|p: (int, int)|
                buf_cells(*old(buf)).dom().contains(p) && area.y as int <= p.1 < area.y as int
                    + self.painted_rows(area) && simple_text(
                    self.line_text_spec(area.width as int, p.1 - area.y as int),
                ) && (p.0 - area.x as int) >= self.line_text_spec(
                    area.width as int,
                    p.1 - area.y as int,
                ).len() ==> #[trigger] buf_cells(*final(buf))[p] == buf_cells(*old(buf))[p],
            forall|p: (int, int)|
                buf_accents(*old(buf)).dom().contains(p) && area.y as int <= p.1 < area.y as int
                    + self.painted_rows(area) && simple_text(
                    self.line_text_spec(area.width as int, p.1 - area.y as int),
                ) && (p.0 - area.x as int) >= self.line_text_spec(
                    area.width as int,
                    p.1 - area.y as int,
                ).len() ==> #[trigger] buf_accents(*final(buf))[p] == buf_accents(*old(buf))[p],
    {
        if area.width == 0 {
            return ;
        }
        let lines = self.wrap_text(area.width as usize);
        let (bx, by, bw, bh) = buffer_area(buf);
        let mut i: usize = 0;
        while i < lines.len() && i < area.height as usize
            invariant
                self.wf(),
                area.width > 0,
                lines@.len() == self.wrapped_label(area.width as int).len(),
                i <= lines@.len(),
                i <= area.height as usize,
                bx as int == buf_area(*old(buf)).0,
                by as int == buf_area(*old(buf)).1,
                bw as int == buf_area(*old(buf)).2,
                bh as int == buf_area(*old(buf)).3,
                forall|p: (int, int)|
                    #[trigger] buf_cells(*old(buf)).dom().contains(p) <==> (bx as int <= p.0 < bx
                        as int + bw as int && by as int <= p.1 < by as int + bh as int),
                forall|p: (int, int)|
                    #[trigger] buf_accents(*old(buf)).dom().contains(p) <==> (bx as int <= p.0
                        < bx as int + bw as int && by as int <= p.1 < by as int + bh as int),
                buf_area(*buf) == buf_area(*old(buf)),
                buf_cells(*buf).dom() == buf_cells(*old(buf)).dom(),
                buf_accents(*buf).dom() == buf_accents(*old(buf)).dom(),
                forall|p: (int, int)|
                    buf_cells(*old(buf)).dom().contains(p) && !((area.x as int <= p.0 < area.x
                        as int + area.width as int) && (area.y as int <= p.1 < area.y as int
                        + i as int)) ==> buf_cells(*buf)[p] == buf_cells(*old(buf))[p],
                forall|p: (int, int)|
                    buf_accents(*old(buf)).dom().contains(p) && !((area.x as int <= p.0 < area.x
                        as int + area.width as int) && (area.y as int <= p.1 < area.y as int
                        + i as int)) ==> buf_accents(*buf)[p] == buf_accents(*old(buf))[p],
                forall|j: int|
                    0 <= j < lines@.len() ==> #[trigger] lines@[j].text@ == self.line_text_spec(
                        area.width as int,
                        j,
                    ),
                area.x as int >= bx as int ==> forall|p: (int, int)|
                    area.y as int <= p.1 < area.y as int + i as int && by as int <= p.1 < by as int
                        + bh as int && p.1 < 0xffff && area.x as int <= p.0 < area.x as int
                        + area.width as int && p.0 < buf_area(*old(buf)).0 + buf_area(*old(buf)).2
                        && p.0 < 0xffff && simple_text(
                        self.line_text_spec(area.width as int, p.1 - area.y as int),
                    ) && (p.0 - area.x as int) < self.line_text_spec(
                        area.width as int,
                        p.1 - area.y as int,
                    ).len() ==> #[trigger] buf_cells(*buf)[p] == seq![
                        self.line_text_spec(area.width as int, p.1 - area.y as int)[p.0 - area.x
                            as int],
                    ],
                area.x as int >= bx as int ==> forall|p: (int, int)|
                    area.y as int <= p.1 < area.y as int + i as int && by as int <= p.1 < by as int
                        + bh as int && p.1 < 0xffff && area.x as int <= p.0 < area.x as int
                        + area.width as int && p.0 < buf_area(*old(buf)).0 + buf_area(*old(buf)).2
                        && p.0 < 0xffff && simple_text(
                        self.line_text_spec(area.width as int, p.1 - area.y as int),
                    ) && (p.0 - area.x as int) < self.line_text_spec(
                        area.width as int,
                        p.1 - area.y as int,
                    ).len() ==> #[trigger] buf_accents(*buf)[p] == (if self.style
                        == RowStyle::Emphasized {
                        true
                    } else {
                        buf_accents(*old(buf))[p]
                    }),
                forall|p: (int, int)|
                    buf_cells(*old(buf)).dom().contains(p) && area.y as int <= p.1 < area.y as int
                        + i as int && simple_text(
                        self.line_text_spec(area.width as int, p.1 - area.y as int),
                    ) && (p.0 - area.x as int) >= self.line_text_spec(
                        area.width as int,
                        p.1 - area.y as int,
                    ).len() ==> #[trigger] buf_cells(*buf)[p] == buf_cells(*old(buf))[p],
                forall|p: (int, int)|
                    buf_accents(*old(buf)).dom().contains(p) && area.y as int <= p.1 < area.y
                        as int + i as int && simple_text(
                        self.line_text_spec(area.width as int, p.1 - area.y as int),
                    ) && (p.0 - area.x as int) >= self.line_text_spec(
                        area.width as int,
                        p.1 - area.y as int,
                    ).len() ==> #[trigger] buf_accents(*buf)[p] == buf_accents(*old(buf))[p],
            decreases lines@.len() - i,
        {
            let y_big = area.y as usize + i;
            if y_big < 0xffff {
                let yrow = y_big as u16;
                if area.x >= bx && yrow >= by && y_big < by as usize + bh as usize {
                    let emphasized = match self.style {
                        RowStyle::Emphasized => true,
                        RowStyle::Plain => false,
                    };
                    buf_put_line(buf, area.x, yrow, area.width, &lines[i].text, emphasized);
                }
            }
            proof {
                let w = area.width as int;
                if area.x as int >= bx as int {
                    assert forall|p: (int, int)|
                        area.y as int <= p.1 < area.y as int + (i + 1) as int && by as int <= p.1
                            < by as int + bh as int && p.1 < 0xffff && area.x as int <= p.0
                            < area.x as int + w && p.0 < buf_area(*old(buf)).0 + buf_area(
                            *old(buf),
                        ).2 && p.0 < 0xffff && simple_text(
                            self.line_text_spec(w, p.1 - area.y as int),
                        ) && (p.0 - area.x as int) < self.line_text_spec(
                            w,
                            p.1 - area.y as int,
                        ).len() implies #[trigger] buf_cells(*buf)[p] == seq![
                        self.line_text_spec(w, p.1 - area.y as int)[p.0 - area.x as int],
                    ] && buf_accents(*buf)[p] == (if self.style == RowStyle::Emphasized {
                        true
                    } else {
                        buf_accents(*old(buf))[p]
                    }) by {
                        assert(buf_cells(*old(buf)).dom().contains(p));
                        assert(buf_accents(*old(buf)).dom().contains(p));
                        if p.1 == area.y as int + i as int {
                            assert(lines@[i as int].text@ == self.line_text_spec(w, i as int));
                        }
                    }
                }
                assert forall|p: (int, int)|
                    buf_cells(*old(buf)).dom().contains(p) && area.y as int <= p.1 < area.y as int
                        + (i + 1) as int && simple_text(
                        self.line_text_spec(area.width as int, p.1 - area.y as int),
                    ) && (p.0 - area.x as int) >= self.line_text_spec(
                        area.width as int,
                        p.1 - area.y as int,
                    ).len() implies #[trigger] buf_cells(*buf)[p] == buf_cells(*old(buf))[p] by {
                    if p.1 == area.y as int + i as int {
                        assert(lines@[i as int].text@ == self.line_text_spec(
                            area.width as int,
                            i as int,
                        ));
                    }
                }
                assert forall|p: (int, int)|
                    buf_accents(*old(buf)).dom().contains(p) && area.y as int <= p.1 < area.y
                        as int + (i + 1) as int && simple_text(
                        self.line_text_spec(area.width as int, p.1 - area.y as int),
                    ) && (p.0 - area.x as int) >= self.line_text_spec(
                        area.width as int,
                        p.1 - area.y as int,
                    ).len() implies #[trigger] buf_accents(*buf)[p] == buf_accents(
                    *old(buf),
                )[p] by {
                    if p.1 == area.y as int + i as int {
                        assert(lines@[i as int].text@ == self.line_text_spec(
                            area.width as int,
                            i as int,
                        ));
                    }
                }
            }
            i = i + 1;
        }
        proof {
            assert(i as int == self.painted_rows(area));
        }
    }
}

/// Measure/draw consistency: at any positive width, the height reported in
/// advance is exactly the number of region rows `render` fills, whenever
/// the region is at least that tall.
pub proof fn lemma_measure_draw_consistent(row: SelectionOptionRenderable, area: Region)
    requires
        area.width > 0,
        area.height as int >= row.desired_height_spec(area.width as int),
    ensures
        row.painted_rows(area) == row.desired_height_spec(area.width as int),
{
}

/// Monotonic non-degradation: holding the row fixed, a narrower positive
/// width never yields a smaller height than a wider one.
pub proof fn lemma_height_monotone(row: SelectionOptionRenderable, w1: int, w2: int)
    requires
        1 <= w1 <= w2,
    ensures
        row.desired_height_spec(w2) <= row.desired_height_spec(w1),
{
    lemma_wrap_count_monotone(
        row.label@,
        content_limit(w1, row.prefix_width as int),
        content_limit(w2, row.prefix_width as int),
    );
}

/// Indent alignment: the first produced line begins with the prefix text,
/// and every later one begins with exactly `prefix_width` space
/// characters, whatever the label holds.
pub proof fn lemma_indent_alignment(row: SelectionOptionRenderable, width: int, i: int)
    requires
        0 <= i < row.wrapped_label(width).len(),
    ensures
        i == 0 ==> row.line_text_spec(width, 0).take(row.prefix_text@.len() as int)
            == row.prefix_text@,
        i >= 1 ==> row.line_text_spec(width, i).take(row.prefix_width as int) == Seq::new(
            row.prefix_width as nat,
            |k: int| ' ',
        ),
        i >= 1 ==> forall|k: int|
            0 <= k < row.prefix_width ==> row.line_text_spec(width, i)[k] == ' ',
{
    if i == 0 {
        assert((row.prefix_text@ + row.wrapped_label(width)[0]).take(
            row.prefix_text@.len() as int,
        ) =~= row.prefix_text@);
    } else {
        let ind = Seq::new(row.prefix_width as nat, |k: int| ' ');
        assert((ind + row.wrapped_label(width)[i]).take(ind.len() as int) =~= ind);
    }
}

/// Width of produced lines: whenever the width grants the label at least
/// one column beyond the prefix, every produced line fits within the
/// width, indent included — except a line forced to carry one single
/// character that is wider than the whole content limit.
pub proof fn lemma_line_widths(row: SelectionOptionRenderable, width: int, i: int)
    requires
        row.wf(),
        row.prefix_width < width,
        0 <= i < row.wrapped_label(width).len(),
    ensures
        cols(row.line_text_spec(width, i)) <= width || row.wrapped_label(width)[i].len() == 1,
{
    let limit = content_limit(width, row.prefix_width as int);
    lemma_wrap_widths(row.label@, limit);
    let part = row.wrapped_label(width)[i];
    if cols(part) <= limit {
        if i == 0 {
            lemma_cols_add(row.prefix_text@, part);
        } else {
            let ind = Seq::new(row.prefix_width as nat, |k: int| ' ');
            assert((' ' as u32) == 0x20);
            assert(forall|k: int| 0 <= k < ind.len() ==> char_cols(#[trigger] ind[k]) == 1);
            lemma_cols_all_narrow(ind);
            lemma_cols_add(ind, part);
        }
    }
}

/// Appends the given characters to a string.
fn append_chars(s: &mut String, v: &Vec<char>)
    ensures
        final(s)@ == old(s)@ + v@,
{
    let mut i: usize = 0;
    while i < v.len()
        invariant
            i <= v@.len(),
            s@ =~= old(s)@ + v@.take(i as int),
        decreases v@.len() - i,
    {
        s.push(v[i]);
        i = i + 1;
        proof {
            assert(s@ =~= old(s)@ + v@.take(i as int));
        }
    }
    proof {
        assert(v@.take(v@.len() as int) =~= v@);
    }
}

} // verus!
