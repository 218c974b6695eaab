//! Unicode display-width measurement.
//!
//! The width of a sequence of characters is the sum of its characters'
//! widths.  Printable ASCII and the selection marker are pinned to one
//! column; every other character's width is whatever unicode-width's tables
//! report, named by an uninterpreted function.

use vstd::prelude::*;

verus! {

/// Display width, in terminal columns, that unicode-width assigns to a
/// character outside the ranges this crate pins down itself.
pub uninterp spec fn extended_char_cols(c: char) -> nat;

/// Display width of a single character in terminal columns.
pub open spec fn char_cols(c: char) -> nat {
    if 0x20 <= (c as u32) < 0x7f {
        1
    } else if c == '\u{203A}' {
        1
    } else {
        extended_char_cols(c)
    }
}

/// Display width of a sequence of characters: the sum of its characters'
/// widths.
pub open spec fn cols(s: Seq<char>) -> nat
    decreases s.len(),
{
    if s.len() == 0 {
        0
    } else {
        char_cols(s[0]) + cols(s.skip(1))
    }
}

/// Relies on unicode-width's `UnicodeWidthChar::width`: printable ASCII and
/// the U+203A marker are one column wide, control characters take no column,
/// and every other character's width comes from the crate's Unicode tables.
#[verifier::external_body]
pub fn char_width(c: char) -> (w: usize)
    ensures
        w == char_cols(c),
        !(0x20 <= (c as u32) < 0x7f) && c != '\u{203A}' ==> w == extended_char_cols(c),
{
    unicode_width::UnicodeWidthChar::width(c).unwrap_or(0)
}

/// The width of a concatenation is the sum of the widths of the halves.
pub proof fn lemma_cols_add(a: Seq<char>, b: Seq<char>)
    ensures
        cols(a + b) == cols(a) + cols(b),
    decreases a.len(),
{
    if a.len() == 0 {
        assert(a + b =~= b);
    } else {
        assert((a + b).skip(1) =~= a.skip(1) + b);
        lemma_cols_add(a.skip(1), b);
    }
}

/// Splitting a sequence at any index splits its width.
pub proof fn lemma_cols_split(s: Seq<char>, i: int)
    requires
        0 <= i <= s.len(),
    ensures
        cols(s) == cols(s.take(i)) + cols(s.skip(i)),
{
    assert(s =~= s.take(i) + s.skip(i));
    lemma_cols_add(s.take(i), s.skip(i));
}

/// Widths of prefixes grow with their length.
pub proof fn lemma_cols_take_monotone(s: Seq<char>, i: int, j: int)
    requires
        0 <= i <= j <= s.len(),
    ensures
        cols(s.take(i)) <= cols(s.take(j)),
{
    assert(s.take(j).take(i) =~= s.take(i));
    lemma_cols_split(s.take(j), i);
}

/// Taking one more character adds that character's width.
pub proof fn lemma_cols_take_succ(s: Seq<char>, i: int)
    requires
        0 <= i < s.len(),
    ensures
        cols(s.take(i + 1)) == cols(s.take(i)) + char_cols(s[i]),
{
    assert(s.take(i + 1) =~= s.take(i) + seq![s[i]]);
    lemma_cols_add(s.take(i), seq![s[i]]);
    assert(cols(seq![s[i]]) == char_cols(s[i]) + cols(seq![s[i]].skip(1)));
    assert(seq![s[i]].skip(1) =~= Seq::<char>::empty());
}

/// A sequence of one-column characters is as wide as it is long.
pub proof fn lemma_cols_all_narrow(s: Seq<char>)
    requires
        forall|i: int| 0 <= i < s.len() ==> char_cols(#[trigger] s[i]) == 1,
    ensures
        cols(s) == s.len(),
    decreases s.len(),
{
    if s.len() > 0 {
        lemma_cols_all_narrow(s.skip(1));
    }
}

/// Measures the display width of a character sequence by summing the
/// widths unicode-width reports for its characters.
pub fn measure_cols(s: &Vec<char>) -> (w: usize)
    requires
        cols(s@) <= usize::MAX,
    ensures
        w == cols(s@),
{
    let mut w: usize = 0;
    let mut i: usize = 0;
    while i < s.len()
        invariant
            0 <= i <= s@.len(),
            w == cols(s@.take(i as int)),
            cols(s@) <= usize::MAX,
        decreases s@.len() - i,
    {
        let cw = char_width(s[i]);
        proof {
            lemma_cols_take_succ(s@, i as int);
            lemma_cols_take_monotone(s@, i as int + 1, s@.len() as int);
            assert(s@.take(s@.len() as int) =~= s@);
        }
        w = w + cw;
        i = i + 1;
    }
    proof {
        assert(s@.take(s@.len() as int) =~= s@);
    }
    w
}

} // verus!
