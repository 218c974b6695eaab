//! Greedy word wrapping over character sequences.
//!
//! A label is split into content lines none of which is wider than a given
//! limit.  Breaks fall by preference on a word boundary (next to a space);
//! when no boundary fits, the line is hard-broken mid-word.  A line keeps at
//! least one character even when that single character is wider than the
//! limit, so wrapping always makes progress, and no character is ever
//! dropped: the concatenation of the parts is exactly the input.

use vstd::prelude::*;
use crate::width::char_cols;
use crate::width::cols;
use crate::width::char_width;
use crate::width::lemma_cols_add;
use crate::width::lemma_cols_split;
use crate::width::lemma_cols_take_succ;
use crate::width::lemma_cols_take_monotone;

verus! {

/// Length of the longest prefix of `s` whose width fits within `limit`.
pub open spec fn fit_len(s: Seq<char>, limit: int) -> int
    decreases s.len(),
{
    if s.len() == 0 {
        0
    } else if char_cols(s[0]) > limit {
        0
    } else {
        1 + fit_len(s.skip(1), limit - char_cols(s[0]))
    }
}

/// A break after `b` characters is soft when it falls on a word boundary:
/// the character just before or just after the break is a space.
pub open spec fn is_soft(s: Seq<char>, b: int) -> bool {
    1 <= b < s.len() && (s[b - 1] == ' ' || s[b] == ' ')
}

/// The last soft break at or before `m`, or 0 when there is none.
pub open spec fn last_soft(s: Seq<char>, m: int) -> int
    decreases m,
{
    if m <= 0 {
        0
    } else if is_soft(s, m) {
        m
    } else {
        last_soft(s, m - 1)
    }
}

/// Where the first wrapped line of `s` ends: after the whole of `s` when it
/// fits, otherwise at the last word boundary within the fitting prefix, or
/// at the end of the fitting prefix (at least one character) when no word
/// boundary fits.
pub open spec fn break_at(s: Seq<char>, limit: int) -> int {
    let f = fit_len(s, limit);
    if f >= s.len() {
        s.len() as int
    } else {
        let m = if f < 1 { 1int } else { f };
        let ls = last_soft(s, m);
        if ls >= 1 {
            ls
        } else {
            m
        }
    }
}

/// The wrapped content lines of `s` at width `limit`, in order.  An input
/// that fits, the empty input included, yields a single line.
pub open spec fn wrap_parts(s: Seq<char>, limit: int) -> Seq<Seq<char>>
    decreases s.len(),
{
    let b = break_at(s, limit);
    if b < 1 || b >= s.len() {
        seq![s]
    } else {
        seq![s.take(b)] + wrap_parts(s.skip(b), limit)
    }
}

/// Concatenation of a sequence of lines.
pub open spec fn concat_parts(ps: Seq<Seq<char>>) -> Seq<char>
    decreases ps.len(),
{
    if ps.len() == 0 {
        Seq::empty()
    } else {
        ps[0] + concat_parts(ps.skip(1))
    }
}

/// The fitting prefix indeed fits, and is maximal.
pub proof fn lemma_fit_len_bounds(s: Seq<char>, limit: int)
    requires
        limit >= 0,
    ensures
        0 <= fit_len(s, limit) <= s.len(),
        cols(s.take(fit_len(s, limit))) <= limit,
        fit_len(s, limit) < s.len() ==> cols(s.take(fit_len(s, limit) + 1)) > limit,
    decreases s.len(),
{
    if s.len() == 0 {
        assert(s.take(0) =~= Seq::<char>::empty());
    } else if char_cols(s[0]) > limit {
        assert(s.take(0) =~= Seq::<char>::empty());
        lemma_cols_take_succ(s, 0);
    } else {
        let cc = char_cols(s[0]) as int;
        let rest = s.skip(1);
        lemma_fit_len_bounds(rest, limit - cc);
        let f = fit_len(rest, limit - cc);
        assert(s.take(1 + f) =~= seq![s[0]] + rest.take(f));
        lemma_cols_add(seq![s[0]], rest.take(f));
        lemma_cols_singleton(s[0]);
        if 1 + f < s.len() {
            assert(s.take(1 + f + 1) =~= seq![s[0]] + rest.take(f + 1));
            lemma_cols_add(seq![s[0]], rest.take(f + 1));
        }
    }
}

/// The width of a single character as a one-element sequence.
pub proof fn lemma_cols_singleton(c: char)
    ensures
        cols(seq![c]) == char_cols(c),
{
    assert(seq![c].skip(1) =~= Seq::<char>::empty());
    assert(cols(Seq::<char>::empty()) == 0);
    assert(seq![c][0] == c);
}

/// Any prefix that fits is no longer than the fitting prefix.
pub proof fn lemma_fit_len_complete(s: Seq<char>, limit: int, i: int)
    requires
        0 <= i <= s.len(),
        cols(s.take(i)) <= limit,
    ensures
        fit_len(s, limit) >= i,
    decreases i,
{
    lemma_fit_len_bounds(s, limit);
    if i >= 1 {
        lemma_cols_take_monotone(s, 1, i);
        lemma_cols_take_succ(s, 0);
        assert(s.take(0) =~= Seq::<char>::empty());
        let cc = char_cols(s[0]) as int;
        let rest = s.skip(1);
        assert(s.take(i) =~= seq![s[0]] + rest.take(i - 1));
        lemma_cols_add(seq![s[0]], rest.take(i - 1));
        lemma_cols_singleton(s[0]);
        lemma_fit_len_complete(rest, limit - cc, i - 1);
    }
}

/// `last_soft` returns 0 or a soft break, and no soft break lies beyond it.
pub proof fn lemma_last_soft(s: Seq<char>, m: int)
    ensures
        last_soft(s, m) == 0 || (1 <= last_soft(s, m) <= m && is_soft(s, last_soft(s, m))),
        forall|j: int| 1 <= j <= m && is_soft(s, j) ==> j <= last_soft(s, m),
    decreases m,
{
    if m > 0 && !is_soft(s, m) {
        lemma_last_soft(s, m - 1);
    }
}

/// Wrapping yields at least one line.
pub proof fn lemma_wrap_count_pos(s: Seq<char>, limit: int)
    ensures
        wrap_parts(s, limit).len() >= 1,
{
}

/// No character is dropped: the lines concatenate back to the input.
pub proof fn lemma_wrap_concat(s: Seq<char>, limit: int)
    ensures
        concat_parts(wrap_parts(s, limit)) == s,
    decreases s.len(),
{
    let b = break_at(s, limit);
    if b < 1 || b >= s.len() {
        let ps = wrap_parts(s, limit);
        assert(ps[0] == s);
        assert(ps.skip(1) =~= Seq::<Seq<char>>::empty());
        assert(concat_parts(ps.skip(1)) == Seq::<char>::empty());
        assert(concat_parts(ps) =~= s);
    } else {
        lemma_wrap_concat(s.skip(b), limit);
        let ps = wrap_parts(s, limit);
        assert(ps[0] == s.take(b));
        assert(ps.skip(1) =~= wrap_parts(s.skip(b), limit));
        assert(concat_parts(ps) =~= s.take(b) + s.skip(b));
        assert(s.take(b) + s.skip(b) =~= s);
    }
}

/// Every line fits within the limit, except a forced single character that
/// is wider than the whole limit.
pub proof fn lemma_wrap_widths(s: Seq<char>, limit: int)
    requires
        limit >= 1,
    ensures
        forall|i: int|
            0 <= i < wrap_parts(s, limit).len() ==> cols(#[trigger] wrap_parts(s, limit)[i])
                <= limit || wrap_parts(s, limit)[i].len() == 1,
    decreases s.len(),
{
    lemma_fit_len_bounds(s, limit);
    let f = fit_len(s, limit);
    let m: int = if f < 1 {
        1
    } else {
        f
    };
    lemma_last_soft(s, m);
    let b = break_at(s, limit);
    let ps = wrap_parts(s, limit);
    if b < 1 || b >= s.len() {
        if f >= s.len() {
            assert(f == s.len());
            assert(s.take(f) =~= s);
        } else {
            assert(b <= m);
            assert(s.len() == 1);
        }
        assert(ps[0] == s);
    } else {
        if b >= 2 {
            assert(b <= m && m == f);
            lemma_cols_take_monotone(s, b, f);
        }
        lemma_wrap_widths(s.skip(b), limit);
        assert forall|i: int| 0 <= i < ps.len() implies cols(#[trigger] ps[i]) <= limit
            || ps[i].len() == 1 by {
            if i >= 1 {
                assert(ps[i] == wrap_parts(s.skip(b), limit)[i - 1]);
            } else {
                assert(ps[0] == s.take(b));
                assert(s.take(b).len() == b);
            }
        }
    }
}

/// Dropping a leading piece of the input and widening the limit never
/// increases the number of wrapped lines.  The suffix form is what the
/// induction needs; the corollary over one input is below.
pub proof fn lemma_wrap_count_suffix_mono(s: Seq<char>, d: int, l1: int, l2: int)
    requires
        0 <= d <= s.len(),
        1 <= l1 <= l2,
    ensures
        wrap_parts(s.skip(d), l2).len() <= wrap_parts(s, l1).len(),
    decreases s.len(),
{
    let t = s.skip(d);
    lemma_fit_len_bounds(s, l1);
    lemma_fit_len_bounds(t, l2);
    let fs = fit_len(s, l1);
    let ft = fit_len(t, l2);
    let ms: int = if fs < 1 {
        1
    } else {
        fs
    };
    let mt: int = if ft < 1 {
        1
    } else {
        ft
    };
    lemma_last_soft(s, ms);
    lemma_last_soft(t, mt);
    let bs = break_at(s, l1);
    let bt = break_at(t, l2);
    assert(forall|k: int| 0 <= k < t.len() ==> t[k] == s[d + k]);
    lemma_wrap_count_pos(s, l1);
    lemma_wrap_count_pos(t, l2);
    if bs < 1 || bs >= s.len() {
        // the whole of s is a single line; t must be one as well
        if fs >= s.len() {
            assert(fs == s.len());
            assert(s.take(s.len() as int) =~= s);
            assert(cols(s) <= l1);
            lemma_cols_split(s, d);
            assert(t.take(t.len() as int) =~= t);
            lemma_fit_len_complete(t, l2, t.len() as int);
            assert(break_at(t, l2) == t.len() as int);
            assert(wrap_parts(t, l2).len() == 1);
        } else {
            assert(bs <= ms);
            assert(s.len() == 1);
            if t.len() == 0 {
                assert(fit_len(t, l2) == 0);
                assert(wrap_parts(t, l2).len() == 1);
            } else {
                assert(t.len() == 1);
                if ft >= t.len() {
                    assert(wrap_parts(t, l2).len() == 1);
                } else {
                    assert(bt <= mt);
                    assert(bt >= t.len() || bt < 1);
                    assert(wrap_parts(t, l2).len() == 1);
                }
            }
        }
    } else {
        if bt < 1 || bt >= t.len() {
            // t is a single line, s wraps to at least one
            assert(wrap_parts(t, l2).len() == 1);
        } else {
            // both sides break; the break of s comes no later, in absolute
            // position, than the break of t
            if bs > d {
                let i0 = bs - d;
                assert(i0 < t.len());
                if bs >= 2 {
                    assert(bs <= ms && ms == fs);
                    lemma_cols_take_monotone(s, bs, fs);
                    assert(s.take(bs) =~= s.take(d) + t.take(i0));
                    lemma_cols_add(s.take(d), t.take(i0));
                    lemma_fit_len_complete(t, l2, i0);
                    assert(i0 <= mt);
                } else {
                    assert(d == 0 && i0 == 1);
                    assert(i0 <= mt);
                }
                let lss = last_soft(s, ms);
                if lss >= 1 {
                    assert(bs == lss);
                    assert(is_soft(s, bs));
                    assert(t[i0 - 1] == s[bs - 1]);
                    assert(t[i0] == s[bs]);
                    assert(is_soft(t, i0));
                    assert(last_soft(t, mt) >= i0);
                    assert(bt >= i0);
                } else {
                    assert(bs == ms);
                    let lst = last_soft(t, mt);
                    if lst >= 1 && lst < i0 {
                        let j = d + lst;
                        assert(is_soft(t, lst));
                        assert(t[lst - 1] == s[j - 1]);
                        assert(t[lst] == s[j]);
                        assert(is_soft(s, j));
                        assert(1 <= j <= ms);
                        assert(j <= lss);
                        assert(false);
                    }
                    assert(bt >= i0);
                }
            }
            let dd = d + bt - bs;
            assert(0 <= dd <= s.skip(bs).len());
            assert(t.skip(bt) =~= s.skip(bs).skip(dd));
            lemma_wrap_count_suffix_mono(s.skip(bs), dd, l1, l2);
            assert(wrap_parts(s, l1).len() == 1 + wrap_parts(s.skip(bs), l1).len());
            assert(wrap_parts(t, l2).len() == 1 + wrap_parts(t.skip(bt), l2).len());
        }
    }
}

/// Monotonic non-degradation: a narrower limit never wraps a text into
/// fewer lines than a wider one.
pub proof fn lemma_wrap_count_monotone(s: Seq<char>, l1: int, l2: int)
    requires
        1 <= l1 <= l2,
    ensures
        wrap_parts(s, l2).len() <= wrap_parts(s, l1).len(),
{
    assert(s.skip(0) =~= s);
    lemma_wrap_count_suffix_mono(s, 0, l1, l2);
}

/// Copies the characters of `s` between `from` and `to` into a fresh vector.
fn copy_range(s: &Vec<char>, from: usize, to: usize) -> (part: Vec<char>)
    requires
        from <= to <= s.len(),
    ensures
        part@ == s@.subrange(from as int, to as int),
{
    let mut part: Vec<char> = Vec::new();
    let mut k: usize = from;
    while k < to
        invariant
            from <= k <= to <= s.len(),
            part@ =~= s@.subrange(from as int, k as int),
        decreases to - k,
    {
        part.push(s[k]);
        k = k + 1;
    }
    part
}

/// Wraps the characters of `s` at width `limit`: each element of the result
/// is the content of one line, in order.
pub fn wrap_chars(s: &Vec<char>, limit: usize) -> (parts: Vec<Vec<char>>)
    requires
        limit >= 1,
    ensures
        parts@.len() == wrap_parts(s@, limit as int).len(),
        forall|i: int| 0 <= i < parts@.len() ==> parts@[i]@ == wrap_parts(s@, limit as int)[i],
{
    let ghost gs = s@;
    let ghost gl = limit as int;
    let ghost full = wrap_parts(gs, gl);
    let mut parts: Vec<Vec<char>> = Vec::new();
    if s.len() == 0 {
        parts.push(Vec::new());
        proof {
            assert(break_at(gs, gl) == 0);
            assert(full =~= seq![gs]);
            assert(parts@[0]@ =~= gs);
        }
        return parts;
    }
    let mut pos: usize = 0;
    proof {
        assert(gs.skip(0) =~= gs);
        assert(full.skip(0) =~= full);
    }
    while pos < s.len()
        invariant
            1 <= limit,
            gs == s@,
            gl == limit as int,
            full == wrap_parts(gs, gl),
            pos <= s.len(),
            parts@.len() <= full.len(),
            forall|i: int| 0 <= i < parts@.len() ==> parts@[i]@ == full[i],
            pos < s.len() ==> wrap_parts(gs.skip(pos as int), gl) == full.skip(
                parts@.len() as int,
            ),
            pos == s.len() ==> parts@.len() == full.len(),
        decreases s.len() - pos,
    {
        let ghost rest = gs.skip(pos as int);
        let ghost k = parts@.len() as int;
        proof {
            lemma_fit_len_bounds(rest, gl);
        }
        // longest prefix of the remaining text that fits within the limit
        let mut f: usize = 0;
        let mut budget: usize = limit;
        let mut over = false;
        proof {
            assert(rest.skip(0) =~= rest);
        }
        while !over && pos + f < s.len()
            invariant
                gs == s@,
                gl == limit as int,
                rest == gs.skip(pos as int),
                pos <= s.len(),
                pos + f <= s.len(),
                budget <= limit,
                fit_len(rest, gl) == f + fit_len(rest.skip(f as int), budget as int),
                over ==> fit_len(rest.skip(f as int), budget as int) == 0,
            decreases (if over { 0int } else { 1int }), s.len() - pos - f,
        {
            let cw = char_width(s[pos + f]);
            proof {
                assert(rest.skip(f as int)[0] == rest[f as int]);
                assert(rest[f as int] == gs[pos + f]);
            }
            if cw > budget {
                over = true;
            } else {
                proof {
                    assert(rest.skip(f as int).skip(1) =~= rest.skip(f as int + 1));
                }
                budget = budget - cw;
                f = f + 1;
            }
        }
        proof {
            if !over {
                assert(rest.skip(f as int).len() == 0);
            }
            assert(f as int == fit_len(rest, gl));
        }
        let rest_len = s.len() - pos;
        if f >= rest_len {
            // the whole remainder fits on one line
            let part = copy_range(s, pos, s.len());
            proof {
                assert(break_at(rest, gl) == rest.len() as int);
                assert(wrap_parts(rest, gl) =~= seq![rest]);
                assert(part@ =~= rest);
                vstd::seq_lib::lemma_seq_skip_index(full, k, 0);
                assert(full.skip(k)[0] == full[k]);
                assert(full[k] == rest);
                assert(full.skip(k).len() == full.len() - k);
                assert(full.len() == k + 1);
            }
            parts.push(part);
            pos = s.len();
        } else {
            let m: usize = if f < 1 {
                1
            } else {
                f
            };
            proof {
                lemma_last_soft(rest, m as int);
            }
            // last word boundary within the fitting prefix
            let mut ls: usize = 0;
            let mut j: usize = 1;
            while j <= m
                invariant
                    gs == s@,
                    rest == gs.skip(pos as int),
                    pos <= s.len(),
                    1 <= m <= s.len() - pos,
                    m < s.len() - pos || m == 1,
                    1 <= j <= m + 1,
                    ls as int == last_soft(rest, j as int - 1),
                decreases m + 1 - j,
            {
                let soft = if pos + j < s.len() {
                    s[pos + j - 1] == ' ' || s[pos + j] == ' '
                } else {
                    false
                };
                proof {
                    assert(rest[j as int - 1] == gs[pos + j - 1]);
                    if pos + j < s.len() {
                        assert(rest[j as int] == gs[pos + j]);
                    }
                    assert(soft == is_soft(rest, j as int));
                }
                if soft {
                    ls = j;
                }
                j = j + 1;
            }
            let b: usize = if ls >= 1 {
                ls
            } else {
                m
            };
            proof {
                assert(b as int == break_at(rest, gl));
            }
            if b >= rest_len {
                // degenerate remainder of one character
                let part = copy_range(s, pos, s.len());
                proof {
                    assert(wrap_parts(rest, gl) =~= seq![rest]);
                    assert(part@ =~= rest);
                    vstd::seq_lib::lemma_seq_skip_index(full, k, 0);
                assert(full.skip(k)[0] == full[k]);
                    assert(full[k] == rest);
                    assert(full.skip(k).len() == full.len() - k);
                    assert(full.len() == k + 1);
                }
                parts.push(part);
                pos = s.len();
            } else {
                let part = copy_range(s, pos, pos + b);
                proof {
                    let tail = wrap_parts(rest.skip(b as int), gl);
                    assert(wrap_parts(rest, gl) =~= seq![rest.take(b as int)] + tail);
                    assert(part@ =~= rest.take(b as int));
                    vstd::seq_lib::lemma_seq_skip_index(full, k, 0);
                assert(full.skip(k)[0] == full[k]);
                    assert((seq![rest.take(b as int)] + tail)[0] == rest.take(b as int));
                    assert(full[k] == rest.take(b as int));
                    assert(rest.skip(b as int) =~= gs.skip(pos as int + b as int));
                    assert(full.skip(k).skip(1) =~= full.skip(k + 1));
                    assert((seq![rest.take(b as int)] + tail).skip(1) =~= tail);
                    assert(full.skip(k + 1) =~= wrap_parts(gs.skip(pos as int + b as int), gl));
                    lemma_wrap_count_pos(gs.skip(pos as int + b as int), gl);
                    assert(full.skip(k).len() == full.len() - k);
                }
                parts.push(part);
                pos = pos + b;
            }
        }
    }
    parts
}

} // verus!
