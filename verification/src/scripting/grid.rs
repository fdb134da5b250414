//! Grid placement as scripts write it: `"2"`, `"-1"`, `"span 3"` or `"auto"`
//! for a single placement, and `"start / end"` for a line.

use vstd::prelude::*;

verus! {

/// Where an item goes on one grid axis.
#[derive(Clone, Copy, Debug, PartialEq, Eq, Structural)]
pub enum GridPlacement {
    /// Placed by the auto-placement algorithm.
    Auto,
    /// At a grid line (negative lines count from the end).
    Line(i16),
    /// Spanning this many tracks.
    Span(u16),
}

/// Whether a character has the Unicode `White_Space` property (what
/// `char::is_whitespace` tests).
pub open spec fn is_white_space(c: char) -> bool {
    ||| ('\u{9}' <= c && c <= '\u{d}')
    ||| c == ' '
    ||| c == '\u{85}'
    ||| c == '\u{a0}'
    ||| c == '\u{1680}'
    ||| ('\u{2000}' <= c && c <= '\u{200a}')
    ||| c == '\u{2028}'
    ||| c == '\u{2029}'
    ||| c == '\u{202f}'
    ||| c == '\u{205f}'
    ||| c == '\u{3000}'
}

/// `s` without its leading white space.
pub open spec fn trim_start(s: Seq<char>) -> Seq<char>
    decreases s.len(),
{
    if s.len() > 0 && is_white_space(s[0]) {
        trim_start(s.drop_first())
    } else {
        s
    }
}

/// `s` without its trailing white space.
pub open spec fn trim_end(s: Seq<char>) -> Seq<char>
    decreases s.len(),
{
    if s.len() > 0 && is_white_space(s.last()) {
        trim_end(s.drop_last())
    } else {
        s
    }
}

/// `s` without leading and trailing white space (`str::trim`).
pub open spec fn trimmed(s: Seq<char>) -> Seq<char> {
    trim_end(trim_start(s))
}

/// The word `span`.
pub open spec fn span_word() -> Seq<char> {
    seq!['s', 'p', 'a', 'n']
}

/// Whether `s` starts with `span`.
pub open spec fn starts_with_span(s: Seq<char>) -> bool {
    s.len() >= 4 && s.take(4) == span_word()
}

/// `s` with every leading `span` removed (`trim_start_matches("span")`).
pub open spec fn strip_spans(s: Seq<char>) -> Seq<char>
    decreases s.len(),
{
    if starts_with_span(s) {
        strip_spans(s.skip(4))
    } else {
        s
    }
}

/// Whether a character is an ASCII decimal digit.
pub open spec fn is_digit(c: char) -> bool {
    '0' <= c && c <= '9'
}

/// The number that a run of decimal digits writes, if every character is one.
pub open spec fn decimal_value(d: Seq<char>) -> Option<int>
    decreases d.len(),
{
    if d.len() == 0 {
        Some(0)
    } else {
        match decimal_value(d.drop_last()) {
            Some(v) => if is_digit(d.last()) {
                Some(10 * v + (d.last() as int - '0' as int))
            } else {
                None
            },
            None => None,
        }
    }
}

/// What `s.parse::<u16>()` reads: an optional `+`, then at least one digit,
/// with a value that fits.
pub open spec fn u16_of(s: Seq<char>) -> Option<u16> {
    let d = if s.len() > 0 && s[0] == '+' {
        s.drop_first()
    } else {
        s
    };
    if d.len() == 0 {
        None
    } else {
        match decimal_value(d) {
            Some(v) => if v <= 65535 {
                Some(v as u16)
            } else {
                None
            },
            None => None,
        }
    }
}

/// What `s.parse::<i16>()` reads: an optional sign, then at least one digit,
/// with a value that fits.
pub open spec fn i16_of(s: Seq<char>) -> Option<i16> {
    let signed = s.len() > 0 && (s[0] == '+' || s[0] == '-');
    let d = if signed {
        s.drop_first()
    } else {
        s
    };
    if d.len() == 0 {
        None
    } else {
        match decimal_value(d) {
            Some(v) => if signed && s[0] == '-' {
                if v <= 32768 {
                    Some((0 - v) as i16)
                } else {
                    None
                }
            } else if v <= 32767 {
                Some(v as i16)
            } else {
                None
            },
            None => None,
        }
    }
}

/// The placement that a script's text names: after trimming, `span` (any
/// number of times) and a count (1 when the count is unreadable), a line
/// number, or auto placement for anything else.
pub open spec fn grid_placement_of(s: Seq<char>) -> GridPlacement {
    let t = trimmed(s);
    if starts_with_span(t) {
        match u16_of(trimmed(strip_spans(t))) {
            Some(v) => GridPlacement::Span(v),
            None => GridPlacement::Span(1),
        }
    } else {
        match i16_of(t) {
            Some(v) => GridPlacement::Line(v),
            None => GridPlacement::Auto,
        }
    }
}

/// The length of the longest prefix of `s` without a `/`.
pub open spec fn before_slash(s: Seq<char>) -> nat
    decreases s.len(),
{
    if s.len() == 0 || s[0] == '/' {
        0
    } else {
        1 + before_slash(s.drop_first())
    }
}

/// The start and end placements that a script's line text names: the first
/// two `/`-separated parts when there is a `/`, else the whole text and
/// auto placement.
pub open spec fn grid_line_of(s: Seq<char>) -> (GridPlacement, GridPlacement) {
    let k = before_slash(s);
    if k < s.len() {
        let rest = s.skip(k + 1int);
        (grid_placement_of(s.take(k as int)), grid_placement_of(rest.take(before_slash(rest) as int)))
    } else {
        (grid_placement_of(s), GridPlacement::Auto)
    }
}

/// Whether `c` is white space.
fn is_ws(c: char) -> (r: bool)
    ensures
        r == is_white_space(c),
{
    ('\u{9}' <= c && c <= '\u{d}') || c == ' ' || c == '\u{85}' || c == '\u{a0}' || c == '\u{1680}' || ('\u{2000}' <= c
        && c <= '\u{200a}') || c == '\u{2028}' || c == '\u{2029}' || c == '\u{202f}' || c == '\u{205f}' || c == '\u{3000}'
}

/// The range of `s[lo..hi]` (in characters) without its leading and trailing
/// white space.
fn trim_range(s: &str, lo: usize, hi: usize) -> (r: (usize, usize))
    requires
        lo <= hi <= s@.len(),
    ensures
        lo <= r.0 <= r.1 <= hi,
        s@.subrange(r.0 as int, r.1 as int) == trimmed(s@.subrange(lo as int, hi as int)),
{
    let mut i = lo;
    while i < hi && is_ws(s.get_char(i))
        invariant
            lo <= i <= hi <= s@.len(),
            trim_start(s@.subrange(lo as int, hi as int)) == trim_start(s@.subrange(i as int, hi as int)),
        decreases hi - i,
    {
        proof {
            assert(s@.subrange(i as int, hi as int).drop_first() =~= s@.subrange(i + 1, hi as int));
        }
        i += 1;
    }
    let mut j = hi;
    while j > i && is_ws(s.get_char(j - 1))
        invariant
            lo <= i <= j <= hi <= s@.len(),
            trim_end(s@.subrange(i as int, hi as int)) == trim_end(s@.subrange(i as int, j as int)),
        decreases j - i,
    {
        proof {
            assert(s@.subrange(i as int, j as int).drop_last() =~= s@.subrange(i as int, j - 1));
        }
        j -= 1;
    }
    (i, j)
}

/// Digits read so far only grow.
proof fn lemma_decimal_prefix(d: Seq<char>, k: int)
    requires
        decimal_value(d) is Some,
        0 <= k <= d.len(),
    ensures
        decimal_value(d.take(k)) is Some,
        decimal_value(d.take(k)).unwrap() <= decimal_value(d).unwrap(),
        0 <= decimal_value(d).unwrap(),
        forall|i: int| 0 <= i < d.len() ==> is_digit(#[trigger] d[i]),
    decreases d.len(),
{
    if d.len() == 0 {
        assert(d.take(k) =~= d);
    } else {
        lemma_decimal_prefix(d.drop_last(), if k < d.len() { k } else { d.len() - 1 });
        if k == d.len() {
            assert(d.take(k) =~= d);
        } else {
            assert(d.drop_last().take(k) =~= d.take(k));
        }
        assert forall|i: int| 0 <= i < d.len() implies is_digit(#[trigger] d[i]) by {
            if i < d.len() - 1 {
                assert(d.drop_last()[i] == d[i]);
            }
        }
    }
}

/// Reads the digits `s[lo..hi]` as a number of at most `bound`.
fn decimal_range(s: &str, lo: usize, hi: usize, bound: u32) -> (r: Option<u32>)
    requires
        lo <= hi <= s@.len(),
        bound <= 65535,
    ensures
        match r {
            Some(v) => decimal_value(s@.subrange(lo as int, hi as int)) == Some(v as int) && v <= bound,
            None => decimal_value(s@.subrange(lo as int, hi as int)) is None || decimal_value(
                s@.subrange(lo as int, hi as int),
            ).unwrap() > bound,
        },
{
    let ghost d = s@.subrange(lo as int, hi as int);
    let mut acc: u32 = 0;
    let mut i = lo;
    proof {
        assert(s@.subrange(lo as int, lo as int) =~= Seq::<char>::empty());
    }
    while i < hi
        invariant
            lo <= i <= hi <= s@.len(),
            bound <= 65535,
            d == s@.subrange(lo as int, hi as int),
            acc <= bound,
            decimal_value(s@.subrange(lo as int, i as int)) == Some(acc as int),
        decreases hi - i,
    {
        let c = s.get_char(i);
        let ghost p1 = s@.subrange(lo as int, i + 1);
        proof {
            assert(p1.drop_last() =~= s@.subrange(lo as int, i as int));
            assert(p1.last() == c);
            assert(d.take(i + 1 - lo) =~= p1);
        }
        if !('0' <= c && c <= '9') {
            proof {
                if decimal_value(d) is Some {
                    lemma_decimal_prefix(d, i - lo);
                    assert(d[i - lo] == c);
                }
            }
            return None;
        }
        let next = acc * 10 + (c as u32 - '0' as u32);
        if next > bound {
            proof {
                if decimal_value(d) is Some {
                    lemma_decimal_prefix(d, i + 1 - lo);
                }
            }
            return None;
        }
        acc = next;
        i += 1;
    }
    Some(acc)
}

/// Reads `s[lo..hi]` as `parse::<u16>` does.
fn u16_range(s: &str, lo: usize, hi: usize) -> (r: Option<u16>)
    requires
        lo <= hi <= s@.len(),
    ensures
        r == u16_of(s@.subrange(lo as int, hi as int)),
{
    let ghost t = s@.subrange(lo as int, hi as int);
    let start = if lo < hi && s.get_char(lo) == '+' {
        lo + 1
    } else {
        lo
    };
    proof {
        if lo < hi && t[0] == '+' {
            assert(t.drop_first() =~= s@.subrange(start as int, hi as int));
        } else {
            assert(t =~= s@.subrange(start as int, hi as int));
        }
    }
    if start == hi {
        return None;
    }
    match decimal_range(s, start, hi, 65535) {
        Some(v) => Some(v as u16),
        None => None,
    }
}

/// Reads `s[lo..hi]` as `parse::<i16>` does.
fn i16_range(s: &str, lo: usize, hi: usize) -> (r: Option<i16>)
    requires
        lo <= hi <= s@.len(),
    ensures
        r == i16_of(s@.subrange(lo as int, hi as int)),
{
    let ghost t = s@.subrange(lo as int, hi as int);
    let first = if lo < hi {
        s.get_char(lo)
    } else {
        ' '
    };
    let signed = lo < hi && (first == '+' || first == '-');
    let negative = signed && first == '-';
    let start = if signed {
        lo + 1
    } else {
        lo
    };
    proof {
        if signed {
            assert(t.drop_first() =~= s@.subrange(start as int, hi as int));
        } else {
            assert(t =~= s@.subrange(start as int, hi as int));
        }
    }
    if start == hi {
        return None;
    }
    let bound: u32 = if negative {
        32768
    } else {
        32767
    };
    match decimal_range(s, start, hi, bound) {
        Some(v) => {
            let x = v as i32;
            if negative {
                Some((0 - x) as i16)
            } else {
                Some(x as i16)
            }
        },
        None => None,
    }
}

/// The start of `s[lo..hi]` after every leading `span`.
fn strip_spans_range(s: &str, lo: usize, hi: usize) -> (r: usize)
    requires
        lo <= hi <= s@.len(),
    ensures
        lo <= r <= hi,
        s@.subrange(r as int, hi as int) == strip_spans(s@.subrange(lo as int, hi as int)),
{
    let mut i = lo;
    while span_at(s, i, hi)
        invariant
            lo <= i <= hi <= s@.len(),
            strip_spans(s@.subrange(lo as int, hi as int)) == strip_spans(s@.subrange(i as int, hi as int)),
        decreases hi - i,
    {
        proof {
            assert(s@.subrange(i as int, hi as int).skip(4) =~= s@.subrange(i + 4, hi as int));
        }
        i += 4;
    }
    i
}

/// Whether `s[i..hi]` starts with `span`.
fn span_at(s: &str, i: usize, hi: usize) -> (r: bool)
    requires
        i <= hi <= s@.len(),
    ensures
        r == starts_with_span(s@.subrange(i as int, hi as int)),
        r ==> i + 4 <= hi,
{
    let ghost t = s@.subrange(i as int, hi as int);
    if hi - i < 4 {
        return false;
    }
    let r = s.get_char(i) == 's' && s.get_char(i + 1) == 'p' && s.get_char(i + 2) == 'a' && s.get_char(i + 3) == 'n';
    proof {
        if r {
            assert(t.take(4) =~= span_word());
        } else {
            if t.take(4) == span_word() {
                assert(t.take(4)[0] == 's' && t.take(4)[1] == 'p' && t.take(4)[2] == 'a' && t.take(4)[3] == 'n');
            }
        }
    }
    r
}

/// The placement that `s[lo..hi]` names.
fn placement_range(s: &str, lo: usize, hi: usize) -> (r: GridPlacement)
    requires
        lo <= hi <= s@.len(),
    ensures
        r == grid_placement_of(s@.subrange(lo as int, hi as int)),
{
    let (a, b) = trim_range(s, lo, hi);
    if span_at(s, a, b) {
        let c = strip_spans_range(s, a, b);
        let (d, e) = trim_range(s, c, b);
        match u16_range(s, d, e) {
            Some(v) => GridPlacement::Span(v),
            None => GridPlacement::Span(1),
        }
    } else {
        match i16_range(s, a, b) {
            Some(v) => GridPlacement::Line(v),
            None => GridPlacement::Auto,
        }
    }
}

/// The index of the first `/` in `s[lo..hi]`, or `hi`.
fn slash_at(s: &str, lo: usize, hi: usize) -> (r: usize)
    requires
        lo <= hi <= s@.len(),
    ensures
        lo <= r <= hi,
        r == lo + before_slash(s@.subrange(lo as int, hi as int)),
{
    let mut i = lo;
    while i < hi && s.get_char(i) != '/'
        invariant
            lo <= i <= hi <= s@.len(),
            before_slash(s@.subrange(lo as int, hi as int)) == (i - lo) + before_slash(s@.subrange(i as int, hi as int)),
        decreases hi - i,
    {
        proof {
            assert(s@.subrange(i as int, hi as int).drop_first() =~= s@.subrange(i + 1, hi as int));
        }
        i += 1;
    }
    i
}

/// Reads a grid placement (`"2"`, `"-1"`, `"span 3"`, `"auto"`).
pub fn parse_grid_placement(s: &str) -> (r: GridPlacement)
    ensures
        r == grid_placement_of(s@),
{
    let n = s.unicode_len();
    proof {
        assert(s@.subrange(0, n as int) =~= s@);
    }
    placement_range(s, 0, n)
}

/// Reads a grid line (`"1 / 3"`, `"span 2"`): its start and end placements.
pub fn parse_grid_line(s: &str) -> (r: (GridPlacement, GridPlacement))
    ensures
        r == grid_line_of(s@),
{
    let n = s.unicode_len();
    proof {
        assert(s@.subrange(0, n as int) =~= s@);
    }
    let k = slash_at(s, 0, n);
    if k < n {
        let e = slash_at(s, k + 1, n);
        proof {
            assert(s@.take(k as int) =~= s@.subrange(0, k as int));
            let rest = s@.skip(k + 1);
            assert(rest =~= s@.subrange(k + 1, n as int));
            assert(rest.take(before_slash(rest) as int) =~= s@.subrange(k + 1, e as int));
        }
        (placement_range(s, 0, k), placement_range(s, k + 1, e))
    } else {
        (placement_range(s, 0, n), GridPlacement::Auto)
    }
}

} // verus!
