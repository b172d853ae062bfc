//! Extraction of a `<width>x<height>` key from a directory name.

use vstd::prelude::*;

verus! {

/// A picture resolution: a width and a height in pixels.
#[derive(Clone, Copy, Debug, PartialEq, Eq, Structural, Hash)]
pub struct Resolution {
    pub width: u64,
    pub height: u64,
}

/// Why a string holds no resolution.
#[derive(Clone, Copy, Debug, PartialEq, Eq, Structural)]
pub enum ParseError {
    /// No `<digits>x<digits>` substring occurs in the input.
    NoResolutionPattern,
    /// A digit group of the first match does not fit in a `u64`.
    IntegerOverflow,
}

pub open spec fn is_digit(c: char) -> bool {
    '0' <= c && c <= '9'
}

/// The end of the run of digits that starts at `i`: the first position at or
/// after `i` that holds no digit (or the length of `s`).
pub open spec fn run_end(s: Seq<char>, i: int) -> int
    decreases s.len() - i,
{
    if i < 0 || i >= s.len() || !is_digit(s[i]) {
        i
    } else {
        run_end(s, i + 1)
    }
}

/// Whether a `<digits>x<digits>` match starts at position `i` of `s`.
pub open spec fn match_at(s: Seq<char>, i: int) -> bool {
    0 <= i < s.len() && is_digit(s[i]) && run_end(s, i) + 1 < s.len()
        && s[run_end(s, i)] == 'x' && is_digit(s[run_end(s, i) + 1])
}

/// The leftmost position at or after `i` where a match starts.
pub open spec fn first_match_from(s: Seq<char>, i: int) -> Option<int>
    decreases s.len() - i,
{
    if i < 0 || i >= s.len() {
        None
    } else if match_at(s, i) {
        Some(i)
    } else {
        first_match_from(s, i + 1)
    }
}

/// The number that a sequence of decimal digits denotes.
pub open spec fn decimal_value(d: Seq<char>) -> nat
    decreases d.len(),
{
    if d.len() == 0 {
        0
    } else {
        decimal_value(d.drop_last()) * 10 + (d.last() as nat - '0' as nat) as nat
    }
}

/// The width digits of the match that starts at `i`.
pub open spec fn width_digits(s: Seq<char>, i: int) -> Seq<char> {
    s.subrange(i, run_end(s, i))
}

/// The height digits of the match that starts at `i`.
pub open spec fn height_digits(s: Seq<char>, i: int) -> Seq<char> {
    s.subrange(run_end(s, i) + 1, run_end(s, run_end(s, i) + 1))
}

/// What parsing `s` gives: the first `<digits>x<digits>` substring, read as
/// width and height.
pub open spec fn parse_spec(s: Seq<char>) -> Result<Resolution, ParseError> {
    match first_match_from(s, 0) {
        None => Err(ParseError::NoResolutionPattern),
        Some(i) => {
            let w = decimal_value(width_digits(s, i));
            let h = decimal_value(height_digits(s, i));
            if w > u64::MAX || h > u64::MAX {
                Err(ParseError::IntegerOverflow)
            } else {
                Ok(Resolution { width: w as u64, height: h as u64 })
            }
        },
    }
}

proof fn lemma_run_end_bounds(s: Seq<char>, i: int)
    requires
        0 <= i <= s.len(),
    ensures
        i <= run_end(s, i) <= s.len(),
        forall|k: int| i <= k < run_end(s, i) ==> is_digit(#[trigger] s[k]),
        run_end(s, i) < s.len() ==> !is_digit(s[run_end(s, i)]),
    decreases s.len() - i,
{
    if i < s.len() && is_digit(s[i]) {
        lemma_run_end_bounds(s, i + 1);
    }
}

/// Every position inside a run of digits has the same run end.
proof fn lemma_run_end_same(s: Seq<char>, i: int, k: int)
    requires
        0 <= i <= k < run_end(s, i),
    ensures
        run_end(s, k) == run_end(s, i),
    decreases k - i,
{
    if i < k {
        lemma_run_end_same(s, i + 1, k);
    }
}

/// Appending a digit multiplies the value by ten and adds the digit.
proof fn lemma_decimal_push(s: Seq<char>, i: int, j: int)
    requires
        0 <= i <= j < s.len(),
    ensures
        decimal_value(s.subrange(i, j + 1)) == decimal_value(s.subrange(i, j)) * 10
            + (s[j] as nat - '0' as nat) as nat,
{
    assert(s.subrange(i, j + 1).drop_last() =~= s.subrange(i, j));
}

/// A longer prefix of digits never denotes a smaller number.
proof fn lemma_decimal_monotone(s: Seq<char>, i: int, j: int, k: int)
    requires
        0 <= i <= j <= k <= s.len(),
    ensures
        decimal_value(s.subrange(i, j)) <= decimal_value(s.subrange(i, k)),
    decreases k - j,
{
    if j < k {
        lemma_decimal_monotone(s, i, j, k - 1);
        lemma_decimal_push(s, i, k - 1);
    }
}

/// Positions where no match starts can be skipped in the search.
proof fn lemma_skip_no_match(s: Seq<char>, a: int, b: int)
    requires
        0 <= a <= b <= s.len(),
        forall|k: int| a <= k < b ==> !match_at(s, k),
    ensures
        first_match_from(s, a) == first_match_from(s, b),
        b < s.len() && !match_at(s, b) ==> first_match_from(s, a) == first_match_from(s, b + 1),
    decreases b - a,
{
    if a < b {
        lemma_skip_no_match(s, a + 1, b);
    }
}

/// Reads the digits of `s` in `[from, to)` as a `u64`; `None` when the number
/// does not fit.
fn read_decimal(s: &str, from: usize, to: usize) -> (r: Option<u64>)
    requires
        from <= to <= s@.len(),
        forall|k: int| from <= k < to ==> is_digit(#[trigger] s@[k]),
    ensures
        r matches Some(v) ==> v as nat == decimal_value(s@.subrange(from as int, to as int)),
        r is None <==> decimal_value(s@.subrange(from as int, to as int)) > u64::MAX,
{
    let mut value: u64 = 0;
    let mut p: usize = from;
    assert(s@.subrange(from as int, from as int).len() == 0);
    while p < to
        invariant
            from <= p <= to <= s@.len(),
            forall|k: int| from <= k < to ==> is_digit(#[trigger] s@[k]),
            value as nat == decimal_value(s@.subrange(from as int, p as int)),
        decreases to - p,
    {
        let c = s.get_char(p);
        let d: u64 = (c as u32 - '0' as u32) as u64;
        proof {
            lemma_decimal_push(s@, from as int, p as int);
        }
        match value.checked_mul(10) {
            None => {
                proof {
                    lemma_decimal_monotone(s@, from as int, p as int + 1, to as int);
                }
                return None;
            },
            Some(m) => match m.checked_add(d) {
                None => {
                    proof {
                        lemma_decimal_monotone(s@, from as int, p as int + 1, to as int);
                    }
                    return None;
                },
                Some(v) => {
                    value = v;
                },
            },
        }
        p = p + 1;
    }
    Some(value)
}

/// The end of the run of digits of `s` that starts at `i`.
fn scan_digits(s: &str, len: usize, i: usize) -> (r: usize)
    requires
        len == s@.len(),
        i <= len,
    ensures
        r as int == run_end(s@, i as int),
{
    let mut j: usize = i;
    while j < len && is_ascii_digit(s.get_char(j))
        invariant
            i <= j <= len == s@.len(),
            run_end(s@, j as int) == run_end(s@, i as int),
        decreases len - j,
    {
        j = j + 1;
    }
    j
}

fn is_ascii_digit(c: char) -> (r: bool)
    ensures
        r == is_digit(c),
{
    '0' <= c && c <= '9'
}

impl Resolution {
    /// Finds the first `<digits>x<digits>` substring of `path` and reads its
    /// two digit groups as width and height.
    pub fn new(path: &str) -> (r: Result<Resolution, ParseError>)
        ensures
            r == parse_spec(path@),
    {
        let len = path.unicode_len();
        let mut i: usize = 0;
        while i < len
            invariant
                len == path@.len(),
                i <= len,
                first_match_from(path@, 0) == first_match_from(path@, i as int),
            decreases len - i,
        {
            if is_ascii_digit(path.get_char(i)) {
                let j = scan_digits(path, len, i);
                proof {
                    lemma_run_end_bounds(path@, i as int);
                }
                if j < len && len - j >= 2 && path.get_char(j) == 'x' && is_ascii_digit(path.get_char(j + 1)) {
                    let k = scan_digits(path, len, j + 1);
                    proof {
                        lemma_run_end_bounds(path@, j as int + 1);
                    }
                    let w = read_decimal(path, i, j);
                    let h = read_decimal(path, j + 1, k);
                    return match (w, h) {
                        (Some(width), Some(height)) => Ok(Resolution { width, height }),
                        _ => Err(ParseError::IntegerOverflow),
                    };
                }
                proof {
                    assert forall|k: int| i <= k < j implies !match_at(path@, k) by {
                        lemma_run_end_same(path@, i as int, k);
                    }
                    lemma_skip_no_match(path@, i as int, j as int);
                }
                i = if j < len { j + 1 } else { j };
            } else {
                i = i + 1;
            }
        }
        Err(ParseError::NoResolutionPattern)
    }
}

} // verus!
