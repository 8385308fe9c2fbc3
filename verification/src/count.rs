use vstd::prelude::*;
use crate::rng::rng_range;
use crate::text::push_char;

verus! {

/// A count of text units: either an exact number or an inclusive range
/// from which a fresh value is drawn each time the count is resolved.
#[derive(Clone, Copy, PartialEq, Eq, Structural)]
pub enum UnitCount {
    Num(usize),
    Range(usize, usize),
}

impl UnitCount {
    /// A range is only meaningful when its lower bound does not exceed its
    /// upper bound; exact counts are always well formed.
    pub open spec fn wf(self) -> bool {
        match self {
            UnitCount::Num(_) => true,
            UnitCount::Range(lo, hi) => lo <= hi,
        }
    }

    /// The values a resolution of this count may take: exactly the number
    /// for `Num`, anything between the bounds for `Range`.
    pub open spec fn allows(self, n: int) -> bool {
        match self {
            UnitCount::Num(k) => n == k,
            UnitCount::Range(lo, hi) => lo <= n <= hi,
        }
    }

    /// Resolve the count to a concrete number, drawing fresh randomness
    /// from the given stream for a range.
    pub fn resolve(&self, rng: &mut rand::rngs::ThreadRng) -> (n: usize)
        requires
            self.wf(),
        ensures
            self.allows(n as int),
    {
        match self {
            UnitCount::Num(k) => *k,
            UnitCount::Range(lo, hi) => rng_range(rng, *lo, *hi),
        }
    }

    /// The textual form of the count: the number, or `lo..hi`.
    pub open spec fn render_spec(self) -> Seq<char> {
        match self {
            UnitCount::Num(n) => dec_digits(n as nat),
            UnitCount::Range(lo, hi) => dec_digits(lo as nat) + seq!['.', '.'] + dec_digits(
                hi as nat,
            ),
        }
    }

    /// Render the count as text.
    pub fn render(&self) -> (r: String)
        ensures
            r@ == self.render_spec(),
    {
        let mut out = String::new();
        match self {
            UnitCount::Num(n) => {
                push_decimal(&mut out, *n);
            },
            UnitCount::Range(lo, hi) => {
                push_decimal(&mut out, *lo);
                push_char(&mut out, '.');
                push_char(&mut out, '.');
                push_decimal(&mut out, *hi);
                assert(out@ =~= dec_digits(*lo as nat) + seq!['.', '.'] + dec_digits(*hi as nat));
            },
        }
        out
    }
}

// --------------------------------------------------------------------------
// Decimal digits
// --------------------------------------------------------------------------

pub open spec fn digit_char(d: nat) -> char {
    (((d + 48) as u8) as char)
}

/// The decimal digits of n, most significant first.
pub open spec fn dec_digits(n: nat) -> Seq<char>
    decreases n,
{
    if n < 10 {
        seq![digit_char(n)]
    } else {
        dec_digits(n / 10).push(digit_char(n % 10))
    }
}

/// Append the decimal form of n to the string.
pub fn push_decimal(out: &mut String, n: usize)
    ensures
        final(out)@ == old(out)@ + dec_digits(n as nat),
    decreases n,
{
    if n >= 10 {
        push_decimal(out, n / 10);
    }
    let d: u8 = (n % 10) as u8 + 48;
    push_char(out, d as char);
    proof {
        if n < 10 {
            assert(out@ =~= old(out)@ + dec_digits(n as nat));
        } else {
            assert(out@ =~= old(out)@ + dec_digits(n as nat));
        }
    }
}

// --------------------------------------------------------------------------
// Parsing
// --------------------------------------------------------------------------

pub open spec fn is_digit(c: char) -> bool {
    '0' <= c && c <= '9'
}

pub open spec fn all_digits(s: Seq<char>) -> bool {
    forall|i: int| 0 <= i < s.len() ==> is_digit(#[trigger] s[i])
}

/// The numeric value of a digit string, most significant first.
pub open spec fn digits_val(s: Seq<char>) -> int
    decreases s.len(),
{
    if s.len() == 0 {
        0
    } else {
        digits_val(s.drop_last()) * 10 + ((s.last() as u32) - 48)
    }
}

/// What str::parse::<usize> accepts: an optional plus sign, then one or
/// more decimal digits, with a value that fits the type.
pub open spec fn parse_usize_spec(s: Seq<char>) -> Option<usize> {
    let t = if s.len() > 0 && s[0] == '+' {
        s.skip(1)
    } else {
        s
    };
    if t.len() > 0 && all_digits(t) && digits_val(t) <= usize::MAX {
        Some(digits_val(t) as usize)
    } else {
        None
    }
}

proof fn lemma_digits_val_bounds(s: Seq<char>)
    requires
        all_digits(s),
    ensures
        digits_val(s) >= 0,
    decreases s.len(),
{
    if s.len() > 0 {
        lemma_digits_val_bounds(s.drop_last());
    }
}

/// The value of a digit string is at least the value of any prefix.
proof fn lemma_digits_val_mono(s: Seq<char>, j: int)
    requires
        all_digits(s),
        0 <= j <= s.len(),
    ensures
        digits_val(s) >= digits_val(s.take(j)),
    decreases s.len(),
{
    lemma_digits_val_bounds(s);
    if j == s.len() {
        assert(s.take(j) =~= s);
    } else {
        let d = s.drop_last();
        assert(all_digits(d));
        assert(d.take(j) =~= s.take(j));
        lemma_digits_val_mono(d, j);
        lemma_digits_val_bounds(d);
    }
}

/// Parse a usize as str::parse does.
pub fn parse_usize(s: &str) -> (r: Option<usize>)
    ensures
        r == parse_usize_spec(s@),
{
    let n = s.unicode_len();
    let start: usize = if n > 0 && s.get_char(0) == '+' {
        1
    } else {
        0
    };
    let ghost t = if s@.len() > 0 && s@[0] == '+' {
        s@.skip(1)
    } else {
        s@
    };
    assert(t =~= s@.subrange(start as int, n as int));
    if start == n {
        return None;
    }
    let mut acc: usize = 0;
    let mut k: usize = start;
    while k < n
        invariant
            n == s@.len(),
            start <= k <= n,
            start < n,
            t == s@.subrange(start as int, n as int),
            t == (if s@.len() > 0 && s@[0] == '+' {
                s@.skip(1)
            } else {
                s@
            }),
            all_digits(t.take(k - start)),
            acc == digits_val(t.take(k - start)),
        decreases n - k,
    {
        let c = s.get_char(k);
        if !('0' <= c && c <= '9') {
            assert(t[k - start] == c && !is_digit(c));
            return None;
        }
        let d: usize = ((c as u32) - 48) as usize;
        if acc > (usize::MAX - d) / 10 {
            proof {
                let pre = t.take(k - start + 1);
                assert(pre.drop_last() =~= t.take(k - start));
                assert(pre.last() == c);
                assert(digits_val(pre) == acc * 10 + d);
                assert(acc >= (usize::MAX - d) / 10 + 1);
                assert(acc * 10 >= ((usize::MAX - d) / 10 + 1) * 10) by (nonlinear_arith)
                    requires
                        acc >= (usize::MAX - d) / 10 + 1,
                ;
                assert(((usize::MAX - d) / 10) * 10 + 10 > usize::MAX - d) by (nonlinear_arith);
                assert(digits_val(pre) > usize::MAX);
                if all_digits(t) {
                    lemma_digits_val_mono(t, k - start + 1);
                }
            }
            return None;
        }
        proof {
            assert(acc <= (usize::MAX - d) / 10);
            assert(acc * 10 <= ((usize::MAX - d) / 10) * 10) by (nonlinear_arith)
                requires
                    acc <= (usize::MAX - d) / 10,
            ;
            assert(((usize::MAX - d) / 10) * 10 <= usize::MAX - d) by (nonlinear_arith);
            let pre = t.take(k - start + 1);
            assert(pre.drop_last() =~= t.take(k - start));
            assert(pre.last() == c);
        }
        acc = acc * 10 + d;
        k = k + 1;
    }
    proof {
        assert(t.take(n - start) =~= t);
        lemma_digits_val_bounds(t);
    }
    Some(acc)
}

// --------------------------------------------------------------------------
// The `N` / `lo..hi` form
// --------------------------------------------------------------------------

/// The position of the first `..` separator, if any.
pub open spec fn first_sep(s: Seq<char>) -> Option<int>
    decreases s.len(),
{
    if s.len() < 2 {
        None
    } else if s[0] == '.' && s[1] == '.' {
        Some(0int)
    } else {
        match first_sep(s.skip(1)) {
            Option::None => None,
            Option::Some(i) => Some(i + 1),
        }
    }
}

proof fn lemma_first_sep_at(s: Seq<char>, i: int)
    requires
        0 <= i,
        i + 2 <= s.len(),
        forall|k: int| 0 <= k < i ==> !((#[trigger] s[k]) == '.' && s[k + 1] == '.'),
        s[i] == '.' && s[i + 1] == '.',
    ensures
        first_sep(s) == Some(i),
    decreases i,
{
    if i > 0 {
        lemma_first_sep_at(s.skip(1), i - 1);
    }
}

proof fn lemma_first_sep_none(s: Seq<char>)
    requires
        forall|k: int| 0 <= k < s.len() - 1 ==> !((#[trigger] s[k]) == '.' && s[k + 1] == '.'),
    ensures
        first_sep(s) == Option::<int>::None,
    decreases s.len(),
{
    if s.len() >= 2 {
        lemma_first_sep_none(s.skip(1));
    }
}

/// Find the first `..` separator.
fn find_sep(s: &str) -> (r: Option<usize>)
    ensures
        match r {
            Option::None => first_sep(s@) is None,
            Option::Some(i) => first_sep(s@) == Some(i as int) && i + 2 <= s@.len(),
        },
{
    let n = s.unicode_len();
    if n < 2 {
        proof {
            lemma_first_sep_none(s@);
        }
        return None;
    }
    let mut i: usize = 0;
    while i < n - 1
        invariant
            n == s@.len(),
            2 <= n,
            0 <= i <= n - 1,
            forall|k: int| 0 <= k < i ==> !((#[trigger] s@[k]) == '.' && s@[k + 1] == '.'),
        decreases n - i,
    {
        if s.get_char(i) == '.' && s.get_char(i + 1) == '.' {
            proof {
                lemma_first_sep_at(s@, i as int);
            }
            return Some(i);
        }
        i = i + 1;
    }
    proof {
        lemma_first_sep_none(s@);
    }
    None
}

/// A value parser for counts written as `N` or `lo..hi`.
#[derive(Clone, Copy)]
pub struct UnitCountParser;

impl UnitCountParser {
    /// The grammar: a bare number is an exact count; `lo..hi` with
    /// `lo <= hi` is a range; anything else is rejected.
    pub open spec fn parse_spec(s: Seq<char>) -> Option<UnitCount> {
        match first_sep(s) {
            Option::None => match parse_usize_spec(s) {
                Option::Some(n) => Some(UnitCount::Num(n)),
                Option::None => None,
            },
            Option::Some(i) => {
                let a = s.take(i);
                let b = s.skip(i + 2);
                if first_sep(b) is Some {
                    None
                } else {
                    match (parse_usize_spec(a), parse_usize_spec(b)) {
                        (Option::Some(lo), Option::Some(hi)) => if lo <= hi {
                            Some(UnitCount::Range(lo, hi))
                        } else {
                            None
                        },
                        _ => None,
                    }
                }
            },
        }
    }

    /// Parse a count, rejecting malformed numbers, inverted ranges and
    /// text with more than one `..` separator.
    pub fn parse(&self, value: &str) -> (r: Option<UnitCount>)
        ensures
            r == Self::parse_spec(value@),
            r matches Some(c) ==> c.wf(),
    {
        let n = value.unicode_len();
        match find_sep(value) {
            Option::None => {
                match parse_usize(value) {
                    Option::Some(num) => Some(UnitCount::Num(num)),
                    Option::None => None,
                }
            },
            Option::Some(i) => {
                let a = value.substring_char(0, i);
                let b = value.substring_char(i + 2, n);
                proof {
                    assert(a@ =~= value@.take(i as int));
                    assert(b@ =~= value@.skip(i + 2));
                }
                if find_sep(b).is_some() {
                    return None;
                }
                let lo = match parse_usize(a) {
                    Option::Some(lo) => lo,
                    Option::None => {
                        return None;
                    },
                };
                let hi = match parse_usize(b) {
                    Option::Some(hi) => hi,
                    Option::None => {
                        return None;
                    },
                };
                if lo <= hi {
                    Some(UnitCount::Range(lo, hi))
                } else {
                    None
                }
            },
        }
    }
}

} // verus!
