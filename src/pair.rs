//! Parsing of two values joined by a separator, such as `1920x1080` or
//! `-1.5,0.25`.
use vstd::prelude::*;

verus! {

/// A decimal digit `0` to `9`.
pub open spec fn is_digit(c: char) -> bool {
    '0' <= c && c <= '9'
}

/// A non-empty run of decimal digits.
pub open spec fn is_digit_run(s: Seq<char>) -> bool {
    s.len() > 0 && forall|i: int| 0 <= i < s.len() ==> is_digit(#[trigger] s[i])
}

/// The value of a run of decimal digits, most significant first.
pub open spec fn digit_run_value(s: Seq<char>) -> int
    decreases s.len(),
{
    if s.len() == 0 {
        0
    } else {
        digit_run_value(s.drop_last()) * 10 + (s.last() as int - '0' as int)
    }
}

/// The integer written by an optional `+` or `-` sign followed by digits,
/// with nothing before or after.
pub open spec fn signed_decimal(s: Seq<char>) -> Option<int> {
    if s.len() > 0 && s[0] == '-' && is_digit_run(s.skip(1)) {
        Some(-digit_run_value(s.skip(1)))
    } else if s.len() > 0 && s[0] == '+' && is_digit_run(s.skip(1)) {
        Some(digit_run_value(s.skip(1)))
    } else if is_digit_run(s) {
        Some(digit_run_value(s))
    } else {
        None
    }
}

/// The integer written by an optional `+` sign followed by digits, with
/// nothing before or after.
pub open spec fn unsigned_decimal(s: Seq<char>) -> Option<int> {
    if s.len() > 0 && s[0] == '+' && is_digit_run(s.skip(1)) {
        Some(digit_run_value(s.skip(1)))
    } else if is_digit_run(s) {
        Some(digit_run_value(s))
    } else {
        None
    }
}

/// The `i32` that `s` denotes, if it is a signed decimal in range.
pub open spec fn decimal_i32(s: Seq<char>) -> Option<i32> {
    match signed_decimal(s) {
        Some(v) => if i32::MIN <= v <= i32::MAX {
            Some(v as i32)
        } else {
            None
        },
        None => None,
    }
}

/// The `usize` that `s` denotes, if it is an unsigned decimal in range.
pub open spec fn decimal_usize(s: Seq<char>) -> Option<usize> {
    match unsigned_decimal(s) {
        Some(v) => if v <= usize::MAX {
            Some(v as usize)
        } else {
            None
        },
        None => None,
    }
}

/// Relies on `<i32 as FromStr>::from_str`: an optional `+` or `-` sign
/// followed by decimal digits only, whose value fits in `i32`.
#[verifier::external_body]
fn parse_i32(s: &str) -> (r: Option<i32>)
    ensures
        r == decimal_i32(s@),
{
    s.parse::<i32>().ok()
}

/// Relies on `<usize as FromStr>::from_str`: an optional `+` sign followed
/// by decimal digits only, whose value fits in `usize`.
#[verifier::external_body]
fn parse_usize(s: &str) -> (r: Option<usize>)
    ensures
        r == decimal_usize(s@),
{
    s.parse::<usize>().ok()
}

/// Relies on `str::split_once`: the text before and after the first
/// occurrence of `sep`, or nothing when `sep` does not occur.
#[verifier::external_body]
fn split_first<'a>(s: &'a str, sep: char) -> (r: Option<(&'a str, &'a str)>)
    ensures
        r is None <==> !s@.contains(sep),
        r matches Some((a, b)) ==> s@ == a@ + seq![sep] + b@ && !a@.contains(sep),
{
    s.split_once(sep)
}

/// A type that one side of a pair can be parsed into.
pub trait PairPart: View + Sized {
    /// The value, as a view, that the text `s` denotes, if any.
    spec fn parsed(s: Seq<char>) -> Option<Self::V>;

    /// Parses the whole of `s`.
    fn parse_part(s: &str) -> (r: Option<Self>)
        ensures
            match r {
                Some(v) => Self::parsed(s@) == Some(v@),
                None => Self::parsed(s@) is None,
            },
    ;
}

impl PairPart for i32 {
    open spec fn parsed(s: Seq<char>) -> Option<i32> {
        decimal_i32(s)
    }

    fn parse_part(s: &str) -> (r: Option<i32>) {
        parse_i32(s)
    }
}

impl PairPart for usize {
    open spec fn parsed(s: Seq<char>) -> Option<usize> {
        decimal_usize(s)
    }

    fn parse_part(s: &str) -> (r: Option<usize>) {
        parse_usize(s)
    }
}

impl PairPart for String {
    open spec fn parsed(s: Seq<char>) -> Option<Seq<char>> {
        Some(s)
    }

    fn parse_part(s: &str) -> (r: Option<String>) {
        Some(s.to_owned())
    }
}

/// The position of the first occurrence of `sep` in `s`, where it occurs.
pub open spec fn first_index_of(s: Seq<char>, sep: char) -> int {
    choose|k: int| 0 <= k < s.len() && s[k] == sep && !s.take(k).contains(sep)
}

/// The text before and after the first occurrence of `sep` in `s`.
pub open spec fn split_at_first(s: Seq<char>, sep: char) -> Option<(Seq<char>, Seq<char>)> {
    if s.contains(sep) {
        let k = first_index_of(s, sep);
        Some((s.take(k), s.skip(k + 1)))
    } else {
        None
    }
}

/// What `parse_pair` yields on `s`: both sides of the first `sep`, each
/// parsed whole; nothing when `sep` is absent or either side fails.
pub open spec fn pair_parsed<T: PairPart>(s: Seq<char>, sep: char) -> Option<(T::V, T::V)> {
    match split_at_first(s, sep) {
        Some((a, b)) => match (T::parsed(a), T::parsed(b)) {
            (Some(x), Some(y)) => Some((x, y)),
            _ => None,
        },
        None => None,
    }
}

/// The view of an optional pair.
pub open spec fn pair_view<T: View>(r: Option<(T, T)>) -> Option<(T::V, T::V)> {
    match r {
        Some((x, y)) => Some((x@, y@)),
        None => None,
    }
}

/// Splits `s` at the first `separator` and parses the text on each side.
pub fn parse_pair<T: PairPart>(s: &str, separator: char) -> (r: Option<(T, T)>)
    ensures
        pair_view(r) == pair_parsed::<T>(s@, separator),
{
    match split_first(s, separator) {
        None => None,
        Some((left, right)) => {
            proof {
                let k = left@.len() as int;
                assert(s@.take(k) == left@);
                assert(s@.skip(k + 1) == right@);
                assert(s@[k] == separator);
                assert(s@.contains(separator));
                assert(0 <= k < s@.len() && s@[k] == separator && !s@.take(k).contains(separator));
                let j = first_index_of(s@, separator);
                if j < k {
                    assert(left@[j] == separator);
                }
                if k < j {
                    assert(s@.take(j)[k] == separator);
                }
                assert(j == k);
                assert(split_at_first(s@, separator) == Some((left@, right@)));
            }
            match (T::parse_part(left), T::parse_part(right)) {
                (Some(x), Some(y)) => Some((x, y)),
                _ => None,
            }
        },
    }
}

} // verus!
