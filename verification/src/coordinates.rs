//! Positions written as degrees and minutes, such as `53° 5,020'`, read into
//! millionths of a degree.

use vstd::prelude::*;

verus! {

/// Why a text is not a position.
#[derive(Debug, Clone, Copy, PartialEq, Eq, Structural)]
pub enum CoordinateError {
    /// The text does not hold exactly one degree sign.
    InvalidFormat,
    /// A number in the text is not a decimal number of at most
    /// [`MAX_WHOLE`] before the decimal point.
    InvalidNumber,
}

/// The degree sign that parts degrees from minutes.
pub const DEGREE_SIGN: char = '\u{b0}';

/// Number of millionths in one.
pub const MICRO: i64 = 1_000_000;

/// Largest whole part of a number in a position.
pub const MAX_WHOLE: i64 = 1_000_000_000;

/// Minutes in a degree, and seconds in a minute.
pub const SIXTY: i64 = 60;

/// The kinds of character that are stripped from the ends of a text.
#[derive(Debug, Clone, Copy, PartialEq, Eq, Structural)]
pub enum Strip {
    /// White space.
    Spaces,
    /// The double quote.
    Quotes,
    /// The single quote that marks minutes and seconds.
    Ticks,
}

/// Whether a character is white space.
pub open spec fn is_space(c: char) -> bool {
    let code = c as u32;
    ||| 0x09 <= code <= 0x0D
    ||| code == 0x20
    ||| code == 0x85
    ||| code == 0xA0
    ||| code == 0x1680
    ||| 0x2000 <= code <= 0x200A
    ||| code == 0x2028
    ||| code == 0x2029
    ||| code == 0x202F
    ||| code == 0x205F
    ||| code == 0x3000
}

/// Whether a character is of the kind that `what` strips.
pub open spec fn stripped(what: Strip, c: char) -> bool {
    match what {
        Strip::Spaces => is_space(c),
        Strip::Quotes => c == '"',
        Strip::Ticks => c == '\'',
    }
}

/// A text without the characters of one kind at its beginning.
pub open spec fn strip_front(text: Seq<char>, what: Strip) -> Seq<char>
    decreases text.len(),
{
    if text.len() > 0 && stripped(what, text.first()) {
        strip_front(text.drop_first(), what)
    } else {
        text
    }
}

/// A text without the characters of one kind at its end.
pub open spec fn strip_back(text: Seq<char>, what: Strip) -> Seq<char>
    decreases text.len(),
{
    if text.len() > 0 && stripped(what, text.last()) {
        strip_back(text.drop_last(), what)
    } else {
        text
    }
}

/// A text without the characters of one kind at either end.
pub open spec fn strip(text: Seq<char>, what: Strip) -> Seq<char> {
    strip_back(strip_front(text, what), what)
}

/// The position of the first character of `text` that is `c`, or the length
/// of `text` where there is none.
pub open spec fn index_of(text: Seq<char>, c: char) -> int
    decreases text.len(),
{
    if text.len() == 0 || text.first() == c {
        0
    } else {
        1 + index_of(text.drop_first(), c)
    }
}

/// Whether a character is a decimal digit.
pub open spec fn is_digit(c: char) -> bool {
    '0' <= c <= '9'
}

/// Whether every character of a text is a decimal digit.
pub open spec fn all_digits(text: Seq<char>) -> bool {
    forall|i: int| 0 <= i < text.len() ==> is_digit(#[trigger] text[i])
}

/// The value of a decimal digit.
pub open spec fn digit_value(c: char) -> int {
    c as u32 as int - '0' as u32 as int
}

/// The number that a text of decimal digits writes.
pub open spec fn number(digits: Seq<char>) -> int
    decreases digits.len(),
{
    if digits.len() == 0 {
        0
    } else {
        number(digits.drop_last()) * 10 + digit_value(digits.last())
    }
}

/// The value of the digits after a decimal point, where the first digit
/// counts `weight`, the next a tenth of that, and so on until the weight is
/// used up.
pub open spec fn fraction(digits: Seq<char>, weight: int) -> int
    decreases digits.len(),
{
    if digits.len() == 0 || weight <= 0 {
        0
    } else {
        digit_value(digits.first()) * weight + fraction(digits.drop_first(), weight / 10)
    }
}

/// Whether a character is a decimal point: the point and, where `comma` is
/// set, the comma too.
pub open spec fn is_point(c: char, comma: bool) -> bool {
    c == '.' || (comma && c == ',')
}

/// The position of the first decimal point of `text`, or the length of
/// `text` where there is none.
pub open spec fn point_index(text: Seq<char>, comma: bool) -> int
    decreases text.len(),
{
    if text.len() == 0 || is_point(text.first(), comma) {
        0
    } else {
        1 + point_index(text.drop_first(), comma)
    }
}

/// The number that a text without a sign writes, in millionths: digits, and
/// optionally a decimal point and more digits, with at least one digit in
/// all. Digits beyond the sixth after the point are dropped. Anything else
/// is no number, and neither is a number whose whole part is above
/// [`MAX_WHOLE`].
pub open spec fn unsigned_decimal(body: Seq<char>, comma: bool) -> Option<int> {
    let point = point_index(body, comma);
    let whole = body.take(point);
    let rest = if point < body.len() {
        body.skip(point + 1)
    } else {
        Seq::empty()
    };
    if all_digits(whole) && all_digits(rest) && whole.len() + rest.len() > 0 && number(whole) <= MAX_WHOLE {
        Some(number(whole) * MICRO + fraction(rest, 100_000))
    } else {
        None
    }
}

/// The number that a text writes, in millionths: an optional sign and a
/// number without a sign.
pub open spec fn decimal(text: Seq<char>, comma: bool) -> Option<int> {
    let signed = text.len() > 0 && (text.first() == '-' || text.first() == '+');
    let negative = text.len() > 0 && text.first() == '-';
    let body = if signed {
        text.drop_first()
    } else {
        text
    };
    match unsigned_decimal(body, comma) {
        Some(magnitude) => Some(
            if negative {
                -magnitude
            } else {
                magnitude
            },
        ),
        None => None,
    }
}

/// An integer divided by sixty, rounded toward zero.
pub open spec fn sixtieth(value: int) -> int {
    if value >= 0 {
        value / 60
    } else {
        -((-value) / 60)
    }
}

/// The minutes that the part of a position after the degree sign writes, in
/// millionths of a minute. Where the part holds a blank and a single quote,
/// it is minutes, a single quote, and seconds; otherwise it is minutes with a
/// comma or a point as decimal point. Single quotes at the end are dropped.
pub open spec fn minutes_of(part: Seq<char>) -> Option<int> {
    if part.contains(' ') && part.contains('\'') {
        let quote = index_of(part, '\'');
        let minutes_text = strip(part.take(quote), Strip::Spaces);
        let seconds_text = strip_back(strip(part.skip(quote + 1), Strip::Spaces), Strip::Ticks);
        match (decimal(minutes_text, false), decimal(seconds_text, false)) {
            (Some(minutes), Some(seconds)) => Some(minutes + sixtieth(seconds)),
            _ => None,
        }
    } else {
        decimal(strip_back(part, Strip::Ticks), true)
    }
}

/// The position that a text writes, in millionths of a degree.
///
/// White space around the text and double quotes around what is left are
/// dropped. The rest is degrees, one degree sign, and minutes, each with
/// white space around it dropped. The value is the degrees plus a sixtieth of
/// the minutes.
pub open spec fn coordinate_of(text: Seq<char>) -> Result<int, CoordinateError> {
    let inner = strip(strip(text, Strip::Spaces), Strip::Quotes);
    let sign = index_of(inner, DEGREE_SIGN);
    if sign >= inner.len() || inner.skip(sign + 1).contains(DEGREE_SIGN) {
        Err(CoordinateError::InvalidFormat)
    } else {
        let degrees_text = strip(inner.take(sign), Strip::Spaces);
        let minutes_part = strip(inner.skip(sign + 1), Strip::Spaces);
        match decimal(degrees_text, false) {
            None => Err(CoordinateError::InvalidNumber),
            Some(degrees) => match minutes_of(minutes_part) {
                None => Err(CoordinateError::InvalidNumber),
                Some(minutes) => Ok(degrees + sixtieth(minutes)),
            },
        }
    }
}

/// The characters of a text.
pub fn chars_of(text: &str) -> (chars: Vec<char>)
    ensures
        chars@ == text@,
{
    let length = text.unicode_len();
    let mut chars: Vec<char> = Vec::new();
    let mut i: usize = 0;
    while i < length
        invariant
            i <= length,
            length == text@.len(),
            chars@ == text@.take(i as int),
        decreases length - i,
    {
        chars.push(text.get_char(i));
        assert(text@.take(i as int).push(text@[i as int]) =~= text@.take(i + 1));
        i = i + 1;
    }
    assert(text@.take(length as int) =~= text@);
    chars
}

/// Whether a character is white space.
pub fn is_space_char(c: char) -> (space: bool)
    ensures
        space == is_space(c),
{
    let code: u32 = c as u32;
    (0x09 <= code && code <= 0x0D) || code == 0x20 || code == 0x85 || code == 0xA0 || code == 0x1680 || (0x2000
        <= code && code <= 0x200A) || code == 0x2028 || code == 0x2029 || code == 0x202F || code == 0x205F || code
        == 0x3000
}

/// Whether a character is of the kind that `what` strips.
fn is_stripped(what: Strip, c: char) -> (yes: bool)
    ensures
        yes == stripped(what, c),
{
    match what {
        Strip::Spaces => is_space_char(c),
        Strip::Quotes => c == '"',
        Strip::Ticks => c == '\'',
    }
}

/// Where the part of `text` from `lo` to `hi` begins once the characters of
/// one kind at its beginning are dropped.
fn skip_front(text: &Vec<char>, lo: usize, hi: usize, what: Strip) -> (begin: usize)
    requires
        lo <= hi <= text@.len(),
    ensures
        lo <= begin <= hi,
        text@.subrange(begin as int, hi as int) == strip_front(text@.subrange(lo as int, hi as int), what),
{
    let mut begin = lo;
    while begin < hi && is_stripped(what, text[begin])
        invariant
            lo <= begin <= hi <= text@.len(),
            strip_front(text@.subrange(begin as int, hi as int), what) == strip_front(
                text@.subrange(lo as int, hi as int),
                what,
            ),
        decreases hi - begin,
    {
        assert(text@.subrange(begin as int, hi as int).drop_first() =~= text@.subrange(begin + 1, hi as int));
        begin = begin + 1;
    }
    begin
}

/// Where the part of `text` from `lo` to `hi` ends once the characters of
/// one kind at its end are dropped.
fn skip_back(text: &Vec<char>, lo: usize, hi: usize, what: Strip) -> (end: usize)
    requires
        lo <= hi <= text@.len(),
    ensures
        lo <= end <= hi,
        text@.subrange(lo as int, end as int) == strip_back(text@.subrange(lo as int, hi as int), what),
{
    let mut end = hi;
    while lo < end && is_stripped(what, text[end - 1])
        invariant
            lo <= end <= hi <= text@.len(),
            strip_back(text@.subrange(lo as int, end as int), what) == strip_back(
                text@.subrange(lo as int, hi as int),
                what,
            ),
        decreases end - lo,
    {
        assert(text@.subrange(lo as int, end as int).drop_last() =~= text@.subrange(lo as int, end - 1));
        end = end - 1;
    }
    end
}

/// The first position from `lo` on, before `hi`, at which `text` holds `c`,
/// or `hi` where there is none.
pub fn find_char(text: &Vec<char>, lo: usize, hi: usize, c: char) -> (at: usize)
    requires
        lo <= hi <= text@.len(),
    ensures
        lo <= at <= hi,
        at - lo == index_of(text@.subrange(lo as int, hi as int), c),
        at < hi ==> text@[at as int] == c,
        forall|i: int| lo <= i < at ==> text@[i] != c,
        at == hi <==> !text@.subrange(lo as int, hi as int).contains(c),
{
    let mut at = lo;
    while at < hi && text[at] != c
        invariant
            lo <= at <= hi <= text@.len(),
            index_of(text@.subrange(lo as int, hi as int), c) == (at - lo) + index_of(
                text@.subrange(at as int, hi as int),
                c,
            ),
            forall|i: int| lo <= i < at ==> text@[i] != c,
        decreases hi - at,
    {
        assert(text@.subrange(at as int, hi as int).drop_first() =~= text@.subrange(at + 1, hi as int));
        at = at + 1;
    }
    proof {
        let part = text@.subrange(lo as int, hi as int);
        if at < hi {
            assert(part[at - lo] == c);
        } else {
            assert forall|i: int| 0 <= i < part.len() implies part[i] != c by {
                assert(part[i] == text@[lo + i]);
            }
        }
    }
    at
}

/// The first decimal point of a text lies within the text or at its end.
pub proof fn lemma_point_index_bounds(text: Seq<char>, comma: bool)
    ensures
        0 <= point_index(text, comma) <= text.len(),
    decreases text.len(),
{
    if text.len() > 0 && !is_point(text.first(), comma) {
        lemma_point_index_bounds(text.drop_first(), comma);
    }
}

/// Whether a character is a decimal digit.
fn is_digit_char(c: char) -> (digit: bool)
    ensures
        digit == is_digit(c),
{
    let code: u32 = c as u32;
    48 <= code && code <= 57
}

/// Whether a character is a decimal point.
fn is_point_char(c: char, comma: bool) -> (point: bool)
    ensures
        point == is_point(c, comma),
{
    c == '.' || (comma && c == ',')
}

/// The value of a decimal digit.
fn digit_of(c: char) -> (value: i64)
    requires
        is_digit(c),
    ensures
        value == digit_value(c),
        0 <= value <= 9,
{
    (c as u32 - 48) as i64
}

/// An integer divided by sixty, rounded toward zero.
pub fn sixtieth_of(value: i64) -> (part: i64)
    requires
        value > i64::MIN,
    ensures
        part == sixtieth(value as int),
{
    if value >= 0 {
        value / SIXTY
    } else {
        -((-value) / SIXTY)
    }
}

/// Reads the digits of `text` from `start` on, before `hi`: where they end,
/// the number they write, and whether that number is above [`MAX_WHOLE`],
/// in which case the number is not given.
fn scan_whole(text: &Vec<char>, start: usize, hi: usize, comma: bool) -> (scan: (usize, i64, bool))
    requires
        start <= hi <= text@.len(),
    ensures
        start <= scan.0 <= hi,
        all_digits(text@.subrange(start as int, scan.0 as int)),
        scan.0 < hi ==> !is_digit(text@[scan.0 as int]),
        !scan.2 ==> scan.1 == number(text@.subrange(start as int, scan.0 as int)) && 0 <= scan.1 <= MAX_WHOLE,
        scan.2 ==> number(text@.subrange(start as int, scan.0 as int)) > MAX_WHOLE,
        point_index(text@.subrange(start as int, hi as int), comma) == (scan.0 - start) + point_index(
            text@.subrange(scan.0 as int, hi as int),
            comma,
        ),
{
    let mut at: usize = start;
    let mut whole: i64 = 0;
    let mut too_big = false;
    assert(text@.subrange(start as int, at as int) =~= Seq::<char>::empty());
    while at < hi && is_digit_char(text[at])
        invariant
            start <= at <= hi <= text@.len(),
            all_digits(text@.subrange(start as int, at as int)),
            0 <= number(text@.subrange(start as int, at as int)),
            !too_big ==> whole == number(text@.subrange(start as int, at as int)) && whole <= MAX_WHOLE,
            too_big ==> number(text@.subrange(start as int, at as int)) > MAX_WHOLE,
            point_index(text@.subrange(start as int, hi as int), comma) == (at - start) + point_index(
                text@.subrange(at as int, hi as int),
                comma,
            ),
        decreases hi - at,
    {
        let digit = digit_of(text[at]);
        proof {
            let longer = text@.subrange(start as int, at + 1);
            assert(longer.drop_last() =~= text@.subrange(start as int, at as int));
            assert(longer.last() == text@[at as int]);
            assert forall|i: int| 0 <= i < longer.len() implies is_digit(#[trigger] longer[i]) by {
                if i < at - start {
                    assert(text@.subrange(start as int, at as int)[i] == longer[i]);
                }
            }
            let tail = text@.subrange(at as int, hi as int);
            assert(tail.first() == text@[at as int]);
            assert(!is_point(text@[at as int], comma));
            assert(tail.drop_first() =~= text@.subrange(at + 1, hi as int));
        }
        if !too_big {
            whole = whole * 10 + digit;
            if whole > MAX_WHOLE {
                too_big = true;
            }
        }
        at = at + 1;
    }
    (at, whole, too_big)
}

/// Reads the digits of `text` from `start` on, before `hi`, as the digits
/// after a decimal point: where they end, and their value in millionths.
fn scan_fraction(text: &Vec<char>, start: usize, hi: usize) -> (scan: (usize, i64))
    requires
        start <= hi <= text@.len(),
    ensures
        start <= scan.0 <= hi,
        all_digits(text@.subrange(start as int, scan.0 as int)),
        scan.0 < hi ==> !is_digit(text@[scan.0 as int]),
        scan.0 == hi ==> scan.1 == fraction(text@.subrange(start as int, hi as int), 100_000),
        0 <= scan.1 <= 999_999,
{
    let mut at: usize = start;
    let mut value: i64 = 0;
    let mut weight: i64 = 100_000;
    while at < hi && is_digit_char(text[at])
        invariant
            start <= at <= hi <= text@.len(),
            all_digits(text@.subrange(start as int, at as int)),
            fraction(text@.subrange(start as int, hi as int), 100_000) == value + fraction(
                text@.subrange(at as int, hi as int),
                weight as int,
            ),
            weight == 100_000 || weight == 10_000 || weight == 1_000 || weight == 100 || weight == 10 || weight == 1
                || weight == 0,
            0 <= value <= 999_999,
            weight > 0 ==> value + 10 * weight <= 1_000_000,
        decreases hi - at,
    {
        let digit = digit_of(text[at]);
        proof {
            let longer = text@.subrange(start as int, at + 1);
            assert forall|i: int| 0 <= i < longer.len() implies is_digit(#[trigger] longer[i]) by {
                if i < at - start {
                    assert(text@.subrange(start as int, at as int)[i] == longer[i]);
                }
            }
            let tail = text@.subrange(at as int, hi as int);
            assert(tail.first() == text@[at as int]);
            assert(tail.drop_first() =~= text@.subrange(at + 1, hi as int));
        }
        if weight > 0 {
            assert(0 <= digit * weight <= 9 * weight) by (nonlinear_arith)
                requires
                    0 <= digit <= 9,
                    0 < weight,
            ;
            value = value + digit * weight;
        }
        weight = weight / 10;
        at = at + 1;
    }
    assert(at == hi ==> text@.subrange(at as int, hi as int) =~= Seq::<char>::empty());
    (at, value)
}

/// A text of digits alone writes the number of its digits.
proof fn lemma_digits_only(body: Seq<char>, comma: bool)
    requires
        all_digits(body),
        point_index(body, comma) == body.len(),
    ensures
        unsigned_decimal(body, comma) == (if body.len() > 0 && number(body) <= MAX_WHOLE {
            Some(number(body) * MICRO)
        } else {
            None
        }),
{
    assert(body.take(body.len() as int) =~= body);
}

/// A text with a character before its first decimal point that is no digit
/// writes no number.
proof fn lemma_stray_character(body: Seq<char>, comma: bool, at: int)
    requires
        0 <= at < point_index(body, comma),
        !is_digit(body[at]),
    ensures
        unsigned_decimal(body, comma) is None,
{
    lemma_point_index_bounds(body, comma);
    assert(body.take(point_index(body, comma))[at] == body[at]);
}

/// A text with a character after its first decimal point that is no digit
/// writes no number.
proof fn lemma_stray_after_point(body: Seq<char>, comma: bool, at: int)
    requires
        point_index(body, comma) < at < body.len(),
        !is_digit(body[at]),
    ensures
        unsigned_decimal(body, comma) is None,
{
    lemma_point_index_bounds(body, comma);
    let point = point_index(body, comma);
    assert(body.skip(point + 1)[at - point - 1] == body[at]);
}

/// Reads the number without a sign that the part of `text` from `start` to
/// `hi` writes, in millionths.
fn parse_unsigned(text: &Vec<char>, start: usize, hi: usize, comma: bool) -> (value: Option<i64>)
    requires
        start <= hi <= text@.len(),
    ensures
        value is None <==> unsigned_decimal(text@.subrange(start as int, hi as int), comma) is None,
        value matches Some(v) ==> unsigned_decimal(text@.subrange(start as int, hi as int), comma) == Some(v as int)
            && 0 <= v < (MAX_WHOLE + 1) * MICRO,
{
    let ghost body = text@.subrange(start as int, hi as int);
    let (whole_end, whole, too_big) = scan_whole(text, start, hi, comma);
    let ghost point = point_index(body, comma);
    if whole_end == hi {
        proof {
            assert(text@.subrange(hi as int, hi as int) =~= Seq::<char>::empty());
            lemma_digits_only(body, comma);
        }
        if whole_end == start || too_big {
            return None;
        }
        return Some(whole * MICRO);
    }
    let ghost tail = text@.subrange(whole_end as int, hi as int);
    assert(tail.first() == text@[whole_end as int]);
    assert(body[whole_end - start] == text@[whole_end as int]);
    if !is_point_char(text[whole_end], comma) {
        proof {
            lemma_point_index_bounds(tail.drop_first(), comma);
            lemma_stray_character(body, comma, whole_end - start);
        }
        return None;
    }
    assert(point == whole_end - start);
    let rest_start: usize = whole_end + 1;
    let (rest_end, rest_value) = scan_fraction(text, rest_start, hi);
    if rest_end < hi {
        proof {
            assert(body[rest_end - start] == text@[rest_end as int]);
            lemma_stray_after_point(body, comma, rest_end - start);
        }
        return None;
    }
    proof {
        assert(body.take(point) =~= text@.subrange(start as int, whole_end as int));
        assert(body.skip(point + 1) =~= text@.subrange(rest_start as int, hi as int));
    }
    if (whole_end - start) + (hi - rest_start) == 0 || too_big {
        return None;
    }
    Some(whole * MICRO + rest_value)
}

/// Reads the number that the part of `text` from `lo` to `hi` writes, in
/// millionths.
pub fn parse_decimal(text: &Vec<char>, lo: usize, hi: usize, comma: bool) -> (value: Option<i64>)
    requires
        lo <= hi <= text@.len(),
    ensures
        value is None <==> decimal(text@.subrange(lo as int, hi as int), comma) is None,
        value matches Some(v) ==> decimal(text@.subrange(lo as int, hi as int), comma) == Some(v as int)
            && -(MAX_WHOLE + 1) * MICRO < v < (MAX_WHOLE + 1) * MICRO,
{
    let ghost part = text@.subrange(lo as int, hi as int);
    let signed = lo < hi && (text[lo] == '-' || text[lo] == '+');
    let negative = lo < hi && text[lo] == '-';
    let start: usize = if signed {
        lo + 1
    } else {
        lo
    };
    proof {
        if lo < hi {
            assert(part.first() == text@[lo as int]);
        }
        if signed {
            assert(part.drop_first() =~= text@.subrange(start as int, hi as int));
        }
    }
    match parse_unsigned(text, start, hi, comma) {
        Some(magnitude) => Some(
            if negative {
                -magnitude
            } else {
                magnitude
            },
        ),
        None => None,
    }
}

/// Reads the minutes that the part of `text` from `lo` to `hi` writes, in
/// millionths of a minute.
fn parse_minutes(text: &Vec<char>, lo: usize, hi: usize) -> (value: Option<i64>)
    requires
        lo <= hi <= text@.len(),
    ensures
        value is None <==> minutes_of(text@.subrange(lo as int, hi as int)) is None,
        value matches Some(v) ==> minutes_of(text@.subrange(lo as int, hi as int)) == Some(v as int) && -2 * (
        MAX_WHOLE + 1) * MICRO < v < 2 * (MAX_WHOLE + 1) * MICRO,
{
    let ghost part = text@.subrange(lo as int, hi as int);
    let blank = find_char(text, lo, hi, ' ');
    let quote = find_char(text, lo, hi, '\'');
    if blank < hi && quote < hi {
        let minutes_begin = skip_front(text, lo, quote, Strip::Spaces);
        let minutes_end = skip_back(text, minutes_begin, quote, Strip::Spaces);
        let seconds_begin = skip_front(text, quote + 1, hi, Strip::Spaces);
        let seconds_trimmed = skip_back(text, seconds_begin, hi, Strip::Spaces);
        let seconds_end = skip_back(text, seconds_begin, seconds_trimmed, Strip::Ticks);
        proof {
            assert(part.take(quote - lo) =~= text@.subrange(lo as int, quote as int));
            assert(part.skip((quote - lo) + 1) =~= text@.subrange(quote + 1, hi as int));
        }
        let minutes = parse_decimal(text, minutes_begin, minutes_end, false);
        let seconds = parse_decimal(text, seconds_begin, seconds_end, false);
        match (minutes, seconds) {
            (Some(minutes), Some(seconds)) => Some(minutes + sixtieth_of(seconds)),
            _ => None,
        }
    } else {
        let end = skip_back(text, lo, hi, Strip::Ticks);
        parse_decimal(text, lo, end, true)
    }
}

/// Reads the position that a text writes, in millionths of a degree.
pub fn parse_coordinate_chars(text: &Vec<char>) -> (value: Result<i64, CoordinateError>)
    ensures
        match value {
            Ok(v) => coordinate_of(text@) == Ok::<int, CoordinateError>(v as int),
            Err(error) => coordinate_of(text@) == Err::<int, CoordinateError>(error),
        },
{
    let length = text.len();
    assert(text@.subrange(0, length as int) =~= text@);
    let begin = skip_front(text, 0, length, Strip::Spaces);
    let end = skip_back(text, begin, length, Strip::Spaces);
    let begin = skip_front(text, begin, end, Strip::Quotes);
    let end = skip_back(text, begin, end, Strip::Quotes);
    let ghost inner = text@.subrange(begin as int, end as int);
    let sign = find_char(text, begin, end, DEGREE_SIGN);
    if sign >= end {
        return Err(CoordinateError::InvalidFormat);
    }
    let second = find_char(text, sign + 1, end, DEGREE_SIGN);
    proof {
        assert(inner.skip((sign - begin) + 1) =~= text@.subrange(sign + 1, end as int));
        assert(inner.take(sign - begin) =~= text@.subrange(begin as int, sign as int));
    }
    if second < end {
        return Err(CoordinateError::InvalidFormat);
    }
    let degrees_begin = skip_front(text, begin, sign, Strip::Spaces);
    let degrees_end = skip_back(text, degrees_begin, sign, Strip::Spaces);
    let minutes_begin = skip_front(text, sign + 1, end, Strip::Spaces);
    let minutes_end = skip_back(text, minutes_begin, end, Strip::Spaces);
    let degrees = match parse_decimal(text, degrees_begin, degrees_end, false) {
        Some(degrees) => degrees,
        None => {
            return Err(CoordinateError::InvalidNumber);
        },
    };
    let minutes = match parse_minutes(text, minutes_begin, minutes_end) {
        Some(minutes) => minutes,
        None => {
            return Err(CoordinateError::InvalidNumber);
        },
    };
    Ok(degrees + sixtieth_of(minutes))
}

} // verus!
