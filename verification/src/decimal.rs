//! Reading a number from decimal text.
//!
//! A number is written as an optional sign, then digits with at most one
//! point among them, then optionally an exponent: the letter `e` or `E`, an
//! optional sign, and digits. At least one digit stands before the exponent.
//! The exponent moves the point; what is left beyond the sixth decimal place
//! is dropped. Any other text, and any number beyond the limit, is not a
//! number.

use vstd::prelude::*;
use crate::fixed::{LIMIT, NOT_A_NUMBER};

verus! {

/// The digit 0.
pub const DIGIT_ZERO: u8 = 48;

/// The digit 9.
pub const DIGIT_NINE: u8 = 57;

/// The plus sign.
pub const PLUS: u8 = 43;

/// The minus sign.
pub const MINUS: u8 = 45;

/// The decimal point.
pub const POINT: u8 = 46;

/// The letter that begins an exponent, in lower case.
pub const LOWER_E: u8 = 101;

/// The letter that begins an exponent, in upper case.
pub const UPPER_E: u8 = 69;

/// How many decimal places a number keeps.
pub const PLACES: usize = 6;

/// The byte is one of the ten digits.
pub open spec fn is_digit(b: u8) -> bool {
    DIGIT_ZERO <= b <= DIGIT_NINE
}

/// Every byte is a digit.
pub open spec fn all_digits(s: Seq<u8>) -> bool {
    forall|i: int| 0 <= i < s.len() ==> is_digit(#[trigger] s[i])
}

/// The number that a run of digits writes.
pub open spec fn digits_value(s: Seq<u8>) -> nat
    decreases s.len(),
{
    if s.len() == 0 {
        0
    } else {
        digits_value(s.drop_last()) * 10 + (s.last() - DIGIT_ZERO) as nat
    }
}

/// The first `n` digits of `m`, where `m` goes on with zeros after its end.
pub open spec fn padded(m: Seq<u8>, n: int) -> Seq<u8> {
    if n <= 0 {
        Seq::empty()
    } else {
        Seq::new(
            n as nat,
            |i: int|
                if i < m.len() {
                    m[i]
                } else {
                    DIGIT_ZERO
                },
        )
    }
}

/// The text begins with a sign.
pub open spec fn has_sign(s: Seq<u8>) -> bool {
    s.len() > 0 && (s[0] == PLUS || s[0] == MINUS)
}

/// The text begins with a minus sign.
pub open spec fn is_negative(s: Seq<u8>) -> bool {
    s.len() > 0 && s[0] == MINUS
}

/// The text without its sign.
pub open spec fn unsigned_text(s: Seq<u8>) -> Seq<u8> {
    if has_sign(s) {
        s.skip(1)
    } else {
        s
    }
}

/// The first place in the text that holds `a` or `b`, or the length of the
/// text where it holds neither.
pub open spec fn first_place(u: Seq<u8>, a: u8, b: u8) -> int
    decreases u.len(),
{
    if u.len() == 0 || u[0] == a || u[0] == b {
        0
    } else {
        1 + first_place(u.skip(1), a, b)
    }
}

/// The text has an exponent.
pub open spec fn has_exponent(u: Seq<u8>) -> bool {
    first_place(u, LOWER_E, UPPER_E) < u.len()
}

/// What stands before the exponent letter.
pub open spec fn mantissa_text(u: Seq<u8>) -> Seq<u8> {
    u.take(first_place(u, LOWER_E, UPPER_E))
}

/// What stands after the exponent letter.
pub open spec fn exponent_text(u: Seq<u8>) -> Seq<u8> {
    if has_exponent(u) {
        u.skip(first_place(u, LOWER_E, UPPER_E) + 1)
    } else {
        Seq::empty()
    }
}

/// What stands before the first point.
pub open spec fn whole_digits(m: Seq<u8>) -> Seq<u8> {
    m.take(first_place(m, POINT, POINT))
}

/// What stands after the first point.
pub open spec fn fraction_digits(m: Seq<u8>) -> Seq<u8> {
    if first_place(m, POINT, POINT) < m.len() {
        m.skip(first_place(m, POINT, POINT) + 1)
    } else {
        Seq::empty()
    }
}

/// The number that the text of an exponent writes.
pub open spec fn exponent_value(x: Seq<u8>) -> int {
    if is_negative(x) {
        -(digits_value(unsigned_text(x)) as int)
    } else {
        digits_value(unsigned_text(x)) as int
    }
}

/// The text writes a decimal number.
pub open spec fn is_decimal(s: Seq<u8>) -> bool {
    let u = unsigned_text(s);
    let m = mantissa_text(u);
    let x = unsigned_text(exponent_text(u));
    &&& all_digits(whole_digits(m))
    &&& all_digits(fraction_digits(m))
    &&& whole_digits(m).len() + fraction_digits(m).len() > 0
    &&& has_exponent(u) ==> all_digits(x) && x.len() > 0
}

/// The number that decimal text writes, in millionths: its digits, with the
/// point moved six places and as many more as the exponent says.
pub open spec fn decimal_units(s: Seq<u8>) -> int {
    let u = unsigned_text(s);
    let m = mantissa_text(u);
    let digits = whole_digits(m) + fraction_digits(m);
    let count = whole_digits(m).len() + PLACES + exponent_value(exponent_text(u));
    let size = digits_value(padded(digits, count));
    if is_negative(s) {
        -(size as int)
    } else {
        size as int
    }
}

/// The value of a field: its number where it writes one within the limit,
/// and not a number otherwise.
pub open spec fn fixed_of_text(s: Seq<u8>) -> i64 {
    if is_decimal(s) && -LIMIT <= decimal_units(s) <= LIMIT {
        decimal_units(s) as i64
    } else {
        NOT_A_NUMBER
    }
}

/// The first of two bytes stands where neither stands before.
proof fn lemma_first_place(u: Seq<u8>, a: u8, b: u8, p: int)
    requires
        0 <= p <= u.len(),
        forall|j: int| 0 <= j < p ==> #[trigger] u[j] != a && u[j] != b,
    ensures
        p <= first_place(u, a, b) <= u.len(),
        p == u.len() || u[p] == a || u[p] == b ==> first_place(u, a, b) == p,
    decreases u.len(),
{
    if u.len() > 0 && u[0] != a && u[0] != b {
        let rest = u.skip(1);
        if p == 0 {
            lemma_first_place(rest, a, b, 0);
        } else {
            assert forall|j: int| 0 <= j < p - 1 implies #[trigger] rest[j] != a && rest[j] != b by {
                assert(rest[j] == u[j + 1]);
            }
            lemma_first_place(rest, a, b, p - 1);
            if p < u.len() {
                assert(rest[p - 1] == u[p]);
            }
        }
    }
}

/// Past the end of the digits every further place multiplies the number
/// by ten.
proof fn lemma_padded_step(m: Seq<u8>, n: int)
    requires
        0 <= n,
    ensures
        padded(m, n + 1).drop_last() == padded(m, n),
        n >= m.len() ==> digits_value(padded(m, n + 1)) == digits_value(padded(m, n)) * 10,
        n < m.len() ==> digits_value(padded(m, n + 1)) == digits_value(padded(m, n)) * 10 + (m[n]
            - DIGIT_ZERO) as nat,
        padded(m, m.len() as int) == m,
{
    assert(padded(m, n + 1).drop_last() =~= padded(m, n));
    assert(padded(m, m.len() as int) =~= m);
}

/// With more places the number of digits does not get smaller, and a zero
/// stays a zero once the digits are used up.
proof fn lemma_padded_grows(m: Seq<u8>, j: int, n: int)
    requires
        all_digits(m),
        0 <= j <= n,
    ensures
        digits_value(padded(m, j)) <= digits_value(padded(m, n)),
        j >= m.len() && digits_value(padded(m, j)) == 0 ==> digits_value(padded(m, n)) == 0,
    decreases n - j,
{
    if j < n {
        lemma_padded_grows(m, j, n - 1);
        lemma_padded_step(m, n - 1);
        if n - 1 < m.len() {
            assert(is_digit(m[n - 1]));
        }
    }
}

/// Nineteen more places take any number but zero beyond the limit.
proof fn lemma_padded_nineteen(m: Seq<u8>, j: int, t: int)
    requires
        m.len() <= j,
        0 <= t <= 19,
        digits_value(padded(m, j)) >= 1,
    ensures
        t == 0 ==> digits_value(padded(m, j + t)) >= 1,
        t == 1 ==> digits_value(padded(m, j + t)) >= 10,
        t == 2 ==> digits_value(padded(m, j + t)) >= 100,
        t == 3 ==> digits_value(padded(m, j + t)) >= 1_000,
        t == 4 ==> digits_value(padded(m, j + t)) >= 10_000,
        t == 5 ==> digits_value(padded(m, j + t)) >= 100_000,
        t == 6 ==> digits_value(padded(m, j + t)) >= 1_000_000,
        t == 7 ==> digits_value(padded(m, j + t)) >= 10_000_000,
        t == 8 ==> digits_value(padded(m, j + t)) >= 100_000_000,
        t == 9 ==> digits_value(padded(m, j + t)) >= 1_000_000_000,
        t == 10 ==> digits_value(padded(m, j + t)) >= 10_000_000_000,
        t == 11 ==> digits_value(padded(m, j + t)) >= 100_000_000_000,
        t == 12 ==> digits_value(padded(m, j + t)) >= 1_000_000_000_000,
        t == 13 ==> digits_value(padded(m, j + t)) >= 10_000_000_000_000,
        t == 14 ==> digits_value(padded(m, j + t)) >= 100_000_000_000_000,
        t == 15 ==> digits_value(padded(m, j + t)) >= 1_000_000_000_000_000,
        t == 16 ==> digits_value(padded(m, j + t)) >= 10_000_000_000_000_000,
        t == 17 ==> digits_value(padded(m, j + t)) >= 100_000_000_000_000_000,
        t == 18 ==> digits_value(padded(m, j + t)) >= 1_000_000_000_000_000_000,
        t == 19 ==> digits_value(padded(m, j + t)) > LIMIT,
    decreases t,
{
    if t > 0 {
        lemma_padded_nineteen(m, j, t - 1);
        lemma_padded_step(m, j + t - 1);
    }
}

/// Places beyond nineteen past the digits change nothing in what counts: the
/// number is zero or beyond the limit either way.
proof fn lemma_padded_far(m: Seq<u8>, n: int)
    requires
        all_digits(m),
        n >= m.len() + 19,
    ensures
        digits_value(padded(m, n)) <= LIMIT <==> digits_value(padded(m, (m.len() + 19) as int)) <= LIMIT,
        digits_value(padded(m, n)) <= LIMIT ==> digits_value(padded(m, n)) == digits_value(
            padded(m, (m.len() + 19) as int),
        ),
{
    let base = m.len() as int;
    if digits_value(padded(m, base)) == 0 {
        lemma_padded_grows(m, base, n);
        lemma_padded_grows(m, base, base + 19);
    } else {
        lemma_padded_nineteen(m, base, 19);
        lemma_padded_grows(m, base + 19, n);
    }
}

/// Where the run of digits that starts at `from` ends.
fn skip_digits(text: &[u8], from: usize) -> (end: usize)
    requires
        from <= text.len(),
    ensures
        from <= end <= text.len(),
        forall|j: int| from <= j < end ==> is_digit(#[trigger] text@[j]),
        end == text.len() || !is_digit(text@[end as int]),
{
    let mut i: usize = from;
    while i < text.len() && DIGIT_ZERO <= text[i] && text[i] <= DIGIT_NINE
        invariant
            from <= i <= text.len(),
            forall|j: int| from <= j < i ==> is_digit(#[trigger] text@[j]),
        decreases text.len() - i,
    {
        i += 1;
    }
    i
}

/// Reads the run of digits that starts at `from`: where it ends, and the
/// number it writes unless that exceeds a hundred million million millions.
fn read_digits(text: &[u8], from: usize) -> (r: (usize, u128, bool))
    requires
        from <= text.len(),
    ensures
        from <= r.0 <= text.len(),
        all_digits(text@.subrange(from as int, r.0 as int)),
        r.0 == text.len() || !is_digit(text@[r.0 as int]),
        r.1 <= 100_000_000_000_000_000_000,
        !r.2 ==> r.1 == digits_value(text@.subrange(from as int, r.0 as int)),
        r.2 ==> digits_value(text@.subrange(from as int, r.0 as int)) > 100_000_000_000_000_000_000,
{
    let len: usize = text.len();
    let mut value: u128 = 0;
    let mut large: bool = false;
    let mut i: usize = from;
    while i < len && DIGIT_ZERO <= text[i] && text[i] <= DIGIT_NINE
        invariant
            from <= i <= len,
            len == text.len(),
            all_digits(text@.subrange(from as int, i as int)),
            !large ==> value == digits_value(text@.subrange(from as int, i as int)),
            value <= 100_000_000_000_000_000_000,
            large ==> digits_value(text@.subrange(from as int, i as int)) > 100_000_000_000_000_000_000,
        decreases len - i,
    {
        proof {
            assert(text@.subrange(from as int, i + 1).drop_last() =~= text@.subrange(from as int, i as int));
            assert(text@.subrange(from as int, i + 1).last() == text@[i as int]);
        }
        let next: u128 = value * 10 + (text[i] - DIGIT_ZERO) as u128;
        if !large && next <= 100_000_000_000_000_000_000 {
            value = next;
        } else {
            large = true;
        }
        i += 1;
    }
    (i, value, large)
}

/// The digits of a number whose whole part stands from `ws` to `we` in the
/// text and whose fraction stands from `fs` to `fe`.
spec fn digits_between(text: Seq<u8>, ws: int, we: int, fs: int, fe: int) -> Seq<u8> {
    text.subrange(ws, we) + text.subrange(fs, fe)
}

/// The number that the first `count` digits write, where the digits go on
/// with zeros, or `None` where it exceeds the limit.
fn moved_value(text: &[u8], ws: usize, we: usize, fs: usize, fe: usize, count: u128) -> (r: Option<u64>)
    requires
        ws <= we <= fs <= fe <= text.len(),
        all_digits(digits_between(text@, ws as int, we as int, fs as int, fe as int)),
    ensures
        match r {
            Some(v) => v <= LIMIT && v == digits_value(
                padded(digits_between(text@, ws as int, we as int, fs as int, fe as int), count as int),
            ),
            None => digits_value(
                padded(digits_between(text@, ws as int, we as int, fs as int, fe as int), count as int),
            ) > LIMIT,
        },
{
    let ghost m = digits_between(text@, ws as int, we as int, fs as int, fe as int);
    let whole_len: usize = we - ws;
    let m_len: usize = whole_len + (fe - fs);
    let mut value: u64 = 0;
    let mut i: u128 = 0;
    while i < count
        invariant
            i <= count,
            ws <= we <= fs <= fe <= text.len(),
            whole_len == we - ws,
            m_len == whole_len + (fe - fs),
            m == digits_between(text@, ws as int, we as int, fs as int, fe as int),
            all_digits(m),
            value <= LIMIT,
            value == digits_value(padded(m, i as int)),
        decreases count - i,
    {
        let digit: u64 = if i < m_len as u128 {
            let place: usize = i as usize;
            let b: u8 = if place < whole_len {
                text[ws + place]
            } else {
                text[fs + (place - whole_len)]
            };
            assert(b == m[place as int]);
            assert(is_digit(m[place as int]));
            (b - DIGIT_ZERO) as u64
        } else {
            0
        };
        proof {
            lemma_padded_step(m, i as int);
        }
        let next: u64 = value * 10 + digit;
        if next > 1_000_000_000_000_000_000 {
            proof {
                lemma_padded_grows(m, i + 1, count as int);
            }
            return None;
        }
        value = next;
        i += 1;
    }
    Some(value)
}

/// What the scan of a mantissa has found in the text `u`: digits up to `w`,
/// then either a point and digits up to `e`, or, with `w` equal to `e`,
/// something that is neither.
spec fn scanned(u: Seq<u8>, w: int, e: int, point: bool) -> bool {
    &&& 0 <= w <= e <= u.len()
    &&& forall|j: int| 0 <= j < w ==> is_digit(#[trigger] u[j])
    &&& e == u.len() || !is_digit(u[e])
    &&& if point {
        &&& w < e
        &&& u[w] == POINT
        &&& forall|j: int| w < j < e ==> is_digit(#[trigger] u[j])
    } else {
        &&& w == e
        &&& w == u.len() || u[w] != POINT
    }
}

/// A scanned mantissa that ends with the text or before an exponent letter
/// is the mantissa of the text, and its parts are digits.
proof fn lemma_scanned_mantissa(u: Seq<u8>, w: int, e: int, point: bool)
    requires
        scanned(u, w, e, point),
        e == u.len() || u[e] == LOWER_E || u[e] == UPPER_E,
    ensures
        first_place(u, LOWER_E, UPPER_E) == e,
        mantissa_text(u) == u.take(e),
        whole_digits(mantissa_text(u)) == u.take(w),
        fraction_digits(mantissa_text(u)) == if point {
            u.subrange(w + 1, e)
        } else {
            Seq::<u8>::empty()
        },
        all_digits(whole_digits(mantissa_text(u))),
        all_digits(fraction_digits(mantissa_text(u))),
{
    assert forall|j: int| 0 <= j < e implies #[trigger] u[j] != LOWER_E && u[j] != UPPER_E by {
        if j < w {
            assert(is_digit(u[j]));
        } else if j > w {
            assert(is_digit(u[j]));
        }
    }
    lemma_first_place(u, LOWER_E, UPPER_E, e);
    let m = u.take(e);
    assert forall|j: int| 0 <= j < w implies #[trigger] m[j] != POINT by {
        assert(is_digit(u[j]));
    }
    lemma_first_place(m, POINT, POINT, w);
    assert(m.take(w) =~= u.take(w));
    if point {
        assert(m[w] == u[w]);
        assert(m.skip(w + 1) =~= u.subrange(w + 1, e));
        assert forall|i: int| 0 <= i < u.subrange(w + 1, e).len() implies is_digit(
            #[trigger] u.subrange(w + 1, e)[i],
        ) by {
            assert(is_digit(u[w + 1 + i]));
        }
    }
    assert forall|i: int| 0 <= i < u.take(w).len() implies is_digit(#[trigger] u.take(w)[i]) by {
        assert(is_digit(u[i]));
    }
}

/// A scanned mantissa that is followed by anything but an exponent letter is
/// not the mantissa of a number.
proof fn lemma_scanned_stray(u: Seq<u8>, w: int, e: int, point: bool)
    requires
        scanned(u, w, e, point),
        e < u.len(),
        u[e] != LOWER_E,
        u[e] != UPPER_E,
    ensures
        !(all_digits(whole_digits(mantissa_text(u))) && all_digits(fraction_digits(mantissa_text(u)))),
{
    assert forall|j: int| 0 <= j < e + 1 implies #[trigger] u[j] != LOWER_E && u[j] != UPPER_E by {
        if j < w {
            assert(is_digit(u[j]));
        } else if w < j < e {
            assert(is_digit(u[j]));
        }
    }
    lemma_first_place(u, LOWER_E, UPPER_E, e + 1);
    let m = mantissa_text(u);
    assert(m.len() >= e + 1);
    assert(m[e] == u[e]);
    if point {
        assert forall|j: int| 0 <= j < w implies #[trigger] m[j] != POINT by {
            assert(is_digit(u[j]));
        }
        assert(m[w] == u[w]);
        lemma_first_place(m, POINT, POINT, w);
        assert(fraction_digits(m)[e - w - 1] == m[e]);
    } else {
        assert forall|j: int| 0 <= j < e + 1 implies #[trigger] m[j] != POINT by {
            if j < w {
                assert(is_digit(u[j]));
            }
            assert(m[j] == u[j]);
        }
        lemma_first_place(m, POINT, POINT, e + 1);
        assert(whole_digits(m)[e] == m[e]);
    }
}

/// Scans the mantissa that starts at `start`: where its whole part ends,
/// whether a point follows, and where the fraction starts and ends.
fn scan_mantissa(text: &[u8], start: usize) -> (r: (usize, bool, usize, usize))
    requires
        start <= text.len(),
    ensures
        start <= r.0 <= r.2 <= r.3 <= text.len(),
        r.2 == if r.1 {
            r.0 + 1
        } else {
            r.0 as int
        },
        scanned(text@.skip(start as int), r.0 - start, r.3 - start, r.1),
        all_digits(text@.subrange(start as int, r.0 as int)),
        all_digits(text@.subrange(r.2 as int, r.3 as int)),
{
    let len: usize = text.len();
    let we: usize = skip_digits(text, start);
    let point: bool = we < len && text[we] == POINT;
    let fs: usize = if point {
        we + 1
    } else {
        we
    };
    let fe: usize = if point {
        skip_digits(text, fs)
    } else {
        we
    };
    proof {
        let u = text@.skip(start as int);
        let w = we - start;
        let e = fe - start;
        assert forall|j: int| 0 <= j < w implies is_digit(#[trigger] u[j]) by {
            assert(u[j] == text@[start + j]);
        }
        if point {
            assert forall|j: int| w < j < e implies is_digit(#[trigger] u[j]) by {
                assert(u[j] == text@[start + j]);
            }
            assert(u[w] == text@[we as int]);
        }
        if fe < len {
            assert(u[e] == text@[fe as int]);
        }
    }
    (we, point, fs, fe)
}

/// Reads the exponent that starts at `from` and runs to the end of the text:
/// whether it is negative, and its size unless that exceeds a hundred
/// million million millions. `None` where no exponent stands there.
fn read_exponent(text: &[u8], from: usize) -> (r: Option<(bool, u128, bool)>)
    requires
        from <= text.len(),
    ensures
        match r {
            Some((down, size, far)) => {
                let x = text@.skip(from as int);
                &&& all_digits(unsigned_text(x))
                &&& unsigned_text(x).len() > 0
                &&& down == is_negative(x)
                &&& size <= 100_000_000_000_000_000_000
                &&& !far ==> size == digits_value(unsigned_text(x))
                &&& far ==> digits_value(unsigned_text(x)) > 100_000_000_000_000_000_000
            },
            None => {
                let x = text@.skip(from as int);
                !(all_digits(unsigned_text(x)) && unsigned_text(x).len() > 0)
            },
        },
{
    let len: usize = text.len();
    let ghost x = text@.skip(from as int);
    let down: bool = from < len && text[from] == MINUS;
    let ds: usize = if from < len && (text[from] == PLUS || text[from] == MINUS) {
        from + 1
    } else {
        from
    };
    assert(unsigned_text(x) =~= text@.skip(ds as int));
    let (de, size, far) = read_digits(text, ds);
    if de != len {
        assert(text@.skip(ds as int)[de - ds] == text@[de as int]);
        return None;
    }
    if de == ds {
        return None;
    }
    assert(text@.skip(ds as int) =~= text@.subrange(ds as int, de as int));
    Some((down, size, far))
}

/// How many places count for a number of `m_len` digits, `whole_len` of
/// them before the point, with the given exponent: the exact count, or where
/// that is far past the digits, a count that gives the same number as far
/// as the limit.
fn count_places(whole_len: usize, m_len: usize, down: bool, size: u128, far: bool, Ghost(m): Ghost<Seq<u8>>, Ghost(exponent): Ghost<int>) -> (count: u128)
    requires
        whole_len <= m_len,
        m.len() == m_len,
        all_digits(m),
        size <= 100_000_000_000_000_000_000,
        !far ==> exponent == if down {
            -(size as int)
        } else {
            size as int
        },
        far ==> if down {
            exponent < -100_000_000_000_000_000_000
        } else {
            exponent > 100_000_000_000_000_000_000
        },
    ensures
        digits_value(padded(m, count as int)) <= LIMIT <==> digits_value(
            padded(m, whole_len + PLACES + exponent),
        ) <= LIMIT,
        digits_value(padded(m, count as int)) <= LIMIT ==> digits_value(padded(m, count as int))
            == digits_value(padded(m, whole_len + PLACES + exponent)),
{
    let reach: u128 = m_len as u128 + 19;
    if far {
        if down {
            0
        } else {
            proof {
                lemma_padded_far(m, whole_len + PLACES + exponent);
            }
            reach
        }
    } else {
        let moved: i128 = whole_len as i128 + 6 + if down {
            -(size as i128)
        } else {
            size as i128
        };
        if moved <= 0 {
            0
        } else if moved as u128 > reach {
            proof {
                lemma_padded_far(m, moved as int);
            }
            reach
        } else {
            moved as u128
        }
    }
}

/// Where a scan has found the parts of a number in the text, they are the
/// parts of which the value of the text is made.
proof fn lemma_parts(text: Seq<u8>, start: int, we: int, point: bool, fs: int, fe: int)
    requires
        start == if has_sign(text) {
            1int
        } else {
            0int
        },
        start <= we <= fs <= fe <= text.len(),
        fs == if point {
            we + 1
        } else {
            we
        },
        scanned(text.skip(start), we - start, fe - start, point),
        fe == text.len() || text[fe] == LOWER_E || text[fe] == UPPER_E,
    ensures
        whole_digits(mantissa_text(unsigned_text(text))) == text.subrange(start, we),
        fraction_digits(mantissa_text(unsigned_text(text))) == text.subrange(fs, fe),
        all_digits(text.subrange(start, we)),
        all_digits(text.subrange(fs, fe)),
        has_exponent(unsigned_text(text)) == (fe < text.len()),
        exponent_text(unsigned_text(text)) == if fe < text.len() {
            text.skip(fe + 1)
        } else {
            Seq::<u8>::empty()
        },
{
    let u = unsigned_text(text);
    let w = we - start;
    let e = fe - start;
    assert(u == text.skip(start));
    if fe < text.len() {
        assert(u[e] == text[fe]);
    }
    lemma_scanned_mantissa(u, w, e, point);
    assert(u.take(w) =~= text.subrange(start, we));
    if point {
        assert(u.subrange(w + 1, e) =~= text.subrange(fs, fe));
    } else {
        assert(text.subrange(fs, fe) =~= Seq::<u8>::empty());
    }
    if fe < text.len() {
        assert(exponent_text(u) =~= text.skip(fe + 1));
    }
}

/// Where a scan has stopped at a byte that cannot follow a mantissa, the
/// text writes no number.
proof fn lemma_stray(text: Seq<u8>, start: int, we: int, point: bool, fe: int)
    requires
        start == if has_sign(text) {
            1int
        } else {
            0int
        },
        start <= we <= fe < text.len(),
        scanned(text.skip(start), we - start, fe - start, point),
        text[fe] != LOWER_E,
        text[fe] != UPPER_E,
    ensures
        !is_decimal(text),
{
    let u = unsigned_text(text);
    assert(u == text.skip(start));
    assert(u[fe - start] == text[fe]);
    lemma_scanned_stray(u, we - start, fe - start, point);
}

/// The value of a text whose parts are known.
proof fn lemma_value(text: Seq<u8>, whole: Seq<u8>, fraction: Seq<u8>, exponent: int, good: bool)
    requires
        whole_digits(mantissa_text(unsigned_text(text))) == whole,
        fraction_digits(mantissa_text(unsigned_text(text))) == fraction,
        all_digits(whole),
        all_digits(fraction),
        exponent == exponent_value(exponent_text(unsigned_text(text))),
        good == (has_exponent(unsigned_text(text)) ==> all_digits(
            unsigned_text(exponent_text(unsigned_text(text))),
        ) && unsigned_text(exponent_text(unsigned_text(text))).len() > 0),
    ensures
        is_decimal(text) == (good && whole.len() + fraction.len() > 0),
        decimal_units(text) == if is_negative(text) {
            -(digits_value(padded(whole + fraction, whole.len() + PLACES + exponent)) as int)
        } else {
            digits_value(padded(whole + fraction, whole.len() + PLACES + exponent)) as int
        },
{
}

/// Reads the number that a field writes.
pub fn parse_fixed(text: &[u8]) -> (v: i64)
    ensures
        v == fixed_of_text(text@),
{
    let len: usize = text.len();
    let negative: bool = len > 0 && text[0] == MINUS;
    let start: usize = if len > 0 && (text[0] == PLUS || text[0] == MINUS) {
        1
    } else {
        0
    };
    let (we, point, fs, fe) = scan_mantissa(text, start);
    let mut down: bool = false;
    let mut size: u128 = 0;
    let mut far: bool = false;
    if fe < len {
        if text[fe] != LOWER_E && text[fe] != UPPER_E {
            proof {
                lemma_stray(text@, start as int, we as int, point, fe as int);
            }
            return NOT_A_NUMBER;
        }
        proof {
            lemma_parts(text@, start as int, we as int, point, fs as int, fe as int);
        }
        match read_exponent(text, fe + 1) {
            Some(found) => {
                down = found.0;
                size = found.1;
                far = found.2;
            },
            None => {
                proof {
                    lemma_value(
                        text@,
                        text@.subrange(start as int, we as int),
                        text@.subrange(fs as int, fe as int),
                        exponent_value(text@.skip(fe + 1)),
                        false,
                    );
                }
                return NOT_A_NUMBER;
            },
        }
    } else {
        proof {
            lemma_parts(text@, start as int, we as int, point, fs as int, fe as int);
            assert(digits_value(unsigned_text(Seq::<u8>::empty())) == 0);
        }
    }
    let ghost whole = text@.subrange(start as int, we as int);
    let ghost fraction = text@.subrange(fs as int, fe as int);
    let ghost exponent = exponent_value(exponent_text(unsigned_text(text@)));
    proof {
        lemma_value(text@, whole, fraction, exponent, true);
    }
    if (we - start) + (fe - fs) == 0 {
        return NOT_A_NUMBER;
    }
    let count: u128 = count_places(
        we - start,
        (we - start) + (fe - fs),
        down,
        size,
        far,
        Ghost(whole + fraction),
        Ghost(exponent),
    );
    match moved_value(text, start, we, fs, fe, count) {
        Some(units) => {
            if negative {
                -(units as i64)
            } else {
                units as i64
            }
        },
        None => NOT_A_NUMBER,
    }
}

} // verus!
