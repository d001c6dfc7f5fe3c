//! Exact fixed-point decimal numbers.

use vstd::prelude::*;
use vstd::string::*;
use vstd::arithmetic::div_mod::lemma_fundamental_div_mod;
use crate::digits::{
    all_digits, digits_of, is_digit, lemma_digit_char, lemma_digits_of, lemma_padded_digits,
    number_of, padded_digits, pow10, push_number, push_padded,
};

verus! {

/// How many units make up one: a `Decimal` carries eighteen fractional digits.
pub const UNITS_PER_ONE: i128 = 1_000_000_000_000_000_000;

/// How many units make up one thousandth.
pub const UNITS_PER_THOUSANDTH: i128 = 1_000_000_000_000_000;

/// A decimal number stored as a whole count of units of 10^-18.
///
/// The number that a value stands for is `units / 10^18`. Sums and differences
/// are exact while they fit and stop at the ends of the range otherwise.
#[derive(Clone, Copy, Debug, PartialEq, Eq, Structural)]
pub struct Decimal {
    pub units: i128,
}

/// The representable count of units that is nearest to `v`.
pub open spec fn clamp_units(v: int) -> int {
    if v > i128::MAX {
        i128::MAX as int
    } else if v < i128::MIN {
        i128::MIN as int
    } else {
        v
    }
}

/// Saturating sum of a sequence of unit counts, taken from the front.
pub open spec fn saturating_sum(values: Seq<int>) -> int
    decreases values.len(),
{
    if values.len() == 0 {
        0
    } else {
        clamp_units(saturating_sum(values.drop_last()) + values.last())
    }
}

/// The mathematical sum of a sequence of unit counts.
pub open spec fn exact_sum(values: Seq<int>) -> int
    decreases values.len(),
{
    if values.len() == 0 {
        0
    } else {
        exact_sum(values.drop_last()) + values.last()
    }
}

impl Decimal {
    /// The number zero.
    pub fn zero() -> (r: Decimal)
        ensures
            r.units == 0,
    {
        Decimal { units: 0 }
    }

    /// The whole number `n`.
    pub fn from_integer(n: u32) -> (r: Decimal)
        ensures
            r.units == n * UNITS_PER_ONE,
    {
        let wide: i128 = n as i128;
        Decimal { units: wide * UNITS_PER_ONE }
    }

    /// `ms` thousandths, exactly.
    pub fn from_millis(ms: i64) -> (r: Decimal)
        ensures
            r.units == ms * UNITS_PER_THOUSANDTH,
    {
        let wide: i128 = ms as i128;
        Decimal { units: wide * UNITS_PER_THOUSANDTH }
    }

    /// The sum of two numbers, stopping at the ends of the range.
    pub fn saturating_add(self, other: Decimal) -> (r: Decimal)
        ensures
            r.units == clamp_units(self.units + other.units),
    {
        match self.units.checked_add(other.units) {
            Some(units) => Decimal { units },
            None => if other.units > 0 {
                Decimal { units: i128::MAX }
            } else {
                Decimal { units: i128::MIN }
            },
        }
    }

    /// The difference of two numbers, stopping at the ends of the range.
    pub fn saturating_sub(self, other: Decimal) -> (r: Decimal)
        ensures
            r.units == clamp_units(self.units - other.units),
    {
        match self.units.checked_sub(other.units) {
            Some(units) => Decimal { units },
            None => if other.units < 0 {
                Decimal { units: i128::MAX }
            } else {
                Decimal { units: i128::MIN }
            },
        }
    }
}

/// How many fractional digits a `Decimal` carries.
pub const FRACTION_DIGITS: u8 = 18;

/// The greatest whole part whose units can still fit a `Decimal`.
pub const WHOLE_LIMIT: u128 = 170_141_183_460_469_231_731;

/// How many characters of sign stand at the front of `s`: one for a leading
/// `-` or `+`, else none.
pub open spec fn sign_len(s: Seq<char>) -> int {
    if s.len() > 0 && (s[0] == '-' || s[0] == '+') {
        1
    } else {
        0
    }
}

/// Whether `s` starts with `-`.
pub open spec fn is_negative(s: Seq<char>) -> bool {
    s.len() > 0 && s[0] == '-'
}

/// Where the first `.` of `s` stands; the length of `s` where it has none.
pub open spec fn dot_position(s: Seq<char>) -> int
    decreases s.len(),
{
    if s.len() == 0 || s[0] == '.' {
        0
    } else {
        1 + dot_position(s.drop_first())
    }
}

/// What stands before the first `.` of an unsigned number.
pub open spec fn whole_part(body: Seq<char>) -> Seq<char> {
    body.take(dot_position(body))
}

/// What stands behind the first `.` of an unsigned number.
pub open spec fn fraction_part(body: Seq<char>) -> Seq<char> {
    if dot_position(body) < body.len() {
        body.skip(dot_position(body) + 1)
    } else {
        Seq::empty()
    }
}

/// Whether `body` is an unsigned decimal number: digits, at least one, and
/// then perhaps a `.` and again digits, at least one.
pub open spec fn well_formed(body: Seq<char>) -> bool {
    &&& whole_part(body).len() > 0
    &&& all_digits(whole_part(body))
    &&& all_digits(fraction_part(body))
    &&& dot_position(body) < body.len() ==> fraction_part(body).len() > 0
}

/// The units that the digits behind the `.` stand for. Digits beyond the
/// eighteenth are dropped.
pub open spec fn fraction_units(fraction: Seq<char>) -> nat {
    let kept = if fraction.len() > 18 {
        fraction.take(18)
    } else {
        fraction
    };
    number_of(kept) * pow10((18 - kept.len()) as nat)
}

/// The units that a well-formed unsigned number stands for.
pub open spec fn magnitude_of(body: Seq<char>) -> nat {
    number_of(whole_part(body)) * (UNITS_PER_ONE as nat) + fraction_units(fraction_part(body))
}

/// The number that a text denotes: an optional sign, then a well-formed
/// unsigned number. `None` for any other text and for a number out of range.
pub open spec fn parsed(s: Seq<char>) -> Option<Decimal> {
    let body = s.skip(sign_len(s));
    let units = if is_negative(s) {
        -magnitude_of(body)
    } else {
        magnitude_of(body) as int
    };
    if well_formed(body) && i128::MIN <= units <= i128::MAX {
        Some(Decimal { units: units as i128 })
    } else {
        None
    }
}

/// The digits of a fraction of `frac` units out of ten to the `width`,
/// without trailing zeros; empty for zero.
pub open spec fn trimmed_fraction(frac: nat, width: nat) -> Seq<char>
    decreases width,
{
    if width == 0 || frac == 0 {
        Seq::empty()
    } else if frac % 10 == 0 {
        trimmed_fraction(frac / 10, (width - 1) as nat)
    } else {
        padded_digits(frac, width)
    }
}

/// The text of a number of `units`: a `-` for a negative number, the whole
/// part, and for a number that is not whole a `.` and the fractional digits
/// without trailing zeros.
pub open spec fn text_of(units: int) -> Seq<char> {
    let magnitude = if units < 0 {
        -units
    } else {
        units
    };
    let whole = (magnitude / (UNITS_PER_ONE as int)) as nat;
    let frac = (magnitude % (UNITS_PER_ONE as int)) as nat;
    let sign = if units < 0 {
        seq!['-']
    } else {
        Seq::empty()
    };
    let tail = if frac == 0 {
        Seq::empty()
    } else {
        seq!['.'] + trimmed_fraction(frac, 18)
    };
    sign + digits_of(whole) + tail
}

/// The first `.` stands where `dot_position` says, and nowhere before.
pub proof fn lemma_dot_position(s: Seq<char>)
    ensures
        0 <= dot_position(s) <= s.len(),
        dot_position(s) < s.len() ==> s[dot_position(s)] == '.',
        forall|j: int| 0 <= j < dot_position(s) ==> #[trigger] s[j] != '.',
    decreases s.len(),
{
    if s.len() == 0 || s[0] == '.' {
    } else {
        let rest = s.drop_first();
        lemma_dot_position(rest);
        assert forall|j: int| 0 <= j < dot_position(s) implies #[trigger] s[j] != '.' by {
            if j > 0 {
                assert(s[j] == rest[j - 1]);
            }
        }
    }
}

/// A position with a `.` (or the end) and no `.` before it is the position
/// of the first `.`.
pub proof fn lemma_dot_found(s: Seq<char>, p: int)
    requires
        0 <= p <= s.len(),
        forall|j: int| 0 <= j < p ==> #[trigger] s[j] != '.',
        p < s.len() ==> s[p] == '.',
    ensures
        dot_position(s) == p,
{
    lemma_dot_position(s);
    let dot = dot_position(s);
    if dot < p {
        assert(s[dot] != '.');
    }
}

/// Ten to the eighteenth is the number of units in one.
pub proof fn lemma_pow10_eighteen()
    ensures
        pow10(18) == UNITS_PER_ONE,
{
    reveal_with_fuel(pow10, 19);
}

/// The trimmed digits of a fraction that is not zero are digits, at least one
/// and at most `width`, and stand for the fraction.
pub proof fn lemma_trimmed_fraction(frac: nat, width: nat)
    requires
        0 < frac < pow10(width),
    ensures
        0 < trimmed_fraction(frac, width).len() <= width,
        all_digits(trimmed_fraction(frac, width)),
        number_of(trimmed_fraction(frac, width)) * pow10(
            (width - trimmed_fraction(frac, width).len()) as nat,
        ) == frac,
    decreases width,
{
    assert(pow10(0) == 1);
    assert(width > 0);
    assert(pow10(width) == 10 * pow10((width - 1) as nat));
    if frac % 10 == 0 {
        let less = (width - 1) as nat;
        assert(0 < frac / 10 < pow10(less));
        lemma_trimmed_fraction(frac / 10, less);
        assert(trimmed_fraction(frac, width) == trimmed_fraction(frac / 10, less));
        let t = trimmed_fraction(frac / 10, less);
        assert(pow10((width - t.len()) as nat) == 10 * pow10((less - t.len()) as nat));
        assert(number_of(t) * pow10((width - t.len()) as nat) == frac) by (nonlinear_arith)
            requires
                number_of(t) * pow10((less - t.len()) as nat) == frac / 10,
                pow10((width - t.len()) as nat) == 10 * pow10((less - t.len()) as nat),
                frac % 10 == 0,
        ;
    } else {
        lemma_padded_digits(frac, width);
        let t = padded_digits(frac, width);
        assert(trimmed_fraction(frac, width) == t);
        assert(number_of(t) * pow10((width - t.len()) as nat) == frac) by (nonlinear_arith)
            requires
                number_of(t) == frac,
                pow10((width - t.len()) as nat) == 1,
        ;
    }
}

/// Text with a character that is not ASCII denotes no number.
pub proof fn lemma_not_ascii(s: Seq<char>)
    requires
        !vstd::utf8::is_ascii_chars(s),
    ensures
        parsed(s).is_none(),
{
    let i = choose|i: int| 0 <= i < s.len() && !('\0' <= #[trigger] s[i] <= '\u{7f}');
    let body = s.skip(sign_len(s));
    let j = i - sign_len(s);
    assert(body[j] == s[i]);
    lemma_dot_position(body);
    let dot = dot_position(body);
    if j < dot {
        assert(whole_part(body)[j] == body[j]);
    } else if j > dot {
        assert(fraction_part(body)[j - dot - 1] == body[j]);
    }
}

/// Reading the text of a number gives the number back.
pub proof fn lemma_text_round_trip(d: Decimal)
    ensures
        parsed(text_of(d.units as int)) == Some(d),
{
    let units = d.units as int;
    let magnitude = if units < 0 {
        -units
    } else {
        units
    };
    let one = UNITS_PER_ONE as int;
    let whole = (magnitude / one) as nat;
    let frac = (magnitude % one) as nat;
    let digits = digits_of(whole);
    let tail = if frac == 0 {
        Seq::<char>::empty()
    } else {
        seq!['.'] + trimmed_fraction(frac, 18)
    };
    let sign = if units < 0 {
        seq!['-']
    } else {
        Seq::<char>::empty()
    };
    let s = text_of(units);
    lemma_digits_of(whole);
    lemma_fundamental_div_mod(magnitude, one);
    lemma_pow10_eighteen();
    assert(s =~= sign + digits + tail);
    assert(is_digit(digits[0]));
    if units < 0 {
        assert(s[0] == '-');
    } else {
        assert(s[0] == digits[0]);
    }
    let body = s.skip(sign_len(s));
    assert(body =~= digits + tail);
    let p = digits.len() as int;
    assert forall|j: int| 0 <= j < p implies #[trigger] body[j] != '.' by {
        assert(body[j] == digits[j]);
        assert(is_digit(digits[j]));
    }
    if frac != 0 {
        assert(body[p] == '.');
    }
    lemma_dot_found(body, p);
    assert(whole_part(body) =~= digits);
    if frac != 0 {
        lemma_trimmed_fraction(frac, 18);
        let t = trimmed_fraction(frac, 18);
        assert(fraction_part(body) =~= t);
        assert(fraction_units(t) == frac);
    } else {
        assert(fraction_part(body) =~= Seq::<char>::empty());
        assert(number_of(Seq::<char>::empty()) == 0);
        assert(fraction_units(Seq::<char>::empty()) == 0) by (nonlinear_arith)
            requires
                number_of(Seq::<char>::empty()) == 0,
                fraction_units(Seq::<char>::empty()) == number_of(Seq::<char>::empty()) * pow10(
                    18,
                ),
        ;
    }
    assert(magnitude_of(body) == magnitude) by (nonlinear_arith)
        requires
            magnitude_of(body) == number_of(whole_part(body)) * (UNITS_PER_ONE as nat)
                + fraction_units(fraction_part(body)),
            number_of(whole_part(body)) == whole,
            fraction_units(fraction_part(body)) == frac,
            magnitude == one * (magnitude / one) + magnitude % one,
            whole == magnitude / one,
            frac == magnitude % one,
            one == UNITS_PER_ONE,
    ;
}

impl Decimal {
    /// Writes the number as text.
    pub fn to_text(&self) -> (r: String)
        ensures
            r@ == text_of(self.units as int),
    {
        let mut out = String::new();
        let magnitude: u128 = if self.units < 0 {
            proof {
                reveal_strlit("-");
            }
            out.append("-");
            gap(self.units, 0)
        } else {
            self.units as u128
        };
        let one: u128 = UNITS_PER_ONE as u128;
        push_number(&mut out, magnitude / one);
        let mut frac: u128 = magnitude % one;
        let ghost whole_text = out@;
        let ghost frac0 = frac as nat;
        if frac != 0 {
            proof {
                reveal_strlit(".");
                lemma_pow10_eighteen();
            }
            out.append(".");
            let mut width: u8 = FRACTION_DIGITS;
            while frac % 10 == 0
                invariant
                    0 < frac < pow10(width as nat),
                    width <= 18,
                    trimmed_fraction(frac as nat, width as nat) == trimmed_fraction(frac0, 18),
                decreases width,
            {
                proof {
                    assert(pow10(0) == 1);
                    assert(width > 0);
                }
                frac = frac / 10;
                width = width - 1;
            }
            push_padded(&mut out, frac, width);
            proof {
                assert(out@ =~= whole_text + (seq!['.'] + trimmed_fraction(frac0, 18)));
            }
        }
        proof {
            assert(out@ =~= text_of(self.units as int));
        }
        out
    }

    /// Reads a number from text: an optional `-` or `+`, digits, and perhaps a
    /// `.` and more digits. Fractional digits beyond the eighteenth are
    /// dropped. Any other text gives `None`, and so does a number out of range.
    pub fn parse(text: &str) -> (r: Option<Decimal>)
        ensures
            r == parsed(text@),
    {
        if !text.is_ascii() {
            proof {
                lemma_not_ascii(text@);
            }
            return None;
        }
        proof {
            is_ascii_spec_bytes(text);
            lemma_pow10_eighteen();
            assert(is_ascii(text));
            assert(text.spec_bytes().len() == text@.len());
        }
        let bytes = text.as_bytes();
        let len: usize = bytes.len();
        proof {
            assert(len == text@.len());
            assert forall|k: int| 0 <= k < len implies #[trigger] bytes@[k] == text@[k] as u8 by {}
        }
        let mut negative = false;
        let mut start: usize = 0;
        if len > 0 {
            let sign: u8 = bytes[0];
            if sign == 45 {
                negative = true;
                start = 1;
            } else if sign == 43 {
                start = 1;
            }
        }
        let ghost body = text@.skip(start as int);
        proof {
            assert(start == sign_len(text@));
            assert(negative == is_negative(text@));
            lemma_dot_position(body);
        }
        // The whole part.
        let mut i: usize = start;
        let mut whole: u128 = 0;
        let mut scanning = true;
        while scanning
            invariant
                text.is_ascii(),
                len == text@.len(),
                len == bytes@.len(),
                forall|k: int| 0 <= k < len ==> #[trigger] bytes@[k] == text@[k] as u8,
                start <= i <= len,
                forall|k: int| start <= k < i ==> is_digit(#[trigger] text@[k]),
                whole == if number_of(text@.subrange(start as int, i as int)) > WHOLE_LIMIT {
                    (WHOLE_LIMIT + 1) as nat
                } else {
                    number_of(text@.subrange(start as int, i as int))
                },
                !scanning ==> i == len || !is_digit(text@[i as int]),
            decreases len - i + (if scanning { 1int } else { 0int }),
        {
            if i == len {
                scanning = false;
            } else {
                let b: u8 = bytes[i];
                if 48 <= b && b <= 57 {
                    proof {
                        assert(text@.subrange(start as int, i + 1).drop_last() =~= text@.subrange(
                            start as int,
                            i as int,
                        ));
                    }
                    let next: u128 = whole * 10 + (b - 48) as u128;
                    whole = if next > WHOLE_LIMIT {
                        WHOLE_LIMIT + 1
                    } else {
                        next
                    };
                    i = i + 1;
                } else {
                    scanning = false;
                }
            }
        }
        let p: usize = i;
        proof {
            assert forall|j: int| 0 <= j < p - start implies #[trigger] body[j] != '.' by {
                assert(body[j] == text@[j + start]);
            }
        }
        if p == start {
            proof {
                if dot_position(body) > 0 {
                    assert(whole_part(body)[0] == body[0]);
                    assert(body[0] == text@[start as int]);
                }
            }
            return None;
        }
        let mut frac_units: u128 = 0;
        if p < len {
            let b: u8 = bytes[p];
            if b != 46 {
                proof {
                    assert(body[p - start] == text@[p as int]);
                    assert(dot_position(body) > p - start);
                    assert(whole_part(body)[p - start] == body[p - start]);
                }
                return None;
            }
            proof {
                assert(body[p - start] == '.');
                lemma_dot_found(body, p - start);
                assert(whole_part(body) =~= text@.subrange(start as int, p as int));
                assert(fraction_part(body) =~= text@.subrange(p + 1, len as int));
            }
            let q: usize = p + 1;
            if q == len {
                return None;
            }
            // The fraction.
            let mut j: usize = q;
            let mut taken: u8 = 0;
            let mut scale: u128 = UNITS_PER_ONE as u128;
            while j < len
                invariant
                    text.is_ascii(),
                    len == text@.len(),
                len == bytes@.len(),
                forall|k: int| 0 <= k < len ==> #[trigger] bytes@[k] == text@[k] as u8,
                    q <= j <= len,
                    forall|k: int| q <= k < j ==> is_digit(#[trigger] text@[k]),
                    taken <= 18,
                    taken == if j - q > 18 {
                        18
                    } else {
                        j - q
                    },
                    scale == pow10((18 - taken) as nat),
                    frac_units == number_of(text@.subrange(q as int, q + taken)) * scale,
                    frac_units + scale <= UNITS_PER_ONE,
                    fraction_part(body) == text@.subrange(q as int, len as int),
                    body == text@.skip(sign_len(text@)),
                decreases len - j,
            {
                let b: u8 = bytes[j];
                if b < 48 || b > 57 {
                    proof {
                        assert(fraction_part(body)[j - q] == text@[j as int]);
                    }
                    return None;
                }
                if taken < 18 {
                    proof {
                        assert(text@.subrange(q as int, j + 1).drop_last() =~= text@.subrange(
                            q as int,
                            j as int,
                        ));
                        assert(pow10((18 - taken) as nat) == 10 * pow10((17 - taken) as nat));
                    }
                    let ghost before = number_of(text@.subrange(q as int, j as int));
                    let digit: u128 = (b - 48) as u128;
                    let finer: u128 = scale / 10;
                    proof {
                        assert((before * 10 + digit) * finer == before * scale + digit * finer)
                            by (nonlinear_arith)
                            requires
                                scale == 10 * finer,
                        ;
                        assert(digit * finer + finer <= scale) by (nonlinear_arith)
                            requires
                                scale == 10 * finer,
                                digit <= 9,
                        ;
                    }
                    frac_units = frac_units + digit * finer;
                    scale = finer;
                    taken = taken + 1;
                }
                j = j + 1;
            }
            proof {
                let fraction = fraction_part(body);
                let kept = if fraction.len() > 18 {
                    fraction.take(18)
                } else {
                    fraction
                };
                assert(kept =~= text@.subrange(q as int, q + taken));
                assert(fraction_units(fraction) == frac_units);
                assert(all_digits(fraction)) by {
                    assert forall|k: int| 0 <= k < fraction.len() implies is_digit(
                        #[trigger] fraction[k],
                    ) by {
                        assert(fraction[k] == text@[k + q]);
                    }
                }
            }
        } else {
            proof {
                lemma_dot_found(body, p - start);
                assert(whole_part(body) =~= text@.subrange(start as int, p as int));
                assert(number_of(Seq::<char>::empty()) == 0);
                assert(fraction_units(fraction_part(body)) == 0) by (nonlinear_arith)
                    requires
                        fraction_units(fraction_part(body)) == number_of(Seq::<char>::empty())
                            * pow10(18),
                        number_of(Seq::<char>::empty()) == 0,
                ;
            }
        }
        proof {
            let w = whole_part(body);
            assert(all_digits(w)) by {
                assert forall|k: int| 0 <= k < w.len() implies is_digit(#[trigger] w[k]) by {
                    assert(w[k] == text@[k + start]);
                }
            }
            assert(well_formed(body));
        }
        if whole > WHOLE_LIMIT {
            proof {
                assert(magnitude_of(body) > i128::MAX + 1) by (nonlinear_arith)
                    requires
                        magnitude_of(body) == number_of(whole_part(body)) * (UNITS_PER_ONE as nat)
                            + fraction_units(fraction_part(body)),
                        number_of(whole_part(body)) > WHOLE_LIMIT,
                        WHOLE_LIMIT == 170_141_183_460_469_231_731,
                        UNITS_PER_ONE == 1_000_000_000_000_000_000,
                ;
            }
            return None;
        }
        let magnitude: u128 = whole * (UNITS_PER_ONE as u128) + frac_units;
        let edge: u128 = i128::MAX as u128;
        if negative {
            if magnitude > edge + 1 {
                None
            } else if magnitude == edge + 1 {
                Some(Decimal { units: i128::MIN })
            } else {
                Some(Decimal { units: -(magnitude as i128) })
            }
        } else {
            if magnitude > edge {
                None
            } else {
                Some(Decimal { units: magnitude as i128 })
            }
        }
    }
}

/// The exact distance between two unit counts given in order.
pub(crate) fn gap(low: i128, high: i128) -> (d: u128)
    requires
        low <= high,
    ensures
        d == high - low,
{
    if low >= 0 || high < 0 {
        (high - low) as u128
    } else {
        let below: u128 = (-(low + 1)) as u128;
        (high as u128) + below + 1
    }
}

/// A saturating sum is the exact sum as long as every partial sum fits.
pub proof fn lemma_saturating_sum_exact(values: Seq<int>)
    requires
        forall|n: int|
            0 <= n <= values.len() ==> i128::MIN <= #[trigger] exact_sum(values.take(n))
                <= i128::MAX,
    ensures
        saturating_sum(values) == exact_sum(values),
    decreases values.len(),
{
    if values.len() > 0 {
        let front = values.drop_last();
        assert forall|n: int| 0 <= n <= front.len() implies i128::MIN <= #[trigger] exact_sum(
            front.take(n),
        ) <= i128::MAX by {
            assert(front.take(n) =~= values.take(n));
        }
        lemma_saturating_sum_exact(front);
        assert(values.take(values.len() as int) =~= values);
    }
}

/// A saturating sum of numbers of which none is negative is their exact sum,
/// or the greatest count of units where that is greater.
pub proof fn lemma_saturating_sum_nonnegative(values: Seq<int>)
    requires
        forall|i: int| 0 <= i < values.len() ==> #[trigger] values[i] >= 0,
    ensures
        exact_sum(values) >= 0,
        saturating_sum(values) == if exact_sum(values) > i128::MAX {
            i128::MAX as int
        } else {
            exact_sum(values)
        },
    decreases values.len(),
{
    if values.len() > 0 {
        lemma_saturating_sum_nonnegative(values.drop_last());
    }
}

} // verus!
