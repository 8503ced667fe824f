//! Parsing of currency strings such as `"-£123.45"` into an integer number
//! of minor units.

use vstd::prelude::*;
use vstd::string::StrSliceExecFns;

verus! {

/// The ways a currency string can be rejected.
#[derive(Debug, PartialEq, Eq, Structural)]
pub enum ParseMoneyError {
    SymbolErr,
    NoStringErr,
    TwoPointsErr,
    NonDigitErr(char),
    TooFarErr,
}

/// True for the ten decimal digit characters.
pub open spec fn is_digit(c: char) -> bool {
    48 <= c as u32 <= 57
}

/// The numeric value of a decimal digit character.
pub open spec fn digit_val(c: char) -> int {
    c as u32 - 48
}

/// How many `-` characters the string starts with.
pub open spec fn leading_minuses(s: Seq<char>) -> int
    decreases s.len(),
{
    if s.len() > 0 && s[0] == '-' {
        1 + leading_minuses(s.drop_first())
    } else {
        0
    }
}

/// A character the digits-and-point part of a currency string may hold.
pub open spec fn is_clean(c: char) -> bool {
    c == '.' || is_digit(c)
}

/// True when every character after the symbol is a digit or a point.
pub open spec fn tail_clean(s: Seq<char>) -> bool {
    forall|i: int| 0 <= i < s.len() ==> is_clean(s[i])
}

/// The first character that is neither a digit nor a point (a blank when
/// there is none).
pub open spec fn first_bad(s: Seq<char>) -> char
    decreases s.len(),
{
    if s.len() == 0 {
        ' '
    } else if !is_clean(s[0]) {
        s[0]
    } else {
        first_bad(s.drop_first())
    }
}

/// Just the digit characters of a sequence, in order.
pub open spec fn digits_of(s: Seq<char>) -> Seq<char>
    decreases s.len(),
{
    if s.len() == 0 {
        Seq::empty()
    } else if is_digit(s[0]) {
        seq![s[0]] + digits_of(s.drop_first())
    } else {
        digits_of(s.drop_first())
    }
}

/// How many point characters the sequence holds.
pub open spec fn count_points(s: Seq<char>) -> int
    decreases s.len(),
{
    if s.len() == 0 {
        0
    } else {
        (if s[0] == '.' {
            1int
        } else {
            0int
        }) + count_points(s.drop_first())
    }
}

/// How many digit characters follow the first point.
pub open spec fn decimal_places(s: Seq<char>) -> int
    decreases s.len(),
{
    if s.len() == 0 {
        0
    } else if s[0] == '.' {
        digits_of(s.drop_first()).len() as int
    } else {
        decimal_places(s.drop_first())
    }
}

/// The number a sequence of digit characters denotes in decimal.
pub open spec fn digits_to_int(s: Seq<char>) -> int
    decreases s.len(),
{
    if s.len() == 0 {
        0
    } else {
        digits_to_int(s.drop_last()) * 10 + digit_val(s.last())
    }
}

/// Ten to the power `n`.
pub open spec fn pow10(n: nat) -> int
    decreases n,
{
    if n == 0 {
        1
    } else {
        10 * pow10((n - 1) as nat)
    }
}

/// What parsing a currency string yields: the character standing where the
/// currency symbol belongs, and the value in minor units, scaled to exactly
/// `dp` decimal places.
///
/// The string is read as: any number of leading `-` characters, one symbol
/// character, then digits with at most one decimal point.  A string of only
/// minus signs (or nothing) has no symbol; a character after the symbol that
/// is neither digit nor point is reported; more than one point, or more than
/// `dp` digits after the point, is rejected.
pub open spec fn spec_parse_money(s: Seq<char>, dp: int) -> Result<(char, int), ParseMoneyError> {
    let m: int = leading_minuses(s);
    if m == s.len() {
        Err(ParseMoneyError::NoStringErr)
    } else {
        let sym = s[m];
        let tail = s.subrange(m + 1, s.len() as int);
        if !tail_clean(tail) {
            Err(ParseMoneyError::NonDigitErr(first_bad(tail)))
        } else if count_points(tail) > 1 {
            Err(ParseMoneyError::TwoPointsErr)
        } else if decimal_places(tail) > dp {
            Err(ParseMoneyError::TooFarErr)
        } else {
            let mag: int = digits_to_int(digits_of(tail)) * pow10((dp - decimal_places(tail)) as nat);
            Ok((sym, if m >= 1 { -mag } else { mag }))
        }
    }
}

/// The exec parsing result seen as its mathematical counterpart.
pub open spec fn money_result(r: Result<(char, i32), ParseMoneyError>) -> Result<
    (char, int),
    ParseMoneyError,
> {
    match r {
        Ok((c, v)) => Ok((c, v as int)),
        Err(e) => Err(e),
    }
}

/// What checking the symbol on top of parsing yields: the parsed value when
/// the symbol is the expected one, and a symbol error otherwise.
pub open spec fn spec_parse_sym_money(s: Seq<char>, sym: char, dp: int) -> Result<
    int,
    ParseMoneyError,
> {
    match spec_parse_money(s, dp) {
        Ok((c, v)) => if c == sym {
            Ok(v)
        } else {
            Err(ParseMoneyError::SymbolErr)
        },
        Err(e) => Err(e),
    }
}

/// The exec symbol-checked result seen as its mathematical counterpart.
pub open spec fn sym_money_result(r: Result<i32, ParseMoneyError>) -> Result<
    int,
    ParseMoneyError,
> {
    match r {
        Ok(v) => Ok(v as int),
        Err(e) => Err(e),
    }
}

/// Inputs on which parsing completes without overflowing a 32-bit value: a
/// successfully parsed string must carry at most one minus sign and denote a
/// value in the range of `i32`.
pub open spec fn parse_money_fits(s: Seq<char>, dp: int) -> bool {
    spec_parse_money(s, dp) matches Ok((sym, v)) ==> leading_minuses(s) <= 1 && -0x8000_0000 <= v
        <= 0x7fff_ffff
}

/// Reads a currency string as a symbol character and a value in minor
/// units: `"£34.3"` with two decimal places is the symbol `£` and the value
/// 3430.  Leading minus signs negate the value; the digits are scaled to
/// exactly `dpoint` decimal places.
pub fn parse_money(s: &str, dpoint: usize) -> (r: Result<(char, i32), ParseMoneyError>)
    requires
        parse_money_fits(s@, dpoint as int),
    ensures
        money_result(r) == spec_parse_money(s@, dpoint as int),
{
    let n: usize = s.unicode_len();
    let mut m: usize = 0;
    while m < n && s.get_char(m) == '-'
        invariant
            0 <= m <= n,
            n == s@.len(),
            forall|i: int| 0 <= i < m ==> s@[i] == '-',
        decreases n - m,
    {
        m += 1;
    }
    proof {
        lemma_leading_minuses_at(s@, m as int);
    }
    if m == n {
        return Err(ParseMoneyError::NoStringErr);
    }
    let sym = s.get_char(m);
    let ghost tail = s@.subrange(m as int + 1, s@.len() as int);
    let mut i: usize = m + 1;
    let mut points: usize = 0;
    let mut places: usize = 0;
    proof {
        assert(s@.subrange(m as int + 1, m as int + 1) =~= Seq::<char>::empty());
        assert(count_points(Seq::<char>::empty()) == 0);
        assert(decimal_places(Seq::<char>::empty()) == 0);
    }
    while i < n
        invariant
            n == s@.len(),
            m < n,
            m + 1 <= i <= n,
            sym == s@[m as int],
            m as int == leading_minuses(s@),
            tail == s@.subrange(m as int + 1, s@.len() as int),
            points as int == count_points(s@.subrange(m as int + 1, i as int)),
            places as int == decimal_places(s@.subrange(m as int + 1, i as int)),
            points <= i,
            places <= i,
            forall|j: int| m + 1 <= j < i ==> is_clean(s@[j]),
        decreases n - i,
    {
        let c = s.get_char(i);
        let u: u32 = c as u32;
        if u != 46 && (u < 48 || u > 57) {
            proof {
                assert(!is_clean(c));
                assert(forall|j: int| 0 <= j < tail.len() ==> tail[j] == s@[m + 1 + j]);
                lemma_first_bad_at(tail, i - m - 1);
            }
            return Err(ParseMoneyError::NonDigitErr(c));
        }
        proof {
            let pre = s@.subrange(m as int + 1, i as int);
            assert(s@.subrange(m as int + 1, i as int + 1) =~= pre.push(s@[i as int]));
            lemma_count_points_push(pre, s@[i as int]);
            lemma_decimal_places_push(pre, s@[i as int]);
        }
        if c == '.' {
            points += 1;
        } else if points > 0 {
            places += 1;
        }
        i += 1;
    }
    proof {
        assert(tail =~= s@.subrange(m as int + 1, i as int));
        assert(forall|j: int| 0 <= j < tail.len() ==> tail[j] == s@[m + 1 + j]);
        assert(tail_clean(tail));
    }
    if points > 1 {
        return Err(ParseMoneyError::TwoPointsErr);
    }
    if places > dpoint {
        return Err(ParseMoneyError::TooFarErr);
    }
    let ghost dtail = digits_of(tail);
    let ghost scale = (dpoint as int - places as int) as nat;
    let ghost mag = digits_to_int(dtail) * pow10(scale);
    proof {
        assert(spec_parse_money(s@, dpoint as int) == Ok::<(char, int), ParseMoneyError>(
            (sym, if m as int >= 1 { -mag } else { mag }),
        ));
        lemma_digits_of_all_digits(tail);
        lemma_digits_to_int_nonneg(dtail);
        lemma_pow10_pos(scale);
        vstd::arithmetic::mul::lemma_mul_inequality(1, pow10(scale), digits_to_int(dtail));
        vstd::arithmetic::mul::lemma_mul_is_commutative(1, digits_to_int(dtail));
        vstd::arithmetic::mul::lemma_mul_is_commutative(pow10(scale), digits_to_int(dtail));
        assert(digits_to_int(dtail) <= mag);
        assert(mag >= 0);
        assert(m as int <= 1);
        assert(mag <= 0x8000_0000);
    }
    let mut acc: u64 = 0;
    let mut k: usize = m + 1;
    proof {
        assert(digits_of(s@.subrange(m as int + 1, m as int + 1)) =~= Seq::<char>::empty());
        assert(digits_to_int(Seq::<char>::empty()) == 0);
    }
    while k < n
        invariant
            n == s@.len(),
            m < n,
            m + 1 <= k <= n,
            tail == s@.subrange(m as int + 1, s@.len() as int),
            tail_clean(tail),
            dtail == digits_of(tail),
            mag == digits_to_int(dtail) * pow10(scale),
            0 <= mag <= 0x8000_0000,
            0 <= digits_to_int(dtail) <= mag,
            forall|j: int| m + 1 <= j < n ==> is_clean(s@[j]),
            acc as int == digits_to_int(digits_of(s@.subrange(m as int + 1, k as int))),
            acc as int <= mag,
        decreases n - k,
    {
        let c = s.get_char(k);
        let u: u32 = c as u32;
        proof {
            let pre = s@.subrange(m as int + 1, k as int);
            let pre1 = s@.subrange(m as int + 1, k as int + 1);
            let rest = s@.subrange(k as int + 1, n as int);
            assert(pre1 =~= pre + seq![s@[k as int]]);
            lemma_digits_of_append(pre, seq![s@[k as int]]);
            assert(seq![s@[k as int]].drop_first() =~= Seq::<char>::empty());
            assert(digits_of(Seq::<char>::empty()) =~= Seq::<char>::empty());
            assert(tail =~= pre1 + rest);
            lemma_digits_of_append(pre1, rest);
            lemma_digits_of_all_digits(pre1);
            lemma_digits_of_all_digits(rest);
            lemma_digits_to_int_append(digits_of(pre1), digits_of(rest));
            lemma_digits_to_int_nonneg(digits_of(pre1));
            lemma_digits_to_int_nonneg(digits_of(rest));
            lemma_pow10_pos(digits_of(rest).len() as nat);
            vstd::arithmetic::mul::lemma_mul_inequality(
                1,
                pow10(digits_of(rest).len() as nat),
                digits_to_int(digits_of(pre1)),
            );
            vstd::arithmetic::mul::lemma_mul_is_commutative(1, digits_to_int(digits_of(pre1)));
            vstd::arithmetic::mul::lemma_mul_is_commutative(
                pow10(digits_of(rest).len() as nat),
                digits_to_int(digits_of(pre1)),
            );
            assert(digits_to_int(digits_of(pre1)) <= digits_to_int(dtail));
            if is_digit(s@[k as int]) {
                assert(digits_of(pre1) =~= digits_of(pre).push(s@[k as int]));
                assert(digits_of(pre).push(s@[k as int]).drop_last() =~= digits_of(pre));
                assert(digits_to_int(digits_of(pre1)) == digits_to_int(digits_of(pre)) * 10
                    + digit_val(s@[k as int]));
            } else {
                assert(digits_of(pre1) =~= digits_of(pre));
            }
        }
        if u != 46 {
            let d: u64 = (u - 48) as u64;
            acc = acc * 10 + d;
        }
        k += 1;
    }
    proof {
        assert(s@.subrange(m as int + 1, n as int) == tail);
        assert(acc as int == digits_to_int(dtail));
    }
    let mut pad: usize = places;
    proof {
        assert(pow10(0) == 1);
    }
    while pad < dpoint
        invariant
            places <= pad <= dpoint,
            mag == digits_to_int(dtail) * pow10(scale),
            scale == (dpoint as int - places as int) as nat,
            0 <= mag <= 0x8000_0000,
            digits_to_int(dtail) >= 0,
            acc as int == digits_to_int(dtail) * pow10((pad - places) as nat),
            acc as int <= mag,
        decreases dpoint - pad,
    {
        proof {
            let j: nat = (pad - places) as nat;
            assert(pow10((j + 1) as nat) == 10 * pow10(j));
            vstd::arithmetic::mul::lemma_mul_is_associative(digits_to_int(dtail), 10, pow10(j));
            vstd::arithmetic::mul::lemma_mul_is_commutative(digits_to_int(dtail), 10);
            vstd::arithmetic::mul::lemma_mul_is_associative(10, digits_to_int(dtail), pow10(j));
            lemma_pow10_mono((j + 1) as nat, scale);
            vstd::arithmetic::mul::lemma_mul_inequality(
                pow10((j + 1) as nat),
                pow10(scale),
                digits_to_int(dtail),
            );
            vstd::arithmetic::mul::lemma_mul_is_commutative(
                pow10((j + 1) as nat),
                digits_to_int(dtail),
            );
            vstd::arithmetic::mul::lemma_mul_is_commutative(pow10(scale), digits_to_int(dtail));
        }
        acc = acc * 10;
        pad += 1;
    }
    proof {
        assert((pad - places) as nat == scale);
        assert(acc as int == mag);
        if m == 0 {
            assert(mag <= 0x7fff_ffff);
        }
    }
    let v: i32 = if m == 1 {
        (-(acc as i64)) as i32
    } else {
        acc as i32
    };
    Ok((sym, v))
}

/// Reads a currency string as `parse_money` does and then checks the symbol
/// against the one expected, rejecting the value when they differ.
pub fn parse_sym_money(s: &str, sym: char, dpoint: usize) -> (r: Result<i32, ParseMoneyError>)
    requires
        parse_money_fits(s@, dpoint as int),
    ensures
        sym_money_result(r) == spec_parse_sym_money(s@, sym, dpoint as int),
{
    match parse_money(s, dpoint) {
        Ok((c, v)) => {
            if c != sym {
                Err(ParseMoneyError::SymbolErr)
            } else {
                Ok(v)
            }
        },
        Err(e) => Err(e),
    }
}

proof fn lemma_leading_minuses_at(s: Seq<char>, k: int)
    requires
        0 <= k <= s.len(),
        forall|i: int| 0 <= i < k ==> s[i] == '-',
        k < s.len() ==> s[k] != '-',
    ensures
        leading_minuses(s) == k,
    decreases k,
{
    if k > 0 {
        let d = s.drop_first();
        assert(forall|i: int| 0 <= i < d.len() ==> d[i] == s[i + 1]);
        lemma_leading_minuses_at(d, k - 1);
    }
}

proof fn lemma_first_bad_at(s: Seq<char>, k: int)
    requires
        0 <= k < s.len(),
        forall|i: int| 0 <= i < k ==> is_clean(s[i]),
        !is_clean(s[k]),
    ensures
        !tail_clean(s),
        first_bad(s) == s[k],
    decreases k,
{
    if k > 0 {
        let d = s.drop_first();
        assert(forall|i: int| 0 <= i < d.len() ==> d[i] == s[i + 1]);
        lemma_first_bad_at(d, k - 1);
    }
}

proof fn lemma_count_points_nonneg(s: Seq<char>)
    ensures
        count_points(s) >= 0,
    decreases s.len(),
{
    if s.len() > 0 {
        lemma_count_points_nonneg(s.drop_first());
    }
}

proof fn lemma_count_points_push(s: Seq<char>, c: char)
    ensures
        count_points(s.push(c)) == count_points(s) + (if c == '.' {
            1int
        } else {
            0int
        }),
    decreases s.len(),
{
    let p = s.push(c);
    if s.len() == 0 {
        assert(p.drop_first() =~= Seq::<char>::empty());
        assert(count_points(Seq::<char>::empty()) == 0);
        assert(count_points(s) == 0);
        assert(p[0] == c);
    } else {
        assert(p[0] == s[0]);
        assert(p.drop_first() =~= s.drop_first().push(c));
        lemma_count_points_push(s.drop_first(), c);
    }
}

proof fn lemma_digits_of_append(a: Seq<char>, b: Seq<char>)
    ensures
        digits_of(a + b) == digits_of(a) + digits_of(b),
    decreases a.len(),
{
    if a.len() == 0 {
        assert(a + b =~= b);
        assert(digits_of(a) + digits_of(b) =~= digits_of(b));
    } else {
        assert((a + b).len() > 0);
        assert((a + b)[0] == a[0]);
        assert((a + b).drop_first() =~= a.drop_first() + b);
        lemma_digits_of_append(a.drop_first(), b);
        if is_digit(a[0]) {
            assert(seq![a[0]] + (digits_of(a.drop_first()) + digits_of(b)) =~= (seq![a[0]]
                + digits_of(a.drop_first())) + digits_of(b));
        }
    }
}

proof fn lemma_digits_of_all_digits(s: Seq<char>)
    ensures
        forall|i: int| 0 <= i < digits_of(s).len() ==> is_digit(digits_of(s)[i]),
    decreases s.len(),
{
    if s.len() > 0 {
        lemma_digits_of_all_digits(s.drop_first());
        assert forall|i: int| 0 <= i < digits_of(s).len() implies is_digit(digits_of(s)[i]) by {
            if is_digit(s[0]) {
                assert(digits_of(s) == seq![s[0]] + digits_of(s.drop_first()));
                if i > 0 {
                    assert(digits_of(s)[i] == digits_of(s.drop_first())[i - 1]);
                }
            } else {
                assert(digits_of(s) == digits_of(s.drop_first()));
            }
        }
    }
}

proof fn lemma_decimal_places_push(s: Seq<char>, c: char)
    ensures
        decimal_places(s.push(c)) == decimal_places(s) + (if count_points(s) > 0 && is_digit(c) {
            1int
        } else {
            0int
        }),
    decreases s.len(),
{
    let p = s.push(c);
    if s.len() == 0 {
        assert(p.drop_first() =~= Seq::<char>::empty());
        assert(p[0] == c);
        assert(digits_of(Seq::<char>::empty()) =~= Seq::<char>::empty());
        assert(decimal_places(Seq::<char>::empty()) == 0);
        assert(count_points(s) == 0);
        assert(decimal_places(s) == 0);
        assert(decimal_places(p) == 0);
    } else {
        assert(p[0] == s[0]);
        assert(p.drop_first() =~= s.drop_first().push(c));
        if s[0] == '.' {
            lemma_count_points_nonneg(s.drop_first());
            assert(count_points(s) > 0);
            lemma_digits_of_append(s.drop_first(), seq![c]);
            assert(s.drop_first().push(c) =~= s.drop_first() + seq![c]);
            assert(seq![c].drop_first() =~= Seq::<char>::empty());
            assert(digits_of(Seq::<char>::empty()) =~= Seq::<char>::empty());
            assert(digits_of(seq![c]) =~= if is_digit(c) {
                seq![c]
            } else {
                Seq::<char>::empty()
            });
        } else {
            lemma_decimal_places_push(s.drop_first(), c);
            lemma_count_points_nonneg(s.drop_first());
        }
    }
}

proof fn lemma_digits_to_int_nonneg(s: Seq<char>)
    requires
        forall|i: int| 0 <= i < s.len() ==> is_digit(s[i]),
    ensures
        digits_to_int(s) >= 0,
    decreases s.len(),
{
    if s.len() > 0 {
        assert(forall|i: int| 0 <= i < s.drop_last().len() ==> s.drop_last()[i] == s[i]);
        lemma_digits_to_int_nonneg(s.drop_last());
    }
}

proof fn lemma_pow10_pos(n: nat)
    ensures
        pow10(n) >= 1,
    decreases n,
{
    if n > 0 {
        lemma_pow10_pos((n - 1) as nat);
    }
}

proof fn lemma_pow10_mono(a: nat, b: nat)
    requires
        a <= b,
    ensures
        pow10(a) <= pow10(b),
    decreases b,
{
    if a < b {
        lemma_pow10_mono(a, (b - 1) as nat);
        lemma_pow10_pos((b - 1) as nat);
    }
}

proof fn lemma_digits_to_int_append(a: Seq<char>, b: Seq<char>)
    requires
        forall|i: int| 0 <= i < a.len() ==> is_digit(a[i]),
        forall|i: int| 0 <= i < b.len() ==> is_digit(b[i]),
    ensures
        digits_to_int(a + b) == digits_to_int(a) * pow10(b.len()) + digits_to_int(b),
    decreases b.len(),
{
    if b.len() == 0 {
        assert(a + b =~= a);
    } else {
        let b0 = b.drop_last();
        assert(forall|i: int| 0 <= i < b0.len() ==> b0[i] == b[i]);
        lemma_digits_to_int_append(a, b0);
        assert((a + b).drop_last() =~= a + b0);
        assert((a + b).last() == b.last());
        assert(digits_to_int(a + b) == digits_to_int(a + b0) * 10 + digit_val(b.last()));
        assert(digits_to_int(a) * pow10(b0.len()) * 10 == digits_to_int(a) * pow10(b.len())) by {
            assert(pow10(b.len()) == 10 * pow10(b0.len()));
            vstd::arithmetic::mul::lemma_mul_is_associative(digits_to_int(a), pow10(b0.len()), 10);
            vstd::arithmetic::mul::lemma_mul_is_commutative(pow10(b0.len()), 10);
            vstd::arithmetic::mul::lemma_mul_is_associative(digits_to_int(a), 10, pow10(b0.len()));
            vstd::arithmetic::mul::lemma_mul_is_commutative(
                digits_to_int(a) * 10,
                pow10(b0.len()),
            );
        };
    }
}

} // verus!
