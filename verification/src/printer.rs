//! Formatting of an integer number of minor units as a currency string such
//! as `"-£123.45"`.

use vstd::prelude::*;

verus! {

/// The digit character for a value between 0 and 9.
pub open spec fn digit_char(d: int) -> char {
    ((48 + d) as u32) as char
}

/// The decimal digit characters of a non-negative number, most significant
/// first, with no leading zeros (a single `0` for zero).
pub open spec fn dec_digits(n: int) -> Seq<char>
    decreases n,
{
    if n < 10 {
        seq![digit_char(n)]
    } else {
        dec_digits(n / 10).push(digit_char(n % 10))
    }
}

/// A run of `k` zero characters (none when `k` is not positive).
pub open spec fn zeros(k: int) -> Seq<char>
    decreases k,
{
    if k <= 0 {
        Seq::empty()
    } else {
        seq!['0'] + zeros(k - 1)
    }
}

/// The printed form of a value in minor units: an optional minus sign, the
/// symbol, the digits of the magnitude padded with zeros to at least `dp + 1`
/// digits, and a decimal point before the last `dp` of them.
pub open spec fn spec_display_curr(v: int, sym: char, dp: int) -> Seq<char> {
    let sign: Seq<char> = if v < 0 {
        seq!['-']
    } else {
        Seq::empty()
    };
    let mag: int = if v < 0 {
        -v
    } else {
        v
    };
    let padded = zeros(dp + 1 - dec_digits(mag).len()) + dec_digits(mag);
    let split: int = padded.len() - dp;
    sign + seq![sym] + padded.take(split) + seq!['.'] + padded.skip(split)
}

proof fn lemma_zeros(k: int)
    ensures
        zeros(k).len() == if k >= 0 {
            k
        } else {
            0
        },
        forall|i: int| 0 <= i < zeros(k).len() ==> zeros(k)[i] == '0',
    decreases k,
{
    if k > 0 {
        lemma_zeros(k - 1);
        assert forall|i: int| 0 <= i < zeros(k).len() implies zeros(k)[i] == '0' by {
            if i > 0 {
                assert(zeros(k)[i] == zeros(k - 1)[i - 1]);
            }
        }
    }
}

/// Relies on String::push: it appends exactly the given character.
#[verifier::external_body]
fn push_char(s: &mut String, c: char)
    ensures
        final(s)@ == old(s)@.push(c),
{
    s.push(c);
}

/// The decimal digit characters of `n`, most significant first.
fn digit_chars(n: u32) -> (r: Vec<char>)
    ensures
        r@ == dec_digits(n as int),
    decreases n,
{
    let d: u8 = (n % 10) as u8;
    let c: char = (48 + d) as char;
    if n < 10 {
        let mut r: Vec<char> = Vec::new();
        r.push(c);
        proof {
            assert(r@ =~= dec_digits(n as int));
        }
        r
    } else {
        let mut r = digit_chars(n / 10);
        r.push(c);
        proof {
            assert(r@ =~= dec_digits(n as int));
        }
        r
    }
}

/// Prints a value in minor units as a currency string: `display_curr(-3456,
/// '£', 2)` is `"-£34.56"`.  The magnitude is padded with zeros so that at
/// least one digit stands before the decimal point and exactly `dp` after
/// it.
pub fn display_curr(v: i32, sym: char, dp: usize) -> (r: String)
    requires
        v as int > -0x8000_0000,
        dp as int + 1 < 0x8000_0000,
    ensures
        r@ == spec_display_curr(v as int, sym, dp as int),
{
    let mut out = String::new();
    let neg: bool = v < 0;
    if neg {
        push_char(&mut out, '-');
    }
    push_char(&mut out, sym);
    let ghost sign: Seq<char> = if neg {
        seq!['-']
    } else {
        Seq::empty()
    };
    let ghost base = sign + seq![sym];
    proof {
        assert(out@ =~= base);
    }
    let mag: u32 = if neg {
        (-(v as i64)) as u32
    } else {
        v as u32
    };
    let mut digits = digit_chars(mag);
    let dlen: usize = digits.len();
    let z: usize = if dlen < dp + 1 {
        dp + 1 - dlen
    } else {
        0
    };
    proof {
        lemma_zeros(z as int);
    }
    let mut padded: Vec<char> = Vec::new();
    let mut zi: usize = 0;
    while zi < z
        invariant
            0 <= zi <= z,
            padded@.len() == zi,
            forall|i: int| 0 <= i < padded@.len() ==> padded@[i] == '0',
        decreases z - zi,
    {
        padded.push('0');
        zi += 1;
    }
    proof {
        lemma_zeros(z as int);
        assert(padded@ =~= zeros(z as int));
    }
    padded.append(&mut digits);
    proof {
        assert(padded@ == zeros(z as int) + dec_digits(mag as int));
        assert(padded@ == zeros(dp as int + 1 - dec_digits(mag as int).len()) + dec_digits(
            mag as int,
        ));
        assert(padded@.len() >= dp + 1);
    }
    let split: usize = padded.len() - dp;
    let mut i: usize = 0;
    while i < padded.len()
        invariant
            0 <= i <= padded@.len(),
            0 < split <= padded@.len(),
            dp == padded@.len() - split,
            i <= split ==> out@ == base + padded@.take(i as int),
            i > split ==> out@ == base + padded@.take(split as int) + seq!['.']
                + padded@.subrange(split as int, i as int),
        decreases padded@.len() - i,
    {
        if i == split {
            push_char(&mut out, '.');
            proof {
                assert(padded@.subrange(split as int, split as int) =~= Seq::<char>::empty());
                assert(out@ =~= base + padded@.take(split as int) + seq!['.'] + padded@.subrange(
                    split as int,
                    split as int,
                ));
            }
        }
        let c = padded[i];
        push_char(&mut out, c);
        proof {
            if i < split {
                assert(out@ =~= base + padded@.take(i as int + 1));
            } else {
                assert(out@ =~= base + padded@.take(split as int) + seq!['.'] + padded@.subrange(
                    split as int,
                    i as int + 1,
                ));
            }
        }
        i += 1;
    }
    if dp == 0 {
        push_char(&mut out, '.');
        proof {
            assert(padded@.take(split as int) =~= padded@);
            assert(padded@.skip(split as int) =~= Seq::<char>::empty());
            assert(out@ =~= base + padded@.take(split as int) + seq!['.'] + padded@.skip(
                split as int,
            ));
        }
    }
    proof {
        assert(out@ =~= spec_display_curr(v as int, sym, dp as int));
    }
    out
}

} // verus!
