//! Parsing of the digit texts a score document carries: beat counts,
//! beat types, and beats-per-minute numbers with an optional fraction
//! part.

use vstd::prelude::*;
use crate::rational::{frac_eq, int_abs, lemma_norm_frac, Rational};

verus! {

/// ASCII digit.
pub open spec fn is_digit(b: u8) -> bool {
    48 <= b <= 57
}

pub open spec fn all_digits(s: Seq<u8>) -> bool {
    forall|i: int| 0 <= i < s.len() ==> is_digit(#[trigger] s[i])
}

/// The number a text of digits denotes.
pub open spec fn digits_val(s: Seq<u8>) -> int
    decreases s.len(),
{
    if s.len() == 0 {
        0
    } else {
        digits_val(s.drop_last()) * 10 + (s.last() - 48)
    }
}

pub open spec fn pow10(n: nat) -> int
    decreases n,
{
    if n == 0 {
        1
    } else {
        10 * pow10((n - 1) as nat)
    }
}

proof fn lemma_digits_val_bounds(s: Seq<u8>)
    requires
        all_digits(s),
    ensures
        0 <= digits_val(s) < pow10(s.len()),
    decreases s.len(),
{
    if s.len() > 0 {
        assert(all_digits(s.drop_last())) by {
            assert(forall|i: int| 0 <= i < s.len() - 1 ==> s.drop_last()[i] == s[i]);
        }
        lemma_digits_val_bounds(s.drop_last());
    }
}

/// Extending a digit text to the right can only grow its value.
proof fn lemma_digits_val_prefix(s: Seq<u8>, j: int)
    requires
        all_digits(s),
        0 <= j <= s.len(),
    ensures
        digits_val(s.subrange(0, j)) <= digits_val(s),
    decreases s.len() - j,
{
    if j == s.len() {
        assert(s.subrange(0, j) =~= s);
    } else {
        assert(s.subrange(0, j + 1).drop_last() =~= s.subrange(0, j));
        assert(s.subrange(0, j + 1).last() == s[j]);
        assert(all_digits(s.subrange(0, j))) by {
            assert(forall|i: int| 0 <= i < j ==> s.subrange(0, j)[i] == s[i]);
        }
        lemma_digits_val_bounds(s.subrange(0, j));
        assert(digits_val(s.subrange(0, j + 1)) >= digits_val(s.subrange(0, j)));
        lemma_digits_val_prefix(s, j + 1);
    }
}

/// What a beats or beat-type text denotes: a nonempty run of digits
/// whose value fits in `u32`.
pub open spec fn spec_parse_u32(s: Seq<u8>) -> Option<u32> {
    if s.len() >= 1 && all_digits(s) && digits_val(s) <= u32::MAX {
        Some(digits_val(s) as u32)
    } else {
        None
    }
}

/// Parse a nonempty run of digits into a `u32`; `None` on an empty
/// text, a non-digit byte, or a value beyond `u32`.
pub fn parse_u32_digits(text: &Vec<u8>) -> (r: Option<u32>)
    ensures
        r == spec_parse_u32(text@),
{
    if text.len() == 0 {
        return None;
    }
    let mut acc: u32 = 0;
    let mut i: usize = 0;
    while i < text.len()
        invariant
            0 <= i <= text@.len(),
            all_digits(text@.subrange(0, i as int)),
            acc == digits_val(text@.subrange(0, i as int)),
        decreases text@.len() - i,
    {
        let b: u8 = text[i];
        if b < 48 || b > 57 {
            return None;
        }
        let wide: u64 = (acc as u64) * 10 + ((b - 48) as u64);
        proof {
            assert(text@.subrange(0, i + 1).drop_last() =~= text@.subrange(0, i as int));
            assert(text@.subrange(0, i + 1).last() == text@[i as int]);
            assert(all_digits(text@.subrange(0, i + 1)));
        }
        if wide > u32::MAX as u64 {
            proof {
                if all_digits(text@) {
                    lemma_digits_val_prefix(text@, i + 1);
                }
            }
            return None;
        }
        acc = wide as u32;
        i += 1;
    }
    proof {
        assert(text@.subrange(0, text@.len() as int) =~= text@);
    }
    Some(acc)
}

// ---------------------------------------------------------------------------
// Decimal beats-per-minute texts
// ---------------------------------------------------------------------------

/// Index of the first dot at or after `i`, if any.
pub open spec fn first_dot_from(s: Seq<u8>, i: int) -> Option<int>
    decreases s.len() - i,
{
    if i < 0 || i >= s.len() {
        None
    } else if s[i] == 46 {
        Some(i)
    } else {
        first_dot_from(s, i + 1)
    }
}

/// `j` splits the text into a valid integer part and fraction part:
/// one to twelve digits, then optionally a dot and up to six digits.
/// The digit caps keep every tempo this library handles exact in `i64`
/// arithmetic.
pub open spec fn valid_decimal_split(s: Seq<u8>, j: int) -> bool {
    &&& 1 <= j <= s.len()
    &&& j <= 12
    &&& all_digits(s.subrange(0, j))
    &&& (j == s.len() || (s.len() - j - 1 <= 6 && all_digits(
        s.subrange(j + 1, s.len() as int),
    )))
}

/// The fraction a decimal text denotes, split at `j`.
pub open spec fn decimal_value(s: Seq<u8>, j: int) -> (int, int) {
    if j == s.len() {
        (digits_val(s), 1)
    } else {
        let f = (s.len() - j - 1) as nat;
        (digits_val(s.subrange(0, j)) * pow10(f) + digits_val(s.subrange(j + 1, s.len() as int)),
            pow10(f))
    }
}

/// What a beats-per-minute text denotes: digits, optionally a dot and
/// more digits, within the digit caps; split at the first dot.
pub open spec fn spec_parse_decimal(s: Seq<u8>) -> Option<(int, int)> {
    let j = match first_dot_from(s, 0) {
        Option::None => s.len() as int,
        Option::Some(i) => i,
    };
    if valid_decimal_split(s, j) {
        Some(decimal_value(s, j))
    } else {
        None
    }
}

/// A parsed beats-per-minute value is a nonnegative fraction.
pub proof fn lemma_spec_parse_decimal_props(s: Seq<u8>)
    ensures
        spec_parse_decimal(s) matches Some(v) ==> 0 <= v.0 && 1 <= v.1,
{
    if spec_parse_decimal(s) is Some {
        let j = match first_dot_from(s, 0) {
            Option::None => s.len() as int,
            Option::Some(i) => i,
        };
        assert(valid_decimal_split(s, j));
        if j == s.len() {
            lemma_digits_val_bounds(s.subrange(0, j));
            assert(s.subrange(0, j) =~= s);
        } else {
            let f = (s.len() - j - 1) as nat;
            lemma_digits_val_bounds(s.subrange(0, j));
            lemma_digits_val_bounds(s.subrange(j + 1, s.len() as int));
            lemma_pow10_le(0, f);
            assert(digits_val(s.subrange(0, j)) * pow10(f) >= 0) by (nonlinear_arith)
                requires
                    digits_val(s.subrange(0, j)) >= 0,
                    pow10(f) >= 1,
            {}
        }
    }
}

/// Parse digits into a `u64`, given few enough digits that no overflow
/// can occur. Helper for the two parts of a decimal text.
fn parse_digit_run(text: &Vec<u8>, start: usize, end: usize) -> (r: Option<u64>)
    requires
        start <= end <= text@.len(),
        end - start <= 12,
    ensures
        r is Some <==> all_digits(text@.subrange(start as int, end as int)),
        r matches Some(v) ==> v == digits_val(text@.subrange(start as int, end as int)),
{
    let mut acc: u64 = 0;
    let mut i: usize = start;
    proof {
        lemma_digits_val_bounds(text@.subrange(start as int, start as int));
    }
    while i < end
        invariant
            start <= i <= end <= text@.len(),
            end - start <= 12,
            all_digits(text@.subrange(start as int, i as int)),
            acc == digits_val(text@.subrange(start as int, i as int)),
            acc < pow10((i - start) as nat),
        decreases end - i,
    {
        let b: u8 = text[i];
        if b < 48 || b > 57 {
            proof {
                assert(!is_digit(text@.subrange(start as int, end as int)[i - start]));
            }
            return None;
        }
        proof {
            assert(text@.subrange(start as int, i + 1).drop_last()
                =~= text@.subrange(start as int, i as int));
            assert(text@.subrange(start as int, i + 1).last() == text@[i as int]);
            assert(all_digits(text@.subrange(start as int, i + 1)));
            lemma_pow10_le(((i - start) + 1) as nat, 12);
        }
        acc = acc * 10 + ((b - 48) as u64);
        i += 1;
        proof {
            lemma_digits_val_bounds(text@.subrange(start as int, i as int));
        }
    }
    Some(acc)
}

/// `pow10` is monotone, and stays below `u64` range up to 12 digits.
proof fn lemma_pow10_le(n: nat, m: nat)
    requires
        n <= m,
        m <= 12,
    ensures
        pow10(n) <= pow10(m),
        pow10(m) <= 1_000_000_000_000,
    decreases m,
{
    if m > 0 {
        if n == m {
            lemma_pow10_le((m - 1) as nat, (m - 1) as nat);
        } else {
            lemma_pow10_le(n, (m - 1) as nat);
        }
    }
    reveal_with_fuel(pow10, 14);
    assert(pow10(12) == 1_000_000_000_000);
}

/// The sixth power of ten, spelled out.
proof fn lemma_pow10_six()
    ensures
        pow10(6) == 1_000_000,
{
    reveal_with_fuel(pow10, 8);
}

/// Ten to a small exact power.
fn pow10_exec(f: usize) -> (r: u64)
    requires
        f <= 6,
    ensures
        r == pow10(f as nat),
        1 <= r <= 1_000_000,
{
    let mut r: u64 = 1;
    let mut k: usize = 0;
    while k < f
        invariant
            0 <= k <= f <= 6,
            r == pow10(k as nat),
            1 <= r <= 1_000_000,
        decreases f - k,
    {
        proof {
            lemma_pow10_le((k + 1) as nat, 6int as nat);
            lemma_pow10_six();
        }
        r = r * 10;
        k += 1;
    }
    proof {
        lemma_pow10_le(f as nat, 6int as nat);
        lemma_pow10_six();
    }
    r
}

/// Parse a beats-per-minute text into an exact rational. `None` exactly
/// when the text is not a plain decimal number within the digit caps.
pub fn parse_decimal_bpm(text: &Vec<u8>) -> (r: Option<Rational>)
    ensures
        r is Some <==> spec_parse_decimal(text@) is Some,
        r matches Some(q) ==> q.well_formed() && frac_eq(q@, spec_parse_decimal(text@).unwrap())
            && q@.0 >= 0 && int_abs(q@.0) < 1_000_000_000_000_000_000 && 1 <= q@.1
            <= 1_000_000,
{
    // Find the first dot.
    let mut i: usize = 0;
    while i < text.len() && text[i] != 46
        invariant
            0 <= i <= text@.len(),
            first_dot_from(text@, 0) == first_dot_from(text@, i as int),
        decreases text@.len() - i,
    {
        i += 1;
    }
    let dot: usize = i;
    let ghost j: int = dot as int;
    proof {
        if dot < text.len() {
            assert(first_dot_from(text@, dot as int) == Some(dot as int));
        }
        assert(match first_dot_from(text@, 0) {
            Option::None => text@.len() as int,
            Option::Some(k) => k,
        } == j);
    }

    // Validate and evaluate the two parts.
    if dot < 1 || dot > 12 {
        return None;
    }
    let int_part = match parse_digit_run(text, 0, dot) {
        Some(v) => v,
        None => {
            return None;
        },
    };
    proof {
        lemma_digits_val_bounds(text@.subrange(0, j));
        lemma_pow10_le(dot as nat, 12);
        assert(int_part <= 999_999_999_999);
    }
    if dot == text.len() {
        proof {
            assert(text@.subrange(0, j) =~= text@);
        }
        return Some(Rational::from_int(int_part as i64));
    }
    let frac_len: usize = text.len() - dot - 1;
    if frac_len > 6 {
        return None;
    }
    let frac_part = match parse_digit_run(text, dot + 1, text.len()) {
        Some(v) => v,
        None => {
            return None;
        },
    };
    let den: u64 = pow10_exec(frac_len);
    proof {
        lemma_digits_val_bounds(text@.subrange(j + 1, text@.len() as int));
        assert((int_part as int) * (den as int) <= 999_999_999_999_000_000int)
            by (nonlinear_arith)
            requires
                int_part <= 999_999_999_999,
                den <= 1_000_000,
                int_part >= 0,
                den >= 0,
        {}
        assert(frac_part < den);
    }
    let num: u64 = int_part * den + frac_part;
    let q = Rational::new(num as i64, den as i64);
    proof {
        lemma_norm_frac(num as int, den as int);
        assert(decimal_value(text@, j) == (num as int, den as int));
    }
    Some(q)
}

} // verus!
